use dxf_parser::json::{
    error_json, json_escape, result_buf, success_json, write_result_json, EntityJson, VertexJson,
};

#[test]
fn escape_short_and_unicode_forms() {
    assert_eq!(json_escape("a\"b\\c"), "a\\\"b\\\\c");
    assert_eq!(json_escape("x\ny\rz\t"), "x\\ny\\rz\\t");
    assert_eq!(json_escape("\u{1}\u{7f}\u{9f}é"), "\\u0001\\u007f\\u009fé");
}

#[test]
fn error_document_shape() {
    assert_eq!(
        error_json("Input file is empty."),
        "{\"ok\":false,\"error\":\"Input file is empty.\",\"warnings\":[]}"
    );
    assert_eq!(error_json("a\"b"), "{\"ok\":false,\"error\":\"a\\\"b\",\"warnings\":[]}");
}

#[test]
fn success_document_shape() {
    let entity = EntityJson {
        kind: "text".to_string(),
        layer: Some("A\"".to_string()),
        text: None,
        text_height: Some("2.500000".to_string()),
        vertices: vec![
            VertexJson { x: "0.000000".to_string(), y: "1.000000".to_string(), z: "2.000000".to_string() },
            VertexJson { x: "3".to_string(), y: "4".to_string(), z: "5".to_string() },
        ],
    };
    let doc = success_json(&[entity], &["w1".to_string(), "w\n2".to_string()]);
    assert_eq!(
        doc,
        "{\"ok\":true,\"entities\":[{\"kind\":\"text\",\"layer\":\"A\\\"\",\"text\":null,\"textHeight\":2.500000,\"vertices\":[[0.000000,1.000000,2.000000],[3,4,5]]}],\"warnings\":[\"w1\",\"w\\n2\"]}"
    );
    assert_eq!(success_json(&[], &[]), "{\"ok\":true,\"entities\":[],\"warnings\":[]}");
}

#[test]
fn result_buffer_holds_the_last_document() {
    let mut buf = result_buf();
    assert!(buf.is_empty());
    write_result_json(&mut buf, "{\"ok\":true}".to_string());
    assert_eq!(buf, b"{\"ok\":true}".to_vec());
    write_result_json(&mut buf, "é".to_string());
    assert_eq!(buf, "é".as_bytes().to_vec());
}

fn unescape(body: &str) -> String {
    let mut out = String::new();
    let mut it = body.chars();
    while let Some(c) = it.next() {
        if c != '\\' {
            out.push(c);
            continue;
        }
        match it.next().expect("escape") {
            'n' => out.push('\n'),
            'r' => out.push('\r'),
            't' => out.push('\t'),
            'u' => {
                let hex: String = it.by_ref().take(4).collect();
                let code = u32::from_str_radix(&hex, 16).expect("hex");
                out.push(char::from_u32(code).expect("char"));
            }
            other => out.push(other),
        }
    }
    out
}

#[test]
fn escaped_text_reads_back() {
    for s in ["plain", "quote \" and \\ slash", "lines\n\r\t", "\u{0}\u{1f}\u{7f}\u{85}", "ü → ✓"] {
        let escaped = json_escape(s);
        assert!(!escaped.chars().any(|c| c.is_control()));
        assert_eq!(unescape(&escaped), s);
    }
}

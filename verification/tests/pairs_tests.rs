use dxf_parser::chars::{parse_i32, trim_chars};
use dxf_parser::pairs::{parse_pairs, split_lines, Pair};

fn view(pairs: &[Pair]) -> Vec<(i32, String)> {
    pairs.iter().map(|p| (p.code, p.value.clone())).collect()
}

#[test]
fn pairs_from_simple_section() {
    let pairs = parse_pairs("0\nSECTION\n2\nENTITIES\n0\nENDSEC\n0\nEOF\n").expect("pairs");
    assert_eq!(
        view(&pairs),
        vec![
            (0, "SECTION".to_string()),
            (2, "ENTITIES".to_string()),
            (0, "ENDSEC".to_string()),
            (0, "EOF".to_string()),
        ]
    );
}

#[test]
fn pairs_trim_codes_and_values() {
    let pairs = parse_pairs("  10 \n  1.5  \n\t8\n LAYER A \n").expect("pairs");
    assert_eq!(view(&pairs), vec![(10, "1.5".to_string()), (8, "LAYER A".to_string())]);
}

#[test]
fn pairs_accept_every_line_break() {
    let crlf = parse_pairs("0\r\nLINE\r\n8\r\nL\r\n").expect("crlf");
    let cr = parse_pairs("0\rLINE\r8\rL\r").expect("cr");
    let lf = parse_pairs("0\nLINE\n8\nL\n").expect("lf");
    assert_eq!(view(&crlf), view(&lf));
    assert_eq!(view(&cr), view(&lf));
}

#[test]
fn pairs_ignore_odd_last_line() {
    let pairs = parse_pairs("0\nLINE\n8").expect("pairs");
    assert_eq!(view(&pairs), vec![(0, "LINE".to_string())]);
}

#[test]
fn pairs_refuse_short_input() {
    assert_eq!(
        parse_pairs("0").unwrap_err(),
        "DXF input is too short to parse group code pairs."
    );
    assert_eq!(
        parse_pairs("").unwrap_err(),
        "DXF input is too short to parse group code pairs."
    );
}

#[test]
fn pairs_name_the_bad_group_code_line() {
    assert_eq!(
        parse_pairs("0\nLINE\nabc\n1\n").unwrap_err(),
        "Invalid group code 'abc' at line 3."
    );
    assert_eq!(
        parse_pairs("0\nA\n2\nB\n 9x \nC\n").unwrap_err(),
        "Invalid group code '9x' at line 5."
    );
}

#[test]
fn lines_split_like_str_lines() {
    let lines = split_lines("a\r\nb\rc\n\nd\n");
    let text: Vec<String> = lines.iter().map(|l| l.iter().collect()).collect();
    assert_eq!(text, vec!["a", "b", "c", "", "d"]);
    assert!(split_lines("").is_empty());
    assert_eq!(split_lines("\n").len(), 1);
}

#[test]
fn i32_reading_matches_std() {
    for s in ["0", "+7", "-7", "2147483647", "-2147483648", "2147483648", "-", "+", "", "1e3", "0070", " 1"] {
        let chars: Vec<char> = s.chars().collect();
        assert_eq!(parse_i32(&chars), s.parse::<i32>().ok(), "{s}");
    }
}

#[test]
fn trim_matches_std() {
    for s in ["  a b  ", "\u{3000}x\u{a0}", "", "   ", "\tq\r\n"] {
        let chars: Vec<char> = s.chars().collect();
        let trimmed: String = trim_chars(&chars).into_iter().collect();
        assert_eq!(trimmed, s.trim());
    }
}

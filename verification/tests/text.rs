use httpfromtcp::lines::LineAssembler;
use httpfromtcp::text::{
    parse_usize_chars, push_decimal, push_hex_upper, split_at_char, split_words, to_hex_string,
    trim_bounds,
};

fn chars(s: &str) -> Vec<char> {
    s.chars().collect()
}

#[test]
fn usize_parsing_follows_std() {
    for s in ["0", "13", "+7", "007", "18446744073709551615", "", "+", "-1", " 1", "1a", "++1"] {
        assert_eq!(parse_usize_chars(&chars(s)), s.parse::<usize>().ok(), "input {:?}", s);
    }
    assert_eq!(parse_usize_chars(&chars("18446744073709551616")), "18446744073709551616".parse::<usize>().ok());
}

#[test]
fn decimal_and_hex_rendering() {
    let mut out = Vec::new();
    push_decimal(0, &mut out);
    push_decimal(4096, &mut out);
    assert_eq!(out.iter().collect::<String>(), "04096");
    let mut hex = Vec::new();
    push_hex_upper(255, &mut hex);
    assert_eq!(hex.iter().collect::<String>(), "FF");
    assert_eq!(
        to_hex_string(&vec![0x00, 0x0f, 0xab]).iter().collect::<String>(),
        "000fab"
    );
}

#[test]
fn trimming_follows_std_whitespace() {
    for s in ["  a b  ", "\t\u{a0}x\u{3000}", "", "   ", "x"] {
        let c = chars(s);
        let (a, b) = trim_bounds(&c);
        assert_eq!(c[a..b].iter().collect::<String>(), s.trim());
    }
}

#[test]
fn splitting_follows_std() {
    for s in [" GET  /  HTTP/1.1 ", "", "a\u{2003}b"] {
        let w: Vec<String> = split_words(&chars(s)).iter().map(|w| w.iter().collect()).collect();
        let expected: Vec<String> = s.split_whitespace().map(|w| w.to_string()).collect();
        assert_eq!(w, expected);
    }
    for s in ["a, b", "", ",", "x,y,"] {
        let p: Vec<String> = split_at_char(&chars(s), ',').iter().map(|w| w.iter().collect()).collect();
        let expected: Vec<String> = s.split(',').map(|w| w.to_string()).collect();
        assert_eq!(p, expected);
    }
}

#[test]
fn line_assembler_splits_at_first_newline_of_a_chunk() {
    let mut a = LineAssembler::new();
    assert_eq!(a.push_chunk(b"GET / HT"), None);
    assert_eq!(a.push_chunk(b"TP/1.1\r\nHo"), Some("GET / HTTP/1.1\r".to_string()));
    assert_eq!(a.current_line, "Ho");
    assert_eq!(a.push_chunk(b"st\nx\ny"), Some("Host".to_string()));
    assert_eq!(a.current_line, "x\ny");
}

#[test]
fn written_decimal_reads_back() {
    for n in [0usize, 9, 10, 13, 4096, usize::MAX] {
        let mut out = Vec::new();
        push_decimal(n, &mut out);
        assert_eq!(parse_usize_chars(&out), Some(n));
    }
}

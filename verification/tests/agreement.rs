use readcon_core::error::ParseError;
use readcon_core::number::{parse_count, Number};
use readcon_core::parser::parse_line_of_n;
use readcon_core::text::{line_is_blank, trim_line, LineCursor};

fn words(alphabet: &[char], max_len: usize) -> Vec<String> {
    let mut all = vec![String::new()];
    let mut last = vec![String::new()];
    for _ in 0..max_len {
        let mut next = Vec::new();
        for w in &last {
            for c in alphabet {
                let mut s = w.clone();
                s.push(*c);
                next.push(s);
            }
        }
        all.extend(next.iter().cloned());
        last = next;
    }
    all
}

#[test]
fn numbers_are_what_the_standard_library_reads_as_numbers() {
    let alphabet = ['1', '0', '.', 'e', 'E', '+', '-', 'i', 'n', 'f', 'a'];
    for text in words(&alphabet, 5) {
        let ours = Number::parse(&text);
        let theirs = text.parse::<f64>();
        assert_eq!(ours.is_ok(), theirs.is_ok(), "{:?}", text);
        match (ours, theirs) {
            (Err(ParseError::InvalidNumberFormat(m)), Err(e)) => {
                assert_eq!(m, e.to_string(), "{:?}", text)
            }
            (Ok(n), Ok(_)) => assert_eq!(n.as_bytes(), text.as_bytes()),
            (a, b) => panic!("{:?}: {:?} against {:?}", text, a, b),
        }
    }
    for text in ["infinity", "Infinity", "INFINITY", "-iNfInItY", "+infinity", "infinityy", "nan ", "ınf"] {
        assert_eq!(Number::parse(text).is_ok(), text.parse::<f64>().is_ok(), "{:?}", text);
    }
}

#[test]
fn counts_are_what_the_standard_library_reads_as_counts() {
    let alphabet = ['0', '7', '9', '+', '-', 'x', ' '];
    for text in words(&alphabet, 5) {
        let ours = parse_count(text.as_bytes());
        let theirs = text.parse::<usize>();
        match (ours, theirs) {
            (Ok(a), Ok(b)) => assert_eq!(a, b, "{:?}", text),
            (Err(ParseError::InvalidNumberFormat(m)), Err(e)) => {
                assert_eq!(m, e.to_string(), "{:?}", text)
            }
            (a, b) => panic!("{:?}: {:?} against {:?}", text, a, b),
        }
    }
    for text in [
        "18446744073709551615",
        "18446744073709551616",
        "+18446744073709551615",
        "000000000000000000000000000001",
        "184467440737095516150",
        "99999999999999999999x",
        "1844674407370955161x",
        "٣",
    ] {
        let ours = parse_count(text.as_bytes());
        let theirs = text.parse::<usize>();
        match (ours, theirs) {
            (Ok(a), Ok(b)) => assert_eq!(a, b, "{:?}", text),
            (Err(ParseError::InvalidNumberFormat(m)), Err(e)) => {
                assert_eq!(m, e.to_string(), "{:?}", text)
            }
            (a, b) => panic!("{:?}: {:?} against {:?}", text, a, b),
        }
    }
}

const MARKS: [char; 22] = [
    'a', ' ', '\t', '\r', '\u{b}', '\u{c}', '\u{85}', '\u{a0}', '\u{1680}', '\u{2000}',
    '\u{2005}', '\u{200a}', '\u{200b}', '\u{2028}', '\u{2029}', '\u{202f}', '\u{205f}',
    '\u{3000}', '\u{e2}', '\u{2080}', '\u{1f600}', '\u{c2}',
];

#[test]
fn whitespace_is_what_the_standard_library_takes_for_whitespace() {
    for text in words(&MARKS, 3) {
        assert_eq!(line_is_blank(&text), text.trim().is_empty(), "{:?}", text);
        assert_eq!(trim_line(&text), text.trim(), "{:?}", text);
    }
    for c in 0u32..0x3100 {
        if let Some(ch) = char::from_u32(c) {
            let text = format!("1{}2", ch);
            let ours = parse_line_of_n::<usize>(&text, 2).is_ok();
            assert_eq!(ours, ch.is_whitespace(), "U+{:04X}", c);
            let single = ch.to_string();
            assert_eq!(line_is_blank(&single), ch.is_whitespace(), "U+{:04X}", c);
        }
    }
}

#[test]
fn tokens_are_what_the_standard_library_splits_off() {
    let alphabet = ['1', '2', ' ', '\t', '\u{a0}', '\u{3000}', '\r'];
    for text in words(&alphabet, 5) {
        let theirs: Vec<usize> = text.split_whitespace().map(|t| t.parse().unwrap()).collect();
        let ours = parse_line_of_n::<usize>(&text, theirs.len()).unwrap();
        assert_eq!(ours, theirs, "{:?}", text);
    }
}

#[test]
fn lines_are_what_the_standard_library_takes_for_lines() {
    let alphabet = ['a', '\r', '\n', ' ', 'é'];
    for text in words(&alphabet, 6) {
        let theirs: Vec<&str> = text.lines().collect();
        let mut cursor = LineCursor::new(&text);
        let mut ours = Vec::new();
        loop {
            let peeked = cursor.peek_line();
            let at = cursor.position();
            match cursor.next_line() {
                Some(l) => {
                    assert_eq!(peeked, Some(l));
                    assert!(text.is_char_boundary(at));
                    ours.push(l);
                }
                None => {
                    assert_eq!(peeked, None);
                    assert!(cursor.at_end());
                    assert_eq!(cursor.position(), text.len());
                    break;
                }
            }
        }
        assert_eq!(ours, theirs, "{:?}", text);
    }
}

#[test]
fn flag_and_identifier_agree_with_binary_numbers_on_plain_values() {
    for text in [
        "0", "1", "0.0", "1.0", "2", "0.5", "-1", "-0.0", "218", "218.0", "218.75", "1e3", "1.5e2",
        "25e-1", "4294967296", "9007199254740992", "1e18", "1e19", "1e20", "1e300", "inf", "-inf",
        "nan", "0.000001", "123456789.987654321",
    ] {
        let n = Number::parse(text).unwrap();
        let x: f64 = text.parse().unwrap();
        assert_eq!(n.is_nonzero(), x != 0.0, "{}", text);
        assert_eq!(n.to_u64(), x as u64, "{}", text);
    }
}

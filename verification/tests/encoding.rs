use ironhide_cli::database::{convert_str_to_vec, convert_vec_to_str};
use ironhide_cli::text::{
    chars_of, parse_byte_list_chars, parse_unsigned_range, to_ascii_lowercase,
    to_ascii_uppercase, trim_end_chars,
};

/// The stored form written with `format!`: the `Debug` text of the
/// vector without its brackets.
fn debug_without_brackets(v: &Vec<u8>) -> String {
    let s = format!("{:?}", v);
    s[1..s.len() - 1].to_string()
}

/// The same reading done with `str::split` and `str::parse::<u8>`.
fn split_and_parse(s: &str) -> Option<Vec<u8>> {
    let mut out = Vec::new();
    for piece in s.split(", ") {
        match piece.parse::<u8>() {
            Ok(b) => out.push(b),
            Err(_) => return None,
        }
    }
    Some(out)
}

#[test]
fn vec_to_str_exact_values() {
    assert_eq!(convert_vec_to_str(vec![1, 2, 255]), "1, 2, 255");
    assert_eq!(convert_vec_to_str(vec![0]), "0");
    assert_eq!(convert_vec_to_str(vec![10, 100, 9, 99]), "10, 100, 9, 99");
    assert_eq!(convert_vec_to_str(vec![]), "");
}

#[test]
fn vec_to_str_matches_debug_format() {
    let mut v: Vec<u8> = Vec::new();
    for b in 0..=255u8 {
        v.push(b);
        assert_eq!(convert_vec_to_str(v.clone()), debug_without_brackets(&v));
    }
}

#[test]
fn str_to_vec_exact_values() {
    assert_eq!(convert_str_to_vec("1, 2, 255".to_string()), vec![1, 2, 255]);
    assert_eq!(convert_str_to_vec("+7, 007".to_string()), vec![7, 7]);
    assert_eq!(convert_str_to_vec("0".to_string()), vec![0]);
}

#[test]
fn byte_list_round_trip() {
    let samples: Vec<Vec<u8>> = vec![
        vec![0],
        vec![255, 0, 17],
        (0..=255u8).collect(),
        vec![42; 100],
    ];
    for v in samples {
        let text = convert_vec_to_str(v.clone());
        assert_eq!(convert_str_to_vec(text), v);
    }
}

#[test]
fn byte_list_refuses_what_parse_refuses() {
    let cases = [
        "", "256", "1,2", "1, -2", "1, ", ", 1", "1,  2", " 1", "+", "-0", "1, 2,", "a", "1, 1000",
        "1 , 2", "1, 2, 3", "+1, +2", "00000000000000000000255",
    ];
    for c in cases.iter() {
        let chars = chars_of(c);
        assert_eq!(parse_byte_list_chars(&chars), split_and_parse(c), "input {:?}", c);
    }
}

#[test]
fn unsigned_parse_matches_std() {
    let cases = [
        "", "+", "-", "-0", "+0", "0", "7", "007", "255", "256", "1000", " 1", "1 ", "+255", "++1",
        "12a", "99999999999999999999999999", "18446744073709551615", "18446744073709551616",
    ];
    for c in cases.iter() {
        let chars = chars_of(c);
        let got = parse_unsigned_range(&chars, 0, chars.len(), 255);
        assert_eq!(got, c.parse::<u8>().ok().map(|b| b as u64), "u8 input {:?}", c);
        let got = parse_unsigned_range(&chars, 0, chars.len(), u64::MAX);
        assert_eq!(got, c.parse::<u64>().ok(), "u64 input {:?}", c);
    }
}

#[test]
fn parse_range_reads_a_slice() {
    let chars = chars_of("ab123cd");
    assert_eq!(parse_unsigned_range(&chars, 2, 5, 255), Some(123));
    assert_eq!(parse_unsigned_range(&chars, 1, 5, 255), None);
}

#[test]
fn ascii_case_matches_std() {
    let s = "abcdefghijlmnopqrstuvwxyz ABC xyz-09 éß";
    assert_eq!(to_ascii_uppercase(s), s.to_ascii_uppercase());
    let lower: String = to_ascii_lowercase(s).into_iter().collect();
    assert_eq!(lower, s.to_ascii_lowercase());
}

#[test]
fn trim_end_matches_std() {
    let cases = [
        "abc \n", "abc", "  \n", "", "a\u{3000}", "a\u{85}\r\n", " lead", "x\u{200b}", "y\u{2009}\t",
        "z\u{a0}\u{1680}\u{202f}\u{205f}\u{2028}\u{2029}\u{b}\u{c}",
    ];
    for c in cases.iter() {
        let got: String = trim_end_chars(c).into_iter().collect();
        assert_eq!(got, c.trim_end(), "input {:?}", c);
    }
}

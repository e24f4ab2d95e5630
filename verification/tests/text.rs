use cch_23::text::{chars_of, parse_i32_chars, push_decimal};

#[test]
fn decimal_matches_to_string() {
    for n in [0u64, 7, 10, 99, 100, 12345, 4294967295, u64::MAX] {
        let mut s = String::from("n=");
        push_decimal(&mut s, n);
        assert_eq!(s, format!("n={}", n));
    }
}

#[test]
fn i32_literals_match_str_parse() {
    let samples = [
        "", "+", "-", "0", "-0", "+0", "42", "-42", "+42", "0042", "2147483647", "2147483648",
        "-2147483648", "-2147483649", "99999999999999999999", "4 2", "4a", "--1", "+-1", "١",
    ];
    for s in samples {
        let chars = chars_of(s);
        assert_eq!(parse_i32_chars(&chars), s.parse::<i32>().ok(), "{:?}", s);
    }
}

#[test]
fn chars_of_keeps_every_character() {
    let s = "Bélfast ❄ elf";
    assert_eq!(chars_of(s), s.chars().collect::<Vec<char>>());
}

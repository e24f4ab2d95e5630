use cch_23::routes::one::{cube_i32, parse_packet_ids, xor_all, xor_power3, XorPowerError};

#[test]
fn xor_power3_returns_correct_number() {
    let result = xor_power3("1/2/3/4/5/6");
    assert_eq!(result, Ok(343));
    assert_eq!(result.unwrap() as u32, 343u32);
}

#[test]
fn xor_power3_of_a_single_id_is_its_cube() {
    assert_eq!(xor_power3("4"), Ok(64));
    assert_eq!(xor_power3("-3"), Ok(-27));
    assert_eq!(xor_power3("+2"), Ok(8));
}

#[test]
fn xor_power3_rejects_pieces_that_are_no_i32() {
    assert_eq!(xor_power3(""), Err(XorPowerError::InvalidNumber));
    assert_eq!(xor_power3("1//2"), Err(XorPowerError::InvalidNumber));
    assert_eq!(xor_power3("1/2/"), Err(XorPowerError::InvalidNumber));
    assert_eq!(xor_power3("1/x"), Err(XorPowerError::InvalidNumber));
    assert_eq!(xor_power3("2147483648"), Err(XorPowerError::InvalidNumber));
    assert_eq!(xor_power3("-"), Err(XorPowerError::InvalidNumber));
}

#[test]
fn xor_power3_reports_an_overflowing_cube() {
    assert_eq!(xor_power3("1291"), Err(XorPowerError::Overflow));
    assert_eq!(xor_power3("1290"), Ok(1290 * 1290 * 1290));
    assert_eq!(xor_power3("-1291"), Err(XorPowerError::Overflow));
    assert_eq!(xor_power3("-1290"), Ok(-1290 * 1290 * 1290));
}

#[test]
fn packet_ids_follow_str_split_and_i32_parse() {
    let samples = [
        "1/2/3", "0", "-0", "+7", "007/8", "2147483647/-2147483648", "-2147483649", "12a",
        "/5", "5/", " 5", "++1", "+-1", "9999999999999999999999", "٣",
    ];
    for s in samples {
        let expected: Option<Vec<i32>> = s
            .split('/')
            .map(|p| p.parse::<i32>().ok())
            .collect::<Option<Vec<i32>>>();
        assert_eq!(parse_packet_ids(s), expected, "{}", s);
    }
}

#[test]
fn xor_and_cube_pieces() {
    assert_eq!(xor_all(&[1, 2, 3, 4, 5, 6]), 7);
    assert_eq!(xor_all(&[-1, 1]), -2);
    assert_eq!(cube_i32(7), Some(343));
    assert_eq!(cube_i32(i32::MIN), None);
    assert_eq!(cube_i32(46341), None);
    assert_eq!(cube_i32(-1290), Some(-2146689000));
}

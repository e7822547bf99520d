use infix_parser::decimal::{digit, from_decimal};

fn read(text: &str) -> Option<u64> {
    from_decimal(&text.chars().collect())
}

#[test]
fn numerals_match_the_standard_conversion() {
    let long_fraction = format!("0.{}1", "0".repeat(330));
    let tiny = format!("0.{}49", "0".repeat(323));
    let huge = format!("1{}", "0".repeat(400));
    let nearly_too_big = format!("17976931348623158{}", "0".repeat(292));
    let texts = [
        "0",
        "1",
        "2",
        "10",
        "0.1",
        "0.2",
        "0.3",
        "3.14159",
        "2.718281828459045",
        ".5",
        "5.",
        "007",
        "0.000001",
        "123456789012345678901234567890",
        "9007199254740992",
        "9007199254740993",
        "9007199254740994",
        "9007199254740995",
        "9007199254740993.0000000000000000000000001",
        "0.30000000000000004",
        "0.1000000000000000055511151231257827021181583404541015625",
        "179769313486231570000000000000000000000000000000000000000000000000000000000000000000000000000000000000000000000000000000000000000000000000000000000000000000000000000000000000000000000000000000000000000000000000000000000000000000000000000000000000000000000000000000000000000000000000000000000000000000000000000",
        "0.000000000000000000000000000000000000000000000000000000000000000000000000000000000000000000000000000000000000000000000000000000000000000000000000000000000000000000000000000000000000000000000000000000000000000000000000000000000000000000000000000000000000000000000000000000000000000000000000000000000022250738585072014",
        "2.2250738585072011",
        "6.02214076",
        "299792458",
        "1.7976931348623157",
        "4.35",
        "1000000000000000000000000.5",
        long_fraction.as_str(),
        tiny.as_str(),
        huge.as_str(),
        nearly_too_big.as_str(),
    ];
    for text in texts.iter() {
        let expected: f64 = text.parse().unwrap();
        assert_eq!(read(text), Some(expected.to_bits()), "{}", text);
    }
}

#[test]
fn a_number_printed_and_read_again_is_the_same_number() {
    let values = [
        0.0f64,
        1.0,
        0.1,
        0.5,
        1.5,
        2.5,
        1234.5678,
        1.0e10,
        1.0e22,
        1.0e23,
        123456789.0,
        0.000123,
        1.7976931348623157e308,
        2.2250738585072014e-308,
        4.9e-324,
        1.0 / 3.0,
        2.0 / 3.0,
        9007199254740991.0,
    ];
    for value in values.iter() {
        let printed = format!("{}", value);
        assert_eq!(read(&printed), Some(value.to_bits()), "{}", printed);
    }
}

#[test]
fn texts_that_are_no_numerals() {
    assert_eq!(read(""), None);
    assert_eq!(read("."), None);
    assert_eq!(read(".."), None);
    assert_eq!(read("1.2.3"), None);
    assert_eq!(read("1..2"), None);
    assert_eq!(read("1e5"), None);
    assert_eq!(read("+1"), None);
    assert_eq!(read("-1"), None);
    assert_eq!(read("inf"), None);
    assert_eq!(read("nan"), None);
    assert_eq!(read("1 2"), None);
    assert_eq!(read("١"), None);
}

#[test]
fn digits_and_their_values() {
    assert_eq!(digit('0'), Some(0));
    assert_eq!(digit('7'), Some(7));
    assert_eq!(digit('9'), Some(9));
    assert_eq!(digit('/'), None);
    assert_eq!(digit(':'), None);
    assert_eq!(digit('a'), None);
    assert_eq!(digit('.'), None);
}

use pixelmap::text::{collect_chars, find_boundary, parse_decimal, push_decimal, push_format03, utf8_width};

#[test]
fn widths_and_boundaries() {
    assert_eq!(utf8_width('a'), 1);
    assert_eq!(utf8_width('é'), 2);
    assert_eq!(utf8_width('€'), 3);
    assert_eq!(utf8_width('😀'), 4);
    let chars = collect_chars("aé€b");
    assert_eq!(chars, vec!['a', 'é', '€', 'b']);
    assert_eq!(find_boundary(&chars, 0), Some(0));
    assert_eq!(find_boundary(&chars, 1), Some(1));
    assert_eq!(find_boundary(&chars, 2), None);
    assert_eq!(find_boundary(&chars, 3), Some(2));
    assert_eq!(find_boundary(&chars, 6), Some(3));
    assert_eq!(find_boundary(&chars, 7), Some(4));
    assert_eq!(find_boundary(&chars, 8), None);
}

#[test]
fn parse_decimal_as_str_parse() {
    let chars = collect_chars("x-128+255 7");
    assert_eq!(parse_decimal(&chars, 1, 5, -128, 127), Some(-128));
    assert_eq!(parse_decimal(&chars, 1, 5, 0, 255), None);
    assert_eq!(parse_decimal(&chars, 5, 9, 0, 255), Some(255));
    assert_eq!(parse_decimal(&chars, 5, 9, -128, 127), None);
    assert_eq!(parse_decimal(&chars, 9, 11, 0, 255), None);
    assert_eq!(parse_decimal(&chars, 10, 11, 0, 255), Some(7));
    assert_eq!(parse_decimal(&chars, 3, 3, 0, 255), None);
}

#[test]
fn decimal_and_padded_notation() {
    let mut s = String::new();
    push_decimal(&mut s, 0);
    s.push(' ');
    push_decimal(&mut s, 1234567);
    s.push(' ');
    push_format03(&mut s, 7);
    push_format03(&mut s, -7);
    push_format03(&mut s, -128);
    push_format03(&mut s, 999);
    assert_eq!(s, "0 1234567 007-07-128999");
    assert_eq!(s, format!("0 1234567 {:03}{:03}{:03}{:03}", 7, -7, -128, 999));
}

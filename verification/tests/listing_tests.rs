use vip::listing::{format_decimal, format_listing, parse_listing, parse_usize};

fn chars(s: &str) -> Vec<char> {
    s.chars().collect()
}

#[test]
fn decimal_numbers() {
    assert_eq!(format_decimal(0), chars("0"));
    assert_eq!(format_decimal(7), chars("7"));
    assert_eq!(format_decimal(10), chars("10"));
    assert_eq!(format_decimal(65536), chars("65536"));
    assert_eq!(format_decimal(usize::MAX), chars(&usize::MAX.to_string()));
}

#[test]
fn parse_usize_reads_decimal() {
    let t = chars("+42 x 18446744073709551616 7a");
    assert_eq!(parse_usize(&t, 0, 3), Some(42));
    assert_eq!(parse_usize(&t, 1, 3), Some(42));
    assert_eq!(parse_usize(&t, 4, 5), None);
    assert_eq!(parse_usize(&t, 6, 26), None);
    assert_eq!(parse_usize(&t, 6, 25), Some(1844674407370955161));
    assert_eq!(parse_usize(&t, 27, 29), None);
    assert_eq!(parse_usize(&t, 0, 0), None);
    assert_eq!(parse_usize(&t, 0, 1), None);
}

#[test]
fn listing_format_and_parse() {
    let c = vec![(5, chars("你好")), (2, chars("你")), (12, vec![])];
    let text = format_listing(&c);
    assert_eq!(text, chars("5 你好\n2 你\n12 \n"));
    assert_eq!(parse_listing(&text), Some(c));
    assert_eq!(format_listing(&vec![]), Vec::<char>::new());
    assert_eq!(parse_listing(&[]), Some(vec![]));
}

#[test]
fn listing_lines_that_do_not_read() {
    assert_eq!(parse_listing(&chars("3 a b\r\n4 c")), Some(vec![(3, chars("a")), (4, chars("c"))]));
    assert_eq!(parse_listing(&chars("3a\n")), None);
    assert_eq!(parse_listing(&chars("x y\n")), None);
    assert_eq!(parse_listing(&chars("1 a\n\n")), None);
}

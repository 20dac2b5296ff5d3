use rowstats::parse::parse_temperature;

#[test]
fn one_digit_before_the_point() {
    assert_eq!(parse_temperature(b"1.0\n"), Some((10, &b""[..])));
    assert_eq!(parse_temperature(b"0.0\nrest"), Some((0, &b"rest"[..])));
    assert_eq!(parse_temperature(b"9.9\nY;1.0\n"), Some((99, &b"Y;1.0\n"[..])));
}

#[test]
fn two_digits_before_the_point() {
    assert_eq!(parse_temperature(b"12.3\n"), Some((123, &b""[..])));
    assert_eq!(parse_temperature(b"99.9\nnext"), Some((999, &b"next"[..])));
    assert_eq!(parse_temperature(b"00.7\n"), Some((7, &b""[..])));
}

#[test]
fn a_minus_sign_negates() {
    assert_eq!(parse_temperature(b"-2.5\nX;3.0\n"), Some((-25, &b"X;3.0\n"[..])));
    assert_eq!(parse_temperature(b"-99.9\n"), Some((-999, &b""[..])));
    assert_eq!(parse_temperature(b"-0.0\n"), Some((0, &b""[..])));
}

#[test]
fn what_is_no_value_is_refused() {
    for image in [
        &b""[..],
        b"-",
        b"1",
        b"1.0",
        b"1.0 ",
        b"12.3",
        b".5\n",
        b"1.\n\n",
        b"1,0\n",
        b"a.0\n",
        b"1.a\n",
        b"123.4\n",
        b"12.34\n",
        b"1a.0\n",
        b"--1.0\n",
        b"+1.0\n",
        b"-1.0",
        b"-12.3",
        b"1.0\r\n",
        b" 1.0\n",
    ] {
        assert_eq!(parse_temperature(image), None, "{:?}", image);
    }
}

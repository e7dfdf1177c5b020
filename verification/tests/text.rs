use http_server::scan::find_byte;
use http_server::scan::find_crlf;
use http_server::text::decode_text;
use http_server::text::is_whitespace;
use http_server::text::normalize_name;
use http_server::text::parse_usize;
use http_server::text::trim_ascii_bytes;

#[test]
fn first_terminator_is_found() {
    assert_eq!(find_crlf(b""), None);
    assert_eq!(find_crlf(b"\r"), None);
    assert_eq!(find_crlf(b"\n\r"), None);
    assert_eq!(find_crlf(b"abc\rdef\n"), None);
    assert_eq!(find_crlf(b"\r\n"), Some(0));
    assert_eq!(find_crlf(b"ab\r\ncd\r\n"), Some(2));
    assert_eq!(find_crlf(b"a\r\r\n"), Some(2));
    assert_eq!(find_crlf(b"a\n\r\n"), Some(2));
}

#[test]
fn first_byte_is_found() {
    assert_eq!(find_byte(b"", b':'), None);
    assert_eq!(find_byte(b"abc", b':'), None);
    assert_eq!(find_byte(b"a:b:c", b':'), Some(1));
    assert_eq!(find_byte(b":", b':'), Some(0));
}

#[test]
fn trimming_drops_ascii_whitespace_at_both_ends() {
    assert_eq!(trim_ascii_bytes(b""), b"");
    assert_eq!(trim_ascii_bytes(b" \t\r\n\x0c"), b"");
    assert_eq!(trim_ascii_bytes(b"  a b  "), b"a b");
    assert_eq!(trim_ascii_bytes(b"a"), b"a");
    assert_eq!(trim_ascii_bytes(b"\x0ba\x0b"), b"\x0ba\x0b");
    assert_eq!(trim_ascii_bytes(b"\ta\n"), b"a");
    for b in 0..=255u8 {
        assert_eq!(is_whitespace(b), b.is_ascii_whitespace());
        assert_eq!(trim_ascii_bytes(&[b, b'x', b]), [b, b'x', b].trim_ascii());
    }
}

#[test]
fn decimal_numbers_are_read() {
    assert_eq!(parse_usize("0"), Some(0));
    assert_eq!(parse_usize("13"), Some(13));
    assert_eq!(parse_usize("+13"), Some(13));
    assert_eq!(parse_usize("0013"), Some(13));
    assert_eq!(parse_usize(&usize::MAX.to_string()), Some(usize::MAX));
    assert_eq!(parse_usize(""), None);
    assert_eq!(parse_usize("+"), None);
    assert_eq!(parse_usize("++1"), None);
    assert_eq!(parse_usize("-1"), None);
    assert_eq!(parse_usize("1+"), None);
    assert_eq!(parse_usize(" 1"), None);
    assert_eq!(parse_usize("1 "), None);
    assert_eq!(parse_usize("1_000"), None);
    assert_eq!(parse_usize("12a"), None);
    assert_eq!(parse_usize("١٢"), None);
    assert_eq!(parse_usize("18446744073709551616"), None);
    assert_eq!(parse_usize("99999999999999999999999999"), None);
    let texts =
        ["7", "+7", "007", "", "+", "a", "4294967296", "18446744073709551615", "18446744073709551616"];
    for text in texts {
        assert_eq!(parse_usize(text), text.parse::<usize>().ok());
    }
}

#[test]
fn names_are_brought_to_lower_case() {
    assert_eq!(normalize_name("Content-Length"), "content-length");
    assert_eq!(normalize_name("HOST"), "host");
    assert_eq!(normalize_name("x_y.Z~9"), "x_y.z~9");
    assert_eq!(normalize_name(""), "");
    assert_eq!(normalize_name("@[`{"), "@[`{");
    assert_eq!(normalize_name("ÀÉÎ"), "àéî");
    assert_eq!(normalize_name("ΣΑΣ"), "σας");
    for name in ["Host", "A-Z", "az09", "MiXeD", "Ünï", "İ"] {
        assert_eq!(normalize_name(name), name.to_lowercase());
    }
}

#[test]
fn text_is_decoded_with_replacement() {
    assert_eq!(decode_text(b""), "");
    assert_eq!(decode_text(b"plain"), "plain");
    let text = "gr\u{fc}n \u{20ac} \u{1f600}";
    assert_eq!(decode_text(text.as_bytes()), text);
    assert_eq!(decode_text(b"a\xffb"), "a\u{fffd}b");
    assert_eq!(decode_text(b"\xe2\x82"), "\u{fffd}");
    assert_eq!(decode_text(b"\xc0\x80"), "\u{fffd}\u{fffd}");
}

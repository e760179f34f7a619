use base64::Engine;
use mailparse::{MailHeaderMap, MailParseError, parse_content_type, parse_header, parse_headers,
    parse_mail};

#[test]
fn encoded_word_round_trip_base64() {
    let text = "hello world";
    let encoded = base64::engine::general_purpose::STANDARD.encode(text.as_bytes());
    let header = format!("Subject: =?utf-8?B?{}?=", encoded);
    let (parsed, _) = parse_header(header.as_bytes()).unwrap();
    assert_eq!(parsed.get_value().unwrap(), text);
}

#[test]
fn encoded_word_round_trip_quoted_printable() {
    let encoded = quoted_printable::encode_to_str("\u{20ac}".as_bytes());
    let header = format!("Money: =?utf-8?Q?{}?=", encoded);
    let (parsed, _) = parse_header(header.as_bytes()).unwrap();
    assert_eq!(parsed.get_value().unwrap(), "\u{20ac}");
}

#[test]
fn header_lookup_is_case_sensitive() {
    let (parsed, _) = parse_headers(b"Key: Value\nkey: other\n").unwrap();
    assert_eq!(parsed.get_first_value("Key").unwrap(), Some("Value".to_string()));
    assert_eq!(parsed.get_first_value("key").unwrap(), Some("other".to_string()));
    assert_eq!(parsed.get_first_value("KEY").unwrap(), None);
    assert_eq!(parsed.get_all_values("KEY").unwrap(), Vec::<String>::new());
}

#[test]
fn empty_input_is_a_structural_error() {
    assert!(matches!(parse_header(b"").unwrap_err(), MailParseError::Generic(_, 0)));
    assert!(matches!(parse_mail(b"").unwrap_err(), MailParseError::Generic(_, 0)));
}

#[test]
fn lone_carriage_return_after_header_is_an_error() {
    assert!(matches!(
        parse_headers(b"Key: v\n\rX").unwrap_err(),
        MailParseError::Generic(_, 0)
    ));
}

#[test]
fn body_with_bad_base64_reports_the_codec() {
    let mail = parse_mail(b"Content-Transfer-Encoding: base64\r\n\r\n!!!not base64!!!").unwrap();
    assert!(matches!(mail.get_body().unwrap_err(), MailParseError::Base64DecodeError));
}

#[test]
fn body_with_unknown_charset_is_an_error() {
    let mail =
        parse_mail(b"Content-Type: text/plain; charset=nosuchcharset\r\n\r\nhello").unwrap();
    assert!(matches!(mail.get_body().unwrap_err(), MailParseError::Generic(_, 0)));
}

#[test]
fn body_with_quoted_printable_decodes() {
    let mail = parse_mail(
        b"Content-Type: text/plain; charset=utf-8\r\nContent-Transfer-Encoding: quoted-printable\r\n\r\nhello=3Dworld=E2=82=AC",
    )
    .unwrap();
    assert_eq!(mail.get_body().unwrap(), "hello=world\u{20ac}");
}

#[test]
fn multipart_without_located_boundary_is_a_leaf() {
    let mail =
        parse_mail(b"Content-Type: multipart/mixed; boundary=zzz\r\n\r\nno delimiter here")
            .unwrap();
    assert_eq!(mail.subparts.len(), 0);
    assert_eq!(mail.body, b"no delimiter here");
}

#[test]
fn multipart_with_unterminated_part_is_an_error() {
    let err = parse_mail(
        b"Content-Type: multipart/mixed; boundary=bbb\r\n\r\n--bbb\r\nKey: v\r\n\r\npart without end",
    )
    .unwrap_err();
    assert!(matches!(err, MailParseError::Generic(_, 0)));
}

#[test]
fn content_type_single_quote_is_not_a_quote_pair() {
    let ctype = parse_content_type("text/plain; charset=\"").unwrap();
    assert_eq!(ctype.charset, "\"");
}

#[test]
fn content_type_empty_value_keeps_defaults() {
    let ctype = parse_content_type("").unwrap();
    assert_eq!(ctype.mimetype, "text/plain");
    assert_eq!(ctype.charset, "us-ascii");
    assert_eq!(ctype.boundary, None);

    let ctype = parse_content_type("text/x; charset=").unwrap();
    assert_eq!(ctype.charset, "us-ascii");
}

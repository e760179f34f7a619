use mailparse::{MailHeaderMap, MailParseError, find_from_u8, parse_content_type, parse_header,
    parse_headers, parse_mail};

#[test]
fn test_find_from_u8() {
    assert_eq!(find_from_u8(b"hello world", 0, b"hell"), Some(0));
    assert_eq!(find_from_u8(b"hello world", 0, b"o"), Some(4));
    assert_eq!(find_from_u8(b"hello world", 4, b"o"), Some(4));
    assert_eq!(find_from_u8(b"hello world", 5, b"o"), Some(7));
    assert_eq!(find_from_u8(b"hello world", 8, b"o"), None);
    assert_eq!(find_from_u8(b"hello world", 10, b"d"), None);
}

#[test]
fn parse_basic_header() {
    let (parsed, _) = parse_header(b"Key: Value").unwrap();
    assert_eq!(parsed.key, b"Key");
    assert_eq!(parsed.get_key().unwrap(), "Key");
    assert_eq!(parsed.value, b"Value");
    assert_eq!(parsed.get_value().unwrap(), "Value");

    let (parsed, _) = parse_header(b"Key :  Value ").unwrap();
    assert_eq!(parsed.key, b"Key ");
    assert_eq!(parsed.value, b"Value ");
    assert_eq!(parsed.get_value().unwrap(), "Value ");

    let (parsed, _) = parse_header(b"Key:").unwrap();
    assert_eq!(parsed.key, b"Key");
    assert_eq!(parsed.value, b"");

    let (parsed, _) = parse_header(b":\n").unwrap();
    assert_eq!(parsed.key, b"");
    assert_eq!(parsed.value, b"");

    let (parsed, _) = parse_header(b"Key:Multi-line\n value").unwrap();
    assert_eq!(parsed.key, b"Key");
    assert_eq!(parsed.value, b"Multi-line\n value");
    assert_eq!(parsed.get_value().unwrap(), "Multi-line value");

    let (parsed, _) = parse_header(b"Key:  Multi\n  line\n value\n").unwrap();
    assert_eq!(parsed.key, b"Key");
    assert_eq!(parsed.value, b"Multi\n  line\n value");
    assert_eq!(parsed.get_value().unwrap(), "Multi line value");

    let (parsed, _) = parse_header(b"Key: One\nKey2: Two").unwrap();
    assert_eq!(parsed.key, b"Key");
    assert_eq!(parsed.value, b"One");

    let (parsed, _) = parse_header(b"Key: One\n\tOverhang").unwrap();
    assert_eq!(parsed.key, b"Key");
    assert_eq!(parsed.value, b"One\n\tOverhang");
    assert_eq!(parsed.get_value().unwrap(), "One Overhang");

    let (parsed, _) = parse_header(b"SPAM: VIAGRA \xAE").unwrap();
    assert_eq!(parsed.key, b"SPAM");
    assert_eq!(parsed.value, b"VIAGRA \xAE");
    assert_eq!(parsed.get_value().unwrap(), "VIAGRA \u{ae}");

    parse_header(b" Leading: Space").unwrap_err();
    parse_header(b"Just a string").unwrap_err();
    parse_header(b"Key\nBroken: Value").unwrap_err();
}

#[test]
fn parse_encoded_headers() {
    let (parsed, _) = parse_header(b"Subject: =?iso-8859-1?Q?=A1Hola,_se=F1or!?=").unwrap();
    assert_eq!(parsed.get_key().unwrap(), "Subject");
    assert_eq!(parsed.get_value().unwrap(), "\u{a1}Hola, se\u{f1}or!");

    let (parsed, _) = parse_header(
        b"Subject: =?iso-8859-1?Q?=A1Hola,?=\n \
                                        =?iso-8859-1?Q?_se=F1or!?=",
    )
    .unwrap();
    assert_eq!(parsed.get_key().unwrap(), "Subject");
    assert_eq!(parsed.get_value().unwrap(), "\u{a1}Hola,  se\u{f1}or!");

    let (parsed, _) = parse_header(b"Euro: =?utf-8?Q?=E2=82=AC?=").unwrap();
    assert_eq!(parsed.get_key().unwrap(), "Euro");
    assert_eq!(parsed.get_value().unwrap(), "\u{20ac}");

    let (parsed, _) = parse_header(b"HelloWorld: =?utf-8?B?aGVsbG8gd29ybGQ=?=").unwrap();
    assert_eq!(parsed.get_value().unwrap(), "hello world");

    let (parsed, _) = parse_header(b"Empty: =?utf-8?Q??=").unwrap();
    assert_eq!(parsed.get_value().unwrap(), "");

    let (parsed, _) = parse_header(b"Incomplete: =?").unwrap();
    assert_eq!(parsed.get_value().unwrap(), "=?");

    let (parsed, _) = parse_header(b"BadEncoding: =?garbage?Q??=").unwrap();
    assert_eq!(parsed.get_value().unwrap(), "=?garbage?Q??=");

    let (parsed, _) = parse_header(b"Invalid: =?utf-8?Q?=E2=AC?=").unwrap();
    assert_eq!(parsed.get_value().unwrap(), "\u{fffd}");

    let (parsed, _) = parse_header(b"LineBreak: =?utf-8?Q?=E2=82\n =AC?=").unwrap();
    assert_eq!(parsed.get_value().unwrap(), "=?utf-8?Q?=E2=82 =AC?=");

    let (parsed, _) = parse_header(b"NotSeparateWord: hello=?utf-8?Q?world?=").unwrap();
    assert_eq!(parsed.get_value().unwrap(), "hello=?utf-8?Q?world?=");

    let (parsed, _) = parse_header(b"NotSeparateWord2: =?utf-8?Q?hello?=world").unwrap();
    assert_eq!(parsed.get_value().unwrap(), "=?utf-8?Q?hello?=world");
}

#[test]
fn parse_multiple_headers() {
    let (parsed, _) = parse_headers(b"Key: Value\nTwo: Second").unwrap();
    assert_eq!(parsed.len(), 2);
    assert_eq!(parsed[0].key, b"Key");
    assert_eq!(parsed[0].value, b"Value");
    assert_eq!(parsed[1].key, b"Two");
    assert_eq!(parsed[1].value, b"Second");

    let (parsed, _) =
        parse_headers(b"Key: Value\n Overhang\nTwo: Second\nThree: Third").unwrap();
    assert_eq!(parsed.len(), 3);
    assert_eq!(parsed[0].key, b"Key");
    assert_eq!(parsed[0].value, b"Value\n Overhang");
    assert_eq!(parsed[1].key, b"Two");
    assert_eq!(parsed[1].value, b"Second");
    assert_eq!(parsed[2].key, b"Three");
    assert_eq!(parsed[2].value, b"Third");

    let (parsed, _) = parse_headers(b"Key: Value\nTwo: Second\n\nBody").unwrap();
    assert_eq!(parsed.len(), 2);
    assert_eq!(parsed[0].key, b"Key");
    assert_eq!(parsed[0].value, b"Value");
    assert_eq!(parsed[1].key, b"Two");
    assert_eq!(parsed[1].value, b"Second");

    let (parsed, _) = parse_headers(
        b"Return-Path: <kats@foobar.staktrace.com>\nX-Original-To: \
                           kats@baz.staktrace.com\nDelivered-To: \
                           kats@baz.staktrace.com\nReceived: from foobar.staktrace.com \
                           (localhost [127.0.0.1])\n    by foobar.staktrace.com (Postfix) with \
                           ESMTP id 139F711C1C34\n    for <kats@baz.staktrace.com>; Fri, 27 May \
                           2016 02:34:26 -0400 (EDT)\nDate: Fri, 27 May 2016 02:34:25 -0400\nTo: \
                           kats@baz.staktrace.com\nFrom: kats@foobar.staktrace.com\nSubject: \
                           test Fri, 27 May 2016 02:34:25 -0400\nX-Mailer: swaks v20130209.0 \
                           jetmore.org/john/code/swaks/\nMessage-Id: \
                           <20160527063426.139F711C1C34@foobar.staktrace.com>\n\nThis is a test \
                           mailing\n",
    )
    .unwrap();
    assert_eq!(parsed.len(), 10);
    assert_eq!(parsed[0].key, b"Return-Path");
    assert_eq!(parsed[9].key, b"Message-Id");

    let (parsed, _) =
        parse_headers(b"Key: Value\nAnotherKey: AnotherValue\nKey: Value2\nKey: Value3\n")
            .unwrap();
    assert_eq!(parsed.len(), 4);
    assert_eq!(parsed.get_first_value("Key").unwrap(), Some("Value".to_string()));
    assert_eq!(parsed.get_all_values("Key").unwrap(), vec!["Value", "Value2", "Value3"]);
    assert_eq!(
        parsed.get_first_value("AnotherKey").unwrap(),
        Some("AnotherValue".to_string())
    );
    assert_eq!(parsed.get_all_values("AnotherKey").unwrap(), vec!["AnotherValue"]);
    assert_eq!(parsed.get_first_value("NoKey").unwrap(), None);
    assert_eq!(parsed.get_all_values("NoKey").unwrap(), Vec::<String>::new());

    let (parsed, _) = parse_headers(b"Key: value\r\nWith: CRLF\r\n\r\nBody").unwrap();
    assert_eq!(parsed.len(), 2);
    assert_eq!(parsed.get_first_value("Key").unwrap(), Some("value".to_string()));
    assert_eq!(parsed.get_first_value("With").unwrap(), Some("CRLF".to_string()));

    assert!(matches!(
        parse_headers(b"Bad\nKey").unwrap_err(),
        MailParseError::Generic(_, 3)
    ));
    assert!(matches!(
        parse_headers(b"K:V\nBad\nKey").unwrap_err(),
        MailParseError::Generic(_, 7)
    ));
}

#[test]
fn test_parse_content_type() {
    let ctype = parse_content_type("text/html; charset=utf-8").unwrap();
    assert_eq!(ctype.mimetype, "text/html");
    assert_eq!(ctype.charset, "utf-8");
    assert_eq!(ctype.boundary, None);

    let ctype = parse_content_type(" foo/bar; x=y; charset=\"fake\" ; x2=y2").unwrap();
    assert_eq!(ctype.mimetype, "foo/bar");
    assert_eq!(ctype.charset, "fake");
    assert_eq!(ctype.boundary, None);

    let ctype = parse_content_type(" multipart/bar; boundary=foo ").unwrap();
    assert_eq!(ctype.mimetype, "multipart/bar");
    assert_eq!(ctype.charset, "us-ascii");
    assert_eq!(ctype.boundary.unwrap(), "foo");
}

#[test]
fn test_parse_mail() {
    let mail = parse_mail(b"Key: value\r\n\r\nSome body stuffs").unwrap();
    assert_eq!(mail.headers.len(), 1);
    assert_eq!(mail.headers[0].get_key().unwrap(), "Key");
    assert_eq!(mail.headers[0].get_value().unwrap(), "value");
    assert_eq!(mail.ctype.mimetype, "text/plain");
    assert_eq!(mail.ctype.charset, "us-ascii");
    assert_eq!(mail.ctype.boundary, None);
    assert_eq!(mail.body, b"Some body stuffs");
    assert_eq!(mail.get_body().unwrap(), "Some body stuffs");
    assert_eq!(mail.subparts.len(), 0);

    let mail = parse_mail(
        b"Content-Type: MULTIpart/alternative; bounDAry=myboundary\r\n\r\n \
                                --myboundary\r\nContent-Type: text/plain\r\n\r\n \
                                This is the plaintext version.\r\n
                                --myboundary\r\nContent-Type: text/html;chARset=utf-8\r\n\r\n \
                                This is the <b>HTML</b> version with fake --MYBOUNDARY.\r\n
                                --myboundary--",
    )
    .unwrap();
    assert_eq!(mail.headers.len(), 1);
    assert_eq!(mail.headers[0].get_key().unwrap(), "Content-Type");
    assert_eq!(mail.ctype.mimetype, "multipart/alternative");
    assert_eq!(mail.ctype.charset, "us-ascii");
    assert_eq!(mail.ctype.boundary.unwrap(), "myboundary");
    assert_eq!(mail.subparts.len(), 2);
    assert_eq!(mail.subparts[0].headers.len(), 1);
    assert_eq!(mail.subparts[0].ctype.mimetype, "text/plain");
    assert_eq!(mail.subparts[0].ctype.charset, "us-ascii");
    assert_eq!(mail.subparts[0].ctype.boundary, None);
    assert_eq!(mail.subparts[1].ctype.mimetype, "text/html");
    assert_eq!(mail.subparts[1].ctype.charset, "utf-8");
    assert_eq!(mail.subparts[1].ctype.boundary, None);

    let mail =
        parse_mail(b"Content-Transfer-Encoding: base64\r\n\r\naGVsbG 8gd\r\n29ybGQ=").unwrap();
    assert_eq!(mail.get_body().unwrap(), "hello world");
}

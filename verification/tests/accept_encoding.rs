use accept_encoding::AcceptEncoding;
use accept_encoding::Encoding;
use accept_encoding::ParseError;
use accept_encoding::Quality;
use accept_encoding::QualityValue;

#[test]
fn iter() {
    let allowed = AcceptEncoding::from_text(String::from("compress, gzip"));

    let as_vec = allowed.iter();
    assert_eq!(
        as_vec,
        vec![
            QualityValue::new(Encoding::Compress, Quality::new(1000)),
            QualityValue::new(Encoding::Gzip, Quality::new(1000))
        ]
    );
}

#[test]
fn iter_sorted() {
    let allowed = AcceptEncoding::from_text(String::from("compress, gzip; q=0.5"));

    let as_vec = allowed.iter();
    assert_eq!(
        as_vec,
        vec![
            QualityValue::new(Encoding::Gzip, Quality::new(500)),
            QualityValue::new(Encoding::Compress, Quality::new(1000)),
        ]
    );
}

#[test]
fn star() {
    let allowed = AcceptEncoding::from_text(String::from("*"));

    let as_vec = allowed.iter();
    assert_eq!(
        as_vec,
        vec![QualityValue::new(Encoding::Ext("*".into()), Quality::new(1000)),]
    );
}

#[test]
fn from_iter() {
    let allow = AcceptEncoding::from_sequence(vec![
        Encoding::Gzip.into(),
        Encoding::Deflate.into(),
    ]);

    let mut headers = http::HeaderMap::new();
    headers.insert(
        http::header::ACCEPT_ENCODING,
        http::HeaderValue::from_str(allow.text()).unwrap(),
    );
    assert_eq!(headers["accept-encoding"], "gzip, deflate");
}

#[test]
fn from_iter_with_q() {
    let allow = AcceptEncoding::from_sequence(vec![
        Encoding::Gzip.into(),
        QualityValue::from(Encoding::Deflate).with_q(Quality::new(500)),
    ]);

    let mut headers = http::HeaderMap::new();
    headers.insert(
        http::header::ACCEPT_ENCODING,
        http::HeaderValue::from_str(allow.text()).unwrap(),
    );
    assert_eq!(headers["accept-encoding"], "gzip, deflate; q=0.5");
}

#[test]
fn round_trip_variants() {
    let variants = vec![
        Encoding::Chunked,
        Encoding::Brotli,
        Encoding::Gzip,
        Encoding::Deflate,
        Encoding::Compress,
        Encoding::Identity,
        Encoding::Trailers,
        Encoding::Ext("*".into()),
        Encoding::Ext("zstd".into()),
    ];
    for e in variants {
        let spelled = e.name();
        assert_eq!(Encoding::parse(&spelled), e);
    }
}

#[test]
fn parse_tokens() {
    assert_eq!(Encoding::parse("gzip"), Encoding::Gzip);
    assert_eq!(Encoding::parse("br"), Encoding::Brotli);
    assert_eq!(Encoding::parse("chunked"), Encoding::Chunked);
    assert_eq!(Encoding::parse("identity"), Encoding::Identity);
    assert_eq!(Encoding::parse("trailers"), Encoding::Trailers);
    assert_eq!(Encoding::parse("deflate"), Encoding::Deflate);
    assert_eq!(Encoding::parse("compress"), Encoding::Compress);
    // case-sensitive: an upper-case spelling stays an extension
    assert_eq!(Encoding::parse("GZIP"), Encoding::Ext("GZIP".into()));
    assert_eq!(Encoding::parse("zstd"), Encoding::Ext("zstd".into()));
}

#[test]
fn stable_ties() {
    let allowed = AcceptEncoding::from_text(String::from("gzip;q=0.5, identity;q=0.5"));

    let as_vec = allowed.iter();
    assert_eq!(
        as_vec,
        vec![
            QualityValue::new(Encoding::Gzip, Quality::new(500)),
            QualityValue::new(Encoding::Identity, Quality::new(500)),
        ]
    );
}

#[test]
fn reencode_identity() {
    let allowed = AcceptEncoding::from_text(String::from("gzip;q=1.0, identity; q=0.5, *;q=0"));
    let once = allowed.iter();
    let reencoded = AcceptEncoding::from_sequence(once.clone());
    assert_eq!(reencoded.text(), "*; q=0, identity; q=0.5, gzip");
    let twice = reencoded.iter();
    assert_eq!(once, twice);
}

#[test]
fn empty_input() {
    let allowed = AcceptEncoding::from_text(String::new());
    assert_eq!(allowed.iter(), vec![]);
    assert!(!allowed.accepts(&Encoding::Gzip));
}

#[test]
fn wildcard_zero_weight() {
    let allowed = AcceptEncoding::from_text(String::from("gzip;q=1.0, identity;q=0.5, *;q=0"));
    assert!(!allowed.accepts(&Encoding::Deflate));
    assert!(allowed.accepts(&Encoding::Gzip));
    assert!(allowed.accepts(&Encoding::Identity));
}

#[test]
fn wildcard_accepts() {
    let allowed = AcceptEncoding::from_text(String::from("*"));
    assert!(allowed.accepts(&Encoding::Brotli));
    assert!(allowed.accepts(&Encoding::Ext("zstd".into())));
}

#[test]
fn malformed_item_dropped() {
    let allowed = AcceptEncoding::from_text(String::from("gzip, ;q=bogus, br"));

    let as_vec = allowed.iter();
    assert_eq!(
        as_vec,
        vec![
            QualityValue::new(Encoding::Gzip, Quality::new(1000)),
            QualityValue::new(Encoding::Brotli, Quality::new(1000)),
        ]
    );
}

#[test]
fn boundary_weights() {
    let full = QualityValue::parse("a;q=1.000").unwrap();
    assert_eq!(full.quality.permille(), 1000);
    assert_eq!(
        QualityValue::parse("a;q=0.0001"),
        Err(ParseError::OutOfRangeWeight)
    );
}

#[test]
fn parse_errors() {
    assert_eq!(QualityValue::parse(""), Err(ParseError::EmptyToken));
    assert_eq!(QualityValue::parse(" ;q=1"), Err(ParseError::EmptyToken));
    assert_eq!(QualityValue::parse("a;x=1"), Err(ParseError::MalformedWeight));
    assert_eq!(
        QualityValue::parse("a;q=abc"),
        Err(ParseError::MalformedWeight)
    );
    assert_eq!(QualityValue::parse("a;q="), Err(ParseError::MalformedWeight));
    assert_eq!(
        QualityValue::parse("a;q=2"),
        Err(ParseError::OutOfRangeWeight)
    );
    assert_eq!(
        QualityValue::parse("a;q=1.5"),
        Err(ParseError::OutOfRangeWeight)
    );
}

#[test]
fn parse_weight_forms() {
    let q = |raw: &str| QualityValue::parse(raw).unwrap().quality.permille();
    assert_eq!(q("a"), 1000);
    assert_eq!(q("a;q=1"), 1000);
    assert_eq!(q("a; q=0.5"), 500);
    assert_eq!(q("a;q=0.75"), 750);
    assert_eq!(q("a;q=0.123"), 123);
    assert_eq!(q("a;q=0"), 0);
    assert_eq!(q("a;q=0."), 0);
    assert_eq!(q("a ; q=0.07"), 70);
}

#[test]
fn format_weights() {
    let fmt = |e: Encoding, p: u16| QualityValue::new(e, Quality::new(p)).format();
    assert_eq!(fmt(Encoding::Gzip, 1000), "gzip");
    assert_eq!(fmt(Encoding::Deflate, 500), "deflate; q=0.5");
    assert_eq!(fmt(Encoding::Brotli, 0), "br; q=0");
    assert_eq!(fmt(Encoding::Gzip, 123), "gzip; q=0.123");
    assert_eq!(fmt(Encoding::Gzip, 120), "gzip; q=0.12");
    assert_eq!(fmt(Encoding::Gzip, 100), "gzip; q=0.1");
}

#[test]
fn iter_encodings_order() {
    let allowed = AcceptEncoding::from_text(String::from("compress;q=0.5, gzip;q=1"));
    let encs = allowed.iter_encodings();
    assert_eq!(encs, vec![Encoding::Compress, Encoding::Gzip]);
}

#[test]
fn compare_order() {
    let hi = QualityValue::new(Encoding::Gzip, Quality::new(1000));
    let lo = QualityValue::new(Encoding::Compress, Quality::new(500));
    assert_eq!(hi.compare(&lo), std::cmp::Ordering::Greater);
    assert_eq!(lo.compare(&hi), std::cmp::Ordering::Less);
    assert_eq!(lo.compare(&lo), std::cmp::Ordering::Equal);
}

use gideon_core::comicinfo::{ComicInfo, ComicInfoError, ComicInfoParser, XmlEvent};

#[test]
fn parses_common_fields() {
    let xml = r#"<?xml version="1.0" encoding="utf-8"?>
        <ComicInfo xmlns:xsd="http://www.w3.org/2001/XMLSchema">
          <Title>The Beginning</Title>
          <Series>Berserk</Series>
          <Number>1</Number>
          <Volume>1</Volume>
          <Writer>Kentaro Miura</Writer>
          <Summary>Guts &amp; the Band of the Hawk.</Summary>
          <PageCount>220</PageCount>
          <UnknownTag>ignored</UnknownTag>
        </ComicInfo>"#;

    let info = ComicInfo::parse(xml).unwrap();
    assert_eq!(info.title.as_deref(), Some("The Beginning"));
    assert_eq!(info.series.as_deref(), Some("Berserk"));
    assert_eq!(info.number.as_deref(), Some("1"));
    assert_eq!(info.volume.as_deref(), Some("1"));
    assert_eq!(info.writer.as_deref(), Some("Kentaro Miura"));
    assert_eq!(
        info.summary.as_deref(),
        Some("Guts & the Band of the Hawk.")
    );
    assert_eq!(info.page_count, Some(220));
}

#[test]
fn empty_document_yields_defaults() {
    let info = ComicInfo::parse("<ComicInfo/>").unwrap();
    assert_eq!(info, ComicInfo::default());
    assert_eq!(info.display_title(), None);
}

#[test]
fn display_title_combinations() {
    let both = ComicInfo {
        series: Some("Naruto".into()),
        title: Some("Enter Sasuke".into()),
        ..Default::default()
    };
    assert_eq!(
        both.display_title().as_deref(),
        Some("Naruto — Enter Sasuke")
    );

    let same = ComicInfo {
        series: Some("Naruto".into()),
        title: Some("Naruto".into()),
        ..Default::default()
    };
    assert_eq!(same.display_title().as_deref(), Some("Naruto"));

    let only_title = ComicInfo {
        title: Some("Oneshot".into()),
        ..Default::default()
    };
    assert_eq!(only_title.display_title().as_deref(), Some("Oneshot"));
}

#[test]
fn malformed_documents_are_errors() {
    assert!(matches!(
        ComicInfo::parse("<ComicInfo><Title>x</Series></ComicInfo>"),
        Err(ComicInfoError::Malformed(_))
    ));
    assert!(matches!(
        ComicInfo::parse("<ComicInfo><Title>x"),
        Ok(_) | Err(ComicInfoError::Malformed(_))
    ));
    assert!(matches!(
        ComicInfo::parse("<a><Title>&nosuch;</Title></a>"),
        Err(ComicInfoError::BadText(_))
    ));
    assert!(matches!(ComicInfo::parse("<a"), Err(ComicInfoError::Malformed(_))));
}

#[test]
fn texts_are_taken_from_the_element_opened_last() {
    // A text after a closing tag belongs to no element, and an entity that
    // cannot be resolved does no harm there.
    let info = ComicInfo::parse("<a><Title>x</Title>&nosuch;<Number>2</Number></a>").unwrap();
    assert_eq!(info.title.as_deref(), Some("x"));
    assert_eq!(info.number.as_deref(), Some("2"));
    // The last text wins.
    let info = ComicInfo::parse("<a><Title>x</Title><Title>y</Title></a>").unwrap();
    assert_eq!(info.title.as_deref(), Some("y"));
}

#[test]
fn page_counts_are_small_numbers() {
    let count = |text: &str| {
        ComicInfo::parse(&format!("<PageCount>{text}</PageCount>"))
            .unwrap()
            .page_count
    };
    assert_eq!(count("0"), Some(0));
    assert_eq!(count("+12"), Some(12));
    assert_eq!(count("4294967295"), Some(u32::MAX));
    assert_eq!(count("4294967296"), None);
    assert_eq!(count("99999999999999999999999"), None);
    assert_eq!(count("-1"), None);
    assert_eq!(count("12 pages"), None);
    assert_eq!(count("+"), None);
}

#[test]
fn the_parser_takes_events_one_by_one() {
    let mut parser = ComicInfoParser::new();
    assert!(matches!(parser.take(Ok(XmlEvent::Text(Err("bad".into())))), Ok(false)));
    assert!(matches!(parser.take(Ok(XmlEvent::Open("Writer".into()))), Ok(false)));
    assert!(matches!(parser.take(Ok(XmlEvent::Other)), Ok(false)));
    assert!(matches!(parser.take(Ok(XmlEvent::Text(Ok("w".into())))), Ok(false)));
    assert!(matches!(
        parser.take(Ok(XmlEvent::Text(Err("bad".into())))),
        Err(ComicInfoError::BadText(m)) if m == "bad"
    ));
    assert!(matches!(parser.take(Ok(XmlEvent::Close)), Ok(false)));
    assert_eq!(parser.current, None);
    assert!(matches!(parser.take(Ok(XmlEvent::Finish)), Ok(true)));
    assert!(matches!(
        parser.take(Err("broken".into())),
        Err(ComicInfoError::Malformed(m)) if m == "broken"
    ));
    assert_eq!(parser.info.writer.as_deref(), Some("w"));
}

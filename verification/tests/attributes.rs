use tagstream::parse_streamed_tags;

#[test]
fn attribute_pairs_are_extracted() {
    let records = parse_streamed_tags(b"<t a=\"1\" b=\"two words\">c</t>");
    assert_eq!(records.len(), 1);
    assert_eq!(records[0].attributes.len(), 2);
    assert_eq!(records[0].attributes[0].0, b"a");
    assert_eq!(records[0].attributes[0].1, b"1");
    assert_eq!(records[0].attributes[1].0, b"b");
    assert_eq!(records[0].attributes[1].1, b"two words");
    assert_eq!(records[0].content, b"c");
}

#[test]
fn attribute_lookup_finds_values() {
    let records = parse_streamed_tags(b"<t a=\"1\" b=\"two words\">c</t>");
    let rec = &records[0];
    assert_eq!(rec.attribute(b"a").unwrap(), b"1");
    assert_eq!(rec.attribute(b"b").unwrap(), b"two words");
    assert!(rec.attribute(b"missing").is_none());
}

#[test]
fn duplicate_attribute_resolves_to_last_seen() {
    let records = parse_streamed_tags(b"<t a=\"1\" a=\"2\">x</t>");
    let rec = &records[0];
    assert_eq!(rec.attribute(b"a").unwrap(), b"2");
}

#[test]
fn malformed_attribute_fragments_are_skipped() {
    let records = parse_streamed_tags(b"<t a=1 b=\"2\" c>x</t>");
    assert_eq!(records.len(), 1);
    assert_eq!(records[0].attributes.len(), 1);
    assert_eq!(records[0].attributes[0].0, b"b");
    assert_eq!(records[0].attributes[0].1, b"2");
}

#[test]
fn empty_attribute_value() {
    let records = parse_streamed_tags(b"<t a=\"\">x</t>");
    assert_eq!(records[0].attributes.len(), 1);
    assert_eq!(records[0].attributes[0].0, b"a");
    assert_eq!(records[0].attributes[0].1, b"");
}

#[test]
fn value_without_closing_quote_yields_no_pair() {
    let records = parse_streamed_tags(b"<t a=\"unfinished>x</t>");
    assert_eq!(records.len(), 1);
    assert_eq!(records[0].attributes.len(), 0);
}

#[test]
fn digits_and_underscores_in_names() {
    let records = parse_streamed_tags(b"<tag_1 attr_2=\"v\">x</tag_1>");
    assert_eq!(records.len(), 1);
    assert_eq!(records[0].tag, b"tag_1");
    assert_eq!(records[0].attribute(b"attr_2").unwrap(), b"v");
    assert!(records[0].is_complete);
}

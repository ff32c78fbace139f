use tagstream::parse_streamed_tags;

#[test]
fn empty_input_yields_no_records() {
    let records = parse_streamed_tags(b"");
    assert_eq!(records.len(), 0);
}

#[test]
fn input_without_tags_yields_no_records() {
    let records = parse_streamed_tags(b"plain text, a < b and b > a, no markup");
    assert_eq!(records.len(), 0);
}

#[test]
fn single_complete_tag() {
    let records = parse_streamed_tags(b"<a>one</a>");
    assert_eq!(records.len(), 1);
    assert_eq!(records[0].tag, b"a");
    assert_eq!(records[0].content, b"one");
    assert_eq!(records[0].attributes.len(), 0);
    assert!(records[0].is_complete);
}

#[test]
fn nested_same_name_yields_one_record() {
    let records = parse_streamed_tags(b"<a>x<a>y</a>z</a>");
    assert_eq!(records.len(), 1);
    assert_eq!(records[0].tag, b"a");
    assert_eq!(records[0].content, b"x<a>y</a>z");
    assert!(records[0].is_complete);
}

#[test]
fn mixed_tags_two_records_in_order() {
    let records = parse_streamed_tags(b"<tool name=\"x\">hi</tool><tool name=\"y\">bye</tool>");
    assert_eq!(records.len(), 2);
    assert_eq!(records[0].tag, b"tool");
    assert_eq!(records[0].content, b"hi");
    assert!(records[0].is_complete);
    assert_eq!(records[0].attributes.len(), 1);
    assert_eq!(records[0].attributes[0].0, b"name");
    assert_eq!(records[0].attributes[0].1, b"x");
    assert_eq!(records[1].tag, b"tool");
    assert_eq!(records[1].content, b"bye");
    assert!(records[1].is_complete);
    assert_eq!(records[1].attributes.len(), 1);
    assert_eq!(records[1].attributes[0].0, b"name");
    assert_eq!(records[1].attributes[0].1, b"y");
}

#[test]
fn unclosed_tag_spans_rest_of_buffer() {
    let records = parse_streamed_tags(b"<think>partial output so far");
    assert_eq!(records.len(), 1);
    assert_eq!(records[0].tag, b"think");
    assert_eq!(records[0].content, b"partial output so far");
    assert!(!records[0].is_complete);
}

#[test]
fn opening_tag_without_gt_yields_nothing() {
    let records = parse_streamed_tags(b"<think");
    assert_eq!(records.len(), 0);
}

#[test]
fn content_is_trimmed() {
    let records = parse_streamed_tags(b"<a>\n  spaced out  \t</a>");
    assert_eq!(records.len(), 1);
    assert_eq!(records[0].content, b"spaced out");
}

#[test]
fn flat_tags_all_complete_with_exact_contents() {
    let records = parse_streamed_tags(b"<a>one</a> filler <b> two </b>");
    assert_eq!(records.len(), 2);
    assert_eq!(records[0].tag, b"a");
    assert_eq!(records[0].content, b"one");
    assert!(records[0].is_complete);
    assert_eq!(records[1].tag, b"b");
    assert_eq!(records[1].content, b"two");
    assert!(records[1].is_complete);
}

#[test]
fn different_name_nesting_is_invisible() {
    let records = parse_streamed_tags(b"<a>x<b>y</b>z</a>");
    assert_eq!(records.len(), 1);
    assert_eq!(records[0].tag, b"a");
    assert_eq!(records[0].content, b"x<b>y</b>z");
    assert!(records[0].is_complete);
}

#[test]
fn open_marker_is_a_prefix_match() {
    // The counting scan treats any occurrence of `<a` as an opening marker,
    // so `<ab>` raises the count for tag `a` and the outer tag never closes
    // in this buffer.
    let records = parse_streamed_tags(b"<a><ab></ab></a>");
    assert_eq!(records.len(), 1);
    assert_eq!(records[0].tag, b"a");
    assert!(!records[0].is_complete);
    assert_eq!(records[0].content, b"<ab></ab></a>");
}

#[test]
fn gt_far_ahead_still_ends_opening_tag() {
    // The `>` ending an opening tag may come much later in the buffer; the
    // bytes in between count as the raw attribute region.
    let records = parse_streamed_tags(b"<a <b>x</b>");
    assert_eq!(records.len(), 1);
    assert_eq!(records[0].tag, b"a");
    assert_eq!(records[0].attributes.len(), 0);
    assert_eq!(records[0].content, b"x</b>");
    assert!(!records[0].is_complete);
}

#[test]
fn incomplete_record_is_always_last() {
    let records = parse_streamed_tags(b"<a>done</a><b>par");
    assert_eq!(records.len(), 2);
    assert!(records[0].is_complete);
    assert!(!records[1].is_complete);
}

#[test]
fn complete_records_stable_under_streaming_growth() {
    let shorter = parse_streamed_tags(b"<a k=\"v\">done</a><b>par");
    let longer = parse_streamed_tags(b"<a k=\"v\">done</a><b>partial</b>");
    assert_eq!(shorter.len(), 2);
    assert_eq!(longer.len(), 2);
    assert_eq!(longer[0].tag, shorter[0].tag);
    assert_eq!(longer[0].attributes, shorter[0].attributes);
    assert_eq!(longer[0].content, shorter[0].content);
    assert_eq!(longer[0].is_complete, shorter[0].is_complete);
    assert!(!shorter[1].is_complete);
    assert!(longer[1].is_complete);
    assert_eq!(longer[1].content, b"partial");
}

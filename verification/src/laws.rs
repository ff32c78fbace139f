//! Laws of the scan: what holds of every buffer, proved once and for all.

use vstd::prelude::*;

use crate::attrs::attrs_of;
use crate::matcher::{close_marker, close_scan, lemma_close_scan_bounds, open_marker};
use crate::record::TagView;
use crate::scanner::{
    first_open, lemma_first_open_fails, lemma_first_open_spec, name_end, name_of, open_tag_at,
    scan_from, tag_close,
};
use crate::text::{
    find_from, lemma_bytes_give_match, lemma_find_from_fails, lemma_find_from_spec, matches_at,
    trim, GT,
};

verus! {

/// A buffer without any opening tag — in particular the empty buffer —
/// yields the empty record sequence, not an error.
pub proof fn lemma_no_tags_empty(s: Seq<u8>)
    requires
        forall|i: int| !open_tag_at(s, i),
    ensures
        scan_from(s, 0) == Seq::<TagView>::empty(),
{
    lemma_first_open_fails(s, 0);
}

/// The empty buffer yields the empty record sequence.
pub proof fn lemma_empty_buffer(s: Seq<u8>)
    requires
        s.len() == 0,
    ensures
        scan_from(s, 0) == Seq::<TagView>::empty(),
{
    lemma_no_tags_empty(s);
}

/// Once a record with `complete == false` is emitted, it is the last record
/// of the scan: an incomplete tag consumes the remainder of the buffer.
pub proof fn lemma_incomplete_is_last(s: Seq<u8>, from: int)
    ensures
        forall|k: int|
            0 <= k < scan_from(s, from).len() && !scan_from(s, from)[k].complete ==> k
                == scan_from(s, from).len() - 1,
    decreases s.len() - from,
{
    lemma_first_open_spec(s, from);
    match first_open(s, from) {
        None => {},
        Some(i) => {
            lemma_find_from_spec(s, seq![GT], i + 2);
            match tag_close(s, i) {
                None => {},
                Some(j) => {
                    let tag = name_of(s, i);
                    lemma_close_scan_bounds(s, tag, j + 1, 1);
                    match close_scan(s, tag, j + 1, 1) {
                        Some(end) => {
                            lemma_incomplete_is_last(s, end);
                            let r = scan_from(s, from);
                            let tail = scan_from(s, end);
                            assert forall|k: int|
                                0 <= k < r.len() && !r[k].complete implies k == r.len() - 1 by {
                                if k >= 1 {
                                    assert(r[k] == tail[k - 1]);
                                }
                            }
                        },
                        None => {},
                    }
                },
            }
        },
    }
}

/// A buffer ending mid-tag: an opening tag is found, and no closing marker
/// for its name occurs anywhere. The scan yields exactly one record; it is
/// incomplete and its content is the rest of the buffer, trimmed.
pub proof fn lemma_unclosed_tag_spans_buffer(s: Seq<u8>, i: int)
    requires
        first_open(s, 0) == Some(i),
        forall|k: int| k > i ==> !matches_at(s, close_marker(name_of(s, i)), k),
    ensures
        scan_from(s, 0).len() == 1,
        !scan_from(s, 0)[0].complete,
        scan_from(s, 0)[0].tag == name_of(s, i),
        scan_from(s, 0)[0].content == trim(s.subrange(tag_close(s, i)->0 + 1, s.len() as int)),
{
    lemma_first_open_spec(s, 0);
    let jw = choose|j: int| i + 1 < j < s.len() && s[j] == GT;
    lemma_bytes_give_match(s, seq![GT], jw);
    lemma_find_from_spec(s, seq![GT], i + 2);
    assert(tag_close(s, i) is Some) by {
        if tag_close(s, i) is None {
            assert(!matches_at(s, seq![GT], jw));
        }
    }
    let j = tag_close(s, i)->0;
    lemma_find_from_fails(s, close_marker(name_of(s, i)), j + 1);
}

/// A buffer contains only well-formed, non-nested tags (from `from` on) when,
/// wherever the scanner finds an opening tag, the closing marker for its name
/// occurs later in the buffer with no same-name opening marker before it, and
/// the buffer after that closing marker is of the same shape.
pub open spec fn flat_from(s: Seq<u8>, from: int) -> bool
    decreases s.len() - from,
        via flat_from_decreases
{
    match first_open(s, from) {
        None => true,
        Some(i) => match tag_close(s, i) {
            None => true,
            Some(j) => {
                let tag = name_of(s, i);
                match find_from(s, close_marker(tag), j + 1) {
                    None => false,
                    Some(c) => {
                        &&& match find_from(s, open_marker(tag), j + 1) {
                            Some(o) => o > c,
                            None => true,
                        }
                        &&& flat_from(s, c + close_marker(tag).len())
                    },
                }
            },
        },
    }
}

#[via_fn]
proof fn flat_from_decreases(s: Seq<u8>, from: int) {
    lemma_first_open_spec(s, from);
    match first_open(s, from) {
        None => {},
        Some(i) => {
            lemma_find_from_spec(s, seq![GT], i + 2);
            match tag_close(s, i) {
                None => {},
                Some(j) => {
                    lemma_find_from_spec(s, close_marker(name_of(s, i)), j + 1);
                },
            }
        },
    }
}

/// In a buffer of only well-formed, non-nested tags, every record of the
/// scan is complete. (By `scan_from`'s definition, each such record's content
/// is then the text strictly between its opening tag and the matching
/// closing marker, trimmed.)
pub proof fn lemma_flat_all_complete(s: Seq<u8>, from: int)
    requires
        flat_from(s, from),
    ensures
        forall|k: int| 0 <= k < scan_from(s, from).len() ==> scan_from(s, from)[k].complete,
    decreases s.len() - from,
{
    lemma_first_open_spec(s, from);
    match first_open(s, from) {
        None => {},
        Some(i) => {
            lemma_find_from_spec(s, seq![GT], i + 2);
            match tag_close(s, i) {
                None => {},
                Some(j) => {
                    let tag = name_of(s, i);
                    lemma_find_from_spec(s, close_marker(tag), j + 1);
                    lemma_find_from_spec(s, open_marker(tag), j + 1);
                    let c = find_from(s, close_marker(tag), j + 1)->0;
                    let end = c + close_marker(tag).len();
                    assert(close_scan(s, tag, j + 1, 1) == Some(end)) by {
                        assert(close_scan(s, tag, end, 0) == Some(end));
                    }
                    lemma_flat_all_complete(s, end);
                    let r = scan_from(s, from);
                    let tail = scan_from(s, end);
                    assert forall|k: int| 0 <= k < r.len() implies r[k].complete by {
                        if k >= 1 {
                            assert(r[k] == tail[k - 1]);
                        }
                    }
                },
            }
        },
    }
}

/// The records a buffer of only well-formed, non-nested tags is expected to
/// yield: for each opening tag the scanner locates, one complete record
/// holding its name, its attribute pairs, and exactly the inter-tag text —
/// the text up to the first closing marker of its name — trimmed.
pub open spec fn flat_records(s: Seq<u8>, from: int) -> Seq<TagView>
    decreases s.len() - from,
        via flat_records_decreases
{
    match first_open(s, from) {
        None => Seq::empty(),
        Some(i) => match tag_close(s, i) {
            None => Seq::empty(),
            Some(j) => {
                let tag = name_of(s, i);
                match find_from(s, close_marker(tag), j + 1) {
                    None => Seq::empty(),
                    Some(c) => seq![
                        TagView {
                            tag,
                            attrs: attrs_of(s.subrange(name_end(s, i), j)),
                            content: trim(s.subrange(j + 1, c)),
                            complete: true,
                        },
                    ] + flat_records(s, c + close_marker(tag).len()),
                }
            },
        },
    }
}

#[via_fn]
proof fn flat_records_decreases(s: Seq<u8>, from: int) {
    lemma_first_open_spec(s, from);
    match first_open(s, from) {
        None => {},
        Some(i) => {
            lemma_find_from_spec(s, seq![GT], i + 2);
            match tag_close(s, i) {
                None => {},
                Some(j) => {
                    lemma_find_from_spec(s, close_marker(name_of(s, i)), j + 1);
                },
            }
        },
    }
}

/// In a buffer of only well-formed, non-nested tags, the scan yields exactly
/// the expected flat records: each record is complete and its content is the
/// exact inter-tag text, trimmed.
pub proof fn lemma_flat_scan_exact(s: Seq<u8>, from: int)
    requires
        flat_from(s, from),
    ensures
        scan_from(s, from) == flat_records(s, from),
    decreases s.len() - from,
{
    lemma_first_open_spec(s, from);
    match first_open(s, from) {
        None => {},
        Some(i) => {
            lemma_find_from_spec(s, seq![GT], i + 2);
            match tag_close(s, i) {
                None => {},
                Some(j) => {
                    let tag = name_of(s, i);
                    lemma_find_from_spec(s, close_marker(tag), j + 1);
                    lemma_find_from_spec(s, open_marker(tag), j + 1);
                    let c = find_from(s, close_marker(tag), j + 1)->0;
                    let end = c + close_marker(tag).len();
                    assert(close_scan(s, tag, j + 1, 1) == Some(end)) by {
                        assert(close_scan(s, tag, end, 0) == Some(end));
                    }
                    lemma_flat_scan_exact(s, end);
                },
            }
        },
    }
}

} // verus!

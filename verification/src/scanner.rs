//! The tag scanner: locate the next opening tag, extract its name and raw
//! attribute region, invoke the closing-tag matcher for its extent, emit a
//! record, advance, and repeat until no opening tag remains.

use vstd::prelude::*;

use crate::attrs::{attrs_of, pairs_view, parse_attrs};
use crate::matcher::{close_marker, close_scan, find_closing_tag, lemma_close_scan_bounds};
use crate::record::{TagRecord, TagView};
use crate::text::{
    copy_range, find_from, find_sub, is_word, is_word_byte, lemma_bytes_give_match,
    lemma_find_from_spec, lemma_matches_at_index, lemma_word_end, matches_at, scan_word_end, trim,
    trim_range, word_end, GT, LT,
};

verus! {

/// An opening tag starts at `i`: a `<`, then a word byte opening the name,
/// with a `>` somewhere later to end the tag. (The buffer from `i` on matches
/// the opening-tag pattern: `<`, one or more word bytes, any non-`>` bytes,
/// `>`.)
pub open spec fn open_tag_at(s: Seq<u8>, i: int) -> bool {
    &&& 0 <= i
    &&& i + 1 < s.len()
    &&& s[i] == LT
    &&& is_word_byte(s[i + 1])
    &&& exists|j: int| i + 1 < j < s.len() && s[j] == GT
}

/// The position of the first opening tag at or after `from`, if any.
pub open spec fn first_open(s: Seq<u8>, from: int) -> Option<int>
    decreases s.len() - from,
{
    if from >= s.len() {
        None
    } else if open_tag_at(s, from) {
        Some(from)
    } else {
        first_open(s, from + 1)
    }
}

/// Where the name of the opening tag at `i` ends: the end of the word run
/// that starts just after the `<`.
pub open spec fn name_end(s: Seq<u8>, i: int) -> int {
    word_end(s, i + 1)
}

/// The name of the opening tag at `i`.
pub open spec fn name_of(s: Seq<u8>, i: int) -> Seq<u8> {
    s.subrange(i + 1, name_end(s, i))
}

/// The position of the `>` that ends the opening tag at `i`: the first `>`
/// after the name's first byte.
pub open spec fn tag_close(s: Seq<u8>, i: int) -> Option<int> {
    find_from(s, seq![GT], i + 2)
}

/// What `first_open` returns: a `Some` is the first opening tag at or after
/// `from`; a `None` means there is none.
pub proof fn lemma_first_open_spec(s: Seq<u8>, from: int)
    ensures
        match first_open(s, from) {
            Some(i) => from <= i && open_tag_at(s, i) && forall|k: int|
                from <= k < i ==> !open_tag_at(s, k),
            None => forall|k: int| from <= k ==> !open_tag_at(s, k),
        },
    decreases s.len() - from,
{
    if from >= s.len() {
    } else if open_tag_at(s, from) {
    } else {
        lemma_first_open_spec(s, from + 1);
    }
}

/// The characterization is exact: an opening tag with none before it is what
/// `first_open` returns.
pub proof fn lemma_first_open_exact(s: Seq<u8>, from: int, i: int)
    requires
        0 <= from <= i,
        open_tag_at(s, i),
        forall|k: int| from <= k < i ==> !open_tag_at(s, k),
    ensures
        first_open(s, from) == Some(i),
    decreases s.len() - from,
{
    if from < i {
        lemma_first_open_exact(s, from + 1, i);
    }
}

/// And if no opening tag starts at or after `from`, `first_open` is `None`.
pub proof fn lemma_first_open_fails(s: Seq<u8>, from: int)
    requires
        forall|k: int| from <= k ==> !open_tag_at(s, k),
    ensures
        first_open(s, from) == None::<int>,
{
    lemma_first_open_spec(s, from);
    if first_open(s, from) is Some {
        assert(!open_tag_at(s, first_open(s, from)->0));
    }
}

/// The records extracted from `s`, from position `from` on: for each opening
/// tag found, its name, its attribute pairs, its trimmed content up to the
/// matching closing tag (or the end of the buffer), and whether that closing
/// tag was found.
pub open spec fn scan_from(s: Seq<u8>, from: int) -> Seq<TagView>
    decreases s.len() - from,
        via scan_from_decreases
{
    match first_open(s, from) {
        None => Seq::empty(),
        Some(i) => match tag_close(s, i) {
            None => Seq::empty(),
            Some(j) => {
                let tag = name_of(s, i);
                let attrs = attrs_of(s.subrange(name_end(s, i), j));
                match close_scan(s, tag, j + 1, 1) {
                    Some(end) => seq![
                        TagView {
                            tag,
                            attrs,
                            content: trim(s.subrange(j + 1, end - close_marker(tag).len())),
                            complete: true,
                        },
                    ] + scan_from(s, end),
                    None => seq![
                        TagView {
                            tag,
                            attrs,
                            content: trim(s.subrange(j + 1, s.len() as int)),
                            complete: false,
                        },
                    ],
                }
            },
        },
    }
}

#[via_fn]
proof fn scan_from_decreases(s: Seq<u8>, from: int) {
    lemma_first_open_spec(s, from);
    match first_open(s, from) {
        None => {},
        Some(i) => {
            lemma_find_from_spec(s, seq![GT], i + 2);
            match tag_close(s, i) {
                None => {},
                Some(j) => {
                    lemma_close_scan_bounds(s, name_of(s, i), j + 1, 1);
                },
            }
        },
    }
}

/// The mathematical contents of an executable record list.
pub open spec fn records_view(rs: Seq<TagRecord>) -> Seq<TagView> {
    rs.map_values(|r: TagRecord| r@)
}

/// Locates the first opening tag at or after `from`: its start, the end of
/// its name run, and the position of its closing `>`.
pub fn find_open_tag(s: &[u8], from: usize) -> (r: Option<(usize, usize, usize)>)
    requires
        from <= s@.len(),
    ensures
        match r {
            None => first_open(s@, from as int) == None::<int>,
            Some((i, w, j)) => {
                &&& first_open(s@, from as int) == Some(i as int)
                &&& w == name_end(s@, i as int)
                &&& tag_close(s@, i as int) == Some(j as int)
                &&& from <= i
                &&& i + 2 <= w <= j < s@.len()
            },
        },
{
    let s_len = s.len();
    let mut gt_pat: Vec<u8> = Vec::new();
    gt_pat.push(GT);
    proof {
        assert(gt_pat@ =~= seq![GT]);
    }
    let mut i = from;
    while i < s_len
        invariant
            from <= i <= s_len,
            s_len == s@.len(),
            gt_pat@ == seq![GT],
            forall|k: int| from <= k < i ==> !open_tag_at(s@, k),
        decreases s_len - i,
    {
        if s[i] == LT && i + 1 < s_len && is_word(s[i + 1]) {
            match find_sub(s, gt_pat.as_slice(), i + 2) {
                Some(j) => {
                    proof {
                        lemma_find_from_spec(s@, seq![GT], i + 2);
                        lemma_matches_at_index(s@, seq![GT], j as int, 0);
                        assert(open_tag_at(s@, i as int));
                        lemma_first_open_exact(s@, from as int, i as int);
                    }
                    let w = scan_word_end(s, i + 1);
                    proof {
                        lemma_word_end(s@, i + 1);
                        assert(w > i + 1);
                        assert(w <= j) by {
                            if w > j {
                                assert(is_word_byte(s@[j as int]));
                            }
                        }
                    }
                    return Some((i, w, j));
                },
                None => {
                    proof {
                        lemma_find_from_spec(s@, seq![GT], i + 2);
                        assert forall|k: int| from <= k implies !open_tag_at(s@, k) by {
                            if k >= i && open_tag_at(s@, k) {
                                let j = choose|j: int|
                                    k + 1 < j < s@.len() && s@[j] == GT;
                                lemma_bytes_give_match(s@, seq![GT], j);
                                assert(!matches_at(s@, seq![GT], j));
                            }
                        }
                        lemma_first_open_fails(s@, from as int);
                    }
                    return None;
                },
            }
        }
        i += 1;
    }
    proof {
        assert forall|k: int| from <= k implies !open_tag_at(s@, k) by {}
        lemma_first_open_fails(s@, from as int);
    }
    None
}

/// Parses the buffer into its sequence of top-level tag records, left to
/// right. Nested same-name tags are resolved to the outermost record; a tag
/// whose closing tag is not in the buffer yet yields a final record with
/// `is_complete` false whose content runs to the end of the buffer; a buffer
/// without tags yields the empty sequence.
pub fn parse_streamed_tags(stream: &[u8]) -> (out: Vec<TagRecord>)
    ensures
        records_view(out@) == scan_from(stream@, 0),
{
    let s_len = stream.len();
    let mut out: Vec<TagRecord> = Vec::new();
    let mut pos: usize = 0;
    loop
        invariant
            s_len == stream@.len(),
            pos <= s_len,
            records_view(out@) + scan_from(stream@, pos as int) == scan_from(stream@, 0),
        ensures
            records_view(out@) + scan_from(stream@, pos as int) == scan_from(stream@, 0),
            scan_from(stream@, pos as int) == Seq::<TagView>::empty(),
        decreases s_len - pos,
    {
        match find_open_tag(stream, pos) {
            None => {
                break;
            },
            Some((i, w, j)) => {
                let tag = copy_range(stream, i + 1, w);
                let region = copy_range(stream, w, j);
                let attributes = parse_attrs(region.as_slice());
                let content_start = j + 1;
                proof {
                    assert(tag@ == name_of(stream@, i as int));
                    assert(tag@.len() >= 1);
                }
                let ghost old_records = records_view(out@);
                match find_closing_tag(stream, content_start, tag.as_slice()) {
                    Some(end) => {
                        proof {
                            lemma_close_scan_bounds(stream@, tag@, content_start as int, 1);
                        }
                        let content = trim_range(stream, content_start, end - (tag.len() + 3));
                        let rec = TagRecord { tag, attributes, content, is_complete: true };
                        proof {
                            assert(scan_from(stream@, pos as int) =~= seq![rec@] + scan_from(
                                stream@,
                                end as int,
                            ));
                            assert(records_view(out@.push(rec)) =~= old_records + seq![rec@]);
                            assert(old_records + (seq![rec@] + scan_from(stream@, end as int))
                                =~= (old_records + seq![rec@]) + scan_from(stream@, end as int));
                        }
                        out.push(rec);
                        pos = end;
                    },
                    None => {
                        let content = trim_range(stream, content_start, s_len);
                        let rec = TagRecord { tag, attributes, content, is_complete: false };
                        proof {
                            assert(scan_from(stream@, pos as int) =~= seq![rec@]);
                            assert(records_view(out@.push(rec)) =~= old_records + seq![rec@]);
                            assert(scan_from(stream@, s_len as int) =~= Seq::<TagView>::empty());
                        }
                        out.push(rec);
                        pos = s_len;
                    },
                }
            },
        }
    }
    proof {
        assert(records_view(out@) =~= scan_from(stream@, 0));
    }
    out
}

} // verus!

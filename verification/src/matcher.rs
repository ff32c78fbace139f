//! The closing-tag matcher: starting just after a located opening tag, scan
//! forward counting nested same-name opening and closing markers to find the
//! closing tag of that specific nesting level, or report that none is in the
//! buffer yet.

use vstd::prelude::*;

use crate::text::{
    find_from, find_sub, lemma_find_from_spec, matches_at, GT, LT, SLASH,
};

verus! {

/// The opening marker for a tag name: `<name`. Only the marker prefix takes
/// part in matching; whatever attribute text follows it is irrelevant.
pub open spec fn open_marker(tag: Seq<u8>) -> Seq<u8> {
    seq![LT] + tag
}

/// The closing marker for a tag name: `</name>`.
pub open spec fn close_marker(tag: Seq<u8>) -> Seq<u8> {
    seq![LT, SLASH] + tag + seq![GT]
}

/// The counting scan that resolves one level of same-name nesting. `count`
/// open markers are pending; each further open marker raises the count, each
/// closing marker lowers it. The result is the offset just past the closing
/// marker that brings the count to zero, or `None` when the buffer runs out
/// of closing markers first.
pub open spec fn close_scan(s: Seq<u8>, tag: Seq<u8>, pos: int, count: nat) -> Option<int>
    decreases s.len() - pos,
        via close_scan_decreases
{
    if count == 0 {
        Some(pos)
    } else {
        match find_from(s, close_marker(tag), pos) {
            None => None,
            Some(c) => match find_from(s, open_marker(tag), pos) {
                Some(o) => if o < c {
                    close_scan(s, tag, o + open_marker(tag).len(), (count + 1) as nat)
                } else {
                    close_scan(s, tag, c + close_marker(tag).len(), (count - 1) as nat)
                },
                None => close_scan(s, tag, c + close_marker(tag).len(), (count - 1) as nat),
            },
        }
    }
}

#[via_fn]
proof fn close_scan_decreases(s: Seq<u8>, tag: Seq<u8>, pos: int, count: nat) {
    if count != 0 {
        lemma_find_from_spec(s, close_marker(tag), pos);
        lemma_find_from_spec(s, open_marker(tag), pos);
    }
}

/// A successful counting scan ends strictly past its starting offset, within
/// the buffer, just after an occurrence of the closing marker.
pub proof fn lemma_close_scan_bounds(s: Seq<u8>, tag: Seq<u8>, pos: int, count: nat)
    requires
        count >= 1,
    ensures
        match close_scan(s, tag, pos, count) {
            Some(end) => {
                &&& pos < end <= s.len()
                &&& pos + close_marker(tag).len() <= end
                &&& matches_at(s, close_marker(tag), end - close_marker(tag).len())
            },
            None => true,
        },
    decreases s.len() - pos,
{
    lemma_find_from_spec(s, close_marker(tag), pos);
    lemma_find_from_spec(s, open_marker(tag), pos);
    match find_from(s, close_marker(tag), pos) {
        None => {},
        Some(c) => {
            let next_open = find_from(s, open_marker(tag), pos);
            if next_open is Some && next_open->0 < c {
                lemma_close_scan_bounds(s, tag, next_open->0 + open_marker(tag).len(), (count
                    + 1) as nat);
            } else {
                if count == 1 {
                    assert(close_scan(s, tag, c + close_marker(tag).len(), 0) == Some(
                        c + close_marker(tag).len(),
                    ));
                } else {
                    lemma_close_scan_bounds(
                        s,
                        tag,
                        c + close_marker(tag).len(),
                        (count - 1) as nat,
                    );
                }
            }
        },
    }
}

/// Builds the executable bytes of `open_marker(tag@)`.
fn build_open_marker(tag: &[u8]) -> (r: Vec<u8>)
    ensures
        r@ == open_marker(tag@),
{
    let mut r: Vec<u8> = Vec::new();
    r.push(LT);
    let mut k: usize = 0;
    while k < tag.len()
        invariant
            k <= tag@.len(),
            r@.len() == 1 + k,
            r@[0] == LT,
            forall|i: int| 0 <= i < k ==> r@[1 + i] == tag@[i],
        decreases tag@.len() - k,
    {
        r.push(tag[k]);
        k += 1;
    }
    proof {
        assert(r@ =~= open_marker(tag@));
    }
    r
}

/// Builds the executable bytes of `close_marker(tag@)`.
fn build_close_marker(tag: &[u8]) -> (r: Vec<u8>)
    ensures
        r@ == close_marker(tag@),
{
    let mut r: Vec<u8> = Vec::new();
    r.push(LT);
    r.push(SLASH);
    let mut k: usize = 0;
    while k < tag.len()
        invariant
            k <= tag@.len(),
            r@.len() == 2 + k,
            r@[0] == LT,
            r@[1] == SLASH,
            forall|i: int| 0 <= i < k ==> r@[2 + i] == tag@[i],
        decreases tag@.len() - k,
    {
        r.push(tag[k]);
        k += 1;
    }
    r.push(GT);
    proof {
        assert(r@ =~= close_marker(tag@));
    }
    r
}

/// Finds the offset just past the closing tag that matches the opening tag of
/// `tag` whose body starts at `start_pos`, resolving nested same-name tags by
/// the counting scan; `None` when the available buffer holds no such closing
/// tag yet.
pub fn find_closing_tag(stream: &[u8], start_pos: usize, tag: &[u8]) -> (r: Option<usize>)
    requires
        start_pos <= stream@.len(),
        tag@.len() >= 1,
    ensures
        match r {
            Some(end) => close_scan(stream@, tag@, start_pos as int, 1) == Some(end as int),
            None => close_scan(stream@, tag@, start_pos as int, 1) == None::<int>,
        },
{
    let open_pat = build_open_marker(tag);
    let close_pat = build_close_marker(tag);
    let s_len = stream.len();
    let mut pos = start_pos;
    let mut count: usize = 1;

    while count > 0
        invariant
            s_len == stream@.len(),
            start_pos <= pos <= s_len,
            open_pat@ == open_marker(tag@),
            close_pat@ == close_marker(tag@),
            tag@.len() >= 1,
            2 * count <= 2 + pos - start_pos,
            close_scan(stream@, tag@, pos as int, count as nat) == close_scan(
                stream@,
                tag@,
                start_pos as int,
                1,
            ),
        decreases s_len - pos,
    {
        let next_open = find_sub(stream, open_pat.as_slice(), pos);
        let next_close = find_sub(stream, close_pat.as_slice(), pos);
        proof {
            lemma_find_from_spec(stream@, close_marker(tag@), pos as int);
            lemma_find_from_spec(stream@, open_marker(tag@), pos as int);
        }
        match (next_open, next_close) {
            (_, None) => {
                return None;
            },
            (Some(o), Some(c)) if o < c => {
                count += 1;
                pos = o + open_pat.len();
            },
            (_, Some(c)) => {
                count -= 1;
                pos = c + close_pat.len();
            },
        }
    }
    Some(pos)
}

} // verus!

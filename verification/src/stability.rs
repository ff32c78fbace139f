//! Stability under streaming growth: a complete record, once extracted,
//! stays exactly as it is when more text arrives at the end of the buffer.

use vstd::prelude::*;

use crate::attrs::attrs_of;
use crate::matcher::{close_marker, close_scan, lemma_close_scan_bounds, open_marker};
use crate::scanner::{
    first_open, lemma_first_open_exact, lemma_first_open_spec, name_end, name_of, open_tag_at,
    scan_from, tag_close,
};
use crate::text::{
    find_from, is_word_byte, lemma_find_from_exact, lemma_find_from_spec, lemma_matches_at_index,
    lemma_word_end, matches_at, trim, word_end, GT,
};

verus! {

/// An occurrence that fits inside `s` is unaffected by appending `ext`.
proof fn lemma_matches_at_extend(s: Seq<u8>, ext: Seq<u8>, pat: Seq<u8>, k: int)
    requires
        k + pat.len() <= s.len(),
    ensures
        matches_at(s, pat, k) <==> matches_at(s + ext, pat, k),
{
    if 0 <= k {
        assert((s + ext).subrange(k, k + pat.len() as int) =~= s.subrange(
            k,
            k + pat.len() as int,
        ));
    }
}

/// A found occurrence is stable under appending: everything before it still
/// fails to match, and the occurrence itself is untouched.
proof fn lemma_find_from_extend_some(s: Seq<u8>, ext: Seq<u8>, pat: Seq<u8>, from: int, c: int)
    requires
        0 <= from,
        find_from(s, pat, from) == Some(c),
    ensures
        find_from(s + ext, pat, from) == Some(c),
{
    lemma_find_from_spec(s, pat, from);
    lemma_matches_at_extend(s, ext, pat, c);
    assert forall|k: int| from <= k < c implies !matches_at(s + ext, pat, k) by {
        lemma_matches_at_extend(s, ext, pat, k);
    }
    lemma_find_from_exact(s + ext, pat, from, c);
}

/// Where nothing was found, anything found after appending overhangs the old
/// end of the buffer.
proof fn lemma_find_from_extend_none(s: Seq<u8>, ext: Seq<u8>, pat: Seq<u8>, from: int)
    requires
        0 <= from,
        find_from(s, pat, from) == None::<int>,
    ensures
        match find_from(s + ext, pat, from) {
            None => true,
            Some(k) => from <= k && k + pat.len() > s.len(),
        },
{
    lemma_find_from_spec(s, pat, from);
    lemma_find_from_spec(s + ext, pat, from);
    match find_from(s + ext, pat, from) {
        None => {},
        Some(k) => {
            if k + pat.len() <= s.len() {
                lemma_matches_at_extend(s, ext, pat, k);
            }
        },
    }
}

/// A completed counting scan is stable under appending: it takes the same
/// steps over the same marker occurrences and ends at the same offset.
proof fn lemma_close_scan_extend(s: Seq<u8>, ext: Seq<u8>, tag: Seq<u8>, pos: int, count: nat)
    requires
        0 <= pos,
        close_scan(s, tag, pos, count) is Some,
    ensures
        close_scan(s + ext, tag, pos, count) == close_scan(s, tag, pos, count),
    decreases s.len() - pos,
{
    if count == 0 {
    } else {
        let cm = close_marker(tag);
        let om = open_marker(tag);
        lemma_find_from_spec(s, cm, pos);
        lemma_find_from_spec(s, om, pos);
        let c = find_from(s, cm, pos)->0;
        lemma_find_from_extend_some(s, ext, cm, pos, c);
        match find_from(s, om, pos) {
            Some(o) => {
                lemma_find_from_extend_some(s, ext, om, pos, o);
                if o < c {
                    lemma_close_scan_extend(s, ext, tag, o + om.len(), (count + 1) as nat);
                } else {
                    lemma_close_scan_extend(s, ext, tag, c + cm.len(), (count - 1) as nat);
                }
            },
            None => {
                lemma_find_from_extend_none(s, ext, om, pos);
                match find_from(s + ext, om, pos) {
                    Some(k) => {
                        // Any open marker that appears only after growth
                        // overhangs the old buffer end, hence lies beyond the
                        // closing marker found at `c`; the scan still takes
                        // the closing marker first.
                        assert(k > c);
                    },
                    None => {},
                }
                lemma_close_scan_extend(s, ext, tag, c + cm.len(), (count - 1) as nat);
            },
        }
    }
}

/// A located opening tag is stable under appending, and nothing before it
/// starts matching merely because text was appended.
proof fn lemma_first_open_extend(s: Seq<u8>, ext: Seq<u8>, from: int, i: int)
    requires
        0 <= from,
        first_open(s, from) == Some(i),
    ensures
        first_open(s + ext, from) == Some(i),
{
    let t = s + ext;
    lemma_first_open_spec(s, from);
    let jw = choose|j: int| i + 1 < j < s.len() && s[j] == GT;
    assert(open_tag_at(t, i)) by {
        assert(t[i] == s[i]);
        assert(t[i + 1] == s[i + 1]);
        assert(i + 1 < jw < t.len() && t[jw] == GT);
    }
    assert forall|k: int| from <= k < i implies !open_tag_at(t, k) by {
        if open_tag_at(t, k) {
            assert(t[k] == s[k]);
            assert(t[k + 1] == s[k + 1]);
            assert(open_tag_at(s, k)) by {
                assert(k + 1 < jw < s.len() && s[jw] == GT);
            }
        }
    }
    lemma_first_open_exact(t, from, i);
}

/// A word run that ends inside `s` is unaffected by appending.
proof fn lemma_word_end_extend(s: Seq<u8>, ext: Seq<u8>, p: int)
    requires
        0 <= p <= s.len(),
        word_end(s, p) < s.len(),
    ensures
        word_end(s + ext, p) == word_end(s, p),
    decreases s.len() - p,
{
    let t = s + ext;
    if p < s.len() && is_word_byte(s[p]) {
        assert(t[p] == s[p]);
        lemma_word_end_extend(s, ext, p + 1);
    } else {
        assert(t[p] == s[p]);
    }
}

/// The inductive heart of streaming stability: from any position inside the
/// old buffer, every complete record of the old scan reappears, identical
/// and at the same index, in the scan of the grown buffer.
proof fn lemma_scan_extend_stable(s: Seq<u8>, ext: Seq<u8>, from: int)
    requires
        0 <= from <= s.len(),
    ensures
        forall|k: int|
            0 <= k < scan_from(s, from).len() && scan_from(s, from)[k].complete ==> k < scan_from(
                s + ext,
                from,
            ).len() && scan_from(s + ext, from)[k] == scan_from(s, from)[k],
    decreases s.len() - from,
{
    let t = s + ext;
    lemma_first_open_spec(s, from);
    match first_open(s, from) {
        None => {},
        Some(i) => {
            lemma_first_open_extend(s, ext, from, i);
            lemma_find_from_spec(s, seq![GT], i + 2);
            match tag_close(s, i) {
                None => {},
                Some(j) => {
                    lemma_find_from_extend_some(s, ext, seq![GT], i + 2, j);
                    lemma_matches_at_index(s, seq![GT], j, 0);
                    let w = name_end(s, i);
                    lemma_word_end(s, i + 1);
                    assert(w <= j) by {
                        if w > j {
                            assert(is_word_byte(s[j]));
                        }
                    }
                    lemma_word_end_extend(s, ext, i + 1);
                    let tag = name_of(s, i);
                    assert(name_of(t, i) == tag) by {
                        assert(t.subrange(i + 1, w) =~= s.subrange(i + 1, w));
                    }
                    assert(t.subrange(w, j) =~= s.subrange(w, j));
                    match close_scan(s, tag, j + 1, 1) {
                        Some(end) => {
                            lemma_close_scan_bounds(s, tag, j + 1, 1);
                            lemma_close_scan_extend(s, ext, tag, j + 1, 1);
                            let cut = end - close_marker(tag).len();
                            assert(t.subrange(j + 1, cut) =~= s.subrange(j + 1, cut));
                            lemma_scan_extend_stable(s, ext, end);
                            let r = scan_from(s, from);
                            let rt = scan_from(t, from);
                            let tail = scan_from(s, end);
                            let tail_t = scan_from(t, end);
                            assert forall|k: int|
                                0 <= k < r.len() && r[k].complete implies k < rt.len() && rt[k]
                                == r[k] by {
                                if k == 0 {
                                    assert(rt[0] == r[0]);
                                } else {
                                    assert(r[k] == tail[k - 1]);
                                    assert(k - 1 < tail_t.len() && tail_t[k - 1] == tail[k - 1]);
                                    assert(rt[k] == tail_t[k - 1]);
                                }
                            }
                        },
                        None => {
                            // The head record is incomplete, hence (being the
                            // only record) nothing is claimed of this scan.
                        },
                    }
                },
            }
        },
    }
}

/// Scanning a buffer and scanning it again with further text appended yields,
/// for every complete record of the first scan, an identical record at the
/// same position in the second: previously extracted complete records are
/// stable under streaming growth.
pub proof fn lemma_streaming_append_stable(s: Seq<u8>, ext: Seq<u8>)
    ensures
        forall|k: int|
            0 <= k < scan_from(s, 0).len() && scan_from(s, 0)[k].complete ==> k < scan_from(
                s + ext,
                0,
            ).len() && scan_from(s + ext, 0)[k] == scan_from(s, 0)[k],
{
    lemma_scan_extend_stable(s, ext, 0);
}

} // verus!

//! Attribute extraction: the raw attribute region of an opening tag is read
//! permissively, left to right, as zero or more `name="value"` pairs. Text
//! that does not fit that shape is silently skipped, never an error.

use vstd::prelude::*;

use crate::text::{
    copy_range, find_from, find_sub, is_word, is_word_byte, lemma_find_from_spec, lemma_word_end,
    scan_word_end, word_end, EQUALS, QUOTE,
};

verus! {

/// The attribute pairs found in `r` from position `p` on, in order. A pair
/// starts at a word-byte run immediately followed by `="`; its value runs to
/// the next `"`. A run not followed by `="` is skipped; once no closing quote
/// remains, no further pair can ever match.
pub open spec fn attrs_from(r: Seq<u8>, p: int) -> Seq<(Seq<u8>, Seq<u8>)>
    decreases r.len() - p,
        via attrs_from_decreases
{
    if p < 0 || p >= r.len() {
        Seq::empty()
    } else if !is_word_byte(r[p]) {
        attrs_from(r, p + 1)
    } else {
        let q = word_end(r, p);
        if q + 1 < r.len() && r[q] == EQUALS && r[q + 1] == QUOTE {
            match find_from(r, seq![QUOTE], q + 2) {
                None => Seq::empty(),
                Some(j) => seq![(r.subrange(p, q), r.subrange(q + 2, j))] + attrs_from(r, j + 1),
            }
        } else {
            attrs_from(r, q)
        }
    }
}

#[via_fn]
proof fn attrs_from_decreases(r: Seq<u8>, p: int) {
    if 0 <= p < r.len() && is_word_byte(r[p]) {
        lemma_word_end(r, p);
        let q = word_end(r, p);
        if q + 1 < r.len() && r[q] == EQUALS && r[q + 1] == QUOTE {
            lemma_find_from_spec(r, seq![QUOTE], q + 2);
        }
    }
}

/// The attribute pairs of a whole attribute region.
pub open spec fn attrs_of(r: Seq<u8>) -> Seq<(Seq<u8>, Seq<u8>)> {
    attrs_from(r, 0)
}

/// The mathematical contents of an executable pair list.
pub open spec fn pairs_view(ps: Seq<(Vec<u8>, Vec<u8>)>) -> Seq<(Seq<u8>, Seq<u8>)> {
    ps.map_values(|p: (Vec<u8>, Vec<u8>)| (p.0@, p.1@))
}

/// The value bound to `name`, duplicates resolving to the last-seen pair.
pub open spec fn attr_lookup(ps: Seq<(Seq<u8>, Seq<u8>)>, name: Seq<u8>) -> Option<Seq<u8>>
    decreases ps.len(),
{
    if ps.len() == 0 {
        None
    } else if ps.last().0 == name {
        Some(ps.last().1)
    } else {
        attr_lookup(ps.drop_last(), name)
    }
}

/// Parses an attribute region into its pairs, in the order they occur.
pub fn parse_attrs(region: &[u8]) -> (out: Vec<(Vec<u8>, Vec<u8>)>)
    ensures
        pairs_view(out@) == attrs_of(region@),
{
    let r_len = region.len();
    let mut quote_pat: Vec<u8> = Vec::new();
    quote_pat.push(QUOTE);
    proof {
        assert(quote_pat@ =~= seq![QUOTE]);
    }
    let mut out: Vec<(Vec<u8>, Vec<u8>)> = Vec::new();
    let mut p: usize = 0;
    while p < r_len
        invariant
            r_len == region@.len(),
            p <= r_len,
            quote_pat@ == seq![QUOTE],
            pairs_view(out@) + attrs_from(region@, p as int) == attrs_of(region@),
        decreases r_len - p,
    {
        if is_word(region[p]) {
            let q = scan_word_end(region, p);
            proof {
                lemma_word_end(region@, p as int);
            }
            if r_len - q > 1 && region[q] == EQUALS && region[q + 1] == QUOTE {
                match find_sub(region, quote_pat.as_slice(), q + 2) {
                    Some(j) => {
                        proof {
                            lemma_find_from_spec(region@, seq![QUOTE], q + 2);
                        }
                        let name = copy_range(region, p, q);
                        let value = copy_range(region, q + 2, j);
                        let ghost old_out = out@;
                        out.push((name, value));
                        proof {
                            assert(pairs_view(out@) =~= pairs_view(old_out) + seq![
                                (name@, value@),
                            ]);
                            assert(pairs_view(old_out) + attrs_from(region@, p as int)
                                =~= pairs_view(out@) + attrs_from(region@, j + 1));
                        }
                        p = j + 1;
                    },
                    None => {
                        // No closing quote remains anywhere beyond this
                        // point, so no further pair can match.
                        p = r_len;
                    },
                }
            } else {
                p = q;
            }
        } else {
            p += 1;
        }
    }
    proof {
        assert(pairs_view(out@) =~= attrs_of(region@));
    }
    out
}

} // verus!

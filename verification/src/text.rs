//! Byte-level text primitives: character classes, substring matching and
//! first-occurrence search, shared by the tag scanner and the closing-tag
//! matcher.

use vstd::prelude::*;

verus! {

/// `<`
pub const LT: u8 = 60;

/// `>`
pub const GT: u8 = 62;

/// `/`
pub const SLASH: u8 = 47;

/// `=`
pub const EQUALS: u8 = 61;

/// `"`
pub const QUOTE: u8 = 34;

/// A word byte: what may appear in a tag or attribute name
/// (ASCII letters, digits and underscore).
pub open spec fn is_word_byte(b: u8) -> bool {
    (97 <= b && b <= 122)  // a-z
     || (65 <= b && b <= 90)  // A-Z
     || (48 <= b && b <= 57)  // 0-9
     || b == 95  // _
}

/// An ASCII whitespace byte, as trimmed from record content:
/// space, tab, line feed, vertical tab, form feed, carriage return.
pub open spec fn is_space_byte(b: u8) -> bool {
    b == 32 || b == 9 || b == 10 || b == 11 || b == 12 || b == 13
}

/// The pattern `pat` occurs in `s` starting at position `i`.
pub open spec fn matches_at(s: Seq<u8>, pat: Seq<u8>, i: int) -> bool {
    &&& 0 <= i
    &&& i + pat.len() <= s.len()
    &&& s.subrange(i, i + pat.len()) == pat
}

/// No occurrence of `pat` starts in the half-open range `[from, to)`.
pub open spec fn no_match_in(s: Seq<u8>, pat: Seq<u8>, from: int, to: int) -> bool {
    forall|k: int| from <= k < to ==> !matches_at(s, pat, k)
}

/// The position of the first occurrence of `pat` in `s` at or after `from`,
/// if any.
pub open spec fn find_from(s: Seq<u8>, pat: Seq<u8>, from: int) -> Option<int>
    decreases s.len() + 1 - from,
{
    if from + pat.len() > s.len() {
        None
    } else if matches_at(s, pat, from) {
        Some(from)
    } else {
        find_from(s, pat, from + 1)
    }
}

/// An occurrence pins down the bytes: `matches_at` gives each byte of the
/// occurrence back as the corresponding byte of the pattern.
pub proof fn lemma_matches_at_index(s: Seq<u8>, pat: Seq<u8>, i: int, j: int)
    requires
        matches_at(s, pat, i),
        0 <= j < pat.len(),
    ensures
        s[i + j] == pat[j],
{
    assert(s.subrange(i, i + pat.len() as int)[j] == s[i + j]);
}

/// Conversely, bytewise agreement gives an occurrence.
pub proof fn lemma_bytes_give_match(s: Seq<u8>, pat: Seq<u8>, i: int)
    requires
        0 <= i,
        i + pat.len() <= s.len(),
        forall|j: int| 0 <= j < pat.len() ==> s[i + j] == pat[j],
    ensures
        matches_at(s, pat, i),
{
    assert(s.subrange(i, i + pat.len() as int) =~= pat);
}

/// What `find_from` returns: a `Some` is the first occurrence at or after
/// `from`; a `None` means there is none.
pub proof fn lemma_find_from_spec(s: Seq<u8>, pat: Seq<u8>, from: int)
    ensures
        match find_from(s, pat, from) {
            Some(i) => from <= i && matches_at(s, pat, i) && no_match_in(s, pat, from, i),
            None => forall|k: int| from <= k ==> !matches_at(s, pat, k),
        },
    decreases s.len() + 1 - from,
{
    if from + pat.len() > s.len() {
    } else if matches_at(s, pat, from) {
    } else {
        lemma_find_from_spec(s, pat, from + 1);
    }
}

/// The characterization is exact: a position that is an occurrence, with no
/// occurrence before it, is what `find_from` returns.
pub proof fn lemma_find_from_exact(s: Seq<u8>, pat: Seq<u8>, from: int, i: int)
    requires
        0 <= from <= i,
        matches_at(s, pat, i),
        no_match_in(s, pat, from, i),
    ensures
        find_from(s, pat, from) == Some(i),
    decreases s.len() + 1 - from,
{
    if from < i {
        assert(!matches_at(s, pat, from));
        lemma_find_from_exact(s, pat, from + 1, i);
    }
}

/// And if no occurrence starts at or after `from`, `find_from` returns `None`.
pub proof fn lemma_find_from_fails(s: Seq<u8>, pat: Seq<u8>, from: int)
    requires
        forall|k: int| from <= k ==> !matches_at(s, pat, k),
    ensures
        find_from(s, pat, from) == None::<int>,
{
    lemma_find_from_spec(s, pat, from);
    if find_from(s, pat, from) is Some {
        let i = find_from(s, pat, from)->0;
        assert(!matches_at(s, pat, i));
    }
}

/// The end of the run of word bytes that starts at `p`: the first position at
/// or after `p` holding a non-word byte, or the end of the buffer.
pub open spec fn word_end(s: Seq<u8>, p: int) -> int
    decreases s.len() - p,
{
    if p < 0 || p >= s.len() {
        p
    } else if is_word_byte(s[p]) {
        word_end(s, p + 1)
    } else {
        p
    }
}

/// What `word_end` returns: the bytes before it (from `p` on) are word bytes,
/// and the byte at it, if any, is not.
pub proof fn lemma_word_end(s: Seq<u8>, p: int)
    requires
        0 <= p <= s.len(),
    ensures
        p <= word_end(s, p) <= s.len(),
        forall|k: int| p <= k < word_end(s, p) ==> is_word_byte(s[k]),
        word_end(s, p) < s.len() ==> !is_word_byte(s[word_end(s, p)]),
    decreases s.len() - p,
{
    if p < s.len() && is_word_byte(s[p]) {
        lemma_word_end(s, p + 1);
    }
}

/// The contents of `s` with leading and trailing whitespace removed.
pub open spec fn trim(s: Seq<u8>) -> Seq<u8>
    decreases s.len(),
{
    if s.len() == 0 {
        s
    } else if is_space_byte(s[0]) {
        trim(s.subrange(1, s.len() as int))
    } else if is_space_byte(s[s.len() - 1]) {
        trim(s.subrange(0, s.len() - 1))
    } else {
        s
    }
}

/// Trimming yields the subrange `[a, b)` whenever everything outside `[a, b)`
/// is whitespace and the range's own ends are not.
pub proof fn lemma_trim_exact(s: Seq<u8>, a: int, b: int)
    requires
        0 <= a <= b <= s.len(),
        forall|k: int| 0 <= k < a ==> is_space_byte(s[k]),
        forall|k: int| b <= k < s.len() ==> is_space_byte(s[k]),
        a == b || (!is_space_byte(s[a]) && !is_space_byte(s[b - 1])),
    ensures
        trim(s) == s.subrange(a, b),
    decreases s.len(),
{
    if s.len() == 0 {
        assert(trim(s) =~= s.subrange(a, b));
    } else if is_space_byte(s[0]) {
        let s1 = s.subrange(1, s.len() as int);
        if a == b {
            assert(forall|k: int| 0 <= k < s1.len() ==> is_space_byte(s1[k]));
            lemma_trim_exact(s1, 0, 0);
            assert(s1.subrange(0, 0) =~= s.subrange(a, b));
        } else {
            assert(a >= 1);
            assert(forall|k: int| 0 <= k < a - 1 ==> is_space_byte(s1[k]));
            assert(forall|k: int| b - 1 <= k < s1.len() ==> is_space_byte(s1[k]));
            lemma_trim_exact(s1, a - 1, b - 1);
            assert(s1.subrange(a - 1, b - 1) =~= s.subrange(a, b));
        }
    } else if is_space_byte(s[s.len() - 1]) {
        // The head byte is not whitespace, so the kept range starts at 0 and
        // is non-empty, and its last byte keeps the tail inside the buffer.
        assert(a == 0);
        assert(b < s.len());
        let s1 = s.subrange(0, s.len() - 1);
        assert(forall|k: int| b <= k < s1.len() ==> is_space_byte(s1[k]));
        lemma_trim_exact(s1, a, b);
        assert(s1.subrange(a, b) =~= s.subrange(a, b));
    } else {
        assert(a == 0);
        assert(b == s.len());
        assert(trim(s) =~= s.subrange(a, b));
    }
}

/// Is `b` a word byte?
pub fn is_word(b: u8) -> (r: bool)
    ensures
        r == is_word_byte(b),
{
    (97 <= b && b <= 122) || (65 <= b && b <= 90) || (48 <= b && b <= 57) || b == 95
}

/// Is `b` an ASCII whitespace byte?
pub fn is_space(b: u8) -> (r: bool)
    ensures
        r == is_space_byte(b),
{
    b == 32 || (9 <= b && b <= 13)
}

/// Scans past the run of word bytes that starts at `p`.
pub fn scan_word_end(s: &[u8], p: usize) -> (r: usize)
    requires
        p <= s@.len(),
    ensures
        r == word_end(s@, p as int),
        p <= r <= s@.len(),
{
    let s_len = s.len();
    let mut q = p;
    while q < s_len && is_word(s[q])
        invariant
            p <= q <= s_len,
            s_len == s@.len(),
            word_end(s@, p as int) == word_end(s@, q as int),
        decreases s_len - q,
    {
        q += 1;
    }
    proof {
        lemma_word_end(s@, p as int);
    }
    q
}

/// Copies the bytes of `s` in the range `[from, to)`.
pub fn copy_range(s: &[u8], from: usize, to: usize) -> (r: Vec<u8>)
    requires
        from <= to <= s@.len(),
    ensures
        r@ == s@.subrange(from as int, to as int),
{
    let mut r: Vec<u8> = Vec::new();
    let mut k = from;
    while k < to
        invariant
            from <= k <= to <= s@.len(),
            r@.len() == k - from,
            forall|i: int| 0 <= i < r@.len() ==> r@[i] == s@[from + i],
        decreases to - k,
    {
        r.push(s[k]);
        k += 1;
    }
    proof {
        assert(r@ =~= s@.subrange(from as int, to as int));
    }
    r
}

/// Copies the bytes of `s` in the range `[from, to)` with leading and
/// trailing whitespace removed.
pub fn trim_range(s: &[u8], from: usize, to: usize) -> (r: Vec<u8>)
    requires
        from <= to <= s@.len(),
    ensures
        r@ == trim(s@.subrange(from as int, to as int)),
{
    let mut a = from;
    while a < to && is_space(s[a])
        invariant
            from <= a <= to <= s@.len(),
            forall|k: int| from <= k < a ==> is_space_byte(s@[k]),
        decreases to - a,
    {
        a += 1;
    }
    let mut b = to;
    while b > a && is_space(s[b - 1])
        invariant
            from <= a <= b <= to <= s@.len(),
            forall|k: int| b <= k < to ==> is_space_byte(s@[k]),
        decreases b - a,
    {
        b -= 1;
    }
    let r = copy_range(s, a, b);
    proof {
        let w = s@.subrange(from as int, to as int);
        assert(forall|k: int| 0 <= k < a - from ==> is_space_byte(w[k]));
        assert(forall|k: int| b - from <= k < w.len() ==> is_space_byte(w[k]));
        lemma_trim_exact(w, a - from, b - from);
        assert(w.subrange(a - from, b - from) =~= s@.subrange(a as int, b as int));
    }
    r
}

/// Does `pat` occur in `s` starting exactly at `i`?
pub fn match_at(s: &[u8], pat: &[u8], i: usize) -> (r: bool)
    requires
        i + pat@.len() <= s@.len(),
    ensures
        r == matches_at(s@, pat@, i as int),
{
    let pat_len = pat.len();
    let s_len = s.len();
    let mut j: usize = 0;
    while j < pat_len
        invariant
            i + pat@.len() <= s@.len(),
            pat_len == pat@.len(),
            s_len == s@.len(),
            0 <= j <= pat_len,
            forall|k: int| 0 <= k < j ==> s@[i + k] == pat@[k],
        decreases pat_len - j,
    {
        if s[i + j] != pat[j] {
            proof {
                if matches_at(s@, pat@, i as int) {
                    lemma_matches_at_index(s@, pat@, i as int, j as int);
                }
            }
            return false;
        }
        j += 1;
    }
    proof {
        lemma_bytes_give_match(s@, pat@, i as int);
    }
    true
}

/// The first occurrence of `pat` in `s` at or after `from`, scanning left to
/// right.
pub fn find_sub(s: &[u8], pat: &[u8], from: usize) -> (r: Option<usize>)
    requires
        from <= s@.len(),
    ensures
        match r {
            Some(i) => find_from(s@, pat@, from as int) == Some(i as int),
            None => find_from(s@, pat@, from as int) == None::<int>,
        },
{
    if pat.len() == 0 {
        proof {
            assert(s@.subrange(from as int, from as int) =~= pat@);
            lemma_find_from_exact(s@, pat@, from as int, from as int);
        }
        return Some(from);
    }
    if pat.len() > s.len() {
        proof {
            assert forall|k: int| from <= k implies !matches_at(s@, pat@, k) by {}
            lemma_find_from_fails(s@, pat@, from as int);
        }
        return None;
    }
    let last = s.len() - pat.len();
    let mut i = from;
    if i > last {
        proof {
            assert forall|k: int| from <= k implies !matches_at(s@, pat@, k) by {}
            lemma_find_from_fails(s@, pat@, from as int);
        }
        return None;
    }
    while i <= last
        invariant
            from <= i,
            i <= last + 1,
            last < usize::MAX,
            pat@.len() >= 1,
            last + pat@.len() == s@.len(),
            from <= s@.len(),
            no_match_in(s@, pat@, from as int, i as int),
        decreases last + 1 - i,
    {
        if match_at(s, pat, i) {
            proof {
                lemma_find_from_exact(s@, pat@, from as int, i as int);
            }
            return Some(i);
        }
        i += 1;
    }
    proof {
        assert forall|k: int| from <= k implies !matches_at(s@, pat@, k) by {
            if k <= last {
                assert(!matches_at(s@, pat@, k));
            }
        }
        lemma_find_from_fails(s@, pat@, from as int);
    }
    None
}

} // verus!

//! The unit of output: one record per top-level tag found in the buffer,
//! carrying the tag name, its attribute pairs, its trimmed content, and
//! whether its closing tag was found in the available buffer.

use vstd::prelude::*;

use crate::attrs::{attr_lookup, pairs_view};

verus! {

/// The mathematical shape of a record.
#[verifier::ext_equal]
pub ghost struct TagView {
    /// The tag name, a non-empty run of word bytes.
    pub tag: Seq<u8>,
    /// The attribute pairs, in the order found; a duplicate name resolves to
    /// the last-seen pair.
    pub attrs: Seq<(Seq<u8>, Seq<u8>)>,
    /// The raw text between the opening tag and the closing marker (or the
    /// end of the buffer), trimmed; never parsed further.
    pub content: Seq<u8>,
    /// Whether the matching closing tag was found in the buffer.
    pub complete: bool,
}

/// One extracted tag record.
pub struct TagRecord {
    /// The tag name.
    pub tag: Vec<u8>,
    /// The attribute pairs, in the order found.
    pub attributes: Vec<(Vec<u8>, Vec<u8>)>,
    /// The trimmed content text.
    pub content: Vec<u8>,
    /// Whether the matching closing tag was found.
    pub is_complete: bool,
}

impl View for TagRecord {
    type V = TagView;

    open spec fn view(&self) -> TagView {
        TagView {
            tag: self.tag@,
            attrs: pairs_view(self.attributes@),
            content: self.content@,
            complete: self.is_complete,
        }
    }
}

/// Do two byte strings hold the same bytes?
pub fn bytes_eq(a: &[u8], b: &[u8]) -> (r: bool)
    ensures
        r == (a@ == b@),
{
    if a.len() != b.len() {
        return false;
    }
    let mut k: usize = 0;
    while k < a.len()
        invariant
            a@.len() == b@.len(),
            k <= a@.len(),
            forall|i: int| 0 <= i < k ==> a@[i] == b@[i],
        decreases a@.len() - k,
    {
        if a[k] != b[k] {
            return false;
        }
        k += 1;
    }
    proof {
        assert(a@ =~= b@);
    }
    true
}

impl TagRecord {
    /// The value bound to the attribute `name`, the last-seen pair winning
    /// when the name was given more than once.
    pub fn attribute(&self, name: &[u8]) -> (r: Option<&Vec<u8>>)
        ensures
            match r {
                Some(v) => attr_lookup(self@.attrs, name@) == Some(v@),
                None => attr_lookup(self@.attrs, name@) == None::<Seq<u8>>,
            },
    {
        let mut k = self.attributes.len();
        proof {
            assert(self.attributes@.take(k as int) =~= self.attributes@);
        }
        while k > 0
            invariant
                k <= self.attributes@.len(),
                attr_lookup(pairs_view(self.attributes@), name@) == attr_lookup(
                    pairs_view(self.attributes@.take(k as int)),
                    name@,
                ),
            decreases k,
        {
            k -= 1;
            if bytes_eq(self.attributes[k].0.as_slice(), name) {
                proof {
                    let taken = pairs_view(self.attributes@.take(k + 1));
                    assert(taken.last() == (self.attributes@[k as int].0@,
                        self.attributes@[k as int].1@,
                    ));
                }
                return Some(&self.attributes[k].1);
            }
            proof {
                let taken = pairs_view(self.attributes@.take(k + 1));
                assert(taken.last() == (self.attributes@[k as int].0@,
                    self.attributes@[k as int].1@,
                ));
                assert(taken.drop_last() =~= pairs_view(self.attributes@.take(k as int)));
            }
        }
        proof {
            assert(pairs_view(self.attributes@.take(0)).len() == 0);
        }
        None
    }
}

} // verus!

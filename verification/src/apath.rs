//! Apaths: the canonical, totally ordered path representation.
//!
//! An apath is an absolute-style, slash-separated byte string. Entries are
//! compared in plain lexicographic byte order, which is total, stable and
//! reproducible, and places every directory before each of its
//! descendants.

use vstd::prelude::*;
use crate::bytes::{lex_lt, lemma_lex_prefix};
use crate::codec::json_safe;

verus! {

/// A well-formed apath: nonempty, starts with a slash, and free of the
/// quote, backslash and control bytes, so the path embeds in a JSON
/// string unescaped. Non-ASCII names pass through as their UTF-8 bytes;
/// only the three byte classes the unescaped format cannot carry are
/// reserved.
pub open spec fn apath_valid(s: Seq<u8>) -> bool {
    s.len() >= 1 && s[0] == 47 && json_safe(s)
}

/// Runtime check of `apath_valid`.
pub fn apath_is_valid(v: &Vec<u8>) -> (r: bool)
    ensures
        r == apath_valid(v@),
{
    if v.len() == 0 {
        return false;
    }
    if v[0] != 47 {
        return false;
    }
    let mut i: usize = 0;
    while i < v.len()
        invariant
            i <= v.len(),
            v@.len() >= 1 && v@[0] == 47,
            forall|j: int| 0 <= j < i ==> 32 <= #[trigger] v@[j] && v@[j] != 34 && v@[j] != 92,
        decreases v.len() - i,
    {
        let b = v[i];
        if b < 32 || b == 34 || b == 92 {
            proof {
                assert(!json_safe(v@)) by {
                    assert(v@[i as int] == b);
                }
            }
            return false;
        }
        i = i + 1;
    }
    true
}

/// `e` lies strictly below the directory `d` in the tree.
pub open spec fn is_descendant(d: Seq<u8>, e: Seq<u8>) -> bool {
    e.len() > d.len() && e.take(d.len() as int) == d && e[d.len() as int] == 47
}

/// A directory sorts before every one of its descendants. Together with
/// totality and transitivity of `lex_lt` this is the ordering contract
/// that index readers and writers rely on.
pub proof fn lemma_dir_before_descendant(d: Seq<u8>, e: Seq<u8>)
    requires
        is_descendant(d, e),
    ensures
        lex_lt(d, e),
{
    lemma_lex_prefix(d, e);
}

} // verus!

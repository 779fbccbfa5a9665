//! Comparisons of names in text.

use vstd::prelude::*;
use vstd::string::StringSliceAdditionalSpecFns;
use vstd::utf8::{encode_utf8, encode_utf8_decode_utf8};

verus! {

/// Whether `tail` is what `whole` ends with.
pub open spec fn is_suffix(tail: Seq<u8>, whole: Seq<u8>) -> bool {
    tail.len() <= whole.len() && whole.subrange(whole.len() - tail.len(), whole.len() as int)
        == tail
}

/// Whether the text `name` ends with the text `tail`, byte for byte in
/// UTF-8.
pub open spec fn name_ends_with(name: Seq<char>, tail: Seq<char>) -> bool {
    is_suffix(encode_utf8(tail), encode_utf8(name))
}

/// Whether `name` ends with `tail`.
pub fn ends_with(name: &str, tail: &str) -> (r: bool)
    ensures
        r == name_ends_with(name@, tail@),
{
    let whole = name.as_bytes();
    let end = tail.as_bytes();
    if end.len() > whole.len() {
        return false;
    }
    let n = end.len();
    let shift = whole.len() - n;
    let mut i: usize = 0;
    while i < n
        invariant
            i <= n,
            n == end@.len(),
            shift + n == whole@.len(),
            shift + n <= usize::MAX,
            whole@ == name.spec_bytes(),
            end@ == tail.spec_bytes(),
            forall|k: int| 0 <= k < i ==> whole@[shift + k] == end@[k],
        decreases n - i,
    {
        if whole[shift + i] != end[i] {
            assert(whole@.subrange(shift as int, whole@.len() as int)[i as int] != end@[i as int]);
            return false;
        }
        i += 1;
    }
    assert(whole@.subrange(shift as int, whole@.len() as int) =~= end@);
    true
}

/// Whether two texts are the same.
pub fn same_text(a: &str, b: &str) -> (r: bool)
    ensures
        r == (a@ == b@),
{
    let x = a.as_bytes();
    let y = b.as_bytes();
    proof {
        encode_utf8_decode_utf8(a@);
        encode_utf8_decode_utf8(b@);
    }
    if x.len() != y.len() {
        return false;
    }
    let n = x.len();
    let mut i: usize = 0;
    while i < n
        invariant
            i <= n,
            n == x@.len(),
            x@.len() == y@.len(),
            x@ == a.spec_bytes(),
            y@ == b.spec_bytes(),
            forall|k: int| 0 <= k < i ==> x@[k] == y@[k],
        decreases n - i,
    {
        if x[i] != y[i] {
            return false;
        }
        i += 1;
    }
    assert(x@ =~= y@);
    true
}

} // verus!

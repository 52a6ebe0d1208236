//! The order of texts by their bytes.
//!
//! Fields are put in order as byte strings: the UTF-8 forms of two fields are
//! read from the left, the first byte in which they differ decides, and a text
//! that ends first comes first. No field is read as a number.

use vstd::prelude::*;
use vstd::utf8::encode_utf8;

verus! {

/// `a` is at most `b`, reading both from position `i` on.
pub open spec fn bytes_le_from(a: Seq<u8>, b: Seq<u8>, i: int) -> bool
    decreases a.len() - i,
{
    if i >= a.len() {
        true
    } else if i >= b.len() {
        false
    } else if a[i] != b[i] {
        a[i] < b[i]
    } else {
        bytes_le_from(a, b, i + 1)
    }
}

/// `a` is at most `b` in the dictionary order of byte strings.
pub open spec fn bytes_le(a: Seq<u8>, b: Seq<u8>) -> bool {
    bytes_le_from(a, b, 0)
}

/// The field `x` is at most the field `y`: the bytes of `x` are at most those
/// of `y`.
pub open spec fn field_le(x: Seq<char>, y: Seq<char>) -> bool {
    bytes_le(encode_utf8(x), encode_utf8(y))
}

/// Every byte string is at most itself.
pub proof fn lemma_bytes_le_reflexive(a: Seq<u8>, i: int)
    requires
        0 <= i,
    ensures
        bytes_le_from(a, a, i),
    decreases a.len() - i,
{
    if i < a.len() {
        lemma_bytes_le_reflexive(a, i + 1);
    }
}

/// Of two byte strings one is at most the other.
pub proof fn lemma_bytes_le_total(a: Seq<u8>, b: Seq<u8>, i: int)
    requires
        0 <= i,
    ensures
        bytes_le_from(a, b, i) || bytes_le_from(b, a, i),
    decreases a.len() - i,
{
    if i < a.len() && i < b.len() && a[i] == b[i] {
        lemma_bytes_le_total(a, b, i + 1);
    }
}

/// The order passes along: from `a` at most `b` and `b` at most `c` follows
/// `a` at most `c`.
pub proof fn lemma_bytes_le_transitive(a: Seq<u8>, b: Seq<u8>, c: Seq<u8>, i: int)
    requires
        0 <= i,
        bytes_le_from(a, b, i),
        bytes_le_from(b, c, i),
    ensures
        bytes_le_from(a, c, i),
    decreases a.len() - i,
{
    if i < a.len() && a[i] == b[i] && b[i] == c[i] {
        lemma_bytes_le_transitive(a, b, c, i + 1);
    }
}

/// Two byte strings that agree before `i` and are each at most the other from
/// `i` on are the same.
pub proof fn lemma_bytes_le_antisymmetric(a: Seq<u8>, b: Seq<u8>, i: int)
    requires
        0 <= i <= a.len(),
        i <= b.len(),
        forall|j: int| 0 <= j < i ==> a[j] == b[j],
        bytes_le_from(a, b, i),
        bytes_le_from(b, a, i),
    ensures
        a == b,
    decreases a.len() - i,
{
    if i < a.len() {
        lemma_bytes_le_antisymmetric(a, b, i + 1);
    } else {
        assert(a =~= b);
    }
}

/// Whether `a` is at most `b` in the dictionary order of byte strings.
pub fn bytes_at_most(a: &[u8], b: &[u8]) -> (at_most: bool)
    ensures
        at_most == bytes_le(a@, b@),
{
    let mut i: usize = 0;
    while i < a.len() && i < b.len()
        invariant
            i <= a.len(),
            i <= b.len(),
            bytes_le(a@, b@) == bytes_le_from(a@, b@, i as int),
        decreases a.len() - i,
    {
        if a[i] != b[i] {
            return a[i] < b[i];
        }
        i += 1;
    }
    i == a.len()
}

/// Whether the field `x` is at most the field `y`.
pub fn field_at_most(x: &str, y: &str) -> (at_most: bool)
    ensures
        at_most == field_le(x@, y@),
{
    bytes_at_most(x.as_bytes(), y.as_bytes())
}

} // verus!

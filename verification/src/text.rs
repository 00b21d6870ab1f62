//! Byte strings: equality and the byte-wise lexicographic order.

use vstd::prelude::*;

verus! {

/// `a` comes before `b`, or equals it, in byte-wise lexicographic order:
/// the first differing byte decides, and a proper prefix comes first.
pub open spec fn lex_le(a: Seq<u8>, b: Seq<u8>) -> bool
    decreases a.len(),
{
    if a.len() == 0 {
        true
    } else if b.len() == 0 {
        false
    } else if a[0] != b[0] {
        a[0] < b[0]
    } else {
        lex_le(a.drop_first(), b.drop_first())
    }
}

/// `p` is the length of the longest prefix that `a` and `b` share.
pub open spec fn is_common_prefix_len(a: Seq<u8>, b: Seq<u8>, p: int) -> bool {
    &&& 0 <= p <= a.len()
    &&& p <= b.len()
    &&& forall|k: int| 0 <= k < p ==> a[k] == b[k]
    &&& (p < a.len() && p < b.len() ==> a[p] != b[p])
}

/// The order is decided where the common prefix ends: `a` is no greater than
/// `b` exactly when `a` ends there, or both go on and `a` has the smaller byte.
pub proof fn lemma_lex_le_at_prefix(a: Seq<u8>, b: Seq<u8>, p: int)
    requires
        is_common_prefix_len(a, b, p),
    ensures
        lex_le(a, b) <==> (p == a.len() || (p < b.len() && a[p] < b[p])),
    decreases a.len(),
{
    if a.len() == 0 || b.len() == 0 {
    } else if p == 0 {
    } else {
        let a1 = a.drop_first();
        let b1 = b.drop_first();
        assert forall|k: int| 0 <= k < p - 1 implies a1[k] == b1[k] by {
            assert(a[k + 1] == b[k + 1]);
        }
        lemma_lex_le_at_prefix(a1, b1, p - 1);
    }
}

/// Every byte string is no greater than itself.
pub proof fn lemma_lex_le_reflexive(a: Seq<u8>)
    ensures
        lex_le(a, a),
{
    lemma_lex_le_at_prefix(a, a, a.len() as int);
}

/// Two byte strings that are each no greater than the other are the same.
pub proof fn lemma_lex_le_antisymmetric(a: Seq<u8>, b: Seq<u8>)
    requires
        lex_le(a, b),
        lex_le(b, a),
    ensures
        a == b,
    decreases a.len(),
{
    if a.len() == 0 || b.len() == 0 {
        assert(a =~= b);
    } else {
        lemma_lex_le_antisymmetric(a.drop_first(), b.drop_first());
        assert(a =~= seq![a[0]] + a.drop_first());
        assert(b =~= seq![b[0]] + b.drop_first());
    }
}

/// Of two byte strings, one is no greater than the other.
pub proof fn lemma_lex_le_total(a: Seq<u8>, b: Seq<u8>)
    ensures
        lex_le(a, b) || lex_le(b, a),
    decreases a.len(),
{
    if a.len() == 0 || b.len() == 0 {
    } else {
        lemma_lex_le_total(a.drop_first(), b.drop_first());
    }
}

/// The order is transitive.
pub proof fn lemma_lex_le_transitive(a: Seq<u8>, b: Seq<u8>, c: Seq<u8>)
    requires
        lex_le(a, b),
        lex_le(b, c),
    ensures
        lex_le(a, c),
    decreases a.len(),
{
    if a.len() == 0 || b.len() == 0 || c.len() == 0 {
    } else if a[0] == b[0] && b[0] == c[0] {
        lemma_lex_le_transitive(a.drop_first(), b.drop_first(), c.drop_first());
    }
}

/// Whether two byte strings hold the same bytes.
pub fn bytes_equal(a: &[u8], b: &[u8]) -> (same: bool)
    ensures
        same == (a@ == b@),
{
    if a.len() != b.len() {
        return false;
    }
    let mut i: usize = 0;
    while i < a.len()
        invariant
            a@.len() == b@.len(),
            i <= a@.len(),
            forall|k: int| 0 <= k < i ==> a@[k] == b@[k],
        decreases a@.len() - i,
    {
        if a[i] != b[i] {
            return false;
        }
        i += 1;
    }
    assert(a@ =~= b@);
    true
}

/// The length of the longest prefix that `a` and `b` share.
pub fn common_prefix_len(a: &[u8], b: &[u8]) -> (p: usize)
    ensures
        is_common_prefix_len(a@, b@, p as int),
        lex_le(a@, b@) <==> (p == a@.len() || (p < b@.len() && a@[p as int] < b@[p as int])),
        lex_le(b@, a@) <==> (p == b@.len() || (p < a@.len() && b@[p as int] < a@[p as int])),
{
    let mut i: usize = 0;
    while i < a.len() && i < b.len() && a[i] == b[i]
        invariant
            i <= a@.len(),
            i <= b@.len(),
            forall|k: int| 0 <= k < i ==> a@[k] == b@[k],
        decreases a@.len() - i,
    {
        i += 1;
    }
    proof {
        lemma_lex_le_at_prefix(a@, b@, i as int);
        lemma_lex_le_at_prefix(b@, a@, i as int);
    }
    i
}

/// Adds all bytes of `bytes` at the end of `out`.
pub fn append_bytes(out: &mut Vec<u8>, bytes: &[u8])
    ensures
        final(out)@ == old(out)@ + bytes@,
{
    let ghost start = out@;
    out.extend_from_slice(bytes);
    assert(out@ =~= start + bytes@);
}

} // verus!

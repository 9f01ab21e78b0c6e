//! Lexicographic order on byte strings and on sequences of byte strings.

use vstd::prelude::*;

verus! {

/// The outcome of comparing two values under a strict total order.
#[derive(Clone, Copy, Debug, PartialEq, Eq, Structural)]
pub enum Rank {
    Less,
    Equal,
    Greater,
}

/// `a` and `b` agree on their first `k` positions.
pub open spec fn agree_before<T>(a: Seq<T>, b: Seq<T>, k: int) -> bool {
    &&& 0 <= k <= a.len()
    &&& k <= b.len()
    &&& forall|i: int| 0 <= i < k ==> a[i] == b[i]
}

/// `a` comes strictly before `b` in lexicographic byte order: at the first
/// position where they differ `a` has the smaller byte, or `a` is a proper
/// prefix of `b`.
pub open spec fn bytes_lt(a: Seq<u8>, b: Seq<u8>) -> bool {
    exists|k: int| bytes_lt_at(a, b, k)
}

/// `k` is the position that decides `bytes_lt(a, b)`.
pub open spec fn bytes_lt_at(a: Seq<u8>, b: Seq<u8>, k: int) -> bool {
    &&& #[trigger] agree_before(a, b, k)
    &&& k < b.len()
    &&& (k == a.len() || a[k] < b[k])
}

/// `a` comes before `b` or equals it.
pub open spec fn bytes_le(a: Seq<u8>, b: Seq<u8>) -> bool {
    a == b || bytes_lt(a, b)
}

/// `p` comes strictly before `q` when both are compared component by
/// component, each component in byte order.
pub open spec fn path_lt(p: Seq<Seq<u8>>, q: Seq<Seq<u8>>) -> bool {
    exists|k: int| path_lt_at(p, q, k)
}

/// `k` is the position that decides `path_lt(p, q)`.
pub open spec fn path_lt_at(p: Seq<Seq<u8>>, q: Seq<Seq<u8>>, k: int) -> bool {
    &&& #[trigger] agree_before(p, q, k)
    &&& k < q.len()
    &&& (k == p.len() || bytes_lt(p[k], q[k]))
}

/// No byte string comes before itself.
pub proof fn lemma_bytes_lt_irreflexive(a: Seq<u8>)
    ensures
        !bytes_lt(a, a),
{
}

/// Byte order is transitive.
pub proof fn lemma_bytes_lt_transitive(a: Seq<u8>, b: Seq<u8>, c: Seq<u8>)
    requires
        bytes_lt(a, b),
        bytes_lt(b, c),
    ensures
        bytes_lt(a, c),
{
    let k1 = choose|k: int| bytes_lt_at(a, b, k);
    let k2 = choose|k: int| bytes_lt_at(b, c, k);
    let k = if k1 <= k2 { k1 } else { k2 };
    assert(bytes_lt_at(a, c, k));
}

/// Of two byte strings in order, the second does not come before the first.
pub proof fn lemma_bytes_lt_asymmetric(a: Seq<u8>, b: Seq<u8>)
    requires
        bytes_lt(a, b),
    ensures
        !bytes_lt(b, a),
{
    if bytes_lt(b, a) {
        lemma_bytes_lt_transitive(a, b, a);
        lemma_bytes_lt_irreflexive(a);
    }
}

/// Byte order composes with equality-or-order on the left.
pub proof fn lemma_bytes_le_lt(a: Seq<u8>, b: Seq<u8>, c: Seq<u8>)
    requires
        bytes_le(a, b),
        bytes_lt(b, c),
    ensures
        bytes_lt(a, c),
{
    if a != b {
        lemma_bytes_lt_transitive(a, b, c);
    }
}

/// No path comes before itself.
pub proof fn lemma_path_lt_irreflexive(p: Seq<Seq<u8>>)
    ensures
        !path_lt(p, p),
{
    if path_lt(p, p) {
        let k = choose|k: int| path_lt_at(p, p, k);
        lemma_bytes_lt_irreflexive(p[k]);
    }
}

/// Path order is transitive.
pub proof fn lemma_path_lt_transitive(p: Seq<Seq<u8>>, q: Seq<Seq<u8>>, r: Seq<Seq<u8>>)
    requires
        path_lt(p, q),
        path_lt(q, r),
    ensures
        path_lt(p, r),
{
    let k1 = choose|k: int| path_lt_at(p, q, k);
    let k2 = choose|k: int| path_lt_at(q, r, k);
    let k = if k1 <= k2 { k1 } else { k2 };
    if k1 == k2 && k1 < p.len() {
        lemma_bytes_lt_transitive(p[k], q[k], r[k]);
    }
    assert(path_lt_at(p, r, k));
}

/// Of two paths in order, the second does not come before the first.
pub proof fn lemma_path_lt_asymmetric(p: Seq<Seq<u8>>, q: Seq<Seq<u8>>)
    requires
        path_lt(p, q),
    ensures
        !path_lt(q, p),
{
    if path_lt(q, p) {
        lemma_path_lt_transitive(p, q, p);
        lemma_path_lt_irreflexive(p);
    }
}

/// How `a` stands to `b` in byte order.
pub open spec fn bytes_rank(a: Seq<u8>, b: Seq<u8>) -> Rank {
    if a == b {
        Rank::Equal
    } else if bytes_lt(a, b) {
        Rank::Less
    } else {
        Rank::Greater
    }
}

/// How `p` stands to `q` in path order.
pub open spec fn path_rank(p: Seq<Seq<u8>>, q: Seq<Seq<u8>>) -> Rank {
    if p == q {
        Rank::Equal
    } else if path_lt(p, q) {
        Rank::Less
    } else {
        Rank::Greater
    }
}

/// Compares two byte strings in lexicographic byte order.
pub fn compare_bytes(a: &[u8], b: &[u8]) -> (r: Rank)
    ensures
        r == bytes_rank(a@, b@),
        r == Rank::Greater ==> bytes_lt(b@, a@),
{
    let mut i: usize = 0;
    while i < a.len() && i < b.len()
        invariant
            agree_before(a@, b@, i as int),
        decreases a.len() - i,
    {
        if a[i] < b[i] {
            assert(bytes_lt_at(a@, b@, i as int));
            return Rank::Less;
        }
        if a[i] > b[i] {
            assert(bytes_lt_at(b@, a@, i as int)) by {
                assert(agree_before(b@, a@, i as int));
            }
            proof {
                lemma_bytes_lt_asymmetric(b@, a@);
            }
            return Rank::Greater;
        }
        i += 1;
    }
    if i < b.len() {
        assert(bytes_lt_at(a@, b@, i as int));
        Rank::Less
    } else if i < a.len() {
        assert(bytes_lt_at(b@, a@, i as int)) by {
            assert(agree_before(b@, a@, i as int));
        }
        proof {
            lemma_bytes_lt_asymmetric(b@, a@);
        }
        Rank::Greater
    } else {
        assert(a@ =~= b@);
        proof {
            lemma_bytes_lt_irreflexive(a@);
        }
        Rank::Equal
    }
}

} // verus!

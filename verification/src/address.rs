//! Pool identifiers: a hash over the bound tokens in ascending order.
//!
//! The identifier depends on which tokens are bound, not on the order in
//! which a caller lists them.

use vstd::prelude::*;
use vstd::bytes::{spec_u64_to_le_bytes, u64_to_le_bytes};

verus! {

/// A pool identifier: 32 bytes of digest.
pub type PoolId = [u8; 32];

/// The Blake2b digest of 256 bits of a byte string.
pub uninterp spec fn blake2_256_digest(data: Seq<u8>) -> Seq<u8>;

/// Calls `sp_core::Blake2Hasher::hash`, which hashes the bytes with Blake2b
/// at an output length of 32 bytes. The digest is taken on trust: it is a
/// function of the input bytes alone and is known here only by name.
#[verifier::external_body]
fn blake2_256(data: &Vec<u8>) -> (r: [u8; 32])
    ensures
        r@ == blake2_256_digest(data@),
{
    <sp_core::Blake2Hasher as sp_core::Hasher>::hash(data.as_slice()).0
}

/// The domain separation tag, the ASCII letters of "swap".
pub open spec fn tag() -> Seq<u8> {
    seq![0x73u8, 0x77u8, 0x61u8, 0x70u8]
}

/// `s`, which is ascending, with `x` put in behind everything that is not above it.
pub open spec fn insert_ordered(s: Seq<u64>, x: u64) -> Seq<u64>
    decreases s.len(),
{
    if s.len() == 0 {
        seq![x]
    } else if s.last() <= x {
        s.push(x)
    } else {
        insert_ordered(s.drop_last(), x).push(s.last())
    }
}

/// The tokens in ascending order.
pub open spec fn canonical(s: Seq<u64>) -> Seq<u64>
    decreases s.len(),
{
    if s.len() == 0 {
        s
    } else {
        insert_ordered(canonical(s.drop_last()), s.last())
    }
}

/// Each token as eight little-endian bytes, one after the other.
pub open spec fn encode_tokens(tokens: Seq<u64>) -> Seq<u8>
    decreases tokens.len(),
{
    if tokens.len() == 0 {
        Seq::empty()
    } else {
        encode_tokens(tokens.drop_last()) + spec_u64_to_le_bytes(tokens.last())
    }
}

/// What is hashed: the tag, then the tokens in ascending order.
pub open spec fn preimage(tokens: Seq<u64>) -> Seq<u8> {
    tag() + encode_tokens(canonical(tokens))
}

/// The identifier of the pool over `tokens`.
pub open spec fn pool_id_of(tokens: Seq<u64>) -> Seq<u8> {
    blake2_256_digest(preimage(tokens))
}

/// Whether a sequence is ascending.
pub open spec fn ascending(s: Seq<u64>) -> bool {
    forall|i: int, j: int| 0 <= i <= j < s.len() ==> s[i] <= s[j]
}

proof fn lemma_insert_at(s: Seq<u64>, x: u64, i: int)
    requires
        0 <= i <= s.len(),
        forall|k: int| i <= k < s.len() ==> s[k] > x,
        i > 0 ==> s[i - 1] <= x,
    ensures
        insert_ordered(s, x) == s.insert(i, x),
    decreases s.len(),
{
    if s.len() == 0 {
        assert(s.insert(i, x) =~= seq![x]);
    } else if s.last() <= x {
        assert(s.insert(i, x) =~= s.push(x));
    } else {
        lemma_insert_at(s.drop_last(), x, i);
        assert(s.drop_last().insert(i, x).push(s.last()) =~= s.insert(i, x));
    }
}

/// Inserting keeps a sequence ascending, adds one element, and keeps the rest.
pub proof fn lemma_insert_ordered(s: Seq<u64>, x: u64)
    requires
        ascending(s),
    ensures
        ascending(insert_ordered(s, x)),
        insert_ordered(s, x).len() == s.len() + 1,
        insert_ordered(s, x).to_multiset() == s.to_multiset().insert(x),
    decreases s.len(),
{
    broadcast use vstd::seq_lib::group_to_multiset_ensures;
    let r = insert_ordered(s, x);
    if s.len() == 0 {
        assert(s =~= Seq::<u64>::empty());
        assert(r =~= s.push(x));
    } else if s.last() <= x {
    } else {
        let head = s.drop_last();
        lemma_insert_ordered(head, x);
        let mid = insert_ordered(head, x);
        assert(s =~= head.push(s.last()));
        assert forall|i: int, j: int| 0 <= i <= j < r.len() implies r[i] <= r[j] by {
            if j == r.len() - 1 && i < j {
                assert(mid.to_multiset().count(mid[i]) > 0);
                if mid[i] != x {
                    assert(head.to_multiset().count(mid[i]) > 0);
                    let k = choose|k: int| 0 <= k < head.len() && head[k] == mid[i];
                    assert(s[k] <= s[s.len() - 1]);
                }
            }
        }
        assert(r.to_multiset() =~= s.to_multiset().insert(x));
    }
}

/// The canonical order is ascending and holds the same tokens, each as often.
pub proof fn lemma_canonical(s: Seq<u64>)
    ensures
        ascending(canonical(s)),
        canonical(s).len() == s.len(),
        canonical(s).to_multiset() == s.to_multiset(),
    decreases s.len(),
{
    broadcast use vstd::seq_lib::group_to_multiset_ensures;
    if s.len() == 0 {
    } else {
        lemma_canonical(s.drop_last());
        lemma_insert_ordered(canonical(s.drop_last()), s.last());
        assert(s =~= s.drop_last().push(s.last()));
    }
}

/// Two listings of the same tokens, in whatever order, give the same identifier.
pub proof fn lemma_pool_id_ignores_order(s: Seq<u64>, t: Seq<u64>)
    requires
        s.to_multiset() == t.to_multiset(),
    ensures
        canonical(s) == canonical(t),
        pool_id_of(s) == pool_id_of(t),
{
    lemma_canonical(s);
    lemma_canonical(t);
    let leq = |a: u64, b: u64| a <= b;
    assert(vstd::relations::total_ordering(leq));
    assert(vstd::relations::sorted_by(canonical(s), leq));
    assert(vstd::relations::sorted_by(canonical(t), leq));
    vstd::seq_lib::lemma_sorted_unique(canonical(s), canonical(t), leq);
}

/// Puts `x` into an ascending vector at its place.
fn insert_token(v: &mut Vec<u64>, x: u64)
    ensures
        final(v)@ == insert_ordered(old(v)@, x),
{
    let mut i: usize = v.len();
    while i > 0 && v[i - 1] > x
        invariant
            i <= v@.len(),
            forall|k: int| i <= k < v@.len() ==> v@[k] > x,
        decreases i,
    {
        i -= 1;
    }
    proof { lemma_insert_at(v@, x, i as int); }
    v.insert(i, x);
}

/// Sorts the tokens in ascending order.
pub fn canonical_order(tokens: &Vec<u64>) -> (r: Vec<u64>)
    ensures
        r@ == canonical(tokens@),
{
    let mut out: Vec<u64> = Vec::new();
    let mut i: usize = 0;
    while i < tokens.len()
        invariant
            i <= tokens@.len(),
            out@ == canonical(tokens@.take(i as int)),
        decreases tokens@.len() - i,
    {
        proof { assert(tokens@.take(i + 1).drop_last() =~= tokens@.take(i as int)); }
        insert_token(&mut out, tokens[i]);
        i += 1;
    }
    proof { assert(tokens@.take(i as int) =~= tokens@); }
    out
}

/// Builds the bytes that are hashed for a pool over `tokens`.
pub fn pool_preimage(tokens: &Vec<u64>) -> (r: Vec<u8>)
    ensures
        r@ == preimage(tokens@),
{
    let sorted = canonical_order(tokens);
    let mut buf: Vec<u8> = Vec::new();
    buf.push(0x73u8);
    buf.push(0x77u8);
    buf.push(0x61u8);
    buf.push(0x70u8);
    assert(buf@ =~= tag());
    let mut i: usize = 0;
    while i < sorted.len()
        invariant
            i <= sorted@.len(),
            buf@ == tag() + encode_tokens(sorted@.take(i as int)),
        decreases sorted@.len() - i,
    {
        let mut bytes = u64_to_le_bytes(sorted[i]);
        proof {
            assert(sorted@.take(i + 1).drop_last() =~= sorted@.take(i as int));
            assert(tag() + encode_tokens(sorted@.take(i + 1)) =~= buf@ + bytes@);
        }
        buf.append(&mut bytes);
        i += 1;
    }
    proof { assert(sorted@.take(i as int) =~= sorted@); }
    buf
}

/// Derives the identifier of the pool over `tokens`: the digest of the tag
/// followed by the tokens in ascending order.
pub fn derive_pool_id(tokens: &Vec<u64>) -> (r: PoolId)
    ensures
        r@ == pool_id_of(tokens@),
{
    let buf = pool_preimage(tokens);
    blake2_256(&buf)
}

/// Tells whether two identifiers are the same.
pub fn same_pool_id(a: &PoolId, b: &PoolId) -> (r: bool)
    ensures
        r == (a@ == b@),
{
    let mut i: usize = 0;
    while i < 32
        invariant
            i <= 32,
            forall|k: int| 0 <= k < i ==> a@[k] == b@[k],
        decreases 32 - i,
    {
        if a[i] != b[i] {
            return false;
        }
        i += 1;
    }
    assert(a@ =~= b@);
    true
}

} // verus!

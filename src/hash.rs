use vstd::prelude::*;
use crate::word::Word;
use miden_core::crypto::hash::{Rpo256, RpoDigest};
use miden_core::crypto::merkle::EmptySubtreeRoots;
use miden_core::{Felt, StarkField};

verus! {

/// Digest of an inner node from the digests of its two children.
pub uninterp spec fn rpo_merge(left: Word, right: Word) -> Word;

/// Digest of two words hashed together under a domain separator.
pub uninterp spec fn rpo_merge_in_domain(a: Word, b: Word, domain: u64) -> Word;

/// Digest of a sequence of field elements.
pub uninterp spec fn rpo_hash_elements(elements: Seq<u64>) -> Word;

/// Root digest of an all-empty subtree whose root sits at `depth` in a tree 64 levels deep.
pub uninterp spec fn empty_subtree_root(depth: u8) -> Word;

/// Relies on `Rpo256::merge`: the digest of two digests, a function of the two alone.
#[verifier::external_body]
pub(crate) fn merge(left: &Word, right: &Word) -> (r: Word)
    ensures
        r == rpo_merge(*left, *right),
{
    let l = RpoDigest::new([left.0, left.1, left.2, left.3].map(Felt::new));
    let r = RpoDigest::new([right.0, right.1, right.2, right.3].map(Felt::new));
    let d = Rpo256::merge(&[l, r]);
    let e = d.as_elements();
    Word(e[0].as_int(), e[1].as_int(), e[2].as_int(), e[3].as_int())
}

/// Relies on `Rpo256::merge_in_domain`: the digest of two words under a domain, a function of
/// the three alone.
#[verifier::external_body]
pub(crate) fn merge_in_domain(a: &Word, b: &Word, domain: u64) -> (r: Word)
    ensures
        r == rpo_merge_in_domain(*a, *b, domain),
{
    let x = RpoDigest::new([a.0, a.1, a.2, a.3].map(Felt::new));
    let y = RpoDigest::new([b.0, b.1, b.2, b.3].map(Felt::new));
    let d = Rpo256::merge_in_domain(&[x, y], Felt::new(domain));
    let e = d.as_elements();
    Word(e[0].as_int(), e[1].as_int(), e[2].as_int(), e[3].as_int())
}

/// Relies on `Rpo256::hash_elements`: the digest of a sequence of elements, a function of the
/// sequence alone.
#[verifier::external_body]
pub(crate) fn hash_elements(elements: &Vec<u64>) -> (r: Word)
    ensures
        r == rpo_hash_elements(elements@),
{
    let felts: Vec<Felt> = elements.iter().map(|x| Felt::new(*x)).collect();
    let d = Rpo256::hash_elements(&felts);
    let e = d.as_elements();
    Word(e[0].as_int(), e[1].as_int(), e[2].as_int(), e[3].as_int())
}

/// Relies on `EmptySubtreeRoots::empty_hashes(64)`: the table of empty-subtree roots of a tree
/// 64 levels deep, indexed by depth (65 entries, so every depth up to 64 is in range).
#[verifier::external_body]
pub(crate) fn empty_root(depth: u8) -> (r: Word)
    requires
        depth <= 64,
    ensures
        r == empty_subtree_root(depth),
{
    let d = EmptySubtreeRoots::empty_hashes(64)[depth as usize];
    let e = d.as_elements();
    Word(e[0].as_int(), e[1].as_int(), e[2].as_int(), e[3].as_int())
}

} // verus!

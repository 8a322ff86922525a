use vstd::prelude::*;

verus! {

/// Four field elements: the shape of both keys and values of the tree, and of every digest.
///
/// Elements are expected in canonical form (below the field modulus).
#[derive(Clone, Copy, Debug, PartialEq, Eq, Structural)]
pub struct Word(pub u64, pub u64, pub u64, pub u64);

/// The value that stands for "nothing stored here": the all-zero word.
pub open spec fn empty_word() -> Word {
    Word(0, 0, 0, 0)
}

pub fn empty_value() -> (r: Word)
    ensures
        r == empty_word(),
{
    Word(0, 0, 0, 0)
}

impl Word {
    pub fn new(elements: [u64; 4]) -> (r: Word)
        ensures
            r.0 == elements@[0],
            r.1 == elements@[1],
            r.2 == elements@[2],
            r.3 == elements@[3],
    {
        Word(elements[0], elements[1], elements[2], elements[3])
    }

    pub fn to_array(&self) -> (r: [u64; 4])
        ensures
            r@ == self.elements(),
    {
        let r = [self.0, self.1, self.2, self.3];
        assert(r@ =~= self.elements());
        r
    }

    /// The elements in order.
    pub open spec fn elements(self) -> Seq<u64> {
        seq![self.0, self.1, self.2, self.3]
    }

    pub fn is_empty(&self) -> (r: bool)
        ensures
            r == (*self == empty_word()),
    {
        self.0 == 0 && self.1 == 0 && self.2 == 0 && self.3 == 0
    }
}

/// Canonical key order: elements compared from the most significant (the last) down.
pub open spec fn key_lt(a: Word, b: Word) -> bool {
    a.3 < b.3 || (a.3 == b.3 && (a.2 < b.2 || (a.2 == b.2 && (a.1 < b.1 || (a.1 == b.1
        && a.0 < b.0)))))
}

pub fn cmp_lt(a: &Word, b: &Word) -> (r: bool)
    ensures
        r == key_lt(*a, *b),
{
    if a.3 != b.3 {
        a.3 < b.3
    } else if a.2 != b.2 {
        a.2 < b.2
    } else if a.1 != b.1 {
        a.1 < b.1
    } else {
        a.0 < b.0
    }
}

/// The `depth` leading bits of the routing window, that is the index of the node at that
/// depth on the key's path.
pub open spec fn prefix(k: Word, depth: nat) -> int
    recommends
        depth <= 64,
{
    k.3 as int / vstd::arithmetic::power2::pow2((64 - depth) as nat) as int
}

/// The `depth` leading bits of the key's routing window.
pub fn key_prefix(k: &Word, depth: u8) -> (r: u64)
    requires
        1 <= depth <= 64,
    ensures
        r as int == prefix(*k, depth as nat),
{
    let shift: u64 = (64 - depth) as u64;
    proof {
        vstd::bits::lemma_u64_shr_is_div(k.3, shift);
    }
    k.3 >> shift
}

/// The bit that picks the child at `depth + 1` under the node at `depth` (0: left, 1: right).
pub open spec fn branch_bit(k: Word, depth: u8) -> u64
    recommends
        depth < 64,
{
    (k.3 >> (63 - depth) as u64) & 1u64
}

pub fn branch_bit_of(k: &Word, depth: u8) -> (r: u64)
    requires
        depth < 64,
    ensures
        r == branch_bit(*k, depth),
        r <= 1,
{
    let x: u64 = k.3;
    let s: u64 = (63 - depth) as u64;
    let r = (x >> s) & 1u64;
    assert(r <= 1) by (bit_vector)
        requires
            r == (x >> s) & 1u64,
    ;
    r
}

} // verus!

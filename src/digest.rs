use vstd::prelude::*;
use crate::hash::{
    empty_root, empty_subtree_root, hash_elements, merge, merge_in_domain, rpo_hash_elements,
    rpo_merge, rpo_merge_in_domain,
};
use crate::store::sorted;
use crate::word::{branch_bit, branch_bit_of, key_lt, Word};

verus! {

/// The tiers: the depths below the root at which a single key may end up alone.
pub open spec fn is_upper_tier(depth: u8) -> bool {
    depth == 16 || depth == 32 || depth == 48
}

/// Elements of the pairs laid end to end: key, then value, for each pair in turn.
pub open spec fn flatten(s: Seq<(Word, Word)>) -> Seq<u64>
    decreases s.len(),
{
    if s.len() == 0 {
        Seq::empty()
    } else {
        flatten(s.drop_last()) + s.last().0.elements() + s.last().1.elements()
    }
}

/// Digest of a leaf at tier 16, 32 or 48: key and value hashed with the depth as domain.
pub open spec fn upper_leaf_digest(key: Word, value: Word, depth: u8) -> Word {
    rpo_merge_in_domain(key, value, depth as u64)
}

/// Digest of a leaf at the bottom tier, over all its pairs in key order.
pub open spec fn bottom_leaf_digest(s: Seq<(Word, Word)>) -> Word {
    rpo_hash_elements(flatten(s))
}

/// Whether a pair's key branches to `bit` below a node at `depth`.
pub open spec fn goes_to(depth: u8, bit: u64) -> spec_fn((Word, Word)) -> bool {
    |e: (Word, Word)| branch_bit(e.0, depth) == bit
}

/// The pairs of `s` whose key branches to `bit` below a node at `depth`.
pub open spec fn side(s: Seq<(Word, Word)>, depth: u8, bit: u64) -> Seq<(Word, Word)> {
    s.filter(goes_to(depth, bit))
}

/// Digest of the node at `depth` whose subtree holds exactly the pairs `s` (in key order).
///
/// An empty subtree has the precomputed empty digest; a single pair at a tier is a leaf there;
/// at the bottom all pairs form one leaf; anything else is an inner node over its two halves.
pub open spec fn subtree_digest(s: Seq<(Word, Word)>, depth: u8) -> Word
    decreases 64 - depth,
{
    if s.len() == 0 {
        empty_subtree_root(depth)
    } else if depth >= 64 {
        bottom_leaf_digest(s)
    } else if is_upper_tier(depth) && s.len() == 1 {
        upper_leaf_digest(s[0].0, s[0].1, depth)
    } else {
        rpo_merge(
            subtree_digest(side(s, depth, 0), (depth + 1) as u8),
            subtree_digest(side(s, depth, 1), (depth + 1) as u8),
        )
    }
}

/// The leaves under the node at `depth` whose subtree holds the pairs `s`, left to right, each
/// as (digest of its node, key, value); every pair of a bottom leaf is listed with that leaf.
pub open spec fn leaves_of(s: Seq<(Word, Word)>, depth: u8) -> Seq<(Word, Word, Word)>
    decreases 64 - depth,
{
    if s.len() == 0 {
        Seq::empty()
    } else if depth >= 64 {
        s.map_values(|e: (Word, Word)| (bottom_leaf_digest(s), e.0, e.1))
    } else if is_upper_tier(depth) && s.len() == 1 {
        seq![(upper_leaf_digest(s[0].0, s[0].1, depth), s[0].0, s[0].1)]
    } else {
        leaves_of(side(s, depth, 0), (depth + 1) as u8) + leaves_of(
            side(s, depth, 1),
            (depth + 1) as u8,
        )
    }
}

/// Whether the route of a key ends at a node at `depth` whose subtree holds the pairs `s`: the
/// bottom, or a tier node holding at most one pair.
pub open spec fn route_ends(s: Seq<(Word, Word)>, depth: u8) -> bool {
    depth >= 64 || (is_upper_tier(depth) && s.len() <= 1)
}

/// The digests of the siblings along the route of `key` from the node at `depth` (whose subtree
/// holds the pairs `s`) down to the tier node where the route ends, the topmost first.
pub open spec fn path_siblings(s: Seq<(Word, Word)>, key: Word, depth: u8) -> Seq<Word>
    decreases 64 - depth,
{
    if route_ends(s, depth) {
        Seq::empty()
    } else {
        let b = branch_bit(key, depth);
        seq![subtree_digest(side(s, depth, (1 - b) as u64), (depth + 1) as u8)] + path_siblings(
            side(s, depth, b),
            key,
            (depth + 1) as u8,
        )
    }
}

/// The key and value of each leaf triple.
pub open spec fn leaf_pairs(l: Seq<(Word, Word, Word)>) -> Seq<(Word, Word)> {
    l.map_values(|t: (Word, Word, Word)| (t.1, t.2))
}

/// The `depth` leading routing bits of `x`, for `depth` below 64.
pub open spec fn top_bits(x: u64, depth: u8) -> u64 {
    (x >> (63 - depth) as u64) >> 1u64
}

/// All keys of `s` share their `depth` leading routing bits: they lie under one node at `depth`.
pub open spec fn under_one_node(s: Seq<(Word, Word)>, depth: u8) -> bool {
    depth < 64 ==> forall|i: int, j: int|
        0 <= i < s.len() && 0 <= j < s.len() ==> top_bits(#[trigger] s[i].0.3, depth) == top_bits(
            #[trigger] s[j].0.3,
            depth,
        )
}

proof fn lemma_bits_order(x: u64, y: u64, depth: u8)
    requires
        depth < 64,
        top_bits(x, depth) == top_bits(y, depth),
        (x >> (63 - depth) as u64) & 1u64 == 1u64,
        (y >> (63 - depth) as u64) & 1u64 == 0u64,
    ensures
        x > y,
{
    let sh: u64 = (63 - depth) as u64;
    assert(x > y) by (bit_vector)
        requires
            sh <= 63,
            (x >> sh) >> 1u64 == (y >> sh) >> 1u64,
            (x >> sh) & 1u64 == 1u64,
            (y >> sh) & 1u64 == 0u64,
    ;
}

proof fn lemma_bits_step(x: u64, y: u64, depth: u8)
    requires
        depth < 63,
        top_bits(x, depth) == top_bits(y, depth),
        (x >> (63 - depth) as u64) & 1u64 == (y >> (63 - depth) as u64) & 1u64,
    ensures
        top_bits(x, (depth + 1) as u8) == top_bits(y, (depth + 1) as u8),
{
    let sh: u64 = (63 - depth) as u64;
    let sh1: u64 = (62 - depth) as u64;
    assert((x >> sh1) >> 1u64 == (y >> sh1) >> 1u64) by (bit_vector)
        requires
            1 <= sh <= 63,
            sh1 == sh - 1,
            (x >> sh) >> 1u64 == (y >> sh) >> 1u64,
            (x >> sh) & 1u64 == (y >> sh) & 1u64,
    ;
}

proof fn lemma_top_bits_zero(x: u64)
    ensures
        top_bits(x, 0) == 0,
{
    assert((x >> 63u64) >> 1u64 == 0u64) by (bit_vector);
}

/// Every sequence of pairs lies under the root.
pub proof fn lemma_under_root(s: Seq<(Word, Word)>)
    ensures
        under_one_node(s, 0),
{
    assert forall|i: int, j: int| 0 <= i < s.len() && 0 <= j < s.len() implies top_bits(
        #[trigger] s[i].0.3,
        0,
    ) == top_bits(#[trigger] s[j].0.3, 0) by {
        lemma_top_bits_zero(s[i].0.3);
        lemma_top_bits_zero(s[j].0.3);
    }
}

/// Each pair on a side comes from the sequence, with the branch bit of that side.
proof fn lemma_side_members(s: Seq<(Word, Word)>, depth: u8, bit: u64)
    ensures
        forall|i: int|
            0 <= i < side(s, depth, bit).len() ==> s.contains(#[trigger] side(s, depth, bit)[i])
                && branch_bit(side(s, depth, bit)[i].0, depth) == bit,
    decreases s.len(),
{
    if s.len() == 0 {
        reveal(Seq::filter);
    } else {
        let t = s.drop_last();
        let e = s.last();
        assert(t.push(e) =~= s);
        lemma_side_members(t, depth, bit);
        t.lemma_filter_push(e, goes_to(depth, bit));
        let f = side(s, depth, bit);
        assert forall|i: int| 0 <= i < f.len() implies s.contains(#[trigger] f[i]) && branch_bit(
            f[i].0,
            depth,
        ) == bit by {
            if i < side(t, depth, bit).len() {
                let x = side(t, depth, bit)[i];
                assert(f[i] == x);
                let j = choose|j: int| 0 <= j < t.len() && t[j] == x;
                assert(s[j] == x);
            } else {
                assert(f[i] == e);
                assert(s[s.len() - 1] == e);
            }
        }
    }
}

proof fn lemma_side_sorted(s: Seq<(Word, Word)>, depth: u8, bit: u64)
    requires
        sorted(s),
    ensures
        sorted(side(s, depth, bit)),
    decreases s.len(),
{
    if s.len() > 0 {
        let t = s.drop_last();
        let e = s.last();
        assert(sorted(t));
        lemma_side_sorted(t, depth, bit);
        assert(t.push(e) =~= s);
        t.lemma_filter_push(e, goes_to(depth, bit));
        lemma_side_members(t, depth, bit);
        let f = side(t, depth, bit);
        assert forall|i: int| 0 <= i < f.len() implies key_lt(#[trigger] f[i].0, e.0) by {
            assert(t.contains(f[i]));
            let j = choose|j: int| 0 <= j < t.len() && t[j] == f[i];
            assert(s[j] == t[j] && s[s.len() - 1] == e);
        }
    }
}

proof fn lemma_side_under_node(s: Seq<(Word, Word)>, depth: u8, bit: u64)
    requires
        depth < 64,
        under_one_node(s, depth),
    ensures
        under_one_node(side(s, depth, bit), (depth + 1) as u8),
{
    let f = side(s, depth, bit);
    lemma_side_members(s, depth, bit);
    if depth + 1 < 64 {
        assert forall|i: int, j: int| 0 <= i < f.len() && 0 <= j < f.len() implies top_bits(
            #[trigger] f[i].0.3,
            (depth + 1) as u8,
        ) == top_bits(#[trigger] f[j].0.3, (depth + 1) as u8) by {
            assert(s.contains(f[i]) && s.contains(f[j]));
            let a = choose|a: int| 0 <= a < s.len() && s[a] == f[i];
            let b = choose|b: int| 0 <= b < s.len() && s[b] == f[j];
            assert(top_bits(s[a].0.3, depth) == top_bits(s[b].0.3, depth));
            lemma_bits_step(f[i].0.3, f[j].0.3, depth);
        }
    }
}

/// No key that branches right comes before a key that branches left.
#[verifier::opaque]
pub open spec fn left_before_right(s: Seq<(Word, Word)>, depth: u8) -> bool {
    forall|i: int, j: int|
        0 <= i < j < s.len() ==> !(branch_bit(#[trigger] s[i].0, depth) == 1 && branch_bit(
            #[trigger] s[j].0,
            depth,
        ) == 0)
}

proof fn lemma_left_before_right_drop_last(s: Seq<(Word, Word)>, depth: u8)
    requires
        s.len() > 0,
        left_before_right(s, depth),
    ensures
        left_before_right(s.drop_last(), depth),
{
    reveal(left_before_right);
    let t = s.drop_last();
    assert forall|i: int, j: int| 0 <= i < j < t.len() implies !(branch_bit(
        #[trigger] t[i].0,
        depth,
    ) == 1 && branch_bit(#[trigger] t[j].0, depth) == 0) by {
        assert(t[i] == s[i] && t[j] == s[j]);
    }
}

/// `l` followed by `r` is `s`, stated element by element.
pub open spec fn split_as(s: Seq<(Word, Word)>, l: Seq<(Word, Word)>, r: Seq<(Word, Word)>) -> bool {
    &&& l.len() + r.len() == s.len()
    &&& forall|i: int| 0 <= i < l.len() ==> #[trigger] l[i] == s[i]
    &&& forall|i: int| 0 <= i < r.len() ==> #[trigger] r[i] == s[l.len() + i]
}

proof fn lemma_side_of_empty(s: Seq<(Word, Word)>, depth: u8, bit: u64)
    requires
        s.len() == 0,
    ensures
        side(s, depth, bit).len() == 0,
{
    reveal(Seq::filter);
}

/// Where no key before the last branches right and the last branches left, every key branches
/// left.
proof fn lemma_all_left(s: Seq<(Word, Word)>, depth: u8)
    requires
        s.len() > 0,
        left_before_right(s, depth),
        branch_bit(s.last().0, depth) == 0,
    ensures
        side(s.drop_last(), depth, 1).len() == 0,
{
    reveal(left_before_right);
    let t = s.drop_last();
    let r = side(t, depth, 1);
    lemma_side_members(t, depth, 1);
    if r.len() > 0 {
        assert(t.contains(r[0]));
        let j = choose|j: int| 0 <= j < t.len() && t[j] == r[0];
        let last = s.len() - 1;
        assert(s[j] == t[j] && s[last] == s.last());
        assert(!(branch_bit(s[j].0, depth) == 1 && branch_bit(s[last].0, depth) == 0));
    }
}

proof fn lemma_sides_partition_ordered(s: Seq<(Word, Word)>, depth: u8)
    requires
        depth < 64,
        left_before_right(s, depth),
    ensures
        split_as(s, side(s, depth, 0), side(s, depth, 1)),
    decreases s.len(),
{
    if s.len() == 0 {
        lemma_side_of_empty(s, depth, 0);
        lemma_side_of_empty(s, depth, 1);
    } else {
        let t = s.drop_last();
        let e = s.last();
        lemma_left_before_right_drop_last(s, depth);
        lemma_sides_partition_ordered(t, depth);
        let l = side(t, depth, 0);
        let r = side(t, depth, 1);
        assert(t.push(e) =~= s);
        t.lemma_filter_push(e, goes_to(depth, 0));
        t.lemma_filter_push(e, goes_to(depth, 1));
        let x = e.0.3;
        let sh: u64 = (63 - depth) as u64;
        assert((x >> sh) & 1u64 <= 1u64) by (bit_vector);
        let last = s.len() - 1;
        assert(s[last] == e);
        if branch_bit(e.0, depth) == 0 {
            lemma_all_left(s, depth);
            let l2 = l.push(e);
            assert(side(s, depth, 0) == l2);
            assert(side(s, depth, 1) == r);
            assert forall|i: int| 0 <= i < l2.len() implies #[trigger] l2[i] == s[i] by {
                if i < l.len() {
                    assert(l[i] == t[i]);
                }
            }
        } else {
            let r2 = r.push(e);
            assert(side(s, depth, 0) == l);
            assert(side(s, depth, 1) == r2);
            assert forall|i: int| 0 <= i < l.len() implies #[trigger] l[i] == s[i] by {
                assert(l[i] == t[i]);
            }
            assert forall|i: int| 0 <= i < r2.len() implies #[trigger] r2[i] == s[l.len() + i] by {
                if i < r.len() {
                    assert(r[i] == t[l.len() + i]);
                }
            }
        }
    }
}

/// Under one node, the keys that branch left all come before those that branch right.
proof fn lemma_sides_partition(s: Seq<(Word, Word)>, depth: u8)
    requires
        depth < 64,
        sorted(s),
        under_one_node(s, depth),
    ensures
        split_as(s, side(s, depth, 0), side(s, depth, 1)),
{
    lemma_left_before_right(s, depth);
    lemma_sides_partition_ordered(s, depth);
}

proof fn lemma_left_before_right(s: Seq<(Word, Word)>, depth: u8)
    requires
        depth < 64,
        sorted(s),
        under_one_node(s, depth),
    ensures
        left_before_right(s, depth),
{
    reveal(left_before_right);
    assert forall|i: int, j: int| 0 <= i < j < s.len() implies !(branch_bit(
        #[trigger] s[i].0,
        depth,
    ) == 1 && branch_bit(#[trigger] s[j].0, depth) == 0) by {
        if branch_bit(s[i].0, depth) == 1 && branch_bit(s[j].0, depth) == 0 {
            assert(key_lt(s[i].0, s[j].0));
            assert(top_bits(s[i].0.3, depth) == top_bits(s[j].0.3, depth));
            lemma_bits_order(s[i].0.3, s[j].0.3, depth);
        }
    }
}

proof fn lemma_split_as_concat(s: Seq<(Word, Word)>, l: Seq<(Word, Word)>, r: Seq<(Word, Word)>)
    requires
        split_as(s, l, r),
    ensures
        l + r == s,
{
    assert(l + r =~= s);
}

/// Read from left to right, the leaves under a node give back its pairs in key order.
pub proof fn lemma_leaf_pairs(s: Seq<(Word, Word)>, depth: u8)
    requires
        depth <= 64,
        sorted(s),
        under_one_node(s, depth),
    ensures
        leaf_pairs(leaves_of(s, depth)) == s,
    decreases 64 - depth,
{
    if s.len() == 0 {
        assert(leaf_pairs(leaves_of(s, depth)) =~= s);
    } else if depth >= 64 {
        assert(leaf_pairs(leaves_of(s, depth)) =~= s);
    } else if is_upper_tier(depth) && s.len() == 1 {
        assert(leaf_pairs(leaves_of(s, depth)) =~= s);
    } else {
        let l = side(s, depth, 0);
        let r = side(s, depth, 1);
        lemma_side_sorted(s, depth, 0);
        lemma_side_sorted(s, depth, 1);
        lemma_side_under_node(s, depth, 0);
        lemma_side_under_node(s, depth, 1);
        lemma_leaf_pairs(l, (depth + 1) as u8);
        lemma_leaf_pairs(r, (depth + 1) as u8);
        let a = leaves_of(l, (depth + 1) as u8);
        let b = leaves_of(r, (depth + 1) as u8);
        assert(leaves_of(s, depth) == a + b);
        assert(leaf_pairs(a + b) =~= leaf_pairs(a) + leaf_pairs(b));
        lemma_sides_partition(s, depth);
        lemma_split_as_concat(s, l, r);
    }
}

/// Splits the pairs by the branch bit at `depth`, keeping their order.
fn split(s: &Vec<(Word, Word)>, depth: u8) -> (r: (Vec<(Word, Word)>, Vec<(Word, Word)>))
    requires
        depth < 64,
    ensures
        r.0@ == side(s@, depth, 0),
        r.1@ == side(s@, depth, 1),
{
    let mut left: Vec<(Word, Word)> = Vec::new();
    let mut right: Vec<(Word, Word)> = Vec::new();
    let ghost f0 = goes_to(depth, 0);
    let ghost f1 = goes_to(depth, 1);
    let mut i: usize = 0;
    while i < s.len()
        invariant
            i <= s.len(),
            depth < 64,
            f0 == goes_to(depth, 0),
            f1 == goes_to(depth, 1),
            left@ == s@.subrange(0, i as int).filter(f0),
            right@ == s@.subrange(0, i as int).filter(f1),
        decreases s.len() - i,
    {
        let e = s[i];
        proof {
            assert(s@.subrange(0, i as int).push(e) =~= s@.subrange(0, i as int + 1));
            s@.subrange(0, i as int).lemma_filter_push(e, f0);
            s@.subrange(0, i as int).lemma_filter_push(e, f1);
        }
        let b = branch_bit_of(&e.0, depth);
        if b == 0 {
            assert(f0(e) && !f1(e));
            left.push(e);
        } else {
            assert(f1(e) && !f0(e));
            right.push(e);
        }
        i += 1;
    }
    assert(s@.subrange(0, s@.len() as int) =~= s@);
    (left, right)
}

/// Digest of a bottom leaf holding the pairs `s`.
fn bottom_leaf(s: &Vec<(Word, Word)>) -> (r: Word)
    ensures
        r == bottom_leaf_digest(s@),
{
    let mut elements: Vec<u64> = Vec::new();
    let mut i: usize = 0;
    while i < s.len()
        invariant
            i <= s.len(),
            elements@ == flatten(s@.subrange(0, i as int)),
        decreases s.len() - i,
    {
        let (k, v) = s[i];
        proof {
            let t = s@.subrange(0, i as int + 1);
            assert(t.drop_last() =~= s@.subrange(0, i as int));
        }
        elements.push(k.0);
        elements.push(k.1);
        elements.push(k.2);
        elements.push(k.3);
        elements.push(v.0);
        elements.push(v.1);
        elements.push(v.2);
        elements.push(v.3);
        proof {
            let t = s@.subrange(0, i as int + 1);
            assert(elements@ =~= flatten(t));
        }
        i += 1;
    }
    assert(s@.subrange(0, s@.len() as int) =~= s@);
    hash_elements(&elements)
}

/// Computes the digest of the node at `depth` whose subtree holds the pairs `s`.
pub fn subtree_root(s: &Vec<(Word, Word)>, depth: u8) -> (r: Word)
    requires
        depth <= 64,
    ensures
        r == subtree_digest(s@, depth),
    decreases 64 - depth,
{
    if s.len() == 0 {
        empty_root(depth)
    } else if depth >= 64 {
        bottom_leaf(s)
    } else if (depth == 16 || depth == 32 || depth == 48) && s.len() == 1 {
        merge_in_domain(&s[0].0, &s[0].1, depth as u64)
    } else {
        let (left, right) = split(s, depth);
        let a = subtree_root(&left, depth + 1);
        let b = subtree_root(&right, depth + 1);
        merge(&a, &b)
    }
}

/// Appends the sibling digests along the route of `key` below the node at `depth`.
pub fn collect_path(
    s: &Vec<(Word, Word)>,
    key: &Word,
    depth: u8,
    out: &mut Vec<Word>,
)
    requires
        depth <= 64,
    ensures
        final(out)@ == old(out)@ + path_siblings(s@, *key, depth),
    decreases 64 - depth,
{
    if depth >= 64 || ((depth == 16 || depth == 32 || depth == 48) && s.len() <= 1) {
        assert(final(out)@ =~= old(out)@ + path_siblings(s@, *key, depth));
    } else {
        let b = branch_bit_of(key, depth);
        let (left, right) = split(s, depth);
        if b == 0 {
            let d = subtree_root(&right, depth + 1);
            out.push(d);
            collect_path(&left, key, depth + 1, out);
        } else {
            let d = subtree_root(&left, depth + 1);
            out.push(d);
            collect_path(&right, key, depth + 1, out);
        }
        assert(final(out)@ =~= old(out)@ + path_siblings(s@, *key, depth));
    }
}

/// Appends the leaves under the node at `depth` whose subtree holds the pairs `s`.
pub fn collect_leaves(s: &Vec<(Word, Word)>, depth: u8, out: &mut Vec<(Word, Word, Word)>)
    requires
        depth <= 64,
    ensures
        final(out)@ == old(out)@ + leaves_of(s@, depth),
    decreases 64 - depth,
{
    if s.len() == 0 {
        assert(old(out)@ + leaves_of(s@, depth) =~= old(out)@);
    } else if depth >= 64 {
        let d = bottom_leaf(s);
        let ghost f = |e: (Word, Word)| (bottom_leaf_digest(s@), e.0, e.1);
        let ghost start = out@;
        let mut i: usize = 0;
        while i < s.len()
            invariant
                i <= s.len(),
                d == bottom_leaf_digest(s@),
                f == (|e: (Word, Word)| (bottom_leaf_digest(s@), e.0, e.1)),
                out@.len() == start.len() + i,
                forall|j: int| 0 <= j < start.len() ==> out@[j] == start[j],
                forall|j: int| 0 <= j < i ==> out@[start.len() + j] == f(s@[j]),
            decreases s.len() - i,
        {
            let (k, v) = s[i];
            out.push((d, k, v));
            i += 1;
        }
        assert(out@ =~= start + s@.map_values(f));
    } else if (depth == 16 || depth == 32 || depth == 48) && s.len() == 1 {
        let d = merge_in_domain(&s[0].0, &s[0].1, depth as u64);
        out.push((d, s[0].0, s[0].1));
        assert(final(out)@ =~= old(out)@ + leaves_of(s@, depth));
    } else {
        let (left, right) = split(s, depth);
        collect_leaves(&left, depth + 1, out);
        collect_leaves(&right, depth + 1, out);
        assert(final(out)@ =~= old(out)@ + leaves_of(s@, depth));
    }
}

} // verus!

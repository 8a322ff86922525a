use vstd::prelude::*;
use crate::digest::{
    collect_leaves, collect_path, leaf_pairs, leaves_of, lemma_leaf_pairs, lemma_under_root,
    path_siblings, subtree_digest, subtree_root,
};
use crate::laws::{distinct_keys, lemma_insert_all_distinct};
use crate::store::{
    contents, has_key, lemma_contents_at, lemma_contents_insert, lemma_contents_update,
    lemma_key_lt_order, lemma_sorted_unique, sorted,
};
use crate::word::{cmp_lt, empty_value, empty_word, key_lt, Word};

verus! {

/// Why a mutation was refused.
#[derive(Clone, Copy, Debug, PartialEq, Eq, Structural)]
pub enum TreeError {
    /// The all-zero word was given as a value: it stands for absence and cannot be stored.
    InvalidValue,
}

/// The value a map gives a key, or the empty word where it gives none.
pub open spec fn lookup(m: Map<Word, Word>, k: Word) -> Word {
    if m.contains_key(k) {
        m[k]
    } else {
        empty_word()
    }
}

/// The pairs of a map in key order.
pub open spec fn ordered_pairs(m: Map<Word, Word>) -> Seq<(Word, Word)> {
    choose|s: Seq<(Word, Word)>| sorted(s) && contents(s) == m
}

/// The root digest of a tree holding exactly the pairs of `m`.
pub open spec fn root_of(m: Map<Word, Word>) -> Word {
    subtree_digest(ordered_pairs(m), 0)
}

/// The (node digest, key, value) triples of the leaves of a tree holding the pairs of `m`, in
/// key order.
pub open spec fn leaves_of_map(m: Map<Word, Word>) -> Seq<(Word, Word, Word)> {
    leaves_of(ordered_pairs(m), 0)
}

/// The sibling digests on the route of `key` in a tree holding the pairs of `m`, from the
/// root's children down to the tier node where the route ends.
pub open spec fn path_of_map(m: Map<Word, Word>, key: Word) -> Seq<Word> {
    path_siblings(ordered_pairs(m), key, 0)
}

/// The advice entry of a leaf triple: its node digest, and its key's elements followed by its
/// value's.
pub open spec fn advice_entry(t: (Word, Word, Word)) -> (Word, Seq<u64>) {
    (t.0, t.1.elements() + t.2.elements())
}

/// The map that results from applying the insertions of `s` to `m`, first to last.
pub open spec fn insert_all(m: Map<Word, Word>, s: Seq<(Word, Word)>) -> Map<Word, Word>
    decreases s.len(),
{
    if s.len() == 0 {
        m
    } else {
        insert_all(m, s.drop_last()).insert(s.last().0, s.last().1)
    }
}

/// Whether a sequence of pairs holds no empty value.
pub open spec fn all_values_set(s: Seq<(Word, Word)>) -> bool {
    forall|i: int| 0 <= i < s.len() ==> (#[trigger] s[i]).1 != empty_word()
}

/// A tiered sparse Merkle tree over keys and values of four field elements.
///
/// A key is placed at the shallowest of depths 16, 32 and 48 at which no other key shares its
/// prefix, else at depth 64, where keys sharing all 64 routing bits share one leaf.
pub struct TieredSmt {
    entries: Vec<(Word, Word)>,
    root: Word,
}

impl View for TieredSmt {
    type V = Map<Word, Word>;

    closed spec fn view(&self) -> Map<Word, Word> {
        contents(self.entries@)
    }
}

impl Default for TieredSmt {
    /// An empty tree.
    fn default() -> (r: TieredSmt)
        ensures
            r.wf(),
            r@ == Map::<Word, Word>::empty(),
    {
        TieredSmt::new()
    }
}

/// The pairs in key order are the unique sorted sequence holding their map.
proof fn lemma_ordered_pairs(s: Seq<(Word, Word)>)
    requires
        sorted(s),
    ensures
        ordered_pairs(contents(s)) == s,
{
    let c = ordered_pairs(contents(s));
    assert(sorted(s) && contents(s) == contents(s));
    lemma_sorted_unique(c, s);
}

impl TieredSmt {
    /// The pairs are kept in key order with no empty value, and the cached root is the digest
    /// of the tree they make.
    pub closed spec fn wf(&self) -> bool {
        &&& sorted(self.entries@)
        &&& all_values_set(self.entries@)
        &&& self.root == subtree_digest(self.entries@, 0)
    }

    /// An empty tree, whose root is the digest of an all-empty tree 64 levels deep.
    pub fn new() -> (r: TieredSmt)
        ensures
            r.wf(),
            r@ == Map::<Word, Word>::empty(),
    {
        let entries: Vec<(Word, Word)> = Vec::new();
        let root = subtree_root(&entries, 0);
        let r = TieredSmt { entries, root };
        assert(contents(r.entries@) =~= Map::<Word, Word>::empty());
        r
    }

    /// Where `key` stands in key order: the number of stored keys below it, and whether the
    /// next stored key is `key` itself.
    fn position(&self, key: &Word) -> (r: (bool, usize))
        requires
            self.wf(),
        ensures
            r.1 <= self.entries@.len(),
            forall|j: int| 0 <= j < r.1 ==> key_lt(#[trigger] self.entries@[j].0, *key),
            r.0 ==> r.1 < self.entries@.len() && self.entries@[r.1 as int].0 == *key,
            !r.0 ==> (r.1 < self.entries@.len() ==> key_lt(*key, self.entries@[r.1 as int].0)),
    {
        let ghost s = self.entries@;
        let mut lo: usize = 0;
        let mut hi: usize = self.entries.len();
        while lo < hi
            invariant
                self.wf(),
                s == self.entries@,
                lo <= hi <= s.len(),
                forall|j: int| 0 <= j < lo ==> key_lt(#[trigger] s[j].0, *key),
                forall|j: int| hi <= j < s.len() ==> !key_lt(#[trigger] s[j].0, *key),
            decreases hi - lo,
        {
            let mid = lo + (hi - lo) / 2;
            if cmp_lt(&self.entries[mid].0, key) {
                assert forall|j: int| 0 <= j < mid + 1 implies key_lt(#[trigger] s[j].0, *key) by {
                    if j < mid {
                        assert(key_lt(s[j].0, s[mid as int].0));
                        lemma_key_lt_order(s[j].0, s[mid as int].0, *key);
                    }
                }
                lo = mid + 1;
            } else {
                assert forall|j: int| mid <= j < s.len() implies !key_lt(#[trigger] s[j].0, *key)
                    by {
                    if j > mid && key_lt(s[j].0, *key) {
                        assert(key_lt(s[mid as int].0, s[j].0));
                        lemma_key_lt_order(s[mid as int].0, s[j].0, *key);
                    }
                }
                hi = mid;
            }
        }
        if lo < self.entries.len() && self.entries[lo].0 == *key {
            (true, lo)
        } else {
            proof {
                if lo < s.len() {
                    lemma_key_lt_order(*key, s[lo as int].0, *key);
                }
            }
            (false, lo)
        }
    }

    /// The value stored under `key`, or the empty word if there is none.
    pub fn get(&self, key: &Word) -> (r: Word)
        requires
            self.wf(),
        ensures
            r == lookup(self@, *key),
    {
        let (found, i) = self.position(key);
        proof {
            let s = self.entries@;
            if found {
                lemma_contents_at(s, i as int);
            } else if has_key(s, *key) {
                let j = choose|j: int| 0 <= j < s.len() && #[trigger] s[j].0 == *key;
                lemma_key_lt_order(*key, *key, *key);
                if j > i {
                    assert(key_lt(s[i as int].0, s[j].0));
                    lemma_key_lt_order(*key, s[i as int].0, *key);
                }
            }
        }
        if found {
            self.entries[i].1
        } else {
            empty_value()
        }
    }

    /// The root digest: a function of the stored pairs alone.
    pub fn root(&self) -> (r: Word)
        requires
            self.wf(),
        ensures
            r == root_of(self@),
    {
        proof {
            lemma_ordered_pairs(self.entries@);
        }
        self.root
    }

    /// Stores `value` under `key`, replacing any earlier value, and returns what was stored
    /// there before (the empty word if nothing was).
    ///
    /// The empty word cannot be stored: it is refused with `InvalidValue`, and the tree is left
    /// as it was.
    pub fn insert(&mut self, key: Word, value: Word) -> (r: Result<Word, TreeError>)
        requires
            old(self).wf(),
        ensures
            final(self).wf(),
            value == empty_word() ==> r == Err::<Word, TreeError>(TreeError::InvalidValue)
                && *final(self) == *old(self),
            value != empty_word() ==> r == Ok::<Word, TreeError>(lookup(old(self)@, key))
                && final(self)@ == old(self)@.insert(key, value),
    {
        if value.is_empty() {
            return Err(TreeError::InvalidValue);
        }
        let ghost s = self.entries@;
        let (found, i) = self.position(&key);
        let old_value;
        if found {
            old_value = self.entries[i].1;
            proof {
                lemma_contents_at(s, i as int);
                lemma_contents_update(s, i as int, value);
            }
            self.entries.set(i, (key, value));
        } else {
            proof {
                assert(!has_key(s, key)) by {
                    if has_key(s, key) {
                        let j = choose|j: int| 0 <= j < s.len() && #[trigger] s[j].0 == key;
                        lemma_key_lt_order(key, key, key);
                        if j >= i {
                            if j > i {
                                assert(key_lt(s[i as int].0, s[j].0));
                            }
                            lemma_key_lt_order(key, s[i as int].0, key);
                        }
                    }
                }
                lemma_contents_insert(s, i as int, key, value);
            }
            self.entries.insert(i, (key, value));
            old_value = empty_value();
        }
        self.root = subtree_root(&self.entries, 0);
        Ok(old_value)
    }

    /// Every leaf in key order as (digest of its node, key, value); each pair of a bottom leaf
    /// is listed with that leaf's digest. A tree rebuilt from these pairs has the same root.
    pub fn upper_leaves(&self) -> (r: Vec<(Word, Word, Word)>)
        requires
            self.wf(),
        ensures
            r@ == leaves_of_map(self@),
    {
        let mut out: Vec<(Word, Word, Word)> = Vec::new();
        collect_leaves(&self.entries, 0, &mut out);
        proof {
            lemma_ordered_pairs(self.entries@);
            assert(out@ =~= leaves_of(self.entries@, 0));
        }
        out
    }

    /// The sibling digests on the route of `key`, from the root's children down to the tier node
    /// where the route ends: an empty subtree, a tier node holding one pair, or the bottom.
    /// Together with that node's digest they open the root.
    pub fn path(&self, key: &Word) -> (r: Vec<Word>)
        requires
            self.wf(),
        ensures
            r@ == path_of_map(self@, *key),
    {
        let mut out: Vec<Word> = Vec::new();
        collect_path(&self.entries, key, 0, &mut out);
        proof {
            lemma_ordered_pairs(self.entries@);
            assert(out@ =~= path_siblings(self.entries@, *key, 0));
        }
        out
    }

    /// For each leaf in key order, its node digest with the elements of its key and value:
    /// what a verifier is handed to open a leaf without recomputing it.
    pub fn advice_map(&self) -> (r: Vec<(Word, Vec<u64>)>)
        requires
            self.wf(),
        ensures
            r@.len() == leaves_of_map(self@).len(),
            forall|i: int|
                0 <= i < r@.len() ==> (#[trigger] r@[i]).0 == advice_entry(leaves_of_map(self@)[i]).0
                    && r@[i].1@ == advice_entry(leaves_of_map(self@)[i]).1,
    {
        let leaves = self.upper_leaves();
        let mut r: Vec<(Word, Vec<u64>)> = Vec::new();
        let mut i: usize = 0;
        while i < leaves.len()
            invariant
                i <= leaves@.len(),
                leaves@ == leaves_of_map(self@),
                r@.len() == i,
                forall|j: int|
                    0 <= j < i ==> (#[trigger] r@[j]).0 == advice_entry(leaves@[j]).0 && r@[j].1@
                        == advice_entry(leaves@[j]).1,
            decreases leaves@.len() - i,
        {
            let (node, k, v) = leaves[i];
            let mut elements: Vec<u64> = Vec::new();
            elements.push(k.0);
            elements.push(k.1);
            elements.push(k.2);
            elements.push(k.3);
            elements.push(v.0);
            elements.push(v.1);
            elements.push(v.2);
            elements.push(v.3);
            assert(elements@ =~= k.elements() + v.elements());
            r.push((node, elements));
            i += 1;
        }
        r
    }

    /// Inserting the key and value of each leaf, in the order listed, rebuilds the same contents,
    /// and so the same root.
    pub proof fn lemma_rebuilt_from_leaves(&self)
        requires
            self.wf(),
        ensures
            insert_all(Map::empty(), leaf_pairs(leaves_of_map(self@))) == self@,
            root_of(insert_all(Map::empty(), leaf_pairs(leaves_of_map(self@)))) == root_of(
                self@,
            ),
    {
        let s = self.entries@;
        lemma_ordered_pairs(s);
        lemma_under_root(s);
        lemma_leaf_pairs(s, 0);
        assert(distinct_keys(s)) by {
            assert forall|i: int, j: int| 0 <= i < j < s.len() implies (#[trigger] s[i]).0 != (
            #[trigger] s[j]).0 by {
                assert(key_lt(s[i].0, s[j].0));
                lemma_key_lt_order(s[i].0, s[i].0, s[i].0);
            }
        }
        lemma_insert_all_distinct(s);
    }

    /// A tree holding the given pairs, inserted first to last (a later pair for a key replaces
    /// an earlier one). Refused with `InvalidValue`, where a value is the empty word.
    pub fn with_entries(entries: &Vec<(Word, Word)>) -> (r: Result<TieredSmt, TreeError>)
        ensures
            all_values_set(entries@) <==> r is Ok,
            r is Ok ==> r->Ok_0.wf() && r->Ok_0@ == insert_all(Map::empty(), entries@),
            r is Err ==> r == Err::<TieredSmt, TreeError>(TreeError::InvalidValue),
    {
        let mut tree = TieredSmt::new();
        let mut i: usize = 0;
        while i < entries.len()
            invariant
                i <= entries@.len(),
                tree.wf(),
                tree@ == insert_all(Map::empty(), entries@.subrange(0, i as int)),
                all_values_set(entries@.subrange(0, i as int)),
            decreases entries@.len() - i,
        {
            let (k, v) = entries[i];
            proof {
                assert(entries@.subrange(0, i as int + 1).drop_last() =~= entries@.subrange(
                    0,
                    i as int,
                ));
            }
            match tree.insert(k, v) {
                Ok(_) => {},
                Err(e) => {
                    assert(!all_values_set(entries@));
                    return Err(e);
                },
            }
            i += 1;
        }
        assert(entries@.subrange(0, entries@.len() as int) =~= entries@);
        Ok(tree)
    }
}

} // verus!

use vstd::prelude::*;
use crate::store::{contents, has_key};
use crate::tree::{insert_all, lookup, root_of};
use crate::word::{empty_word, prefix, Word};
use vstd::arithmetic::div_mod::lemma_div_denominator;
use vstd::arithmetic::power2::{lemma_pow2_adds, lemma_pow2_pos, pow2};

verus! {

/// No key occurs twice.
pub open spec fn distinct_keys(s: Seq<(Word, Word)>) -> bool {
    forall|i: int, j: int| 0 <= i < j < s.len() ==> (#[trigger] s[i]).0 != (#[trigger] s[j]).0
}

/// A value stored under a key is what a lookup of that key gives, right after the insertion and
/// after any number of later insertions under other keys.
pub proof fn lemma_get_after_insert(
    m: Map<Word, Word>,
    k: Word,
    v: Word,
    later: Seq<(Word, Word)>,
)
    requires
        forall|i: int| 0 <= i < later.len() ==> (#[trigger] later[i]).0 != k,
    ensures
        lookup(insert_all(m.insert(k, v), later), k) == v,
    decreases later.len(),
{
    if later.len() > 0 {
        lemma_get_after_insert(m, k, v, later.drop_last());
        assert(later.last() == later[later.len() - 1]);
    }
}

/// A key under which nothing was ever inserted looks up to the empty word.
pub proof fn lemma_get_absent(inserted: Seq<(Word, Word)>, k: Word)
    requires
        forall|i: int| 0 <= i < inserted.len() ==> (#[trigger] inserted[i]).0 != k,
    ensures
        lookup(insert_all(Map::empty(), inserted), k) == empty_word(),
    decreases inserted.len(),
{
    if inserted.len() > 0 {
        lemma_get_absent(inserted.drop_last(), k);
        assert(inserted.last() == inserted[inserted.len() - 1]);
    }
}

/// Inserting pairs with distinct keys gives the map that the pairs hold.
pub proof fn lemma_insert_all_distinct(s: Seq<(Word, Word)>)
    requires
        distinct_keys(s),
    ensures
        insert_all(Map::empty(), s) == contents(s),
    decreases s.len(),
{
    if s.len() > 0 {
        let t = s.drop_last();
        let e = s.last();
        assert(distinct_keys(t)) by {
            assert forall|i: int, j: int| 0 <= i < j < t.len() implies (#[trigger] t[i]).0 != (
            #[trigger] t[j]).0 by {
                assert(t[i] == s[i] && t[j] == s[j]);
            }
        }
        lemma_insert_all_distinct(t);
        assert forall|w: Word| #[trigger] contents(s).contains_key(w) <==> contents(t).insert(
            e.0,
            e.1,
        ).contains_key(w) by {
            if has_key(s, w) {
                let j = choose|j: int| 0 <= j < s.len() && #[trigger] s[j].0 == w;
                if j < s.len() - 1 {
                    assert(t[j].0 == w);
                }
            }
            if has_key(t, w) {
                let j = choose|j: int| 0 <= j < t.len() && #[trigger] t[j].0 == w;
                assert(s[j].0 == w);
            }
            assert(s[s.len() - 1] == e);
        }
        assert forall|w: Word| #[trigger] contents(s).contains_key(w) implies contents(s)[w]
            == contents(t).insert(e.0, e.1)[w] by {
            let j = choose|j: int| 0 <= j < s.len() && #[trigger] s[j].0 == w;
            assert(s[s.len() - 1] == e);
            if j < s.len() - 1 {
                assert(w != e.0);
                let j2 = choose|j2: int| 0 <= j2 < t.len() && #[trigger] t[j2].0 == w;
                assert(s[j2] == t[j2]);
                assert(j == j2);
            }
        }
        assert(contents(s) =~= contents(t).insert(e.0, e.1));
    }
}

/// Inserting the same pairs with distinct keys in any order yields the same root.
pub proof fn lemma_order_independent(s1: Seq<(Word, Word)>, s2: Seq<(Word, Word)>)
    requires
        s1.to_multiset() == s2.to_multiset(),
        distinct_keys(s1),
    ensures
        insert_all(Map::empty(), s1) == insert_all(Map::empty(), s2),
        root_of(insert_all(Map::empty(), s1)) == root_of(insert_all(Map::empty(), s2)),
{
    broadcast use vstd::seq_lib::group_to_multiset_ensures;
    broadcast use vstd::multiset::group_multiset_axioms;

    s1.to_multiset_ensures();
    s2.to_multiset_ensures();
    assert forall|x: (Word, Word)| s1.contains(x) <==> s2.contains(x) by {
        assert(s1.contains(x) <==> s1.to_multiset().count(x) > 0);
        assert(s2.contains(x) <==> s2.to_multiset().count(x) > 0);
    }
    assert(distinct_keys(s2)) by {
        assert forall|i: int, j: int| 0 <= i < j < s2.len() implies (#[trigger] s2[i]).0 != (
        #[trigger] s2[j]).0 by {
            if s2[i].0 == s2[j].0 {
                if s2[i] == s2[j] {
                    assert(s1.no_duplicates()) by {
                        assert forall|p: int, q: int|
                            0 <= p < s1.len() && 0 <= q < s1.len() && p != q implies s1[p]
                            != s1[q] by {
                            if p < q {
                                assert(s1[p].0 != s1[q].0);
                            } else {
                                assert(s1[q].0 != s1[p].0);
                            }
                        }
                    }
                    s1.lemma_multiset_has_no_duplicates();
                    assert(s2.contains(s2[i]));
                    assert(s2.to_multiset().count(s2[i]) >= 2) by {
                        let x = s2[i];
                        let r = s2.remove(j);
                        assert(r.contains(x)) by {
                            assert(r[i] == x);
                        }
                        r.to_multiset_ensures();
                        assert(r.to_multiset() =~= s2.to_multiset().remove(x));
                        assert(r.to_multiset().count(x) > 0);
                    }
                } else {
                    assert(s1.contains(s2[i]) && s1.contains(s2[j]));
                    let a = choose|a: int| 0 <= a < s1.len() && s1[a] == s2[i];
                    let b = choose|b: int| 0 <= b < s1.len() && s1[b] == s2[j];
                    assert(a != b);
                    if a < b {
                        assert(s1[a].0 != s1[b].0);
                    } else {
                        assert(s1[b].0 != s1[a].0);
                    }
                }
            }
        }
    }
    lemma_insert_all_distinct(s1);
    lemma_insert_all_distinct(s2);
    assert forall|w: Word| #[trigger] contents(s1).contains_key(w) <==> contents(
        s2,
    ).contains_key(w) by {
        if has_key(s1, w) {
            let j = choose|j: int| 0 <= j < s1.len() && #[trigger] s1[j].0 == w;
            assert(s1.contains(s1[j]));
            let j2 = choose|j2: int| 0 <= j2 < s2.len() && s2[j2] == s1[j];
            assert(s2[j2].0 == w);
        }
        if has_key(s2, w) {
            let j = choose|j: int| 0 <= j < s2.len() && #[trigger] s2[j].0 == w;
            assert(s2.contains(s2[j]));
            let j2 = choose|j2: int| 0 <= j2 < s1.len() && s1[j2] == s2[j];
            assert(s1[j2].0 == w);
        }
    }
    assert forall|w: Word| #[trigger] contents(s1).contains_key(w) implies contents(s1)[w]
        == contents(s2)[w] by {
        let j = choose|j: int| 0 <= j < s1.len() && #[trigger] s1[j].0 == w;
        assert(s1.contains(s1[j]));
        let j2 = choose|j2: int| 0 <= j2 < s2.len() && s2[j2] == s1[j];
        let c2 = choose|c: int| 0 <= c < s2.len() && #[trigger] s2[c].0 == w;
        assert(s2[j2].0 == w);
        if c2 != j2 {
            if c2 < j2 {
                assert(s2[c2].0 != s2[j2].0);
            } else {
                assert(s2[j2].0 != s2[c2].0);
            }
        }
    }
    assert(contents(s1) =~= contents(s2));
}

/// The prefix of a key at a depth is the prefix at any greater depth with the extra low bits
/// dropped: the prefixes of the tiers are nested.
pub proof fn lemma_prefixes_nested(k: Word, shallow: nat, deep: nat)
    requires
        shallow <= deep <= 64,
    ensures
        prefix(k, shallow) == prefix(k, deep) / pow2((deep - shallow) as nat) as int,
{
    let a = pow2((64 - deep) as nat);
    let b = pow2((deep - shallow) as nat);
    lemma_pow2_adds((64 - deep) as nat, (deep - shallow) as nat);
    lemma_pow2_pos((64 - deep) as nat);
    lemma_pow2_pos((deep - shallow) as nat);
    assert((64 - shallow) as nat == (64 - deep) as nat + (deep - shallow) as nat);
    lemma_div_denominator(k.3 as int, a as int, b as int);
}

/// Two keys stored under one prefix of a tier depth (16, 32 or 48), and distinct beyond it, each
/// look up to their own value; a third key under that prefix that was never stored looks up to
/// the empty word.
pub proof fn lemma_prefix_isolation(
    depth: nat,
    a: Word,
    va: Word,
    b: Word,
    vb: Word,
    c: Word,
)
    requires
        depth == 16 || depth == 32 || depth == 48,
        prefix(a, depth) == prefix(b, depth),
        prefix(c, depth) == prefix(a, depth),
        a != b,
        c != a,
        c != b,
    ensures
        lookup(insert_all(Map::empty(), seq![(a, va), (b, vb)]), a) == va,
        lookup(insert_all(Map::empty(), seq![(a, va), (b, vb)]), b) == vb,
        lookup(insert_all(Map::empty(), seq![(a, va), (b, vb)]), c) == empty_word(),
{
    let s = seq![(a, va), (b, vb)];
    assert(s.drop_last() =~= seq![(a, va)]);
    assert(seq![(a, va)].drop_last() =~= Seq::<(Word, Word)>::empty());
    let one = seq![(a, va)];
    assert(one.last() == (a, va));
    assert(insert_all(Map::empty(), one.drop_last()) == Map::<Word, Word>::empty());
    assert(insert_all(Map::empty(), one) == Map::<Word, Word>::empty().insert(a, va));
    assert(s.last() == (b, vb));
}

} // verus!

use vstd::prelude::*;
use crate::word::{key_lt, Word};

verus! {

/// Pairs strictly increasing by key: no key twice, and one order for any set of pairs.
pub open spec fn sorted(s: Seq<(Word, Word)>) -> bool {
    forall|i: int, j: int| 0 <= i < j < s.len() ==> key_lt(#[trigger] s[i].0, #[trigger] s[j].0)
}

pub open spec fn has_key(s: Seq<(Word, Word)>, k: Word) -> bool {
    exists|i: int| 0 <= i < s.len() && #[trigger] s[i].0 == k
}

/// The map from keys to values that a sequence of pairs holds.
pub open spec fn contents(s: Seq<(Word, Word)>) -> Map<Word, Word> {
    Map::new(
        |k: Word| has_key(s, k),
        |k: Word| s[choose|i: int| 0 <= i < s.len() && #[trigger] s[i].0 == k].1,
    )
}

pub proof fn lemma_key_lt_order(a: Word, b: Word, c: Word)
    ensures
        !key_lt(a, a),
        key_lt(a, b) && key_lt(b, c) ==> key_lt(a, c),
        a != b ==> key_lt(a, b) || key_lt(b, a),
{
}

/// In a sorted sequence every pair is what its key maps to.
pub proof fn lemma_contents_at(s: Seq<(Word, Word)>, i: int)
    requires
        sorted(s),
        0 <= i < s.len(),
    ensures
        contents(s).contains_key(s[i].0),
        contents(s)[s[i].0] == s[i].1,
{
    let k = s[i].0;
    assert(has_key(s, k));
    let j = choose|j: int| 0 <= j < s.len() && #[trigger] s[j].0 == k;
    lemma_key_lt_order(k, k, k);
    if j < i {
        assert(key_lt(s[j].0, s[i].0));
    } else if i < j {
        assert(key_lt(s[i].0, s[j].0));
    }
}

pub proof fn lemma_contents_drop_first(s: Seq<(Word, Word)>)
    requires
        sorted(s),
        s.len() > 0,
    ensures
        sorted(s.drop_first()),
        contents(s.drop_first()) == contents(s).remove(s[0].0),
{
    let t = s.drop_first();
    assert forall|i: int, j: int| 0 <= i < j < t.len() implies key_lt(
        #[trigger] t[i].0,
        #[trigger] t[j].0,
    ) by {
        assert(t[i] == s[i + 1] && t[j] == s[j + 1]);
    }
    assert forall|w: Word| #[trigger] contents(t).contains_key(w) <==> contents(s).remove(
        s[0].0,
    ).contains_key(w) by {
        if has_key(t, w) {
            let j = choose|j: int| 0 <= j < t.len() && #[trigger] t[j].0 == w;
            assert(s[j + 1].0 == w);
            assert(key_lt(s[0].0, s[j + 1].0));
            lemma_key_lt_order(w, w, w);
        }
        if has_key(s, w) && w != s[0].0 {
            let j = choose|j: int| 0 <= j < s.len() && #[trigger] s[j].0 == w;
            assert(t[j - 1].0 == w);
        }
    }
    assert forall|w: Word| #[trigger] contents(t).contains_key(w) implies contents(t)[w]
        == contents(s)[w] by {
        let j = choose|j: int| 0 <= j < t.len() && #[trigger] t[j].0 == w;
        lemma_contents_at(t, j);
        assert(t[j] == s[j + 1]);
        lemma_contents_at(s, j + 1);
    }
    assert(contents(t) =~= contents(s).remove(s[0].0));
}

/// Two sorted sequences that hold the same map are the same sequence.
pub proof fn lemma_sorted_unique(s1: Seq<(Word, Word)>, s2: Seq<(Word, Word)>)
    requires
        sorted(s1),
        sorted(s2),
        contents(s1) == contents(s2),
    ensures
        s1 == s2,
    decreases s1.len(),
{
    if s1.len() == 0 {
        if s2.len() > 0 {
            lemma_contents_at(s2, 0);
        }
        assert(s1 =~= s2);
    } else {
        lemma_contents_at(s1, 0);
        let a = s1[0].0;
        assert(has_key(s2, a));
        lemma_contents_at(s2, 0);
        let b = s2[0].0;
        assert(has_key(s1, b));
        let j = choose|j: int| 0 <= j < s2.len() && #[trigger] s2[j].0 == a;
        let j2 = choose|j: int| 0 <= j < s1.len() && #[trigger] s1[j].0 == b;
        lemma_key_lt_order(a, b, a);
        if j > 0 {
            assert(key_lt(b, a));
        }
        if j2 > 0 {
            assert(key_lt(a, b));
        }
        assert(a == b);
        assert(s1[0] == s2[0]);
        lemma_contents_drop_first(s1);
        lemma_contents_drop_first(s2);
        lemma_sorted_unique(s1.drop_first(), s2.drop_first());
        assert(s1 =~= seq![s1[0]] + s1.drop_first());
        assert(s2 =~= seq![s2[0]] + s2.drop_first());
    }
}

/// Placing a new pair at its place in key order keeps the sequence sorted and adds the pair to
/// the map.
pub proof fn lemma_contents_insert(s: Seq<(Word, Word)>, i: int, k: Word, v: Word)
    requires
        sorted(s),
        0 <= i <= s.len(),
        forall|j: int| 0 <= j < i ==> key_lt(#[trigger] s[j].0, k),
        i < s.len() ==> key_lt(k, s[i].0),
    ensures
        sorted(s.insert(i, (k, v))),
        contents(s.insert(i, (k, v))) == contents(s).insert(k, v),
{
    let t = s.insert(i, (k, v));
    assert forall|a: int, b: int| 0 <= a < b < t.len() implies key_lt(
        #[trigger] t[a].0,
        #[trigger] t[b].0,
    ) by {
        if a < i && b == i {
        } else if a < i && b > i {
            assert(t[b] == s[b - 1]);
            lemma_key_lt_order(s[a].0, k, s[b - 1].0);
            if b - 1 > i {
                assert(key_lt(s[i].0, s[b - 1].0));
                lemma_key_lt_order(k, s[i].0, s[b - 1].0);
            }
        } else if a == i {
            assert(t[b] == s[b - 1]);
            if b - 1 > i {
                assert(key_lt(s[i].0, s[b - 1].0));
                lemma_key_lt_order(k, s[i].0, s[b - 1].0);
            }
        } else if a > i {
            assert(t[a] == s[a - 1] && t[b] == s[b - 1]);
        }
    }
    assert forall|w: Word| #[trigger] contents(t).contains_key(w) <==> contents(s).insert(
        k,
        v,
    ).contains_key(w) by {
        if has_key(t, w) {
            let j = choose|j: int| 0 <= j < t.len() && #[trigger] t[j].0 == w;
            if j < i {
                assert(s[j].0 == w);
            } else if j > i {
                assert(s[j - 1].0 == w);
            }
        }
        if has_key(s, w) {
            let j = choose|j: int| 0 <= j < s.len() && #[trigger] s[j].0 == w;
            if j < i {
                assert(t[j].0 == w);
            } else {
                assert(t[j + 1].0 == w);
            }
        }
        assert(t[i].0 == k);
    }
    assert forall|w: Word| #[trigger] contents(t).contains_key(w) implies contents(t)[w]
        == contents(s).insert(k, v)[w] by {
        let j = choose|j: int| 0 <= j < t.len() && #[trigger] t[j].0 == w;
        lemma_contents_at(t, j);
        if j < i {
            lemma_contents_at(s, j);
            lemma_key_lt_order(w, k, w);
        } else if j > i {
            assert(t[j] == s[j - 1]);
            lemma_contents_at(s, j - 1);
            assert(key_lt(t[i].0, t[j].0));
            lemma_key_lt_order(w, k, w);
        }
    }
    assert(contents(t) =~= contents(s).insert(k, v));
}

/// Giving a present key a new value keeps the sequence sorted and updates the map.
pub proof fn lemma_contents_update(s: Seq<(Word, Word)>, i: int, v: Word)
    requires
        sorted(s),
        0 <= i < s.len(),
    ensures
        sorted(s.update(i, (s[i].0, v))),
        contents(s.update(i, (s[i].0, v))) == contents(s).insert(s[i].0, v),
{
    let k = s[i].0;
    let t = s.update(i, (k, v));
    assert forall|a: int, b: int| 0 <= a < b < t.len() implies key_lt(
        #[trigger] t[a].0,
        #[trigger] t[b].0,
    ) by {
        assert(t[a].0 == s[a].0 && t[b].0 == s[b].0);
    }
    assert forall|w: Word| #[trigger] contents(t).contains_key(w) <==> contents(s).insert(
        k,
        v,
    ).contains_key(w) by {
        if has_key(t, w) {
            let j = choose|j: int| 0 <= j < t.len() && #[trigger] t[j].0 == w;
            assert(s[j].0 == w);
        }
        if has_key(s, w) {
            let j = choose|j: int| 0 <= j < s.len() && #[trigger] s[j].0 == w;
            assert(t[j].0 == w);
        }
        assert(t[i].0 == k);
    }
    assert forall|w: Word| #[trigger] contents(t).contains_key(w) implies contents(t)[w]
        == contents(s).insert(k, v)[w] by {
        let j = choose|j: int| 0 <= j < t.len() && #[trigger] t[j].0 == w;
        lemma_contents_at(t, j);
        if j != i {
            lemma_contents_at(s, j);
            if j < i {
                assert(key_lt(s[j].0, s[i].0));
            } else {
                assert(key_lt(s[i].0, s[j].0));
            }
            lemma_key_lt_order(w, k, w);
        }
    }
    assert(contents(t) =~= contents(s).insert(k, v));
}

} // verus!

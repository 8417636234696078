//! The mathematical model of building and merging runs: an ordered entry
//! stream with adjacent duplicate keys is collapsed by timestamp, and two
//! sorted runs are interleaved so that on a full tie the newer run's entry
//! wins. The last-writer-wins theorem at the end is what the merge
//! operation promises.

use vstd::prelude::*;

use crate::order::{lex_lt, lemma_lex_trichotomy, lemma_lex_transitive};
use crate::sorted_map::{assoc_get, keys_sorted, lemma_assoc_absent, lemma_assoc_present};
use crate::value::TsvView;

verus! {

/// Whether keys ascend, duplicates allowed.
pub open spec fn keys_sorted_le(s: Seq<(Seq<char>, TsvView)>) -> bool {
    forall|i: int, j: int| 0 <= i < j < s.len() ==> !lex_lt(s[j].0, s[i].0)
}

/// Of two adjacent entries under one key, the one with the greater
/// timestamp; on a tie the second, which comes from the newer source.
pub open spec fn pair_winner(x: (Seq<char>, TsvView), y: (Seq<char>, TsvView)) -> (
    Seq<char>,
    TsvView,
) {
    if y.1.timestamp >= x.1.timestamp {
        y
    } else {
        x
    }
}

/// Collapses adjacent entries that share a key, the greater timestamp
/// winning and ties falling to the later entry.
pub open spec fn collapse(s: Seq<(Seq<char>, TsvView)>) -> Seq<(Seq<char>, TsvView)>
    decreases s.len(),
{
    if s.len() == 0 {
        Seq::empty()
    } else if s.len() == 1 {
        s
    } else if s[0].0 == s[1].0 {
        collapse(seq![pair_winner(s[0], s[1])] + s.skip(2))
    } else {
        seq![s[0]] + collapse(s.drop_first())
    }
}

/// Collapsing past a head whose key differs from the next key keeps the
/// head.
pub proof fn lemma_collapse_cons_distinct(x: (Seq<char>, TsvView), t: Seq<(Seq<char>, TsvView)>)
    requires
        t.len() == 0 || x.0 != t[0].0,
    ensures
        collapse(seq![x] + t) == seq![x] + collapse(t),
{
    let s = seq![x] + t;
    assert(s[0] == x);
    if t.len() == 0 {
        assert(s.len() == 1);
        assert(collapse(s) == s);
        assert(s =~= seq![x] + collapse(t));
    } else {
        assert(s[1] == t[0]);
        assert(s.drop_first() =~= t);
    }
}

/// Collapsing a pair under one key collapses to its winner.
pub proof fn lemma_collapse_cons_pair(s: Seq<(Seq<char>, TsvView)>)
    requires
        s.len() >= 2,
        s[0].0 == s[1].0,
    ensures
        collapse(s) == collapse(seq![pair_winner(s[0], s[1])] + s.skip(2)),
{
}

/// A strictly sorted sequence collapses to itself.
pub proof fn lemma_collapse_strict_id(s: Seq<(Seq<char>, TsvView)>)
    requires
        keys_sorted(s),
    ensures
        collapse(s) == s,
    decreases s.len(),
{
    if s.len() >= 2 {
        assert(lex_lt(s[0].0, s[1].0));
        lemma_lex_trichotomy(s[0].0, s[1].0);
        assert(forall|i: int, j: int|
            0 <= i < j < s.drop_first().len() ==> lex_lt(
                s.drop_first()[i].0,
                s.drop_first()[j].0,
            ));
        lemma_collapse_strict_id(s.drop_first());
        assert(seq![s[0]] + s.drop_first() =~= s);
    }
}

/// The two-run interleave: ascending by key; when keys tie, the first
/// stream's entry is taken first, so that the collapse hands the win to
/// the second stream.
pub open spec fn merge_seq(
    a: Seq<(Seq<char>, TsvView)>,
    b: Seq<(Seq<char>, TsvView)>,
) -> Seq<(Seq<char>, TsvView)>
    decreases a.len() + b.len(),
{
    if a.len() == 0 {
        b
    } else if b.len() == 0 {
        a
    } else if lex_lt(b[0].0, a[0].0) {
        seq![b[0]] + merge_seq(a, b.drop_first())
    } else {
        seq![a[0]] + merge_seq(a.drop_first(), b)
    }
}

pub proof fn lemma_merge_seq_len(a: Seq<(Seq<char>, TsvView)>, b: Seq<(Seq<char>, TsvView)>)
    ensures
        merge_seq(a, b).len() == a.len() + b.len(),
    decreases a.len() + b.len(),
{
    if a.len() != 0 && b.len() != 0 {
        if lex_lt(b[0].0, a[0].0) {
            lemma_merge_seq_len(a, b.drop_first());
        } else {
            lemma_merge_seq_len(a.drop_first(), b);
        }
    }
}

/// How the winner of a key is chosen between two runs: the entry with the
/// greater timestamp; on a tie, the second run's entry.
pub open spec fn lww_pick(x: Option<TsvView>, y: Option<TsvView>) -> Option<TsvView> {
    match (x, y) {
        (Option::None, Option::None) => None,
        (Option::Some(v), Option::None) => Some(v),
        (Option::None, Option::Some(w)) => Some(w),
        (Option::Some(v), Option::Some(w)) => if w.timestamp >= v.timestamp {
            Some(w)
        } else {
            Some(v)
        },
    }
}

/// Below the least key of a sorted sequence nothing is found.
pub proof fn lemma_assoc_below_min<T>(s: Seq<(Seq<char>, T)>, k: Seq<char>)
    requires
        keys_sorted(s),
        s.len() == 0 || lex_lt(k, s[0].0),
    ensures
        assoc_get(s, k) is None,
{
    assert forall|i: int| 0 <= i < s.len() implies s[i].0 != k by {
        if i == 0 {
            lemma_lex_trichotomy(k, s[0].0);
        } else {
            assert(lex_lt(s[0].0, s[i].0));
            lemma_lex_transitive(k, s[0].0, s[i].0);
            lemma_lex_trichotomy(k, s[i].0);
        }
    }
    lemma_assoc_absent(s, k);
}

pub proof fn lemma_sorted_drop_first<T>(s: Seq<(Seq<char>, T)>)
    requires
        keys_sorted(s),
        s.len() > 0,
    ensures
        keys_sorted(s.drop_first()),
{
    assert forall|i: int, j: int|
        0 <= i < j < s.drop_first().len() implies lex_lt(
        s.drop_first()[i].0,
        s.drop_first()[j].0,
    ) by {
        assert(s.drop_first()[i] == s[i + 1]);
        assert(s.drop_first()[j] == s[j + 1]);
    }
}

/// Last writer wins: merging two sorted runs and collapsing yields, for
/// every key, the entry the timestamp rule picks; keys present in neither
/// run stay absent, and the result is sorted.
pub proof fn lemma_merge_lww(a: Seq<(Seq<char>, TsvView)>, b: Seq<(Seq<char>, TsvView)>)
    requires
        keys_sorted(a),
        keys_sorted(b),
    ensures
        keys_sorted(collapse(merge_seq(a, b))),
        forall|k: Seq<char>|
            #[trigger] assoc_get(collapse(merge_seq(a, b)), k) == lww_pick(
                assoc_get(a, k),
                assoc_get(b, k),
            ),
        forall|j: int|
            0 <= j < collapse(merge_seq(a, b)).len() ==> assoc_get(
                a,
                #[trigger] collapse(merge_seq(a, b))[j].0,
            ) is Some || assoc_get(b, collapse(merge_seq(a, b))[j].0) is Some,
    decreases a.len() + b.len(), 1int,
{
    let r = collapse(merge_seq(a, b));
    if a.len() == 0 {
        assert(merge_seq(a, b) == b);
        lemma_collapse_strict_id(b);
        assert forall|k: Seq<char>|
            #[trigger] assoc_get(r, k) == lww_pick(assoc_get(a, k), assoc_get(b, k)) by {
            assert(assoc_get(a, k) is None);
        }
        assert forall|j: int|
            0 <= j < r.len() implies assoc_get(a, #[trigger] r[j].0) is Some || assoc_get(
            b,
            r[j].0,
        ) is Some by {
            crate::sorted_map::lemma_assoc_at(b, j);
        }
    } else if b.len() == 0 {
        assert(merge_seq(a, b) == a);
        lemma_collapse_strict_id(a);
        assert forall|k: Seq<char>|
            #[trigger] assoc_get(r, k) == lww_pick(assoc_get(a, k), assoc_get(b, k)) by {
            assert(assoc_get(b, k) is None);
        }
        assert forall|j: int|
            0 <= j < r.len() implies assoc_get(a, #[trigger] r[j].0) is Some || assoc_get(
            b,
            r[j].0,
        ) is Some by {
            crate::sorted_map::lemma_assoc_at(a, j);
        }
    } else if lex_lt(b[0].0, a[0].0) {
        lemma_merge_one_side(a, b);
    } else if lex_lt(a[0].0, b[0].0) {
        lemma_merge_one_side_a(a, b);
    } else {
        lemma_lex_trichotomy(a[0].0, b[0].0);
        assert(a[0].0 == b[0].0);
        lemma_merge_equal_heads(a, b);
    }
}

/// The case where the second run holds the strictly least key.
proof fn lemma_merge_one_side(a: Seq<(Seq<char>, TsvView)>, b: Seq<(Seq<char>, TsvView)>)
    requires
        keys_sorted(a),
        keys_sorted(b),
        a.len() > 0,
        b.len() > 0,
        lex_lt(b[0].0, a[0].0),
    ensures
        keys_sorted(collapse(merge_seq(a, b))),
        forall|k: Seq<char>|
            #[trigger] assoc_get(collapse(merge_seq(a, b)), k) == lww_pick(
                assoc_get(a, k),
                assoc_get(b, k),
            ),
        forall|j: int|
            0 <= j < collapse(merge_seq(a, b)).len() ==> assoc_get(
                a,
                #[trigger] collapse(merge_seq(a, b))[j].0,
            ) is Some || assoc_get(b, collapse(merge_seq(a, b))[j].0) is Some,
    decreases a.len() + b.len(), 0int,
{
    let b1 = b.drop_first();
    let m = merge_seq(a, b1);
    let t = collapse(m);
    let r = collapse(merge_seq(a, b));
    lemma_sorted_drop_first(b);
    lemma_merge_lww(a, b1);
    // every key of t lies strictly above b[0].0
    assert forall|j: int| 0 <= j < t.len() implies lex_lt(b[0].0, #[trigger] t[j].0) by {
        lemma_key_above(a, b1, b[0].0, t[j].0);
    }
    // so the head stays distinct under collapse
    if t.len() > 0 {
        lemma_lex_trichotomy(b[0].0, t[0].0);
    }
    if m.len() > 0 {
        lemma_merge_head(a, b1, b[0].0);
        lemma_lex_trichotomy(b[0].0, m[0].0);
    }
    lemma_collapse_cons_distinct(b[0], m);
    assert(merge_seq(a, b) == seq![b[0]] + m);
    assert(r =~= seq![b[0]] + t);
    // sortedness
    assert forall|i: int, j: int| 0 <= i < j < r.len() implies lex_lt(r[i].0, r[j].0) by {
        if i == 0 {
            assert(r[j] == t[j - 1]);
        } else {
            assert(r[i] == t[i - 1] && r[j] == t[j - 1]);
        }
    }
    // lookups
    assert forall|k: Seq<char>|
        #[trigger] assoc_get(r, k) == lww_pick(assoc_get(a, k), assoc_get(b, k)) by {
        crate::sorted_map::lemma_assoc_concat(seq![b[0]], t, k);
        assert(seq![b[0]].drop_first() =~= Seq::<(Seq<char>, TsvView)>::empty());
        if k == b[0].0 {
            lemma_assoc_below_min(a, k);
            assert(assoc_get(b, k) == Some(b[0].1));
            assert(assoc_get(r, k) == Some(b[0].1));
        } else {
            assert(assoc_get(Seq::<(Seq<char>, TsvView)>::empty(), k) is None);
            assert(assoc_get(seq![b[0]], k) is None);
            assert(assoc_get(r, k) == assoc_get(t, k));
            assert(assoc_get(b, k) == assoc_get(b1, k));
        }
    }
    assert forall|j: int|
        0 <= j < r.len() implies assoc_get(a, #[trigger] r[j].0) is Some || assoc_get(
        b,
        r[j].0,
    ) is Some by {
        if j == 0 {
            assert(r[0].0 == b[0].0);
            assert(assoc_get(b, b[0].0) == Some(b[0].1));
        } else {
            assert(r[j] == t[j - 1]);
            assert(assoc_get(a, t[j - 1].0) is Some || assoc_get(b1, t[j - 1].0) is Some);
            if assoc_get(b1, t[j - 1].0) is Some {
                assert(t[j - 1].0 != b[0].0) by {
                    lemma_lex_trichotomy(b[0].0, t[j - 1].0);
                }
                assert(assoc_get(b, t[j - 1].0) == assoc_get(b1, t[j - 1].0));
            }
        }
    }
}

/// The case where the first run holds the strictly least key.
proof fn lemma_merge_one_side_a(a: Seq<(Seq<char>, TsvView)>, b: Seq<(Seq<char>, TsvView)>)
    requires
        keys_sorted(a),
        keys_sorted(b),
        a.len() > 0,
        b.len() > 0,
        lex_lt(a[0].0, b[0].0),
    ensures
        keys_sorted(collapse(merge_seq(a, b))),
        forall|k: Seq<char>|
            #[trigger] assoc_get(collapse(merge_seq(a, b)), k) == lww_pick(
                assoc_get(a, k),
                assoc_get(b, k),
            ),
        forall|j: int|
            0 <= j < collapse(merge_seq(a, b)).len() ==> assoc_get(
                a,
                #[trigger] collapse(merge_seq(a, b))[j].0,
            ) is Some || assoc_get(b, collapse(merge_seq(a, b))[j].0) is Some,
    decreases a.len() + b.len(), 0int,
{
    let a1 = a.drop_first();
    let m = merge_seq(a1, b);
    let t = collapse(m);
    let r = collapse(merge_seq(a, b));
    lemma_sorted_drop_first(a);
    lemma_merge_lww(a1, b);
    lemma_lex_trichotomy(b[0].0, a[0].0);
    assert(!lex_lt(b[0].0, a[0].0));
    assert(merge_seq(a, b) == seq![a[0]] + m);
    assert forall|j: int| 0 <= j < t.len() implies lex_lt(a[0].0, #[trigger] t[j].0) by {
        lemma_key_above_both(a1, b, a[0].0, t[j].0);
    }
    if t.len() > 0 {
        lemma_lex_trichotomy(a[0].0, t[0].0);
    }
    if m.len() > 0 {
        lemma_merge_head_both(a1, b, a[0].0);
        lemma_lex_trichotomy(a[0].0, m[0].0);
    }
    lemma_collapse_cons_distinct(a[0], m);
    assert(r =~= seq![a[0]] + t);
    assert forall|i: int, j: int| 0 <= i < j < r.len() implies lex_lt(r[i].0, r[j].0) by {
        if i == 0 {
            assert(r[j] == t[j - 1]);
        } else {
            assert(r[i] == t[i - 1] && r[j] == t[j - 1]);
        }
    }
    assert forall|k: Seq<char>|
        #[trigger] assoc_get(r, k) == lww_pick(assoc_get(a, k), assoc_get(b, k)) by {
        crate::sorted_map::lemma_assoc_concat(seq![a[0]], t, k);
        assert(seq![a[0]].drop_first() =~= Seq::<(Seq<char>, TsvView)>::empty());
        if k == a[0].0 {
            lemma_assoc_below_min(b, k);
            assert(assoc_get(a, k) == Some(a[0].1));
            assert(assoc_get(r, k) == Some(a[0].1));
        } else {
            assert(assoc_get(Seq::<(Seq<char>, TsvView)>::empty(), k) is None);
            assert(assoc_get(seq![a[0]], k) is None);
            assert(assoc_get(r, k) == assoc_get(t, k));
            assert(assoc_get(a, k) == assoc_get(a1, k));
        }
    }
    assert forall|j: int|
        0 <= j < r.len() implies assoc_get(a, #[trigger] r[j].0) is Some || assoc_get(
        b,
        r[j].0,
    ) is Some by {
        if j == 0 {
            assert(r[0].0 == a[0].0);
            assert(assoc_get(a, a[0].0) == Some(a[0].1));
        } else {
            assert(r[j] == t[j - 1]);
            assert(assoc_get(a1, t[j - 1].0) is Some || assoc_get(b, t[j - 1].0) is Some);
            if assoc_get(a1, t[j - 1].0) is Some {
                assert(t[j - 1].0 != a[0].0) by {
                    lemma_lex_trichotomy(a[0].0, t[j - 1].0);
                }
                assert(assoc_get(a, t[j - 1].0) == assoc_get(a1, t[j - 1].0));
            }
        }
    }
}

/// The case where both runs open with the same key: the pair collapses to
/// the entry the timestamp rule picks, the second run winning ties.
proof fn lemma_merge_equal_heads(a: Seq<(Seq<char>, TsvView)>, b: Seq<(Seq<char>, TsvView)>)
    requires
        keys_sorted(a),
        keys_sorted(b),
        a.len() > 0,
        b.len() > 0,
        a[0].0 == b[0].0,
    ensures
        keys_sorted(collapse(merge_seq(a, b))),
        forall|k: Seq<char>|
            #[trigger] assoc_get(collapse(merge_seq(a, b)), k) == lww_pick(
                assoc_get(a, k),
                assoc_get(b, k),
            ),
        forall|j: int|
            0 <= j < collapse(merge_seq(a, b)).len() ==> assoc_get(
                a,
                #[trigger] collapse(merge_seq(a, b))[j].0,
            ) is Some || assoc_get(b, collapse(merge_seq(a, b))[j].0) is Some,
    decreases a.len() + b.len(), 0int,
{
    let k0 = a[0].0;
    let a1 = a.drop_first();
    let b1 = b.drop_first();
    let w = pair_winner(a[0], b[0]);
    let m = merge_seq(a1, b1);
    let t = collapse(m);
    let r = collapse(merge_seq(a, b));
    lemma_sorted_drop_first(a);
    lemma_sorted_drop_first(b);
    lemma_merge_lww(a1, b1);
    lemma_lex_trichotomy(b[0].0, a[0].0);
    // merge_seq(a, b) begins a[0], b[0]
    assert(merge_seq(a, b) == seq![a[0]] + merge_seq(a1, b));
    if a1.len() == 0 {
        assert(merge_seq(a1, b) == b);
    } else {
        assert(lex_lt(k0, a1[0].0));
        lemma_lex_trichotomy(b[0].0, a1[0].0);
        assert(lex_lt(b[0].0, a1[0].0));
    }
    assert(merge_seq(a1, b) == seq![b[0]] + m);
    let full = merge_seq(a, b);
    assert(full =~= seq![a[0], b[0]] + m);
    assert(full[0] == a[0] && full[1] == b[0]);
    assert(full[0].0 == full[1].0);
    lemma_collapse_cons_pair(full);
    assert(seq![pair_winner(full[0], full[1])] + full.skip(2) =~= seq![w] + m);
    assert(r == collapse(seq![w] + m));
    assert forall|j: int| 0 <= j < t.len() implies lex_lt(k0, #[trigger] t[j].0) by {
        lemma_key_above_both(a1, b1, k0, t[j].0);
    }
    if m.len() > 0 {
        lemma_merge_head_both(a1, b1, k0);
        lemma_lex_trichotomy(k0, m[0].0);
    }
    if t.len() > 0 {
        lemma_lex_trichotomy(k0, t[0].0);
    }
    lemma_collapse_cons_distinct(w, m);
    assert(r =~= seq![w] + t);
    assert(w.0 == k0);
    assert forall|i: int, j: int| 0 <= i < j < r.len() implies lex_lt(r[i].0, r[j].0) by {
        if i == 0 {
            assert(r[j] == t[j - 1]);
        } else {
            assert(r[i] == t[i - 1] && r[j] == t[j - 1]);
        }
    }
    assert forall|k: Seq<char>|
        #[trigger] assoc_get(r, k) == lww_pick(assoc_get(a, k), assoc_get(b, k)) by {
        crate::sorted_map::lemma_assoc_concat(seq![w], t, k);
        assert(seq![w].drop_first() =~= Seq::<(Seq<char>, TsvView)>::empty());
        if k == k0 {
            assert(assoc_get(a, k) == Some(a[0].1));
            assert(assoc_get(b, k) == Some(b[0].1));
            assert(assoc_get(r, k) == Some(w.1));
        } else {
            assert(assoc_get(Seq::<(Seq<char>, TsvView)>::empty(), k) is None);
            assert(assoc_get(seq![w], k) is None);
            assert(assoc_get(r, k) == assoc_get(t, k));
            assert(assoc_get(a, k) == assoc_get(a1, k));
            assert(assoc_get(b, k) == assoc_get(b1, k));
        }
    }
    assert forall|j: int|
        0 <= j < r.len() implies assoc_get(a, #[trigger] r[j].0) is Some || assoc_get(
        b,
        r[j].0,
    ) is Some by {
        if j == 0 {
            assert(r[0].0 == k0);
            assert(assoc_get(a, k0) == Some(a[0].1));
        } else {
            assert(r[j] == t[j - 1]);
            assert(assoc_get(a1, t[j - 1].0) is Some || assoc_get(b1, t[j - 1].0) is Some);
            assert(t[j - 1].0 != k0) by {
                lemma_lex_trichotomy(k0, t[j - 1].0);
            }
            if assoc_get(a1, t[j - 1].0) is Some {
                assert(assoc_get(a, t[j - 1].0) == assoc_get(a1, t[j - 1].0));
            } else {
                assert(assoc_get(b, t[j - 1].0) == assoc_get(b1, t[j - 1].0));
            }
        }
    }
}

/// A key found in either of two runs whose keys all lie above k0 lies
/// above k0. Here the second run's head alone is known to lie above.
proof fn lemma_key_above(
    a: Seq<(Seq<char>, TsvView)>,
    b1: Seq<(Seq<char>, TsvView)>,
    k0: Seq<char>,
    k: Seq<char>,
)
    requires
        keys_sorted(a),
        keys_sorted(b1),
        a.len() > 0,
        lex_lt(k0, a[0].0),
        b1.len() > 0 ==> lex_lt(k0, b1[0].0),
        assoc_get(a, k) is Some || assoc_get(b1, k) is Some,
    ensures
        lex_lt(k0, k),
{
    if assoc_get(a, k) is Some {
        lemma_assoc_present(a, k);
        let i = choose|i: int| 0 <= i < a.len() && a[i].0 == k;
        if i > 0 {
            assert(lex_lt(a[0].0, a[i].0));
            lemma_lex_transitive(k0, a[0].0, a[i].0);
        }
    } else {
        lemma_assoc_present(b1, k);
        let i = choose|i: int| 0 <= i < b1.len() && b1[i].0 == k;
        if i > 0 {
            assert(lex_lt(b1[0].0, b1[i].0));
            lemma_lex_transitive(k0, b1[0].0, b1[i].0);
        }
    }
}

/// As lemma_key_above, with both runs' heads above k0.
proof fn lemma_key_above_both(
    a1: Seq<(Seq<char>, TsvView)>,
    b1: Seq<(Seq<char>, TsvView)>,
    k0: Seq<char>,
    k: Seq<char>,
)
    requires
        keys_sorted(a1),
        keys_sorted(b1),
        a1.len() > 0 ==> lex_lt(k0, a1[0].0),
        b1.len() > 0 ==> lex_lt(k0, b1[0].0),
        assoc_get(a1, k) is Some || assoc_get(b1, k) is Some,
    ensures
        lex_lt(k0, k),
{
    if assoc_get(a1, k) is Some {
        lemma_assoc_present(a1, k);
        let i = choose|i: int| 0 <= i < a1.len() && a1[i].0 == k;
        if i > 0 {
            assert(lex_lt(a1[0].0, a1[i].0));
            lemma_lex_transitive(k0, a1[0].0, a1[i].0);
        }
    } else {
        lemma_assoc_present(b1, k);
        let i = choose|i: int| 0 <= i < b1.len() && b1[i].0 == k;
        if i > 0 {
            assert(lex_lt(b1[0].0, b1[i].0));
            lemma_lex_transitive(k0, b1[0].0, b1[i].0);
        }
    }
}

/// The head key of a merge of two runs above k0 lies above k0.
proof fn lemma_merge_head(
    a: Seq<(Seq<char>, TsvView)>,
    b1: Seq<(Seq<char>, TsvView)>,
    k0: Seq<char>,
)
    requires
        a.len() > 0,
        lex_lt(k0, a[0].0),
        b1.len() > 0 ==> lex_lt(k0, b1[0].0),
        merge_seq(a, b1).len() > 0,
    ensures
        lex_lt(k0, merge_seq(a, b1)[0].0),
{
    if b1.len() == 0 {
        assert(merge_seq(a, b1) == a);
    } else if lex_lt(b1[0].0, a[0].0) {
        assert(merge_seq(a, b1)[0] == b1[0]);
    } else {
        assert(merge_seq(a, b1)[0] == a[0]);
    }
}

/// As lemma_merge_head, with either run possibly empty.
proof fn lemma_merge_head_both(
    a1: Seq<(Seq<char>, TsvView)>,
    b1: Seq<(Seq<char>, TsvView)>,
    k0: Seq<char>,
)
    requires
        a1.len() > 0 ==> lex_lt(k0, a1[0].0),
        b1.len() > 0 ==> lex_lt(k0, b1[0].0),
        merge_seq(a1, b1).len() > 0,
    ensures
        lex_lt(k0, merge_seq(a1, b1)[0].0),
{
    if a1.len() == 0 {
        assert(merge_seq(a1, b1) == b1);
    } else if b1.len() == 0 {
        assert(merge_seq(a1, b1) == a1);
    } else if lex_lt(b1[0].0, a1[0].0) {
        assert(merge_seq(a1, b1)[0] == b1[0]);
    } else {
        assert(merge_seq(a1, b1)[0] == a1[0]);
    }
}

} // verus!

verus! {

/// Every key of a merge of two runs bounded below stays bounded below.
proof fn lemma_merge_seq_lower_bound(
    a: Seq<(Seq<char>, TsvView)>,
    b: Seq<(Seq<char>, TsvView)>,
    k0: Seq<char>,
)
    requires
        keys_sorted(a),
        keys_sorted(b),
        a.len() > 0 ==> !lex_lt(a[0].0, k0),
        b.len() > 0 ==> !lex_lt(b[0].0, k0),
    ensures
        forall|j: int| 0 <= j < merge_seq(a, b).len() ==> !lex_lt(
            #[trigger] merge_seq(a, b)[j].0,
            k0,
        ),
    decreases a.len() + b.len(),
{
    let m = merge_seq(a, b);
    if a.len() == 0 {
        assert(m == b);
        assert forall|j: int| 0 <= j < m.len() implies !lex_lt(#[trigger] m[j].0, k0) by {
            if j > 0 {
                assert(lex_lt(b[0].0, b[j].0));
                if lex_lt(b[j].0, k0) {
                    if lex_lt(b[0].0, k0) {
                    } else {
                        lemma_lex_trichotomy(b[0].0, k0);
                        if k0 == b[0].0 {
                            lemma_lex_trichotomy(b[j].0, k0);
                        } else {
                            lemma_lex_transitive(k0, b[0].0, b[j].0);
                            lemma_lex_trichotomy(b[j].0, k0);
                        }
                    }
                }
            }
        }
    } else if b.len() == 0 {
        assert(m == a);
        assert forall|j: int| 0 <= j < m.len() implies !lex_lt(#[trigger] m[j].0, k0) by {
            if j > 0 {
                assert(lex_lt(a[0].0, a[j].0));
                if lex_lt(a[j].0, k0) {
                    lemma_lex_trichotomy(a[0].0, k0);
                    if k0 == a[0].0 {
                        lemma_lex_trichotomy(a[j].0, k0);
                    } else {
                        lemma_lex_transitive(k0, a[0].0, a[j].0);
                        lemma_lex_trichotomy(a[j].0, k0);
                    }
                }
            }
        }
    } else if lex_lt(b[0].0, a[0].0) {
        lemma_sorted_drop_first(b);
        if b.drop_first().len() > 0 {
            assert(lex_lt(b[0].0, b.drop_first()[0].0));
            lemma_not_below(b[0].0, b.drop_first()[0].0, k0);
        }
        lemma_merge_seq_lower_bound(a, b.drop_first(), k0);
        assert(m == seq![b[0]] + merge_seq(a, b.drop_first()));
        assert forall|j: int| 0 <= j < m.len() implies !lex_lt(#[trigger] m[j].0, k0) by {
            if j > 0 {
                assert(m[j] == merge_seq(a, b.drop_first())[j - 1]);
            }
        }
    } else {
        lemma_sorted_drop_first(a);
        if a.drop_first().len() > 0 {
            assert(lex_lt(a[0].0, a.drop_first()[0].0));
            lemma_not_below(a[0].0, a.drop_first()[0].0, k0);
        }
        lemma_merge_seq_lower_bound(a.drop_first(), b, k0);
        assert(m == seq![a[0]] + merge_seq(a.drop_first(), b));
        assert forall|j: int| 0 <= j < m.len() implies !lex_lt(#[trigger] m[j].0, k0) by {
            if j > 0 {
                assert(m[j] == merge_seq(a.drop_first(), b)[j - 1]);
            }
        }
    }
}

/// From a lower bound and a strict step, the stepped key keeps the bound.
proof fn lemma_not_below(x: Seq<char>, y: Seq<char>, k0: Seq<char>)
    requires
        !lex_lt(x, k0),
        lex_lt(x, y),
    ensures
        !lex_lt(y, k0),
{
    if lex_lt(y, k0) {
        lemma_lex_transitive(x, y, k0);
    }
}

/// The interleave of two sorted runs ascends, duplicates allowed.
pub proof fn lemma_merge_seq_sorted_le(a: Seq<(Seq<char>, TsvView)>, b: Seq<(Seq<char>, TsvView)>)
    requires
        keys_sorted(a),
        keys_sorted(b),
    ensures
        keys_sorted_le(merge_seq(a, b)),
    decreases a.len() + b.len(),
{
    let m = merge_seq(a, b);
    if a.len() == 0 {
        assert(m == b);
        assert forall|i: int, j: int| 0 <= i < j < m.len() implies !lex_lt(m[j].0, m[i].0) by {
            assert(lex_lt(b[i].0, b[j].0));
            lemma_lex_trichotomy(b[i].0, b[j].0);
        }
    } else if b.len() == 0 {
        assert(m == a);
        assert forall|i: int, j: int| 0 <= i < j < m.len() implies !lex_lt(m[j].0, m[i].0) by {
            assert(lex_lt(a[i].0, a[j].0));
            lemma_lex_trichotomy(a[i].0, a[j].0);
        }
    } else if lex_lt(b[0].0, a[0].0) {
        lemma_sorted_drop_first(b);
        lemma_merge_seq_sorted_le(a, b.drop_first());
        let t = merge_seq(a, b.drop_first());
        assert(m == seq![b[0]] + t);
        lemma_lex_trichotomy(b[0].0, a[0].0);
        if b.drop_first().len() > 0 {
            assert(lex_lt(b[0].0, b.drop_first()[0].0));
            lemma_lex_trichotomy(b[0].0, b.drop_first()[0].0);
        }
        lemma_merge_seq_lower_bound(a, b.drop_first(), b[0].0);
        assert forall|i: int, j: int| 0 <= i < j < m.len() implies !lex_lt(m[j].0, m[i].0) by {
            if i == 0 {
                assert(m[j] == t[j - 1]);
            } else {
                assert(m[i] == t[i - 1] && m[j] == t[j - 1]);
            }
        }
    } else {
        lemma_sorted_drop_first(a);
        lemma_merge_seq_sorted_le(a.drop_first(), b);
        let t = merge_seq(a.drop_first(), b);
        assert(m == seq![a[0]] + t);
        lemma_lex_trichotomy(b[0].0, a[0].0);
        if a.drop_first().len() > 0 {
            assert(lex_lt(a[0].0, a.drop_first()[0].0));
            lemma_lex_trichotomy(a[0].0, a.drop_first()[0].0);
        }
        lemma_merge_seq_lower_bound(a.drop_first(), b, a[0].0);
        assert forall|i: int, j: int| 0 <= i < j < m.len() implies !lex_lt(m[j].0, m[i].0) by {
            if i == 0 {
                assert(m[j] == t[j - 1]);
            } else {
                assert(m[i] == t[i - 1] && m[j] == t[j - 1]);
            }
        }
    }
}

} // verus!

//! Ordered maps and sets backed by sorted vectors.
//!
//! The device model keys its tables by VLAN tag and by interface name, and
//! every observable iteration happens in ascending key order.  Each container
//! here keeps its keys strictly sorted as a type invariant and is specified
//! against an association-sequence model, so contracts can speak both about
//! lookup (`omap_get`) and about the exact iteration order (the model itself).

use vstd::prelude::*;
use crate::text::{lex_lt, lemma_lex_trichotomy, lemma_lex_trans, str_lt, str_eq};

verus! {

/// `lt` is a strict total order.
pub open spec fn is_strict_order<K>(lt: spec_fn(K, K) -> bool) -> bool {
    &&& forall|a: K, b: K| #[trigger] lt(a, b) ==> !lt(b, a) && a != b
    &&& forall|a: K, b: K| !(#[trigger] lt(a, b)) && !lt(b, a) ==> a == b
    &&& forall|a: K, b: K, c: K| #[trigger] lt(a, b) && #[trigger] lt(b, c) ==> lt(a, c)
}

/// Numeric order on `u32` keys.
pub open spec fn u32_lt() -> spec_fn(u32, u32) -> bool {
    |a: u32, b: u32| a < b
}

pub proof fn lemma_u32_lt_strict()
    ensures
        is_strict_order(u32_lt()),
{
}

/// Lexicographic order on string keys.
pub open spec fn name_lt() -> spec_fn(Seq<char>, Seq<char>) -> bool {
    |a: Seq<char>, b: Seq<char>| lex_lt(a, b)
}

pub proof fn lemma_name_lt_strict()
    ensures
        is_strict_order(name_lt()),
{
    assert forall|a: Seq<char>, b: Seq<char>| #[trigger] lex_lt(a, b) implies !lex_lt(b, a) && a
        != b by {
        lemma_lex_trichotomy(a, b);
    }
    assert forall|a: Seq<char>, b: Seq<char>| !(#[trigger] lex_lt(a, b)) && !lex_lt(b, a) implies a
        == b by {
        lemma_lex_trichotomy(a, b);
    }
    assert forall|a: Seq<char>, b: Seq<char>, c: Seq<char>|
        #[trigger] lex_lt(a, b) && #[trigger] lex_lt(b, c) implies lex_lt(a, c) by {
        lemma_lex_trans(a, b, c);
    }
}

// ---------------------------------------------------------------------------
// Association-sequence model operations
// ---------------------------------------------------------------------------
/// Keys strictly ascend under `lt`.
pub open spec fn omap_sorted<K, V>(s: Seq<(K, V)>, lt: spec_fn(K, K) -> bool) -> bool {
    forall|i: int, j: int| 0 <= i < j < s.len() ==> lt(#[trigger] s[i].0, #[trigger] s[j].0)
}

/// Value bound to `k`: the first pair whose key equals `k`.
pub open spec fn omap_get<K, V>(s: Seq<(K, V)>, k: K) -> Option<V>
    decreases s.len(),
{
    if s.len() == 0 {
        None
    } else if s[0].0 == k {
        Some(s[0].1)
    } else {
        omap_get(s.drop_first(), k)
    }
}

pub open spec fn omap_contains<K, V>(s: Seq<(K, V)>, k: K) -> bool {
    omap_get(s, k) is Some
}

/// Insert or replace, keeping keys sorted under `lt`.
pub open spec fn omap_insert<K, V>(s: Seq<(K, V)>, k: K, v: V, lt: spec_fn(K, K) -> bool) -> Seq<
    (K, V),
>
    decreases s.len(),
{
    if s.len() == 0 {
        seq![(k, v)]
    } else if lt(k, s[0].0) {
        seq![(k, v)] + s
    } else if k == s[0].0 {
        seq![(k, v)] + s.drop_first()
    } else {
        seq![s[0]] + omap_insert(s.drop_first(), k, v, lt)
    }
}

/// Remove the first pair whose key equals `k` (the only one, when sorted).
pub open spec fn omap_remove<K, V>(s: Seq<(K, V)>, k: K) -> Seq<(K, V)>
    decreases s.len(),
{
    if s.len() == 0 {
        s
    } else if s[0].0 == k {
        s.drop_first()
    } else {
        seq![s[0]] + omap_remove(s.drop_first(), k)
    }
}

pub proof fn lemma_omap_get_skip<K, V>(s: Seq<(K, V)>, k: K, i: int)
    requires
        0 <= i <= s.len(),
        forall|j: int| 0 <= j < i ==> s[j].0 != k,
    ensures
        omap_get(s, k) == omap_get(s.skip(i), k),
    decreases i,
{
    if i > 0 {
        assert(s.drop_first() =~= s.skip(1));
        lemma_omap_get_skip(s.skip(1), k, i - 1);
        assert(s.skip(1).skip(i - 1) =~= s.skip(i));
    } else {
        assert(s.skip(0) =~= s);
    }
}

/// Every entry of an insertion result carries the new value or an old entry.
pub proof fn lemma_omap_insert_vals<K, V>(s: Seq<(K, V)>, k: K, v: V, lt: spec_fn(K, K) -> bool)
    ensures
        forall|j: int|
            0 <= j < omap_insert(s, k, v, lt).len() ==> (#[trigger] omap_insert(s, k, v, lt)[j]).1
                == v || exists|i: int|
                0 <= i < s.len() && #[trigger] s[i] == omap_insert(s, k, v, lt)[j],
    decreases s.len(),
{
    let r = omap_insert(s, k, v, lt);
    if s.len() == 0 {
        assert(r == seq![(k, v)]);
    } else if lt(k, s[0].0) {
        assert(r == seq![(k, v)] + s);
        assert forall|j: int| #![trigger r[j]]
            0 < j < r.len() implies exists|i: int| 0 <= i < s.len() && #[trigger] s[i] == r[j] by {
            assert(s[j - 1] == r[j]);
        }
    } else if k == s[0].0 {
        assert(r == seq![(k, v)] + s.drop_first());
        assert forall|j: int| #![trigger r[j]]
            0 < j < r.len() implies exists|i: int| 0 <= i < s.len() && #[trigger] s[i] == r[j] by {
            assert(s[j] == r[j]);
        }
    } else {
        let t = s.drop_first();
        lemma_omap_insert_vals(t, k, v, lt);
        let rt = omap_insert(t, k, v, lt);
        assert(r == seq![s[0]] + rt);
        assert forall|j: int|
            0 <= j < r.len() implies (#[trigger] r[j]).1 == v || exists|i: int|
            0 <= i < s.len() && #[trigger] s[i] == r[j] by {
            if j == 0 {
                assert(s[0] == r[0]);
            } else {
                assert(r[j] == rt[j - 1]);
                if rt[j - 1].1 == v {
                } else {
                    let i0 = choose|i0: int| 0 <= i0 < t.len() && #[trigger] t[i0] == rt[j - 1];
                    assert(s[i0 + 1] == r[j]);
                }
            }
        }
    }
}

/// Every entry of a removal result is an entry of the original sequence.
pub proof fn lemma_omap_remove_vals<K, V>(s: Seq<(K, V)>, k: K)
    ensures
        forall|j: int| #![trigger omap_remove(s, k)[j]]
            0 <= j < omap_remove(s, k).len() ==> exists|i: int|
                0 <= i < s.len() && #[trigger] s[i] == omap_remove(s, k)[j],
    decreases s.len(),
{
    let r = omap_remove(s, k);
    if s.len() == 0 {
    } else if s[0].0 == k {
        assert forall|j: int| #![trigger r[j]]
            0 <= j < r.len() implies exists|i: int| 0 <= i < s.len() && #[trigger] s[i]
            == r[j] by {
            assert(s[j + 1] == r[j]);
        }
    } else {
        let t = s.drop_first();
        lemma_omap_remove_vals(t, k);
        let rt = omap_remove(t, k);
        assert(r == seq![s[0]] + rt);
        assert forall|j: int| #![trigger r[j]]
            0 <= j < r.len() implies exists|i: int| 0 <= i < s.len() && #[trigger] s[i]
            == r[j] by {
            if j == 0 {
                assert(s[0] == r[0]);
            } else {
                assert(r[j] == rt[j - 1]);
                let i0 = choose|i0: int| 0 <= i0 < t.len() && #[trigger] t[i0] == rt[j - 1];
                assert(s[i0 + 1] == r[j]);
            }
        }
    }
}

/// A successful lookup names an actual entry of the sequence.
pub proof fn lemma_omap_get_index<K, V>(s: Seq<(K, V)>, k: K)
    requires
        omap_get(s, k) is Some,
    ensures
        exists|i: int| 0 <= i < s.len() && #[trigger] s[i] == (k, omap_get(s, k)->0),
    decreases s.len(),
{
    if s[0].0 == k {
        assert(s[0] == (k, omap_get(s, k)->0));
    } else {
        lemma_omap_get_index(s.drop_first(), k);
        let i = choose|i: int|
            0 <= i < s.drop_first().len() && #[trigger] s.drop_first()[i] == (
            k,
            omap_get(s.drop_first(), k)->0,
            );
        assert(s[i + 1] == (k, omap_get(s, k)->0));
    }
}

/// Positional characterization of `omap_insert` at the first position whose
/// key is not below `k`.
pub proof fn lemma_omap_insert_at<K, V>(
    s: Seq<(K, V)>,
    k: K,
    v: V,
    lt: spec_fn(K, K) -> bool,
    pos: int,
)
    requires
        is_strict_order(lt),
        omap_sorted(s, lt),
        0 <= pos <= s.len(),
        forall|i: int| 0 <= i < pos ==> lt(#[trigger] s[i].0, k),
        pos < s.len() ==> !lt(s[pos].0, k),
    ensures
        pos < s.len() && s[pos].0 == k ==> omap_insert(s, k, v, lt) == s.update(pos, (k, v)),
        !(pos < s.len() && s[pos].0 == k) ==> omap_insert(s, k, v, lt) == s.insert(pos, (k, v)),
    decreases s.len(),
{
    if s.len() == 0 {
        assert(omap_insert(s, k, v, lt) =~= s.insert(0, (k, v)));
    } else if pos == 0 {
        if s[0].0 == k {
            assert(omap_insert(s, k, v, lt) == seq![(k, v)] + s.drop_first());
            assert(seq![(k, v)] + s.drop_first() =~= s.update(0, (k, v)));
        } else {
            assert(lt(k, s[0].0));
            assert(seq![(k, v)] + s =~= s.insert(0, (k, v)));
        }
    } else {
        assert(lt(s[0].0, k));
        assert(!lt(k, s[0].0) && k != s[0].0);
        let t = s.drop_first();
        assert(omap_sorted(t, lt)) by {
            assert(forall|i: int, j: int|
                0 <= i < j < t.len() ==> lt(#[trigger] t[i].0, #[trigger] t[j].0)) by {
                assert(forall|i: int| 0 <= i < t.len() ==> t[i] == s[i + 1]);
            }
        }
        assert(forall|i: int| 0 <= i < pos - 1 ==> lt(#[trigger] t[i].0, k));
        lemma_omap_insert_at(t, k, v, lt, pos - 1);
        if pos < s.len() && s[pos].0 == k {
            assert(t[pos - 1].0 == k);
            assert(seq![s[0]] + t.update(pos - 1, (k, v)) =~= s.update(pos, (k, v)));
        } else {
            assert(seq![s[0]] + t.insert(pos - 1, (k, v)) =~= s.insert(pos, (k, v)));
        }
    }
}

/// Positional characterization of `omap_remove`.
pub proof fn lemma_omap_remove_at<K, V>(s: Seq<(K, V)>, k: K, pos: int)
    requires
        0 <= pos < s.len(),
        s[pos].0 == k,
        forall|i: int| 0 <= i < pos ==> s[i].0 != k,
    ensures
        omap_remove(s, k) == s.remove(pos),
    decreases s.len(),
{
    if pos == 0 {
        assert(s.drop_first() =~= s.remove(0));
    } else {
        let t = s.drop_first();
        lemma_omap_remove_at(t, k, pos - 1);
        assert(seq![s[0]] + t.remove(pos - 1) =~= s.remove(pos));
    }
}

/// What insertion does to lookups.
pub proof fn lemma_omap_insert_get<K, V>(s: Seq<(K, V)>, k: K, v: V, lt: spec_fn(K, K) -> bool)
    ensures
        omap_get(omap_insert(s, k, v, lt), k) == Some(v),
        forall|k2: K| k2 != k ==> omap_get(omap_insert(s, k, v, lt), k2) == omap_get(s, k2),
    decreases s.len(),
{
    let r = omap_insert(s, k, v, lt);
    if s.len() == 0 {
        assert(r == seq![(k, v)]);
        assert(r.drop_first() =~= Seq::<(K, V)>::empty());
        assert forall|k2: K| k2 != k implies omap_get(r, k2) == omap_get(s, k2) by {
            assert(omap_get(r, k2) == omap_get(r.drop_first(), k2));
        }
    } else if lt(k, s[0].0) {
        assert(r == seq![(k, v)] + s);
        assert(r.drop_first() =~= s);
        assert(r[0].0 == k);
        assert forall|k2: K| k2 != k implies omap_get(r, k2) == omap_get(s, k2) by {
            assert(omap_get(r, k2) == omap_get(r.drop_first(), k2));
        }
    } else if k == s[0].0 {
        assert(r == seq![(k, v)] + s.drop_first());
        assert(r.drop_first() =~= s.drop_first());
        assert(r[0].0 == k);
        assert forall|k2: K| k2 != k implies omap_get(r, k2) == omap_get(s, k2) by {
            assert(omap_get(r, k2) == omap_get(r.drop_first(), k2));
            assert(omap_get(s, k2) == omap_get(s.drop_first(), k2));
        }
    } else {
        let t = s.drop_first();
        lemma_omap_insert_get(t, k, v, lt);
        let rt = omap_insert(t, k, v, lt);
        assert(r == seq![s[0]] + rt);
        assert(r.drop_first() =~= rt);
        assert(r[0] == s[0]);
        assert(omap_get(r, k) == omap_get(rt, k));
        assert forall|k2: K| k2 != k implies omap_get(r, k2) == omap_get(s, k2) by {
            if k2 == s[0].0 {
                assert(omap_get(r, k2) == Some(r[0].1));
                assert(omap_get(s, k2) == Some(s[0].1));
            } else {
                assert(omap_get(r, k2) == omap_get(rt, k2));
                assert(omap_get(s, k2) == omap_get(t, k2));
            }
        }
    }
}

/// Insertion keeps the keys sorted.
pub proof fn lemma_omap_insert_sorted<K, V>(s: Seq<(K, V)>, k: K, v: V, lt: spec_fn(K, K) -> bool)
    requires
        is_strict_order(lt),
        omap_sorted(s, lt),
    ensures
        omap_sorted(omap_insert(s, k, v, lt), lt),
    decreases s.len(),
{
    let r = omap_insert(s, k, v, lt);
    if s.len() == 0 {
    } else if lt(k, s[0].0) {
        assert(r == seq![(k, v)] + s);
        assert forall|i: int, j: int| 0 <= i < j < r.len() implies lt(
            #[trigger] r[i].0,
            #[trigger] r[j].0,
        ) by {
            if i == 0 {
                assert(r[j].0 == s[j - 1].0);
                if j > 1 {
                    assert(lt(s[0].0, s[j - 1].0));
                }
            } else {
                assert(r[i].0 == s[i - 1].0 && r[j].0 == s[j - 1].0);
            }
        }
    } else if k == s[0].0 {
        assert(r == seq![(k, v)] + s.drop_first());
        assert forall|i: int, j: int| 0 <= i < j < r.len() implies lt(
            #[trigger] r[i].0,
            #[trigger] r[j].0,
        ) by {
            if i == 0 {
                assert(r[j].0 == s[j].0);
                assert(lt(s[0].0, s[j].0));
            } else {
                assert(r[i].0 == s[i].0 && r[j].0 == s[j].0);
            }
        }
    } else {
        assert(lt(s[0].0, k));
        let t = s.drop_first();
        assert(omap_sorted(t, lt)) by {
            assert(forall|i: int| 0 <= i < t.len() ==> t[i] == s[i + 1]);
        }
        lemma_omap_insert_sorted(t, k, v, lt);
        let rt = omap_insert(t, k, v, lt);
        assert(r == seq![s[0]] + rt);
        assert forall|i: int, j: int| 0 <= i < j < r.len() implies lt(
            #[trigger] r[i].0,
            #[trigger] r[j].0,
        ) by {
            if i == 0 {
                assert(r[j].0 == rt[j - 1].0);
                if rt[j - 1].0 == k {
                } else {
                    lemma_omap_key_at(t, rt, j - 1, k, v, lt);
                    let i0 = choose|i0: int|
                        0 <= i0 < t.len() && #[trigger] t[i0].0 == rt[j - 1].0;
                    assert(t[i0] == s[i0 + 1]);
                    assert(lt(s[0].0, s[i0 + 1].0));
                }
            } else {
                assert(r[i].0 == rt[i - 1].0 && r[j].0 == rt[j - 1].0);
            }
        }
    }
}

/// Every key of `omap_insert(t, k, v)` other than `k` is a key of `t`.
proof fn lemma_omap_key_at<K, V>(
    t: Seq<(K, V)>,
    rt: Seq<(K, V)>,
    j: int,
    k: K,
    v: V,
    lt: spec_fn(K, K) -> bool,
)
    requires
        rt == omap_insert(t, k, v, lt),
        0 <= j < rt.len(),
        rt[j].0 != k,
    ensures
        exists|i: int| 0 <= i < t.len() && #[trigger] t[i].0 == rt[j].0,
    decreases t.len(),
{
    if t.len() == 0 {
        assert(rt == seq![(k, v)]);
        assert(false);
    } else if lt(k, t[0].0) {
        assert(rt == seq![(k, v)] + t);
        assert(j >= 1);
        assert(t[j - 1].0 == rt[j].0);
    } else if k == t[0].0 {
        assert(rt == seq![(k, v)] + t.drop_first());
        assert(j >= 1);
        assert(t[j].0 == rt[j].0);
    } else {
        if j == 0 {
            assert(t[0].0 == rt[0].0);
        } else {
            lemma_omap_key_at(t.drop_first(), omap_insert(t.drop_first(), k, v, lt), j - 1, k, v, lt);
            let i0 = choose|i: int|
                0 <= i < t.drop_first().len() && #[trigger] t.drop_first()[i].0 == rt[j].0;
            assert(t[i0 + 1].0 == rt[j].0);
        }
    }
}

/// Map each value of an association sequence, keeping keys and order.
pub open spec fn map_vals<K, V, W>(s: Seq<(K, V)>, f: spec_fn(V) -> W) -> Seq<(K, W)> {
    s.map_values(|p: (K, V)| (p.0, f(p.1)))
}

pub proof fn lemma_map_vals_insert<K, V, W>(
    s: Seq<(K, V)>,
    k: K,
    v: V,
    lt: spec_fn(K, K) -> bool,
    f: spec_fn(V) -> W,
)
    ensures
        map_vals(omap_insert(s, k, v, lt), f) == omap_insert(map_vals(s, f), k, f(v), lt),
    decreases s.len(),
{
    let ml = map_vals(omap_insert(s, k, v, lt), f);
    let mr = omap_insert(map_vals(s, f), k, f(v), lt);
    if s.len() == 0 {
        assert(ml =~= mr);
    } else if lt(k, s[0].0) {
        assert(map_vals(s, f)[0].0 == s[0].0);
        assert(ml =~= mr);
    } else if k == s[0].0 {
        assert(map_vals(s, f)[0].0 == s[0].0);
        assert(map_vals(s, f).drop_first() =~= map_vals(s.drop_first(), f));
        assert(ml =~= mr);
    } else {
        assert(map_vals(s, f)[0].0 == s[0].0);
        lemma_map_vals_insert(s.drop_first(), k, v, lt, f);
        assert(map_vals(s, f).drop_first() =~= map_vals(s.drop_first(), f));
        assert(ml =~= seq![map_vals(s, f)[0]] + map_vals(omap_insert(s.drop_first(), k, v, lt), f));
        assert(mr =~= seq![map_vals(s, f)[0]] + omap_insert(map_vals(s.drop_first(), f), k, f(v), lt));
    }
}

pub proof fn lemma_map_vals_get<K, V, W>(s: Seq<(K, V)>, k: K, f: spec_fn(V) -> W)
    ensures
        omap_get(map_vals(s, f), k) == match omap_get(s, k) {
            Some(v) => Some(f(v)),
            None => None::<W>,
        },
    decreases s.len(),
{
    if s.len() > 0 {
        assert(map_vals(s, f)[0] == (s[0].0, f(s[0].1)));
        if s[0].0 != k {
            lemma_map_vals_get(s.drop_first(), k, f);
            assert(map_vals(s, f).drop_first() =~= map_vals(s.drop_first(), f));
        }
    }
}

pub proof fn lemma_map_vals_remove<K, V, W>(s: Seq<(K, V)>, k: K, f: spec_fn(V) -> W)
    ensures
        map_vals(omap_remove(s, k), f) == omap_remove(map_vals(s, f), k),
    decreases s.len(),
{
    if s.len() > 0 {
        assert(map_vals(s, f)[0] == (s[0].0, f(s[0].1)));
        if s[0].0 == k {
            assert(map_vals(s, f).drop_first() =~= map_vals(s.drop_first(), f));
            assert(map_vals(omap_remove(s, k), f) =~= omap_remove(map_vals(s, f), k));
        } else {
            lemma_map_vals_remove(s.drop_first(), k, f);
            assert(map_vals(s, f).drop_first() =~= map_vals(s.drop_first(), f));
            assert(map_vals(omap_remove(s, k), f) =~= seq![map_vals(s, f)[0]] + map_vals(
                omap_remove(s.drop_first(), k),
                f,
            ));
            assert(omap_remove(map_vals(s, f), k) =~= seq![map_vals(s, f)[0]] + omap_remove(
                map_vals(s.drop_first(), f),
                k,
            ));
        }
    }
}

// ---------------------------------------------------------------------------
// Sorted set of VLAN tags
// ---------------------------------------------------------------------------
/// Insert into a strictly ascending sequence.
pub open spec fn oset_insert(s: Seq<u32>, x: u32) -> Seq<u32>
    decreases s.len(),
{
    if s.len() == 0 {
        seq![x]
    } else if x < s[0] {
        seq![x] + s
    } else if x == s[0] {
        s
    } else {
        seq![s[0]] + oset_insert(s.drop_first(), x)
    }
}

/// Keep values other than `x`.
pub open spec fn ne_pred(x: u32) -> spec_fn(u32) -> bool {
    |y: u32| y != x
}

/// Keep values absent from `b`.
pub open spec fn notin_pred(b: Seq<u32>) -> spec_fn(u32) -> bool {
    |y: u32| !b.contains(y)
}

/// Remove every occurrence of `x`.
pub open spec fn oset_remove(s: Seq<u32>, x: u32) -> Seq<u32> {
    s.filter(ne_pred(x))
}

/// Elements of `a` not in `b`, in the order of `a`.
pub open spec fn oset_diff(a: Seq<u32>, b: Seq<u32>) -> Seq<u32> {
    a.filter(notin_pred(b))
}

pub open spec fn oset_sorted(s: Seq<u32>) -> bool {
    forall|i: int, j: int| 0 <= i < j < s.len() ==> s[i] < s[j]
}

pub proof fn lemma_oset_insert_at(s: Seq<u32>, x: u32, pos: int)
    requires
        oset_sorted(s),
        0 <= pos <= s.len(),
        forall|i: int| 0 <= i < pos ==> s[i] < x,
        pos < s.len() ==> s[pos] >= x,
    ensures
        pos < s.len() && s[pos] == x ==> oset_insert(s, x) == s,
        !(pos < s.len() && s[pos] == x) ==> oset_insert(s, x) == s.insert(pos, x),
    decreases s.len(),
{
    if s.len() == 0 {
        assert(oset_insert(s, x) =~= s.insert(0, x));
    } else if pos == 0 {
        if s[0] == x {
        } else {
            assert(seq![x] + s =~= s.insert(0, x));
        }
    } else {
        let t = s.drop_first();
        assert(oset_sorted(t)) by {
            assert(forall|i: int| 0 <= i < t.len() ==> t[i] == s[i + 1]);
        }
        lemma_oset_insert_at(t, x, pos - 1);
        if pos < s.len() && s[pos] == x {
            assert(seq![s[0]] + t =~= s);
        } else {
            assert(seq![s[0]] + t.insert(pos - 1, x) =~= s.insert(pos, x));
        }
    }
}

pub proof fn lemma_oset_insert_props(s: Seq<u32>, x: u32)
    requires
        oset_sorted(s),
    ensures
        oset_sorted(oset_insert(s, x)),
        forall|y: u32|
            #[trigger] oset_insert(s, x).contains(y) <==> (s.contains(y) || y == x),
    decreases s.len(),
{
    let r = oset_insert(s, x);
    if s.len() == 0 {
        assert(r =~= seq![x]);
        assert(r.contains(x)) by {
            assert(r[0] == x);
        }
        assert forall|y: u32| #[trigger] r.contains(y) implies (s.contains(y) || y == x) by {}
    } else if x < s[0] {
        assert(r == seq![x] + s);
        assert forall|i: int, j: int| 0 <= i < j < r.len() implies r[i] < r[j] by {
            if i > 0 {
                assert(r[i] == s[i - 1] && r[j] == s[j - 1]);
            } else if j > 1 {
                assert(r[j] == s[j - 1]);
                assert(s[0] <= s[j - 1]);
            }
        }
        assert forall|y: u32| #[trigger] r.contains(y) implies (s.contains(y) || y == x) by {
            let i = choose|i: int| 0 <= i < r.len() && r[i] == y;
            if i > 0 {
                assert(s[i - 1] == y);
            }
        }
        assert forall|y: u32| s.contains(y) || y == x implies #[trigger] r.contains(y) by {
            if y == x {
                assert(r[0] == y);
            } else {
                let i = choose|i: int| 0 <= i < s.len() && s[i] == y;
                assert(r[i + 1] == y);
            }
        }
    } else if x == s[0] {
        assert(r == s);
    } else {
        let t = s.drop_first();
        assert(oset_sorted(t)) by {
            assert(forall|i: int| 0 <= i < t.len() ==> t[i] == s[i + 1]);
        }
        lemma_oset_insert_props(t, x);
        let rt = oset_insert(t, x);
        assert(r == seq![s[0]] + rt);
        assert forall|i: int, j: int| 0 <= i < j < r.len() implies r[i] < r[j] by {
            if i > 0 {
                assert(r[i] == rt[i - 1] && r[j] == rt[j - 1]);
            } else {
                assert(r[j] == rt[j - 1]);
                assert(rt.contains(rt[j - 1])) by {
                    assert(rt[j - 1] == rt[j - 1]);
                }
                if rt[j - 1] == x {
                    assert(s[0] < x);
                } else {
                    assert(t.contains(rt[j - 1]));
                    let i0 = choose|i0: int| 0 <= i0 < t.len() && t[i0] == rt[j - 1];
                    assert(t[i0] == s[i0 + 1]);
                    assert(s[0] < s[i0 + 1]);
                }
            }
        }
        assert forall|y: u32| #[trigger] r.contains(y) implies (s.contains(y) || y == x) by {
            let i = choose|i: int| 0 <= i < r.len() && r[i] == y;
            if i > 0 {
                assert(rt[i - 1] == y);
                assert(rt.contains(y));
                if t.contains(y) {
                    let i0 = choose|i0: int| 0 <= i0 < t.len() && t[i0] == y;
                    assert(s[i0 + 1] == y);
                }
            }
        }
        assert forall|y: u32| s.contains(y) || y == x implies #[trigger] r.contains(y) by {
            if y == x || t.contains(y) {
                assert(rt.contains(y));
                let i0 = choose|i0: int| 0 <= i0 < rt.len() && rt[i0] == y;
                assert(r[i0 + 1] == y);
            } else {
                let i = choose|i: int| 0 <= i < s.len() && s[i] == y;
                if i == 0 {
                    assert(r[0] == y);
                } else {
                    assert(t[i - 1] == y);
                    assert(t.contains(y));
                }
            }
        }
    }
}

/// Sorted set of `u32` VLAN tags; ascending, no duplicates.
#[derive(Debug)]
pub struct VlanTagSet {
    pub v: Vec<u32>,
}

impl VlanTagSet {
    pub open spec fn wf(&self) -> bool {
        oset_sorted(self.v@)
    }

    pub open spec fn view(&self) -> Seq<u32> {
        self.v@
    }

    pub fn new() -> (r: VlanTagSet)
        ensures
            r.wf(),
            r@ == Seq::<u32>::empty(),
    {
        VlanTagSet { v: Vec::new() }
    }

    pub fn len(&self) -> (n: usize)
        ensures
            n == self@.len(),
    {
        self.v.len()
    }

    pub fn is_empty(&self) -> (r: bool)
        ensures
            r == (self@.len() == 0),
    {
        self.v.len() == 0
    }

    pub fn get_at(&self, i: usize) -> (x: u32)
        requires
            i < self@.len(),
        ensures
            x == self@[i as int],
    {
        self.v[i]
    }

    pub fn contains(&self, x: u32) -> (r: bool)
        ensures
            r == self@.contains(x),
    {
        let n = self.v.len();
        let mut i: usize = 0;
        while i < n
            invariant
                0 <= i <= n,
                n == self@.len(),
                forall|j: int| 0 <= j < i ==> self@[j] != x,
            decreases n - i,
        {
            if self.v[i] == x {
                return true;
            }
            i += 1;
        }
        false
    }

    pub fn insert(&mut self, x: u32)
        requires
            old(self).wf(),
        ensures
            final(self).wf(),
            final(self)@ == oset_insert(old(self)@, x),
    {
        let n = self.v.len();
        let mut pos: usize = 0;
        while pos < n && self.v[pos] < x
            invariant
                0 <= pos <= n,
                n == self@.len(),
                *self == *old(self),
                forall|j: int| 0 <= j < pos ==> self@[j] < x,
            decreases n - pos,
        {
            pos += 1;
        }
        proof {
            lemma_oset_insert_at(self@, x, pos as int);
            lemma_oset_insert_props(self@, x);
        }
        if pos < n && self.v[pos] == x {
            return ;
        }
        self.v.insert(pos, x);
    }

    pub fn remove_val(&mut self, x: u32)
        requires
            old(self).wf(),
        ensures
            final(self).wf(),
            final(self)@ == oset_remove(old(self)@, x),
    {
        let n = self.v.len();
        let ghost s = self@;
        let mut out: Vec<u32> = Vec::new();
        let mut i: usize = 0;
        while i < n
            invariant
                0 <= i <= n,
                n == s.len(),
                self@ == s,
                out@ == s.take(i as int).filter(ne_pred(x)),
            decreases n - i,
        {
            let y = self.v[i];
            if y != x {
                out.push(y);
            }
            proof {
                reveal(Seq::filter);
                assert(s.take(i + 1).drop_last() =~= s.take(i as int));
                assert(s.take(i + 1).last() == s[i as int]);
                assert(out@ == s.take(i + 1).filter(ne_pred(x)));
            }
            i += 1;
        }
        proof {
            assert(s.take(n as int) =~= s);
            lemma_filter_sorted(s, ne_pred(x));
        }
        self.v = out;
    }

    /// Elements of `self` not present in `other`, ascending.
    pub fn difference(&self, other: &VlanTagSet) -> (r: VlanTagSet)
        requires
            self.wf(),
        ensures
            r.wf(),
            r@ == oset_diff(self@, other@),
    {
        let n = self.v.len();
        let ghost s = self@;
        let mut out: Vec<u32> = Vec::new();
        let mut i: usize = 0;
        while i < n
            invariant
                0 <= i <= n,
                n == s.len(),
                self@ == s,
                out@ == s.take(i as int).filter(notin_pred(other@)),
            decreases n - i,
        {
            let y = self.v[i];
            if !other.contains(y) {
                out.push(y);
            }
            proof {
                reveal(Seq::filter);
                assert(s.take(i + 1).drop_last() =~= s.take(i as int));
                assert(s.take(i + 1).last() == s[i as int]);
                assert(out@ == s.take(i + 1).filter(notin_pred(other@)));
            }
            i += 1;
        }
        proof {
            assert(s.take(n as int) =~= s);
            lemma_filter_sorted(s, notin_pred(other@));
        }
        VlanTagSet { v: out }
    }

    /// An independent copy.
    pub fn copy_of(&self) -> (r: VlanTagSet)
        ensures
            r@ == self@,
    {
        let n = self.v.len();
        let mut out: Vec<u32> = Vec::new();
        let mut i: usize = 0;
        while i < n
            invariant
                0 <= i <= n,
                n == self@.len(),
                out@ == self@.take(i as int),
            decreases n - i,
        {
            out.push(self.v[i]);
            i += 1;
        }
        proof {
            assert(self@.take(n as int) =~= self@);
        }
        VlanTagSet { v: out }
    }
}

/// A filtered subsequence of a sorted sequence stays sorted, and holds
/// exactly the passing elements.
pub proof fn lemma_filter_sorted(s: Seq<u32>, p: spec_fn(u32) -> bool)
    requires
        oset_sorted(s),
    ensures
        oset_sorted(s.filter(p)),
        forall|y: u32| #[trigger] s.filter(p).contains(y) <==> s.contains(y) && p(y),
    decreases s.len(),
{
    reveal(Seq::filter);
    let r = s.filter(p);
    if s.len() == 0 {
        assert forall|y: u32| #[trigger] r.contains(y) implies s.contains(y) && p(y) by {}
    } else {
        let t = s.drop_last();
        let x = s.last();
        assert(oset_sorted(t)) by {
            assert(forall|i: int| 0 <= i < t.len() ==> t[i] == s[i]);
        }
        lemma_filter_sorted(t, p);
        let rt = t.filter(p);
        if p(x) {
            assert(r == rt.push(x));
            assert forall|i: int, j: int| 0 <= i < j < r.len() implies r[i] < r[j] by {
                if j == r.len() - 1 {
                    assert(r[i] == rt[i]);
                    assert(rt.contains(rt[i]));
                    let i0 = choose|i0: int| 0 <= i0 < t.len() && t[i0] == rt[i];
                    assert(s[i0] == t[i0]);
                    assert(s[i0] < x);
                } else {
                    assert(r[i] == rt[i] && r[j] == rt[j]);
                }
            }
            assert forall|y: u32| #[trigger] r.contains(y) implies s.contains(y) && p(y) by {
                let i = choose|i: int| 0 <= i < r.len() && r[i] == y;
                if i < r.len() - 1 {
                    assert(rt[i] == y);
                    assert(rt.contains(y));
                    let i0 = choose|i0: int| 0 <= i0 < t.len() && t[i0] == y;
                    assert(s[i0] == y);
                } else {
                    assert(s[s.len() - 1] == y);
                }
            }
            assert forall|y: u32| s.contains(y) && p(y) implies #[trigger] r.contains(y) by {
                let i = choose|i: int| 0 <= i < s.len() && s[i] == y;
                if i < s.len() - 1 {
                    assert(t[i] == y);
                    assert(rt.contains(y));
                    let j = choose|j: int| 0 <= j < rt.len() && rt[j] == y;
                    assert(r[j] == y);
                } else {
                    assert(r[r.len() - 1] == y);
                }
            }
        } else {
            assert(r == rt);
            assert forall|y: u32| #[trigger] r.contains(y) implies s.contains(y) && p(y) by {
                assert(rt.contains(y));
                let i0 = choose|i0: int| 0 <= i0 < t.len() && t[i0] == y;
                assert(s[i0] == y);
            }
            assert forall|y: u32| s.contains(y) && p(y) implies #[trigger] r.contains(y) by {
                let i = choose|i: int| 0 <= i < s.len() && s[i] == y;
                assert(i < s.len() - 1);
                assert(t[i] == y);
            }
        }
    }
}

// ---------------------------------------------------------------------------
// Sorted set of interface-name strings
// ---------------------------------------------------------------------------
/// Insert into a lexicographically ascending name sequence.
pub open spec fn nameset_insert(s: Seq<Seq<char>>, x: Seq<char>) -> Seq<Seq<char>>
    decreases s.len(),
{
    if s.len() == 0 {
        seq![x]
    } else if lex_lt(x, s[0]) {
        seq![x] + s
    } else if x == s[0] {
        s
    } else {
        seq![s[0]] + nameset_insert(s.drop_first(), x)
    }
}

pub open spec fn nameset_sorted(s: Seq<Seq<char>>) -> bool {
    forall|i: int, j: int| 0 <= i < j < s.len() ==> lex_lt(#[trigger] s[i], #[trigger] s[j])
}

pub proof fn lemma_nameset_insert_at(s: Seq<Seq<char>>, x: Seq<char>, pos: int)
    requires
        nameset_sorted(s),
        0 <= pos <= s.len(),
        forall|i: int| 0 <= i < pos ==> lex_lt(#[trigger] s[i], x),
        pos < s.len() ==> !lex_lt(s[pos], x),
    ensures
        pos < s.len() && s[pos] == x ==> nameset_insert(s, x) == s,
        !(pos < s.len() && s[pos] == x) ==> nameset_insert(s, x) == s.insert(pos, x),
    decreases s.len(),
{
    if s.len() == 0 {
        assert(nameset_insert(s, x) =~= s.insert(0, x));
    } else if pos == 0 {
        lemma_lex_trichotomy(x, s[0]);
        if s[0] == x {
            assert(!lex_lt(x, s[0]));
        } else {
            assert(lex_lt(x, s[0]));
            assert(seq![x] + s =~= s.insert(0, x));
        }
    } else {
        assert(lex_lt(s[0], x));
        lemma_lex_trichotomy(x, s[0]);
        assert(!lex_lt(x, s[0]) && x != s[0]);
        let t = s.drop_first();
        assert(nameset_sorted(t)) by {
            assert(forall|i: int| 0 <= i < t.len() ==> t[i] == s[i + 1]);
        }
        lemma_nameset_insert_at(t, x, pos - 1);
        if pos < s.len() && s[pos] == x {
            assert(t[pos - 1] == x);
            assert(seq![s[0]] + t =~= s);
        } else {
            assert(seq![s[0]] + t.insert(pos - 1, x) =~= s.insert(pos, x));
        }
    }
}

pub proof fn lemma_nameset_insert_props(s: Seq<Seq<char>>, x: Seq<char>)
    requires
        nameset_sorted(s),
    ensures
        nameset_sorted(nameset_insert(s, x)),
        forall|y: Seq<char>|
            #[trigger] nameset_insert(s, x).contains(y) <==> (s.contains(y) || y == x),
    decreases s.len(),
{
    lemma_name_lt_strict();
    let r = nameset_insert(s, x);
    if s.len() == 0 {
        assert(r =~= seq![x]);
        assert(r[0] == x);
        assert forall|y: Seq<char>| #[trigger] r.contains(y) implies (s.contains(y) || y
            == x) by {}
    } else if lex_lt(x, s[0]) {
        assert(r == seq![x] + s);
        assert forall|i: int, j: int| 0 <= i < j < r.len() implies lex_lt(
            #[trigger] r[i],
            #[trigger] r[j],
        ) by {
            if i > 0 {
                assert(r[i] == s[i - 1] && r[j] == s[j - 1]);
            } else {
                assert(r[j] == s[j - 1]);
                if j > 1 {
                    lemma_lex_trans(x, s[0], s[j - 1]);
                }
            }
        }
        assert forall|y: Seq<char>| #[trigger] r.contains(y) implies (s.contains(y) || y
            == x) by {
            let i = choose|i: int| 0 <= i < r.len() && r[i] == y;
            if i > 0 {
                assert(s[i - 1] == y);
            }
        }
        assert forall|y: Seq<char>| s.contains(y) || y == x implies #[trigger] r.contains(y) by {
            if y == x {
                assert(r[0] == y);
            } else {
                let i = choose|i: int| 0 <= i < s.len() && s[i] == y;
                assert(r[i + 1] == y);
            }
        }
    } else if x == s[0] {
        assert(r == s);
    } else {
        assert(lex_lt(s[0], x)) by {
            lemma_lex_trichotomy(x, s[0]);
        }
        let t = s.drop_first();
        assert(nameset_sorted(t)) by {
            assert(forall|i: int| 0 <= i < t.len() ==> t[i] == s[i + 1]);
        }
        lemma_nameset_insert_props(t, x);
        let rt = nameset_insert(t, x);
        assert(r == seq![s[0]] + rt);
        assert forall|i: int, j: int| 0 <= i < j < r.len() implies lex_lt(
            #[trigger] r[i],
            #[trigger] r[j],
        ) by {
            if i > 0 {
                assert(r[i] == rt[i - 1] && r[j] == rt[j - 1]);
            } else {
                assert(r[j] == rt[j - 1]);
                assert(rt.contains(rt[j - 1])) by {
                    assert(rt[j - 1] == rt[j - 1]);
                }
                if rt[j - 1] == x {
                } else {
                    assert(t.contains(rt[j - 1]));
                    let i0 = choose|i0: int| 0 <= i0 < t.len() && t[i0] == rt[j - 1];
                    assert(t[i0] == s[i0 + 1]);
                }
            }
        }
        assert forall|y: Seq<char>| #[trigger] r.contains(y) implies (s.contains(y) || y
            == x) by {
            let i = choose|i: int| 0 <= i < r.len() && r[i] == y;
            if i > 0 {
                assert(rt[i - 1] == y);
                assert(rt.contains(y));
                if t.contains(y) {
                    let i0 = choose|i0: int| 0 <= i0 < t.len() && t[i0] == y;
                    assert(s[i0 + 1] == y);
                }
            }
        }
        assert forall|y: Seq<char>| s.contains(y) || y == x implies #[trigger] r.contains(
            y,
        ) by {
            if y == x || t.contains(y) {
                assert(rt.contains(y));
                let i0 = choose|i0: int| 0 <= i0 < rt.len() && rt[i0] == y;
                assert(r[i0 + 1] == y);
            } else {
                let i = choose|i: int| 0 <= i < s.len() && s[i] == y;
                if i == 0 {
                    assert(r[0] == y);
                } else {
                    assert(t[i - 1] == y);
                    assert(t.contains(y));
                }
            }
        }
    }
}

// ---------------------------------------------------------------------------
// Map keyed by VLAN tag
// ---------------------------------------------------------------------------
/// Map from VLAN tag to `V`, iterated in ascending tag order.
#[derive(Debug)]
pub struct VlanMap<V> {
    pub keys: Vec<u32>,
    pub vals: Vec<V>,
}

impl<V> VlanMap<V> {
    /// Association-sequence model: `(key, value)` pairs in iteration order.
    pub open spec fn view(&self) -> Seq<(u32, V)> {
        Seq::new(self.keys@.len(), |i: int| (self.keys@[i], self.vals@[i]))
    }

    pub open spec fn wf(&self) -> bool {
        self.keys@.len() == self.vals@.len() && omap_sorted(self@, u32_lt())
    }

    pub fn new() -> (r: VlanMap<V>)
        ensures
            r.wf(),
            r@ == Seq::<(u32, V)>::empty(),
    {
        let r = VlanMap { keys: Vec::new(), vals: Vec::new() };
        proof {
            assert(r@ =~= Seq::<(u32, V)>::empty());
        }
        r
    }

    pub fn len(&self) -> (n: usize)
        requires
            self.wf(),
        ensures
            n == self@.len(),
    {
        self.keys.len()
    }

    pub fn is_empty(&self) -> (r: bool)
        requires
            self.wf(),
        ensures
            r == (self@.len() == 0),
    {
        self.keys.len() == 0
    }

    pub fn key_at(&self, i: usize) -> (k: u32)
        requires
            self.wf(),
            i < self@.len(),
        ensures
            k == self@[i as int].0,
    {
        self.keys[i]
    }

    pub fn val_at(&self, i: usize) -> (v: &V)
        requires
            self.wf(),
            i < self@.len(),
        ensures
            *v == self@[i as int].1,
    {
        &self.vals[i]
    }

    pub fn get(&self, k: u32) -> (r: Option<&V>)
        requires
            self.wf(),
        ensures
            match r {
                Some(v) => omap_get(self@, k) == Some(*v),
                None => omap_get(self@, k) is None,
            },
    {
        let n = self.keys.len();
        let mut i: usize = 0;
        proof {
            lemma_omap_get_skip(self@, k, 0);
        }
        while i < n
            invariant
                0 <= i <= n,
                n == self@.len(),
                forall|j: int| 0 <= j < i ==> self@[j].0 != k,
                omap_get(self@, k) == omap_get(self@.skip(i as int), k),
            decreases n - i,
        {
            if self.keys[i] == k {
                assert(self@.skip(i as int)[0] == self@[i as int]);
                return Some(&self.vals[i]);
            }
            proof {
                assert(self@.skip(i as int).drop_first() =~= self@.skip(i + 1));
            }
            i += 1;
        }
        assert(self@.skip(n as int) =~= Seq::<(u32, V)>::empty());
        None
    }

    pub fn contains_key(&self, k: u32) -> (r: bool)
        requires
            self.wf(),
        ensures
            r == omap_contains(self@, k),
    {
        match self.get(k) {
            Some(_) => true,
            None => false,
        }
    }

    pub fn insert(&mut self, k: u32, v: V)
        requires
            old(self).wf(),
        ensures
            final(self).wf(),
            final(self)@ == omap_insert(old(self)@, k, v, u32_lt()),
    {
        let ghost s = self@;
        let n = self.keys.len();
        let mut pos: usize = 0;
        while pos < n && self.keys[pos] < k
            invariant
                0 <= pos <= n,
                n == self@.len(),
                *self == *old(self),
                forall|j: int| 0 <= j < pos ==> self@[j].0 < k,
            decreases n - pos,
        {
            pos += 1;
        }
        proof {
            lemma_u32_lt_strict();
            lemma_omap_insert_at(s, k, v, u32_lt(), pos as int);
            lemma_omap_insert_sorted(s, k, v, u32_lt());
        }
        if pos < n && self.keys[pos] == k {
            self.vals.remove(pos);
            self.vals.insert(pos, v);
            proof {
                assert(self@ =~= s.update(pos as int, (k, v)));
            }
        } else {
            self.keys.insert(pos, k);
            self.vals.insert(pos, v);
            proof {
                assert(self@ =~= s.insert(pos as int, (k, v)));
            }
        }
    }

    /// Remove and return the value bound to `k`, if any.
    pub fn take(&mut self, k: u32) -> (r: Option<V>)
        requires
            old(self).wf(),
        ensures
            final(self).wf(),
            match r {
                Some(v) => omap_get(old(self)@, k) == Some(v) && final(self)@ == omap_remove(
                    old(self)@,
                    k,
                ),
                None => omap_get(old(self)@, k) is None && final(self)@ == old(self)@,
            },
    {
        let ghost s = self@;
        let n = self.keys.len();
        let mut i: usize = 0;
        proof {
            lemma_omap_get_skip(s, k, 0);
        }
        while i < n
            invariant
                0 <= i <= n,
                n == self@.len(),
                *self == *old(self),
                forall|j: int| 0 <= j < i ==> self@[j].0 != k,
                omap_get(s, k) == omap_get(s.skip(i as int), k),
            decreases n - i,
        {
            if self.keys[i] == k {
                proof {
                    assert(s.skip(i as int)[0] == s[i as int]);
                    lemma_omap_remove_at(s, k, i as int);
                }
                self.keys.remove(i);
                let v = self.vals.remove(i);
                proof {
                    assert(self@ =~= s.remove(i as int));
                    assert forall|a: int, b: int|
                        0 <= a < b < self@.len() implies (#[trigger] self@[a].0)
                        < (#[trigger] self@[b].0) by {
                        let sa = if a < i { a } else { a + 1 };
                        let sb = if b < i { b } else { b + 1 };
                        assert(self@[a] == s[sa] && self@[b] == s[sb]);
                        assert(u32_lt()(s[sa].0, s[sb].0));
                    }
                }
                return Some(v);
            }
            proof {
                assert(s.skip(i as int).drop_first() =~= s.skip(i + 1));
            }
            i += 1;
        }
        assert(s.skip(n as int) =~= Seq::<(u32, V)>::empty());
        None
    }
}

// ---------------------------------------------------------------------------
// Map keyed by interface name
// ---------------------------------------------------------------------------
/// Map from interface name to `V`, iterated in ascending name order.
#[derive(Debug)]
pub struct NameMap<V> {
    pub keys: Vec<String>,
    pub vals: Vec<V>,
}

impl<V> NameMap<V> {
    /// Association-sequence model keyed by the name's character sequence.
    pub open spec fn view(&self) -> Seq<(Seq<char>, V)> {
        Seq::new(self.keys@.len(), |i: int| (self.keys@[i]@, self.vals@[i]))
    }

    pub open spec fn wf(&self) -> bool {
        self.keys@.len() == self.vals@.len() && omap_sorted(self@, name_lt())
    }

    pub fn new() -> (r: NameMap<V>)
        ensures
            r.wf(),
            r@ == Seq::<(Seq<char>, V)>::empty(),
    {
        let r = NameMap { keys: Vec::new(), vals: Vec::new() };
        proof {
            assert(r@ =~= Seq::<(Seq<char>, V)>::empty());
        }
        r
    }

    pub fn len(&self) -> (n: usize)
        requires
            self.wf(),
        ensures
            n == self@.len(),
    {
        self.keys.len()
    }

    pub fn key_at(&self, i: usize) -> (k: &String)
        requires
            self.wf(),
            i < self@.len(),
        ensures
            k@ == self@[i as int].0,
    {
        &self.keys[i]
    }

    pub fn val_at(&self, i: usize) -> (v: &V)
        requires
            self.wf(),
            i < self@.len(),
        ensures
            *v == self@[i as int].1,
    {
        &self.vals[i]
    }

    pub fn get(&self, k: &str) -> (r: Option<&V>)
        requires
            self.wf(),
        ensures
            match r {
                Some(v) => omap_get(self@, k@) == Some(*v),
                None => omap_get(self@, k@) is None,
            },
    {
        let n = self.keys.len();
        let mut i: usize = 0;
        proof {
            lemma_omap_get_skip(self@, k@, 0);
        }
        while i < n
            invariant
                0 <= i <= n,
                n == self@.len(),
                forall|j: int| 0 <= j < i ==> self@[j].0 != k@,
                omap_get(self@, k@) == omap_get(self@.skip(i as int), k@),
            decreases n - i,
        {
            if str_eq(self.keys[i].as_str(), k) {
                assert(self@.skip(i as int)[0] == self@[i as int]);
                return Some(&self.vals[i]);
            }
            proof {
                assert(self@.skip(i as int).drop_first() =~= self@.skip(i + 1));
            }
            i += 1;
        }
        assert(self@.skip(n as int) =~= Seq::<(Seq<char>, V)>::empty());
        None
    }

    pub fn contains_key(&self, k: &str) -> (r: bool)
        requires
            self.wf(),
        ensures
            r == omap_contains(self@, k@),
    {
        match self.get(k) {
            Some(_) => true,
            None => false,
        }
    }

    pub fn insert(&mut self, k: String, v: V)
        requires
            old(self).wf(),
        ensures
            final(self).wf(),
            final(self)@ == omap_insert(old(self)@, k@, v, name_lt()),
    {
        let ghost s = self@;
        let n = self.keys.len();
        let mut pos: usize = 0;
        while pos < n && str_lt(self.keys[pos].as_str(), k.as_str())
            invariant
                0 <= pos <= n,
                n == self@.len(),
                *self == *old(self),
                forall|j: int| 0 <= j < pos ==> lex_lt(#[trigger] self@[j].0, k@),
            decreases n - pos,
        {
            pos += 1;
        }
        proof {
            lemma_name_lt_strict();
            lemma_omap_insert_at(s, k@, v, name_lt(), pos as int);
            lemma_omap_insert_sorted(s, k@, v, name_lt());
        }
        if pos < n && str_eq(self.keys[pos].as_str(), k.as_str()) {
            assert(s[pos as int].0 == k@);
            self.keys.remove(pos);
            self.keys.insert(pos, k);
            self.vals.remove(pos);
            self.vals.insert(pos, v);
            proof {
                assert(self@ =~= s.update(pos as int, (k@, v)));
            }
        } else {
            self.keys.insert(pos, k);
            self.vals.insert(pos, v);
            proof {
                assert(self@ =~= s.insert(pos as int, (k@, v)));
            }
        }
    }

    /// Remove and return the value bound to `k`, if any.
    pub fn take(&mut self, k: &str) -> (r: Option<V>)
        requires
            old(self).wf(),
        ensures
            final(self).wf(),
            match r {
                Some(v) => omap_get(old(self)@, k@) == Some(v) && final(self)@ == omap_remove(
                    old(self)@,
                    k@,
                ),
                None => omap_get(old(self)@, k@) is None && final(self)@ == old(self)@,
            },
    {
        let ghost s = self@;
        let n = self.keys.len();
        let mut i: usize = 0;
        proof {
            lemma_omap_get_skip(s, k@, 0);
        }
        while i < n
            invariant
                0 <= i <= n,
                n == self@.len(),
                *self == *old(self),
                forall|j: int| 0 <= j < i ==> self@[j].0 != k@,
                omap_get(s, k@) == omap_get(s.skip(i as int), k@),
            decreases n - i,
        {
            if str_eq(self.keys[i].as_str(), k) {
                proof {
                    assert(s.skip(i as int)[0] == s[i as int]);
                    lemma_omap_remove_at(s, k@, i as int);
                }
                self.keys.remove(i);
                let v = self.vals.remove(i);
                proof {
                    assert(self@ =~= s.remove(i as int));
                    assert forall|a: int, b: int|
                        0 <= a < b < self@.len() implies lex_lt(
                        #[trigger] self@[a].0,
                        #[trigger] self@[b].0,
                    ) by {
                        let sa = if a < i { a } else { a + 1 };
                        let sb = if b < i { b } else { b + 1 };
                        assert(self@[a] == s[sa] && self@[b] == s[sb]);
                        assert(lex_lt(s[sa].0, s[sb].0));
                    }
                }
                return Some(v);
            }
            proof {
                assert(s.skip(i as int).drop_first() =~= s.skip(i + 1));
            }
            i += 1;
        }
        assert(s.skip(n as int) =~= Seq::<(Seq<char>, V)>::empty());
        None
    }
}

/// Sorted set of interface names, ascending by code point.
#[derive(Debug)]
pub struct NameSet {
    pub v: Vec<String>,
}

impl NameSet {
    pub open spec fn view(&self) -> Seq<Seq<char>> {
        self.v@.map_values(|s: String| s@)
    }

    pub open spec fn wf(&self) -> bool {
        nameset_sorted(self@)
    }

    pub fn new() -> (r: NameSet)
        ensures
            r.wf(),
            r@ == Seq::<Seq<char>>::empty(),
    {
        let r = NameSet { v: Vec::new() };
        proof {
            assert(r@ =~= Seq::<Seq<char>>::empty());
        }
        r
    }

    pub fn len(&self) -> (n: usize)
        ensures
            n == self@.len(),
    {
        self.v.len()
    }

    pub fn get_at(&self, i: usize) -> (x: &String)
        requires
            i < self@.len(),
        ensures
            x@ == self@[i as int],
    {
        &self.v[i]
    }

    pub fn insert_name(&mut self, x: String)
        requires
            old(self).wf(),
        ensures
            final(self).wf(),
            final(self)@ == nameset_insert(old(self)@, x@),
    {
        let n = self.v.len();
        let mut pos: usize = 0;
        while pos < n && str_lt(self.v[pos].as_str(), x.as_str())
            invariant
                0 <= pos <= n,
                n == self@.len(),
                *self == *old(self),
                forall|j: int| 0 <= j < pos ==> lex_lt(#[trigger] self@[j], x@),
            decreases n - pos,
        {
            pos += 1;
        }
        proof {
            lemma_nameset_insert_at(self@, x@, pos as int);
            lemma_nameset_insert_props(self@, x@);
        }
        if pos < n && str_eq(self.v[pos].as_str(), x.as_str()) {
            assert(self@[pos as int] == x@);
            return ;
        }
        let ghost oldv = self@;
        self.v.insert(pos, x);
        proof {
            assert(self@ =~= oldv.insert(pos as int, x@));
        }
    }
}

} // verus!

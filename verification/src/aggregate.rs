//! Totals per key: what an ordered map from key to running total holds after
//! every value has been added under its key, read in key order.
use vstd::prelude::*;

use crate::decimal::{checked_add, round_whole, spec_running_total, decimal_round_dp, Dec};
use crate::order::{models, sorted_distinct, sorted_distinct_of, OrderedKey};

verus! {

/// The values whose key is `k`, in their order.
pub open spec fn values_for_key<M>(keys: Seq<M>, vals: Seq<Dec>, k: M) -> Seq<Dec>
    decreases keys.len(),
{
    if keys.len() == 0 || vals.len() == 0 {
        Seq::<Dec>::empty()
    } else {
        let head = values_for_key(keys.drop_last(), vals.drop_last(), k);
        if keys.last() == k {
            head.push(vals.last())
        } else {
            head
        }
    }
}

/// The keys of a list of pairs.
pub open spec fn pair_keys<K: OrderedKey>(out: Seq<(K, Dec)>) -> Seq<K::Model> {
    out.map_values(|p: (K, Dec)| p.0.model())
}

/// No running total overflows: for every key that occurs, adding up its values
/// in order never overflows.
pub open spec fn totals_defined<M>(keys: Seq<M>, vals: Seq<Dec>) -> bool {
    forall|i: int|
        0 <= i < keys.len() ==> #[trigger] spec_running_total(values_for_key(keys, vals, keys[i]))
            is Some
}

/// `out` lists each key once, in key order, with the running total of its
/// values rounded to a whole number.
pub open spec fn key_totals<K: OrderedKey>(
    out: Seq<(K, Dec)>,
    keys: Seq<K::Model>,
    vals: Seq<Dec>,
) -> bool {
    &&& sorted_distinct_of::<K>(pair_keys(out), keys)
    &&& forall|i: int|
        0 <= i < out.len() ==> #[trigger] out[i].1 == decimal_round_dp(
            spec_running_total(values_for_key(keys, vals, out[i].0.model())).unwrap(),
            0,
        )
}

/// Once a running total has overflowed it stays so.
proof fn lemma_running_total_none_extends(vals: Seq<Dec>, k: int)
    requires
        1 <= k <= vals.len(),
        spec_running_total(vals.take(k)) is None,
    ensures
        spec_running_total(vals) is None,
    decreases vals.len() - k,
{
    if k == vals.len() {
        assert(vals.take(k) =~= vals);
    } else {
        assert(vals.take(k + 1).drop_last() =~= vals.take(k));
        lemma_running_total_none_extends(vals, k + 1);
    }
}

/// The running total of the values whose key equals `k`; `None` where no value
/// has that key or an addition overflows.
pub fn running_total_for<K: OrderedKey>(keys: &Vec<K>, vals: &Vec<Dec>, k: &K) -> (r: Option<Dec>)
    requires
        keys.len() == vals.len(),
    ensures
        r == spec_running_total(values_for_key(models(keys@), vals@, k.model())),
{
    let ghost km = models(keys@);
    let mut acc: Option<Dec> = None;
    let mut j: usize = 0;
    assert(km.take(0) =~= Seq::<K::Model>::empty());
    while j < keys.len()
        invariant
            keys.len() == vals.len(),
            km == models(keys@),
            0 <= j <= keys.len(),
            acc == spec_running_total(values_for_key(km.take(j as int), vals@.take(j as int), k.model())),
            values_for_key(km.take(j as int), vals@.take(j as int), k.model()).len() > 0 ==> acc is Some,
        decreases keys.len() - j,
    {
        let ghost before = values_for_key(km.take(j as int), vals@.take(j as int), k.model());
        proof {
            assert(km.take(j + 1).drop_last() =~= km.take(j as int));
            assert(vals@.take(j + 1).drop_last() =~= vals@.take(j as int));
            assert(km.take(j + 1).last() == keys@[j as int].model());
        }
        if keys[j].same_key(k) {
            let v = vals[j];
            let ghost after = before.push(v);
            assert(after.drop_last() =~= before);
            match acc {
                None => {
                    acc = Some(v);
                },
                Some(t) => {
                    match checked_add(t, v) {
                        Some(s) => {
                            acc = Some(s);
                        },
                        None => {
                            proof {
                                let all = values_for_key(km, vals@, k.model());
                                lemma_values_for_key_prefix(km, vals@, k.model(), j + 1);
                                assert(all.take(after.len() as int) =~= after);
                                lemma_running_total_none_extends(all, after.len() as int);
                            }
                            return None;
                        },
                    }
                },
            }
        }
        j = j + 1;
    }
    assert(km.take(keys.len() as int) =~= km);
    assert(vals@.take(keys.len() as int) =~= vals@);
    acc
}

/// The values of a prefix are a prefix of the values.
pub proof fn lemma_values_for_key_prefix<M>(keys: Seq<M>, vals: Seq<Dec>, k: M, j: int)
    requires
        keys.len() == vals.len(),
        0 <= j <= keys.len(),
    ensures
        values_for_key(keys.take(j), vals.take(j), k).len() <= values_for_key(keys, vals, k).len(),
        values_for_key(keys, vals, k).take(values_for_key(keys.take(j), vals.take(j), k).len() as int)
            == values_for_key(keys.take(j), vals.take(j), k),
    decreases keys.len() - j,
{
    if j == keys.len() {
        assert(keys.take(j) =~= keys);
        assert(vals.take(j) =~= vals);
        let all = values_for_key(keys, vals, k);
        assert(all.take(all.len() as int) =~= all);
    } else {
        lemma_values_for_key_prefix(keys, vals, k, j + 1);
        assert(keys.take(j + 1).drop_last() =~= keys.take(j));
        assert(vals.take(j + 1).drop_last() =~= vals.take(j));
        let small = values_for_key(keys.take(j), vals.take(j), k);
        let big = values_for_key(keys.take(j + 1), vals.take(j + 1), k);
        let all = values_for_key(keys, vals, k);
        assert(big.take(small.len() as int) =~= small);
        assert(all.take(small.len() as int) =~= all.take(big.len() as int).take(small.len() as int));
    }
}

/// The total per key of the values, each rounded to a whole number, in key
/// order; `None` where a running total overflows.
pub fn totals_by_key<K: OrderedKey>(keys: &Vec<K>, vals: &Vec<Dec>) -> (r: Option<Vec<(K, Dec)>>)
    requires
        keys.len() == vals.len(),
    ensures
        r is Some <==> totals_defined(models(keys@), vals@),
        r matches Some(out) ==> key_totals(out@, models(keys@), vals@),
{
    let ghost km = models(keys@);
    let distinct = sorted_distinct(keys);
    let ghost dm = models(distinct@);
    let mut out: Vec<(K, Dec)> = Vec::new();
    let mut i: usize = 0;
    while i < distinct.len()
        invariant
            keys.len() == vals.len(),
            km == models(keys@),
            dm == models(distinct@),
            sorted_distinct_of::<K>(dm, km),
            0 <= i <= distinct.len(),
            out.len() == i,
            pair_keys(out@) == dm.take(i as int),
            forall|q: int|
                0 <= q < i ==> #[trigger] out@[q].1 == decimal_round_dp(
                    spec_running_total(values_for_key(km, vals@, out@[q].0.model())).unwrap(),
                    0,
                ),
            forall|q: int|
                0 <= q < i ==> #[trigger] spec_running_total(values_for_key(km, vals@, dm[q])) is Some,
        decreases distinct.len() - i,
    {
        let total = running_total_for(keys, vals, &distinct[i]);
        match total {
            None => {
                proof {
                    assert(dm.contains(dm[i as int]));
                    let j = choose|j: int| 0 <= j < km.len() && km[j] == dm[i as int];
                    assert(spec_running_total(values_for_key(km, vals@, km[j])) is None);
                }
                return None;
            },
            Some(t) => {
                let key = distinct[i].duplicate();
                let ghost old_out = out@;
                out.push((key, round_whole(t)));
                proof {
                    assert(pair_keys(out@) =~= pair_keys(old_out).push(dm[i as int]));
                    assert(dm.take(i + 1) =~= dm.take(i as int).push(dm[i as int]));
                }
            },
        }
        i = i + 1;
    }
    proof {
        assert(dm.take(distinct.len() as int) =~= dm);
        assert forall|j: int| 0 <= j < km.len() implies #[trigger] spec_running_total(
            values_for_key(km, vals@, km[j]),
        ) is Some by {
            assert(km.contains(km[j]));
            let q = choose|q: int| 0 <= q < dm.len() && dm[q] == km[j];
        }
    }
    Some(out)
}

} // verus!

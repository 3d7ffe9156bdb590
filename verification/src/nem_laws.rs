//! What the electricity market tables hold, stated over the input rows: each
//! entry averages exactly the rows of its region and time, the entries come in
//! chronological order, and each region and time has as many entries as the
//! report prints for it.
use vstd::prelude::*;

use crate::datetime::{date_time_before, law_date_time_order, not_after, DateTime};
use crate::decimal::{spec_average, Dec};
use crate::nem::{
    dispatch_of, dispatch_prices_at, dispatch_regions, dispatch_rows_at, dispatch_table,
    dispatch_times, has_region_mark, predispatch_of, predispatch_rows_at, predispatch_table,
    row_if_marked, scenario_of, scenario_prices, sensitivities_at, sensitivity_regions,
    sensitivity_times, Dispatch, Sensitivity,
};
use crate::order::{lemma_sorted_keys, sorted_distinct_of, sorted_keys, strictly_sorted, OrderedKey};
use crate::text::has_substring;

verus! {

// ---------------------------------------------------------------------------
// Selections of rows and entries
// ---------------------------------------------------------------------------

/// The sensitivity rows of region `g` at exactly the time `t` (every field of
/// the date and the time of day equal).
pub open spec fn at_region_time(g: Seq<char>, t: DateTime) -> spec_fn(Sensitivity) -> bool {
    |s: Sensitivity| s.regionid@ == g && s.datetime == t
}

/// The dispatch rows of region `g` at exactly the settlement time `t`.
pub open spec fn dispatch_at(g: Seq<char>, t: DateTime) -> spec_fn(Dispatch) -> bool {
    |r: Dispatch| r.regionid@ == g && r.settlementdate == t
}

/// The price column `n` (one of 1, 5, 8, 12, 17, 19, 29, 33) of a sensitivity
/// row: `rrpeep<n>`.
pub open spec fn rrpeep(s: Sensitivity, n: int) -> Dec {
    if n == 1 {
        s.rrpeep1
    } else if n == 5 {
        s.rrpeep5
    } else if n == 8 {
        s.rrpeep8
    } else if n == 12 {
        s.rrpeep12
    } else if n == 17 {
        s.rrpeep17
    } else if n == 19 {
        s.rrpeep19
    } else if n == 29 {
        s.rrpeep29
    } else {
        s.rrpeep33
    }
}

/// Column `n` of the rows, in order.
pub open spec fn column(rows: Seq<Sensitivity>, n: int) -> Seq<Dec> {
    rows.map_values(|s: Sensitivity| rrpeep(s, n))
}

/// The regional reference prices of the rows, in order.
pub open spec fn rrps(rows: Seq<Dispatch>) -> Seq<Dec> {
    rows.map_values(|r: Dispatch| r.rrp)
}

/// The predispatch entries of region `g` at time `t`.
pub open spec fn predispatch_key(g: Seq<char>, t: DateTime) -> spec_fn(
    (Seq<char>, Dec, Dec, DateTime),
) -> bool {
    |x: (Seq<char>, Dec, Dec, DateTime)| x.0 == g && x.3 == t
}

/// The dispatch entries of region `g` at time `t`.
pub open spec fn dispatch_key(g: Seq<char>, t: DateTime) -> spec_fn((Seq<char>, Dec, DateTime)) -> bool {
    |x: (Seq<char>, Dec, DateTime)| x.0 == g && x.2 == t
}

/// How many of the marks `NSW`, `VIC`, `QLD`, `SA` the region's name contains.
pub open spec fn mark_count(g: Seq<char>) -> int {
    (if has_substring(g, "NSW"@) { 1int } else { 0int }) + (if has_substring(g, "VIC"@) {
        1int
    } else {
        0int
    }) + (if has_substring(g, "QLD"@) { 1int } else { 0int }) + (if has_substring(g, "SA"@) {
        1int
    } else {
        0int
    })
}

/// The two averages of a predispatch entry of region `g` over the rows `m`:
/// columns 1 and 5 for a region marked `NSW`, else 8 and 12 for `VIC`, else 29
/// and 33 for `QLD`, else 17 and 19 for `SA`.
pub open spec fn scenario_averages(g: Seq<char>, m: Seq<Sensitivity>, a: Dec, b: Dec) -> bool {
    if has_substring(g, "NSW"@) {
        Some(a) == spec_average(column(m, 1)) && Some(b) == spec_average(column(m, 5))
    } else if has_substring(g, "VIC"@) {
        Some(a) == spec_average(column(m, 8)) && Some(b) == spec_average(column(m, 12))
    } else if has_substring(g, "QLD"@) {
        Some(a) == spec_average(column(m, 29)) && Some(b) == spec_average(column(m, 33))
    } else if has_substring(g, "SA"@) {
        Some(a) == spec_average(column(m, 17)) && Some(b) == spec_average(column(m, 19))
    } else {
        false
    }
}

// ---------------------------------------------------------------------------
// Sequences
// ---------------------------------------------------------------------------

proof fn lemma_filter_none<A>(s: Seq<A>, p: spec_fn(A) -> bool)
    requires
        forall|i: int| 0 <= i < s.len() ==> !p(#[trigger] s[i]),
    ensures
        s.filter(p).len() == 0,
    decreases s.len(),
{
    reveal(Seq::filter);
    if s.len() > 0 {
        let init = s.drop_last();
        assert forall|i: int| 0 <= i < init.len() implies !p(#[trigger] init[i]) by {
            assert(init[i] == s[i]);
        }
        lemma_filter_none(init, p);
        assert(s[s.len() - 1] == s.last());
    }
}

proof fn lemma_filter_push<A>(s: Seq<A>, x: A, p: spec_fn(A) -> bool)
    ensures
        s.push(x).filter(p).len() == s.filter(p).len() + (if p(x) { 1int } else { 0int }),
{
    reveal(Seq::filter);
    assert(s.push(x).drop_last() =~= s);
}

proof fn lemma_filter_add<A>(a: Seq<A>, b: Seq<A>, p: spec_fn(A) -> bool)
    ensures
        (a + b).filter(p).len() == a.filter(p).len() + b.filter(p).len(),
{
    Seq::<A>::filter_distributes_over_add(a, b, p);
}

proof fn lemma_all_add<A>(a: Seq<A>, b: Seq<A>, q: spec_fn(A) -> bool)
    requires
        forall|i: int| 0 <= i < a.len() ==> q(#[trigger] a[i]),
        forall|i: int| 0 <= i < b.len() ==> q(#[trigger] b[i]),
    ensures
        forall|i: int| 0 <= i < (a + b).len() ==> q(#[trigger] (a + b)[i]),
{
    assert forall|i: int| 0 <= i < (a + b).len() implies q(#[trigger] (a + b)[i]) by {
        if i < a.len() {
            assert((a + b)[i] == a[i]);
        } else {
            assert((a + b)[i] == b[i - a.len()]);
        }
    }
}

proof fn lemma_sorted_drop_last<K: OrderedKey>(s: Seq<K::Model>)
    requires
        strictly_sorted::<K>(s),
        s.len() > 0,
    ensures
        strictly_sorted::<K>(s.drop_last()),
        forall|i: int| 0 <= i < s.len() - 1 ==> #[trigger] s[i] != s.last(),
        forall|i: int| 0 <= i < s.len() - 1 ==> K::before(#[trigger] s[i], s.last()),
{
    let d = s.drop_last();
    assert forall|i: int, j: int| 0 <= i < j < d.len() implies K::before(#[trigger] d[i], #[trigger] d[j]) by {
        assert(d[i] == s[i] && d[j] == s[j]);
    }
    assert forall|i: int| 0 <= i < s.len() - 1 implies #[trigger] s[i] != s.last() by {
        assert(K::before(s[i], s[s.len() - 1]));
        K::lemma_irreflexive(s[i]);
    }
    assert forall|i: int| 0 <= i < s.len() - 1 implies K::before(#[trigger] s[i], s.last()) by {
        assert(K::before(s[i], s[s.len() - 1]));
    }
}

proof fn lemma_contains_drop_last<A>(s: Seq<A>, x: A)
    requires
        s.len() > 0,
        s.drop_last().contains(x),
    ensures
        s.contains(x),
{
    let i = choose|i: int| 0 <= i < s.drop_last().len() && s.drop_last()[i] == x;
    assert(s[i] == x);
}

// ---------------------------------------------------------------------------
// Predispatch table
// ---------------------------------------------------------------------------

/// The rows of a region at a time are the rows whose region and time equal them.
pub proof fn lemma_sensitivities_at(rows: Seq<Sensitivity>, g: Seq<char>, t: DateTime)
    ensures
        sensitivities_at(rows, g, t) == rows.filter(at_region_time(g, t)),
    decreases rows.len(),
{
    reveal(Seq::filter);
    if rows.len() > 0 {
        lemma_sensitivities_at(rows.drop_last(), g, t);
    }
}

/// The averages of an entry, as the table computes them.
spec fn pre_values(rows: Seq<Sensitivity>, x: (Seq<char>, Dec, Dec, DateTime)) -> bool {
    &&& has_region_mark(x.0)
    &&& scenario_averages(x.0, sensitivities_at(rows, x.0, x.3), x.1, x.2)
}

/// An entry is marked, and its averages are those of its scenario columns.
proof fn lemma_entry_values(rows: Seq<Sensitivity>, g: Seq<char>, at: DateTime, which: int, a: Dec, b: Dec)
    requires
        scenario_of(g) == Some(which),
        Some(a) == spec_average(
            sensitivities_at(rows, g, at).map_values(|s: Sensitivity| scenario_prices(s, which).0),
        ),
        Some(b) == spec_average(
            sensitivities_at(rows, g, at).map_values(|s: Sensitivity| scenario_prices(s, which).1),
        ),
    ensures
        pre_values(rows, (g, a, b, at)),
{
    let m = sensitivities_at(rows, g, at);
    let c0 = m.map_values(|s: Sensitivity| scenario_prices(s, which).0);
    let c1 = m.map_values(|s: Sensitivity| scenario_prices(s, which).1);
    if which == 0 {
        assert(c0 =~= column(m, 1));
        assert(c1 =~= column(m, 5));
    } else if which == 1 {
        assert(c0 =~= column(m, 8));
        assert(c1 =~= column(m, 12));
    } else if which == 2 {
        assert(c0 =~= column(m, 29));
        assert(c1 =~= column(m, 33));
    } else {
        assert(c0 =~= column(m, 17));
        assert(c1 =~= column(m, 19));
    }
}

/// Every entry of the rows at one time has that time, a listed region, and
/// its averages.
proof fn lemma_pre_rows_at(rows: Seq<Sensitivity>, at: DateTime, regions: Seq<Seq<char>>)
    requires
        predispatch_rows_at(rows, at, regions) is Some,
    ensures
        ({
            let more = predispatch_rows_at(rows, at, regions).unwrap();
            forall|i: int|
                0 <= i < more.len() ==> (#[trigger] more[i]).3 == at && regions.contains(more[i].0)
                    && pre_values(rows, more[i])
        }),
    decreases regions.len(),
{
    if regions.len() > 0 {
        let init = regions.drop_last();
        lemma_pre_rows_at(rows, at, init);
        let prev = predispatch_rows_at(rows, at, init).unwrap();
        let more = predispatch_rows_at(rows, at, regions).unwrap();
        let region = regions.last();
        assert forall|i: int| 0 <= i < prev.len() implies regions.contains(#[trigger] prev[i].0) by {
            lemma_contains_drop_last(regions, prev[i].0);
        }
        assert(regions.contains(region)) by {
            assert(regions[regions.len() - 1] == region);
        }
        match scenario_of(region) {
            None => {},
            Some(which) => {
                let matching = sensitivities_at(rows, region, at);
                let first = spec_average(matching.map_values(|s: Sensitivity| scenario_prices(s, which).0));
                let second = spec_average(matching.map_values(|s: Sensitivity| scenario_prices(s, which).1));
                lemma_entry_values(rows, region, at, which, first.unwrap(), second.unwrap());
                assert(more == prev.push((region, first.unwrap(), second.unwrap(), at)));
            },
        }
    }
}

/// Every entry of the table has one of the times, a listed region, and its
/// averages.
proof fn lemma_pre_table(rows: Seq<Sensitivity>, times: Seq<DateTime>, regions: Seq<Seq<char>>)
    requires
        predispatch_table(rows, times, regions) is Some,
    ensures
        ({
            let tab = predispatch_table(rows, times, regions).unwrap();
            forall|i: int|
                0 <= i < tab.len() ==> times.contains((#[trigger] tab[i]).3) && regions.contains(tab[i].0)
                    && pre_values(rows, tab[i])
        }),
    decreases times.len(),
{
    if times.len() > 0 {
        let init = times.drop_last();
        lemma_pre_table(rows, init, regions);
        lemma_pre_rows_at(rows, times.last(), regions);
        let prev = predispatch_table(rows, init, regions).unwrap();
        let more = predispatch_rows_at(rows, times.last(), regions).unwrap();
        let q = |x: (Seq<char>, Dec, Dec, DateTime)|
            times.contains(x.3) && regions.contains(x.0) && pre_values(rows, x);
        assert forall|i: int| 0 <= i < prev.len() implies q(#[trigger] prev[i]) by {
            lemma_contains_drop_last(times, prev[i].3);
        }
        assert forall|i: int| 0 <= i < more.len() implies q(#[trigger] more[i]) by {
            assert(times[times.len() - 1] == times.last());
        }
        lemma_all_add(prev, more, q);
    }
}

/// The table's entries come in the order of the times.
proof fn lemma_pre_table_order(rows: Seq<Sensitivity>, times: Seq<DateTime>, regions: Seq<Seq<char>>)
    requires
        predispatch_table(rows, times, regions) is Some,
        strictly_sorted::<DateTime>(times),
    ensures
        ({
            let tab = predispatch_table(rows, times, regions).unwrap();
            forall|i: int, k: int|
                0 <= i < k < tab.len() ==> (#[trigger] tab[i]).3 == (#[trigger] tab[k]).3
                    || date_time_before(tab[i].3, tab[k].3)
        }),
    decreases times.len(),
{
    if times.len() > 0 {
        let init = times.drop_last();
        lemma_sorted_drop_last::<DateTime>(times);
        lemma_pre_table_order(rows, init, regions);
        lemma_pre_table(rows, init, regions);
        lemma_pre_rows_at(rows, times.last(), regions);
        let prev = predispatch_table(rows, init, regions).unwrap();
        let more = predispatch_rows_at(rows, times.last(), regions).unwrap();
        let tab = prev + more;
        assert forall|i: int, k: int| 0 <= i < k < tab.len() implies (#[trigger] tab[i]).3 == (
        #[trigger] tab[k]).3 || date_time_before(tab[i].3, tab[k].3) by {
            if k < prev.len() {
                assert(tab[i] == prev[i] && tab[k] == prev[k]);
            } else if i < prev.len() {
                assert(tab[i] == prev[i] && tab[k] == more[k - prev.len()]);
                assert(init.contains(prev[i].3));
                let d = choose|d: int| 0 <= d < init.len() && init[d] == prev[i].3;
                assert(times[d] == init[d]);
            } else {
                assert(tab[i] == more[i - prev.len()] && tab[k] == more[k - prev.len()]);
            }
        }
    }
}

/// In the entries of one time, each region with a scenario pair has exactly
/// one entry.
proof fn lemma_pre_rows_at_count(rows: Seq<Sensitivity>, at: DateTime, regions: Seq<Seq<char>>, q: int)
    requires
        predispatch_rows_at(rows, at, regions) is Some,
        strictly_sorted::<String>(regions),
        0 <= q < regions.len(),
        has_region_mark(regions[q]),
    ensures
        predispatch_rows_at(rows, at, regions).unwrap().filter(predispatch_key(regions[q], at)).len() == 1,
    decreases regions.len(),
{
    let init = regions.drop_last();
    let prev = predispatch_rows_at(rows, at, init).unwrap();
    let region = regions.last();
    let p = predispatch_key(regions[q], at);
    lemma_sorted_drop_last::<String>(regions);
    lemma_pre_rows_at(rows, at, init);
    if q == regions.len() - 1 {
        assert forall|i: int| 0 <= i < prev.len() implies !p(#[trigger] prev[i]) by {
            let j = choose|j: int| 0 <= j < init.len() && init[j] == prev[i].0;
            assert(regions[j] == init[j]);
        }
        lemma_filter_none(prev, p);
    } else {
        assert(init[q] == regions[q]);
        lemma_pre_rows_at_count(rows, at, init, q);
        assert(regions[q] != region);
    }
    match scenario_of(region) {
        None => {},
        Some(which) => {
            let matching = sensitivities_at(rows, region, at);
            let first = spec_average(matching.map_values(|s: Sensitivity| scenario_prices(s, which).0));
            let second = spec_average(matching.map_values(|s: Sensitivity| scenario_prices(s, which).1));
            lemma_filter_push(prev, (region, first.unwrap(), second.unwrap(), at), p);
        },
    }
}

/// Each time and region with a scenario pair has exactly one entry.
proof fn lemma_pre_table_count(
    rows: Seq<Sensitivity>,
    times: Seq<DateTime>,
    regions: Seq<Seq<char>>,
    d: int,
    q: int,
)
    requires
        predispatch_table(rows, times, regions) is Some,
        strictly_sorted::<DateTime>(times),
        strictly_sorted::<String>(regions),
        0 <= d < times.len(),
        0 <= q < regions.len(),
        has_region_mark(regions[q]),
    ensures
        predispatch_table(rows, times, regions).unwrap().filter(predispatch_key(regions[q], times[d])).len()
            == 1,
    decreases times.len(),
{
    let init = times.drop_last();
    let prev = predispatch_table(rows, init, regions).unwrap();
    let more = predispatch_rows_at(rows, times.last(), regions).unwrap();
    let p = predispatch_key(regions[q], times[d]);
    lemma_sorted_drop_last::<DateTime>(times);
    lemma_filter_add(prev, more, p);
    lemma_pre_table(rows, init, regions);
    lemma_pre_rows_at(rows, times.last(), regions);
    if d == times.len() - 1 {
        assert forall|i: int| 0 <= i < prev.len() implies !p(#[trigger] prev[i]) by {
            let j = choose|j: int| 0 <= j < init.len() && init[j] == prev[i].3;
            assert(times[j] == init[j]);
        }
        lemma_filter_none(prev, p);
        assert(times[d] == times.last());
        lemma_pre_rows_at_count(rows, times.last(), regions, q);
    } else {
        assert(init[d] == times[d]);
        lemma_pre_table_count(rows, init, regions, d, q);
        assert(times[d] != times.last());
        assert forall|i: int| 0 <= i < more.len() implies !p(#[trigger] more[i]) by {}
        lemma_filter_none(more, p);
    }
}

/// The predispatch table of the rows (as `calculate_predispatch_average`
/// returns it):
/// - each entry of region `g` at time `t` averages exactly the rows whose
///   region is `g` and whose time equals `t` in every field, one price per row:
///   columns 1 and 5 for a region named `NSW`, else 8 and 12 for `VIC`, else 29
///   and 33 for `QLD`, else 17 and 19 for `SA`; the region and time are those
///   of some row;
/// - the entries come in chronological order;
/// - every row of a region with one of those marks has exactly one entry for
///   its region and time.
pub proof fn law_predispatch_table(rows: Seq<Sensitivity>, table: Seq<(Seq<char>, Dec, Dec, DateTime)>)
    requires
        predispatch_of(rows) == Some(table),
    ensures
        forall|i: int|
            0 <= i < table.len() ==> {
                &&& scenario_averages(
                    (#[trigger] table[i]).0,
                    rows.filter(at_region_time(table[i].0, table[i].3)),
                    table[i].1,
                    table[i].2,
                )
                &&& sensitivity_regions(rows).contains(table[i].0)
                &&& sensitivity_times(rows).contains(table[i].3)
            },
        forall|i: int, k: int|
            0 <= i < k < table.len() ==> not_after((#[trigger] table[i]).3, (#[trigger] table[k]).3),
        forall|s: Sensitivity|
            #[trigger] rows.contains(s) && has_region_mark(s.regionid@) ==> table.filter(
                predispatch_key(s.regionid@, s.datetime),
            ).len() == 1,
{
    let times = sorted_keys::<DateTime>(sensitivity_times(rows));
    let regions = sorted_keys::<String>(sensitivity_regions(rows));
    lemma_sorted_keys::<DateTime>(sensitivity_times(rows));
    lemma_sorted_keys::<String>(sensitivity_regions(rows));
    lemma_pre_table(rows, times, regions);
    lemma_pre_table_order(rows, times, regions);
    assert forall|i: int| 0 <= i < table.len() implies {
        &&& scenario_averages(
            (#[trigger] table[i]).0,
            rows.filter(at_region_time(table[i].0, table[i].3)),
            table[i].1,
            table[i].2,
        )
        &&& sensitivity_regions(rows).contains(table[i].0)
        &&& sensitivity_times(rows).contains(table[i].3)
    } by {
        lemma_sensitivities_at(rows, table[i].0, table[i].3);
        assert(predispatch_table(rows, times, regions).unwrap() == table);
        let tab = predispatch_table(rows, times, regions).unwrap();
        assert(tab[i] == table[i]);
        assert(times.contains((tab[i]).3) && regions.contains(tab[i].0) && pre_values(rows, tab[i]));
        assert(pre_values(rows, table[i]));
        assert(regions.contains(table[i].0));
        assert(times.contains(table[i].3));
    }
    assert forall|i: int, k: int| 0 <= i < k < table.len() implies not_after(
        (#[trigger] table[i]).3,
        (#[trigger] table[k]).3,
    ) by {
        let tab = predispatch_table(rows, times, regions).unwrap();
        assert(tab[i] == table[i] && tab[k] == table[k]);
        assert(tab[i].3 == tab[k].3 || date_time_before(tab[i].3, tab[k].3));
        law_date_time_order(table[i].3, table[k].3);
    }
    assert forall|s: Sensitivity| #[trigger]
        rows.contains(s) && has_region_mark(s.regionid@) implies table.filter(
        predispatch_key(s.regionid@, s.datetime),
    ).len() == 1 by {
        let j = choose|j: int| 0 <= j < rows.len() && rows[j] == s;
        assert(sensitivity_times(rows)[j] == s.datetime);
        assert(sensitivity_times(rows).contains(s.datetime));
        assert(sensitivity_regions(rows)[j] == s.regionid@);
        assert(sensitivity_regions(rows).contains(s.regionid@));
        let d = choose|d: int| 0 <= d < times.len() && times[d] == s.datetime;
        let q = choose|q: int| 0 <= q < regions.len() && regions[q] == s.regionid@;
        lemma_pre_table_count(rows, times, regions, d, q);
    }
}

// ---------------------------------------------------------------------------
// Dispatch table
// ---------------------------------------------------------------------------

/// The prices of a region at a time are those of the rows whose region and
/// settlement time equal them.
pub proof fn lemma_dispatch_prices_at(rows: Seq<Dispatch>, g: Seq<char>, t: DateTime)
    ensures
        dispatch_prices_at(rows, g, t) == rrps(rows.filter(dispatch_at(g, t))),
    decreases rows.len(),
{
    reveal(Seq::filter);
    if rows.len() > 0 {
        let init = rows.drop_last();
        lemma_dispatch_prices_at(init, g, t);
        let fi = init.filter(dispatch_at(g, t));
        assert(rrps(fi.push(rows.last())) =~= rrps(fi).push(rows.last().rrp));
    } else {
        assert(rrps(rows.filter(dispatch_at(g, t))) =~= Seq::<Dec>::empty());
    }
}

/// The average of a dispatch entry, as the table computes it.
spec fn disp_values(rows: Seq<Dispatch>, x: (Seq<char>, Dec, DateTime)) -> bool {
    &&& has_region_mark(x.0)
    &&& Some(x.1) == spec_average(dispatch_prices_at(rows, x.0, x.2))
}

proof fn lemma_marked_entries(region: Seq<char>, mark: Seq<char>, row: (Seq<char>, Dec, DateTime))
    ensures
        forall|i: int|
            0 <= i < row_if_marked(region, mark, row).len() ==> #[trigger] row_if_marked(region, mark, row)[i]
                == row,
{
}

proof fn lemma_marked_count(
    region: Seq<char>,
    mark: Seq<char>,
    row: (Seq<char>, Dec, DateTime),
    p: spec_fn((Seq<char>, Dec, DateTime)) -> bool,
)
    ensures
        row_if_marked(region, mark, row).filter(p).len() == (if has_substring(region, mark) && p(row) {
            1int
        } else {
            0int
        }),
{
    if has_substring(region, mark) {
        lemma_filter_push(Seq::<(Seq<char>, Dec, DateTime)>::empty(), row, p);
        assert(Seq::<(Seq<char>, Dec, DateTime)>::empty().push(row) =~= seq![row]);
        lemma_filter_none(Seq::<(Seq<char>, Dec, DateTime)>::empty(), p);
    } else {
        lemma_filter_none(Seq::<(Seq<char>, Dec, DateTime)>::empty(), p);
    }
}

/// Every entry of the rows at one time has that time, a listed region, and
/// its average.
proof fn lemma_disp_rows_at(rows: Seq<Dispatch>, at: DateTime, regions: Seq<Seq<char>>)
    requires
        dispatch_rows_at(rows, at, regions) is Some,
    ensures
        ({
            let more = dispatch_rows_at(rows, at, regions).unwrap();
            forall|i: int|
                0 <= i < more.len() ==> (#[trigger] more[i]).2 == at && regions.contains(more[i].0)
                    && disp_values(rows, more[i])
        }),
    decreases regions.len(),
{
    if regions.len() > 0 {
        let init = regions.drop_last();
        lemma_disp_rows_at(rows, at, init);
        let prev = dispatch_rows_at(rows, at, init).unwrap();
        let region = regions.last();
        assert(regions.contains(region)) by {
            assert(regions[regions.len() - 1] == region);
        }
        let q = |x: (Seq<char>, Dec, DateTime)| x.2 == at && regions.contains(x.0) && disp_values(rows, x);
        assert forall|i: int| 0 <= i < prev.len() implies q(#[trigger] prev[i]) by {
            lemma_contains_drop_last(regions, prev[i].0);
        }
        if has_region_mark(region) {
            let a = spec_average(dispatch_prices_at(rows, region, at)).unwrap();
            let row = (region, a, at);
            let s1 = row_if_marked(region, "NSW"@, row);
            let s2 = row_if_marked(region, "VIC"@, row);
            let s3 = row_if_marked(region, "QLD"@, row);
            let s4 = row_if_marked(region, "SA"@, row);
            lemma_marked_entries(region, "NSW"@, row);
            lemma_marked_entries(region, "VIC"@, row);
            lemma_marked_entries(region, "QLD"@, row);
            lemma_marked_entries(region, "SA"@, row);
            assert(q(row));
            assert forall|i: int| 0 <= i < s1.len() implies q(#[trigger] s1[i]) by {}
            assert forall|i: int| 0 <= i < s2.len() implies q(#[trigger] s2[i]) by {}
            assert forall|i: int| 0 <= i < s3.len() implies q(#[trigger] s3[i]) by {}
            assert forall|i: int| 0 <= i < s4.len() implies q(#[trigger] s4[i]) by {}
            lemma_all_add(prev, s1, q);
            lemma_all_add(prev + s1, s2, q);
            lemma_all_add(prev + s1 + s2, s3, q);
            lemma_all_add(prev + s1 + s2 + s3, s4, q);
        }
    }
}

/// Every entry of the table has one of the times, a listed region, and its
/// average.
proof fn lemma_disp_table(rows: Seq<Dispatch>, times: Seq<DateTime>, regions: Seq<Seq<char>>)
    requires
        dispatch_table(rows, times, regions) is Some,
    ensures
        ({
            let tab = dispatch_table(rows, times, regions).unwrap();
            forall|i: int|
                0 <= i < tab.len() ==> times.contains((#[trigger] tab[i]).2) && regions.contains(tab[i].0)
                    && disp_values(rows, tab[i])
        }),
    decreases times.len(),
{
    if times.len() > 0 {
        let init = times.drop_last();
        lemma_disp_table(rows, init, regions);
        lemma_disp_rows_at(rows, times.last(), regions);
        let prev = dispatch_table(rows, init, regions).unwrap();
        let more = dispatch_rows_at(rows, times.last(), regions).unwrap();
        let q = |x: (Seq<char>, Dec, DateTime)|
            times.contains(x.2) && regions.contains(x.0) && disp_values(rows, x);
        assert forall|i: int| 0 <= i < prev.len() implies q(#[trigger] prev[i]) by {
            lemma_contains_drop_last(times, prev[i].2);
        }
        assert forall|i: int| 0 <= i < more.len() implies q(#[trigger] more[i]) by {
            assert(times[times.len() - 1] == times.last());
        }
        lemma_all_add(prev, more, q);
    }
}

/// The table's entries come in the order of the times.
proof fn lemma_disp_table_order(rows: Seq<Dispatch>, times: Seq<DateTime>, regions: Seq<Seq<char>>)
    requires
        dispatch_table(rows, times, regions) is Some,
        strictly_sorted::<DateTime>(times),
    ensures
        ({
            let tab = dispatch_table(rows, times, regions).unwrap();
            forall|i: int, k: int|
                0 <= i < k < tab.len() ==> (#[trigger] tab[i]).2 == (#[trigger] tab[k]).2
                    || date_time_before(tab[i].2, tab[k].2)
        }),
    decreases times.len(),
{
    if times.len() > 0 {
        let init = times.drop_last();
        lemma_sorted_drop_last::<DateTime>(times);
        lemma_disp_table_order(rows, init, regions);
        lemma_disp_table(rows, init, regions);
        lemma_disp_rows_at(rows, times.last(), regions);
        let prev = dispatch_table(rows, init, regions).unwrap();
        let more = dispatch_rows_at(rows, times.last(), regions).unwrap();
        let tab = prev + more;
        assert forall|i: int, k: int| 0 <= i < k < tab.len() implies (#[trigger] tab[i]).2 == (
        #[trigger] tab[k]).2 || date_time_before(tab[i].2, tab[k].2) by {
            if k < prev.len() {
                assert(tab[i] == prev[i] && tab[k] == prev[k]);
            } else if i < prev.len() {
                assert(tab[i] == prev[i] && tab[k] == more[k - prev.len()]);
                assert(init.contains(prev[i].2));
                let d = choose|d: int| 0 <= d < init.len() && init[d] == prev[i].2;
                assert(times[d] == init[d]);
            } else {
                assert(tab[i] == more[i - prev.len()] && tab[k] == more[k - prev.len()]);
            }
        }
    }
}

/// In the entries of one time, each listed region has one entry per mark its
/// name contains.
proof fn lemma_disp_rows_at_count(rows: Seq<Dispatch>, at: DateTime, regions: Seq<Seq<char>>, q: int)
    requires
        dispatch_rows_at(rows, at, regions) is Some,
        strictly_sorted::<String>(regions),
        0 <= q < regions.len(),
    ensures
        dispatch_rows_at(rows, at, regions).unwrap().filter(dispatch_key(regions[q], at)).len()
            == mark_count(regions[q]),
    decreases regions.len(),
{
    let init = regions.drop_last();
    let prev = dispatch_rows_at(rows, at, init).unwrap();
    let region = regions.last();
    let p = dispatch_key(regions[q], at);
    lemma_sorted_drop_last::<String>(regions);
    lemma_disp_rows_at(rows, at, init);
    if q == regions.len() - 1 {
        assert forall|i: int| 0 <= i < prev.len() implies !p(#[trigger] prev[i]) by {
            let j = choose|j: int| 0 <= j < init.len() && init[j] == prev[i].0;
            assert(regions[j] == init[j]);
        }
        lemma_filter_none(prev, p);
    } else {
        assert(init[q] == regions[q]);
        lemma_disp_rows_at_count(rows, at, init, q);
        assert(regions[q] != region);
    }
    if has_region_mark(region) {
        let a = spec_average(dispatch_prices_at(rows, region, at)).unwrap();
        let row = (region, a, at);
        let s1 = row_if_marked(region, "NSW"@, row);
        let s2 = row_if_marked(region, "VIC"@, row);
        let s3 = row_if_marked(region, "QLD"@, row);
        let s4 = row_if_marked(region, "SA"@, row);
        lemma_marked_count(region, "NSW"@, row, p);
        lemma_marked_count(region, "VIC"@, row, p);
        lemma_marked_count(region, "QLD"@, row, p);
        lemma_marked_count(region, "SA"@, row, p);
        lemma_filter_add(prev, s1, p);
        lemma_filter_add(prev + s1, s2, p);
        lemma_filter_add(prev + s1 + s2, s3, p);
        lemma_filter_add(prev + s1 + s2 + s3, s4, p);
    }
}

/// Each time and listed region has one entry per mark the region's name
/// contains.
proof fn lemma_disp_table_count(
    rows: Seq<Dispatch>,
    times: Seq<DateTime>,
    regions: Seq<Seq<char>>,
    d: int,
    q: int,
)
    requires
        dispatch_table(rows, times, regions) is Some,
        strictly_sorted::<DateTime>(times),
        strictly_sorted::<String>(regions),
        0 <= d < times.len(),
        0 <= q < regions.len(),
    ensures
        dispatch_table(rows, times, regions).unwrap().filter(dispatch_key(regions[q], times[d])).len()
            == mark_count(regions[q]),
    decreases times.len(),
{
    let init = times.drop_last();
    let prev = dispatch_table(rows, init, regions).unwrap();
    let more = dispatch_rows_at(rows, times.last(), regions).unwrap();
    let p = dispatch_key(regions[q], times[d]);
    lemma_sorted_drop_last::<DateTime>(times);
    lemma_filter_add(prev, more, p);
    lemma_disp_table(rows, init, regions);
    lemma_disp_rows_at(rows, times.last(), regions);
    if d == times.len() - 1 {
        assert forall|i: int| 0 <= i < prev.len() implies !p(#[trigger] prev[i]) by {
            let j = choose|j: int| 0 <= j < init.len() && init[j] == prev[i].2;
            assert(times[j] == init[j]);
        }
        lemma_filter_none(prev, p);
        assert(times[d] == times.last());
        lemma_disp_rows_at_count(rows, times.last(), regions, q);
    } else {
        assert(init[d] == times[d]);
        lemma_disp_table_count(rows, init, regions, d, q);
        assert(times[d] != times.last());
        assert forall|i: int| 0 <= i < more.len() implies !p(#[trigger] more[i]) by {}
        lemma_filter_none(more, p);
    }
}

/// The dispatch table of the rows (as `calculate_dispatch_average` returns
/// it):
/// - each entry of region `g` at settlement time `t` holds the average of the
///   prices of exactly the rows whose region is `g` and whose settlement time
///   equals `t`, one price per row; its region is named `NSW`, `VIC`, `QLD` or
///   `SA`, and its region and time are those of some row;
/// - the entries come in chronological order;
/// - every row's region and time has one entry for each of the marks `NSW`,
///   `VIC`, `QLD`, `SA` that the region's name contains (none for a region
///   with no mark).
pub proof fn law_dispatch_table(rows: Seq<Dispatch>, table: Seq<(Seq<char>, Dec, DateTime)>)
    requires
        dispatch_of(rows) == Some(table),
    ensures
        forall|i: int|
            0 <= i < table.len() ==> {
                &&& Some((#[trigger] table[i]).1) == spec_average(
                    rrps(rows.filter(dispatch_at(table[i].0, table[i].2))),
                )
                &&& has_region_mark(table[i].0)
                &&& dispatch_regions(rows).contains(table[i].0)
                &&& dispatch_times(rows).contains(table[i].2)
            },
        forall|i: int, k: int|
            0 <= i < k < table.len() ==> not_after((#[trigger] table[i]).2, (#[trigger] table[k]).2),
        forall|r: Dispatch| #[trigger]
            rows.contains(r) ==> table.filter(dispatch_key(r.regionid@, r.settlementdate)).len()
                == mark_count(r.regionid@),
{
    let times = sorted_keys::<DateTime>(dispatch_times(rows));
    let regions = sorted_keys::<String>(dispatch_regions(rows));
    lemma_sorted_keys::<DateTime>(dispatch_times(rows));
    lemma_sorted_keys::<String>(dispatch_regions(rows));
    lemma_disp_table(rows, times, regions);
    lemma_disp_table_order(rows, times, regions);
    assert forall|i: int| 0 <= i < table.len() implies {
        &&& Some((#[trigger] table[i]).1) == spec_average(rrps(rows.filter(dispatch_at(table[i].0, table[i].2))))
        &&& has_region_mark(table[i].0)
        &&& dispatch_regions(rows).contains(table[i].0)
        &&& dispatch_times(rows).contains(table[i].2)
    } by {
        lemma_dispatch_prices_at(rows, table[i].0, table[i].2);
        let tab = dispatch_table(rows, times, regions).unwrap();
        assert(tab[i] == table[i]);
        assert(times.contains((tab[i]).2) && regions.contains(tab[i].0) && disp_values(rows, tab[i]));
        assert(disp_values(rows, table[i]));
        assert(regions.contains(table[i].0));
        assert(times.contains(table[i].2));
    }
    assert forall|i: int, k: int| 0 <= i < k < table.len() implies not_after(
        (#[trigger] table[i]).2,
        (#[trigger] table[k]).2,
    ) by {
        let tab = dispatch_table(rows, times, regions).unwrap();
        assert(tab[i] == table[i] && tab[k] == table[k]);
        assert(tab[i].2 == tab[k].2 || date_time_before(tab[i].2, tab[k].2));
        law_date_time_order(table[i].2, table[k].2);
    }
    assert forall|r: Dispatch| #[trigger] rows.contains(r) implies table.filter(
        dispatch_key(r.regionid@, r.settlementdate),
    ).len() == mark_count(r.regionid@) by {
        let j = choose|j: int| 0 <= j < rows.len() && rows[j] == r;
        assert(dispatch_times(rows)[j] == r.settlementdate);
        assert(dispatch_times(rows).contains(r.settlementdate));
        assert(dispatch_regions(rows)[j] == r.regionid@);
        assert(dispatch_regions(rows).contains(r.regionid@));
        let d = choose|d: int| 0 <= d < times.len() && times[d] == r.settlementdate;
        let q = choose|q: int| 0 <= q < regions.len() && regions[q] == r.regionid@;
        lemma_disp_table_count(rows, times, regions, d, q);
    }
}

} // verus!

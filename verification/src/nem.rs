//! Electricity market reports: predispatch price sensitivities and dispatch
//! prices, averaged per region and settlement time.
use vstd::prelude::*;

use crate::datetime::DateTime;
use crate::decimal::{average, spec_average, Dec};
use crate::order::{lemma_sorted_keys, models, sorted_distinct, sorted_distinct_of, sorted_keys};
use crate::text::{
    contains_text, data_lines, has_substring, join_lines, join_with_newlines, law_lines_of_join,
    lemma_lines_free, lines, lines_of, strip_cr,
};

verus! {

/// What the sensitivity reports read of one row of a predispatch
/// sensitivities file: the region, the interval's time, and the regional
/// prices of the scenarios that the reports show.
#[derive(Clone, Debug)]
pub struct Sensitivity {
    pub regionid: String,
    pub datetime: DateTime,
    pub rrpeep1: Dec,
    pub rrpeep5: Dec,
    pub rrpeep8: Dec,
    pub rrpeep12: Dec,
    pub rrpeep17: Dec,
    pub rrpeep19: Dec,
    pub rrpeep29: Dec,
    pub rrpeep33: Dec,
}

/// What the dispatch reports read of one row of a public prices file: the
/// settlement time, the region and its regional reference price.
#[derive(Clone, Debug)]
pub struct Dispatch {
    pub settlementdate: DateTime,
    pub regionid: String,
    pub rrp: Dec,
}

// ---------------------------------------------------------------------------
// Text handed to the CSV reader
// ---------------------------------------------------------------------------

/// The text that the reports hand to the CSV reader: every line but the first,
/// joined by `\n`.
pub fn csv_body(file: &str) -> (r: String)
    ensures
        r@ == join_lines(data_lines(file@)),
{
    let ls = lines(file);
    let ghost lm = ls@.map_values(|l: String| l@);
    let mut rest: Vec<String> = Vec::new();
    let mut i: usize = 1;
    while i < ls.len()
        invariant
            1 <= i,
            lm == ls@.map_values(|l: String| l@),
            i <= ls.len() || ls.len() == 0,
            rest@.map_values(|l: String| l@) == if ls.len() == 0 {
                Seq::<Seq<char>>::empty()
            } else {
                lm.subrange(1, i as int)
            },
        decreases ls.len() - i,
    {
        let ghost before = rest@;
        rest.push(ls[i].clone());
        assert(rest@.map_values(|l: String| l@) =~= before.map_values(|l: String| l@).push(lm[i as int]));
        assert(lm.subrange(1, i + 1) =~= lm.subrange(1, i as int).push(lm[i as int]));
        i = i + 1;
    }
    proof {
        if ls.len() > 0 {
            assert(lm.subrange(1, ls.len() as int) =~= lm.drop_first());
        } else {
            assert(rest@.map_values(|l: String| l@) =~= Seq::<Seq<char>>::empty());
        }
    }
    join_with_newlines(&rest)
}

/// The CSV reader is handed exactly the data lines: the lines of the text that
/// `csv_body` makes of a file are the file's lines after the first, where no
/// data line but the last ends with a carriage return and the last data line
/// is not empty.
pub proof fn law_csv_body_lines(file: Seq<char>)
    requires
        forall|i: int|
            0 <= i < data_lines(file).len() - 1 ==> strip_cr(#[trigger] data_lines(file)[i])
                == data_lines(file)[i],
        data_lines(file).len() > 0 ==> data_lines(file).last().len() > 0,
    ensures
        lines_of(join_lines(data_lines(file))) == data_lines(file),
{
    lemma_lines_free(file);
    let dl = data_lines(file);
    assert forall|i: int| 0 <= i < dl.len() implies !(#[trigger] dl[i]).contains('\n') by {
        assert(dl[i] == lines_of(file)[i + 1]);
    }
    law_lines_of_join(dl);
}

// ---------------------------------------------------------------------------
// Averages per region and time
// ---------------------------------------------------------------------------

/// The scenario pair that a region's row shows, by the first region mark its
/// name contains: `NSW` (0), `VIC` (1), `QLD` (2), `SA` (3); `None` for other
/// regions.
pub open spec fn scenario_of(region: Seq<char>) -> Option<int> {
    if has_substring(region, "NSW"@) {
        Some(0)
    } else if has_substring(region, "VIC"@) {
        Some(1)
    } else if has_substring(region, "QLD"@) {
        Some(2)
    } else if has_substring(region, "SA"@) {
        Some(3)
    } else {
        None
    }
}

/// The two prices of scenario pair `which`: 1 and 5 for NSW, 8 and 12 for VIC,
/// 29 and 33 for QLD, 17 and 19 for SA.
pub open spec fn scenario_prices(s: Sensitivity, which: int) -> (Dec, Dec) {
    if which == 0 {
        (s.rrpeep1, s.rrpeep5)
    } else if which == 1 {
        (s.rrpeep8, s.rrpeep12)
    } else if which == 2 {
        (s.rrpeep29, s.rrpeep33)
    } else {
        (s.rrpeep17, s.rrpeep19)
    }
}

/// The rows of the region at the time, in order.
pub open spec fn sensitivities_at(rows: Seq<Sensitivity>, region: Seq<char>, at: DateTime) -> Seq<Sensitivity>
    decreases rows.len(),
{
    if rows.len() == 0 {
        Seq::<Sensitivity>::empty()
    } else {
        let head = sensitivities_at(rows.drop_last(), region, at);
        if rows.last().regionid@ == region && rows.last().datetime == at {
            head.push(rows.last())
        } else {
            head
        }
    }
}

/// A row of the predispatch table: region, the averages of the two scenario
/// prices, time.
pub type SensitivityAverage = (String, Dec, Dec, DateTime);

/// The model of a predispatch table row.
pub open spec fn sensitivity_row_view(a: SensitivityAverage) -> (Seq<char>, Dec, Dec, DateTime) {
    (a.0@, a.1, a.2, a.3)
}

/// The predispatch rows of one time for the regions, in order: a region with a
/// scenario pair gives the averages of its two prices over its rows at that
/// time; `None` where an average is not defined (no rows, or an overflow).
pub open spec fn predispatch_rows_at(
    rows: Seq<Sensitivity>,
    at: DateTime,
    regions: Seq<Seq<char>>,
) -> Option<Seq<(Seq<char>, Dec, Dec, DateTime)>>
    decreases regions.len(),
{
    if regions.len() == 0 {
        Some(Seq::empty())
    } else {
        match predispatch_rows_at(rows, at, regions.drop_last()) {
            None => None,
            Some(prev) => {
                let region = regions.last();
                match scenario_of(region) {
                    None => Some(prev),
                    Some(which) => {
                        let matching = sensitivities_at(rows, region, at);
                        let first = spec_average(
                            matching.map_values(|s: Sensitivity| scenario_prices(s, which).0),
                        );
                        let second = spec_average(
                            matching.map_values(|s: Sensitivity| scenario_prices(s, which).1),
                        );
                        match (first, second) {
                            (Some(a), Some(b)) => Some(prev.push((region, a, b, at))),
                            _ => None,
                        }
                    },
                }
            },
        }
    }
}

/// The predispatch table: for each time in order, the rows of the regions.
pub open spec fn predispatch_table(
    rows: Seq<Sensitivity>,
    times: Seq<DateTime>,
    regions: Seq<Seq<char>>,
) -> Option<Seq<(Seq<char>, Dec, Dec, DateTime)>>
    decreases times.len(),
{
    if times.len() == 0 {
        Some(Seq::empty())
    } else {
        match predispatch_table(rows, times.drop_last(), regions) {
            None => None,
            Some(prev) => match predispatch_rows_at(rows, times.last(), regions) {
                None => None,
                Some(more) => Some(prev + more),
            },
        }
    }
}

/// The regions of the rows.
pub open spec fn sensitivity_regions(rows: Seq<Sensitivity>) -> Seq<Seq<char>> {
    rows.map_values(|s: Sensitivity| s.regionid@)
}

/// The times of the rows.
pub open spec fn sensitivity_times(rows: Seq<Sensitivity>) -> Seq<DateTime> {
    rows.map_values(|s: Sensitivity| s.datetime)
}

/// The regions and times of the rows.
fn sensitivity_keys(rows: &Vec<Sensitivity>) -> (r: (Vec<String>, Vec<DateTime>))
    ensures
        models(r.0@) == sensitivity_regions(rows@),
        r.1@ == sensitivity_times(rows@),
{
    let mut regions: Vec<String> = Vec::new();
    let mut times: Vec<DateTime> = Vec::new();
    let mut i: usize = 0;
    while i < rows.len()
        invariant
            0 <= i <= rows.len(),
            models(regions@) == sensitivity_regions(rows@.take(i as int)),
            times@ == sensitivity_times(rows@.take(i as int)),
        decreases rows.len() - i,
    {
        let ghost before = regions@;
        regions.push(rows[i].regionid.clone());
        times.push(rows[i].datetime);
        assert(models(regions@) =~= models(before).push(rows@[i as int].regionid@));
        assert(sensitivity_regions(rows@.take(i + 1)) =~= sensitivity_regions(rows@.take(i as int)).push(
            rows@[i as int].regionid@,
        ));
        assert(sensitivity_times(rows@.take(i + 1)) =~= sensitivity_times(rows@.take(i as int)).push(
            rows@[i as int].datetime,
        ));
        i = i + 1;
    }
    assert(rows@.take(rows.len() as int) =~= rows@);
    (regions, times)
}

/// The scenario pair of a region, as `scenario_of` describes it.
fn scenario_for(region: &String) -> (r: Option<u8>)
    ensures
        r matches Some(w) ==> scenario_of(region@) == Some(w as int),
        r is None ==> scenario_of(region@) is None,
{
    proof {
        reveal_strlit("NSW");
        reveal_strlit("VIC");
        reveal_strlit("QLD");
        reveal_strlit("SA");
    }
    if contains_text(region.as_str(), "NSW") {
        Some(0)
    } else if contains_text(region.as_str(), "VIC") {
        Some(1)
    } else if contains_text(region.as_str(), "QLD") {
        Some(2)
    } else if contains_text(region.as_str(), "SA") {
        Some(3)
    } else {
        None
    }
}

/// The two scenario prices of the rows of the region at the time.
fn scenario_price_lists(rows: &Vec<Sensitivity>, region: &String, at: DateTime, which: u8) -> (r: (
    Vec<Dec>,
    Vec<Dec>,
))
    ensures
        r.0@ == sensitivities_at(rows@, region@, at).map_values(
            |s: Sensitivity| scenario_prices(s, which as int).0,
        ),
        r.1@ == sensitivities_at(rows@, region@, at).map_values(
            |s: Sensitivity| scenario_prices(s, which as int).1,
        ),
{
    let mut first: Vec<Dec> = Vec::new();
    let mut second: Vec<Dec> = Vec::new();
    let mut i: usize = 0;
    while i < rows.len()
        invariant
            0 <= i <= rows.len(),
            first@ == sensitivities_at(rows@.take(i as int), region@, at).map_values(
                |s: Sensitivity| scenario_prices(s, which as int).0,
            ),
            second@ == sensitivities_at(rows@.take(i as int), region@, at).map_values(
                |s: Sensitivity| scenario_prices(s, which as int).1,
            ),
        decreases rows.len() - i,
    {
        let ghost before = sensitivities_at(rows@.take(i as int), region@, at);
        assert(rows@.take(i + 1).drop_last() =~= rows@.take(i as int));
        let row = &rows[i];
        if row.regionid == *region && row.datetime == at {
            let (a, b) = if which == 0 {
                (row.rrpeep1, row.rrpeep5)
            } else if which == 1 {
                (row.rrpeep8, row.rrpeep12)
            } else if which == 2 {
                (row.rrpeep29, row.rrpeep33)
            } else {
                (row.rrpeep17, row.rrpeep19)
            };
            first.push(a);
            second.push(b);
            assert(sensitivities_at(rows@.take(i + 1), region@, at) == before.push(rows@[i as int]));
            assert(before.push(rows@[i as int]).map_values(
                |s: Sensitivity| scenario_prices(s, which as int).0,
            ) =~= before.map_values(|s: Sensitivity| scenario_prices(s, which as int).0).push(a));
            assert(before.push(rows@[i as int]).map_values(
                |s: Sensitivity| scenario_prices(s, which as int).1,
            ) =~= before.map_values(|s: Sensitivity| scenario_prices(s, which as int).1).push(b));
        }
        i = i + 1;
    }
    assert(rows@.take(rows.len() as int) =~= rows@);
    (first, second)
}

/// The predispatch table, or `None` where it is not defined.
fn predispatch_averages(rows: &Vec<Sensitivity>) -> (r: Option<Vec<SensitivityAverage>>)
    ensures
        r is Some <==> predispatch_of(rows@) is Some,
        r matches Some(out) ==> predispatch_of(rows@) == Some(
            out@.map_values(|a: SensitivityAverage| sensitivity_row_view(a)),
        ),
{
    let (all_regions, all_times) = sensitivity_keys(rows);
    let regions = sorted_distinct(&all_regions);
    let times = sorted_distinct(&all_times);
    let ghost rm = models(regions@);
    let ghost tm = models(times@);
    assert(models(all_times@) =~= all_times@);
    let mut out: Vec<SensitivityAverage> = Vec::new();
    let mut d: usize = 0;
    assert(tm.take(0) =~= Seq::<DateTime>::empty());
    while d < times.len()
        invariant
            0 <= d <= times.len(),
            rm == models(regions@),
            tm == models(times@),
            predispatch_table(rows@, tm.take(d as int), rm) == Some(
                out@.map_values(|a: SensitivityAverage| sensitivity_row_view(a)),
            ),
            sorted_distinct_of::<DateTime>(tm, sensitivity_times(rows@)),
            sorted_distinct_of::<String>(rm, sensitivity_regions(rows@)),
        decreases times.len() - d,
    {
        let at = times[d];
        let ghost start = out@.map_values(|a: SensitivityAverage| sensitivity_row_view(a));
        let mut g: usize = 0;
        assert(rm.take(0) =~= Seq::<Seq<char>>::empty());
        assert(start + Seq::empty() =~= start);
        while g < regions.len()
            invariant
                0 <= g <= regions.len(),
                d < times.len(),
                at == tm[d as int],
                rm == models(regions@),
                tm == models(times@),
                predispatch_table(rows@, tm.take(d as int), rm) == Some(start),
                sorted_distinct_of::<DateTime>(tm, sensitivity_times(rows@)),
                sorted_distinct_of::<String>(rm, sensitivity_regions(rows@)),
                predispatch_rows_at(rows@, at, rm.take(g as int)) matches Some(more) && out@.map_values(
                    |a: SensitivityAverage| sensitivity_row_view(a),
                ) == start + more,
            decreases regions.len() - g,
        {
            let region = &regions[g];
            let ghost prev = predispatch_rows_at(rows@, at, rm.take(g as int))->Some_0;
            assert(rm.take(g + 1).drop_last() =~= rm.take(g as int));
            assert(rm.take(g + 1).last() == region@);
            match scenario_for(region) {
                None => {},
                Some(which) => {
                    let (firsts, seconds) = scenario_price_lists(rows, region, at, which);
                    let a = average(&firsts);
                    let b = average(&seconds);
                    match (a, b) {
                        (Some(a), Some(b)) => {
                            let ghost before = out@;
                            out.push((region.clone(), a, b, at));
                            assert(out@.map_values(|x: SensitivityAverage| sensitivity_row_view(x))
                                =~= before.map_values(|x: SensitivityAverage| sensitivity_row_view(x)).push(
                                (region@, a, b, at),
                            ));
                            assert(start + prev.push((region@, a, b, at)) =~= (start + prev).push(
                                (region@, a, b, at),
                            ));
                        },
                        _ => {
                            proof {
                                lemma_rows_at_none_extends(rows@, at, rm, g + 1);
                                lemma_table_none_from_rows(rows@, tm, rm, d as int);
                                lemma_sorted_keys::<DateTime>(sensitivity_times(rows@));
                                lemma_sorted_keys::<String>(sensitivity_regions(rows@));
                            }
                            return None;
                        },
                    }
                },
            }
            g = g + 1;
        }
        proof {
            assert(rm.take(regions.len() as int) =~= rm);
            assert(tm.take(d + 1).drop_last() =~= tm.take(d as int));
            assert(tm.take(d + 1).last() == at);
        }
        d = d + 1;
    }
    proof {
        assert(tm.take(times.len() as int) =~= tm);
        lemma_sorted_keys::<DateTime>(sensitivity_times(rows@));
        lemma_sorted_keys::<String>(sensitivity_regions(rows@));
    }
    Some(out)
}

/// Once the rows of a prefix of the regions are undefined, so are those of all
/// regions.
proof fn lemma_rows_at_none_extends(rows: Seq<Sensitivity>, at: DateTime, regions: Seq<Seq<char>>, k: int)
    requires
        0 <= k <= regions.len(),
        predispatch_rows_at(rows, at, regions.take(k)) is None,
    ensures
        predispatch_rows_at(rows, at, regions) is None,
    decreases regions.len() - k,
{
    if k == regions.len() {
        assert(regions.take(k) =~= regions);
    } else {
        assert(regions.take(k + 1).drop_last() =~= regions.take(k));
        lemma_rows_at_none_extends(rows, at, regions, k + 1);
    }
}

/// Once the rows of one time are undefined, so is the table.
proof fn lemma_table_none_from_rows(rows: Seq<Sensitivity>, times: Seq<DateTime>, regions: Seq<Seq<char>>, d: int)
    requires
        0 <= d < times.len(),
        predispatch_rows_at(rows, times[d], regions) is None,
    ensures
        predispatch_table(rows, times, regions) is None,
    decreases times.len() - d,
{
    lemma_table_none_extends(rows, times, regions, d + 1);
}

proof fn lemma_table_none_extends(rows: Seq<Sensitivity>, times: Seq<DateTime>, regions: Seq<Seq<char>>, k: int)
    requires
        1 <= k <= times.len(),
        predispatch_table(rows, times.take(k), regions) is None || predispatch_rows_at(
            rows,
            times[k - 1],
            regions,
        ) is None,
    ensures
        predispatch_table(rows, times, regions) is None,
    decreases times.len() - k,
{
    assert(times.take(k).drop_last() =~= times.take(k - 1));
    assert(times.take(k).last() == times[k - 1]);
    assert(predispatch_table(rows, times.take(k), regions) is None);
    if k == times.len() {
        assert(times.take(k) =~= times);
    } else {
        assert(times.take(k + 1).drop_last() =~= times.take(k));
        lemma_table_none_extends(rows, times, regions, k + 1);
    }
}


// ---------------------------------------------------------------------------
// Dispatch prices
// ---------------------------------------------------------------------------

/// The prices of the rows of the region at the settlement time, in order.
pub open spec fn dispatch_prices_at(rows: Seq<Dispatch>, region: Seq<char>, at: DateTime) -> Seq<Dec>
    decreases rows.len(),
{
    if rows.len() == 0 {
        Seq::<Dec>::empty()
    } else {
        let head = dispatch_prices_at(rows.drop_last(), region, at);
        if rows.last().regionid@ == region && rows.last().settlementdate == at {
            head.push(rows.last().rrp)
        } else {
            head
        }
    }
}

/// A row of the dispatch table: region, average price, settlement time.
pub type DispatchAverage = (String, Dec, DateTime);

/// The model of a dispatch table row.
pub open spec fn dispatch_row_view(a: DispatchAverage) -> (Seq<char>, Dec, DateTime) {
    (a.0@, a.1, a.2)
}

/// One copy of the row if the region's name contains the mark.
pub open spec fn row_if_marked(region: Seq<char>, mark: Seq<char>, row: (Seq<char>, Dec, DateTime)) -> Seq<
    (Seq<char>, Dec, DateTime),
> {
    if has_substring(region, mark) {
        seq![row]
    } else {
        Seq::empty()
    }
}

/// The region's name contains one of the marks `NSW`, `VIC`, `QLD`, `SA`.
pub open spec fn has_region_mark(region: Seq<char>) -> bool {
    has_substring(region, "NSW"@) || has_substring(region, "VIC"@) || has_substring(region, "QLD"@)
        || has_substring(region, "SA"@)
}

/// The dispatch rows of one time for the regions, in order: a region gives one
/// row for each of the marks `NSW`, `VIC`, `QLD`, `SA` (checked in that order)
/// that its name contains, with the average of its prices at that time;
/// `None` where such an average is not defined.
pub open spec fn dispatch_rows_at(
    rows: Seq<Dispatch>,
    at: DateTime,
    regions: Seq<Seq<char>>,
) -> Option<Seq<(Seq<char>, Dec, DateTime)>>
    decreases regions.len(),
{
    if regions.len() == 0 {
        Some(Seq::empty())
    } else {
        match dispatch_rows_at(rows, at, regions.drop_last()) {
            None => None,
            Some(prev) => {
                let region = regions.last();
                if !has_region_mark(region) {
                    Some(prev)
                } else {
                    match spec_average(dispatch_prices_at(rows, region, at)) {
                        None => None,
                        Some(a) => Some(
                            prev + row_if_marked(region, "NSW"@, (region, a, at)) + row_if_marked(
                                region,
                                "VIC"@,
                                (region, a, at),
                            ) + row_if_marked(region, "QLD"@, (region, a, at)) + row_if_marked(
                                region,
                                "SA"@,
                                (region, a, at),
                            ),
                        ),
                    }
                }
            },
        }
    }
}

/// The dispatch table: for each settlement time in order, the rows of the
/// regions.
pub open spec fn dispatch_table(
    rows: Seq<Dispatch>,
    times: Seq<DateTime>,
    regions: Seq<Seq<char>>,
) -> Option<Seq<(Seq<char>, Dec, DateTime)>>
    decreases times.len(),
{
    if times.len() == 0 {
        Some(Seq::empty())
    } else {
        match dispatch_table(rows, times.drop_last(), regions) {
            None => None,
            Some(prev) => match dispatch_rows_at(rows, times.last(), regions) {
                None => None,
                Some(more) => Some(prev + more),
            },
        }
    }
}

/// The regions of the rows.
pub open spec fn dispatch_regions(rows: Seq<Dispatch>) -> Seq<Seq<char>> {
    rows.map_values(|s: Dispatch| s.regionid@)
}

/// The settlement times of the rows.
pub open spec fn dispatch_times(rows: Seq<Dispatch>) -> Seq<DateTime> {
    rows.map_values(|s: Dispatch| s.settlementdate)
}

/// The regions and settlement times of the rows.
fn dispatch_keys(rows: &Vec<Dispatch>) -> (r: (Vec<String>, Vec<DateTime>))
    ensures
        models(r.0@) == dispatch_regions(rows@),
        r.1@ == dispatch_times(rows@),
{
    let mut regions: Vec<String> = Vec::new();
    let mut times: Vec<DateTime> = Vec::new();
    let mut i: usize = 0;
    while i < rows.len()
        invariant
            0 <= i <= rows.len(),
            models(regions@) == dispatch_regions(rows@.take(i as int)),
            times@ == dispatch_times(rows@.take(i as int)),
        decreases rows.len() - i,
    {
        let ghost before = regions@;
        regions.push(rows[i].regionid.clone());
        times.push(rows[i].settlementdate);
        assert(models(regions@) =~= models(before).push(rows@[i as int].regionid@));
        assert(dispatch_regions(rows@.take(i + 1)) =~= dispatch_regions(rows@.take(i as int)).push(
            rows@[i as int].regionid@,
        ));
        assert(dispatch_times(rows@.take(i + 1)) =~= dispatch_times(rows@.take(i as int)).push(
            rows@[i as int].settlementdate,
        ));
        i = i + 1;
    }
    assert(rows@.take(rows.len() as int) =~= rows@);
    (regions, times)
}

/// The prices of the rows of the region at the time.
fn dispatch_price_list(rows: &Vec<Dispatch>, region: &String, at: DateTime) -> (r: Vec<Dec>)
    ensures
        r@ == dispatch_prices_at(rows@, region@, at),
{
    let mut prices: Vec<Dec> = Vec::new();
    let mut i: usize = 0;
    while i < rows.len()
        invariant
            0 <= i <= rows.len(),
            prices@ == dispatch_prices_at(rows@.take(i as int), region@, at),
        decreases rows.len() - i,
    {
        assert(rows@.take(i + 1).drop_last() =~= rows@.take(i as int));
        if rows[i].regionid == *region && rows[i].settlementdate == at {
            prices.push(rows[i].rrp);
        }
        i = i + 1;
    }
    assert(rows@.take(rows.len() as int) =~= rows@);
    prices
}

/// Appends the row if the region's name contains the mark.
fn push_if_marked(out: &mut Vec<DispatchAverage>, region: &String, mark: &str, a: Dec, at: DateTime)
    ensures
        final(out)@.map_values(|x: DispatchAverage| dispatch_row_view(x)) == old(out)@.map_values(
            |x: DispatchAverage| dispatch_row_view(x),
        ) + row_if_marked(region@, mark@, (region@, a, at)),
{
    let ghost before = out@;
    if contains_text(region.as_str(), mark) {
        out.push((region.clone(), a, at));
        assert(out@.map_values(|x: DispatchAverage| dispatch_row_view(x)) =~= before.map_values(
            |x: DispatchAverage| dispatch_row_view(x),
        ) + seq![(region@, a, at)]);
    } else {
        assert(out@.map_values(|x: DispatchAverage| dispatch_row_view(x)) =~= before.map_values(
            |x: DispatchAverage| dispatch_row_view(x),
        ) + Seq::<(Seq<char>, Dec, DateTime)>::empty());
    }
}

proof fn lemma_dispatch_rows_none_extends(rows: Seq<Dispatch>, at: DateTime, regions: Seq<Seq<char>>, k: int)
    requires
        0 <= k <= regions.len(),
        dispatch_rows_at(rows, at, regions.take(k)) is None,
    ensures
        dispatch_rows_at(rows, at, regions) is None,
    decreases regions.len() - k,
{
    if k == regions.len() {
        assert(regions.take(k) =~= regions);
    } else {
        assert(regions.take(k + 1).drop_last() =~= regions.take(k));
        lemma_dispatch_rows_none_extends(rows, at, regions, k + 1);
    }
}

proof fn lemma_dispatch_table_none_extends(rows: Seq<Dispatch>, times: Seq<DateTime>, regions: Seq<Seq<char>>, k: int)
    requires
        1 <= k <= times.len(),
        dispatch_table(rows, times.take(k), regions) is None || dispatch_rows_at(
            rows,
            times[k - 1],
            regions,
        ) is None,
    ensures
        dispatch_table(rows, times, regions) is None,
    decreases times.len() - k,
{
    assert(times.take(k).drop_last() =~= times.take(k - 1));
    assert(times.take(k).last() == times[k - 1]);
    assert(dispatch_table(rows, times.take(k), regions) is None);
    if k == times.len() {
        assert(times.take(k) =~= times);
    } else {
        assert(times.take(k + 1).drop_last() =~= times.take(k));
        lemma_dispatch_table_none_extends(rows, times, regions, k + 1);
    }
}

/// The dispatch table, or `None` where it is not defined.
fn dispatch_averages(rows: &Vec<Dispatch>) -> (r: Option<Vec<DispatchAverage>>)
    ensures
        r is Some <==> dispatch_of(rows@) is Some,
        r matches Some(out) ==> dispatch_of(rows@) == Some(
            out@.map_values(|a: DispatchAverage| dispatch_row_view(a)),
        ),
{
    proof {
        reveal_strlit("NSW");
        reveal_strlit("VIC");
        reveal_strlit("QLD");
        reveal_strlit("SA");
    }
    let (all_regions, all_times) = dispatch_keys(rows);
    let regions = sorted_distinct(&all_regions);
    let times = sorted_distinct(&all_times);
    let ghost rm = models(regions@);
    let ghost tm = models(times@);
    assert(models(all_times@) =~= all_times@);
    let mut out: Vec<DispatchAverage> = Vec::new();
    let mut d: usize = 0;
    assert(tm.take(0) =~= Seq::<DateTime>::empty());
    while d < times.len()
        invariant
            0 <= d <= times.len(),
            rm == models(regions@),
            tm == models(times@),
            dispatch_table(rows@, tm.take(d as int), rm) == Some(
                out@.map_values(|a: DispatchAverage| dispatch_row_view(a)),
            ),
            sorted_distinct_of::<DateTime>(tm, dispatch_times(rows@)),
            sorted_distinct_of::<String>(rm, dispatch_regions(rows@)),
        decreases times.len() - d,
    {
        let at = times[d];
        let ghost start = out@.map_values(|a: DispatchAverage| dispatch_row_view(a));
        let mut g: usize = 0;
        assert(rm.take(0) =~= Seq::<Seq<char>>::empty());
        assert(start + Seq::empty() =~= start);
        while g < regions.len()
            invariant
                0 <= g <= regions.len(),
                d < times.len(),
                at == tm[d as int],
                rm == models(regions@),
                tm == models(times@),
                dispatch_table(rows@, tm.take(d as int), rm) == Some(start),
                sorted_distinct_of::<DateTime>(tm, dispatch_times(rows@)),
                sorted_distinct_of::<String>(rm, dispatch_regions(rows@)),
                dispatch_rows_at(rows@, at, rm.take(g as int)) matches Some(more) && out@.map_values(
                    |a: DispatchAverage| dispatch_row_view(a),
                ) == start + more,
            decreases regions.len() - g,
        {
            let region = &regions[g];
            let ghost prev = dispatch_rows_at(rows@, at, rm.take(g as int))->Some_0;
            assert(rm.take(g + 1).drop_last() =~= rm.take(g as int));
            assert(rm.take(g + 1).last() == region@);
            let nsw = contains_text(region.as_str(), "NSW");
            let vic = contains_text(region.as_str(), "VIC");
            let qld = contains_text(region.as_str(), "QLD");
            let sa = contains_text(region.as_str(), "SA");
            if nsw || vic || qld || sa {
                let prices = dispatch_price_list(rows, region, at);
                match average(&prices) {
                    None => {
                        proof {
                            lemma_dispatch_rows_none_extends(rows@, at, rm, g + 1);
                            lemma_dispatch_table_none_extends(rows@, tm, rm, d + 1);
                            lemma_sorted_keys::<DateTime>(dispatch_times(rows@));
                            lemma_sorted_keys::<String>(dispatch_regions(rows@));
                        }
                        return None;
                    },
                    Some(a) => {
                        let ghost o0 = out@.map_values(|x: DispatchAverage| dispatch_row_view(x));
                        push_if_marked(&mut out, region, "NSW", a, at);
                        push_if_marked(&mut out, region, "VIC", a, at);
                        push_if_marked(&mut out, region, "QLD", a, at);
                        push_if_marked(&mut out, region, "SA", a, at);
                        let ghost row = (region@, a, at);
                        assert(out@.map_values(|x: DispatchAverage| dispatch_row_view(x)) =~= start + (
                        prev + row_if_marked(region@, "NSW"@, row) + row_if_marked(region@, "VIC"@, row)
                            + row_if_marked(region@, "QLD"@, row) + row_if_marked(region@, "SA"@, row)));
                    },
                }
            }
            g = g + 1;
        }
        proof {
            assert(rm.take(regions.len() as int) =~= rm);
            assert(tm.take(d + 1).drop_last() =~= tm.take(d as int));
            assert(tm.take(d + 1).last() == at);
        }
        d = d + 1;
    }
    proof {
        assert(tm.take(times.len() as int) =~= tm);
        lemma_sorted_keys::<DateTime>(dispatch_times(rows@));
        lemma_sorted_keys::<String>(dispatch_regions(rows@));
    }
    Some(out)
}

/// The predispatch table of the rows: for their times and then their regions,
/// each once and in order; `None` where an average is not defined.
pub open spec fn predispatch_of(rows: Seq<Sensitivity>) -> Option<Seq<(Seq<char>, Dec, Dec, DateTime)>> {
    predispatch_table(
        rows,
        sorted_keys::<DateTime>(sensitivity_times(rows)),
        sorted_keys::<String>(sensitivity_regions(rows)),
    )
}

/// The predispatch table is defined: the input on which the report does not
/// panic.
pub open spec fn predispatch_defined(rows: Seq<Sensitivity>) -> bool {
    predispatch_of(rows) is Some
}

/// `out` is the predispatch table of the rows.
pub open spec fn is_predispatch_table(rows: Seq<Sensitivity>, out: Seq<SensitivityAverage>) -> bool {
    predispatch_of(rows) == Some(out.map_values(|a: SensitivityAverage| sensitivity_row_view(a)))
}

/// For each time (in order) and each region (in order) that has a scenario
/// pair (its name contains `NSW`, `VIC`, `QLD` or `SA`, checked in that
/// order), the averages of the pair's two prices over the region's rows at
/// that time.
pub fn calculate_predispatch_average(rows: &Vec<Sensitivity>) -> (r: Vec<SensitivityAverage>)
    requires
        predispatch_defined(rows@),
    ensures
        is_predispatch_table(rows@, r@),
{
    match predispatch_averages(rows) {
        Some(out) => out,
        None => Vec::new(),
    }
}

/// The predispatch table where it is defined, `None` where the report would
/// panic: a region without rows at some time, or an overflow.
pub fn try_calculate_predispatch_average(rows: &Vec<Sensitivity>) -> (r: Option<Vec<SensitivityAverage>>)
    ensures
        r is Some <==> predispatch_defined(rows@),
        r matches Some(out) ==> is_predispatch_table(rows@, out@),
{
    if predispatch_averages(rows).is_some() {
        Some(calculate_predispatch_average(rows))
    } else {
        None
    }
}

/// The dispatch table of the rows: for their settlement times and then their
/// regions, each once and in order; `None` where an average is not defined.
pub open spec fn dispatch_of(rows: Seq<Dispatch>) -> Option<Seq<(Seq<char>, Dec, DateTime)>> {
    dispatch_table(
        rows,
        sorted_keys::<DateTime>(dispatch_times(rows)),
        sorted_keys::<String>(dispatch_regions(rows)),
    )
}

/// The dispatch table is defined: the input on which the report does not
/// panic.
pub open spec fn dispatch_defined(rows: Seq<Dispatch>) -> bool {
    dispatch_of(rows) is Some
}

/// `out` is the dispatch table of the rows.
pub open spec fn is_dispatch_table(rows: Seq<Dispatch>, out: Seq<DispatchAverage>) -> bool {
    dispatch_of(rows) == Some(out.map_values(|a: DispatchAverage| dispatch_row_view(a)))
}

/// For each settlement time (in order) and each region (in order), one row
/// with the region's average price at that time for each of the marks `NSW`,
/// `VIC`, `QLD`, `SA` that its name contains.
pub fn calculate_dispatch_average(rows: &Vec<Dispatch>) -> (r: Vec<DispatchAverage>)
    requires
        dispatch_defined(rows@),
    ensures
        is_dispatch_table(rows@, r@),
{
    match dispatch_averages(rows) {
        Some(out) => out,
        None => Vec::new(),
    }
}

/// The dispatch table where it is defined, `None` where the report would
/// panic: a region without rows at some time, or an overflow.
pub fn try_calculate_dispatch_average(rows: &Vec<Dispatch>) -> (r: Option<Vec<DispatchAverage>>)
    ensures
        r is Some <==> dispatch_defined(rows@),
        r matches Some(out) ==> is_dispatch_table(rows@, out@),
{
    if dispatch_averages(rows).is_some() {
        Some(calculate_dispatch_average(rows))
    } else {
        None
    }
}

} // verus!

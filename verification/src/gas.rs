//! The gas report of network quantities (file `int271`): one row per line,
//! totalled by network and by network, month and year.
use vstd::prelude::*;

use crate::aggregate::{key_totals, pair_keys, totals_by_key, totals_defined, values_for_key};
use crate::datetime::{
    chrono_date_from_str, chrono_date_time_from_str, parse_date, parse_date_time, Date, DateTime,
};
use crate::decimal::{decimal_from_str, decimal_round_dp, parse_decimal, spec_running_total, Dec};
use crate::order::{models, OrderedKey};
use crate::text::{
    data_lines, get_data_by_column, has_field, lines, lines_of, parse_u16, spec_parse_u16, split_on,
};

verus! {

/// A network together with the month and year of a gas date; ordered by
/// network, then month, then year.
#[derive(Clone, Copy, Debug, PartialEq, Eq, Structural)]
pub struct NetworkAndMonthYear(pub u16, pub u32, pub i32);

/// One line of the network quantity report.
#[derive(Clone, Copy, Debug, PartialEq, Eq, Structural)]
pub struct Row {
    pub network_id: u16,
    pub _nsl_update: DateTime,
    pub _gas_date: Date,
    pub _ti: u16,
    pub nsl_gj: Dec,
    pub _current_date: DateTime,
    pub network_month_and_year: NetworkAndMonthYear,
}

/// The row that a line describes: its fields are the network (a `u16`), the
/// update time, the gas date, the trading interval (a `u16`), the quantity in
/// GJ (a decimal) and the current date; `None` where a field is missing or
/// does not read.
pub open spec fn row_271_of(line: Seq<char>) -> Option<Row> {
    let f = split_on(line, ',');
    if f.len() < 6 {
        None
    } else {
        match (
            spec_parse_u16(f[0]),
            chrono_date_time_from_str(f[1], "%d %b %Y %H:%M:%S"@),
            chrono_date_from_str(f[2], "%d %b %Y"@),
            spec_parse_u16(f[3]),
            decimal_from_str(f[4]),
            chrono_date_time_from_str(f[5], "%d %b %Y %H:%M:%S"@),
        ) {
            (Some(id), Some(update), Some(gas_date), Some(ti), Some(gj), Some(current)) => Some(
                Row {
                    network_id: id,
                    _nsl_update: update,
                    _gas_date: gas_date,
                    _ti: ti,
                    nsl_gj: gj,
                    _current_date: current,
                    network_month_and_year: NetworkAndMonthYear(
                        id,
                        gas_date.month,
                        gas_date.year,
                    ),
                },
            ),
            _ => None,
        }
    }
}

/// The rows of the data lines; `None` where one of them does not read.
pub open spec fn rows_of_file(file: Seq<char>) -> Option<Seq<Row>> {
    let dl = data_lines(file);
    if forall|i: int| 0 <= i < dl.len() ==> #[trigger] row_271_of(dl[i]) is Some {
        Some(dl.map_values(|l: Seq<char>| row_271_of(l).unwrap()))
    } else {
        None
    }
}

/// The networks of the rows.
pub open spec fn network_ids(rows: Seq<Row>) -> Seq<u16> {
    rows.map_values(|r: Row| r.network_id)
}

/// The network, month and year of the rows.
pub open spec fn network_months(rows: Seq<Row>) -> Seq<NetworkAndMonthYear> {
    rows.map_values(|r: Row| r.network_month_and_year)
}

/// The quantities of the rows.
pub open spec fn quantities(rows: Seq<Row>) -> Seq<Dec> {
    rows.map_values(|r: Row| r.nsl_gj)
}

/// Reads a line of the report into a row; every field must read.
pub fn from_line(line: String) -> (r: Row)
    requires
        row_271_of(line@) is Some,
    ensures
        row_271_of(line@) == Some(r),
{
    let network_id = parse_u16(get_data_by_column(&line, 0)).unwrap();
    let gas_date = parse_date(get_data_by_column(&line, 2), "%d %b %Y").unwrap();
    Row {
        network_id,
        _nsl_update: parse_date_time(get_data_by_column(&line, 1), "%d %b %Y %H:%M:%S").unwrap(),
        _gas_date: gas_date,
        _ti: parse_u16(get_data_by_column(&line, 3)).unwrap(),
        nsl_gj: parse_decimal(get_data_by_column(&line, 4)).unwrap(),
        _current_date: parse_date_time(get_data_by_column(&line, 5), "%d %b %Y %H:%M:%S").unwrap(),
        network_month_and_year: NetworkAndMonthYear(network_id, gas_date.month, gas_date.year),
    }
}

/// The row of a line, or `None` where `from_line` could not read it.
pub fn parse_row_271(line: &str) -> (r: Option<Row>)
    ensures
        r == row_271_of(line@),
{
    if !has_field(line, 5) {
        return None;
    }
    if parse_u16(get_data_by_column(line, 0)).is_none() || parse_date_time(
        get_data_by_column(line, 1),
        "%d %b %Y %H:%M:%S",
    ).is_none() || parse_date(get_data_by_column(line, 2), "%d %b %Y").is_none() || parse_u16(
        get_data_by_column(line, 3),
    ).is_none() || parse_decimal(get_data_by_column(line, 4)).is_none() || parse_date_time(
        get_data_by_column(line, 5),
        "%d %b %Y %H:%M:%S",
    ).is_none() {
        return None;
    }
    Some(from_line(line.to_owned()))
}

/// The rows of the report's data lines (every line but the first), or `None`
/// where one of them does not read.
pub fn rows_271(file: &str) -> (r: Option<Vec<Row>>)
    ensures
        r is Some <==> rows_of_file(file@) is Some,
        r matches Some(v) ==> rows_of_file(file@) == Some(v@),
{
    let ls = lines(file);
    let ghost lm = ls@.map_values(|l: String| l@);
    let ghost dl = data_lines(file@);
    let mut rows: Vec<Row> = Vec::new();
    if ls.len() == 0 {
        assert(dl.len() == 0);
        assert(rows@ =~= dl.map_values(|l: Seq<char>| row_271_of(l).unwrap()));
        return Some(rows);
    }
    let mut i: usize = 1;
    while i < ls.len()
        invariant
            1 <= i <= ls.len(),
            lm == ls@.map_values(|l: String| l@),
            lm == lines_of(file@),
            dl == lm.drop_first(),
            rows.len() == i - 1,
            forall|q: int| 0 <= q < i - 1 ==> #[trigger] row_271_of(dl[q]) == Some(rows@[q]),
        decreases ls.len() - i,
    {
        assert(dl[i - 1] == ls@[i as int]@);
        match parse_row_271(ls[i].as_str()) {
            Some(row) => {
                rows.push(row);
            },
            None => {
                return None;
            },
        }
        i = i + 1;
    }
    assert(rows@ =~= dl.map_values(|l: Seq<char>| row_271_of(l).unwrap()));
    Some(rows)
}

/// The network of each row, and its quantity.
fn ids_and_quantities(rows: &Vec<Row>) -> (r: (Vec<u16>, Vec<Dec>))
    ensures
        r.0@ == network_ids(rows@),
        r.1@ == quantities(rows@),
{
    let mut ids: Vec<u16> = Vec::new();
    let mut gjs: Vec<Dec> = Vec::new();
    let mut i: usize = 0;
    while i < rows.len()
        invariant
            0 <= i <= rows.len(),
            ids@ == network_ids(rows@.take(i as int)),
            gjs@ == quantities(rows@.take(i as int)),
        decreases rows.len() - i,
    {
        ids.push(rows[i].network_id);
        gjs.push(rows[i].nsl_gj);
        assert(network_ids(rows@.take(i + 1)) =~= network_ids(rows@.take(i as int)).push(rows@[i as int].network_id));
        assert(quantities(rows@.take(i + 1)) =~= quantities(rows@.take(i as int)).push(rows@[i as int].nsl_gj));
        i = i + 1;
    }
    assert(rows@.take(rows.len() as int) =~= rows@);
    (ids, gjs)
}

/// The network, month and year of each row.
fn network_months_of(rows: &Vec<Row>) -> (r: Vec<NetworkAndMonthYear>)
    ensures
        r@ == network_months(rows@),
{
    let mut keys: Vec<NetworkAndMonthYear> = Vec::new();
    let mut i: usize = 0;
    while i < rows.len()
        invariant
            0 <= i <= rows.len(),
            keys@ == network_months(rows@.take(i as int)),
        decreases rows.len() - i,
    {
        keys.push(rows[i].network_month_and_year);
        assert(network_months(rows@.take(i + 1)) =~= network_months(rows@.take(i as int)).push(
            rows@[i as int].network_month_and_year,
        ));
        i = i + 1;
    }
    assert(rows@.take(rows.len() as int) =~= rows@);
    keys
}

/// Every data line of the file reads and no network's running total
/// overflows: the input on which the network report does not panic.
pub open spec fn network_totals_defined(file: Seq<char>) -> bool {
    rows_of_file(file) matches Some(rows) && totals_defined(network_ids(rows), quantities(rows))
}

/// Every data line of the file reads and no running total of a network in a
/// month overflows: the input on which the monthly report does not panic.
pub open spec fn month_totals_defined(file: Seq<char>) -> bool {
    rows_of_file(file) matches Some(rows) && totals_defined(network_months(rows), quantities(rows))
}

/// The network totals, or `None` where they are not defined.
fn network_totals(file: &str) -> (r: Option<Vec<(u16, Dec)>>)
    ensures
        r is Some <==> network_totals_defined(file@),
        r matches Some(out) ==> key_totals(
            out@,
            network_ids(rows_of_file(file@).unwrap()),
            quantities(rows_of_file(file@).unwrap()),
        ),
{
    let rows = match rows_271(file) {
        Some(rows) => rows,
        None => {
            return None;
        },
    };
    let (ids, gjs) = ids_and_quantities(&rows);
    assert(models(ids@) =~= ids@);
    totals_by_key(&ids, &gjs)
}

/// The monthly network totals, or `None` where they are not defined.
fn month_totals(file: &str) -> (r: Option<Vec<(NetworkAndMonthYear, Dec)>>)
    ensures
        r is Some <==> month_totals_defined(file@),
        r matches Some(out) ==> key_totals(
            out@,
            network_months(rows_of_file(file@).unwrap()),
            quantities(rows_of_file(file@).unwrap()),
        ),
{
    let rows = match rows_271(file) {
        Some(rows) => rows,
        None => {
            return None;
        },
    };
    let keys = network_months_of(&rows);
    let (_, gjs) = ids_and_quantities(&rows);
    assert(models(keys@) =~= keys@);
    totals_by_key(&keys, &gjs)
}

/// The total quantity of each network, rounded to a whole number, in network
/// order (the data lines after the header line, each network once).
pub fn calculate_totals_bynetwork(file: &str) -> (r: Vec<(u16, Dec)>)
    requires
        network_totals_defined(file@),
    ensures
        key_totals(
            r@,
            network_ids(rows_of_file(file@).unwrap()),
            quantities(rows_of_file(file@).unwrap()),
        ),
{
    match network_totals(file) {
        Some(out) => out,
        None => Vec::new(),
    }
}

/// The network totals where they are defined, `None` where the report would
/// panic (a data line that does not read, or an overflowing total).
pub fn try_calculate_totals_bynetwork(file: &str) -> (r: Option<Vec<(u16, Dec)>>)
    ensures
        r is Some <==> network_totals_defined(file@),
        r matches Some(out) ==> key_totals(
            out@,
            network_ids(rows_of_file(file@).unwrap()),
            quantities(rows_of_file(file@).unwrap()),
        ),
{
    if network_totals(file).is_some() {
        Some(calculate_totals_bynetwork(file))
    } else {
        None
    }
}

/// The total quantity of each network in each month, rounded to a whole
/// number, ordered by network, month and year.
pub fn calculate_totals_by_network_time(file: &str) -> (r: Vec<(NetworkAndMonthYear, Dec)>)
    requires
        month_totals_defined(file@),
    ensures
        key_totals(
            r@,
            network_months(rows_of_file(file@).unwrap()),
            quantities(rows_of_file(file@).unwrap()),
        ),
{
    match month_totals(file) {
        Some(out) => out,
        None => Vec::new(),
    }
}

/// The monthly network totals where they are defined, `None` where the report
/// would panic (a data line that does not read, or an overflowing total).
pub fn try_calculate_totals_by_network_time(file: &str) -> (r: Option<Vec<(NetworkAndMonthYear, Dec)>>)
    ensures
        r is Some <==> month_totals_defined(file@),
        r matches Some(out) ==> key_totals(
            out@,
            network_months(rows_of_file(file@).unwrap()),
            quantities(rows_of_file(file@).unwrap()),
        ),
{
    if month_totals(file).is_some() {
        Some(calculate_totals_by_network_time(file))
    } else {
        None
    }
}

/// Every row read from a file carries its own network in its network-month key.
proof fn lemma_rows_key_network(file: Seq<char>)
    requires
        rows_of_file(file) is Some,
    ensures
        forall|i: int|
            0 <= i < rows_of_file(file).unwrap().len() ==> (#[trigger] rows_of_file(
                file,
            ).unwrap()[i]).network_month_and_year.0 == rows_of_file(file).unwrap()[i].network_id,
{
    let dl = data_lines(file);
    assert forall|i: int| 0 <= i < rows_of_file(file).unwrap().len() implies (#[trigger] rows_of_file(
        file,
    ).unwrap()[i]).network_month_and_year.0 == rows_of_file(file).unwrap()[i].network_id by {
        assert(row_271_of(dl[i]) is Some);
    }
}

/// The two gas tables agree on the networks: a network has a total in the
/// network table exactly where it has a total for some month in the monthly
/// table, for tables computed from the same file.
pub proof fn law_monthly_networks_match(
    file: Seq<char>,
    by_network: Seq<(u16, Dec)>,
    by_month: Seq<(NetworkAndMonthYear, Dec)>,
)
    requires
        rows_of_file(file) is Some,
        key_totals(
            by_network,
            network_ids(rows_of_file(file).unwrap()),
            quantities(rows_of_file(file).unwrap()),
        ),
        key_totals(
            by_month,
            network_months(rows_of_file(file).unwrap()),
            quantities(rows_of_file(file).unwrap()),
        ),
    ensures
        forall|n: u16|
            pair_keys(by_network).contains(n) <==> exists|j: int|
                0 <= j < by_month.len() && (#[trigger] by_month[j]).0.0 == n,
{
    let rows = rows_of_file(file).unwrap();
    lemma_rows_key_network(file);
    assert forall|n: u16| pair_keys(by_network).contains(n) <==> exists|j: int|
        0 <= j < by_month.len() && (#[trigger] by_month[j]).0.0 == n by {
        let ids = network_ids(rows);
        let months = network_months(rows);
        if pair_keys(by_network).contains(n) {
            assert(ids.contains(n));
            let i = choose|i: int| 0 <= i < ids.len() && ids[i] == n;
            assert(months[i].0 == n);
            assert(months.contains(months[i]));
            assert(pair_keys(by_month).contains(months[i]));
            let j = choose|j: int| 0 <= j < pair_keys(by_month).len() && pair_keys(by_month)[j] == months[i];
            assert(by_month[j].0 == months[i]);
        }
        if exists|j: int| 0 <= j < by_month.len() && (#[trigger] by_month[j]).0.0 == n {
            let j = choose|j: int| 0 <= j < by_month.len() && (#[trigger] by_month[j]).0.0 == n;
            assert(pair_keys(by_month)[j] == by_month[j].0);
            assert(pair_keys(by_month).contains(by_month[j].0));
            assert(months.contains(by_month[j].0));
            let i = choose|i: int| 0 <= i < months.len() && months[i] == by_month[j].0;
            assert(ids[i] == n);
            assert(ids.contains(n));
        }
    }
}

/// Lexicographic order on network, month, year.
pub open spec fn network_month_before(a: NetworkAndMonthYear, b: NetworkAndMonthYear) -> bool {
    if a.0 != b.0 {
        a.0 < b.0
    } else if a.1 != b.1 {
        a.1 < b.1
    } else {
        a.2 < b.2
    }
}

impl OrderedKey for NetworkAndMonthYear {
    type Model = NetworkAndMonthYear;

    open spec fn model(&self) -> NetworkAndMonthYear {
        *self
    }

    open spec fn before(a: NetworkAndMonthYear, b: NetworkAndMonthYear) -> bool {
        network_month_before(a, b)
    }

    proof fn lemma_irreflexive(a: NetworkAndMonthYear) {
    }

    proof fn lemma_transitive(a: NetworkAndMonthYear, b: NetworkAndMonthYear, c: NetworkAndMonthYear) {
    }

    proof fn lemma_total(a: NetworkAndMonthYear, b: NetworkAndMonthYear) {
    }

    fn is_before(&self, other: &Self) -> (r: bool) {
        if self.0 != other.0 {
            self.0 < other.0
        } else if self.1 != other.1 {
            self.1 < other.1
        } else {
            self.2 < other.2
        }
    }

    fn same_key(&self, other: &Self) -> (r: bool) {
        *self == *other
    }

    fn duplicate(&self) -> (r: Self) {
        *self
    }
}

// ---------------------------------------------------------------------------
// What the gas reports mean
// ---------------------------------------------------------------------------

/// A row read from a line carries the line's fields: the network (field 0), the
/// gas date (field 2) and the quantity (field 4); and its month key is the
/// network with the month and year of the gas date.
pub proof fn law_row_fields(line: Seq<char>)
    requires
        row_271_of(line) is Some,
    ensures
        ({
            let r = row_271_of(line).unwrap();
            let f = split_on(line, ',');
            &&& f.len() >= 6
            &&& Some(r.network_id) == spec_parse_u16(f[0])
            &&& Some(r._gas_date) == chrono_date_from_str(f[2], "%d %b %Y"@)
            &&& Some(r.nsl_gj) == decimal_from_str(f[4])
            &&& r.network_month_and_year == NetworkAndMonthYear(
                r.network_id,
                r._gas_date.month,
                r._gas_date.year,
            )
        }),
{
}

/// The rows of network `k.0` whose gas date falls in month `k.1` of year `k.2`.
pub open spec fn in_gas_month(k: NetworkAndMonthYear) -> spec_fn(Row) -> bool {
    |r: Row| r.network_id == k.0 && r._gas_date.month == k.1 && r._gas_date.year == k.2
}

/// The rows of network `n`.
pub open spec fn of_network(n: u16) -> spec_fn(Row) -> bool {
    |r: Row| r.network_id == n
}

/// Every row of a file's rows is keyed by its network and the month and year
/// of its gas date.
proof fn lemma_file_rows_keyed(file: Seq<char>)
    requires
        rows_of_file(file) is Some,
    ensures
        forall|i: int|
            0 <= i < rows_of_file(file).unwrap().len() ==> (#[trigger] rows_of_file(
                file,
            ).unwrap()[i]).network_month_and_year == NetworkAndMonthYear(
                rows_of_file(file).unwrap()[i].network_id,
                rows_of_file(file).unwrap()[i]._gas_date.month,
                rows_of_file(file).unwrap()[i]._gas_date.year,
            ),
{
    let dl = data_lines(file);
    assert forall|i: int| 0 <= i < rows_of_file(file).unwrap().len() implies (#[trigger] rows_of_file(
        file,
    ).unwrap()[i]).network_month_and_year == NetworkAndMonthYear(
        rows_of_file(file).unwrap()[i].network_id,
        rows_of_file(file).unwrap()[i]._gas_date.month,
        rows_of_file(file).unwrap()[i]._gas_date.year,
    ) by {
        assert(row_271_of(dl[i]) is Some);
        law_row_fields(dl[i]);
    }
}

/// The values under a month key are the quantities of the rows of that
/// network and gas month, in order.
proof fn lemma_month_values(rows: Seq<Row>, k: NetworkAndMonthYear)
    requires
        forall|i: int|
            0 <= i < rows.len() ==> (#[trigger] rows[i]).network_month_and_year == NetworkAndMonthYear(
                rows[i].network_id,
                rows[i]._gas_date.month,
                rows[i]._gas_date.year,
            ),
    ensures
        values_for_key(network_months(rows), quantities(rows), k) == quantities(
            rows.filter(in_gas_month(k)),
        ),
    decreases rows.len(),
{
    reveal(Seq::filter);
    if rows.len() > 0 {
        let init = rows.drop_last();
        assert forall|i: int| 0 <= i < init.len() implies (#[trigger] init[i]).network_month_and_year
            == NetworkAndMonthYear(init[i].network_id, init[i]._gas_date.month, init[i]._gas_date.year) by {
            assert(init[i] == rows[i]);
        }
        lemma_month_values(init, k);
        assert(network_months(rows).drop_last() =~= network_months(init));
        assert(quantities(rows).drop_last() =~= quantities(init));
        assert(rows[rows.len() - 1] == rows.last());
        let fi = init.filter(in_gas_month(k));
        assert(quantities(fi.push(rows.last())) =~= quantities(fi).push(rows.last().nsl_gj));
    } else {
        assert(quantities(rows.filter(in_gas_month(k))) =~= Seq::<Dec>::empty());
    }
}

/// The values under a network are the quantities of that network's rows, in
/// order.
proof fn lemma_network_values(rows: Seq<Row>, n: u16)
    ensures
        values_for_key(network_ids(rows), quantities(rows), n) == quantities(rows.filter(of_network(n))),
    decreases rows.len(),
{
    reveal(Seq::filter);
    if rows.len() > 0 {
        let init = rows.drop_last();
        lemma_network_values(init, n);
        assert(network_ids(rows).drop_last() =~= network_ids(init));
        assert(quantities(rows).drop_last() =~= quantities(init));
        let fi = init.filter(of_network(n));
        assert(quantities(fi.push(rows.last())) =~= quantities(fi).push(rows.last().nsl_gj));
    } else {
        assert(quantities(rows.filter(of_network(n))) =~= Seq::<Dec>::empty());
    }
}

/// Every row's network and gas month has an entry in the monthly table.
proof fn lemma_every_month_listed(file: Seq<char>, out: Seq<(NetworkAndMonthYear, Dec)>)
    requires
        rows_of_file(file) is Some,
        key_totals(
            out,
            network_months(rows_of_file(file).unwrap()),
            quantities(rows_of_file(file).unwrap()),
        ),
    ensures
        forall|r: Row| #[trigger]
            rows_of_file(file).unwrap().contains(r) ==> exists|i: int|
                0 <= i < out.len() && (#[trigger] out[i]).0.0 == r.network_id && out[i].0.1
                    == r._gas_date.month && out[i].0.2 == r._gas_date.year,
{
    let rows = rows_of_file(file).unwrap();
    lemma_file_rows_keyed(file);
    assert forall|r: Row| #[trigger] rows.contains(r) implies exists|i: int|
        0 <= i < out.len() && (#[trigger] out[i]).0.0 == r.network_id && out[i].0.1 == r._gas_date.month
            && out[i].0.2 == r._gas_date.year by {
        let j = choose|j: int| 0 <= j < rows.len() && rows[j] == r;
        let keys = network_months(rows);
        assert(keys[j] == rows[j].network_month_and_year);
        assert(keys.contains(keys[j]));
        assert(pair_keys(out).contains(keys[j]));
        let i = choose|i: int| 0 <= i < pair_keys(out).len() && pair_keys(out)[i] == keys[j];
        assert(out[i].0 == keys[j]);
    }
}

/// The monthly table of a file: each entry is the total, rounded to a whole
/// number, of the quantities of exactly the rows of that network whose gas
/// date (field 2) falls in that month and year, added in file order; every
/// row's network and gas month has an entry; and the entries are in strictly
/// increasing order of network, then month, then year.
pub proof fn law_monthly_totals(file: Seq<char>, out: Seq<(NetworkAndMonthYear, Dec)>)
    requires
        rows_of_file(file) is Some,
        key_totals(
            out,
            network_months(rows_of_file(file).unwrap()),
            quantities(rows_of_file(file).unwrap()),
        ),
    ensures
        forall|i: int|
            0 <= i < out.len() ==> (#[trigger] out[i]).1 == decimal_round_dp(
                spec_running_total(
                    quantities(rows_of_file(file).unwrap().filter(in_gas_month(out[i].0))),
                ).unwrap(),
                0,
            ),
        forall|r: Row| #[trigger]
            rows_of_file(file).unwrap().contains(r) ==> exists|i: int|
                0 <= i < out.len() && (#[trigger] out[i]).0.0 == r.network_id && out[i].0.1
                    == r._gas_date.month && out[i].0.2 == r._gas_date.year,
        forall|i: int, k: int|
            0 <= i < k < out.len() ==> {
                ||| (#[trigger] out[i]).0.0 < (#[trigger] out[k]).0.0
                ||| out[i].0.0 == out[k].0.0 && out[i].0.1 < out[k].0.1
                ||| out[i].0.0 == out[k].0.0 && out[i].0.1 == out[k].0.1 && out[i].0.2 < out[k].0.2
            },
{
    let rows = rows_of_file(file).unwrap();
    lemma_file_rows_keyed(file);
    assert forall|i: int| 0 <= i < out.len() implies (#[trigger] out[i]).1 == decimal_round_dp(
        spec_running_total(quantities(rows.filter(in_gas_month(out[i].0)))).unwrap(),
        0,
    ) by {
        lemma_month_values(rows, out[i].0);
    }
    lemma_every_month_listed(file, out);
    assert forall|i: int, k: int| 0 <= i < k < out.len() implies {
        ||| (#[trigger] out[i]).0.0 < (#[trigger] out[k]).0.0
        ||| out[i].0.0 == out[k].0.0 && out[i].0.1 < out[k].0.1
        ||| out[i].0.0 == out[k].0.0 && out[i].0.1 == out[k].0.1 && out[i].0.2 < out[k].0.2
    } by {
        assert(pair_keys(out)[i] == out[i].0 && pair_keys(out)[k] == out[k].0);
        assert(network_month_before(pair_keys(out)[i], pair_keys(out)[k]));
    }
}

/// The network table of a file: each entry is the total, rounded to a whole
/// number, of the quantities of exactly that network's rows, added in file
/// order; every row's network has an entry; and the networks are in strictly
/// increasing order.
pub proof fn law_network_totals(file: Seq<char>, out: Seq<(u16, Dec)>)
    requires
        rows_of_file(file) is Some,
        key_totals(
            out,
            network_ids(rows_of_file(file).unwrap()),
            quantities(rows_of_file(file).unwrap()),
        ),
    ensures
        forall|i: int|
            0 <= i < out.len() ==> (#[trigger] out[i]).1 == decimal_round_dp(
                spec_running_total(
                    quantities(rows_of_file(file).unwrap().filter(of_network(out[i].0))),
                ).unwrap(),
                0,
            ),
        forall|r: Row| #[trigger]
            rows_of_file(file).unwrap().contains(r) ==> exists|i: int|
                0 <= i < out.len() && (#[trigger] out[i]).0 == r.network_id,
        forall|i: int, k: int| 0 <= i < k < out.len() ==> (#[trigger] out[i]).0 < (#[trigger] out[k]).0,
{
    let rows = rows_of_file(file).unwrap();
    assert forall|i: int| 0 <= i < out.len() implies (#[trigger] out[i]).1 == decimal_round_dp(
        spec_running_total(quantities(rows.filter(of_network(out[i].0)))).unwrap(),
        0,
    ) by {
        lemma_network_values(rows, out[i].0);
    }
    assert forall|r: Row| #[trigger] rows.contains(r) implies exists|i: int|
        0 <= i < out.len() && (#[trigger] out[i]).0 == r.network_id by {
        let j = choose|j: int| 0 <= j < rows.len() && rows[j] == r;
        let keys = network_ids(rows);
        assert(keys[j] == rows[j].network_id);
        assert(keys.contains(keys[j]));
        assert(pair_keys(out).contains(keys[j]));
        let i = choose|i: int| 0 <= i < pair_keys(out).len() && pair_keys(out)[i] == keys[j];
        assert(out[i].0 == keys[j]);
    }
    assert forall|i: int, k: int| 0 <= i < k < out.len() implies (#[trigger] out[i]).0 < (
    #[trigger] out[k]).0 by {
        assert(pair_keys(out)[i] == out[i].0 && pair_keys(out)[k] == out[k].0);
    }
}

} // verus!

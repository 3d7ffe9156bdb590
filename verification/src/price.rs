//! The gas price report (files `int037b`): rows per file, and the average price
//! of each demand type in each file.
use vstd::prelude::*;

use crate::datetime::{
    chrono_date_from_str, chrono_date_time_from_str, parse_date, parse_date_time, Date, DateTime,
};
use crate::decimal::{average, decimal_from_str, parse_decimal, spec_average, Dec};
use crate::order::{models, sorted_distinct, sorted_distinct_of, text_before};
use crate::text::{data_lines, get_data_by_column, has_field, lines, lines_of, split_on};

verus! {

/// One line of the price report.
#[derive(Clone, Debug)]
pub struct Int037b {
    pub demand_type: String,
    pub price: Dec,
    pub transmission_group_id: String,
    pub transmission_id: String,
    pub schedule_type: String,
    pub approval_date: DateTime,
    pub gas_date: Date,
    pub current_date: DateTime,
}

/// The line has the eight fields of a price row, and the price, gas date,
/// approval date and current date read.
pub open spec fn row_037_reads(line: Seq<char>) -> bool {
    let f = split_on(line, ',');
    &&& f.len() >= 8
    &&& decimal_from_str(f[1]) is Some
    &&& chrono_date_from_str(f[5], "%d %b %Y"@) is Some
    &&& chrono_date_time_from_str(f[6], "%d %b %Y %H:%M:%S"@) is Some
    &&& chrono_date_time_from_str(f[7], "%d %b %Y %H:%M:%S"@) is Some
}

/// `r` is the row the line describes: demand type, price, transmission group,
/// schedule type, transmission, gas date, approval date and current date, in
/// that order of fields.
pub open spec fn row_037_is(line: Seq<char>, r: Int037b) -> bool {
    let f = split_on(line, ',');
    &&& r.demand_type@ == f[0]
    &&& Some(r.price) == decimal_from_str(f[1])
    &&& r.transmission_group_id@ == f[2]
    &&& r.schedule_type@ == f[3]
    &&& r.transmission_id@ == f[4]
    &&& Some(r.gas_date) == chrono_date_from_str(f[5], "%d %b %Y"@)
    &&& Some(r.approval_date) == chrono_date_time_from_str(f[6], "%d %b %Y %H:%M:%S"@)
    &&& Some(r.current_date) == chrono_date_time_from_str(f[7], "%d %b %Y %H:%M:%S"@)
}

/// Reads a line of the price report; every field must read.
pub fn from_line_037(line: String) -> (r: Int037b)
    requires
        row_037_reads(line@),
    ensures
        row_037_is(line@, r),
{
    Int037b {
        demand_type: get_data_by_column(&line, 0).to_owned(),
        price: parse_decimal(get_data_by_column(&line, 1)).unwrap(),
        transmission_group_id: get_data_by_column(&line, 2).to_owned(),
        transmission_id: get_data_by_column(&line, 4).to_owned(),
        schedule_type: get_data_by_column(&line, 3).to_owned(),
        gas_date: parse_date(get_data_by_column(&line, 5), "%d %b %Y").unwrap(),
        approval_date: parse_date_time(get_data_by_column(&line, 6), "%d %b %Y %H:%M:%S").unwrap(),
        current_date: parse_date_time(get_data_by_column(&line, 7), "%d %b %Y %H:%M:%S").unwrap(),
    }
}

/// The row of a line, or `None` where `from_line_037` could not read it.
pub fn parse_row_037(line: &str) -> (r: Option<Int037b>)
    ensures
        r is Some <==> row_037_reads(line@),
        r matches Some(row) ==> row_037_is(line@, row),
{
    if !has_field(line, 7) {
        return None;
    }
    if parse_decimal(get_data_by_column(line, 1)).is_none() || parse_date(
        get_data_by_column(line, 5),
        "%d %b %Y",
    ).is_none() || parse_date_time(get_data_by_column(line, 6), "%d %b %Y %H:%M:%S").is_none()
        || parse_date_time(get_data_by_column(line, 7), "%d %b %Y %H:%M:%S").is_none() {
        return None;
    }
    Some(from_line_037(line.to_owned()))
}

/// Every data line of the file reads.
pub open spec fn file_037_reads(content: Seq<char>) -> bool {
    forall|i: int| 0 <= i < data_lines(content).len() ==> #[trigger] row_037_reads(data_lines(content)[i])
}

/// `rows` pairs the file name with the row of each data line of the content.
pub open spec fn file_rows_037(name: Seq<char>, content: Seq<char>, rows: Seq<(String, Int037b)>) -> bool {
    &&& rows.len() == data_lines(content).len()
    &&& forall|i: int|
        0 <= i < rows.len() ==> (#[trigger] rows[i]).0@ == name && row_037_is(data_lines(content)[i], rows[i].1)
}

/// The rows of one file: each data line with the file name.
fn rows_of_file_037(name: &String, content: &String) -> (r: Option<Vec<(String, Int037b)>>)
    ensures
        r is Some <==> file_037_reads(content@),
        r matches Some(rows) ==> file_rows_037(name@, content@, rows@),
{
    let ls = lines(content.as_str());
    let ghost lm = ls@.map_values(|l: String| l@);
    let ghost dl = data_lines(content@);
    let mut rows: Vec<(String, Int037b)> = Vec::new();
    if ls.len() == 0 {
        assert(dl.len() == 0);
        return Some(rows);
    }
    let mut i: usize = 1;
    while i < ls.len()
        invariant
            1 <= i <= ls.len(),
            lm == ls@.map_values(|l: String| l@),
            lm == lines_of(content@),
            dl == data_lines(content@),
            dl == lm.drop_first(),
            rows.len() == i - 1,
            forall|q: int| 0 <= q < i - 1 ==> #[trigger] row_037_reads(dl[q]),
            forall|q: int|
                0 <= q < i - 1 ==> (#[trigger] rows@[q]).0@ == name@ && row_037_is(dl[q], rows@[q].1),
        decreases ls.len() - i,
    {
        assert(dl[i - 1] == ls@[i as int]@);
        match parse_row_037(ls[i].as_str()) {
            Some(row) => {
                rows.push((name.clone(), row));
            },
            None => {
                return None;
            },
        }
        i = i + 1;
    }
    Some(rows)
}

/// The rows of every file, file by file; `None` where a data line of some file
/// does not read.
fn rows_of_files(files: &Vec<(String, String)>) -> (r: Option<Vec<Vec<(String, Int037b)>>>)
    ensures
        r is Some <==> forall|f: int| 0 <= f < files.len() ==> #[trigger] file_037_reads(files@[f].1@),
        r matches Some(list) ==> list.len() == files.len() && forall|f: int|
            0 <= f < files.len() ==> file_rows_037(
                #[trigger] files@[f].0@,
                files@[f].1@,
                list@[f]@,
            ),
{
    let mut list: Vec<Vec<(String, Int037b)>> = Vec::new();
    let mut f: usize = 0;
    while f < files.len()
        invariant
            0 <= f <= files.len(),
            list.len() == f,
            forall|q: int| 0 <= q < f ==> #[trigger] file_037_reads(files@[q].1@),
            forall|q: int|
                0 <= q < f ==> file_rows_037(#[trigger] files@[q].0@, files@[q].1@, list@[q]@),
        decreases files.len() - f,
    {
        match rows_of_file_037(&files[f].0, &files[f].1) {
            Some(rows) => {
                list.push(rows);
            },
            None => {
                return None;
            },
        }
        f = f + 1;
    }
    Some(list)
}

/// Every data line of every file reads: the input on which the list does
/// not panic.
pub open spec fn files_037_read(files: Seq<(String, String)>) -> bool {
    forall|f: int| 0 <= f < files.len() ==> #[trigger] file_037_reads(files[f].1@)
}

/// The rows of every file, file by file: each data line (every line but the
/// first) with the file's name.
pub fn combined_list_of_files(files: Vec<(String, String)>) -> (r: Vec<Vec<(String, Int037b)>>)
    requires
        files_037_read(files@),
    ensures
        r.len() == files.len(),
        forall|f: int|
            0 <= f < files.len() ==> file_rows_037(#[trigger] files@[f].0@, files@[f].1@, r@[f]@),
{
    match rows_of_files(&files) {
        Some(list) => list,
        None => Vec::new(),
    }
}

/// The rows of every file where every data line reads, `None` where the list
/// would panic.
pub fn try_combined_list_of_files(files: Vec<(String, String)>) -> (r: Option<Vec<Vec<(String, Int037b)>>>)
    ensures
        r is Some <==> files_037_read(files@),
        r matches Some(list) ==> list.len() == files.len() && forall|f: int|
            0 <= f < files.len() ==> file_rows_037(
                #[trigger] files@[f].0@,
                files@[f].1@,
                list@[f]@,
            ),
{
    if rows_of_files(&files).is_some() {
        Some(combined_list_of_files(files))
    } else {
        None
    }
}

/// All rows of all files, in order.
pub open spec fn all_rows(files: Seq<Seq<(String, Int037b)>>) -> Seq<(String, Int037b)>
    decreases files.len(),
{
    if files.len() == 0 {
        Seq::<(String, Int037b)>::empty()
    } else {
        all_rows(files.drop_last()) + files.last()
    }
}

/// The demand types of rows.
pub open spec fn demand_types_of(rows: Seq<(String, Int037b)>) -> Seq<Seq<char>> {
    rows.map_values(|p: (String, Int037b)| p.1.demand_type@)
}

/// The prices of the rows whose demand type is `d`, in order.
pub open spec fn prices_of_type(rows: Seq<(String, Int037b)>, d: Seq<char>) -> Seq<Dec>
    decreases rows.len(),
{
    if rows.len() == 0 {
        Seq::<Dec>::empty()
    } else {
        let head = prices_of_type(rows.drop_last(), d);
        if rows.last().1.demand_type@ == d {
            head.push(rows.last().1.price)
        } else {
            head
        }
    }
}

/// Every file has rows where there are demand types at all, and every average
/// of a demand type in a file is defined (the file has a row of that type, and
/// neither the sum nor the division overflows).
pub open spec fn averages_defined(files: Seq<Seq<(String, Int037b)>>) -> bool {
    let types = demand_types_of(all_rows(files));
    types.len() > 0 ==> forall|f: int|
        0 <= f < files.len() ==> files[f].len() > 0 && forall|t: int|
            0 <= t < types.len() ==> #[trigger] spec_average(prices_of_type(files[f], types[t]))
                is Some
}

/// The average rows of one file: each demand type of all files once, in
/// order, with the average price of that type in the file and the file's name
/// (the name of its first row).
pub open spec fn file_averages(
    out: Seq<(String, Dec, String)>,
    file: Seq<(String, Int037b)>,
    types: Seq<Seq<char>>,
) -> bool {
    &&& sorted_distinct_of::<String>(out.map_values(|a: (String, Dec, String)| a.0@), types)
    &&& forall|t: int|
        0 <= t < out.len() ==> {
            &&& Some((#[trigger] out[t]).1) == spec_average(prices_of_type(file, out[t].0@))
            &&& out[t].2@ == file[0].0@
        }
}

/// The rows whose demand type is `d`.
pub open spec fn of_demand_type(d: Seq<char>) -> spec_fn((String, Int037b)) -> bool {
    |r: (String, Int037b)| r.1.demand_type@ == d
}

/// The demand types that a table names, in order.
pub open spec fn table_types(table: Seq<(String, Dec, String)>) -> Seq<Seq<char>> {
    table.map_values(|a: (String, Dec, String)| a.0@)
}

/// The prices of the rows, in order.
pub open spec fn row_prices(rows: Seq<(String, Int037b)>) -> Seq<Dec> {
    rows.map_values(|r: (String, Int037b)| r.1.price)
}

/// The prices of a demand type are the prices of exactly the rows of that
/// type, one per row, in order.
proof fn lemma_prices_of_type(rows: Seq<(String, Int037b)>, d: Seq<char>)
    ensures
        prices_of_type(rows, d) == row_prices(rows.filter(of_demand_type(d))),
    decreases rows.len(),
{
    reveal(Seq::filter);
    if rows.len() > 0 {
        let init = rows.drop_last();
        lemma_prices_of_type(init, d);
        let fi = init.filter(of_demand_type(d));
        assert(row_prices(fi.push(rows.last())) =~= row_prices(fi).push(rows.last().1.price));
    } else {
        assert(row_prices(rows.filter(of_demand_type(d))) =~= Seq::<Dec>::empty());
    }
}

/// A row of one of the files is a row of all files.
proof fn lemma_all_rows_contains(files: Seq<Seq<(String, Int037b)>>, g: int, r: (String, Int037b))
    requires
        0 <= g < files.len(),
        files[g].contains(r),
    ensures
        all_rows(files).contains(r),
    decreases files.len(),
{
    let init = files.drop_last();
    let k = choose|k: int| 0 <= k < files[g].len() && files[g][k] == r;
    if g == files.len() - 1 {
        assert((all_rows(init) + files.last())[all_rows(init).len() + k] == r);
    } else {
        assert(init[g] == files[g]);
        lemma_all_rows_contains(init, g, r);
        let q = choose|q: int| 0 <= q < all_rows(init).len() && all_rows(init)[q] == r;
        assert((all_rows(init) + files.last())[q] == r);
    }
}

/// The price tables of the files: each entry of a file's table is the average
/// (sum over count, to 4 places) of the prices of exactly the rows of that
/// file with that demand type, one per row; each file's table names every
/// demand type that occurs in any file, in strictly increasing order, with the
/// file's name.
pub proof fn law_average_prices(
    out: Seq<Seq<(String, Dec, String)>>,
    files: Seq<Seq<(String, Int037b)>>,
)
    requires
        out.len() == files.len(),
        forall|k: int|
            0 <= k < files.len() ==> file_averages(
                #[trigger] out[k],
                files[k],
                demand_types_of(all_rows(files)),
            ),
    ensures
        forall|f: int, t: int|
            0 <= f < files.len() && 0 <= t < out[f].len() ==> Some((#[trigger] out[f][t]).1)
                == spec_average(row_prices(files[f].filter(of_demand_type(out[f][t].0@))))
                && out[f][t].2@ == files[f][0].0@,
        forall|f: int, g: int, r: (String, Int037b)|
            #![trigger files[g].contains(r), out[f]]
            0 <= f < files.len() && 0 <= g < files.len() && files[g].contains(r) ==> table_types(
                out[f],
            ).contains(r.1.demand_type@),
        forall|f: int, t: int, u: int|
            0 <= f < files.len() && 0 <= t < u < out[f].len() ==> text_before(
                (#[trigger] out[f][t]).0@,
                (#[trigger] out[f][u]).0@,
            ),
{
    let types = demand_types_of(all_rows(files));
    assert forall|f: int, t: int|
        0 <= f < files.len() && 0 <= t < out[f].len() implies Some((#[trigger] out[f][t]).1) == spec_average(
            row_prices(files[f].filter(of_demand_type(out[f][t].0@))),
        ) && out[f][t].2@ == files[f][0].0@ by {
        assert(file_averages(out[f], files[f], types));
        lemma_prices_of_type(files[f], out[f][t].0@);
    }
    assert forall|f: int, g: int, r: (String, Int037b)|
        #![trigger files[g].contains(r), out[f]]
        0 <= f < files.len() && 0 <= g < files.len() && files[g].contains(r) implies table_types(
            out[f],
        ).contains(r.1.demand_type@) by {
        assert(file_averages(out[f], files[f], types));
        lemma_all_rows_contains(files, g, r);
        let q = choose|q: int| 0 <= q < all_rows(files).len() && all_rows(files)[q] == r;
        assert(types[q] == r.1.demand_type@);
        assert(types.contains(types[q]));
        assert(table_types(out[f]) == out[f].map_values(|a: (String, Dec, String)| a.0@));
    }
    assert forall|f: int, t: int, u: int|
        0 <= f < files.len() && 0 <= t < u < out[f].len() implies text_before(
            (#[trigger] out[f][t]).0@,
            (#[trigger] out[f][u]).0@,
        ) by {
        assert(file_averages(out[f], files[f], types));
        let names = out[f].map_values(|a: (String, Dec, String)| a.0@);
        assert(names[t] == out[f][t].0@ && names[u] == out[f][u].0@);
    }
}

/// Every file's table lists the same demand types, in the same order: those of
/// all files, each once.
pub proof fn law_files_share_demand_types(
    out: Seq<Seq<(String, Dec, String)>>,
    files: Seq<Seq<(String, Int037b)>>,
    f: int,
    g: int,
)
    requires
        out.len() == files.len(),
        forall|k: int|
            0 <= k < files.len() ==> file_averages(
                #[trigger] out[k],
                files[k],
                demand_types_of(all_rows(files)),
            ),
        0 <= f < files.len(),
        0 <= g < files.len(),
    ensures
        out[f].map_values(|a: (String, Dec, String)| a.0@) == out[g].map_values(
            |a: (String, Dec, String)| a.0@,
        ),
{
    assert(file_averages(out[f], files[f], demand_types_of(all_rows(files))));
    assert(file_averages(out[g], files[g], demand_types_of(all_rows(files))));
    crate::order::lemma_sorted_distinct_unique::<String>(
        out[f].map_values(|a: (String, Dec, String)| a.0@),
        out[g].map_values(|a: (String, Dec, String)| a.0@),
    );
}

/// The demand types of every row of every file.
fn all_demand_types(files: &Vec<Vec<(String, Int037b)>>) -> (r: Vec<String>)
    ensures
        models(r@) == demand_types_of(all_rows(files@.map_values(|v: Vec<(String, Int037b)>| v@))),
{
    let ghost fs = files@.map_values(|v: Vec<(String, Int037b)>| v@);
    let mut types: Vec<String> = Vec::new();
    let mut f: usize = 0;
    assert(fs.take(0) =~= Seq::<Seq<(String, Int037b)>>::empty());
    assert(models(types@) =~= demand_types_of(all_rows(fs.take(0))));
    while f < files.len()
        invariant
            0 <= f <= files.len(),
            fs == files@.map_values(|v: Vec<(String, Int037b)>| v@),
            models(types@) == demand_types_of(all_rows(fs.take(f as int))),
        decreases files.len() - f,
    {
        let file = &files[f];
        let ghost start = types@;
        let mut i: usize = 0;
        while i < file.len()
            invariant
                0 <= i <= file.len(),
                f < files.len(),
                file == files@[f as int],
                fs == files@.map_values(|v: Vec<(String, Int037b)>| v@),
                models(types@) == demand_types_of(all_rows(fs.take(f as int))) + demand_types_of(
                    file@.take(i as int),
                ),
            decreases file.len() - i,
        {
            let ghost old_types = types@;
            types.push(file[i].1.demand_type.clone());
            assert(models(types@) =~= models(old_types).push(file@[i as int].1.demand_type@));
            assert(demand_types_of(file@.take(i + 1)) =~= demand_types_of(file@.take(i as int)).push(
                file@[i as int].1.demand_type@,
            ));
            assert(models(types@) =~= demand_types_of(all_rows(fs.take(f as int)))
                + demand_types_of(file@.take(i + 1)));
            i = i + 1;
        }
        proof {
            assert(file@.take(file.len() as int) =~= file@);
            assert(fs.take(f + 1).drop_last() =~= fs.take(f as int));
            assert(fs[f as int] == file@);
            assert(demand_types_of(all_rows(fs.take(f + 1))) =~= demand_types_of(all_rows(fs.take(f as int)))
                + demand_types_of(file@));
        }
        f = f + 1;
    }
    assert(fs.take(files.len() as int) =~= fs);
    types
}

/// The prices of the rows of one file whose demand type is `d`.
fn prices_for(file: &Vec<(String, Int037b)>, d: &String) -> (r: Vec<Dec>)
    ensures
        r@ == prices_of_type(file@, d@),
{
    let mut out: Vec<Dec> = Vec::new();
    let mut i: usize = 0;
    while i < file.len()
        invariant
            0 <= i <= file.len(),
            out@ == prices_of_type(file@.take(i as int), d@),
        decreases file.len() - i,
    {
        assert(file@.take(i + 1).drop_last() =~= file@.take(i as int));
        if file[i].1.demand_type == *d {
            out.push(file[i].1.price);
        }
        i = i + 1;
    }
    assert(file@.take(file.len() as int) =~= file@);
    out
}

/// The averages of every file, or `None` where they are not all defined.
fn averages_of_files(files: &Vec<Vec<(String, Int037b)>>) -> (r: Option<Vec<Vec<(String, Dec, String)>>>)
    ensures
        r is Some <==> averages_defined(files@.map_values(|v: Vec<(String, Int037b)>| v@)),
        r matches Some(out) ==> out.len() == files.len() && forall|f: int|
            0 <= f < files.len() ==> file_averages(
                #[trigger] out@[f]@,
                files@[f]@,
                demand_types_of(all_rows(files@.map_values(|v: Vec<(String, Int037b)>| v@))),
            ),
{
    let ghost fs = files@.map_values(|v: Vec<(String, Int037b)>| v@);
    let ghost all_types = demand_types_of(all_rows(fs));
    let all = all_demand_types(files);
    let types = sorted_distinct(&all);
    let ghost tm = models(types@);
    let mut out: Vec<Vec<(String, Dec, String)>> = Vec::new();
    let mut f: usize = 0;
    while f < files.len()
        invariant
            0 <= f <= files.len(),
            fs == files@.map_values(|v: Vec<(String, Int037b)>| v@),
            all_types == demand_types_of(all_rows(fs)),
            tm == models(types@),
            sorted_distinct_of::<String>(tm, all_types),
            out.len() == f,
            forall|q: int| 0 <= q < f ==> file_averages(#[trigger] out@[q]@, files@[q]@, all_types),
            all_types.len() > 0 ==> forall|q: int|
                0 <= q < f ==> files@[q]@.len() > 0 && forall|t: int|
                    0 <= t < all_types.len() ==> #[trigger] spec_average(
                        prices_of_type(files@[q]@, all_types[t]),
                    ) is Some,
        decreases files.len() - f,
    {
        let file = &files[f];
        let mut rows: Vec<(String, Dec, String)> = Vec::new();
        if types.len() > 0 && file.len() == 0 {
            proof {
                assert(tm.contains(tm[0]));
                assert(fs[f as int] == file@);
            }
            return None;
        }
        let mut t: usize = 0;
        while t < types.len()
            invariant
                0 <= t <= types.len(),
                f < files.len(),
                types.len() > 0 ==> file.len() > 0,
                file == files@[f as int],
                fs == files@.map_values(|v: Vec<(String, Int037b)>| v@),
                all_types == demand_types_of(all_rows(fs)),
                tm == models(types@),
                sorted_distinct_of::<String>(tm, all_types),
                rows.len() == t,
                rows@.map_values(|a: (String, Dec, String)| a.0@) == tm.take(t as int),
                forall|q: int|
                    0 <= q < t ==> {
                        &&& Some((#[trigger] rows@[q]).1) == spec_average(prices_of_type(file@, rows@[q].0@))
                        &&& rows@[q].2@ == file@[0].0@
                    },
                forall|q: int| 0 <= q < t ==> #[trigger] spec_average(prices_of_type(file@, tm[q])) is Some,
            decreases types.len() - t,
        {
            let filename = file[0].0.clone();
            let prices = prices_for(file, &types[t]);
            match average(&prices) {
                Some(avg) => {
                    let ghost old_rows = rows@;
                    rows.push((types[t].clone(), avg, filename));
                    proof {
                        assert(rows@.map_values(|a: (String, Dec, String)| a.0@) =~= old_rows.map_values(
                            |a: (String, Dec, String)| a.0@,
                        ).push(tm[t as int]));
                        assert(tm.take(t + 1) =~= tm.take(t as int).push(tm[t as int]));
                    }
                },
                None => {
                    proof {
                        assert(tm.contains(tm[t as int]));
                        let j = choose|j: int| 0 <= j < all_types.len() && all_types[j] == tm[t as int];
                        assert(fs[f as int] == file@);
                        assert(spec_average(prices_of_type(files@[f as int]@, all_types[j])) is None);
                    }
                    return None;
                },
            }
            t = t + 1;
        }
        proof {
            assert(tm.take(types.len() as int) =~= tm);
            if all_types.len() > 0 {
                assert forall|j: int| 0 <= j < all_types.len() implies #[trigger] spec_average(
                    prices_of_type(file@, all_types[j]),
                ) is Some by {
                    assert(all_types.contains(all_types[j]));
                    let q = choose|q: int| 0 <= q < tm.len() && tm[q] == all_types[j];
                }
                assert(tm.contains(all_types[0]));
            }
        }
        out.push(rows);
        f = f + 1;
    }
    proof {
        assert forall|q: int| 0 <= q < files.len() implies #[trigger] fs[q] == files@[q]@ by {}
    }
    Some(out)
}

/// For every file, the average price of each demand type (of all files, in
/// order), with the file's name.
pub fn calculate_average(files: &Vec<Vec<(String, Int037b)>>) -> (r: Vec<Vec<(String, Dec, String)>>)
    requires
        averages_defined(files@.map_values(|v: Vec<(String, Int037b)>| v@)),
    ensures
        r.len() == files.len(),
        forall|f: int|
            0 <= f < files.len() ==> file_averages(
                #[trigger] r@[f]@,
                files@[f]@,
                demand_types_of(all_rows(files@.map_values(|v: Vec<(String, Int037b)>| v@))),
            ),
{
    match averages_of_files(files) {
        Some(out) => out,
        None => Vec::new(),
    }
}

/// The averages where they are all defined, `None` where the report would
/// panic: a file without rows while there are demand types, a demand type
/// without rows in some file, or an overflow.
pub fn try_calculate_average(files: &Vec<Vec<(String, Int037b)>>) -> (r: Option<Vec<Vec<(String, Dec, String)>>>)
    ensures
        r is Some <==> averages_defined(files@.map_values(|v: Vec<(String, Int037b)>| v@)),
        r matches Some(out) ==> out.len() == files.len() && forall|f: int|
            0 <= f < files.len() ==> file_averages(
                #[trigger] out@[f]@,
                files@[f]@,
                demand_types_of(all_rows(files@.map_values(|v: Vec<(String, Int037b)>| v@))),
            ),
{
    if averages_of_files(files).is_some() {
        Some(calculate_average(files))
    } else {
        None
    }
}

} // verus!

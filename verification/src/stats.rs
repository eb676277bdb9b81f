//! The aggregation engine: bucketing dated monetary records into a fixed
//! year/quarter/month grid, and deriving the per-quarter and per-year
//! subtotals for presentation.
//!
//! The engine is a pure transform over an in-memory sequence of records; it
//! performs no I/O and is invoked by reporting views over already-committed
//! data.

use vstd::prelude::*;
use crate::calendar::{Date, date_wf, spec_date_le};
use crate::decimal::{DecModel, Decimal, add_fits, dec_add, dec_zero};
use crate::errors::BankError;
use crate::models::{AccountKind, BankState, Loan, Payment, state_wf};
use crate::ledger::{
    account_index, collect_slot_ids, find_account, has_account, has_subbranch, loans_of,
    query_associated_account, query_associated_loans, query_subbranch, subbranch_index,
};
use crate::parsing::str_eq;

verus! {

/// One record to aggregate: an amount carried on a date.
#[derive(Clone, Copy, Debug)]
pub struct StatRecord {
    pub amount: Decimal,
    pub date: Date,
}

/// One grid cell: the summed amount and the record count.
#[derive(Clone, Copy, Debug, PartialEq, Eq, Structural)]
pub struct StatCell {
    pub total: Decimal,
    pub count: u64,
}

/// Does the record fall into bucket (year offset, quarter, month-in-quarter)
/// of a window starting at `start`?
pub open spec fn in_bucket(rec: StatRecord, start: Date, y: int, q: int, mo: int) -> bool {
    &&& spec_date_le(start, rec.date)
    &&& rec.date.year - start.year == y
    &&& (rec.date.month - 1) / 3 == q
    &&& (rec.date.month - 1) % 3 == mo
}

/// How many of the records fall into the bucket.
pub open spec fn cell_count(recs: Seq<StatRecord>, start: Date, y: int, q: int, mo: int) -> int
    decreases recs.len(),
{
    if recs.len() == 0 {
        0
    } else {
        cell_count(recs.drop_last(), start, y, q, mo) + (if in_bucket(
            recs.last(),
            start,
            y,
            q,
            mo,
        ) {
            1int
        } else {
            0int
        })
    }
}

/// The exact sum of the amounts of the records in the bucket, accumulated
/// in record order.
pub open spec fn cell_sum(recs: Seq<StatRecord>, start: Date, y: int, q: int, mo: int) -> DecModel
    decreases recs.len(),
{
    if recs.len() == 0 {
        dec_zero()
    } else {
        let rest = cell_sum(recs.drop_last(), start, y, q, mo);
        if in_bucket(recs.last(), start, y, q, mo) {
            dec_add(rest, recs.last().amount@)
        } else {
            rest
        }
    }
}

/// The grid has `years` rows of 4 quarters of 3 months.
pub open spec fn grid_wf(st: Vec<Vec<Vec<StatCell>>>, years: int) -> bool {
    st@.len() == years && (forall|y: int|
        0 <= y < years ==> (#[trigger] st@[y])@.len() == 4 && (forall|q: int|
            0 <= q < 4 ==> (#[trigger] st@[y]@[q])@.len() == 3))
}

/// The cell of bucket (year offset, quarter, month-in-quarter).
pub open spec fn cell_at(st: Vec<Vec<Vec<StatCell>>>, y: int, q: int, mo: int) -> StatCell {
    st@[y]@[q]@[mo]
}

/// Every bucket sum, at every prefix, fits the decimal representation.
pub open spec fn sums_fit(recs: Seq<StatRecord>, start: Date, years: int) -> bool {
    forall|i: int|
        0 <= i < recs.len() ==> {
            let rec = #[trigger] recs[i];
            let y = rec.date.year - start.year;
            let q = ((rec.date.month - 1) / 3) as int;
            let mo = ((rec.date.month - 1) % 3) as int;
            spec_date_le(start, rec.date) && y < years ==> add_fits(
                cell_sum(recs.subrange(0, i), start, y, q, mo),
                rec.amount@,
            )
        }
}

proof fn lemma_cell_count_bounds(recs: Seq<StatRecord>, start: Date, y: int, q: int, mo: int)
    ensures
        0 <= cell_count(recs, start, y, q, mo) <= recs.len(),
    decreases recs.len(),
{
    if recs.len() > 0 {
        lemma_cell_count_bounds(recs.drop_last(), start, y, q, mo);
    }
}

/// Bucket the records of a trailing window of `years` years starting at
/// `start` into a year x quarter x month grid of sums and counts.
///
/// Records dated before `start`, and records past the window's last year,
/// are excluded.  An empty input yields an all-zero grid.  The only failure
/// is a bucket sum outgrowing the decimal representation.
#[verifier::loop_isolation(false)]
pub fn get_statistics(records: &Vec<StatRecord>, start: Date, years: usize) -> (r: Result<
    Vec<Vec<Vec<StatCell>>>,
    BankError,
>)
    requires
        date_wf(start),
        forall|i: int| 0 <= i < records@.len() ==> date_wf((#[trigger] records@[i]).date),
    ensures
        r is Ok <==> sums_fit(records@, start, years as int),
        r matches Err(e) ==> e == BankError::Validation,
        r matches Ok(st) ==> grid_wf(st, years as int) && (forall|y: int, q: int, mo: int|
            0 <= y < years && 0 <= q < 4 && 0 <= mo < 3 ==> {
                &&& (#[trigger] cell_at(st, y, q, mo)).total@ == cell_sum(
                    records@,
                    start,
                    y,
                    q,
                    mo,
                )
                &&& cell_at(st, y, q, mo).count == cell_count(records@, start, y, q, mo)
            }),
{
    let mut st: Vec<Vec<Vec<StatCell>>> = Vec::new();
    let mut y: usize = 0;
    while y < years
        invariant
            y <= years,
            st@.len() == y,
            forall|y2: int|
                0 <= y2 < y ==> (#[trigger] st@[y2])@.len() == 4 && (forall|q2: int|
                    0 <= q2 < 4 ==> (#[trigger] st@[y2]@[q2])@.len() == 3),
            forall|y2: int, q2: int, m2: int|
                0 <= y2 < y && 0 <= q2 < 4 && 0 <= m2 < 3 ==> (#[trigger] st@[y2]@[q2]@[
                    m2]).total@ == dec_zero() && st@[y2]@[q2]@[m2].count == 0,
        decreases years - y,
    {
        let mut yr: Vec<Vec<StatCell>> = Vec::new();
        let mut q: usize = 0;
        while q < 4
            invariant
                q <= 4,
                yr@.len() == q,
                forall|q2: int| 0 <= q2 < q ==> (#[trigger] yr@[q2])@.len() == 3,
                forall|q2: int, m2: int|
                    0 <= q2 < q && 0 <= m2 < 3 ==> (#[trigger] yr@[q2]@[m2]).total@
                        == dec_zero() && yr@[q2]@[m2].count == 0,
            decreases 4 - q,
        {
            let mut qu: Vec<StatCell> = Vec::new();
            qu.push(StatCell { total: Decimal::zero(), count: 0 });
            qu.push(StatCell { total: Decimal::zero(), count: 0 });
            qu.push(StatCell { total: Decimal::zero(), count: 0 });
            yr.push(qu);
            q = q + 1;
        }
        st.push(yr);
        y = y + 1;
    }
    let n = records.len();
    let mut i: usize = 0;
    while i < n
        invariant
            i <= n,
            n == records@.len(),
            grid_wf(st, years as int),
            forall|y2: int, q2: int, m2: int|
                0 <= y2 < years && 0 <= q2 < 4 && 0 <= m2 < 3 ==> {
                    &&& (#[trigger] st@[y2]@[q2]@[m2]).total@ == cell_sum(
                        records@.subrange(0, i as int),
                        start,
                        y2,
                        q2,
                        m2,
                    )
                    &&& st@[y2]@[q2]@[m2].count == cell_count(
                        records@.subrange(0, i as int),
                        start,
                        y2,
                        q2,
                        m2,
                    )
                },
            forall|j: int|
                0 <= j < i ==> {
                    let rec = #[trigger] records@[j];
                    let y2 = rec.date.year - start.year;
                    let q2 = ((rec.date.month - 1) / 3) as int;
                    let m2 = ((rec.date.month - 1) % 3) as int;
                    spec_date_le(start, rec.date) && y2 < years ==> add_fits(
                        cell_sum(records@.subrange(0, j), start, y2, q2, m2),
                        rec.amount@,
                    )
                },
        decreases n - i,
    {
        let rec = records[i];
        let ghost pfx = records@.subrange(0, i as int);
        proof {
            assert(records@.subrange(0, i + 1).drop_last() =~= pfx);
            assert(records@.subrange(0, i + 1).last() == records@[i as int]);
        }
        let in_window = start.le(&rec.date);
        let yo64: i64 = rec.date.year as i64 - start.year as i64;
        if in_window && 0 <= yo64 && (yo64 as u64) < (years as u64) {
            let yo = yo64 as usize;
            let qo = ((rec.date.month - 1) / 3) as usize;
            let mo = ((rec.date.month - 1) % 3) as usize;
            let cell = st[yo][qo][mo];
            let ghost st0 = st@;
            proof {
                lemma_cell_count_bounds(pfx, start, yo as int, qo as int, mo as int);
            }
            match cell.total.checked_add(&rec.amount) {
                None => {
                    proof {
                        assert(!sums_fit(records@, start, years as int)) by {
                            assert(!add_fits(
                                cell_sum(records@.subrange(0, i as int), start, yo as int,
                                    qo as int, mo as int),
                                records@[i as int].amount@,
                            ));
                        }
                    }
                    return Err(BankError::Validation);
                },
                Some(t2) => {
                    st[yo][qo][mo] = StatCell { total: t2, count: cell.count + 1 };
                    proof {
                        assert forall|y2: int, q2: int, m2: int|
                            0 <= y2 < years && 0 <= q2 < 4 && 0 <= m2 < 3 implies {
                            &&& (#[trigger] st@[y2]@[q2]@[m2]).total@ == cell_sum(
                                records@.subrange(0, i + 1),
                                start,
                                y2,
                                q2,
                                m2,
                            )
                            &&& st@[y2]@[q2]@[m2].count == cell_count(
                                records@.subrange(0, i + 1),
                                start,
                                y2,
                                q2,
                                m2,
                            )
                        } by {
                            if y2 == yo as int && q2 == qo as int && m2 == mo as int {
                                assert(in_bucket(records@[i as int], start, y2, q2, m2));
                            } else {
                                assert(st@[y2]@[q2]@[m2] == st0[y2]@[q2]@[m2]);
                                assert(!in_bucket(records@[i as int], start, y2, q2, m2));
                            }
                        }
                    }
                },
            }
        } else {
            proof {
                assert forall|y2: int, q2: int, m2: int|
                    0 <= y2 < years && 0 <= q2 < 4 && 0 <= m2 < 3 implies !in_bucket(
                    records@[i as int],
                    start,
                    y2,
                    q2,
                    m2,
                ) by {}
            }
        }
        i = i + 1;
    }
    proof {
        assert(records@.subrange(0, n as int) =~= records@);
    }
    Ok(st)
}

/// One month of the report: a calendar label and its cell.
#[derive(Clone, Debug)]
pub struct MonthDisplay {
    pub label: String,
    pub cell: StatCell,
}

/// One quarter of the report: its label, subtotal, and three months.
#[derive(Clone, Debug)]
pub struct QuarterDisplay {
    pub label: String,
    pub total: StatCell,
    pub months: Vec<MonthDisplay>,
}

/// One year of the report: the year, its subtotal, and four quarters.
#[derive(Clone, Debug)]
pub struct YearDisplay {
    pub year: i32,
    pub total: StatCell,
    pub quarters: Vec<QuarterDisplay>,
}

/// The fixed calendar month labels.
pub open spec fn month_label(i: int) -> Seq<char> {
    if i == 0 { "Jan"@ }
    else if i == 1 { "Feb"@ }
    else if i == 2 { "Mar"@ }
    else if i == 3 { "Apr"@ }
    else if i == 4 { "May"@ }
    else if i == 5 { "Jun"@ }
    else if i == 6 { "Jul"@ }
    else if i == 7 { "Aug"@ }
    else if i == 8 { "Sept"@ }
    else if i == 9 { "Oct"@ }
    else if i == 10 { "Nov"@ }
    else { "Dec"@ }
}

/// The fixed quarter labels.
pub open spec fn quarter_label(q: int) -> Seq<char> {
    if q == 0 { "Q1"@ }
    else if q == 1 { "Q2"@ }
    else if q == 2 { "Q3"@ }
    else { "Q4"@ }
}

fn month_label_of(i: usize) -> (r: String)
    requires
        i < 12,
    ensures
        r@ == month_label(i as int),
{
    if i == 0 { String::from_str("Jan") }
    else if i == 1 { String::from_str("Feb") }
    else if i == 2 { String::from_str("Mar") }
    else if i == 3 { String::from_str("Apr") }
    else if i == 4 { String::from_str("May") }
    else if i == 5 { String::from_str("Jun") }
    else if i == 6 { String::from_str("Jul") }
    else if i == 7 { String::from_str("Aug") }
    else if i == 8 { String::from_str("Sept") }
    else if i == 9 { String::from_str("Oct") }
    else if i == 10 { String::from_str("Nov") }
    else { String::from_str("Dec") }
}

fn quarter_label_of(q: usize) -> (r: String)
    requires
        q < 4,
    ensures
        r@ == quarter_label(q as int),
{
    if q == 0 { String::from_str("Q1") }
    else if q == 1 { String::from_str("Q2") }
    else if q == 2 { String::from_str("Q3") }
    else { String::from_str("Q4") }
}

/// The exact subtotal of one quarter's three cells, summed left to right.
pub open spec fn quarter_total_model(st: Vec<Vec<Vec<StatCell>>>, y: int, q: int) -> DecModel {
    dec_add(
        dec_add(cell_at(st, y, q, 0).total@, cell_at(st, y, q, 1).total@),
        cell_at(st, y, q, 2).total@,
    )
}

/// The exact subtotal of one year: the quarter subtotals accumulated left
/// to right from zero.
pub open spec fn year_total_model(st: Vec<Vec<Vec<StatCell>>>, y: int) -> DecModel {
    dec_add(
        dec_add(
            dec_add(
                dec_add(dec_zero(), quarter_total_model(st, y, 0)),
                quarter_total_model(st, y, 1),
            ),
            quarter_total_model(st, y, 2),
        ),
        quarter_total_model(st, y, 3),
    )
}

/// The record count of one quarter.
pub open spec fn quarter_count(st: Vec<Vec<Vec<StatCell>>>, y: int, q: int) -> int {
    cell_at(st, y, q, 0).count + cell_at(st, y, q, 1).count + cell_at(st, y, q, 2).count
}

/// The record count of one year.
pub open spec fn year_count(st: Vec<Vec<Vec<StatCell>>>, y: int) -> int {
    quarter_count(st, y, 0) + quarter_count(st, y, 1) + quarter_count(st, y, 2)
        + quarter_count(st, y, 3)
}

/// Every subtotal derived for this year fits its representation.
pub open spec fn year_fits(st: Vec<Vec<Vec<StatCell>>>, y: int) -> bool {
    &&& (forall|q: int|
        0 <= q < 4 ==> add_fits(cell_at(st, y, q, 0).total@, cell_at(st, y, q, 1).total@)
            && add_fits(
            dec_add(cell_at(st, y, q, 0).total@, cell_at(st, y, q, 1).total@),
            cell_at(st, y, q, 2).total@,
        ) && #[trigger] quarter_count(st, y, q) <= u64::MAX)
    &&& add_fits(dec_zero(), quarter_total_model(st, y, 0))
    &&& add_fits(
        dec_add(dec_zero(), quarter_total_model(st, y, 0)),
        quarter_total_model(st, y, 1),
    )
    &&& add_fits(
        dec_add(
            dec_add(dec_zero(), quarter_total_model(st, y, 0)),
            quarter_total_model(st, y, 1),
        ),
        quarter_total_model(st, y, 2),
    )
    &&& add_fits(
        dec_add(
            dec_add(
                dec_add(dec_zero(), quarter_total_model(st, y, 0)),
                quarter_total_model(st, y, 1),
            ),
            quarter_total_model(st, y, 2),
        ),
        quarter_total_model(st, y, 3),
    )
    &&& year_count(st, y) <= u64::MAX
}

/// Every derived subtotal of the whole report fits its representation.
pub open spec fn display_fits(st: Vec<Vec<Vec<StatCell>>>, years: int) -> bool {
    forall|y: int| 0 <= y < years ==> #[trigger] year_fits(st, y)
}

/// Does this report render this grid, most recent year first?
pub open spec fn display_matches(
    d: Seq<YearDisplay>,
    st: Vec<Vec<Vec<StatCell>>>,
    start_year: int,
    years: int,
) -> bool {
    d.len() == years && (forall|i: int|
        0 <= i < years ==> {
            let y = years - 1 - i;
            &&& (#[trigger] d[i]).year == start_year + y
            &&& d[i].total.total@ == year_total_model(st, y)
            &&& d[i].total.count == year_count(st, y)
            &&& d[i].quarters@.len() == 4
            &&& (forall|q: int|
                0 <= q < 4 ==> {
                    &&& (#[trigger] d[i].quarters@[q]).label@ == quarter_label(q)
                    &&& d[i].quarters@[q].total.total@ == quarter_total_model(st, y, q)
                    &&& d[i].quarters@[q].total.count == quarter_count(st, y, q)
                    &&& d[i].quarters@[q].months@.len() == 3
                    &&& (forall|m: int|
                        0 <= m < 3 ==> (#[trigger] d[i].quarters@[q].months@[m]).label@
                            == month_label(q * 3 + m) && d[i].quarters@[q].months@[m].cell
                            == cell_at(st, y, q, m))
                })
        })
}

/// Derive the presentation of a grid: per-quarter and per-year subtotals
/// under their calendar labels, most recent year first.
///
/// The only failure is a subtotal outgrowing its representation.
#[verifier::loop_isolation(false)]
#[verifier::rlimit(60)]
pub fn statistic_context(st: &Vec<Vec<Vec<StatCell>>>, start_year: i32, years: usize) -> (r:
    Result<Vec<YearDisplay>, BankError>)
    requires
        grid_wf(*st, years as int),
        years <= i32::MAX,
        start_year + years <= i32::MAX,
    ensures
        r is Ok <==> display_fits(*st, years as int),
        r matches Err(e) ==> e == BankError::Validation,
        r matches Ok(d) ==> display_matches(d@, *st, start_year as int, years as int),
{
    let mut out: Vec<YearDisplay> = Vec::new();
    let mut i: usize = 0;
    while i < years
        invariant
            i <= years,
            out@.len() == i,
            forall|i2: int| 0 <= i2 < i ==> #[trigger] year_fits(*st, years - 1 - i2),
            forall|i2: int|
                0 <= i2 < i ==> {
                    let y = years - 1 - i2;
                    &&& (#[trigger] out@[i2]).year == start_year + y
                    &&& out@[i2].total.total@ == year_total_model(*st, y)
                    &&& out@[i2].total.count == year_count(*st, y)
                    &&& out@[i2].quarters@.len() == 4
                    &&& (forall|q: int|
                        0 <= q < 4 ==> {
                            &&& (#[trigger] out@[i2].quarters@[q]).label@ == quarter_label(
                                q,
                            )
                            &&& out@[i2].quarters@[q].total.total@ == quarter_total_model(
                                *st,
                                y,
                                q,
                            )
                            &&& out@[i2].quarters@[q].total.count == quarter_count(
                                *st,
                                y,
                                q,
                            )
                            &&& out@[i2].quarters@[q].months@.len() == 3
                            &&& (forall|m: int|
                                0 <= m < 3 ==> (#[trigger] out@[i2].quarters@[q].months@[
                                    m]).label@ == month_label(q * 3 + m) && out@[i2]
                                    .quarters@[q].months@[m].cell == cell_at(*st, y, q, m))
                        })
                },
        decreases years - i,
    {
        let y = years - 1 - i;
        let mut quarters: Vec<QuarterDisplay> = Vec::new();
        let mut q: usize = 0;
        let mut year_total = Decimal::zero();
        let mut year_cnt: u64 = 0;
        while q < 4
            invariant
                q <= 4,
                y < years,
                quarters@.len() == q,
                forall|q2: int|
                    0 <= q2 < q ==> {
                        &&& add_fits(
                            cell_at(*st, y as int, q2, 0).total@,
                            cell_at(*st, y as int, q2, 1).total@,
                        )
                        &&& add_fits(
                            dec_add(
                                cell_at(*st, y as int, q2, 0).total@,
                                cell_at(*st, y as int, q2, 1).total@,
                            ),
                            cell_at(*st, y as int, q2, 2).total@,
                        )
                        &&& #[trigger] quarter_count(*st, y as int, q2) <= u64::MAX
                    },
                forall|q2: int|
                    0 <= q2 < q ==> {
                        &&& (#[trigger] quarters@[q2]).label@ == quarter_label(q2)
                        &&& quarters@[q2].total.total@ == quarter_total_model(
                            *st,
                            y as int,
                            q2,
                        )
                        &&& quarters@[q2].total.count == quarter_count(*st, y as int, q2)
                        &&& quarters@[q2].months@.len() == 3
                        &&& (forall|m: int|
                            0 <= m < 3 ==> (#[trigger] quarters@[q2].months@[m]).label@
                                == month_label(q2 * 3 + m) && quarters@[q2].months@[m].cell
                                == cell_at(*st, y as int, q2, m))
                    },
                q == 0 ==> year_total@ == dec_zero() && year_cnt == 0,
                q == 1 ==> year_total@ == dec_add(
                    dec_zero(),
                    quarter_total_model(*st, y as int, 0),
                ) && year_cnt == quarter_count(*st, y as int, 0) && add_fits(
                    dec_zero(),
                    quarter_total_model(*st, y as int, 0),
                ),
                q == 2 ==> year_total@ == dec_add(
                    dec_add(dec_zero(), quarter_total_model(*st, y as int, 0)),
                    quarter_total_model(*st, y as int, 1),
                ) && year_cnt == quarter_count(*st, y as int, 0) + quarter_count(
                    *st,
                    y as int,
                    1,
                ) && add_fits(dec_zero(), quarter_total_model(*st, y as int, 0))
                    && add_fits(
                    dec_add(dec_zero(), quarter_total_model(*st, y as int, 0)),
                    quarter_total_model(*st, y as int, 1),
                ),
                q == 3 ==> year_total@ == dec_add(
                    dec_add(
                        dec_add(dec_zero(), quarter_total_model(*st, y as int, 0)),
                        quarter_total_model(*st, y as int, 1),
                    ),
                    quarter_total_model(*st, y as int, 2),
                ) && year_cnt == quarter_count(*st, y as int, 0) + quarter_count(
                    *st,
                    y as int,
                    1,
                ) + quarter_count(*st, y as int, 2) && add_fits(
                    dec_zero(),
                    quarter_total_model(*st, y as int, 0),
                ) && add_fits(
                    dec_add(dec_zero(), quarter_total_model(*st, y as int, 0)),
                    quarter_total_model(*st, y as int, 1),
                ) && add_fits(
                    dec_add(
                        dec_add(dec_zero(), quarter_total_model(*st, y as int, 0)),
                        quarter_total_model(*st, y as int, 1),
                    ),
                    quarter_total_model(*st, y as int, 2),
                ),
                q == 4 ==> year_total@ == year_total_model(*st, y as int) && year_cnt
                    == year_count(*st, y as int) && year_fits(*st, y as int),
            decreases 4 - q,
        {
            let c0 = st[y][q][0];
            let c1 = st[y][q][1];
            let c2 = st[y][q][2];
            let t01 = match c0.total.checked_add(&c1.total) {
                Some(v) => v,
                None => {
                    proof {
                        assert(!year_fits(*st, y as int));
                    }
                    return Err(BankError::Validation);
                },
            };
            let qt = match t01.checked_add(&c2.total) {
                Some(v) => v,
                None => {
                    proof {
                        assert(!year_fits(*st, y as int));
                    }
                    return Err(BankError::Validation);
                },
            };
            let n01 = match c0.count.checked_add(c1.count) {
                Some(v) => v,
                None => {
                    proof {
                        assert(!year_fits(*st, y as int));
                    }
                    return Err(BankError::Validation);
                },
            };
            let qn = match n01.checked_add(c2.count) {
                Some(v) => v,
                None => {
                    proof {
                        assert(!year_fits(*st, y as int));
                    }
                    return Err(BankError::Validation);
                },
            };
            let mut months: Vec<MonthDisplay> = Vec::new();
            months.push(MonthDisplay { label: month_label_of(q * 3), cell: c0 });
            months.push(MonthDisplay { label: month_label_of(q * 3 + 1), cell: c1 });
            months.push(MonthDisplay { label: month_label_of(q * 3 + 2), cell: c2 });
            quarters.push(
                QuarterDisplay {
                    label: quarter_label_of(q),
                    total: StatCell { total: qt, count: qn },
                    months,
                },
            );
            let yt2 = match year_total.checked_add(&qt) {
                Some(v) => v,
                None => {
                    proof {
                        assert(!year_fits(*st, y as int));
                    }
                    return Err(BankError::Validation);
                },
            };
            let yn2 = match year_cnt.checked_add(qn) {
                Some(v) => v,
                None => {
                    proof {
                        assert(!year_fits(*st, y as int));
                    }
                    return Err(BankError::Validation);
                },
            };
            year_total = yt2;
            year_cnt = yn2;
            q = q + 1;
        }
        out.push(
            YearDisplay {
                year: start_year + (y as i32),
                total: StatCell { total: year_total, count: year_cnt },
                quarters,
            },
        );
        i = i + 1;
    }
    proof {
        assert forall|y2: int| 0 <= y2 < years implies #[trigger] year_fits(*st, y2) by {
            assert(year_fits(*st, years - 1 - (years - 1 - y2)));
        }
    }
    Ok(out)
}

/// The number of trailing years the subbranch report covers.
pub const DISPLAY_DURATION_YEAR: usize = 5;

/// The balance-and-opening-date records of the accounts these identifiers
/// name, in order.
pub open spec fn records_of_ids(s: BankState, ids: Seq<Seq<char>>) -> Seq<StatRecord> {
    Seq::new(
        ids.len(),
        |i: int|
            StatRecord {
                amount: s.accounts@[account_index(s.accounts@, ids[i])].balance,
                date: s.accounts@[account_index(s.accounts@, ids[i])].open_date,
            },
    )
}

/// The records the report aggregates for saving accounts.
pub open spec fn saving_profile_records(s: BankState, sb: Seq<char>) -> Seq<StatRecord> {
    records_of_ids(s, collect_slot_ids(s.management@, sb, AccountKind::Saving))
}

/// The records the report aggregates for checking accounts.
pub open spec fn checking_profile_records(s: BankState, sb: Seq<char>) -> Seq<StatRecord> {
    records_of_ids(s, collect_slot_ids(s.management@, sb, AccountKind::Checking))
}

/// Is one of the loans the one this payment belongs to?
pub open spec fn has_loan(ls: Seq<Loan>, lid: Seq<char>) -> bool {
    exists|i: int| 0 <= i < ls.len() && (#[trigger] ls[i]).loan_id@ == lid
}

/// The amount-and-date records of the payments against these loans.
pub open spec fn payments_records(ps: Seq<Payment>, ls: Seq<Loan>) -> Seq<StatRecord>
    decreases ps.len(),
{
    if ps.len() == 0 {
        Seq::empty()
    } else {
        let rest = payments_records(ps.drop_last(), ls);
        if has_loan(ls, ps.last().loan_id@) {
            rest.push(StatRecord { amount: ps.last().amount, date: ps.last().date })
        } else {
            rest
        }
    }
}

/// The records the report aggregates for loan payments.
pub open spec fn payment_profile_records(s: BankState, sb: Seq<char>) -> Seq<StatRecord> {
    payments_records(s.payments@, loans_of(s.loans@, sb))
}

/// The report renders the grid that buckets exactly these records.
pub open spec fn report_for(
    d: Seq<YearDisplay>,
    recs: Seq<StatRecord>,
    start: Date,
    years: int,
) -> bool {
    exists|st: Vec<Vec<Vec<StatCell>>>|
        {
            &&& #[trigger] grid_wf(st, years)
            &&& (forall|y: int, q: int, mo: int|
                0 <= y < years && 0 <= q < 4 && 0 <= mo < 3 ==> (#[trigger] cell_at(
                    st,
                    y,
                    q,
                    mo,
                )).total@ == cell_sum(recs, start, y, q, mo) && cell_at(st, y, q, mo).count
                    == cell_count(recs, start, y, q, mo))
            &&& display_matches(d, st, start.year as int, years)
        }
}


/// Every identifier collected from the index slots names an existing
/// account, in a well-formed state.
proof fn lemma_collected_ids_resolve(s: BankState, sb: Seq<char>, kind: AccountKind)
    ensures
        crate::models::slots_resolve(s) ==> (forall|i: int|
            0 <= i < collect_slot_ids(s.management@, sb, kind).len() ==> has_account(
                s.accounts@,
                #[trigger] collect_slot_ids(s.management@, sb, kind)[i],
            )),
{
    if crate::models::slots_resolve(s) {
        lemma_collected_ids_resolve_rec(s, s.management@.len() as int, sb, kind);
        assert(s.management@.subrange(0, s.management@.len() as int) =~= s.management@);
    }
}

proof fn lemma_collected_ids_resolve_rec(s: BankState, n: int, sb: Seq<char>, kind: AccountKind)
    requires
        crate::models::slots_resolve(s),
        0 <= n <= s.management@.len(),
    ensures
        forall|i: int|
            0 <= i < collect_slot_ids(s.management@.subrange(0, n), sb, kind).len()
                ==> has_account(
                s.accounts@,
                #[trigger] collect_slot_ids(s.management@.subrange(0, n), sb, kind)[i],
            ),
    decreases n,
{
    if n > 0 {
        lemma_collected_ids_resolve_rec(s, n - 1, sb, kind);
        let rows = s.management@.subrange(0, n);
        assert(rows.drop_last() =~= s.management@.subrange(0, n - 1));
        assert(rows.last() == s.management@[n - 1]);
        let rest = collect_slot_ids(rows.drop_last(), sb, kind);
        let full = collect_slot_ids(rows, sb, kind);
        assert forall|i: int| 0 <= i < full.len() implies has_account(
            s.accounts@,
            #[trigger] full[i],
        ) by {
            if i < rest.len() {
                assert(full[i] == rest[i]);
            } else {
                match crate::ledger::slot_of(rows.last(), kind) {
                    Some(x) => {
                        assert(full[i] == x@);
                        let w = choose|w: int|
                            0 <= w < s.accounts@.len() && (#[trigger] s.accounts@[w])
                                .account_id@ == x@ && crate::models::detail_kind(
                                s.accounts@[w].detail,
                            ) == kind;
                        assert(has_account(s.accounts@, x@));
                    },
                    None => {},
                }
            }
        }
    }
}

/// Whether the derived report fits depends only on the grid's cells.
proof fn lemma_display_fits_same_cells(
    st1: Vec<Vec<Vec<StatCell>>>,
    st2: Vec<Vec<Vec<StatCell>>>,
    years: int,
)
    requires
        grid_wf(st1, years),
        grid_wf(st2, years),
        forall|y: int, q: int, mo: int|
            0 <= y < years && 0 <= q < 4 && 0 <= mo < 3 ==> #[trigger] cell_at(
                st1,
                y,
                q,
                mo,
            ) == cell_at(st2, y, q, mo),
    ensures
        display_fits(st1, years) == display_fits(st2, years),
{
    assert forall|y: int| 0 <= y < years implies #[trigger] year_fits(st1, y)
        == year_fits(st2, y) by {
        assert forall|q: int| 0 <= q < 4 implies quarter_total_model(st1, y, q)
            == quarter_total_model(st2, y, q) && #[trigger] quarter_count(st1, y, q)
            == quarter_count(st2, y, q) by {
            assert(cell_at(st1, y, q, 0) == cell_at(st2, y, q, 0));
            assert(cell_at(st1, y, q, 1) == cell_at(st2, y, q, 1));
            assert(cell_at(st1, y, q, 2) == cell_at(st2, y, q, 2));
        }
        assert(quarter_total_model(st1, y, 0) == quarter_total_model(st2, y, 0));
        assert(quarter_total_model(st1, y, 1) == quarter_total_model(st2, y, 1));
        assert(quarter_total_model(st1, y, 2) == quarter_total_model(st2, y, 2));
        assert(quarter_total_model(st1, y, 3) == quarter_total_model(st2, y, 3));
    }
    if display_fits(st1, years) {
        assert forall|y: int| 0 <= y < years implies #[trigger] year_fits(st2, y) by {
            assert(year_fits(st1, y));
        }
    }
    if display_fits(st2, years) {
        assert forall|y: int| 0 <= y < years implies #[trigger] year_fits(st1, y) by {
            assert(year_fits(st2, y));
        }
    }
}


/// A grid that buckets these records but whose derived report does not fit
/// rules out every other such grid too.
proof fn lemma_no_renders_fit(g: Vec<Vec<Vec<StatCell>>>, recs: Seq<StatRecord>, start: Date)
    requires
        grid_wf(g, 5),
        forall|y: int, q: int, mo: int|
            0 <= y < 5 && 0 <= q < 4 && 0 <= mo < 3 ==> (#[trigger] cell_at(g, y, q, mo))
                .total@ == cell_sum(recs, start, y, q, mo) && cell_at(g, y, q, mo).count
                == cell_count(recs, start, y, q, mo),
        !display_fits(g, 5),
    ensures
        !renders_fit(recs, start),
{
    if renders_fit(recs, start) {
        let st = choose|st: Vec<Vec<Vec<StatCell>>>|
            {
                &&& #[trigger] grid_wf(st, 5)
                &&& (forall|y: int, q: int, mo: int|
                    0 <= y < 5 && 0 <= q < 4 && 0 <= mo < 3 ==> (#[trigger] cell_at(
                        st,
                        y,
                        q,
                        mo,
                    )).total@ == cell_sum(recs, start, y, q, mo) && cell_at(st, y, q, mo)
                        .count == cell_count(recs, start, y, q, mo))
                &&& display_fits(st, 5)
            };
        assert forall|y: int, q: int, mo: int|
            0 <= y < 5 && 0 <= q < 4 && 0 <= mo < 3 implies #[trigger] cell_at(
            st,
            y,
            q,
            mo,
        ) == cell_at(g, y, q, mo) by {
            assert(cell_at(st, y, q, mo).total@ == cell_at(g, y, q, mo).total@);
            assert(cell_at(st, y, q, mo).total.mantissa == cell_at(g, y, q, mo).total
                .mantissa);
            assert(cell_at(st, y, q, mo).total.scale == cell_at(g, y, q, mo).total.scale);
        }
        lemma_display_fits_same_cells(st, g, 5);
    }
}

/// Some grid buckets these records and its derived report fits.
pub open spec fn renders_fit(recs: Seq<StatRecord>, start: Date) -> bool {
    exists|st: Vec<Vec<Vec<StatCell>>>|
        {
            &&& #[trigger] grid_wf(st, 5)
            &&& (forall|y: int, q: int, mo: int|
                0 <= y < 5 && 0 <= q < 4 && 0 <= mo < 3 ==> (#[trigger] cell_at(
                    st,
                    y,
                    q,
                    mo,
                )).total@ == cell_sum(recs, start, y, q, mo) && cell_at(st, y, q, mo).count
                    == cell_count(recs, start, y, q, mo))
            &&& display_fits(st, 5)
        }
}

/// When the subbranch report succeeds: the subbranch exists, and every
/// bucket sum and derived subtotal of all three statistics fits the decimal
/// representation.
pub open spec fn profile_ok(s: BankState, name: Seq<char>, cur_year: i32) -> bool {
    let start = (Date { year: (cur_year - 4) as i32, month: 1, day: 1 });
    &&& has_subbranch(s.subbranches@, name)
    &&& sums_fit(saving_profile_records(s, name), start, 5)
    &&& sums_fit(checking_profile_records(s, name), start, 5)
    &&& sums_fit(payment_profile_records(s, name), start, 5)
    &&& renders_fit(saving_profile_records(s, name), start)
    &&& renders_fit(checking_profile_records(s, name), start)
    &&& renders_fit(payment_profile_records(s, name), start)
}

/// The whole subbranch report: the row itself and the three aggregations.
#[derive(Debug)]
pub struct SubbranchProfileContext {
    pub subbranch_name: String,
    pub subbranch_city: String,
    pub subbranch_asset: Decimal,
    pub saving: Vec<YearDisplay>,
    pub checking: Vec<YearDisplay>,
    pub payment: Vec<YearDisplay>,
}

/// Look up the records of the accounts these identifiers name.
#[verifier::loop_isolation(false)]
fn records_for_ids(s: &BankState, ids: &Vec<String>) -> (r: Result<
    Vec<StatRecord>,
    BankError,
>)
    requires
        crate::models::accounts_unique(s.accounts@),
    ensures
        r is Ok <==> (forall|j: int|
            0 <= j < ids@.len() ==> has_account(s.accounts@, (#[trigger] ids@[j])@)),
        r matches Ok(v) ==> v@ == records_of_ids(*s, ids@.map_values(|t: String| t@)),
        r matches Err(e) ==> e == BankError::NotFound,
{
    let ghost idv = ids@.map_values(|t: String| t@);
    proof {
        assert(forall|j: int| 0 <= j < ids@.len() ==> idv[j] == (#[trigger] ids@[j])@);
    }
    let mut out: Vec<StatRecord> = Vec::new();
    let n = ids.len();
    let mut i: usize = 0;
    while i < n
        invariant
            i <= n,
            n == ids@.len(),
            out@.len() == i,
            forall|j: int| 0 <= j < i ==> has_account(s.accounts@, (#[trigger] ids@[j])@),
            forall|j: int|
                0 <= j < i ==> #[trigger] out@[j] == (StatRecord {
                    amount: s.accounts@[account_index(s.accounts@, idv[j])].balance,
                    date: s.accounts@[account_index(s.accounts@, idv[j])].open_date,
                }),
        decreases n - i,
    {
        match find_account(s, ids[i].as_str()) {
            None => {
                return Err(BankError::NotFound);
            },
            Some(ai) => {
                proof {
                    let w = account_index(s.accounts@, idv[i as int]);
                    assert(s.accounts@[w].account_id@ == idv[i as int]);
                    if w < ai as int {
                        assert(s.accounts@[w].account_id@ != s.accounts@[ai as int]
                            .account_id@);
                    } else if w > ai as int {
                        assert(s.accounts@[ai as int].account_id@ != s.accounts@[w]
                            .account_id@);
                    }
                    assert(w == ai as int);
                }
                out.push(
                    StatRecord {
                        amount: s.accounts[ai].balance,
                        date: s.accounts[ai].open_date,
                    },
                );
            },
        }
        i = i + 1;
    }
    proof {
        assert(out@ =~= records_of_ids(*s, idv));
    }
    Ok(out)
}

/// Do any of the loans carry this identifier?
#[verifier::loop_isolation(false)]
fn loans_contain(lv: &Vec<Loan>, lid: &str) -> (r: bool)
    ensures
        r == has_loan(lv@, lid@),
{
    let n = lv.len();
    let mut i: usize = 0;
    while i < n
        invariant
            i <= n,
            n == lv@.len(),
            forall|t: int| 0 <= t < i ==> (#[trigger] lv@[t]).loan_id@ != lid@,
        decreases n - i,
    {
        if str_eq(lv[i].loan_id.as_str(), lid) {
            return true;
        }
        i = i + 1;
    }
    false
}

/// The subbranch report: its row, and the saving-account, checking-account
/// and loan-payment aggregations over the five years ending at `cur_year`,
/// most recent year first.
///
/// Fails with `NotFound` when the subbranch does not exist, and with
/// `Validation` when a sum outgrows the decimal representation.
#[verifier::loop_isolation(false)]
pub fn subbranch_profile(s: &BankState, name: &str, cur_year: i32) -> (r: Result<
    SubbranchProfileContext,
    BankError,
>)
    requires
        state_wf(*s),
        i32::MIN + 4 <= cur_year < i32::MAX,
    ensures
        r is Ok ==> has_subbranch(s.subbranches@, name@),
        !has_subbranch(s.subbranches@, name@) ==> r == Result::<
            SubbranchProfileContext,
            BankError,
        >::Err(BankError::NotFound),
        r matches Err(e) ==> e == BankError::NotFound || e == BankError::Validation,
        r is Ok <==> profile_ok(*s, name@, cur_year),
        has_subbranch(s.subbranches@, name@) ==> (r matches Err(e) ==> e
            == BankError::Validation),
        r matches Ok(ctx) ==> {
            let j = subbranch_index(s.subbranches@, name@);
            let start = (Date { year: (cur_year - 4) as i32, month: 1, day: 1 });
            &&& ctx.subbranch_name@ == name@
            &&& ctx.subbranch_city == s.subbranches@[j].city
            &&& ctx.subbranch_asset == s.subbranches@[j].subbranch_asset
            &&& report_for(ctx.saving@, saving_profile_records(*s, name@), start, 5)
            &&& report_for(ctx.checking@, checking_profile_records(*s, name@), start, 5)
            &&& report_for(ctx.payment@, payment_profile_records(*s, name@), start, 5)
        },
{
    let sb = match query_subbranch(s, name) {
        Ok(sb) => sb,
        Err(e) => {
            return Err(e);
        },
    };
    proof {
        let j = subbranch_index(s.subbranches@, name@);
        assert(s.subbranches@[j].subbranch_name@ == name@);
        let w = choose|w: int|
            0 <= w < s.subbranches@.len() && #[trigger] s.subbranches@[w] == sb;
        if w != j {
            assert(s.subbranches@[w].subbranch_name@ != s.subbranches@[j].subbranch_name@);
        }
        assert(sb == s.subbranches@[j]);
    }
    let (saving_ids, checking_ids) = query_associated_account(s, name);
    proof {
        lemma_collected_ids_resolve(*s, name@, AccountKind::Saving);
        lemma_collected_ids_resolve(*s, name@, AccountKind::Checking);
        assert forall|j: int| 0 <= j < saving_ids@.len() implies has_account(
            s.accounts@,
            (#[trigger] saving_ids@[j])@,
        ) by {
            assert(saving_ids@.map_values(|t: String| t@)[j] == saving_ids@[j]@);
        }
        assert forall|j: int| 0 <= j < checking_ids@.len() implies has_account(
            s.accounts@,
            (#[trigger] checking_ids@[j])@,
        ) by {
            assert(checking_ids@.map_values(|t: String| t@)[j] == checking_ids@[j]@);
        }
    }
    let saving_recs = match records_for_ids(s, &saving_ids) {
        Ok(v) => v,
        Err(e) => {
            proof {
                assert(false);
            }
            return Err(e);
        },
    };
    let checking_recs = match records_for_ids(s, &checking_ids) {
        Ok(v) => v,
        Err(e) => {
            proof {
                assert(false);
            }
            return Err(e);
        },
    };
    let loans = query_associated_loans(s, name);
    let mut payment_recs: Vec<StatRecord> = Vec::new();
    let np = s.payments.len();
    let mut pi: usize = 0;
    proof {
        assert(s.payments@.subrange(0, 0) =~= Seq::<Payment>::empty());
    }
    while pi < np
        invariant
            pi <= np,
            np == s.payments@.len(),
            payment_recs@ == payments_records(s.payments@.subrange(0, pi as int), loans@),
        decreases np - pi,
    {
        proof {
            assert(s.payments@.subrange(0, pi + 1).drop_last() =~= s.payments@.subrange(
                0,
                pi as int,
            ));
            assert(s.payments@.subrange(0, pi + 1).last() == s.payments@[pi as int]);
        }
        if loans_contain(&loans, s.payments[pi].loan_id.as_str()) {
            payment_recs.push(
                StatRecord { amount: s.payments[pi].amount, date: s.payments[pi].date },
            );
        }
        pi = pi + 1;
    }
    proof {
        assert(s.payments@.subrange(0, np as int) =~= s.payments@);
    }
    let start = Date { year: cur_year - 4, month: 1, day: 1 };
    let ghost srecs = saving_profile_records(*s, name@);
    let ghost crecs = checking_profile_records(*s, name@);
    let ghost precs = payment_profile_records(*s, name@);
    proof {
        assert(saving_recs@ == srecs);
        assert(checking_recs@ == crecs);
        assert(payment_recs@ == precs);
        assert(forall|i: int|
            0 <= i < saving_recs@.len() ==> date_wf((#[trigger] saving_recs@[i]).date));
        assert(forall|i: int|
            0 <= i < checking_recs@.len() ==> date_wf(
                (#[trigger] checking_recs@[i]).date,
            ));
        assert forall|i: int|
            0 <= i < payment_recs@.len() implies date_wf((#[trigger] payment_recs@[i]).date)
        by {
            lemma_payments_records_dates(s.payments@, loans@);
        }
    }
    let saving_grid = match get_statistics(&saving_recs, start, DISPLAY_DURATION_YEAR) {
        Ok(g) => g,
        Err(e) => {
            proof {
                assert(!sums_fit(srecs, start, 5));
            }
            return Err(e);
        },
    };
    let checking_grid = match get_statistics(&checking_recs, start, DISPLAY_DURATION_YEAR) {
        Ok(g) => g,
        Err(e) => {
            proof {
                assert(!sums_fit(crecs, start, 5));
            }
            return Err(e);
        },
    };
    let payment_grid = match get_statistics(&payment_recs, start, DISPLAY_DURATION_YEAR) {
        Ok(g) => g,
        Err(e) => {
            proof {
                assert(!sums_fit(precs, start, 5));
            }
            return Err(e);
        },
    };
    let saving_view = match statistic_context(&saving_grid, cur_year - 4, DISPLAY_DURATION_YEAR) {
        Ok(v) => v,
        Err(e) => {
            proof {
                lemma_no_renders_fit(saving_grid, srecs, start);
            }
            return Err(e);
        },
    };
    let checking_view = match statistic_context(
        &checking_grid,
        cur_year - 4,
        DISPLAY_DURATION_YEAR,
    ) {
        Ok(v) => v,
        Err(e) => {
            proof {
                lemma_no_renders_fit(checking_grid, crecs, start);
            }
            return Err(e);
        },
    };
    let payment_view = match statistic_context(
        &payment_grid,
        cur_year - 4,
        DISPLAY_DURATION_YEAR,
    ) {
        Ok(v) => v,
        Err(e) => {
            proof {
                lemma_no_renders_fit(payment_grid, precs, start);
            }
            return Err(e);
        },
    };
    proof {
        assert(grid_wf(saving_grid, 5));
        assert(grid_wf(checking_grid, 5));
        assert(grid_wf(payment_grid, 5));
        assert(report_for(saving_view@, saving_profile_records(*s, name@), start, 5));
        assert(report_for(checking_view@, checking_profile_records(*s, name@), start, 5));
        assert(report_for(payment_view@, payment_profile_records(*s, name@), start, 5));
        assert(renders_fit(srecs, start));
        assert(renders_fit(crecs, start));
        assert(renders_fit(precs, start));
        assert(profile_ok(*s, name@, cur_year));
    }
    Ok(
        SubbranchProfileContext {
            subbranch_name: sb.subbranch_name,
            subbranch_city: sb.city,
            subbranch_asset: sb.subbranch_asset,
            saving: saving_view,
            checking: checking_view,
            payment: payment_view,
        },
    )
}

/// Payment records carry the well-formed dates of their payment rows.
proof fn lemma_payments_records_dates(ps: Seq<Payment>, ls: Seq<Loan>)
    requires
        forall|i: int| 0 <= i < ps.len() ==> date_wf((#[trigger] ps[i]).date),
    ensures
        forall|i: int|
            0 <= i < payments_records(ps, ls).len() ==> date_wf(
                (#[trigger] payments_records(ps, ls)[i]).date,
            ),
    decreases ps.len(),
{
    if ps.len() > 0 {
        lemma_payments_records_dates(ps.drop_last(), ls);
        let pr = payments_records(ps, ls);
        let rest = payments_records(ps.drop_last(), ls);
        assert forall|i: int| 0 <= i < pr.len() implies date_wf((#[trigger] pr[i]).date)
        by {
            if i < rest.len() {
                assert(pr[i] == rest[i]);
            } else {
                assert(date_wf(ps.last().date));
            }
        }
    }
}


} // verus!

//! The record normalizer: one raw spreadsheet row or one raw feed item
//! in, zero or one canonical record out. Malformed input is skipped,
//! never an error.

use vstd::prelude::*;

use crate::record::HistoricalRecord;
use crate::strutil::{all_digits, is_digit_char, is_space_char, runs, spec_pad3};
use crate::strutil::{spec_parse_i32, spec_year_of};

verus! {

/// What a spreadsheet cell holds, as far as the normalizer reads it: a
/// number, a text, or anything else.
#[derive(Debug, Clone, PartialEq)]
pub enum CellValue {
    Num(i32),
    Text(String),
    Empty,
}

/// The lenient numeric coercion of one cell: a number is itself, a text
/// is parsed, anything unparseable or empty counts as zero.
pub open spec fn cell_int(c: CellValue) -> int {
    match c {
        CellValue::Num(n) => n as int,
        CellValue::Text(s) => match spec_parse_i32(s@) {
            Option::Some(v) => v as int,
            Option::None => 0,
        },
        CellValue::Empty => 0,
    }
}

/// Coerce one cell to an integer, unparseable content counting as zero.
pub fn cell_to_int(c: &CellValue) -> (r: i32)
    ensures
        r as int == cell_int(*c),
{
    match c {
        CellValue::Num(n) => *n,
        CellValue::Text(s) => match crate::strutil::parse_i32(s.as_str()) {
            Option::Some(v) => v,
            Option::None => 0,
        },
        CellValue::Empty => 0,
    }
}

/// A spreadsheet row yields a record when it has at least 20 cells, its
/// first cell is text that splits into exactly two whitespace-separated
/// tokens, and the year of the second token is exactly four digits.
pub open spec fn sheet_row_valid(cells: Seq<CellValue>) -> bool {
    &&& cells.len() >= 20
    &&& match cells[0] {
        CellValue::Text(s) => {
            let toks = runs(s@, |c: char| !is_space_char(c));
            &&& toks.len() == 2
            &&& spec_year_of(toks[1]).len() == 4
            &&& all_digits(spec_year_of(toks[1]))
        },
        _ => false,
    }
}

/// How the record of a valid spreadsheet row reads: the period is the
/// first token with every period mark removed, the date is the second
/// token verbatim, and the numbers come from the fixed column offsets.
pub open spec fn sheet_record_matches(rec: HistoricalRecord, cells: Seq<CellValue>) -> bool {
    match cells[0] {
        CellValue::Text(s) => {
            let toks = runs(s@, |c: char| !is_space_char(c));
            &&& rec.period@ == toks[0].filter(|c: char| c != '期')
            &&& rec.date@ == toks[1]
            &&& rec.n1 as int == cell_int(cells[1])
            &&& rec.n2 as int == cell_int(cells[4])
            &&& rec.n3 as int == cell_int(cells[7])
            &&& rec.n4 as int == cell_int(cells[10])
            &&& rec.n5 as int == cell_int(cells[13])
            &&& rec.n6 as int == cell_int(cells[16])
            &&& rec.special as int == cell_int(cells[19])
        },
        _ => false,
    }
}

/// Normalize one spreadsheet row: a record, or nothing for a row to
/// skip.
pub fn normalize_sheet_row(cells: &Vec<CellValue>) -> (r: Option<HistoricalRecord>)
    ensures
        r is Some <==> sheet_row_valid(cells@),
        match r {
            Option::Some(rec) => sheet_record_matches(rec, cells@),
            Option::None => true,
        },
{
    if cells.len() < 20 {
        return Option::None;
    }
    let first = &cells[0];
    match first {
        CellValue::Text(s) => {
            let toks = crate::strutil::split_tokens(s.as_str());
            proof {
                assert(toks@.map_values(|t: String| t@).len() == toks@.len());
            }
            if toks.len() != 2 {
                return Option::None;
            }
            proof {
                assert(toks@.map_values(|t: String| t@)[0] == toks@[0]@);
                assert(toks@.map_values(|t: String| t@)[1] == toks@[1]@);
            }
            let period = crate::strutil::remove_char_all(toks[0].as_str(), '期');
            let date = toks[1].clone();
            let year = crate::strutil::date_year(date.as_str());
            if !crate::strutil::is_four_digit_year(year.as_str()) {
                return Option::None;
            }
            Option::Some(
                HistoricalRecord {
                    period,
                    date,
                    n1: cell_to_int(&cells[1]),
                    n2: cell_to_int(&cells[4]),
                    n3: cell_to_int(&cells[7]),
                    n4: cell_to_int(&cells[10]),
                    n5: cell_to_int(&cells[13]),
                    n6: cell_to_int(&cells[16]),
                    special: cell_to_int(&cells[19]),
                },
            )
        },
        _ => Option::None,
    }
}

/// One entry of the feed's number array, as far as the normalizer
/// reads it: an integer, a text, or anything else.
#[derive(Debug, Clone, PartialEq)]
pub enum NumEntry {
    Int(i64),
    Text(String),
    Skip,
}

/// The number field of one feed item: absent, an array of entries, or
/// one text holding the numbers.
#[derive(Debug, Clone, PartialEq)]
pub enum NumbersField {
    Absent,
    Entries(Vec<NumEntry>),
    Text(String),
}

/// One feed item with its values read out of the payload, before
/// normalization.
#[derive(Debug, Clone, PartialEq)]
pub struct RawApiItem {
    pub period: String,
    pub date: String,
    pub numbers: NumbersField,
}

/// The number one entry yields: an integer that fits, or a text that
/// parses; anything else yields none.
pub open spec fn entry_value(e: NumEntry) -> Option<i32> {
    match e {
        NumEntry::Int(i) => if i32::MIN <= i <= i32::MAX {
            Option::Some(i as i32)
        } else {
            Option::None
        },
        NumEntry::Text(s) => spec_parse_i32(s@),
        NumEntry::Skip => Option::None,
    }
}

/// The numbers an entry array yields, in order, entries that yield
/// none skipped.
pub open spec fn entries_values(es: Seq<NumEntry>) -> Seq<i32>
    decreases es.len(),
{
    if es.len() == 0 {
        Seq::empty()
    } else {
        entries_values(es.drop_last()) + match entry_value(es.last()) {
            Option::Some(v) => seq![v],
            Option::None => Seq::empty(),
        }
    }
}

/// The numbers a list of digit runs yields, runs too large for `i32`
/// skipped.
pub open spec fn runs_values(rs: Seq<Seq<char>>) -> Seq<i32>
    decreases rs.len(),
{
    if rs.len() == 0 {
        Seq::empty()
    } else {
        runs_values(rs.drop_last()) + match spec_parse_i32(rs.last()) {
            Option::Some(v) => seq![v],
            Option::None => Seq::empty(),
        }
    }
}

/// The numbers of one feed item's number field.
pub open spec fn numbers_of_field(f: NumbersField) -> Seq<i32> {
    match f {
        NumbersField::Absent => Seq::empty(),
        NumbersField::Entries(es) => entries_values(es@),
        NumbersField::Text(s) => runs_values(runs(s@, |c: char| is_digit_char(c))),
    }
}

/// Relies on regex::Regex::find_iter with the pattern `[0-9]+`: its
/// successive non-overlapping matches are exactly the maximal runs of
/// ASCII digits of the haystack, in order.
#[verifier::external_body]
fn extract_digit_runs(s: &str) -> (r: Vec<String>)
    ensures
        r@.map_values(|t: String| t@) == runs(s@, |c: char| is_digit_char(c)),
{
    let re = regex::Regex::new("[0-9]+").unwrap();
    re.find_iter(s).map(|m| m.as_str().to_string()).collect()
}

/// The numbers of one feed item's number field: integer or text
/// entries of an array, or the digit runs of a single text.
pub fn numbers_from_field(f: &NumbersField) -> (v: Vec<i32>)
    ensures
        v@ == numbers_of_field(*f),
{
    match f {
        NumbersField::Absent => Vec::new(),
        NumbersField::Entries(es) => {
            let mut v: Vec<i32> = Vec::new();
            let n = es.len();
            let mut i: usize = 0;
            proof {
                assert(entries_values(es@.take(0)) =~= Seq::<i32>::empty());
            }
            while i < n
                invariant
                    n == es@.len(),
                    0 <= i <= n,
                    v@ == entries_values(es@.take(i as int)),
                decreases n - i,
            {
                proof {
                    assert(es@.take(i + 1).drop_last() =~= es@.take(i as int));
                    assert(es@.take(i + 1).last() == es@[i as int]);
                }
                match &es[i] {
                    NumEntry::Int(raw) => {
                        let raw = *raw;
                        if -0x8000_0000i64 <= raw && raw <= 0x7fff_ffffi64 {
                            v.push(raw as i32);
                            proof {
                                assert(v@ =~= entries_values(es@.take(i + 1)));
                            }
                        }
                    },
                    NumEntry::Text(s) => {
                        match crate::strutil::parse_i32(s.as_str()) {
                            Option::Some(x) => {
                                v.push(x);
                                proof {
                                    assert(v@ =~= entries_values(es@.take(i + 1)));
                                }
                            },
                            Option::None => {},
                        }
                    },
                    NumEntry::Skip => {},
                }
                i = i + 1;
            }
            proof {
                assert(es@.take(n as int) =~= es@);
            }
            v
        },
        NumbersField::Text(s) => {
            let rs = extract_digit_runs(s.as_str());
            let ghost deep = rs@.map_values(|t: String| t@);
            let mut v: Vec<i32> = Vec::new();
            let n = rs.len();
            let mut i: usize = 0;
            proof {
                assert(runs_values(deep.take(0)) =~= Seq::<i32>::empty());
            }
            while i < n
                invariant
                    n == rs@.len(),
                    n == deep.len(),
                    0 <= i <= n,
                    deep == rs@.map_values(|t: String| t@),
                    v@ == runs_values(deep.take(i as int)),
                decreases n - i,
            {
                proof {
                    assert(deep.take(i + 1).drop_last() =~= deep.take(i as int));
                    assert(deep.take(i + 1).last() == deep[i as int]);
                    assert(deep[i as int] == rs@[i as int]@);
                }
                match crate::strutil::parse_i32(rs[i].as_str()) {
                    Option::Some(x) => {
                        v.push(x);
                        proof {
                            assert(v@ =~= runs_values(deep.take(i + 1)));
                        }
                    },
                    Option::None => {},
                }
                i = i + 1;
            }
            proof {
                assert(deep.take(n as int) =~= deep);
            }
            v
        },
    }
}

/// The period of one feed item: every period mark removed, then
/// zero-padded to three digits when the remainder is numeric.
pub open spec fn api_period_final(p: Seq<char>) -> Seq<char> {
    let stripped = p.filter(|c: char| c != '期');
    match spec_parse_i32(stripped) {
        Option::Some(v) => spec_pad3(v as int),
        Option::None => stripped,
    }
}

/// A malformed or placeholder date of the feed: shorter than five
/// characters, or the well-known sentinel year `0001`.
pub open spec fn api_date_is_bad(d: Seq<char>) -> bool {
    d.len() < 5 || d.take(4) == "0001"@
}

/// The date of one feed item: a bad date is rewritten to the first of
/// January of the requested year, anything else is kept verbatim.
pub open spec fn api_date_final(d: Seq<char>, year: Seq<char>) -> Seq<char> {
    if api_date_is_bad(d) {
        year + "-01-01"@
    } else {
        d
    }
}

/// A feed item yields a record when its number field yields at least
/// seven numbers and the year of its final date is exactly four
/// digits.
pub open spec fn api_item_valid(item: RawApiItem, year: Seq<char>) -> bool {
    &&& numbers_of_field(item.numbers).len() >= 7
    &&& spec_year_of(api_date_final(item.date@, year)).len() == 4
    &&& all_digits(spec_year_of(api_date_final(item.date@, year)))
}

/// How the record of a valid feed item reads: the first six numbers
/// are the main numbers, the seventh is the special number.
pub open spec fn api_record_matches(rec: HistoricalRecord, item: RawApiItem, year: Seq<char>) -> bool {
    let nums = numbers_of_field(item.numbers);
    &&& rec.period@ == api_period_final(item.period@)
    &&& rec.date@ == api_date_final(item.date@, year)
    &&& rec.n1 == nums[0]
    &&& rec.n2 == nums[1]
    &&& rec.n3 == nums[2]
    &&& rec.n4 == nums[3]
    &&& rec.n5 == nums[4]
    &&& rec.n6 == nums[5]
    &&& rec.special == nums[6]
}

/// Normalize one feed item fetched for `year`: a record, or nothing
/// for an item to skip.
pub fn normalize_api_item(item: &RawApiItem, year: &str) -> (r: Option<HistoricalRecord>)
    ensures
        r is Some <==> api_item_valid(*item, year@),
        match r {
            Option::Some(rec) => api_record_matches(rec, *item, year@),
            Option::None => true,
        },
{
    proof {
        reveal_strlit("0001");
    }
    let nums = numbers_from_field(&item.numbers);
    if nums.len() < 7 {
        return Option::None;
    }
    let stripped = crate::strutil::remove_char_all(item.period.as_str(), '期');
    let period = match crate::strutil::parse_i32(stripped.as_str()) {
        Option::Some(p) => crate::strutil::pad3_i32(p),
        Option::None => stripped,
    };
    let bad = item.date.unicode_len() < 5 || crate::strutil::has_prefix(item.date.as_str(), "0001");
    let date = if bad {
        let mut d = String::from_str(year);
        d.append("-01-01");
        d
    } else {
        item.date.clone()
    };
    let fy = crate::strutil::date_year(date.as_str());
    if !crate::strutil::is_four_digit_year(fy.as_str()) {
        return Option::None;
    }
    Option::Some(
        HistoricalRecord {
            period,
            date,
            n1: nums[0],
            n2: nums[1],
            n3: nums[2],
            n4: nums[3],
            n5: nums[4],
            n6: nums[5],
            special: nums[6],
        },
    )
}

/// `picks` certifies that `v` is the in-order normalization of exactly
/// the valid rows of `rows`.
pub open spec fn sheet_picks_ok(
    v: Seq<HistoricalRecord>,
    rows: Seq<Vec<CellValue>>,
    picks: Seq<int>,
) -> bool {
    &&& picks.len() == v.len()
    &&& forall|a: int, b: int| 0 <= a < b < picks.len() ==> picks[a] < picks[b]
    &&& forall|a: int|
        0 <= a < picks.len() ==> 0 <= #[trigger] picks[a] < rows.len() && sheet_row_valid(
            rows[picks[a]]@,
        ) && sheet_record_matches(v[a], rows[picks[a]]@)
    &&& forall|i: int| 0 <= i < rows.len() && sheet_row_valid(rows[i]@) ==> picks.contains(i)
}

/// `v` is the in-order normalization of exactly the valid rows of
/// `rows`.
pub open spec fn sheet_batch_matches(v: Seq<HistoricalRecord>, rows: Seq<Vec<CellValue>>) -> bool {
    exists|picks: Seq<int>| sheet_picks_ok(v, rows, picks)
}

/// Normalize a whole batch of spreadsheet rows, skipping the invalid
/// ones; a batch without one valid row is a user-facing error.
pub fn normalize_sheet_rows(rows: &Vec<Vec<CellValue>>) -> (r: Result<
    Vec<HistoricalRecord>,
    String,
>)
    ensures
        match r {
            Result::Ok(v) => v@.len() > 0 && sheet_batch_matches(v@, rows@),
            Result::Err(e) => e@ == "未找到有效数据记录"@ && forall|i: int|
                0 <= i < rows@.len() ==> !sheet_row_valid(#[trigger] rows@[i]@),
        },
{
    let n = rows.len();
    let mut out: Vec<HistoricalRecord> = Vec::new();
    let ghost mut picks: Seq<int> = Seq::empty();
    let mut i: usize = 0;
    while i < n
        invariant
            n == rows@.len(),
            0 <= i <= n,
            picks.len() == out@.len(),
            forall|a: int, b: int| 0 <= a < b < picks.len() ==> picks[a] < picks[b],
            forall|a: int| 0 <= a < picks.len() ==> 0 <= #[trigger] picks[a] < i,
            forall|a: int|
                0 <= a < picks.len() ==> sheet_row_valid(rows@[#[trigger] picks[a]]@)
                    && sheet_record_matches(out@[a], rows@[picks[a]]@),
            forall|j: int| 0 <= j < i && sheet_row_valid(rows@[j]@) ==> picks.contains(j),
        decreases n - i,
    {
        match normalize_sheet_row(&rows[i]) {
            Option::Some(rec) => {
                let ghost prev = picks;
                out.push(rec);
                proof {
                    picks = picks.push(i as int);
                    assert forall|j: int| 0 <= j < i + 1 && sheet_row_valid(
                        rows@[j]@,
                    ) implies picks.contains(j) by {
                        if j < i {
                            assert(prev.contains(j));
                            let w = choose|w: int| 0 <= w < prev.len() && prev[w] == j;
                            assert(picks[w] == j);
                        } else {
                            assert(picks[picks.len() - 1] == j);
                        }
                    }
                }
            },
            Option::None => {},
        }
        i = i + 1;
    }
    if out.len() == 0 {
        proof {
            assert forall|j: int| 0 <= j < rows@.len() implies !sheet_row_valid(
                #[trigger] rows@[j]@,
            ) by {
                if sheet_row_valid(rows@[j]@) {
                    assert(picks.contains(j));
                }
            }
        }
        Result::Err(String::from_str("未找到有效数据记录"))
    } else {
        proof {
            assert(sheet_picks_ok(out@, rows@, picks));
        }
        Result::Ok(out)
    }
}

/// `picks` certifies that `v` is the in-order normalization of exactly
/// the valid items of `items` fetched for `year`.
pub open spec fn api_picks_ok(
    v: Seq<HistoricalRecord>,
    items: Seq<RawApiItem>,
    year: Seq<char>,
    picks: Seq<int>,
) -> bool {
    &&& picks.len() == v.len()
    &&& forall|a: int, b: int| 0 <= a < b < picks.len() ==> picks[a] < picks[b]
    &&& forall|a: int|
        0 <= a < picks.len() ==> 0 <= #[trigger] picks[a] < items.len() && api_item_valid(
            items[picks[a]],
            year,
        ) && api_record_matches(v[a], items[picks[a]], year)
    &&& forall|i: int| 0 <= i < items.len() && api_item_valid(items[i], year) ==> picks.contains(i)
}

/// `v` is the in-order normalization of exactly the valid items of
/// `items` fetched for `year`.
pub open spec fn api_batch_matches(
    v: Seq<HistoricalRecord>,
    items: Seq<RawApiItem>,
    year: Seq<char>,
) -> bool {
    exists|picks: Seq<int>| api_picks_ok(v, items, year, picks)
}

/// Normalize a whole batch of feed items fetched for `year`, skipping
/// the invalid ones; an empty result is not an error here, since other
/// years may still succeed.
pub fn normalize_api_items(items: &Vec<RawApiItem>, year: &str) -> (v: Vec<HistoricalRecord>)
    ensures
        api_batch_matches(v@, items@, year@),
{
    let n = items.len();
    let mut out: Vec<HistoricalRecord> = Vec::new();
    let ghost mut picks: Seq<int> = Seq::empty();
    let mut i: usize = 0;
    while i < n
        invariant
            n == items@.len(),
            0 <= i <= n,
            picks.len() == out@.len(),
            forall|a: int, b: int| 0 <= a < b < picks.len() ==> picks[a] < picks[b],
            forall|a: int| 0 <= a < picks.len() ==> 0 <= #[trigger] picks[a] < i,
            forall|a: int|
                0 <= a < picks.len() ==> api_item_valid(items@[#[trigger] picks[a]], year@)
                    && api_record_matches(out@[a], items@[picks[a]], year@),
            forall|j: int| 0 <= j < i && api_item_valid(items@[j], year@) ==> picks.contains(j),
        decreases n - i,
    {
        match normalize_api_item(&items[i], year) {
            Option::Some(rec) => {
                let ghost prev = picks;
                out.push(rec);
                proof {
                    picks = picks.push(i as int);
                    assert forall|j: int| 0 <= j < i + 1 && api_item_valid(
                        items@[j],
                        year@,
                    ) implies picks.contains(j) by {
                        if j < i {
                            assert(prev.contains(j));
                            let w = choose|w: int| 0 <= w < prev.len() && prev[w] == j;
                            assert(picks[w] == j);
                        } else {
                            assert(picks[picks.len() - 1] == j);
                        }
                    }
                }
            },
            Option::None => {},
        }
        i = i + 1;
    }
    proof {
        assert(api_picks_ok(out@, items@, year@, picks));
    }
    out
}

} // verus!

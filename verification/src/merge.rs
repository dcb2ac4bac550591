//! The merge and reconciliation engine: sorting year batches, first-seen
//! deduplication by identity key, and rebuilding the combined view.

use vstd::prelude::*;

use crate::record::{contains_key, has_key, key_matches, year_of_rec, HistoricalRecord};
use crate::record::{rec_ge_date, rec_geq_date, rec_le_asc, rec_le_date, rec_leq_date};
use crate::record::{lemma_record_orders_total_trans, rec_leq_date_period};
use crate::sorting::{insertion_sort, lemma_insert_ordered_at};

verus! {

/// First-seen deduplication by identity key: a record stays exactly when
/// no earlier record has its key.
pub open spec fn dedup_keys(s: Seq<HistoricalRecord>) -> Seq<HistoricalRecord>
    decreases s.len(),
{
    if s.len() == 0 {
        Seq::empty()
    } else {
        let d = dedup_keys(s.drop_last());
        if has_key(s.drop_last(), s.last()) {
            d
        } else {
            d.push(s.last())
        }
    }
}

/// Every deduplicated record is one of the input records.
pub proof fn lemma_dedup_provenance(s: Seq<HistoricalRecord>)
    ensures
        forall|k: int|
            0 <= k < dedup_keys(s).len() ==> exists|j: int|
                0 <= j < s.len() && #[trigger] dedup_keys(s)[k] == s[j],
    decreases s.len(),
{
    if s.len() > 0 {
        lemma_dedup_provenance(s.drop_last());
        assert forall|k: int| 0 <= k < dedup_keys(s).len() implies exists|j: int|
            0 <= j < s.len() && #[trigger] dedup_keys(s)[k] == s[j] by {
            let d0 = dedup_keys(s.drop_last());
            if k < d0.len() {
                let j = choose|j: int| 0 <= j < s.drop_last().len() && d0[k] == s.drop_last()[j];
                assert(dedup_keys(s)[k] == s[j]);
            } else {
                assert(dedup_keys(s)[k] == s[s.len() - 1]);
            }
        }
    }
}

/// Deduplication keeps the key set: a key occurs in the output exactly
/// when it occurs in the input.
pub proof fn lemma_dedup_keys_same(s: Seq<HistoricalRecord>)
    ensures
        forall|r: HistoricalRecord| #[trigger] has_key(dedup_keys(s), r) == has_key(s, r),
    decreases s.len(),
{
    if s.len() > 0 {
        lemma_dedup_keys_same(s.drop_last());
        let d0 = dedup_keys(s.drop_last());
        let last = s.last();
        assert forall|r: HistoricalRecord| #[trigger]
            has_key(dedup_keys(s), r) == has_key(s, r) by {
            // A key in the shorter input is a key in the longer one.
            if has_key(s.drop_last(), r) {
                let w = choose|i: int|
                    0 <= i < s.drop_last().len() && key_matches(s.drop_last()[i], r);
                assert(key_matches(s[w], r));
                assert(has_key(s, r));
            }
            if has_key(s.drop_last(), last) {
                // The last record adds no key: dedup_keys(s) == d0.
                if key_matches(last, r) {
                    let w = choose|i: int|
                        0 <= i < s.drop_last().len() && key_matches(s.drop_last()[i], last);
                    assert(key_matches(s[w], r));
                    assert(has_key(s.drop_last(), r));
                }
                if has_key(s, r) && !has_key(s.drop_last(), r) {
                    let w = choose|i: int| 0 <= i < s.len() && key_matches(s[i], r);
                    assert(s.drop_last()[w] == s[w]);
                }
            } else {
                // dedup_keys(s) == d0.push(last).
                if has_key(dedup_keys(s), r) {
                    let w = choose|i: int|
                        0 <= i < dedup_keys(s).len() && key_matches(dedup_keys(s)[i], r);
                    if w < d0.len() {
                        assert(key_matches(d0[w], r));
                        assert(has_key(d0, r));
                    } else {
                        assert(key_matches(last, r));
                        assert(has_key(s, r));
                    }
                }
                if has_key(s, r) {
                    let w = choose|i: int| 0 <= i < s.len() && key_matches(s[i], r);
                    if w < s.len() - 1 {
                        assert(s.drop_last()[w] == s[w]);
                        assert(has_key(s.drop_last(), r));
                        assert(has_key(d0, r));
                        let v = choose|i: int| 0 <= i < d0.len() && key_matches(d0[i], r);
                        assert(dedup_keys(s)[v] == d0[v]);
                        assert(key_matches(dedup_keys(s)[v], r));
                    } else {
                        assert(key_matches(dedup_keys(s)[dedup_keys(s).len() - 1], r));
                    }
                }
            }
        }
    }
}

/// The first record of each identity key survives deduplication.
pub proof fn lemma_dedup_first_wins(s: Seq<HistoricalRecord>, i: int)
    requires
        0 <= i < s.len(),
        forall|j: int| 0 <= j < i ==> !key_matches(s[j], s[i]),
    ensures
        dedup_keys(s).contains(s[i]),
    decreases s.len(),
{
    if i == s.len() - 1 {
        assert(!has_key(s.drop_last(), s.last())) by {
            assert(forall|j: int|
                0 <= j < s.drop_last().len() ==> s.drop_last()[j] == s[j] && !key_matches(
                    s[j],
                    s[i],
                ));
        }
        let d = dedup_keys(s);
        assert(d[d.len() - 1] == s[i]);
    } else {
        assert(forall|j: int| 0 <= j < i ==> s.drop_last()[j] == s[j]);
        lemma_dedup_first_wins(s.drop_last(), i);
        let d0 = dedup_keys(s.drop_last());
        let w = choose|k: int| 0 <= k < d0.len() && d0[k] == s.drop_last()[i];
        if has_key(s.drop_last(), s.last()) {
            assert(dedup_keys(s)[w] == s[i]);
        } else {
            assert(dedup_keys(s)[w] == s[i]);
        }
    }
}

/// Records that survive deduplication carry pairwise distinct keys.
pub proof fn lemma_dedup_unique_keys(s: Seq<HistoricalRecord>)
    ensures
        forall|i: int, j: int|
            0 <= i < j < dedup_keys(s).len() ==> !key_matches(
                #[trigger] dedup_keys(s)[i],
                #[trigger] dedup_keys(s)[j],
            ),
    decreases s.len(),
{
    if s.len() > 0 {
        lemma_dedup_unique_keys(s.drop_last());
        let d0 = dedup_keys(s.drop_last());
        if !has_key(s.drop_last(), s.last()) {
            lemma_dedup_provenance(s.drop_last());
            lemma_dedup_keys_same(s.drop_last());
            assert forall|i: int, j: int| 0 <= i < j < dedup_keys(s).len() implies !key_matches(
                #[trigger] dedup_keys(s)[i],
                #[trigger] dedup_keys(s)[j],
            ) by {
                if j == d0.len() {
                    assert(dedup_keys(s)[j] == s.last());
                    if key_matches(d0[i], s.last()) {
                        assert(has_key(d0, s.last()));
                    }
                }
            }
        }
    }
}

/// All the batches, one after the other.
pub open spec fn concat_all(parts: Seq<Seq<HistoricalRecord>>) -> Seq<HistoricalRecord>
    decreases parts.len(),
{
    if parts.len() == 0 {
        Seq::empty()
    } else {
        concat_all(parts.drop_last()) + parts.last()
    }
}

/// Drop every record whose identity key an earlier record already
/// carries, keeping the first of each key.
pub fn dedup_records(v: Vec<HistoricalRecord>) -> (r: Vec<HistoricalRecord>)
    ensures
        r@ == dedup_keys(v@),
{
    let ghost orig = v@;
    let mut v = v;
    let mut out: Vec<HistoricalRecord> = Vec::new();
    proof {
        assert(dedup_keys(orig.take(0)) =~= Seq::<HistoricalRecord>::empty());
        assert(orig.skip(0) =~= orig);
    }
    while v.len() > 0
        invariant
            v@.len() <= orig.len(),
            out@ == dedup_keys(orig.take(orig.len() - v@.len())),
            v@ =~= orig.skip(orig.len() - v@.len()),
        decreases v@.len(),
    {
        let ghost k = orig.len() - v@.len();
        let x = v.remove(0);
        let dup = contains_key(&out, &x);
        proof {
            lemma_dedup_keys_same(orig.take(k as int));
            assert(orig.take(k + 1).drop_last() =~= orig.take(k as int));
            assert(orig.take(k + 1).last() == orig[k as int]);
            assert(orig.skip(k as int).drop_first() =~= orig.skip(k + 1));
        }
        if !dup {
            out.push(x);
        }
    }
    proof {
        assert(orig.take(orig.len() as int) =~= orig);
    }
    out
}

fn insert_pos_rec_asc(out: &Vec<HistoricalRecord>, x: &HistoricalRecord) -> (j: usize)
    ensures
        0 <= j <= out@.len(),
        forall|k: int| 0 <= k < j ==> rec_leq_date_period()(out@[k], *x),
        j < out@.len() ==> !rec_leq_date_period()(out@[j as int], *x),
{
    let n = out.len();
    let mut j: usize = 0;
    while j < n
        invariant
            n == out@.len(),
            0 <= j <= n,
            forall|k: int| 0 <= k < j ==> rec_leq_date_period()(out@[k], *x),
        decreases n - j,
    {
        if !rec_le_asc(&out[j], x) {
            return j;
        }
        j = j + 1;
    }
    j
}

fn insert_pos_rec_date(out: &Vec<HistoricalRecord>, x: &HistoricalRecord) -> (j: usize)
    ensures
        0 <= j <= out@.len(),
        forall|k: int| 0 <= k < j ==> rec_leq_date()(out@[k], *x),
        j < out@.len() ==> !rec_leq_date()(out@[j as int], *x),
{
    let n = out.len();
    let mut j: usize = 0;
    while j < n
        invariant
            n == out@.len(),
            0 <= j <= n,
            forall|k: int| 0 <= k < j ==> rec_leq_date()(out@[k], *x),
        decreases n - j,
    {
        if !rec_le_date(&out[j], x) {
            return j;
        }
        j = j + 1;
    }
    j
}

fn insert_pos_rec_desc(out: &Vec<HistoricalRecord>, x: &HistoricalRecord) -> (j: usize)
    ensures
        0 <= j <= out@.len(),
        forall|k: int| 0 <= k < j ==> rec_geq_date()(out@[k], *x),
        j < out@.len() ==> !rec_geq_date()(out@[j as int], *x),
{
    let n = out.len();
    let mut j: usize = 0;
    while j < n
        invariant
            n == out@.len(),
            0 <= j <= n,
            forall|k: int| 0 <= k < j ==> rec_geq_date()(out@[k], *x),
        decreases n - j,
    {
        if !rec_ge_date(&out[j], x) {
            return j;
        }
        j = j + 1;
    }
    j
}

/// Sort a year batch by date ascending, ties by period ascending,
/// stably.
pub fn sort_records_by_date_period(v: Vec<HistoricalRecord>) -> (r: Vec<HistoricalRecord>)
    ensures
        r@ == insertion_sort(v@, rec_leq_date_period()),
{
    let ghost leq = rec_leq_date_period();
    let ghost orig = v@;
    let mut v = v;
    let mut out: Vec<HistoricalRecord> = Vec::new();
    proof {
        assert(insertion_sort(orig.take(0), leq) =~= Seq::<HistoricalRecord>::empty());
        assert(orig.skip(0) =~= orig);
    }
    while v.len() > 0
        invariant
            v@.len() <= orig.len(),
            out@ == insertion_sort(orig.take(orig.len() - v@.len()), leq),
            v@ =~= orig.skip(orig.len() - v@.len()),
            leq == rec_leq_date_period(),
        decreases v@.len(),
    {
        let ghost k = orig.len() - v@.len();
        let x = v.remove(0);
        let j = insert_pos_rec_asc(&out, &x);
        proof {
            lemma_insert_ordered_at(out@, x, leq, j as int);
            assert(orig.take(k + 1).drop_last() =~= orig.take(k as int));
            assert(orig.take(k + 1).last() == orig[k as int]);
            assert(orig.skip(k as int).drop_first() =~= orig.skip(k + 1));
        }
        out.insert(j, x);
    }
    proof {
        assert(orig.take(orig.len() as int) =~= orig);
    }
    out
}

/// Sort records by date ascending, stably.
pub fn sort_records_by_date(v: Vec<HistoricalRecord>) -> (r: Vec<HistoricalRecord>)
    ensures
        r@ == insertion_sort(v@, rec_leq_date()),
{
    let ghost leq = rec_leq_date();
    let ghost orig = v@;
    let mut v = v;
    let mut out: Vec<HistoricalRecord> = Vec::new();
    proof {
        assert(insertion_sort(orig.take(0), leq) =~= Seq::<HistoricalRecord>::empty());
        assert(orig.skip(0) =~= orig);
    }
    while v.len() > 0
        invariant
            v@.len() <= orig.len(),
            out@ == insertion_sort(orig.take(orig.len() - v@.len()), leq),
            v@ =~= orig.skip(orig.len() - v@.len()),
            leq == rec_leq_date(),
        decreases v@.len(),
    {
        let ghost k = orig.len() - v@.len();
        let x = v.remove(0);
        let j = insert_pos_rec_date(&out, &x);
        proof {
            lemma_insert_ordered_at(out@, x, leq, j as int);
            assert(orig.take(k + 1).drop_last() =~= orig.take(k as int));
            assert(orig.take(k + 1).last() == orig[k as int]);
            assert(orig.skip(k as int).drop_first() =~= orig.skip(k + 1));
        }
        out.insert(j, x);
    }
    proof {
        assert(orig.take(orig.len() as int) =~= orig);
    }
    out
}

/// Sort records by date descending, stably.
pub fn sort_records_by_date_desc(v: Vec<HistoricalRecord>) -> (r: Vec<HistoricalRecord>)
    ensures
        r@ == insertion_sort(v@, rec_geq_date()),
{
    let ghost leq = rec_geq_date();
    let ghost orig = v@;
    let mut v = v;
    let mut out: Vec<HistoricalRecord> = Vec::new();
    proof {
        assert(insertion_sort(orig.take(0), leq) =~= Seq::<HistoricalRecord>::empty());
        assert(orig.skip(0) =~= orig);
    }
    while v.len() > 0
        invariant
            v@.len() <= orig.len(),
            out@ == insertion_sort(orig.take(orig.len() - v@.len()), leq),
            v@ =~= orig.skip(orig.len() - v@.len()),
            leq == rec_geq_date(),
        decreases v@.len(),
    {
        let ghost k = orig.len() - v@.len();
        let x = v.remove(0);
        let j = insert_pos_rec_desc(&out, &x);
        proof {
            lemma_insert_ordered_at(out@, x, leq, j as int);
            assert(orig.take(k + 1).drop_last() =~= orig.take(k as int));
            assert(orig.take(k + 1).last() == orig[k as int]);
            assert(orig.skip(k as int).drop_first() =~= orig.skip(k + 1));
        }
        out.insert(j, x);
    }
    proof {
        assert(orig.take(orig.len() as int) =~= orig);
    }
    out
}

/// Concatenate batches in order.
pub fn concat_batches(batches: Vec<Vec<HistoricalRecord>>) -> (r: Vec<HistoricalRecord>)
    ensures
        r@ == concat_all(batches@.map_values(|b: Vec<HistoricalRecord>| b@)),
{
    let ghost deep = batches@.map_values(|b: Vec<HistoricalRecord>| b@);
    let mut batches = batches;
    let mut out: Vec<HistoricalRecord> = Vec::new();
    proof {
        assert(concat_all(deep.take(0)) =~= Seq::<HistoricalRecord>::empty());
    }
    while batches.len() > 0
        invariant
            batches@.len() <= deep.len(),
            out@ == concat_all(deep.take(deep.len() - batches@.len())),
            forall|m: int|
                0 <= m < batches@.len() ==> #[trigger] batches@[m]@ == deep[deep.len()
                    - batches@.len() + m],
        decreases batches@.len(),
    {
        let ghost k = deep.len() - batches@.len();
        let ghost prev = batches@;
        let mut b = batches.remove(0);
        proof {
            assert(b@ == deep[k as int]);
            assert(forall|m: int|
                0 <= m < batches@.len() ==> #[trigger] batches@[m]@ == prev[m + 1]@);
            assert(deep.take(k + 1).drop_last() =~= deep.take(k as int));
            assert(deep.take(k + 1).last() == deep[k as int]);
        }
        out.append(&mut b);
    }
    proof {
        assert(deep.take(deep.len() as int) =~= deep);
    }
    out
}

/// Rebuild the combined view as ingestion writes it: concatenate the
/// partitions, keep the first record of each identity key, and sort by
/// date ascending.
pub fn rebuild_combined(batches: Vec<Vec<HistoricalRecord>>) -> (r: Vec<HistoricalRecord>)
    ensures
        r@ == insertion_sort(
            dedup_keys(concat_all(batches@.map_values(|b: Vec<HistoricalRecord>| b@))),
            rec_leq_date(),
        ),
{
    let all = concat_batches(batches);
    let deduped = dedup_records(all);
    sort_records_by_date(deduped)
}

/// Merge partitions for the read path: concatenate, keep the first
/// record of each identity key, and sort by date descending.
pub fn merge_for_read(batches: Vec<Vec<HistoricalRecord>>) -> (r: Vec<HistoricalRecord>)
    ensures
        r@ == insertion_sort(
            dedup_keys(concat_all(batches@.map_values(|b: Vec<HistoricalRecord>| b@))),
            rec_geq_date(),
        ),
{
    let all = concat_batches(batches);
    let deduped = dedup_records(all);
    sort_records_by_date_desc(deduped)
}

/// A year's worth of newly ingested records.
#[derive(Debug, Clone, PartialEq)]
pub struct YearBatch {
    pub year: String,
    pub records: Vec<HistoricalRecord>,
}

/// The distinct years of a record sequence, in order of first
/// appearance.
pub open spec fn years_in_order(s: Seq<HistoricalRecord>) -> Seq<Seq<char>>
    decreases s.len(),
{
    if s.len() == 0 {
        Seq::empty()
    } else {
        let ys = years_in_order(s.drop_last());
        if ys.contains(year_of_rec(s.last())) {
            ys
        } else {
            ys.push(year_of_rec(s.last()))
        }
    }
}

/// The records of one year, in input order.
pub open spec fn recs_of_year(s: Seq<HistoricalRecord>, y: Seq<char>) -> Seq<HistoricalRecord> {
    s.filter(|r: HistoricalRecord| year_of_rec(r) == y)
}

/// Every record's year is listed.
pub proof fn lemma_years_complete(s: Seq<HistoricalRecord>)
    ensures
        forall|i: int| 0 <= i < s.len() ==> years_in_order(s).contains(#[trigger] year_of_rec(s[i])),
    decreases s.len(),
{
    if s.len() > 0 {
        lemma_years_complete(s.drop_last());
        let ys = years_in_order(s.drop_last());
        assert forall|i: int| 0 <= i < s.len() implies years_in_order(s).contains(
            #[trigger] year_of_rec(s[i]),
        ) by {
            if i < s.len() - 1 {
                assert(s.drop_last()[i] == s[i]);
                let w = choose|w: int| 0 <= w < ys.len() && ys[w] == year_of_rec(s[i]);
                assert(years_in_order(s)[w] == year_of_rec(s[i]));
            } else {
                if ys.contains(year_of_rec(s.last())) {
                    let w = choose|w: int| 0 <= w < ys.len() && ys[w] == year_of_rec(s.last());
                    assert(years_in_order(s)[w] == year_of_rec(s[i]));
                } else {
                    assert(years_in_order(s)[ys.len() as int] == year_of_rec(s[i]));
                }
            }
        }
    }
}

/// The listed years are pairwise distinct.
pub proof fn lemma_years_distinct(s: Seq<HistoricalRecord>)
    ensures
        forall|i: int, j: int|
            0 <= i < j < years_in_order(s).len() ==> #[trigger] years_in_order(s)[i]
                != #[trigger] years_in_order(s)[j],
    decreases s.len(),
{
    if s.len() > 0 {
        lemma_years_distinct(s.drop_last());
        let ys = years_in_order(s.drop_last());
        if !ys.contains(year_of_rec(s.last())) {
            assert forall|i: int, j: int|
                0 <= i < j < years_in_order(s).len() implies #[trigger] years_in_order(s)[i]
                != #[trigger] years_in_order(s)[j] by {
                if j == ys.len() {
                    assert(years_in_order(s)[i] == ys[i]);
                    if ys[i] == year_of_rec(s.last()) {
                        assert(ys.contains(year_of_rec(s.last())));
                    }
                }
            }
        }
    }
}

/// Adding one record extends exactly its own year's group.
proof fn lemma_recs_of_year_snoc(s: Seq<HistoricalRecord>, y: Seq<char>)
    requires
        s.len() > 0,
    ensures
        recs_of_year(s, y) == if year_of_rec(s.last()) == y {
            recs_of_year(s.drop_last(), y).push(s.last())
        } else {
            recs_of_year(s.drop_last(), y)
        },
{
    reveal(Seq::filter);
}

/// Index of the batch holding `y`, scanning from the front.
fn find_year_batch(out: &Vec<YearBatch>, y: &String) -> (r: Option<usize>)
    ensures
        match r {
            Option::Some(idx) => idx < out@.len() && out@[idx as int].year@ == y@,
            Option::None => forall|m: int| 0 <= m < out@.len() ==> out@[m].year@ != y@,
        },
{
    let n = out.len();
    let mut i: usize = 0;
    while i < n
        invariant
            n == out@.len(),
            0 <= i <= n,
            forall|m: int| 0 <= m < i ==> out@[m].year@ != y@,
        decreases n - i,
    {
        if out[i].year == *y {
            return Option::Some(i);
        }
        i = i + 1;
    }
    Option::None
}

/// Group records by the year of their date, years in order of first
/// appearance, each group keeping input order.
pub fn group_by_year(v: Vec<HistoricalRecord>) -> (r: Vec<YearBatch>)
    ensures
        r@.len() == years_in_order(v@).len(),
        forall|k: int| 0 <= k < r@.len() ==> #[trigger] r@[k].year@ == years_in_order(v@)[k],
        forall|k: int|
            0 <= k < r@.len() ==> #[trigger] r@[k].records@ == recs_of_year(v@, r@[k].year@),
{
    let ghost orig = v@;
    let mut v = v;
    let mut out: Vec<YearBatch> = Vec::new();
    proof {
        assert(years_in_order(orig.take(0)) =~= Seq::<Seq<char>>::empty());
        assert(orig.skip(0) =~= orig);
    }
    while v.len() > 0
        invariant
            v@.len() <= orig.len(),
            v@ =~= orig.skip(orig.len() - v@.len()),
            out@.len() == years_in_order(orig.take(orig.len() - v@.len())).len(),
            forall|m: int|
                0 <= m < out@.len() ==> #[trigger] out@[m].year@ == years_in_order(
                    orig.take(orig.len() - v@.len()),
                )[m],
            forall|m: int|
                0 <= m < out@.len() ==> #[trigger] out@[m].records@ == recs_of_year(
                    orig.take(orig.len() - v@.len()),
                    out@[m].year@,
                ),
        decreases v@.len(),
    {
        let ghost k = orig.len() - v@.len();
        let ghost prefix = orig.take(k as int);
        let ghost step = orig.take(k + 1);
        let ghost ys = years_in_order(prefix);
        let x = v.remove(0);
        proof {
            assert(x == orig[k as int]);
            assert(orig.skip(k as int).drop_first() =~= orig.skip(k + 1));
            assert(step.drop_last() =~= prefix);
            assert(step.last() == orig[k as int]);
            lemma_years_distinct(prefix);
        }
        let y = crate::strutil::date_year(x.date.as_str());
        proof {
            assert(y@ == year_of_rec(x));
        }
        let found = find_year_batch(&out, &y);
        match found {
            Option::Some(idx) => {
                let ghost prev_out = out@;
                proof {
                    assert(ys[idx as int] == y@);
                    assert(ys.contains(year_of_rec(x)));
                    assert(years_in_order(step) == ys);
                }
                let mut b = out.remove(idx);
                b.records.push(x);
                out.insert(idx, b);
                proof {
                    assert(out@ =~= prev_out.update(idx as int, b));
                    assert forall|m: int| 0 <= m < out@.len() implies #[trigger] out@[m].records@
                        == recs_of_year(step, out@[m].year@) by {
                        lemma_recs_of_year_snoc(step, out@[m].year@);
                        if m != idx {
                            assert(out@[m] == prev_out[m]);
                            assert(out@[m].year@ == ys[m]);
                            assert(ys[m] != y@);
                        } else {
                            assert(out@[m].year@ == y@);
                            assert(out@[m].records@ == prev_out[idx as int].records@.push(x));
                        }
                    }
                }
            },
            Option::None => {
                proof {
                    if ys.contains(year_of_rec(x)) {
                        let w = choose|w: int| 0 <= w < ys.len() && ys[w] == year_of_rec(x);
                        assert(out@[w].year@ == y@);
                    }
                    assert(years_in_order(step) == ys.push(y@));
                    assert forall|i: int| 0 <= i < prefix.len() implies !(
                    |r: HistoricalRecord| year_of_rec(r) == y@)(prefix[i]) by {
                        lemma_years_complete(prefix);
                    }
                    prefix.lemma_all_neg_filter_empty(|r: HistoricalRecord| year_of_rec(r) == y@);
                }
                let ghost prev_out = out@;
                let mut recs: Vec<HistoricalRecord> = Vec::new();
                recs.push(x);
                out.push(YearBatch { year: y, records: recs });
                proof {
                    assert(recs_of_year(prefix, y@).push(x) =~= seq![x]);
                    assert forall|m: int| 0 <= m < out@.len() implies #[trigger] out@[m].records@
                        == recs_of_year(step, out@[m].year@) by {
                        lemma_recs_of_year_snoc(step, out@[m].year@);
                        if m < prev_out.len() {
                            assert(out@[m] == prev_out[m]);
                            assert(out@[m].year@ != y@);
                        } else {
                            assert(out@[m].year@ == y@);
                            assert(out@[m].records@ == seq![x]);
                        }
                    }
                }
            },
        }
    }
    proof {
        assert(orig.take(orig.len() as int) =~= orig);
    }
    out
}

/// Prepare every year partition for writing: group by year and sort
/// each group by date ascending, ties by period ascending.
pub fn prepare_partitions(records: Vec<HistoricalRecord>) -> (r: Vec<YearBatch>)
    ensures
        r@.len() == years_in_order(records@).len(),
        forall|k: int| 0 <= k < r@.len() ==> #[trigger] r@[k].year@ == years_in_order(records@)[k],
        forall|k: int|
            0 <= k < r@.len() ==> #[trigger] r@[k].records@ == insertion_sort(
                recs_of_year(records@, r@[k].year@),
                rec_leq_date_period(),
            ),
{
    let ghost source = records@;
    let grouped = group_by_year(records);
    let ghost gb = grouped@;
    let mut grouped = grouped;
    let mut out: Vec<YearBatch> = Vec::new();
    while grouped.len() > 0
        invariant
            grouped@.len() <= gb.len(),
            out@.len() == gb.len() - grouped@.len(),
            grouped@ =~= gb.skip(gb.len() - grouped@.len()),
            forall|m: int|
                0 <= m < out@.len() ==> #[trigger] out@[m].year@ == gb[m].year@
                    && out@[m].records@ == insertion_sort(gb[m].records@, rec_leq_date_period()),
            gb.len() == years_in_order(source).len(),
            forall|k: int| 0 <= k < gb.len() ==> #[trigger] gb[k].year@ == years_in_order(source)[k],
            forall|k: int|
                0 <= k < gb.len() ==> #[trigger] gb[k].records@ == recs_of_year(
                    source,
                    gb[k].year@,
                ),
        decreases grouped@.len(),
    {
        let ghost k = gb.len() - grouped@.len();
        let b = grouped.remove(0);
        proof {
            assert(b == gb[k as int]);
            assert(grouped@ =~= gb.skip(k + 1));
        }
        let sorted = sort_records_by_date_period(b.records);
        out.push(YearBatch { year: b.year, records: sorted });
    }
    out
}

/// The parts joined with a comma and a space between each two.
pub open spec fn join_comma(parts: Seq<Seq<char>>) -> Seq<char>
    decreases parts.len(),
{
    if parts.len() == 0 {
        Seq::empty()
    } else if parts.len() == 1 {
        parts[0]
    } else {
        join_comma(parts.drop_last()) + ", "@ + parts.last()
    }
}

/// Join strings with a comma and a space.
pub fn join_with_comma(v: &Vec<String>) -> (r: String)
    ensures
        r@ == join_comma(v@.map_values(|s: String| s@)),
{
    let ghost deep = v@.map_values(|s: String| s@);
    let n = v.len();
    let mut out = String::new();
    let mut i: usize = 0;
    proof {
        assert(join_comma(deep.take(0)) =~= Seq::<char>::empty());
    }
    while i < n
        invariant
            n == v@.len(),
            n == deep.len(),
            0 <= i <= n,
            out@ == join_comma(deep.take(i as int)),
            deep == v@.map_values(|s: String| s@),
        decreases n - i,
    {
        if i > 0 {
            out.append(", ");
        }
        out.append(v[i].as_str());
        proof {
            reveal_strlit(", ");
            assert(deep.take(i + 1).drop_last() =~= deep.take(i as int));
            assert(deep.take(i + 1).last() == deep[i as int]);
            assert(deep[i as int] == v@[i as int]@);
            if i == 0 {
                assert(out@ =~= join_comma(deep.take(1)));
            }
        }
        i = i + 1;
    }
    proof {
        assert(deep.take(n as int) =~= deep);
    }
    out
}

/// The success summary of an ingestion run: the record count and the
/// touched years, sorted descending.
pub fn ingest_summary(total: usize, years: Vec<String>) -> (r: String)
    ensures
        r@ == "成功处理 "@ + crate::strutil::decimal_digits(total as nat) + " 条记录，涉及年份: "@
            + join_comma(
            insertion_sort(years@, crate::sorting::str_leq_desc()).map_values(|s: String| s@),
        ),
{
    let sorted = crate::sorting::sort_strings_descending(&years);
    let mut msg = String::from_str("成功处理 ");
    msg.append(crate::strutil::decimal_u64(total as u64).as_str());
    msg.append(" 条记录，涉及年份: ");
    msg.append(join_with_comma(&sorted).as_str());
    msg
}

/// Preparing a partition is idempotent: a batch that is already in
/// partition order is its own preparation, so re-running ingestion on
/// identical source input rebuilds an identical partition.
pub proof fn lemma_partition_preparation_idempotent(s: Seq<HistoricalRecord>)
    ensures
        insertion_sort(insertion_sort(s, rec_leq_date_period()), rec_leq_date_period())
            == insertion_sort(s, rec_leq_date_period()),
{
    lemma_record_orders_total_trans();
    crate::sorting::lemma_insertion_sort_idempotent(s, rec_leq_date_period());
}

/// The merged view keeps exactly the first-seen record of each identity
/// key: the first occurrence survives deduplication, survivors carry
/// pairwise distinct keys, and no key is lost.
pub proof fn lemma_merge_first_seen_wins(s: Seq<HistoricalRecord>, i: int)
    requires
        0 <= i < s.len(),
        forall|j: int| 0 <= j < i ==> !key_matches(s[j], s[i]),
    ensures
        dedup_keys(s).contains(s[i]),
        forall|a: int, b: int|
            0 <= a < b < dedup_keys(s).len() ==> !key_matches(
                #[trigger] dedup_keys(s)[a],
                #[trigger] dedup_keys(s)[b],
            ),
        forall|r: HistoricalRecord| #[trigger] has_key(dedup_keys(s), r) == has_key(s, r),
{
    lemma_dedup_first_wins(s, i);
    lemma_dedup_unique_keys(s);
    lemma_dedup_keys_same(s);
}

/// The record count of a set of year batches.
pub open spec fn total_len(bs: Seq<YearBatch>) -> nat
    decreases bs.len(),
{
    if bs.len() == 0 {
        0
    } else {
        total_len(bs.drop_last()) + bs.last().records@.len()
    }
}

/// Count the records of all batches together.
pub fn batch_total(batches: &Vec<YearBatch>) -> (r: usize)
    requires
        total_len(batches@) <= usize::MAX,
    ensures
        r == total_len(batches@),
{
    let n = batches.len();
    let mut sum: usize = 0;
    let mut i: usize = 0;
    proof {
        assert(total_len(batches@.take(0)) == 0);
    }
    while i < n
        invariant
            n == batches@.len(),
            0 <= i <= n,
            sum == total_len(batches@.take(i as int)),
            total_len(batches@) <= usize::MAX,
        decreases n - i,
    {
        proof {
            assert(batches@.take(i + 1).drop_last() =~= batches@.take(i as int));
            assert(batches@.take(i + 1).last() == batches@[i as int]);
            lemma_total_len_prefix(batches@, i + 1);
        }
        sum = sum + batches[i].records.len();
        i = i + 1;
    }
    proof {
        assert(batches@.take(n as int) =~= batches@);
    }
    sum
}

/// A prefix never counts more records than the whole.
proof fn lemma_total_len_prefix(bs: Seq<YearBatch>, j: int)
    requires
        0 <= j <= bs.len(),
    ensures
        total_len(bs.take(j)) <= total_len(bs),
    decreases bs.len() - j,
{
    if j < bs.len() {
        lemma_total_len_prefix(bs, j + 1);
        assert(bs.take(j + 1).drop_last() =~= bs.take(j));
    } else {
        assert(bs.take(j) =~= bs);
    }
}

/// Records with pairwise distinct keys pass deduplication unchanged.
pub proof fn lemma_dedup_of_unique_keys(s: Seq<HistoricalRecord>)
    requires
        forall|i: int, j: int| 0 <= i < j < s.len() ==> !key_matches(#[trigger] s[i], #[trigger] s[j]),
    ensures
        dedup_keys(s) == s,
    decreases s.len(),
{
    if s.len() > 0 {
        assert(forall|i: int, j: int|
            0 <= i < j < s.drop_last().len() ==> !key_matches(
                #[trigger] s.drop_last()[i],
                #[trigger] s.drop_last()[j],
            ));
        lemma_dedup_of_unique_keys(s.drop_last());
        assert(!has_key(s.drop_last(), s.last())) by {
            if has_key(s.drop_last(), s.last()) {
                let w = choose|i: int|
                    0 <= i < s.drop_last().len() && key_matches(s.drop_last()[i], s.last());
                assert(!key_matches(s[w], s[s.len() - 1]));
            }
        }
        assert(dedup_keys(s) =~= s);
    } else {
        assert(dedup_keys(s) =~= s);
    }
}

/// The combined view is a fixed point of its own rebuild: running the
/// merge over the combined view alone reproduces it unchanged, so
/// re-ingestion that rewrites the same partitions rewrites the same
/// combined file.
pub proof fn lemma_combined_rebuild_fixpoint(s: Seq<HistoricalRecord>)
    requires
        forall|i: int, j: int| 0 <= i < j < s.len() ==> !key_matches(#[trigger] s[i], #[trigger] s[j]),
        vstd::relations::sorted_by(s, rec_leq_date()),
    ensures
        insertion_sort(dedup_keys(s), rec_leq_date()) == s,
{
    lemma_dedup_of_unique_keys(s);
    crate::sorting::lemma_insertion_sort_of_sorted(s, rec_leq_date());
}

} // verus!

//! The canonical draw record, its identity key, and the orders the store
//! keeps records in.

use vstd::prelude::*;

use crate::strutil::{lex_le, spec_year_of};
use crate::strutil::{lemma_lex_le_antisymmetric, lemma_lex_le_total, lemma_lex_le_trans};

verus! {

/// One lottery draw: a period identifier, a calendar date written
/// `YYYY-MM-DD`, six main numbers and one special number.
#[derive(Debug, Clone, PartialEq)]
pub struct HistoricalRecord {
    pub period: String,
    pub date: String,
    pub n1: i32,
    pub n2: i32,
    pub n3: i32,
    pub n4: i32,
    pub n5: i32,
    pub n6: i32,
    pub special: i32,
}

/// One item of the remote feed, after its values have been read out of
/// the payload: a period string, a date string, and the parsed numbers.
#[derive(Debug, Clone, PartialEq)]
pub struct ApiItem {
    pub period: String,
    pub date: String,
    pub numbers: Vec<i32>,
}

/// Two records name the same draw: the identity key is the period
/// together with the date.
pub open spec fn key_matches(a: HistoricalRecord, b: HistoricalRecord) -> bool {
    a.period@ == b.period@ && a.date@ == b.date@
}

/// Whether some record of `s` shares its identity key with `r`.
pub open spec fn has_key(s: Seq<HistoricalRecord>, r: HistoricalRecord) -> bool {
    exists|i: int| 0 <= i < s.len() && key_matches(s[i], r)
}

/// The year a record belongs to: the year component of its date.
pub open spec fn year_of_rec(r: HistoricalRecord) -> Seq<char> {
    spec_year_of(r.date@)
}

/// Order of a year partition: by date ascending, ties broken by period
/// ascending.
pub open spec fn rec_leq_date_period() -> spec_fn(HistoricalRecord, HistoricalRecord) -> bool {
    |a: HistoricalRecord, b: HistoricalRecord|
        if a.date@ == b.date@ {
            lex_le(a.period@, b.period@)
        } else {
            lex_le(a.date@, b.date@)
        }
}

/// Order of the combined view as it is written: by date ascending,
/// records of one date keeping their input order.
pub open spec fn rec_leq_date() -> spec_fn(HistoricalRecord, HistoricalRecord) -> bool {
    |a: HistoricalRecord, b: HistoricalRecord| lex_le(a.date@, b.date@)
}

/// Order of the read path: by date descending, records of one date
/// keeping their input order.
pub open spec fn rec_geq_date() -> spec_fn(HistoricalRecord, HistoricalRecord) -> bool {
    |a: HistoricalRecord, b: HistoricalRecord| lex_le(b.date@, a.date@)
}

/// All three record orders are total and transitive, as the sorting
/// lemmas require.
pub proof fn lemma_record_orders_total_trans()
    ensures
        forall|a: HistoricalRecord, b: HistoricalRecord| #[trigger]
            rec_leq_date_period()(a, b) || #[trigger] rec_leq_date_period()(b, a),
        forall|a: HistoricalRecord, b: HistoricalRecord, c: HistoricalRecord| #[trigger]
            rec_leq_date_period()(a, b) && #[trigger] rec_leq_date_period()(b, c)
                ==> rec_leq_date_period()(a, c),
        forall|a: HistoricalRecord, b: HistoricalRecord| #[trigger]
            rec_leq_date()(a, b) || #[trigger] rec_leq_date()(b, a),
        forall|a: HistoricalRecord, b: HistoricalRecord, c: HistoricalRecord| #[trigger]
            rec_leq_date()(a, b) && #[trigger] rec_leq_date()(b, c) ==> rec_leq_date()(a, c),
        forall|a: HistoricalRecord, b: HistoricalRecord| #[trigger]
            rec_geq_date()(a, b) || #[trigger] rec_geq_date()(b, a),
        forall|a: HistoricalRecord, b: HistoricalRecord, c: HistoricalRecord| #[trigger]
            rec_geq_date()(a, b) && #[trigger] rec_geq_date()(b, c) ==> rec_geq_date()(a, c),
{
    assert forall|a: HistoricalRecord, b: HistoricalRecord| #[trigger]
        rec_leq_date_period()(a, b) || #[trigger] rec_leq_date_period()(b, a) by {
        lemma_lex_le_total(a.date@, b.date@);
        lemma_lex_le_total(a.period@, b.period@);
    }
    assert forall|a: HistoricalRecord, b: HistoricalRecord, c: HistoricalRecord| #[trigger]
        rec_leq_date_period()(a, b) && #[trigger] rec_leq_date_period()(b, c) implies
        rec_leq_date_period()(a, c) by {
        if a.date@ == b.date@ && b.date@ == c.date@ {
            lemma_lex_le_trans(a.period@, b.period@, c.period@);
        } else if a.date@ == b.date@ {
        } else if b.date@ == c.date@ {
        } else {
            lemma_lex_le_trans(a.date@, b.date@, c.date@);
            if a.date@ == c.date@ {
                lemma_lex_le_antisymmetric(a.date@, b.date@);
            }
        }
    }
    assert forall|a: HistoricalRecord, b: HistoricalRecord| #[trigger]
        rec_leq_date()(a, b) || #[trigger] rec_leq_date()(b, a) by {
        lemma_lex_le_total(a.date@, b.date@);
    }
    assert forall|a: HistoricalRecord, b: HistoricalRecord, c: HistoricalRecord| #[trigger]
        rec_leq_date()(a, b) && #[trigger] rec_leq_date()(b, c) implies rec_leq_date()(a, c) by {
        lemma_lex_le_trans(a.date@, b.date@, c.date@);
    }
    assert forall|a: HistoricalRecord, b: HistoricalRecord| #[trigger]
        rec_geq_date()(a, b) || #[trigger] rec_geq_date()(b, a) by {
        lemma_lex_le_total(a.date@, b.date@);
    }
    assert forall|a: HistoricalRecord, b: HistoricalRecord, c: HistoricalRecord| #[trigger]
        rec_geq_date()(a, b) && #[trigger] rec_geq_date()(b, c) implies rec_geq_date()(a, c) by {
        lemma_lex_le_trans(c.date@, b.date@, a.date@);
    }
}

/// Whether `a` may precede `b` in a year partition.
pub fn rec_le_asc(a: &HistoricalRecord, b: &HistoricalRecord) -> (r: bool)
    ensures
        r == rec_leq_date_period()(*a, *b),
{
    if a.date == b.date {
        crate::strutil::str_le(a.period.as_str(), b.period.as_str())
    } else {
        crate::strutil::str_le(a.date.as_str(), b.date.as_str())
    }
}

/// Whether `a` may precede `b` in the combined view as written.
pub fn rec_le_date(a: &HistoricalRecord, b: &HistoricalRecord) -> (r: bool)
    ensures
        r == rec_leq_date()(*a, *b),
{
    crate::strutil::str_le(a.date.as_str(), b.date.as_str())
}

/// Whether `a` may precede `b` in the read path's descending view.
pub fn rec_ge_date(a: &HistoricalRecord, b: &HistoricalRecord) -> (r: bool)
    ensures
        r == rec_geq_date()(*a, *b),
{
    crate::strutil::str_le(b.date.as_str(), a.date.as_str())
}

/// Whether some record of `s` shares its identity key with `r`.
pub fn contains_key(s: &Vec<HistoricalRecord>, r: &HistoricalRecord) -> (found: bool)
    ensures
        found == has_key(s@, *r),
{
    let n = s.len();
    let mut i: usize = 0;
    while i < n
        invariant
            n == s@.len(),
            0 <= i <= n,
            forall|j: int| 0 <= j < i ==> !key_matches(s@[j], *r),
        decreases n - i,
    {
        if s[i].period == r.period && s[i].date == r.date {
            assert(key_matches(s@[i as int], *r));
            return true;
        }
        i = i + 1;
    }
    false
}

} // verus!

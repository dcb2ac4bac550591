//! The omission statistics engine: given a most-recent-first presence
//! sequence for one category value, the current omission streak, the
//! longest streak anywhere, the frequency, and the periods-per-occurrence
//! average.

use vstd::prelude::*;

use crate::attrs::{is_big, is_small, matches_tail, spec_is_odd, zodiac_index};
use crate::record::HistoricalRecord;

verus! {

/// The larger of two counts.
pub open spec fn nat_max(a: nat, b: nat) -> nat {
    if a >= b {
        a
    } else {
        b
    }
}

/// How many entries are present.
pub open spec fn frequency_of(s: Seq<bool>) -> nat
    decreases s.len(),
{
    if s.len() == 0 {
        0
    } else {
        frequency_of(s.drop_last()) + if s.last() {
            1nat
        } else {
            0nat
        }
    }
}

/// The current omission: how many entries from the front (the most
/// recent draws) pass before the first present one; the whole length
/// when none is present.
pub open spec fn current_omission(s: Seq<bool>) -> nat
    decreases s.len(),
{
    if s.len() == 0 || s.first() {
        0
    } else {
        1 + current_omission(s.drop_first())
    }
}

/// The absent streak touching the end of the sequence (the oldest
/// draws).
pub open spec fn trailing_misses(s: Seq<bool>) -> nat
    decreases s.len(),
{
    if s.len() == 0 || s.last() {
        0
    } else {
        1 + trailing_misses(s.drop_last())
    }
}

/// The longest run of consecutive absent entries anywhere, the run
/// ending at the oldest record included.
pub open spec fn max_omission(s: Seq<bool>) -> nat
    decreases s.len(),
{
    if s.len() == 0 {
        0
    } else if s.last() {
        max_omission(s.drop_last())
    } else {
        nat_max(max_omission(s.drop_last()), trailing_misses(s))
    }
}

/// An exact non-negative rational: the periods-per-occurrence average,
/// kept as numerator and denominator.
#[derive(Debug, Clone, Copy, PartialEq, Eq, Structural)]
pub struct Ratio {
    pub num: usize,
    pub den: usize,
}

/// A present entry at `i` below every absent prefix pins the current
/// omission.
proof fn lemma_current_omission_first_true(s: Seq<bool>, i: int)
    requires
        0 <= i < s.len(),
        s[i],
        forall|j: int| 0 <= j < i ==> !s[j],
    ensures
        current_omission(s) == i,
    decreases i,
{
    if i > 0 {
        lemma_current_omission_first_true(s.drop_first(), i - 1);
    }
}

/// With nothing present, the current omission is the window length.
proof fn lemma_current_omission_none(s: Seq<bool>)
    requires
        forall|j: int| 0 <= j < s.len() ==> !s[j],
    ensures
        current_omission(s) == s.len(),
    decreases s.len(),
{
    if s.len() > 0 {
        lemma_current_omission_none(s.drop_first());
    }
}

/// The current omission never exceeds the window length, so a window
/// of the most recent `K` periods can never report an omission above
/// `K`.
pub proof fn lemma_current_omission_bounded(s: Seq<bool>)
    ensures
        current_omission(s) <= s.len(),
    decreases s.len(),
{
    if s.len() > 0 && !s.first() {
        lemma_current_omission_bounded(s.drop_first());
    }
}

/// The frequency never exceeds the window length: every draw counts at
/// most once.
pub proof fn lemma_frequency_bounded(s: Seq<bool>)
    ensures
        frequency_of(s) <= s.len(),
    decreases s.len(),
{
    if s.len() > 0 {
        lemma_frequency_bounded(s.drop_last());
    }
}

/// The longest absent run never exceeds the window length.
pub proof fn lemma_max_omission_bounded(s: Seq<bool>)
    ensures
        trailing_misses(s) <= s.len(),
        max_omission(s) <= s.len(),
    decreases s.len(),
{
    if s.len() > 0 {
        lemma_max_omission_bounded(s.drop_last());
    }
}

/// An all-absent window of length `N` reports current omission `N`,
/// maximum omission `N` and frequency zero.
pub proof fn lemma_stats_all_absent(s: Seq<bool>)
    requires
        forall|j: int| 0 <= j < s.len() ==> !s[j],
    ensures
        current_omission(s) == s.len(),
        max_omission(s) == s.len(),
        frequency_of(s) == 0,
        trailing_misses(s) == s.len(),
    decreases s.len(),
{
    lemma_current_omission_none(s);
    if s.len() > 0 {
        assert(forall|j: int| 0 <= j < s.drop_last().len() ==> !s.drop_last()[j]);
        lemma_stats_all_absent(s.drop_last());
        lemma_max_omission_bounded(s.drop_last());
    }
}

/// An all-present window of length `N` reports current omission zero,
/// maximum omission zero and frequency `N`.
pub proof fn lemma_stats_all_present(s: Seq<bool>)
    requires
        forall|j: int| 0 <= j < s.len() ==> s[j],
    ensures
        current_omission(s) == 0,
        max_omission(s) == 0,
        frequency_of(s) == s.len(),
    decreases s.len(),
{
    if s.len() > 0 {
        assert(forall|j: int| 0 <= j < s.drop_last().len() ==> s.drop_last()[j]);
        lemma_stats_all_present(s.drop_last());
    }
}

/// The four omission statistics of one presence sequence: current
/// omission, maximum omission, frequency, and the periods-per-occurrence
/// average, which is `total / frequency` when anything is present and
/// zero otherwise.
pub fn calculate_omission_stats(present_flags: &Vec<bool>, total_periods: usize) -> (r: (
    usize,
    usize,
    usize,
    Ratio,
))
    requires
        present_flags@.len() == total_periods,
    ensures
        r.0 == current_omission(present_flags@),
        r.1 == max_omission(present_flags@),
        r.2 == frequency_of(present_flags@),
        frequency_of(present_flags@) > 0 ==> r.3 == (Ratio {
            num: total_periods,
            den: r.2,
        }),
        frequency_of(present_flags@) == 0 ==> r.3 == (Ratio { num: 0, den: 1 }),
{
    let s = present_flags;
    let n = s.len();

    let mut frequency: usize = 0;
    let mut i: usize = 0;
    proof {
        assert(s@.take(0) =~= Seq::<bool>::empty());
    }
    while i < n
        invariant
            n == s@.len(),
            0 <= i <= n,
            frequency == frequency_of(s@.take(i as int)),
        decreases n - i,
    {
        proof {
            assert(s@.take(i + 1).drop_last() =~= s@.take(i as int));
            assert(s@.take(i + 1).last() == s@[i as int]);
            lemma_frequency_bounded(s@.take(i as int));
        }
        if s[i] {
            frequency = frequency + 1;
        }
        i = i + 1;
    }
    proof {
        assert(s@.take(n as int) =~= s@);
    }

    let mut idx: usize = 0;
    while idx < n && !s[idx]
        invariant
            n == s@.len(),
            0 <= idx <= n,
            forall|j: int| 0 <= j < idx ==> !s@[j],
        decreases n - idx,
    {
        idx = idx + 1;
    }
    let cur: usize = idx;
    proof {
        if idx < n {
            lemma_current_omission_first_true(s@, idx as int);
        } else {
            lemma_current_omission_none(s@);
        }
    }

    let mut max_run: usize = 0;
    let mut run: usize = 0;
    let mut j: usize = 0;
    proof {
        assert(s@.take(0) =~= Seq::<bool>::empty());
    }
    while j < n
        invariant
            n == s@.len(),
            0 <= j <= n,
            run == trailing_misses(s@.take(j as int)),
            run <= j,
            max_run <= j,
            max_omission(s@.take(j as int)) == nat_max(max_run as nat, run as nat),
        decreases n - j,
    {
        proof {
            assert(s@.take(j + 1).drop_last() =~= s@.take(j as int));
            assert(s@.take(j + 1).last() == s@[j as int]);
        }
        if s[j] {
            if run > max_run {
                max_run = run;
            }
            run = 0;
        } else {
            run = run + 1;
        }
        j = j + 1;
    }
    proof {
        assert(s@.take(n as int) =~= s@);
    }
    let max_o: usize = if run > max_run {
        run
    } else {
        max_run
    };

    let avg = if frequency > 0 {
        Ratio { num: total_periods, den: frequency }
    } else {
        Ratio { num: 0, den: 1 }
    };
    (cur, max_o, frequency, avg)
}

/// Per-category statistics row of the report.
#[derive(Debug, Clone, PartialEq)]
pub struct StatItem {
    pub label: String,
    pub current_omission: usize,
    pub max_omission: usize,
    pub frequency: usize,
    pub avg_omission: Ratio,
}

/// The report: one ordered list of rows per dimension.
#[derive(Debug, Clone, PartialEq)]
pub struct StatisticsReport {
    pub special_number: Vec<StatItem>,
    pub special_zodiac: Vec<StatItem>,
    pub special_color: Vec<StatItem>,
    pub special_odd: Vec<StatItem>,
    pub special_size: Vec<StatItem>,
    pub special_tail: Vec<StatItem>,
    pub normal_number: Vec<StatItem>,
}

/// One report row is right for its label and presence sequence.
pub open spec fn stat_item_ok(item: StatItem, label: Seq<char>, flags: Seq<bool>) -> bool {
    &&& item.label@ == label
    &&& item.current_omission == current_omission(flags)
    &&& item.max_omission == max_omission(flags)
    &&& item.frequency == frequency_of(flags)
    &&& (frequency_of(flags) > 0 ==> item.avg_omission.num == flags.len()
        && item.avg_omission.den == frequency_of(flags))
    &&& (frequency_of(flags) == 0 ==> item.avg_omission.num == 0 && item.avg_omission.den == 1)
}

/// Presence of one value as the special number.
pub open spec fn special_eq_flags(recs: Seq<HistoricalRecord>, v: int) -> Seq<bool> {
    Seq::new(recs.len(), |i: int| recs[i].special == v)
}

/// Presence of one zodiac as the special number's zodiac.
pub open spec fn special_zodiac_flags(recs: Seq<HistoricalRecord>, k: int) -> Seq<bool> {
    Seq::new(recs.len(), |i: int| recs[i].special >= 1 && zodiac_index(recs[i].special as int) == k)
}

/// The color class of a number: red, blue or green, as an index.
pub open spec fn color_class_of(n: int) -> int {
    if crate::attrs::is_red(n) {
        0
    } else if crate::attrs::is_blue(n) {
        1
    } else {
        2
    }
}

/// Presence of one color class as the special number's color.
pub open spec fn special_color_flags(recs: Seq<HistoricalRecord>, c: int) -> Seq<bool> {
    Seq::new(recs.len(), |i: int| color_class_of(recs[i].special as int) == c)
}

/// Presence of one parity as the special number's parity.
pub open spec fn special_parity_flags(recs: Seq<HistoricalRecord>, odd: bool) -> Seq<bool> {
    Seq::new(recs.len(), |i: int| spec_is_odd(recs[i].special as int) == odd)
}

/// Presence of one size class as the special number's size.
pub open spec fn special_size_flags(recs: Seq<HistoricalRecord>, big: bool) -> Seq<bool> {
    Seq::new(
        recs.len(),
        |i: int|
            if big {
                is_big(recs[i].special as int)
            } else {
                is_small(recs[i].special as int)
            },
    )
}

/// Presence of one tail digit as the special number's tail.
pub open spec fn special_tail_flags(recs: Seq<HistoricalRecord>, t: int) -> Seq<bool> {
    Seq::new(recs.len(), |i: int| matches_tail(recs[i].special as int, t))
}

/// Whether a draw's six main numbers contain `v` at any position.
pub open spec fn in_main_numbers(r: HistoricalRecord, v: int) -> bool {
    r.n1 == v || r.n2 == v || r.n3 == v || r.n4 == v || r.n5 == v || r.n6 == v
}

/// Presence of one value at any of the six main positions.
pub open spec fn any_number_flags(recs: Seq<HistoricalRecord>, v: int) -> Seq<bool> {
    Seq::new(recs.len(), |i: int| in_main_numbers(recs[i], v))
}

/// The any-position dimension counts a value once per draw: two record
/// windows that agree on whether each draw contains the value produce
/// the same presence flags and so the same four statistics, whatever
/// the multiplicity of the value inside a draw.
pub proof fn lemma_any_position_counts_once(
    a: Seq<HistoricalRecord>,
    b: Seq<HistoricalRecord>,
    v: int,
)
    requires
        a.len() == b.len(),
        forall|i: int| 0 <= i < a.len() ==> (in_main_numbers(a[i], v) <==> in_main_numbers(b[i], v)),
    ensures
        any_number_flags(a, v) == any_number_flags(b, v),
{
    assert(any_number_flags(a, v) =~= any_number_flags(b, v));
}

/// The display label of a color class.
pub open spec fn color_display(c: int) -> Seq<char> {
    if c == 0 {
        "红波"@
    } else if c == 1 {
        "蓝波"@
    } else {
        "绿波"@
    }
}

/// The window the statistics are computed over: the most recent `n`
/// records when a positive limit below the record count is given,
/// everything otherwise.
pub open spec fn windowed(s: Seq<HistoricalRecord>, limit: Option<usize>) -> Seq<HistoricalRecord> {
    match limit {
        Option::Some(n) => if 0 < n < s.len() {
            s.take(n as int)
        } else {
            s
        },
        Option::None => s,
    }
}

/// Every list of the report is right for the given record window.
pub open spec fn report_ok(rep: StatisticsReport, recs: Seq<HistoricalRecord>) -> bool {
    &&& rep.special_number@.len() == 49
    &&& forall|k: int|
        0 <= k < 49 ==> stat_item_ok(
            #[trigger] rep.special_number@[k],
            crate::strutil::decimal_digits((k + 1) as nat),
            special_eq_flags(recs, k + 1),
        )
    &&& rep.special_zodiac@.len() == 12
    &&& forall|k: int|
        0 <= k < 12 ==> stat_item_ok(
            #[trigger] rep.special_zodiac@[k],
            crate::attrs::zodiac_label(k),
            special_zodiac_flags(recs, k),
        )
    &&& rep.special_color@.len() == 3
    &&& forall|k: int|
        0 <= k < 3 ==> stat_item_ok(
            #[trigger] rep.special_color@[k],
            color_display(k),
            special_color_flags(recs, k),
        )
    &&& rep.special_odd@.len() == 2
    &&& stat_item_ok(rep.special_odd@[0], "单"@, special_parity_flags(recs, true))
    &&& stat_item_ok(rep.special_odd@[1], "双"@, special_parity_flags(recs, false))
    &&& rep.special_size@.len() == 2
    &&& stat_item_ok(rep.special_size@[0], "小"@, special_size_flags(recs, false))
    &&& stat_item_ok(rep.special_size@[1], "大"@, special_size_flags(recs, true))
    &&& rep.special_tail@.len() == 10
    &&& forall|k: int|
        0 <= k < 10 ==> stat_item_ok(
            #[trigger] rep.special_tail@[k],
            crate::strutil::decimal_digits(k as nat) + "尾"@,
            special_tail_flags(recs, k),
        )
    &&& rep.normal_number@.len() == 49
    &&& forall|k: int|
        0 <= k < 49 ==> stat_item_ok(
            #[trigger] rep.normal_number@[k],
            crate::strutil::decimal_digits((k + 1) as nat),
            any_number_flags(recs, k + 1),
        )
}

/// One report row from a label and its presence sequence.
fn make_item(label: String, flags: &Vec<bool>) -> (item: StatItem)
    ensures
        stat_item_ok(item, label@, flags@),
{
    let n = flags.len();
    let (cur, max_o, freq, avg) = calculate_omission_stats(flags, n);
    StatItem {
        label,
        current_omission: cur,
        max_omission: max_o,
        frequency: freq,
        avg_omission: avg,
    }
}

fn special_eq_flags_vec(recs: &Vec<HistoricalRecord>, upto: usize, v: i32) -> (f: Vec<bool>)
    requires
        upto <= recs@.len(),
    ensures
        f@ == special_eq_flags(recs@.take(upto as int), v as int),
{
    let mut f: Vec<bool> = Vec::new();
    let mut i: usize = 0;
    while i < upto
        invariant
            upto <= recs@.len(),
            0 <= i <= upto,
            f@.len() == i,
            forall|m: int| 0 <= m < i ==> f@[m] == (recs@[m].special == v),
        decreases upto - i,
    {
        f.push(recs[i].special == v);
        i = i + 1;
    }
    proof {
        assert(f@ =~= special_eq_flags(recs@.take(upto as int), v as int));
    }
    f
}

fn special_zodiac_flags_vec(recs: &Vec<HistoricalRecord>, upto: usize, k: i32) -> (f: Vec<bool>)
    requires
        upto <= recs@.len(),
    ensures
        f@ == special_zodiac_flags(recs@.take(upto as int), k as int),
{
    let mut f: Vec<bool> = Vec::new();
    let mut i: usize = 0;
    while i < upto
        invariant
            upto <= recs@.len(),
            0 <= i <= upto,
            f@.len() == i,
            forall|m: int|
                0 <= m < i ==> f@[m] == (recs@[m].special >= 1 && zodiac_index(
                    recs@[m].special as int,
                ) == k),
        decreases upto - i,
    {
        let sp = recs[i].special;
        f.push(sp >= 1 && (sp - 1) % 12 == k);
        i = i + 1;
    }
    proof {
        assert(f@ =~= special_zodiac_flags(recs@.take(upto as int), k as int));
    }
    f
}

/// The color class of a number, as the fixed partition tables give it.
pub fn color_class(num: i32) -> (c: i32)
    ensures
        c == color_class_of(num as int),
{
    let n = num;
    if n == 1 || n == 2 || n == 7 || n == 8 || n == 12 || n == 13 || n == 18 || n == 19 || n == 23
        || n == 24 || n == 29 || n == 30 || n == 34 || n == 35 || n == 40 || n == 45 || n == 46 {
        0
    } else if n == 3 || n == 4 || n == 9 || n == 10 || n == 14 || n == 15 || n == 20 || n == 25
        || n == 26 || n == 31 || n == 36 || n == 37 || n == 41 || n == 42 || n == 47 || n == 48 {
        1
    } else {
        2
    }
}

fn special_color_flags_vec(recs: &Vec<HistoricalRecord>, upto: usize, c: i32) -> (f: Vec<bool>)
    requires
        upto <= recs@.len(),
    ensures
        f@ == special_color_flags(recs@.take(upto as int), c as int),
{
    let mut f: Vec<bool> = Vec::new();
    let mut i: usize = 0;
    while i < upto
        invariant
            upto <= recs@.len(),
            0 <= i <= upto,
            f@.len() == i,
            forall|m: int| 0 <= m < i ==> f@[m] == (color_class_of(recs@[m].special as int) == c),
        decreases upto - i,
    {
        f.push(color_class(recs[i].special) == c);
        i = i + 1;
    }
    proof {
        assert(f@ =~= special_color_flags(recs@.take(upto as int), c as int));
    }
    f
}

fn special_parity_flags_vec(recs: &Vec<HistoricalRecord>, upto: usize, odd: bool) -> (f: Vec<bool>)
    requires
        upto <= recs@.len(),
    ensures
        f@ == special_parity_flags(recs@.take(upto as int), odd),
{
    let mut f: Vec<bool> = Vec::new();
    let mut i: usize = 0;
    while i < upto
        invariant
            upto <= recs@.len(),
            0 <= i <= upto,
            f@.len() == i,
            forall|m: int| 0 <= m < i ==> f@[m] == (spec_is_odd(recs@[m].special as int) == odd),
        decreases upto - i,
    {
        f.push(crate::attrs::is_odd(recs[i].special) == odd);
        i = i + 1;
    }
    proof {
        assert(f@ =~= special_parity_flags(recs@.take(upto as int), odd));
    }
    f
}

fn special_size_flags_vec(recs: &Vec<HistoricalRecord>, upto: usize, big: bool) -> (f: Vec<bool>)
    requires
        upto <= recs@.len(),
    ensures
        f@ == special_size_flags(recs@.take(upto as int), big),
{
    let mut f: Vec<bool> = Vec::new();
    let mut i: usize = 0;
    while i < upto
        invariant
            upto <= recs@.len(),
            0 <= i <= upto,
            f@.len() == i,
            forall|m: int|
                0 <= m < i ==> f@[m] == (if big {
                    is_big(recs@[m].special as int)
                } else {
                    is_small(recs@[m].special as int)
                }),
        decreases upto - i,
    {
        let flag = if big {
            crate::attrs::in_big_class(recs[i].special)
        } else {
            crate::attrs::in_small_class(recs[i].special)
        };
        f.push(flag);
        i = i + 1;
    }
    proof {
        assert(f@ =~= special_size_flags(recs@.take(upto as int), big));
    }
    f
}

fn special_tail_flags_vec(recs: &Vec<HistoricalRecord>, upto: usize, t: i32) -> (f: Vec<bool>)
    requires
        upto <= recs@.len(),
    ensures
        f@ == special_tail_flags(recs@.take(upto as int), t as int),
{
    let mut f: Vec<bool> = Vec::new();
    let mut i: usize = 0;
    while i < upto
        invariant
            upto <= recs@.len(),
            0 <= i <= upto,
            f@.len() == i,
            forall|m: int| 0 <= m < i ==> f@[m] == matches_tail(recs@[m].special as int, t as int),
        decreases upto - i,
    {
        f.push(crate::attrs::has_tail(recs[i].special, t));
        i = i + 1;
    }
    proof {
        assert(f@ =~= special_tail_flags(recs@.take(upto as int), t as int));
    }
    f
}

fn any_number_flags_vec(recs: &Vec<HistoricalRecord>, upto: usize, v: i32) -> (f: Vec<bool>)
    requires
        upto <= recs@.len(),
    ensures
        f@ == any_number_flags(recs@.take(upto as int), v as int),
{
    let mut f: Vec<bool> = Vec::new();
    let mut i: usize = 0;
    while i < upto
        invariant
            upto <= recs@.len(),
            0 <= i <= upto,
            f@.len() == i,
            forall|m: int| 0 <= m < i ==> f@[m] == in_main_numbers(recs@[m], v as int),
        decreases upto - i,
    {
        let r = &recs[i];
        f.push(r.n1 == v || r.n2 == v || r.n3 == v || r.n4 == v || r.n5 == v || r.n6 == v);
        i = i + 1;
    }
    proof {
        assert(f@ =~= any_number_flags(recs@.take(upto as int), v as int));
    }
    f
}

/// The statistics report over the given records, most recent first:
/// seven dimensions, each with the four omission statistics per
/// category value, computed over the most recent `limit` records when a
/// positive limit below the record count is given. An empty record set
/// is a user-facing error.
pub fn get_statistics(records: &Vec<HistoricalRecord>, limit: Option<usize>) -> (r: Result<
    StatisticsReport,
    String,
>)
    ensures
        match r {
            Result::Ok(rep) => records@.len() > 0 && report_ok(rep, windowed(records@, limit)),
            Result::Err(e) => records@.len() == 0 && e@ == "无数据可供分析"@,
        },
{
    if records.len() == 0 {
        return Result::Err(String::from_str("无数据可供分析"));
    }
    let total: usize = match limit {
        Option::Some(n) => if n > 0 && n < records.len() {
            n
        } else {
            records.len()
        },
        Option::None => records.len(),
    };
    let ghost recs_w = records@.take(total as int);
    proof {
        assert(windowed(records@, limit) =~= recs_w);
    }

    let mut special_number: Vec<StatItem> = Vec::new();
    let mut k: usize = 0;
    while k < 49
        invariant
            total <= records@.len(),
            recs_w == records@.take(total as int),
            0 <= k <= 49,
            special_number@.len() == k,
            forall|m: int|
                0 <= m < k ==> stat_item_ok(
                    #[trigger] special_number@[m],
                    crate::strutil::decimal_digits((m + 1) as nat),
                    special_eq_flags(recs_w, m + 1),
                ),
        decreases 49 - k,
    {
        let v = k + 1;
        let flags = special_eq_flags_vec(records, total, v as i32);
        let item = make_item(crate::strutil::decimal_u64(v as u64), &flags);
        special_number.push(item);
        k = k + 1;
    }

    let mut special_zodiac: Vec<StatItem> = Vec::new();
    let mut k: usize = 0;
    while k < 12
        invariant
            total <= records@.len(),
            recs_w == records@.take(total as int),
            0 <= k <= 12,
            special_zodiac@.len() == k,
            forall|m: int|
                0 <= m < k ==> stat_item_ok(
                    #[trigger] special_zodiac@[m],
                    crate::attrs::zodiac_label(m),
                    special_zodiac_flags(recs_w, m),
                ),
        decreases 12 - k,
    {
        let flags = special_zodiac_flags_vec(records, total, k as i32);
        let label = crate::attrs::get_zodiac((k + 1) as i32);
        let item = make_item(String::from_str(label), &flags);
        special_zodiac.push(item);
        k = k + 1;
    }

    let mut special_color: Vec<StatItem> = Vec::new();
    let mut k: usize = 0;
    while k < 3
        invariant
            total <= records@.len(),
            recs_w == records@.take(total as int),
            0 <= k <= 3,
            special_color@.len() == k,
            forall|m: int|
                0 <= m < k ==> stat_item_ok(
                    #[trigger] special_color@[m],
                    color_display(m),
                    special_color_flags(recs_w, m),
                ),
        decreases 3 - k,
    {
        let flags = special_color_flags_vec(records, total, k as i32);
        let label = if k == 0 {
            "红波"
        } else if k == 1 {
            "蓝波"
        } else {
            "绿波"
        };
        let item = make_item(String::from_str(label), &flags);
        special_color.push(item);
        k = k + 1;
    }

    let mut special_odd: Vec<StatItem> = Vec::new();
    let odd_flags = special_parity_flags_vec(records, total, true);
    special_odd.push(make_item(String::from_str("单"), &odd_flags));
    let even_flags = special_parity_flags_vec(records, total, false);
    special_odd.push(make_item(String::from_str("双"), &even_flags));

    let mut special_size: Vec<StatItem> = Vec::new();
    let small_flags = special_size_flags_vec(records, total, false);
    special_size.push(make_item(String::from_str("小"), &small_flags));
    let big_flags = special_size_flags_vec(records, total, true);
    special_size.push(make_item(String::from_str("大"), &big_flags));

    let mut special_tail: Vec<StatItem> = Vec::new();
    let mut k: usize = 0;
    while k < 10
        invariant
            total <= records@.len(),
            recs_w == records@.take(total as int),
            0 <= k <= 10,
            special_tail@.len() == k,
            forall|m: int|
                0 <= m < k ==> stat_item_ok(
                    #[trigger] special_tail@[m],
                    crate::strutil::decimal_digits(m as nat) + "尾"@,
                    special_tail_flags(recs_w, m),
                ),
        decreases 10 - k,
    {
        let flags = special_tail_flags_vec(records, total, k as i32);
        let mut label = crate::strutil::decimal_u64(k as u64);
        label.append("尾");
        let item = make_item(label, &flags);
        special_tail.push(item);
        k = k + 1;
    }

    let mut normal_number: Vec<StatItem> = Vec::new();
    let mut k: usize = 0;
    while k < 49
        invariant
            total <= records@.len(),
            recs_w == records@.take(total as int),
            0 <= k <= 49,
            normal_number@.len() == k,
            forall|m: int|
                0 <= m < k ==> stat_item_ok(
                    #[trigger] normal_number@[m],
                    crate::strutil::decimal_digits((m + 1) as nat),
                    any_number_flags(recs_w, m + 1),
                ),
        decreases 49 - k,
    {
        let v = k + 1;
        let flags = any_number_flags_vec(records, total, v as i32);
        let item = make_item(crate::strutil::decimal_u64(v as u64), &flags);
        normal_number.push(item);
        k = k + 1;
    }

    Result::Ok(
        StatisticsReport {
            special_number,
            special_zodiac,
            special_color,
            special_odd,
            special_size,
            special_tail,
            normal_number,
        },
    )
}

/// The trailing absent streak really is absent.
proof fn lemma_trailing_misses_run(s: Seq<bool>)
    ensures
        forall|m: int| s.len() - trailing_misses(s) <= m < s.len() ==> !s[m],
    decreases s.len(),
{
    if s.len() > 0 && !s.last() {
        lemma_trailing_misses_run(s.drop_last());
        lemma_max_omission_bounded(s);
        assert forall|m: int| s.len() - trailing_misses(s) <= m < s.len() implies !s[m] by {
            if m == s.len() - 1 {
                assert(s[m] == s.last());
            } else {
                assert(!s.drop_last()[m]);
                assert(s[m] == s.drop_last()[m]);
            }
        }
    }
}

/// An absent streak touching the end is counted whole by the trailing
/// streak.
proof fn lemma_trailing_misses_covers(s: Seq<bool>, i: int)
    requires
        0 <= i <= s.len(),
        forall|m: int| i <= m < s.len() ==> !s[m],
    ensures
        trailing_misses(s) >= s.len() - i,
    decreases s.len(),
{
    if i < s.len() {
        assert(!s.last());
        assert(forall|m: int| i <= m < s.drop_last().len() ==> !s.drop_last()[m]);
        lemma_trailing_misses_covers(s.drop_last(), i);
    }
}

/// The draws of the window starting at `i`, `k` long, all miss.
pub open spec fn misses_throughout(s: Seq<bool>, i: int, k: int) -> bool {
    forall|m: int| i <= m < i + k ==> !s[m]
}

/// The maximum omission is reached: some window of that many
/// consecutive draws misses throughout.
pub proof fn lemma_max_omission_witness(s: Seq<bool>)
    ensures
        exists|i: int|
            0 <= i && i + max_omission(s) <= s.len() && #[trigger] misses_throughout(
                s,
                i,
                max_omission(s) as int,
            ),
    decreases s.len(),
{
    if s.len() == 0 {
        assert(0 + max_omission(s) <= s.len() && misses_throughout(s, 0, max_omission(s) as int));
    } else {
        lemma_max_omission_witness(s.drop_last());
        let k = max_omission(s.drop_last());
        let w = choose|i: int|
            0 <= i && i + k <= s.drop_last().len() && #[trigger] misses_throughout(
                s.drop_last(),
                i,
                k as int,
            );
        if max_omission(s) == k {
            assert forall|m: int| w <= m < w + k implies !s[m] by {
                assert(!s.drop_last()[m]);
            }
            assert(w + max_omission(s) <= s.len() && misses_throughout(
                s,
                w,
                max_omission(s) as int,
            ));
        } else {
            let t = trailing_misses(s);
            lemma_trailing_misses_run(s);
            lemma_max_omission_bounded(s.drop_last());
            assert(s.len() - t >= 0 && s.len() - t + max_omission(s) <= s.len()
                && misses_throughout(s, s.len() - t, max_omission(s) as int));
        }
    }
}

/// The maximum omission is an upper bound: no window of consecutive
/// draws misses for longer.
pub proof fn lemma_max_omission_sound(s: Seq<bool>, i: int, k: int)
    requires
        0 <= i,
        0 <= k,
        i + k <= s.len(),
        misses_throughout(s, i, k),
    ensures
        k <= max_omission(s),
    decreases s.len(),
{
    if k > 0 {
        if i + k <= s.len() - 1 {
            assert(misses_throughout(s.drop_last(), i, k)) by {
                assert(forall|m: int| i <= m < i + k ==> !s.drop_last()[m]);
            }
            lemma_max_omission_sound(s.drop_last(), i, k);
        } else {
            assert(!s.last());
            lemma_trailing_misses_covers(s, i);
        }
    }
}

} // verus!

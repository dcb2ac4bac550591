//! Stable insertion sort, written as an open specification function so
//! that contracts pin the sorted output exactly, ties included.

use vstd::prelude::*;
use vstd::relations::sorted_by;
use vstd::seq_lib::lemma_multiset_commutative;

use crate::strutil::lex_le;

verus! {

/// Insert `x` behind every element that may precede it under `leq`: the
/// stable insertion position for an element arriving after all of `s`.
pub open spec fn insert_ordered<T>(s: Seq<T>, x: T, leq: spec_fn(T, T) -> bool) -> Seq<T>
    decreases s.len(),
{
    if s.len() == 0 {
        seq![x]
    } else if leq(s[0], x) {
        seq![s[0]] + insert_ordered(s.drop_first(), x, leq)
    } else {
        seq![x] + s
    }
}

/// Stable insertion sort of `s` under `leq`: elements the order treats
/// alike keep their relative order.
pub open spec fn insertion_sort<T>(s: Seq<T>, leq: spec_fn(T, T) -> bool) -> Seq<T>
    decreases s.len(),
{
    if s.len() == 0 {
        Seq::empty()
    } else {
        insert_ordered(insertion_sort(s.drop_last(), leq), s.last(), leq)
    }
}

/// Where the insertion lands: before the first element that may not
/// precede `x`.
pub proof fn lemma_insert_ordered_at<T>(s: Seq<T>, x: T, leq: spec_fn(T, T) -> bool, j: int)
    requires
        0 <= j <= s.len(),
        forall|k: int| 0 <= k < j ==> leq(s[k], x),
        j < s.len() ==> !leq(s[j], x),
    ensures
        insert_ordered(s, x, leq) == s.insert(j, x),
    decreases j,
{
    if s.len() == 0 {
        assert(insert_ordered(s, x, leq) =~= s.insert(0, x));
    } else if j == 0 {
        assert(insert_ordered(s, x, leq) =~= s.insert(0, x));
    } else {
        lemma_insert_ordered_at(s.drop_first(), x, leq, j - 1);
        assert(insert_ordered(s, x, leq) =~= s.insert(j, x));
    }
}

/// Inserting behind everything appends.
pub proof fn lemma_insert_ordered_all_le<T>(s: Seq<T>, x: T, leq: spec_fn(T, T) -> bool)
    requires
        forall|k: int| 0 <= k < s.len() ==> leq(s[k], x),
    ensures
        insert_ordered(s, x, leq) == s.push(x),
{
    lemma_insert_ordered_at(s, x, leq, s.len() as int);
    assert(s.insert(s.len() as int, x) =~= s.push(x));
}

/// The inserted sequence holds `x` and the elements of `s`, nothing
/// else.
pub proof fn lemma_insert_ordered_elems<T>(s: Seq<T>, x: T, leq: spec_fn(T, T) -> bool)
    ensures
        insert_ordered(s, x, leq).len() == s.len() + 1,
        forall|i: int|
            0 <= i < insert_ordered(s, x, leq).len() ==> (#[trigger] insert_ordered(s, x, leq)[i]
                == x || s.contains(insert_ordered(s, x, leq)[i])),
    decreases s.len(),
{
    if s.len() > 0 && leq(s[0], x) {
        lemma_insert_ordered_elems(s.drop_first(), x, leq);
        assert forall|i: int|
            0 <= i < insert_ordered(s, x, leq).len() implies (#[trigger] insert_ordered(
            s,
            x,
            leq,
        )[i] == x || s.contains(insert_ordered(s, x, leq)[i])) by {
            let r = insert_ordered(s, x, leq);
            let sub = insert_ordered(s.drop_first(), x, leq);
            if i > 0 {
                assert(r[i] == sub[i - 1]);
                if sub[i - 1] != x {
                    let k = choose|k: int| 0 <= k < s.drop_first().len() && s.drop_first()[k]
                        == sub[i - 1];
                    assert(s[k + 1] == sub[i - 1]);
                }
            }
        }
    }
}

/// Inserting into a sorted sequence keeps it sorted, for a total and
/// transitive order.
pub proof fn lemma_insert_ordered_sorted<T>(s: Seq<T>, x: T, leq: spec_fn(T, T) -> bool)
    requires
        sorted_by(s, leq),
        forall|a: T, b: T| #[trigger] leq(a, b) || #[trigger] leq(b, a),
        forall|a: T, b: T, c: T| #[trigger] leq(a, b) && #[trigger] leq(b, c) ==> leq(a, c),
    ensures
        sorted_by(insert_ordered(s, x, leq), leq),
    decreases s.len(),
{
    let r = insert_ordered(s, x, leq);
    if s.len() == 0 {
    } else if leq(s[0], x) {
        assert(sorted_by(s.drop_first(), leq));
        lemma_insert_ordered_sorted(s.drop_first(), x, leq);
        lemma_insert_ordered_elems(s.drop_first(), x, leq);
        let sub = insert_ordered(s.drop_first(), x, leq);
        assert forall|i: int, j: int| 0 <= i < j < r.len() implies leq(r[i], r[j]) by {
            if i == 0 {
                assert(r[j] == sub[j - 1]);
                if sub[j - 1] == x {
                } else {
                    let k = choose|k: int| 0 <= k < s.drop_first().len() && s.drop_first()[k]
                        == sub[j - 1];
                    assert(s[k + 1] == sub[j - 1]);
                    assert(leq(s[0], s[k + 1]));
                }
            } else {
                assert(r[i] == sub[i - 1] && r[j] == sub[j - 1]);
            }
        }
    } else {
        assert(leq(x, s[0]));
        assert forall|i: int, j: int| 0 <= i < j < r.len() implies leq(r[i], r[j]) by {
            if i == 0 {
                assert(r[j] == s[j - 1]);
                if j - 1 > 0 {
                    assert(leq(s[0], s[j - 1]));
                }
            } else {
                assert(r[i] == s[i - 1] && r[j] == s[j - 1]);
            }
        }
    }
}

/// Insertion sort sorts, for a total and transitive order.
pub proof fn lemma_insertion_sort_sorted<T>(s: Seq<T>, leq: spec_fn(T, T) -> bool)
    requires
        forall|a: T, b: T| #[trigger] leq(a, b) || #[trigger] leq(b, a),
        forall|a: T, b: T, c: T| #[trigger] leq(a, b) && #[trigger] leq(b, c) ==> leq(a, c),
    ensures
        sorted_by(insertion_sort(s, leq), leq),
    decreases s.len(),
{
    if s.len() > 0 {
        lemma_insertion_sort_sorted(s.drop_last(), leq);
        lemma_insert_ordered_sorted(insertion_sort(s.drop_last(), leq), s.last(), leq);
    }
}

/// Insertion sort permutes: the output holds exactly the input
/// elements, multiplicity included.
pub proof fn lemma_insertion_sort_multiset<T>(s: Seq<T>, leq: spec_fn(T, T) -> bool)
    ensures
        insertion_sort(s, leq).to_multiset() == s.to_multiset(),
    decreases s.len(),
{
    broadcast use vstd::seq_lib::group_to_multiset_ensures;

    if s.len() > 0 {
        lemma_insertion_sort_multiset(s.drop_last(), leq);
        lemma_insert_ordered_multiset(insertion_sort(s.drop_last(), leq), s.last(), leq);
        assert(s.drop_last().push(s.last()) =~= s);
    } else {
        assert(insertion_sort(s, leq).to_multiset() =~= s.to_multiset());
    }
}

proof fn lemma_insert_ordered_multiset<T>(s: Seq<T>, x: T, leq: spec_fn(T, T) -> bool)
    ensures
        insert_ordered(s, x, leq).to_multiset() == s.to_multiset().insert(x),
    decreases s.len(),
{
    broadcast use vstd::seq_lib::group_to_multiset_ensures;

    if s.len() == 0 {
        assert(seq![x] =~= Seq::<T>::empty().push(x));
        assert(insert_ordered(s, x, leq).to_multiset() =~= s.to_multiset().insert(x));
    } else if leq(s[0], x) {
        lemma_insert_ordered_multiset(s.drop_first(), x, leq);
        let sub = insert_ordered(s.drop_first(), x, leq);
        lemma_multiset_commutative(seq![s[0]], sub);
        lemma_multiset_commutative(seq![s[0]], s.drop_first());
        assert(seq![s[0]] + s.drop_first() =~= s);
        assert(insert_ordered(s, x, leq).to_multiset() =~= s.to_multiset().insert(x));
    } else {
        lemma_multiset_commutative(seq![x], s);
        assert(seq![x] =~= Seq::<T>::empty().push(x));
        assert(insert_ordered(s, x, leq).to_multiset() =~= s.to_multiset().insert(x));
    }
}

/// A sequence already sorted is the fixed point of sorting: sorting it
/// again changes nothing.
pub proof fn lemma_insertion_sort_of_sorted<T>(s: Seq<T>, leq: spec_fn(T, T) -> bool)
    requires
        sorted_by(s, leq),
    ensures
        insertion_sort(s, leq) == s,
    decreases s.len(),
{
    if s.len() > 0 {
        assert(sorted_by(s.drop_last(), leq));
        lemma_insertion_sort_of_sorted(s.drop_last(), leq);
        lemma_insert_ordered_all_le(s.drop_last(), s.last(), leq);
        assert(s.drop_last().push(s.last()) =~= s);
    } else {
        assert(insertion_sort(s, leq) =~= s);
    }
}

/// Sorting twice gives the same sequence as sorting once.
pub proof fn lemma_insertion_sort_idempotent<T>(s: Seq<T>, leq: spec_fn(T, T) -> bool)
    requires
        forall|a: T, b: T| #[trigger] leq(a, b) || #[trigger] leq(b, a),
        forall|a: T, b: T, c: T| #[trigger] leq(a, b) && #[trigger] leq(b, c) ==> leq(a, c),
    ensures
        insertion_sort(insertion_sort(s, leq), leq) == insertion_sort(s, leq),
{
    lemma_insertion_sort_sorted(s, leq);
    lemma_insertion_sort_of_sorted(insertion_sort(s, leq), leq);
}

/// Ascending lexicographic order on strings.
pub open spec fn str_leq_asc() -> spec_fn(String, String) -> bool {
    |a: String, b: String| lex_le(a@, b@)
}

/// Descending lexicographic order on strings.
pub open spec fn str_leq_desc() -> spec_fn(String, String) -> bool {
    |a: String, b: String| lex_le(b@, a@)
}

/// First position in `out` whose element may not precede `x` in
/// ascending order.
fn insert_pos_asc(out: &Vec<String>, x: &String) -> (j: usize)
    ensures
        0 <= j <= out@.len(),
        forall|k: int| 0 <= k < j ==> lex_le(out@[k]@, x@),
        j < out@.len() ==> !lex_le(out@[j as int]@, x@),
{
    let n = out.len();
    let mut j: usize = 0;
    while j < n
        invariant
            n == out@.len(),
            0 <= j <= n,
            forall|k: int| 0 <= k < j ==> lex_le(out@[k]@, x@),
        decreases n - j,
    {
        if !crate::strutil::str_le(out[j].as_str(), x.as_str()) {
            return j;
        }
        j = j + 1;
    }
    j
}

/// First position in `out` whose element may not precede `x` in
/// descending order.
fn insert_pos_desc(out: &Vec<String>, x: &String) -> (j: usize)
    ensures
        0 <= j <= out@.len(),
        forall|k: int| 0 <= k < j ==> lex_le(x@, out@[k]@),
        j < out@.len() ==> !lex_le(x@, out@[j as int]@),
{
    let n = out.len();
    let mut j: usize = 0;
    while j < n
        invariant
            n == out@.len(),
            0 <= j <= n,
            forall|k: int| 0 <= k < j ==> lex_le(x@, out@[k]@),
        decreases n - j,
    {
        if !crate::strutil::str_le(x.as_str(), out[j].as_str()) {
            return j;
        }
        j = j + 1;
    }
    j
}

/// Sort strings ascending, stably.
pub fn sort_strings_ascending(v: &Vec<String>) -> (r: Vec<String>)
    ensures
        r@ == insertion_sort(v@, str_leq_asc()),
{
    let ghost leq = str_leq_asc();
    let mut out: Vec<String> = Vec::new();
    let mut i: usize = 0;
    proof {
        assert(insertion_sort(v@.take(0), leq) =~= Seq::<String>::empty());
    }
    while i < v.len()
        invariant
            0 <= i <= v@.len(),
            out@ == insertion_sort(v@.take(i as int), leq),
            leq == str_leq_asc(),
        decreases v@.len() - i,
    {
        let x = v[i].clone();
        let j = insert_pos_asc(&out, &x);
        proof {
            lemma_insert_ordered_at(out@, x, leq, j as int);
            assert(v@.take(i + 1).drop_last() =~= v@.take(i as int));
            assert(v@.take(i + 1).last() == v@[i as int]);
        }
        out.insert(j, x);
        i = i + 1;
    }
    proof {
        assert(v@.take(v@.len() as int) =~= v@);
    }
    out
}

/// Sort strings descending, stably.
pub fn sort_strings_descending(v: &Vec<String>) -> (r: Vec<String>)
    ensures
        r@ == insertion_sort(v@, str_leq_desc()),
{
    let ghost leq = str_leq_desc();
    let mut out: Vec<String> = Vec::new();
    let mut i: usize = 0;
    proof {
        assert(insertion_sort(v@.take(0), leq) =~= Seq::<String>::empty());
    }
    while i < v.len()
        invariant
            0 <= i <= v@.len(),
            out@ == insertion_sort(v@.take(i as int), leq),
            leq == str_leq_desc(),
        decreases v@.len() - i,
    {
        let x = v[i].clone();
        let j = insert_pos_desc(&out, &x);
        proof {
            lemma_insert_ordered_at(out@, x, leq, j as int);
            assert(v@.take(i + 1).drop_last() =~= v@.take(i as int));
            assert(v@.take(i + 1).last() == v@[i as int]);
        }
        out.insert(j, x);
        i = i + 1;
    }
    proof {
        assert(v@.take(v@.len() as int) =~= v@);
    }
    out
}

} // verus!

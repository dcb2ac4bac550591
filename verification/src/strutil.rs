//! Character and string helpers: lexicographic order, decimal rendering,
//! decimal parsing, and splitting a string into runs of like characters.

use vstd::prelude::*;

verus! {

/// ASCII decimal digit.
pub open spec fn is_digit_char(c: char) -> bool {
    '0' <= c && c <= '9'
}

/// Whitespace, as the tokenizer understands it: space, tab, and the ASCII
/// line and page breaks.
pub open spec fn is_space_char(c: char) -> bool {
    c == ' ' || c == '\t' || c == '\n' || c == '\r' || c == '\u{000B}' || c == '\u{000C}'
}

/// Lexicographic order on character sequences, by code point; a proper
/// prefix comes first.
pub open spec fn lex_le(a: Seq<char>, b: Seq<char>) -> bool
    decreases a.len(),
{
    if a.len() == 0 {
        true
    } else if b.len() == 0 {
        false
    } else if a[0] != b[0] {
        a[0] < b[0]
    } else {
        lex_le(a.drop_first(), b.drop_first())
    }
}

/// The lexicographic order relates every pair of sequences one way or the
/// other.
pub proof fn lemma_lex_le_total(a: Seq<char>, b: Seq<char>)
    ensures
        lex_le(a, b) || lex_le(b, a),
    decreases a.len(),
{
    if a.len() == 0 || b.len() == 0 {
    } else if a[0] != b[0] {
    } else {
        lemma_lex_le_total(a.drop_first(), b.drop_first());
    }
}

/// The lexicographic order is transitive.
pub proof fn lemma_lex_le_trans(a: Seq<char>, b: Seq<char>, c: Seq<char>)
    requires
        lex_le(a, b),
        lex_le(b, c),
    ensures
        lex_le(a, c),
    decreases a.len(),
{
    if a.len() == 0 {
    } else if b.len() == 0 {
    } else if c.len() == 0 {
    } else {
        if a[0] == b[0] && b[0] == c[0] {
            lemma_lex_le_trans(a.drop_first(), b.drop_first(), c.drop_first());
        }
    }
}

/// Sequences below each other in the lexicographic order are equal.
pub proof fn lemma_lex_le_antisymmetric(a: Seq<char>, b: Seq<char>)
    requires
        lex_le(a, b),
        lex_le(b, a),
    ensures
        a == b,
    decreases a.len(),
{
    if a.len() == 0 {
        assert(b.len() == 0);
        assert(a =~= b);
    } else {
        assert(b.len() > 0);
        assert(a[0] == b[0]);
        lemma_lex_le_antisymmetric(a.drop_first(), b.drop_first());
        assert(a =~= seq![a[0]] + a.drop_first());
        assert(b =~= seq![b[0]] + b.drop_first());
    }
}

proof fn lemma_lex_le_common_prefix(a: Seq<char>, b: Seq<char>, i: int)
    requires
        0 <= i <= a.len(),
        0 <= i <= b.len(),
        forall|j: int| 0 <= j < i ==> a[j] == b[j],
    ensures
        i < a.len() && i < b.len() && a[i] != b[i] ==> lex_le(a, b) == (a[i] < b[i]),
        a.len() == i || b.len() == i ==> lex_le(a, b) == (a.len() <= b.len()),
    decreases i,
{
    if a.len() == 0 {
    } else if b.len() == 0 {
    } else if i == 0 {
    } else {
        lemma_lex_le_common_prefix(a.drop_first(), b.drop_first(), i - 1);
    }
}

/// Lexicographic comparison of two strings: whether `a` comes no later
/// than `b`.
pub fn str_le(a: &str, b: &str) -> (r: bool)
    ensures
        r == lex_le(a@, b@),
{
    let na = a.unicode_len();
    let nb = b.unicode_len();
    let mut i: usize = 0;
    while i < na && i < nb
        invariant
            na == a@.len(),
            nb == b@.len(),
            0 <= i <= na,
            0 <= i <= nb,
            forall|j: int| 0 <= j < i ==> a@[j] == b@[j],
        decreases na - i,
    {
        let ca = a.get_char(i);
        let cb = b.get_char(i);
        if ca != cb {
            proof {
                lemma_lex_le_common_prefix(a@, b@, i as int);
            }
            return ca < cb;
        }
        i = i + 1;
    }
    proof {
        lemma_lex_le_common_prefix(a@, b@, i as int);
    }
    na <= nb
}

/// The digit character for a value 0 to 9.
pub open spec fn digit_char(d: int) -> char {
    if d == 0 {
        '0'
    } else if d == 1 {
        '1'
    } else if d == 2 {
        '2'
    } else if d == 3 {
        '3'
    } else if d == 4 {
        '4'
    } else if d == 5 {
        '5'
    } else if d == 6 {
        '6'
    } else if d == 7 {
        '7'
    } else if d == 8 {
        '8'
    } else {
        '9'
    }
}

/// The numeric value of a digit character.
pub open spec fn digit_value(c: char) -> int {
    c as int - '0' as int
}

/// Decimal digits of a non-negative number, most significant first.
pub open spec fn decimal_digits(n: nat) -> Seq<char>
    decreases n,
{
    if n < 10 {
        seq![digit_char(n as int)]
    } else {
        decimal_digits(n / 10).push(digit_char((n % 10) as int))
    }
}

/// Decimal rendering of an integer, with a leading minus sign when
/// negative.
pub open spec fn decimal_int(v: int) -> Seq<char> {
    if v >= 0 {
        decimal_digits(v as nat)
    } else {
        seq!['-'] + decimal_digits((0 - v) as nat)
    }
}

/// The string for one decimal digit.
pub fn digit_str(d: u64) -> (r: &'static str)
    requires
        d < 10,
    ensures
        r@ == seq![digit_char(d as int)],
{
    proof {
        reveal_strlit("0");
        reveal_strlit("1");
        reveal_strlit("2");
        reveal_strlit("3");
        reveal_strlit("4");
        reveal_strlit("5");
        reveal_strlit("6");
        reveal_strlit("7");
        reveal_strlit("8");
        reveal_strlit("9");
    }
    if d == 0 {
        "0"
    } else if d == 1 {
        "1"
    } else if d == 2 {
        "2"
    } else if d == 3 {
        "3"
    } else if d == 4 {
        "4"
    } else if d == 5 {
        "5"
    } else if d == 6 {
        "6"
    } else if d == 7 {
        "7"
    } else if d == 8 {
        "8"
    } else {
        "9"
    }
}

/// Decimal rendering of a non-negative number.
pub fn decimal_u64(n: u64) -> (r: String)
    ensures
        r@ == decimal_digits(n as nat),
    decreases n,
{
    if n < 10 {
        String::from_str(digit_str(n))
    } else {
        let mut s = decimal_u64(n / 10);
        s.append(digit_str(n % 10));
        proof {
            assert(s@ =~= decimal_digits((n / 10) as nat).push(digit_char((n % 10) as int)));
        }
        s
    }
}

/// Decimal rendering of a signed number.
pub fn decimal_i64(v: i64) -> (r: String)
    ensures
        r@ == decimal_int(v as int),
{
    if v >= 0 {
        decimal_u64(v as u64)
    } else {
        proof {
            reveal_strlit("-");
        }
        let mut s = String::from_str("-");
        let m = (-(v as i128)) as u64;
        s.append(decimal_u64(m).as_str());
        s
    }
}

/// Whether every character of the sequence is a decimal digit.
pub open spec fn all_digits(s: Seq<char>) -> bool {
    forall|i: int| 0 <= i < s.len() ==> is_digit_char(s[i])
}

/// The value of a sequence of decimal digits, most significant first.
pub open spec fn digits_value(s: Seq<char>) -> int
    decreases s.len(),
{
    if s.len() == 0 {
        0
    } else {
        digits_value(s.drop_last()) * 10 + digit_value(s.last())
    }
}

/// The value of a digit sequence is non-negative.
pub proof fn lemma_digits_value_nonneg(s: Seq<char>)
    requires
        all_digits(s),
    ensures
        digits_value(s) >= 0,
    decreases s.len(),
{
    if s.len() > 0 {
        assert(all_digits(s.drop_last()));
        lemma_digits_value_nonneg(s.drop_last());
    }
}

/// The value of a digit sequence is at least the value of any of its
/// prefixes.
pub proof fn lemma_digits_value_prefix_le(s: Seq<char>, j: int)
    requires
        all_digits(s),
        0 <= j <= s.len(),
    ensures
        digits_value(s.take(j)) <= digits_value(s),
    decreases s.len() - j,
{
    if j < s.len() {
        lemma_digits_value_prefix_le(s, j + 1);
        assert(s.take(j + 1).drop_last() =~= s.take(j));
        assert(all_digits(s.take(j)));
        lemma_digits_value_nonneg(s.take(j));
    } else {
        assert(s.take(j) =~= s);
    }
}

/// The digits of a decimal integer, after any leading sign.
pub open spec fn parse_mag(s: Seq<char>) -> Seq<char> {
    if s.len() > 0 && (s[0] == '-' || s[0] == '+') {
        s.drop_first()
    } else {
        s
    }
}

/// Whether a decimal integer carries a leading minus sign.
pub open spec fn parse_negative(s: Seq<char>) -> bool {
    s.len() > 0 && s[0] == '-'
}

/// What parsing a decimal integer returns: an optional sign, then at
/// least one digit, nothing else, and a value within `i32` range;
/// otherwise nothing.
pub open spec fn spec_parse_i32(s: Seq<char>) -> Option<i32> {
    let negative = parse_negative(s);
    let mag = parse_mag(s);
    if mag.len() == 0 || !all_digits(mag) {
        Option::None
    } else {
        let v = if negative {
            0 - digits_value(mag)
        } else {
            digits_value(mag)
        };
        if i32::MIN <= v <= i32::MAX {
            Option::Some(v as i32)
        } else {
            Option::None
        }
    }
}

/// Parse a decimal integer, as `str::parse` accepts it: an optional sign,
/// then one or more digits; anything else, or a value out of range,
/// yields nothing.
pub fn parse_i32(s: &str) -> (r: Option<i32>)
    ensures
        r == spec_parse_i32(s@),
{
    let n = s.unicode_len();
    if n == 0 {
        return Option::None;
    }
    let first = s.get_char(0);
    let negative = first == '-';
    let start: usize = if first == '-' || first == '+' {
        1
    } else {
        0
    };
    let ghost mag = parse_mag(s@);
    proof {
        assert(mag =~= s@.subrange(start as int, n as int));
    }
    if n == start {
        return Option::None;
    }
    let mut i: usize = start;
    let mut acc: i64 = 0;
    while i < n
        invariant
            start <= i <= n,
            n == s@.len(),
            0 <= start <= 1,
            mag == parse_mag(s@),
            mag =~= s@.subrange(start as int, n as int),
            all_digits(mag.take(i - start)),
            acc == digits_value(mag.take(i - start)),
            0 <= acc <= 0x8000_0000,
        decreases n - i,
    {
        let c = s.get_char(i);
        if c < '0' || c > '9' {
            assert(!is_digit_char(mag[i - start]));
            return Option::None;
        }
        let d = (c as u32 - '0' as u32) as i64;
        assert(mag.take(i - start + 1).drop_last() =~= mag.take(i - start));
        if acc > (0x8000_0000i64 - d) / 10 {
            proof {
                assert(digits_value(mag.take(i - start + 1)) == acc * 10 + d);
                assert(digits_value(mag.take(i - start + 1)) > 0x8000_0000) by {
                    assert(acc >= (0x8000_0000i64 - d) / 10 + 1);
                    assert(((0x8000_0000i64 - d) / 10 + 1) * 10 + d > 0x8000_0000i64)
                        by (nonlinear_arith)
                        requires
                            0 <= d <= 9,
                    ;
                    assert(acc * 10 + d >= ((0x8000_0000i64 - d) / 10 + 1) * 10 + d)
                        by (nonlinear_arith)
                        requires
                            acc >= (0x8000_0000i64 - d) / 10 + 1,
                            0 <= d,
                    ;
                };
                if all_digits(mag) {
                    lemma_digits_value_prefix_le(mag, i - start + 1);
                }
            }
            return Option::None;
        }
        acc = acc * 10 + d;
        i = i + 1;
    }
    proof {
        assert(mag.take(n - start) =~= mag);
    }
    if negative {
        Option::Some((-acc) as i32)
    } else if acc <= 0x7fff_ffff {
        Option::Some(acc as i32)
    } else {
        Option::None
    }
}

/// Decimal rendering of an integer zero-padded to a width of three, sign
/// included, as `{:03}` formatting produces it.
pub open spec fn spec_pad3(v: int) -> Seq<char> {
    if 0 <= v < 10 {
        seq!['0', '0'] + decimal_digits(v as nat)
    } else if 10 <= v < 100 {
        seq!['0'] + decimal_digits(v as nat)
    } else if -10 < v < 0 {
        seq!['-', '0'] + decimal_digits((0 - v) as nat)
    } else {
        decimal_int(v)
    }
}

/// Render an integer zero-padded to a width of three, sign included.
pub fn pad3_i32(v: i32) -> (r: String)
    ensures
        r@ == spec_pad3(v as int),
{
    if 0 <= v && v < 10 {
        proof {
            reveal_strlit("00");
        }
        let mut s = String::from_str("00");
        s.append(digit_str(v as u64));
        s
    } else if 10 <= v && v < 100 {
        proof {
            reveal_strlit("0");
        }
        let mut s = String::from_str("0");
        s.append(decimal_u64(v as u64).as_str());
        s
    } else if -10 < v && v < 0 {
        proof {
            reveal_strlit("-0");
        }
        let mut s = String::from_str("-0");
        s.append(digit_str((-v) as u64));
        s
    } else {
        decimal_i64(v as i64)
    }
}

/// Length of the leading run of characters satisfying `p`.
pub open spec fn run_len(s: Seq<char>, p: spec_fn(char) -> bool) -> nat
    decreases s.len(),
{
    if s.len() == 0 || !p(s[0]) {
        0
    } else {
        (1 + run_len(s.drop_first(), p)) as nat
    }
}

/// The leading run is no longer than the sequence.
pub proof fn lemma_run_len_le(s: Seq<char>, p: spec_fn(char) -> bool)
    ensures
        run_len(s, p) <= s.len(),
    decreases s.len(),
{
    if s.len() > 0 && p(s[0]) {
        lemma_run_len_le(s.drop_first(), p);
    }
}

/// The leading run ends exactly at the first character failing `p`.
pub proof fn lemma_run_len_at(s: Seq<char>, p: spec_fn(char) -> bool, k: int)
    requires
        0 <= k <= s.len(),
        forall|j: int| 0 <= j < k ==> p(s[j]),
        k < s.len() ==> !p(s[k]),
    ensures
        run_len(s, p) == k,
    decreases k,
{
    if k > 0 {
        lemma_run_len_at(s.drop_first(), p, k - 1);
    }
}

/// The maximal runs of characters satisfying `p`, in order; characters
/// failing `p` separate the runs and appear in none of them.
pub open spec fn runs(s: Seq<char>, p: spec_fn(char) -> bool) -> Seq<Seq<char>>
    decreases s.len(),
    via runs_dec
{
    if s.len() == 0 {
        Seq::empty()
    } else if !p(s[0]) {
        runs(s.drop_first(), p)
    } else {
        seq![s.take(run_len(s, p) as int)] + runs(s.skip(run_len(s, p) as int), p)
    }
}

#[via_fn]
proof fn runs_dec(s: Seq<char>, p: spec_fn(char) -> bool) {
    if s.len() > 0 && p(s[0]) {
        lemma_run_len_le(s, p);
    }
}

/// Whether one character is whitespace.
pub fn is_space(c: char) -> (r: bool)
    ensures
        r == is_space_char(c),
{
    c == ' ' || c == '\t' || c == '\n' || c == '\r' || c == '\u{000B}' || c == '\u{000C}'
}

/// First whitespace position at or after `i`, or the end of the string.
fn token_end(s: &str, i: usize) -> (j: usize)
    requires
        i <= s@.len(),
    ensures
        i <= j <= s@.len(),
        forall|k: int| i <= k < j ==> !is_space_char(s@[k]),
        j < s@.len() ==> is_space_char(s@[j as int]),
{
    let n = s.unicode_len();
    let mut j = i;
    while j < n
        invariant
            n == s@.len(),
            i <= j <= n,
            forall|k: int| i <= k < j ==> !is_space_char(s@[k]),
        decreases n - j,
    {
        let c = s.get_char(j);
        if is_space(c) {
            return j;
        }
        j = j + 1;
    }
    j
}

/// Split a string into its whitespace-separated tokens.
pub fn split_tokens(s: &str) -> (r: Vec<String>)
    ensures
        r@.map_values(|t: String| t@) == runs(s@, |c: char| !is_space_char(c)),
{
    let ghost p = |c: char| !is_space_char(c);
    let n = s.unicode_len();
    let mut out: Vec<String> = Vec::new();
    let mut i: usize = 0;
    proof {
        assert(s@.skip(0) =~= s@);
        assert(out@.map_values(|t: String| t@) =~= Seq::<Seq<char>>::empty());
    }
    while i < n
        invariant
            n == s@.len(),
            0 <= i <= n,
            runs(s@, p) =~= out@.map_values(|t: String| t@) + runs(s@.skip(i as int), p),
            p == (|c: char| !is_space_char(c)),
        decreases n - i,
    {
        let c = s.get_char(i);
        if is_space(c) {
            proof {
                assert(s@.skip(i as int).drop_first() =~= s@.skip(i + 1));
            }
            i = i + 1;
        } else {
            let j = token_end(s, i);
            let tok = String::from_str(s.substring_char(i, j));
            proof {
                let suf = s@.skip(i as int);
                assert(forall|m: int| 0 <= m < j - i ==> p(suf[m]));
                assert(j - i < suf.len() ==> !p(suf[j - i]));
                lemma_run_len_at(suf, p, j - i);
                assert(suf.take(j - i) =~= s@.subrange(i as int, j as int));
                assert(suf.skip(j - i) =~= s@.skip(j as int));
                assert((out@.push(tok)).map_values(|t: String| t@) =~= out@.map_values(
                    |t: String| t@,
                ).push(tok@));
            }
            out.push(tok);
            i = j;
        }
    }
    proof {
        assert(s@.skip(n as int) =~= Seq::<char>::empty());
        assert(runs(s@, p) =~= out@.map_values(|t: String| t@));
    }
    out
}

/// Copy of a string with every occurrence of `mark` removed.
pub fn remove_char_all(s: &str, mark: char) -> (r: String)
    ensures
        r@ == s@.filter(|c: char| c != mark),
{
    let ghost p = |c: char| c != mark;
    let n = s.unicode_len();
    let mut out = String::new();
    let mut i: usize = 0;
    proof {
        reveal(Seq::filter);
    }
    while i < n
        invariant
            n == s@.len(),
            0 <= i <= n,
            out@ =~= s@.take(i as int).filter(p),
            p == (|c: char| c != mark),
        decreases n - i,
    {
        let c = s.get_char(i);
        if c != mark {
            let piece = s.substring_char(i, i + 1);
            out.append(piece);
        }
        proof {
            reveal(Seq::filter);
            let prefix = s@.take(i as int);
            assert(s@.take(i + 1).drop_last() =~= prefix);
            assert(s@.take(i + 1).last() == s@[i as int]);
            assert(s@.take(i + 1).filter(p) == if p(s@[i as int]) {
                prefix.filter(p).push(s@[i as int])
            } else {
                prefix.filter(p)
            });
            if p(s@[i as int]) {
                assert(s@.subrange(i as int, i + 1) =~= seq![s@[i as int]]);
                assert(prefix.filter(p).push(s@[i as int]) =~= prefix.filter(p) + seq![
                    s@[i as int],
                ]);
            }
        }
        i = i + 1;
    }
    proof {
        reveal(Seq::filter);
        assert(s@.take(n as int) =~= s@);
    }
    out
}

/// The year component of a date string: everything before the first
/// dash, or the whole string when it has none.
pub open spec fn spec_year_of(date: Seq<char>) -> Seq<char> {
    date.take(run_len(date, |c: char| c != '-') as int)
}

/// Extract the year component of a date string.
pub fn date_year(s: &str) -> (r: String)
    ensures
        r@ == spec_year_of(s@),
{
    let ghost p = |c: char| c != '-';
    let n = s.unicode_len();
    let mut j: usize = 0;
    while j < n
        invariant
            n == s@.len(),
            0 <= j <= n,
            forall|k: int| 0 <= k < j ==> s@[k] != '-',
            p == (|c: char| c != '-'),
        decreases n - j,
    {
        let c = s.get_char(j);
        if c == '-' {
            proof {
                assert(forall|k: int| 0 <= k < j ==> p(s@[k]));
                assert(!p(s@[j as int]));
                lemma_run_len_at(s@, p, j as int);
            }
            return String::from_str(s.substring_char(0, j));
        }
        j = j + 1;
    }
    proof {
        assert(forall|k: int| 0 <= k < n ==> p(s@[k]));
        lemma_run_len_at(s@, p, n as int);
    }
    String::from_str(s.substring_char(0, n))
}

/// Whether a year string is exactly four decimal digits.
pub fn is_four_digit_year(s: &str) -> (r: bool)
    ensures
        r == (s@.len() == 4 && all_digits(s@)),
{
    let n = s.unicode_len();
    if n != 4 {
        return false;
    }
    let mut i: usize = 0;
    while i < 4
        invariant
            n == s@.len(),
            n == 4,
            0 <= i <= 4,
            forall|k: int| 0 <= k < i ==> is_digit_char(s@[k]),
        decreases 4 - i,
    {
        let c = s.get_char(i);
        if c < '0' || c > '9' {
            return false;
        }
        i = i + 1;
    }
    true
}

/// Whether `s` begins with the characters of `p`.
pub fn has_prefix(s: &str, p: &str) -> (r: bool)
    ensures
        r == (p@.len() <= s@.len() && s@.take(p@.len() as int) == p@),
{
    let np = p.unicode_len();
    let ns = s.unicode_len();
    if np > ns {
        return false;
    }
    let mut i: usize = 0;
    while i < np
        invariant
            np == p@.len(),
            ns == s@.len(),
            np <= ns,
            0 <= i <= np,
            forall|k: int| 0 <= k < i ==> s@[k] == p@[k],
        decreases np - i,
    {
        if s.get_char(i) != p.get_char(i) {
            proof {
                assert(s@.take(np as int)[i as int] != p@[i as int]);
            }
            return false;
        }
        i = i + 1;
    }
    proof {
        assert(s@.take(np as int) =~= p@);
    }
    true
}

} // verus!

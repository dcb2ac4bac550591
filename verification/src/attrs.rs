//! Derived attributes of a drawn number (1 to 49): zodiac label, color
//! class, parity, size class and tail digit.

use vstd::prelude::*;

verus! {

/// Zodiac labels cycle with period 12 starting at number 1.
pub open spec fn zodiac_index(num: int) -> int {
    (num - 1) % 12
}

/// The label of the zodiac with index `k` (0 to 11).
pub open spec fn zodiac_label(k: int) -> Seq<char> {
    if k == 0 {
        "鼠"@
    } else if k == 1 {
        "牛"@
    } else if k == 2 {
        "虎"@
    } else if k == 3 {
        "兔"@
    } else if k == 4 {
        "龙"@
    } else if k == 5 {
        "蛇"@
    } else if k == 6 {
        "马"@
    } else if k == 7 {
        "羊"@
    } else if k == 8 {
        "猴"@
    } else if k == 9 {
        "鸡"@
    } else if k == 10 {
        "狗"@
    } else {
        "猪"@
    }
}

/// Zodiac label of a drawn number.
pub fn get_zodiac(num: i32) -> (r: &'static str)
    requires
        1 <= num,
    ensures
        r@ == zodiac_label(zodiac_index(num as int)),
{
    let k = (num - 1) % 12;
    if k == 0 {
        "鼠"
    } else if k == 1 {
        "牛"
    } else if k == 2 {
        "虎"
    } else if k == 3 {
        "兔"
    } else if k == 4 {
        "龙"
    } else if k == 5 {
        "蛇"
    } else if k == 6 {
        "马"
    } else if k == 7 {
        "羊"
    } else if k == 8 {
        "猴"
    } else if k == 9 {
        "鸡"
    } else if k == 10 {
        "狗"
    } else {
        "猪"
    }
}

/// The numbers of the red color class.
pub open spec fn is_red(n: int) -> bool {
    n == 1 || n == 2 || n == 7 || n == 8 || n == 12 || n == 13 || n == 18 || n == 19 || n == 23
        || n == 24 || n == 29 || n == 30 || n == 34 || n == 35 || n == 40 || n == 45 || n == 46
}

/// The numbers of the blue color class.
pub open spec fn is_blue(n: int) -> bool {
    n == 3 || n == 4 || n == 9 || n == 10 || n == 14 || n == 15 || n == 20 || n == 25 || n == 26
        || n == 31 || n == 36 || n == 37 || n == 41 || n == 42 || n == 47 || n == 48
}

/// Internal name of the color class of a number: red and blue are fixed
/// partition tables, everything else is green.
pub open spec fn color_name(n: int) -> Seq<char> {
    if is_red(n) {
        "red"@
    } else if is_blue(n) {
        "blue"@
    } else {
        "green"@
    }
}

/// Color class of a drawn number.
pub fn get_color(num: i32) -> (r: &'static str)
    ensures
        r@ == color_name(num as int),
{
    let n = num;
    if n == 1 || n == 2 || n == 7 || n == 8 || n == 12 || n == 13 || n == 18 || n == 19 || n == 23
        || n == 24 || n == 29 || n == 30 || n == 34 || n == 35 || n == 40 || n == 45 || n == 46 {
        "red"
    } else if n == 3 || n == 4 || n == 9 || n == 10 || n == 14 || n == 15 || n == 20 || n == 25
        || n == 26 || n == 31 || n == 36 || n == 37 || n == 41 || n == 42 || n == 47 || n == 48 {
        "blue"
    } else {
        "green"
    }
}

/// Parity as the remainder test `n % 2 == 1` computes it on machine
/// integers: true exactly for positive odd numbers.
pub open spec fn spec_is_odd(n: int) -> bool {
    n >= 0 && n % 2 == 1
}

/// Whether a drawn number counts as odd.
pub fn is_odd(num: i32) -> (r: bool)
    ensures
        r == spec_is_odd(num as int),
{
    if num >= 0 {
        num % 2 == 1
    } else {
        false
    }
}

/// Small size class: numbers 1 to 24.
pub open spec fn is_small(n: int) -> bool {
    1 <= n <= 24
}

/// Big size class: numbers 25 to 49.
pub open spec fn is_big(n: int) -> bool {
    25 <= n <= 49
}

/// Whether a drawn number is in the small class.
pub fn in_small_class(num: i32) -> (r: bool)
    ensures
        r == is_small(num as int),
{
    1 <= num && num <= 24
}

/// Whether a drawn number is in the big class.
pub fn in_big_class(num: i32) -> (r: bool)
    ensures
        r == is_big(num as int),
{
    25 <= num && num <= 49
}

/// Whether the tail digit of `n` is `t`, as the remainder test
/// `n % 10 == t` computes it on machine integers (the remainder of a
/// negative number is zero or negative there).
pub open spec fn matches_tail(n: int, t: int) -> bool {
    if n >= 0 {
        n % 10 == t
    } else {
        0 - ((0 - n) % 10) == t
    }
}

/// Whether the tail digit of a drawn number is `t`.
pub fn has_tail(num: i32, t: i32) -> (r: bool)
    ensures
        r == matches_tail(num as int, t as int),
{
    if num >= 0 {
        num % 10 == t
    } else {
        let m = (-(num as i64)) % 10;
        -m == t as i64
    }
}

} // verus!

//! Small verified helpers on byte strings: searching, trimming, copying,
//! equality, and the fixed-width 5-digit decimal fields used for jump offsets.

use vstd::prelude::*;

use vstd::arithmetic::div_mod::lemma_div_denominator;
use vstd::arithmetic::div_mod::lemma_fundamental_div_mod;

use crate::ascii::DIGIT_0;
use crate::ascii::DIGIT_9;
use crate::ascii::GREATER;
use crate::ascii::MINUS;

verus! {

/// The first index `i >= from` with `s[i] == b`, or `s.len()` if there is none.
pub open spec fn first_at_or_after(s: Seq<u8>, b: u8, from: int) -> int
    decreases s.len() - from,
        when 0 <= from <= s.len()
{
    if from >= s.len() {
        s.len() as int
    } else if s[from] == b {
        from
    } else {
        first_at_or_after(s, b, from + 1)
    }
}

/// What `first_at_or_after` finds: the earliest occurrence, if any.
pub proof fn lemma_first_at_or_after(s: Seq<u8>, b: u8, from: int)
    requires
        0 <= from <= s.len(),
    ensures
        from <= first_at_or_after(s, b, from) <= s.len(),
        first_at_or_after(s, b, from) < s.len() ==> s[first_at_or_after(s, b, from)] == b,
        forall|j: int| from <= j < first_at_or_after(s, b, from) ==> s[j] != b,
    decreases s.len() - from,
{
    if from < s.len() && s[from] != b {
        lemma_first_at_or_after(s, b, from + 1);
    }
}

/// The first index `i >= from` with `s[i] == b`, or `s.len()` if there is none.
pub fn find_byte(s: &Vec<u8>, b: u8, from: usize) -> (r: usize)
    requires
        from <= s@.len(),
    ensures
        r == first_at_or_after(s@, b, from as int),
{
    let mut i = from;
    while i < s.len()
        invariant
            from <= i <= s@.len(),
            first_at_or_after(s@, b, from as int) == first_at_or_after(s@, b, i as int),
        decreases s@.len() - i,
    {
        if s[i] == b {
            assert(first_at_or_after(s@, b, i as int) == i);
            return i;
        }
        assert(first_at_or_after(s@, b, i as int) == first_at_or_after(s@, b, i + 1));
        i = i + 1;
    }
    assert(first_at_or_after(s@, b, i as int) == i);
    i
}

/// The first index `i >= from` where the two-byte marker `->` starts, or
/// `s.len()` if the marker does not occur at or after `from`.
pub open spec fn first_arrow_at_or_after(s: Seq<u8>, from: int) -> int
    decreases s.len() - from,
        when 0 <= from <= s.len()
{
    if from + 1 >= s.len() {
        s.len() as int
    } else if s[from] == MINUS && s[from + 1] == GREATER {
        from
    } else {
        first_arrow_at_or_after(s, from + 1)
    }
}

/// What `first_arrow_at_or_after` finds: the earliest `->`, if any.
pub proof fn lemma_first_arrow_at_or_after(s: Seq<u8>, from: int)
    requires
        0 <= from <= s.len(),
    ensures
        from <= first_arrow_at_or_after(s, from) <= s.len(),
        first_arrow_at_or_after(s, from) < s.len() ==> {
            let i = first_arrow_at_or_after(s, from);
            i + 1 < s.len() && s[i] == MINUS && s[i + 1] == GREATER
        },
        forall|j: int|
            from <= j && j + 1 < s.len() && j < first_arrow_at_or_after(s, from) ==> !(#[trigger] s[j]
                == MINUS && s[j + 1] == GREATER),
    decreases s.len() - from,
{
    if from + 1 < s.len() && !(s[from] == MINUS && s[from + 1] == GREATER) {
        lemma_first_arrow_at_or_after(s, from + 1);
    }
}

/// The first index `i >= from` where the marker `->` starts, or `s.len()`.
pub fn find_arrow(s: &Vec<u8>, from: usize) -> (r: usize)
    requires
        from <= s@.len(),
    ensures
        r == first_arrow_at_or_after(s@, from as int),
{
    let mut i = from;
    while i < s.len()
        invariant
            from <= i <= s@.len(),
            first_arrow_at_or_after(s@, from as int) == first_arrow_at_or_after(s@, i as int),
        decreases s@.len() - i,
    {
        if i + 1 >= s.len() {
            assert(first_arrow_at_or_after(s@, i as int) == s@.len());
            return s.len();
        }
        if s[i] == MINUS && s[i + 1] == GREATER {
            assert(first_arrow_at_or_after(s@, i as int) == i);
            return i;
        }
        assert(first_arrow_at_or_after(s@, i as int) == first_arrow_at_or_after(s@, i + 1));
        i = i + 1;
    }
    assert(first_arrow_at_or_after(s@, i as int) == s@.len());
    s.len()
}

/// The first index `i >= from` whose byte is neither `c1` nor `c2`, or
/// `s.len()` if all bytes from `from` on are one of the two.
pub open spec fn first_not_pad(s: Seq<u8>, c1: u8, c2: u8, from: int) -> int
    decreases s.len() - from,
        when 0 <= from <= s.len()
{
    if from >= s.len() {
        s.len() as int
    } else if s[from] == c1 || s[from] == c2 {
        first_not_pad(s, c1, c2, from + 1)
    } else {
        from
    }
}

/// The end (exclusive) of `s` once trailing `c1`/`c2` bytes up to `upto` are
/// dropped: the largest `j <= upto` such that `j == 0` or `s[j - 1]` is
/// neither `c1` nor `c2`.
pub open spec fn last_not_pad(s: Seq<u8>, c1: u8, c2: u8, upto: int) -> int
    decreases upto,
        when 0 <= upto <= s.len()
{
    if upto <= 0 {
        0
    } else if s[upto - 1] == c1 || s[upto - 1] == c2 {
        last_not_pad(s, c1, c2, upto - 1)
    } else {
        upto
    }
}

/// `s` with every leading and trailing `c1`/`c2` byte removed.
pub open spec fn trim_pad(s: Seq<u8>, c1: u8, c2: u8) -> Seq<u8> {
    let a = first_not_pad(s, c1, c2, 0);
    let b = last_not_pad(s, c1, c2, s.len() as int);
    if a <= b {
        s.subrange(a, b)
    } else {
        Seq::empty()
    }
}

/// Bounds of `last_not_pad`.
pub proof fn lemma_last_not_pad(s: Seq<u8>, c1: u8, c2: u8, upto: int)
    requires
        0 <= upto <= s.len(),
    ensures
        0 <= last_not_pad(s, c1, c2, upto) <= upto,
    decreases upto,
{
    if upto > 0 && (s[upto - 1] == c1 || s[upto - 1] == c2) {
        lemma_last_not_pad(s, c1, c2, upto - 1);
    }
}

/// A fresh copy of the bytes of `s` in `[from, to)`.
pub fn copy_range(s: &Vec<u8>, from: usize, to: usize) -> (r: Vec<u8>)
    requires
        from <= to <= s@.len(),
    ensures
        r@ == s@.subrange(from as int, to as int),
{
    let mut r: Vec<u8> = Vec::new();
    let mut i = from;
    while i < to
        invariant
            from <= i <= to <= s@.len(),
            r@ == s@.subrange(from as int, i as int),
        decreases to - i,
    {
        r.push(s[i]);
        assert(r@ =~= s@.subrange(from as int, i + 1));
        i = i + 1;
    }
    r
}

/// A fresh copy of `s[from..to]` with leading and trailing `c1`/`c2` bytes
/// removed.
pub fn trim_range(s: &Vec<u8>, from: usize, to: usize, c1: u8, c2: u8) -> (r: Vec<u8>)
    requires
        from <= to <= s@.len(),
    ensures
        r@ == trim_pad(s@.subrange(from as int, to as int), c1, c2),
{
    let ghost sub = s@.subrange(from as int, to as int);
    let mut a = from;
    while a < to && (s[a] == c1 || s[a] == c2)
        invariant
            from <= a <= to <= s@.len(),
            sub == s@.subrange(from as int, to as int),
            first_not_pad(sub, c1, c2, 0) == first_not_pad(sub, c1, c2, a - from),
        decreases to - a,
    {
        assert(sub[a - from] == s@[a as int]);
        assert(first_not_pad(sub, c1, c2, a - from) == first_not_pad(sub, c1, c2, a - from + 1));
        a = a + 1;
    }
    assert(first_not_pad(sub, c1, c2, a - from) == a - from);
    let mut b = to;
    while b > a && (s[b - 1] == c1 || s[b - 1] == c2)
        invariant
            from <= a <= b <= to <= s@.len(),
            sub == s@.subrange(from as int, to as int),
            last_not_pad(sub, c1, c2, to - from) == last_not_pad(sub, c1, c2, b - from),
        decreases b,
    {
        assert(sub[b - 1 - from] == s@[b - 1]);
        assert(last_not_pad(sub, c1, c2, b - from) == last_not_pad(sub, c1, c2, b - from - 1));
        b = b - 1;
    }
    if b == a {
        proof {
            lemma_last_not_pad(sub, c1, c2, b - from);
        }
        let r: Vec<u8> = Vec::new();
        assert(r@ =~= trim_pad(sub, c1, c2));
        r
    } else {
        assert(last_not_pad(sub, c1, c2, b - from) == b - from);
        let r = copy_range(s, a, b);
        assert(r@ =~= trim_pad(sub, c1, c2));
        r
    }
}

/// Appends the bytes of `s` to `out`.
pub fn append_bytes(out: &mut Vec<u8>, s: &Vec<u8>)
    ensures
        final(out)@ == old(out)@ + s@,
{
    let ghost out0 = out@;
    let mut i: usize = 0;
    while i < s.len()
        invariant
            i <= s@.len(),
            out@ == out0 + s@.take(i as int),
        decreases s@.len() - i,
    {
        out.push(s[i]);
        assert(out@ =~= out0 + s@.take(i + 1));
        i = i + 1;
    }
    assert(out@ =~= out0 + s@);
}

/// Whether two byte strings hold the same bytes.
pub fn bytes_eq(a: &Vec<u8>, b: &Vec<u8>) -> (r: bool)
    ensures
        r <==> a@ == b@,
{
    if a.len() != b.len() {
        assert(a@ !~= b@);
        return false;
    }
    let mut i: usize = 0;
    while i < a.len()
        invariant
            i <= a@.len(),
            a@.len() == b@.len(),
            forall|j: int| 0 <= j < i ==> a@[j] == b@[j],
        decreases a@.len() - i,
    {
        if a[i] != b[i] {
            assert(a@ !~= b@);
            return false;
        }
        i = i + 1;
    }
    assert(a@ =~= b@);
    true
}

/// Overwrites the five bytes of `out` at `[site, site + 5)` with `d`.
pub fn overwrite5(out: &mut Vec<u8>, site: usize, d: &Vec<u8>)
    requires
        d@.len() == 5,
        site + 5 <= old(out)@.len(),
    ensures
        final(out)@ == old(out)@.subrange(0, site as int) + d@ + old(out)@.subrange(
            site as int + 5,
            old(out)@.len() as int,
        ),
{
    let n = out.len();
    assert(site + 5 <= n);
    let ghost out0 = out@;
    out[site] = d[0];
    out[site + 1] = d[1];
    out[site + 2] = d[2];
    out[site + 3] = d[3];
    out[site + 4] = d[4];
    assert(out@ =~= out0.subrange(0, site as int) + d@ + out0.subrange(
        site as int + 5,
        out0.len() as int,
    ));
}

/// The ASCII digit for `v % 10`.
pub open spec fn decimal_digit(v: int) -> u8 {
    (DIGIT_0 + (v % 10)) as u8
}

/// `v` rendered as exactly five zero-padded ASCII decimal digits.
pub open spec fn digits5(v: int) -> Seq<u8> {
    seq![
        decimal_digit(v / 10000),
        decimal_digit(v / 1000),
        decimal_digit(v / 100),
        decimal_digit(v / 10),
        decimal_digit(v),
    ]
}

/// The value of a five-byte ASCII decimal field.
pub open spec fn decode5(s: Seq<u8>) -> int
    recommends
        s.len() == 5,
{
    (s[0] - DIGIT_0) * 10000 + (s[1] - DIGIT_0) * 1000 + (s[2] - DIGIT_0) * 100 + (s[3] - DIGIT_0)
        * 10 + (s[4] - DIGIT_0)
}

/// Rendering an offset below 100000 into its five-digit field and reading the
/// field back returns the offset, and every byte of the field is a digit.
pub proof fn lemma_digits5_decode(v: int)
    requires
        0 <= v < 100000,
    ensures
        decode5(digits5(v)) == v,
        forall|i: int| 0 <= i < 5 ==> DIGIT_0 <= #[trigger] digits5(v)[i] <= DIGIT_9,
{
    lemma_fundamental_div_mod(v, 10);
    lemma_fundamental_div_mod(v / 10, 10);
    lemma_fundamental_div_mod(v / 100, 10);
    lemma_fundamental_div_mod(v / 1000, 10);
    lemma_div_denominator(v, 10, 10);
    lemma_div_denominator(v, 100, 10);
    lemma_div_denominator(v, 1000, 10);
    assert(v / 10000 < 10);
    assert(v / 10000 % 10 == v / 10000);
}

/// The five-digit rendering of `v`, used both for the `00000` placeholder and
/// for patched-in resolved offsets.
pub fn render5(v: usize) -> (r: Vec<u8>)
    requires
        v < 100000,
    ensures
        r@ == digits5(v as int),
{
    let mut r: Vec<u8> = Vec::new();
    r.push(DIGIT_0 + (v / 10000 % 10) as u8);
    r.push(DIGIT_0 + (v / 1000 % 10) as u8);
    r.push(DIGIT_0 + (v / 100 % 10) as u8);
    r.push(DIGIT_0 + (v / 10 % 10) as u8);
    r.push(DIGIT_0 + (v % 10) as u8);
    assert(r@ =~= digits5(v as int));
    r
}

} // verus!

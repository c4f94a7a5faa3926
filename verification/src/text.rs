//! Text primitives over character sequences: conversion between `str`
//! and character vectors, Unicode whitespace, trimming, prefixes and
//! line splitting, each with a specification over `Seq<char>`.

use vstd::prelude::*;

verus! {

/// The Unicode `White_Space` property, as used by `char::is_whitespace`.
pub open spec fn is_ws(c: char) -> bool {
    let u = c as u32;
    (0x9 <= u && u <= 0xd) || u == 0x20 || u == 0x85 || u == 0xa0 || u == 0x1680
        || (0x2000 <= u && u <= 0x200a) || u == 0x2028 || u == 0x2029 || u == 0x202f
        || u == 0x205f || u == 0x3000
}

/// Whether `c` is Unicode whitespace.
pub fn is_whitespace(c: char) -> (b: bool)
    ensures
        b == is_ws(c),
{
    let u = c as u32;
    (0x9 <= u && u <= 0xd) || u == 0x20 || u == 0x85 || u == 0xa0 || u == 0x1680
        || (0x2000 <= u && u <= 0x200a) || u == 0x2028 || u == 0x2029 || u == 0x202f
        || u == 0x205f || u == 0x3000
}

/// `s` with leading whitespace removed.
pub open spec fn trim_start(s: Seq<char>) -> Seq<char>
    decreases s.len(),
{
    if s.len() > 0 && is_ws(s[0]) {
        trim_start(s.drop_first())
    } else {
        s
    }
}

/// `s` with trailing whitespace removed.
pub open spec fn trim_end(s: Seq<char>) -> Seq<char>
    decreases s.len(),
{
    if s.len() > 0 && is_ws(s.last()) {
        trim_end(s.drop_last())
    } else {
        s
    }
}

/// `s` with leading and trailing whitespace removed (`str::trim`).
pub open spec fn trim(s: Seq<char>) -> Seq<char> {
    trim_end(trim_start(s))
}

/// Whether `p` is a prefix of `s`.
pub open spec fn has_prefix(s: Seq<char>, p: Seq<char>) -> bool {
    p.len() <= s.len() && s.take(p.len() as int) == p
}

/// Whether `p` is a suffix of `s`.
pub open spec fn has_suffix(s: Seq<char>, p: Seq<char>) -> bool {
    p.len() <= s.len() && s.skip(s.len() - p.len()) == p
}

/// Appends `c` to `s` (`String::push`).
#[verifier::external_body]
pub(crate) fn push_char(s: &mut String, c: char)
    ensures
        final(s)@ == old(s)@.push(c),
{
    s.push(c);
}

/// The characters of `s`, in order.
pub fn chars_of(s: &str) -> (v: Vec<char>)
    ensures
        v@ == s@,
{
    let n = s.unicode_len();
    let mut v: Vec<char> = Vec::new();
    let mut i: usize = 0;
    while i < n
        invariant
            n == s@.len(),
            i <= n,
            v@ == s@.take(i as int),
        decreases n - i,
    {
        let c = s.get_char(i);
        v.push(c);
        i = i + 1;
        assert(v@ =~= s@.take(i as int));
    }
    assert(v@ =~= s@);
    v
}

/// A `String` holding `v[lo..hi]`.
pub fn string_of(v: &Vec<char>, lo: usize, hi: usize) -> (r: String)
    requires
        lo <= hi <= v@.len(),
    ensures
        r@ == v@.subrange(lo as int, hi as int),
{
    let mut r = String::new();
    let mut i = lo;
    while i < hi
        invariant
            lo <= i <= hi <= v@.len(),
            r@ == v@.subrange(lo as int, i as int),
        decreases hi - i,
    {
        push_char(&mut r, v[i]);
        i = i + 1;
        assert(r@ =~= v@.subrange(lo as int, i as int));
    }
    r
}

/// A `String` holding all of `v`.
pub fn string_of_all(v: &Vec<char>) -> (r: String)
    ensures
        r@ == v@,
{
    let r = string_of(v, 0, v.len());
    assert(v@.subrange(0, v@.len() as int) =~= v@);
    r
}

proof fn lemma_trim_start_step(s: Seq<char>, i: int, hi: int)
    requires
        0 <= i < hi <= s.len(),
        is_ws(s[i]),
    ensures
        trim_start(s.subrange(i, hi)) == trim_start(s.subrange(i + 1, hi)),
{
    assert(s.subrange(i, hi).drop_first() =~= s.subrange(i + 1, hi));
}

proof fn lemma_trim_end_step(s: Seq<char>, lo: int, j: int)
    requires
        0 <= lo < j <= s.len(),
        is_ws(s[j - 1]),
    ensures
        trim_end(s.subrange(lo, j)) == trim_end(s.subrange(lo, j - 1)),
{
    assert(s.subrange(lo, j).drop_last() =~= s.subrange(lo, j - 1));
}

/// Bounds of `trim(v[lo..hi])` within `v`.
pub fn trim_range(v: &Vec<char>, lo: usize, hi: usize) -> (r: (usize, usize))
    requires
        lo <= hi <= v@.len(),
    ensures
        lo <= r.0 <= r.1 <= hi,
        v@.subrange(r.0 as int, r.1 as int) == trim(v@.subrange(lo as int, hi as int)),
{
    let mut i = lo;
    while i < hi && is_whitespace(v[i])
        invariant
            lo <= i <= hi <= v@.len(),
            trim_start(v@.subrange(lo as int, hi as int)) == trim_start(
                v@.subrange(i as int, hi as int),
            ),
        decreases hi - i,
    {
        proof {
            lemma_trim_start_step(v@, i as int, hi as int);
        }
        i = i + 1;
    }
    proof {
        if i < hi {
            assert(v@.subrange(i as int, hi as int)[0] == v@[i as int]);
        }
    }
    assert(trim_start(v@.subrange(i as int, hi as int)) == v@.subrange(i as int, hi as int));
    let mut j = hi;
    while j > i && is_whitespace(v[j - 1])
        invariant
            lo <= i <= j <= hi <= v@.len(),
            trim_start(v@.subrange(lo as int, hi as int)) == v@.subrange(i as int, hi as int),
            trim_end(v@.subrange(i as int, hi as int)) == trim_end(
                v@.subrange(i as int, j as int),
            ),
        decreases j - i,
    {
        proof {
            lemma_trim_end_step(v@, i as int, j as int);
        }
        j = j - 1;
    }
    proof {
        if j > i {
            assert(v@.subrange(i as int, j as int).last() == v@[j - 1]);
        }
    }
    (i, j)
}

/// Whether `v[lo..hi]` starts with `p`.
pub fn range_has_prefix(v: &Vec<char>, lo: usize, hi: usize, p: &Vec<char>) -> (b: bool)
    requires
        lo <= hi <= v@.len(),
    ensures
        b == has_prefix(v@.subrange(lo as int, hi as int), p@),
{
    if p.len() > hi - lo {
        return false;
    }
    let mut k: usize = 0;
    while k < p.len()
        invariant
            lo <= hi <= v@.len(),
            p@.len() <= hi - lo,
            k <= p@.len(),
            forall|t: int| 0 <= t < k ==> v@[lo + t] == p@[t],
        decreases p@.len() - k,
    {
        if v[lo + k] != p[k] {
            assert(v@.subrange(lo as int, hi as int).take(p@.len() as int)[k as int] != p@[k as int]);
            return false;
        }
        k = k + 1;
    }
    assert(v@.subrange(lo as int, hi as int).take(p@.len() as int) =~= p@);
    true
}

/// Whether `v[lo..hi]` ends with `p`.
pub fn range_has_suffix(v: &Vec<char>, lo: usize, hi: usize, p: &Vec<char>) -> (b: bool)
    requires
        lo <= hi <= v@.len(),
    ensures
        b == has_suffix(v@.subrange(lo as int, hi as int), p@),
{
    if p.len() > hi - lo {
        return false;
    }
    let start = hi - p.len();
    let b = range_has_prefix(v, start, hi, p);
    proof {
        let s = v@.subrange(lo as int, hi as int);
        assert(s.skip(s.len() - p@.len()) =~= v@.subrange(start as int, hi as int));
        assert(v@.subrange(start as int, hi as int).take(p@.len() as int) =~= v@.subrange(
            start as int,
            hi as int,
        ));
    }
    b
}

/// Whether `v[lo..hi]` equals `p`.
pub fn range_equals(v: &Vec<char>, lo: usize, hi: usize, p: &Vec<char>) -> (b: bool)
    requires
        lo <= hi <= v@.len(),
    ensures
        b == (v@.subrange(lo as int, hi as int) == p@),
{
    if hi - lo != p.len() {
        return false;
    }
    let b = range_has_prefix(v, lo, hi, p);
    proof {
        let s = v@.subrange(lo as int, hi as int);
        assert(s.take(p@.len() as int) =~= s);
    }
    b
}


/// `l` without one trailing carriage return.
pub open spec fn strip_cr(l: Seq<char>) -> Seq<char> {
    if l.len() > 0 && l.last() == '\r' {
        l.drop_last()
    } else {
        l
    }
}

/// Lines completed so far and the pending partial line after reading `s`.
pub open spec fn lines_acc(s: Seq<char>) -> (Seq<Seq<char>>, Seq<char>)
    decreases s.len(),
{
    if s.len() == 0 {
        (seq![], seq![])
    } else {
        let prev = lines_acc(s.drop_last());
        if s.last() == '\n' {
            (prev.0.push(strip_cr(prev.1)), seq![])
        } else {
            (prev.0, prev.1.push(s.last()))
        }
    }
}

/// The lines of `s` as `str::lines` yields them: split at `\n`, a `\r`
/// directly before the `\n` dropped, and no empty line after a final `\n`.
pub open spec fn lines_of(s: Seq<char>) -> Seq<Seq<char>> {
    let acc = lines_acc(s);
    if acc.1.len() > 0 {
        acc.0.push(acc.1)
    } else {
        acc.0
    }
}

/// The pieces of `s` between occurrences of `c`, after `str::split(c)`.
pub open spec fn split_acc(s: Seq<char>, c: char) -> (Seq<Seq<char>>, Seq<char>)
    decreases s.len(),
{
    if s.len() == 0 {
        (seq![], seq![])
    } else {
        let prev = split_acc(s.drop_last(), c);
        if s.last() == c {
            (prev.0.push(prev.1), seq![])
        } else {
            (prev.0, prev.1.push(s.last()))
        }
    }
}

/// `str::split` on a single character: always at least one piece.
pub open spec fn split_char(s: Seq<char>, c: char) -> Seq<Seq<char>> {
    let acc = split_acc(s, c);
    acc.0.push(acc.1)
}

/// The whitespace-separated words of `s` seen so far and the pending word.
pub open spec fn words_acc(s: Seq<char>) -> (Seq<Seq<char>>, Seq<char>)
    decreases s.len(),
{
    if s.len() == 0 {
        (seq![], seq![])
    } else {
        let prev = words_acc(s.drop_last());
        if is_ws(s.last()) {
            if prev.1.len() > 0 {
                (prev.0.push(prev.1), seq![])
            } else {
                (prev.0, seq![])
            }
        } else {
            (prev.0, prev.1.push(s.last()))
        }
    }
}

/// The non-empty whitespace-separated words of `s` (`str::split_whitespace`).
pub open spec fn words_of(s: Seq<char>) -> Seq<Seq<char>> {
    let acc = words_acc(s);
    if acc.1.len() > 0 {
        acc.0.push(acc.1)
    } else {
        acc.0
    }
}

/// `s` after removing `p` from its front as many times as it occurs there
/// (`str::trim_start_matches`).
pub open spec fn strip_all_prefix(s: Seq<char>, p: Seq<char>) -> Seq<char>
    decreases s.len(),
{
    if p.len() > 0 && has_prefix(s, p) {
        strip_all_prefix(s.skip(p.len() as int), p)
    } else {
        s
    }
}

/// Position of the first occurrence of `p` in `s`.
pub open spec fn find_seq(s: Seq<char>, p: Seq<char>) -> Option<int>
    decreases s.len(),
{
    if p.len() > s.len() {
        None
    } else if has_prefix(s, p) {
        Some(0int)
    } else if s.len() == 0 {
        None
    } else {
        match find_seq(s.drop_first(), p) {
            Some(i) => Some(i + 1),
            None => None,
        }
    }
}

/// The part of `s` before the first occurrence of `p` (`s.split(p).next()`).
pub open spec fn before_first(s: Seq<char>, p: Seq<char>) -> Seq<char> {
    match find_seq(s, p) {
        Some(i) => s.take(i),
        None => s,
    }
}

/// Ranges of `v` covering `pieces`.
pub open spec fn ranges_cover(v: Seq<char>, r: Seq<(usize, usize)>, pieces: Seq<Seq<char>>) -> bool {
    &&& r.len() == pieces.len()
    &&& forall|k: int|
        0 <= k < r.len() ==> (#[trigger] r[k]).0 <= r[k].1 <= v.len() && v.subrange(
            r[k].0 as int,
            r[k].1 as int,
        ) == pieces[k]
}

/// Ranges of the lines of `v`.
pub fn line_ranges(v: &Vec<char>) -> (r: Vec<(usize, usize)>)
    ensures
        ranges_cover(v@, r@, lines_of(v@)),
{
    let mut r: Vec<(usize, usize)> = Vec::new();
    let mut start: usize = 0;
    let mut i: usize = 0;
    while i < v.len()
        invariant
            start <= i <= v@.len(),
            ranges_cover(v@, r@, lines_acc(v@.take(i as int)).0),
            lines_acc(v@.take(i as int)).1 == v@.subrange(start as int, i as int),
        decreases v@.len() - i,
    {
        assert(v@.take(i + 1).drop_last() =~= v@.take(i as int));
        assert(v@.take(i + 1).last() == v@[i as int]);
        if v[i] == '\n' {
            let mut end = i;
            if end > start && v[end - 1] == '\r' {
                end = end - 1;
                assert(v@.subrange(start as int, end as int) =~= v@.subrange(
                    start as int,
                    i as int,
                ).drop_last());
            }
            r.push((start, end));
            start = i + 1;
        } else {
            assert(v@.subrange(start as int, i + 1) =~= v@.subrange(start as int, i as int).push(
                v@[i as int],
            ));
        }
        i = i + 1;
    }
    assert(v@.take(v@.len() as int) =~= v@);
    if start < v.len() {
        r.push((start, v.len()));
    }
    r
}

/// Ranges of the pieces of `v[lo..hi]` split at `c`.
pub fn split_ranges(v: &Vec<char>, lo: usize, hi: usize, c: char) -> (r: Vec<(usize, usize)>)
    requires
        lo <= hi <= v@.len(),
    ensures
        ranges_cover(v@, r@, split_char(v@.subrange(lo as int, hi as int), c)),
        forall|k: int| 0 <= k < r@.len() ==> lo <= (#[trigger] r@[k]).0,
        forall|k: int| 0 <= k < r@.len() ==> (#[trigger] r@[k]).1 <= hi,
{
    let ghost s = v@.subrange(lo as int, hi as int);
    let mut r: Vec<(usize, usize)> = Vec::new();
    let mut start: usize = lo;
    let mut i: usize = lo;
    while i < hi
        invariant
            lo <= start <= i <= hi <= v@.len(),
            s == v@.subrange(lo as int, hi as int),
            ranges_cover(v@, r@, split_acc(s.take(i - lo), c).0),
            forall|k: int| 0 <= k < r@.len() ==> lo <= (#[trigger] r@[k]).0,
            forall|k: int| 0 <= k < r@.len() ==> (#[trigger] r@[k]).1 <= hi,
            split_acc(s.take(i - lo), c).1 == v@.subrange(start as int, i as int),
        decreases hi - i,
    {
        assert(s.take(i + 1 - lo).drop_last() =~= s.take(i - lo));
        assert(s.take(i + 1 - lo).last() == v@[i as int]);
        if v[i] == c {
            r.push((start, i));
            start = i + 1;
        } else {
            assert(v@.subrange(start as int, i + 1) =~= v@.subrange(start as int, i as int).push(
                v@[i as int],
            ));
        }
        i = i + 1;
    }
    assert(s.take(hi - lo) =~= s);
    r.push((start, hi));
    r
}

/// Ranges of the whitespace-separated words of `v[lo..hi]`.
pub fn word_ranges(v: &Vec<char>, lo: usize, hi: usize) -> (r: Vec<(usize, usize)>)
    requires
        lo <= hi <= v@.len(),
    ensures
        ranges_cover(v@, r@, words_of(v@.subrange(lo as int, hi as int))),
{
    let ghost s = v@.subrange(lo as int, hi as int);
    let mut r: Vec<(usize, usize)> = Vec::new();
    let mut start: usize = lo;
    let mut i: usize = lo;
    while i < hi
        invariant
            lo <= start <= i <= hi <= v@.len(),
            s == v@.subrange(lo as int, hi as int),
            ranges_cover(v@, r@, words_acc(s.take(i - lo)).0),
            words_acc(s.take(i - lo)).1 == v@.subrange(start as int, i as int),
        decreases hi - i,
    {
        assert(s.take(i + 1 - lo).drop_last() =~= s.take(i - lo));
        assert(s.take(i + 1 - lo).last() == v@[i as int]);
        if is_whitespace(v[i]) {
            if start < i {
                r.push((start, i));
            }
            start = i + 1;
            assert(v@.subrange(start as int, i + 1) =~= Seq::<char>::empty());
        } else {
            assert(v@.subrange(start as int, i + 1) =~= v@.subrange(start as int, i as int).push(
                v@[i as int],
            ));
        }
        i = i + 1;
    }
    assert(s.take(hi - lo) =~= s);
    if start < hi {
        r.push((start, hi));
    }
    r
}

/// Start of `strip_all_prefix(v[lo..hi], p)` within `v`.
pub fn strip_all_prefix_range(v: &Vec<char>, lo: usize, hi: usize, p: &Vec<char>) -> (r: usize)
    requires
        lo <= hi <= v@.len(),
    ensures
        lo <= r <= hi,
        v@.subrange(r as int, hi as int) == strip_all_prefix(v@.subrange(lo as int, hi as int), p@),
{
    let mut i = lo;
    while p.len() > 0 && range_has_prefix(v, i, hi, p)
        invariant
            lo <= i <= hi <= v@.len(),
            strip_all_prefix(v@.subrange(lo as int, hi as int), p@) == strip_all_prefix(
                v@.subrange(i as int, hi as int),
                p@,
            ),
        decreases hi - i,
    {
        assert(v@.subrange(i as int, hi as int).skip(p@.len() as int) =~= v@.subrange(
            i + p@.len(),
            hi as int,
        ));
        i = i + p.len();
    }
    i
}

/// A found position lies within the sequence.
pub proof fn lemma_find_seq_bounds(s: Seq<char>, p: Seq<char>)
    ensures
        find_seq(s, p) matches Some(k) ==> 0 <= k && k + p.len() <= s.len() && s.subrange(
            k,
            k + p.len(),
        ) == p,
    decreases s.len(),
{
    if p.len() > s.len() {
    } else if has_prefix(s, p) {
        assert(s.subrange(0, p.len() as int) =~= s.take(p.len() as int));
    } else if s.len() == 0 {
    } else {
        lemma_find_seq_bounds(s.drop_first(), p);
        if let Some(k) = find_seq(s.drop_first(), p) {
            assert(s.subrange(k + 1, k + 1 + p.len()) =~= s.drop_first().subrange(k, k + p.len()));
        }
    }
}

/// Position (within `v`) of the first occurrence of `p` in `v[lo..hi]`.
pub fn find_in_range(v: &Vec<char>, lo: usize, hi: usize, p: &Vec<char>) -> (r: Option<usize>)
    requires
        lo <= hi <= v@.len(),
    ensures
        match find_seq(v@.subrange(lo as int, hi as int), p@) {
            Some(k) => 0 <= k && k + p@.len() <= hi - lo && r == Some((lo + k) as usize),
            None => r is None,
        },
        r matches Some(k) ==> lo <= k && k + p@.len() <= hi,
{
    proof {
        lemma_find_seq_bounds(v@.subrange(lo as int, hi as int), p@);
    }
    let mut i = lo;
    loop
        invariant
            lo <= i <= hi <= v@.len(),
            match find_seq(v@.subrange(lo as int, hi as int), p@) {
                Some(k) => match find_seq(v@.subrange(i as int, hi as int), p@) {
                    Some(k2) => k == k2 + (i - lo),
                    None => false,
                },
                None => find_seq(v@.subrange(i as int, hi as int), p@) is None,
            },
        decreases hi - i,
    {
        if p.len() > hi - i {
            return None;
        }
        if range_has_prefix(v, i, hi, p) {
            return Some(i);
        }
        assert(i < hi) by {
            if i == hi {
                assert(v@.subrange(i as int, hi as int).take(0) =~= p@);
            }
        }
        assert(v@.subrange(i as int, hi as int).drop_first() =~= v@.subrange(i + 1, hi as int));
        i = i + 1;
    }
}

/// Whether `c` is an ASCII decimal digit.
pub open spec fn is_digit(c: char) -> bool {
    '0' <= c && c <= '9'
}

/// Decimal value of a digit string.
pub open spec fn digits_val(s: Seq<char>) -> int
    decreases s.len(),
{
    if s.len() == 0 {
        0
    } else {
        digits_val(s.drop_last()) * 10 + (s.last() as int - '0' as int)
    }
}

/// Whether every character of `d` is a decimal digit.
pub open spec fn all_digits(d: Seq<char>) -> bool {
    forall|i: int| 0 <= i < d.len() ==> is_digit(#[trigger] d[i])
}

/// `s` without one leading `+`.
pub open spec fn unsigned_part(s: Seq<char>) -> Seq<char> {
    if s.len() > 0 && s[0] == '+' {
        s.drop_first()
    } else {
        s
    }
}

/// `str::parse::<u32>`: an optional `+`, then one or more decimal digits
/// whose value fits in a `u32`.
pub open spec fn parse_u32_spec(s: Seq<char>) -> Option<u32> {
    let d = unsigned_part(s);
    if d.len() > 0 && all_digits(d) && digits_val(d) <= u32::MAX {
        Some(digits_val(d) as u32)
    } else {
        None
    }
}

proof fn lemma_digits_val_nonneg(s: Seq<char>)
    requires
        forall|i: int| 0 <= i < s.len() ==> is_digit(#[trigger] s[i]),
    ensures
        digits_val(s) >= 0,
    decreases s.len(),
{
    if s.len() > 0 {
        lemma_digits_val_nonneg(s.drop_last());
        assert(is_digit(s[s.len() - 1]));
    }
}

proof fn lemma_digits_val_prefix(s: Seq<char>, k: int)
    requires
        0 <= k <= s.len(),
        forall|i: int| 0 <= i < s.len() ==> is_digit(#[trigger] s[i]),
    ensures
        digits_val(s.take(k)) <= digits_val(s),
    decreases s.len() - k,
{
    if k < s.len() {
        lemma_digits_val_prefix(s, k + 1);
        let t = s.take(k + 1);
        assert(t.drop_last() =~= s.take(k));
        assert(is_digit(s[k]));
        lemma_digits_val_nonneg(s.take(k));
    } else {
        assert(s.take(k) =~= s);
    }
}

/// `v[lo..hi].parse::<u32>()`.
pub fn parse_u32_range(v: &Vec<char>, lo: usize, hi: usize) -> (r: Option<u32>)
    requires
        lo <= hi <= v@.len(),
    ensures
        r == parse_u32_spec(v@.subrange(lo as int, hi as int)),
{
    let ghost s = v@.subrange(lo as int, hi as int);
    let mut start = lo;
    if hi > lo && v[lo] == '+' {
        start = lo + 1;
    }
    let ghost d = v@.subrange(start as int, hi as int);
    assert(d == unsigned_part(s)) by {
        if hi > lo && v@[lo as int] == '+' {
            assert(s.drop_first() =~= d);
        } else {
            assert(s =~= d);
        }
    }
    if start == hi {
        return None;
    }
    let mut acc: u64 = 0;
    let mut i = start;
    while i < hi
        invariant
            lo <= start <= i <= hi <= v@.len(),
            d == v@.subrange(start as int, hi as int),
            s == v@.subrange(lo as int, hi as int),
            d == unsigned_part(s),
            forall|t: int| 0 <= t < i - start ==> is_digit(#[trigger] d[t]),
            acc == digits_val(d.take(i - start)),
            acc <= u32::MAX,
        decreases hi - i,
    {
        let c = v[i];
        if !('0' <= c && c <= '9') {
            assert(!is_digit(d[i - start]));
            return None;
        }
        assert(d.take(i + 1 - start).drop_last() =~= d.take(i - start));
        assert(d.take(i + 1 - start).last() == c);
        assert(d[i - start] == c);
        let digit = (c as u32 - '0' as u32) as u64;
        acc = acc * 10 + digit;
        i = i + 1;
        if acc > 0xffff_ffff {
            proof {
                if all_digits(d) {
                    lemma_digits_val_prefix(d, i - start);
                }
            }
            return None;
        }
    }
    assert(d.take(hi - start) =~= d);
    Some(acc as u32)
}

/// Code-point lexicographic order on character sequences; it agrees with
/// the byte order `Ord for String` uses, since UTF-8 preserves code-point order.
pub open spec fn lex_lt(a: Seq<char>, b: Seq<char>) -> bool
    decreases a.len(),
{
    if b.len() == 0 {
        false
    } else if a.len() == 0 {
        true
    } else if a[0] != b[0] {
        a[0] < b[0]
    } else {
        lex_lt(a.drop_first(), b.drop_first())
    }
}

/// No sequence precedes itself.
pub proof fn lemma_lex_irreflexive(a: Seq<char>)
    ensures
        !lex_lt(a, a),
    decreases a.len(),
{
    if a.len() > 0 {
        lemma_lex_irreflexive(a.drop_first());
    }
}

/// The order is transitive.
pub proof fn lemma_lex_transitive(a: Seq<char>, b: Seq<char>, c: Seq<char>)
    requires
        lex_lt(a, b),
        lex_lt(b, c),
    ensures
        lex_lt(a, c),
    decreases a.len(),
{
    if a.len() > 0 && b.len() > 0 && c.len() > 0 {
        if a[0] == b[0] && b[0] == c[0] {
            lemma_lex_transitive(a.drop_first(), b.drop_first(), c.drop_first());
        }
    }
}

/// Two distinct sequences are ordered one way or the other, never both.
pub proof fn lemma_lex_total(a: Seq<char>, b: Seq<char>)
    ensures
        a != b ==> (lex_lt(a, b) || lex_lt(b, a)),
        !(lex_lt(a, b) && lex_lt(b, a)),
    decreases a.len(),
{
    if a.len() > 0 && b.len() > 0 {
        lemma_lex_total(a.drop_first(), b.drop_first());
        if a[0] == b[0] && a != b {
            assert(a =~= seq![a[0]] + a.drop_first());
            assert(b =~= seq![b[0]] + b.drop_first());
        }
    } else if a.len() == 0 && b.len() == 0 {
        assert(a =~= b);
    }
}

/// `a < b` in code-point lexicographic order.
pub fn lex_less(a: &Vec<char>, b: &Vec<char>) -> (r: bool)
    ensures
        r == lex_lt(a@, b@),
{
    let mut i: usize = 0;
    assert(a@.skip(0) =~= a@);
    assert(b@.skip(0) =~= b@);
    while i < a.len() && i < b.len() && a[i] == b[i]
        invariant
            i <= a@.len(),
            i <= b@.len(),
            lex_lt(a@, b@) == lex_lt(a@.skip(i as int), b@.skip(i as int)),
        decreases a@.len() - i,
    {
        assert(a@.skip(i as int).drop_first() =~= a@.skip(i + 1));
        assert(b@.skip(i as int).drop_first() =~= b@.skip(i + 1));
        i = i + 1;
    }
    if i == b.len() {
        false
    } else if i == a.len() {
        true
    } else {
        a[i] < b[i]
    }
}

/// Whether `c` has the Unicode `Alphabetic` or `Numeric` property, as
/// `char::is_alphanumeric` decides.
pub uninterp spec fn is_alnum(c: char) -> bool;

/// `char::is_alphanumeric`. Claimed of std: the result depends on `c` alone,
/// and within ASCII exactly the letters and digits qualify (what std documents:
/// `is_alphabetic() || is_numeric()`); outside ASCII nothing more is stated.
#[verifier::external_body]
pub(crate) fn is_alphanumeric(c: char) -> (b: bool)
    ensures
        b == is_alnum(c),
        (c as u32) < 128 ==> (b <==> (('a' <= c && c <= 'z') || ('A' <= c && c <= 'Z') || (
        '0' <= c && c <= '9'))),
{
    c.is_alphanumeric()
}

/// A character that may continue an identifier.
pub open spec fn is_ident_char(c: char) -> bool {
    is_alnum(c) || c == '_'
}

/// The longest prefix of `s` made of identifier characters.
pub open spec fn ident_prefix(s: Seq<char>) -> Seq<char>
    decreases s.len(),
{
    if s.len() > 0 && is_ident_char(s[0]) {
        seq![s[0]] + ident_prefix(s.drop_first())
    } else {
        seq![]
    }
}

/// End (within `v`) of the identifier prefix of `v[lo..hi]`.
pub fn ident_prefix_end(v: &Vec<char>, lo: usize, hi: usize) -> (r: usize)
    requires
        lo <= hi <= v@.len(),
    ensures
        lo <= r <= hi,
        v@.subrange(lo as int, r as int) == ident_prefix(v@.subrange(lo as int, hi as int)),
{
    let mut i = lo;
    while i < hi && (is_alphanumeric(v[i]) || v[i] == '_')
        invariant
            lo <= i <= hi <= v@.len(),
            ident_prefix(v@.subrange(lo as int, hi as int)) == v@.subrange(lo as int, i as int)
                + ident_prefix(v@.subrange(i as int, hi as int)),
        decreases hi - i,
    {
        let ghost t = v@.subrange(i as int, hi as int);
        assert(t.drop_first() =~= v@.subrange(i + 1, hi as int));
        assert(t[0] == v@[i as int]);
        assert(v@.subrange(lo as int, i + 1) =~= v@.subrange(lo as int, i as int) + seq![v@[i as int]]);
        i = i + 1;
    }
    proof {
        let t = v@.subrange(i as int, hi as int);
        if i < hi {
            assert(t[0] == v@[i as int]);
        }
        assert(ident_prefix(t) =~= Seq::<char>::empty());
        assert(v@.subrange(lo as int, i as int) + Seq::<char>::empty() =~= v@.subrange(lo as int, i as int));
    }
    i
}

/// ASCII lowercase of a character (`char::to_ascii_lowercase`).
pub open spec fn ascii_lower(c: char) -> char {
    if 'A' <= c && c <= 'Z' {
        ((c as u8) + 32) as char
    } else {
        c
    }
}

/// Lowercases one character in the ASCII range, leaving others unchanged.
pub fn to_ascii_lower(c: char) -> (r: char)
    ensures
        r == ascii_lower(c),
{
    if 'A' <= c && c <= 'Z' {
        ((c as u8) + 32) as char
    } else {
        c
    }
}


/// The Unicode lowercase form of a text, as `str::to_lowercase` produces it.
pub uninterp spec fn lowercase_spec(s: Seq<char>) -> Seq<char>;

/// `str::to_lowercase`. Claimed of std: the result depends on the text
/// alone, and a text made only of ASCII characters is lowercased character
/// by character as ASCII; for other characters nothing more is stated.
#[verifier::external_body]
pub(crate) fn to_lowercase(s: &str) -> (r: String)
    ensures
        r@ == lowercase_spec(s@),
        (forall|i: int| 0 <= i < s@.len() ==> #[trigger] s@[i] <= '\x7f') ==> r@ == s@.map_values(
            |c: char| ascii_lower(c),
        ),
{
    s.to_lowercase()
}

/// The characters `v[lo..hi]`.
pub fn sub_vec(v: &Vec<char>, lo: usize, hi: usize) -> (r: Vec<char>)
    requires
        lo <= hi <= v@.len(),
    ensures
        r@ == v@.subrange(lo as int, hi as int),
{
    let mut r: Vec<char> = Vec::new();
    let mut i = lo;
    while i < hi
        invariant
            lo <= i <= hi <= v@.len(),
            r@ == v@.subrange(lo as int, i as int),
        decreases hi - i,
    {
        r.push(v[i]);
        i = i + 1;
        assert(r@ =~= v@.subrange(lo as int, i as int));
    }
    r
}

/// The part of `v` before the first occurrence of `p`.
pub fn before_first_vec(v: &Vec<char>, p: &Vec<char>) -> (r: Vec<char>)
    ensures
        r@ == before_first(v@, p@),
{
    assert(v@.subrange(0, v@.len() as int) =~= v@);
    match find_in_range(v, 0, v.len(), p) {
        Some(k) => {
            assert(v@.take(k as int) =~= v@.subrange(0, k as int));
            sub_vec(v, 0, k)
        },
        None => sub_vec(v, 0, v.len()),
    }
}

/// `v` trimmed of surrounding whitespace.
pub fn trim_vec(v: &Vec<char>) -> (r: Vec<char>)
    ensures
        r@ == trim(v@),
{
    assert(v@.subrange(0, v@.len() as int) =~= v@);
    let (a, b) = trim_range(v, 0, v.len());
    sub_vec(v, a, b)
}

/// `v` with every leading repetition of `p` removed.
pub fn strip_all_prefix_vec(v: &Vec<char>, p: &Vec<char>) -> (r: Vec<char>)
    ensures
        r@ == strip_all_prefix(v@, p@),
{
    assert(v@.subrange(0, v@.len() as int) =~= v@);
    let a = strip_all_prefix_range(v, 0, v.len(), p);
    sub_vec(v, a, v.len())
}

} // verus!

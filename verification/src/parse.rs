//! Parsing the textual output of the external control tools.
//!
//! The daemons never trust a cached value: after every command they run
//! the external status query and read the fresh level (and mute flag) out
//! of its raw output bytes. The scanners here are the pure half of those
//! queries; running the tools and capturing their output stays outside.

use vstd::prelude::*;

verus! {

/// ASCII decimal digit.
pub open spec fn is_digit(b: u8) -> bool {
    0x30 <= b <= 0x39
}

/// Every byte is a decimal digit.
pub open spec fn all_digits(s: Seq<u8>) -> bool {
    forall|i: int| 0 <= i < s.len() ==> is_digit(#[trigger] s[i])
}

/// Value of a digit string, most significant digit first.
pub open spec fn dec_val(s: Seq<u8>) -> int
    decreases s.len(),
{
    if s.len() == 0 {
        0
    } else {
        dec_val(s.drop_last()) * 10 + (s.last() - 0x30)
    }
}

/// A digit string's value is never negative.
pub proof fn lemma_dec_val_nonneg(s: Seq<u8>)
    requires
        all_digits(s),
    ensures
        dec_val(s) >= 0,
    decreases s.len(),
{
    if s.len() > 0 {
        assert(is_digit(s[s.len() - 1]));
        lemma_dec_val_nonneg(s.drop_last());
    }
}

/// Extending a digit string on the right never shrinks its value.
pub proof fn lemma_dec_val_prefix(s: Seq<u8>, i: int)
    requires
        all_digits(s),
        0 <= i <= s.len(),
    ensures
        dec_val(s.take(i)) <= dec_val(s),
    decreases s.len() - i,
{
    if i < s.len() {
        lemma_dec_val_prefix(s, i + 1);
        assert(s.take(i + 1).drop_last() =~= s.take(i));
        assert(s.take(i + 1).last() == s[i]);
        assert(is_digit(s[i]));
        lemma_dec_val_nonneg(s.take(i));
    } else {
        assert(s.take(i) =~= s);
    }
}

/// Reads an unsigned decimal number from `s[start..]`.
///
/// Succeeds exactly when that whole tail is one or more digits whose value
/// fits in a `u64`, and then returns that value.
pub fn parse_u64_from(s: &[u8], start: usize) -> (r: Option<u64>)
    requires
        start <= s@.len(),
    ensures
        ({
            let t = s@.skip(start as int);
            match r {
                Some(v) => t.len() > 0 && all_digits(t) && dec_val(t) <= u64::MAX && v == dec_val(
                    t,
                ),
                None => t.len() == 0 || !all_digits(t) || dec_val(t) > u64::MAX,
            }
        }),
{
    let ghost t = s@.skip(start as int);
    let n = s.len();
    if start >= n {
        return None;
    }
    let mut i: usize = start;
    let mut acc: u64 = 0;
    while i < n
        invariant
            start <= i <= n,
            n == s@.len(),
            t == s@.skip(start as int),
            all_digits(t.take(i - start)),
            acc == dec_val(t.take(i - start)),
        decreases n - i,
    {
        let b = s[i];
        proof {
            assert(t[i - start] == b);
        }
        if b < 0x30 || b > 0x39 {
            proof {
                assert(!is_digit(t[i - start]));
            }
            return None;
        }
        let d = (b - 0x30) as u64;
        proof {
            assert(t.take(i - start + 1).drop_last() =~= t.take(i - start));
            assert(t.take(i - start + 1).last() == t[i - start]);
            assert(dec_val(t.take(i - start + 1)) == acc * 10 + d);
        }
        let limit = (u64::MAX - d) / 10;
        if acc > limit {
            proof {
                assert(acc * 10 + d > u64::MAX) by {
                    assert(acc >= limit + 1);
                    assert(limit * 10 <= u64::MAX - d < limit * 10 + 10);
                    assert(acc * 10 >= (limit + 1) * 10) by (nonlinear_arith)
                        requires
                            acc >= limit + 1,
                    ;
                }
                if all_digits(t) {
                    lemma_dec_val_prefix(t, i - start + 1);
                }
            }
            return None;
        }
        proof {
            assert(acc * 10 + d <= u64::MAX) by {
                assert(acc <= limit);
                assert(acc * 10 <= limit * 10) by (nonlinear_arith)
                    requires
                        acc <= limit,
                ;
                assert(limit * 10 <= u64::MAX - d);
            }
        }
        acc = acc * 10 + d;
        i = i + 1;
    }
    proof {
        assert(t.take(i - start) =~= t);
    }
    Some(acc)
}

/// The digits of a decimal literal, a leading sign stripped.
pub open spec fn digits_part(s: Seq<u8>) -> Seq<u8> {
    if s.len() > 0 && (s[0] == 0x2b || s[0] == 0x2d) {
        s.skip(1)
    } else {
        s
    }
}

/// The literal starts with a minus sign.
pub open spec fn has_minus(s: Seq<u8>) -> bool {
    s.len() > 0 && s[0] == 0x2d
}

/// `s` is an optionally signed decimal literal whose value fits in `i64`.
pub open spec fn i64_parsable(s: Seq<u8>) -> bool {
    let d = digits_part(s);
    &&& d.len() > 0
    &&& all_digits(d)
    &&& (if has_minus(s) {
        dec_val(d) <= 0x8000_0000_0000_0000
    } else {
        dec_val(d) <= 0x7fff_ffff_ffff_ffff
    })
}

/// Value of an optionally signed decimal literal.
pub open spec fn parsed_i64(s: Seq<u8>) -> int {
    if has_minus(s) {
        -dec_val(digits_part(s))
    } else {
        dec_val(digits_part(s))
    }
}

/// Reads an optionally signed decimal number, the way the daemons read a
/// level out of a tool's output field.
///
/// Succeeds exactly when `s` is an optional `+` or `-` sign followed by
/// one or more digits, with a value in `i64`'s range.
pub fn parse_i64_decimal(s: &[u8]) -> (r: Option<i64>)
    ensures
        match r {
            Some(v) => i64_parsable(s@) && v as int == parsed_i64(s@),
            None => !i64_parsable(s@),
        },
{
    if s.len() == 0 {
        return None;
    }
    let b0 = s[0];
    let neg = b0 == 0x2d;
    let start: usize = if b0 == 0x2d || b0 == 0x2b {
        1
    } else {
        0
    };
    proof {
        assert(digits_part(s@) =~= s@.skip(start as int));
    }
    match parse_u64_from(s, start) {
        None => None,
        Some(mag) => {
            if neg {
                if mag == 0x8000_0000_0000_0000u64 {
                    Some(i64::MIN)
                } else if mag < 0x8000_0000_0000_0000u64 {
                    Some(-(mag as i64))
                } else {
                    None
                }
            } else {
                if mag <= 0x7fff_ffff_ffff_ffffu64 {
                    Some(mag as i64)
                } else {
                    None
                }
            }
        },
    }
}

/// How often byte `b` occurs in `s`.
pub open spec fn count_byte(s: Seq<u8>, b: u8) -> int
    decreases s.len(),
{
    if s.len() == 0 {
        0
    } else {
        count_byte(s.drop_last(), b) + if s.last() == b {
            1int
        } else {
            0int
        }
    }
}

/// Occurrence counts are never negative.
pub proof fn lemma_count_byte_nonneg(s: Seq<u8>, b: u8)
    ensures
        count_byte(s, b) >= 0,
    decreases s.len(),
{
    if s.len() > 0 {
        lemma_count_byte_nonneg(s.drop_last(), b);
    }
}

/// Occurrence counts add up over concatenation.
pub proof fn lemma_count_byte_concat(x: Seq<u8>, y: Seq<u8>, b: u8)
    ensures
        count_byte(x + y, b) == count_byte(x, b) + count_byte(y, b),
    decreases y.len(),
{
    if y.len() == 0 {
        assert((x + y) =~= x);
    } else {
        lemma_count_byte_concat(x, y.drop_last(), b);
        assert((x + y).drop_last() =~= x + y.drop_last());
        assert((x + y).last() == y.last());
    }
}

/// A prefix never holds more occurrences than the whole sequence.
pub proof fn lemma_count_byte_take_le(s: Seq<u8>, b: u8, i: int)
    requires
        0 <= i <= s.len(),
    ensures
        0 <= count_byte(s.take(i), b) <= count_byte(s, b),
{
    assert(s =~= s.take(i) + s.skip(i));
    lemma_count_byte_concat(s.take(i), s.skip(i), b);
    lemma_count_byte_nonneg(s.take(i), b);
    lemma_count_byte_nonneg(s.skip(i), b);
}

/// An occurrence at index `i` makes the count positive.
pub proof fn lemma_count_byte_pos(s: Seq<u8>, b: u8, i: int)
    requires
        0 <= i < s.len(),
        s[i] == b,
    ensures
        count_byte(s, b) >= 1,
    decreases s.len(),
{
    if i == s.len() - 1 {
        lemma_count_byte_nonneg(s.drop_last(), b);
    } else {
        lemma_count_byte_pos(s.drop_last(), b, i);
    }
}

/// `s[a..e]` is the comma-separated field with index `k` of `s`: it sits
/// right after the `k`-th comma, runs to the next comma or the end, and
/// holds no comma itself.
pub open spec fn comma_field_at(s: Seq<u8>, k: int, a: int, e: int) -> bool {
    &&& 0 <= a <= e <= s.len()
    &&& count_byte(s.take(a), 0x2c) == k
    &&& (a == 0 || s[a - 1] == 0x2c)
    &&& (e == s.len() || s[e] == 0x2c)
    &&& (forall|i: int| a <= i < e ==> s[i] != 0x2c)
}

/// A field index picks out at most one range.
pub proof fn lemma_comma_field_unique(s: Seq<u8>, k: int, a1: int, e1: int, a2: int, e2: int)
    requires
        comma_field_at(s, k, a1, e1),
        comma_field_at(s, k, a2, e2),
    ensures
        a1 == a2,
        e1 == e2,
{
    assert(a1 == a2) by {
        if a1 < a2 {
            assert(s.take(a2) =~= s.take(a1) + s.take(a2).skip(a1));
            lemma_count_byte_concat(s.take(a1), s.take(a2).skip(a1), 0x2c);
            lemma_count_byte_pos(s.take(a2).skip(a1), 0x2c, a2 - 1 - a1);
        }
        if a2 < a1 {
            assert(s.take(a1) =~= s.take(a2) + s.take(a1).skip(a2));
            lemma_count_byte_concat(s.take(a2), s.take(a1).skip(a2), 0x2c);
            lemma_count_byte_pos(s.take(a1).skip(a2), 0x2c, a1 - 1 - a2);
        }
    }
    assert(e1 == e2) by {
        if e1 < e2 {
            assert(s[e1] != 0x2c);
        }
        if e2 < e1 {
            assert(s[e2] != 0x2c);
        }
    }
}

/// Finds the bounds of comma-separated field `k`, which exist exactly
/// when `s` holds at least `k` commas.
pub fn comma_field(s: &[u8], k: usize) -> (r: Option<(usize, usize)>)
    ensures
        match r {
            Some(bounds) => comma_field_at(s@, k as int, bounds.0 as int, bounds.1 as int),
            None => forall|a: int, e: int| !comma_field_at(s@, k as int, a, e),
        },
{
    let n = s.len();
    let mut p: usize = 0;
    let mut seen: usize = 0;
    while p < n && seen < k
        invariant
            p <= n,
            seen <= k,
            n == s@.len(),
            count_byte(s@.take(p as int), 0x2c) == seen,
            seen == k ==> (p == 0 || s@[p as int - 1] == 0x2c),
        decreases n - p,
    {
        proof {
            assert(s@.take(p + 1).drop_last() =~= s@.take(p as int));
            assert(s@.take(p + 1).last() == s@[p as int]);
        }
        if s[p] == 0x2c {
            seen = seen + 1;
        }
        p = p + 1;
    }
    if seen < k {
        proof {
            assert(s@.take(n as int) =~= s@);
            assert forall|a: int, e: int| !comma_field_at(s@, k as int, a, e) by {
                if comma_field_at(s@, k as int, a, e) {
                    lemma_count_byte_take_le(s@, 0x2c, a);
                }
            }
        }
        return None;
    }
    let a = p;
    let mut e = a;
    while e < n && s[e] != 0x2c
        invariant
            a <= e <= n,
            n == s@.len(),
            forall|i: int| a <= i < e ==> s@[i] != 0x2c,
        decreases n - e,
    {
        e = e + 1;
    }
    Some((a, e))
}

/// `s` with every percent sign removed, the way a `%` suffix (or any
/// stray `%`) is dropped before a field is parsed as a number.
pub open spec fn depercent(s: Seq<u8>) -> Seq<u8> {
    s.filter(|b: u8| b != 0x25)
}

/// Copies `s[a..e]`, leaving every percent sign out.
pub fn strip_percents_range(s: &[u8], a: usize, e: usize) -> (r: Vec<u8>)
    requires
        a <= e <= s@.len(),
    ensures
        r@ == depercent(s@.subrange(a as int, e as int)),
{
    let mut r: Vec<u8> = Vec::new();
    let mut i: usize = a;
    proof {
        reveal(Seq::filter);
        assert(s@.subrange(a as int, a as int) =~= Seq::<u8>::empty());
    }
    while i < e
        invariant
            a <= i <= e <= s@.len(),
            r@ == depercent(s@.subrange(a as int, i as int)),
        decreases e - i,
    {
        proof {
            reveal(Seq::filter);
            assert(s@.subrange(a as int, i + 1).drop_last() =~= s@.subrange(a as int, i as int));
            assert(s@.subrange(a as int, i + 1).last() == s@[i as int]);
        }
        let b = s[i];
        if b != 0x25 {
            r.push(b);
        }
        i = i + 1;
    }
    r
}

/// Reads the level out of the brightness tool's machine-readable status
/// output: the comma-separated field with index 3, every percent sign
/// removed, read as a decimal integer.
pub fn parse_brightness_level(out: &[u8]) -> (r: Option<i64>)
    ensures
        match r {
            Some(v) => exists|a: int, e: int|
                #[trigger] comma_field_at(out@, 3, a, e) && i64_parsable(
                    depercent(out@.subrange(a, e)),
                ) && v as int == parsed_i64(depercent(out@.subrange(a, e))),
            None => forall|a: int, e: int|
                #[trigger] comma_field_at(out@, 3, a, e) ==> !i64_parsable(
                    depercent(out@.subrange(a, e)),
                ),
        },
{
    match comma_field(out, 3) {
        None => None,
        Some(bounds) => {
            let digits = strip_percents_range(out, bounds.0, bounds.1);
            let parsed = parse_i64_decimal(digits.as_slice());
            proof {
                if parsed is None {
                    assert forall|a: int, e: int|
                        #[trigger] comma_field_at(out@, 3, a, e) implies !i64_parsable(
                        depercent(out@.subrange(a, e)),
                    ) by {
                        lemma_comma_field_unique(
                            out@,
                            3,
                            a,
                            e,
                            bounds.0 as int,
                            bounds.1 as int,
                        );
                    }
                }
            }
            parsed
        },
    }
}

/// `n` occurs in `h` starting at index `i`.
pub open spec fn contains_at(h: Seq<u8>, n: Seq<u8>, i: int) -> bool {
    0 <= i && i + n.len() <= h.len() && h.subrange(i, i + n.len() as int) == n
}

/// `n` occurs somewhere in `h`.
pub open spec fn contains_seq(h: Seq<u8>, n: Seq<u8>) -> bool {
    exists|i: int| contains_at(h, n, i)
}

/// Compares `needle` against `s` at absolute position `pos`.
fn match_at(s: &[u8], pos: usize, needle: &[u8]) -> (r: bool)
    requires
        pos + needle@.len() <= s@.len(),
    ensures
        r == (s@.subrange(pos as int, pos as int + needle@.len() as int) == needle@),
{
    let m = needle.len();
    let n = s.len();
    let ghost w = s@.subrange(pos as int, pos as int + needle@.len() as int);
    let mut j: usize = 0;
    while j < m
        invariant
            j <= m == needle@.len(),
            pos + m <= n == s@.len(),
            w == s@.subrange(pos as int, pos as int + m as int),
            forall|q: int| 0 <= q < j ==> w[q] == needle@[q],
        decreases m - j,
    {
        if s[pos + j] != needle[j] {
            proof {
                assert(w[j as int] != needle@[j as int]);
            }
            return false;
        }
        j = j + 1;
    }
    proof {
        assert(w =~= needle@);
    }
    true
}

/// Decides whether `needle` occurs in `s[a..e]`.
pub fn contains_in_range(s: &[u8], a: usize, e: usize, needle: &[u8]) -> (r: bool)
    requires
        a <= e <= s@.len(),
    ensures
        r == contains_seq(s@.subrange(a as int, e as int), needle@),
{
    let ghost h = s@.subrange(a as int, e as int);
    let m = needle.len();
    let n = s.len();
    if m > e - a {
        proof {
            assert forall|i: int| !contains_at(h, needle@, i) by {}
        }
        return false;
    }
    if m == 0 {
        proof {
            assert(h.subrange(0, 0) =~= needle@);
            assert(contains_at(h, needle@, 0));
        }
        return true;
    }
    let mut i: usize = 0;
    while i <= (e - a) - m
        invariant
            a <= e <= n == s@.len(),
            1 <= m == needle@.len() <= e - a,
            h == s@.subrange(a as int, e as int),
            i <= (e - a) - m + 1,
            forall|q: int| 0 <= q < i ==> !contains_at(h, needle@, q),
        decreases (e - a) - m - i + 1,
    {
        proof {
            assert(h.subrange(i as int, i + m as int) =~= s@.subrange(
                a + i as int,
                a + i + m as int,
            ));
        }
        if match_at(s, a + i, needle) {
            proof {
                assert(contains_at(h, needle@, i as int));
            }
            return true;
        }
        i = i + 1;
    }
    proof {
        assert forall|q: int| !contains_at(h, needle@, q) by {
            if q >= i {
                assert(q + m > h.len());
            }
        }
    }
    false
}

/// `s[a..e]` is one whole line of `s`: it is bounded by newlines (or the
/// ends of `s`) and holds no newline itself.
pub open spec fn is_line_at(s: Seq<u8>, a: int, e: int) -> bool {
    &&& 0 <= a <= e <= s.len()
    &&& (a == 0 || s[a - 1] == 0x0a)
    &&& (e == s.len() || s[e] == 0x0a)
    &&& (forall|i: int| a <= i < e ==> s[i] != 0x0a)
}

/// `s[a..e]` is the topmost line of `s` in which `needle` occurs.
pub open spec fn first_line_with_at(s: Seq<u8>, needle: Seq<u8>, a: int, e: int) -> bool {
    &&& is_line_at(s, a, e)
    &&& contains_seq(s.subrange(a, e), needle)
    &&& (forall|a2: int, e2: int|
        #[trigger] is_line_at(s, a2, e2) && a2 < a ==> !contains_seq(s.subrange(a2, e2), needle))
}

/// No line of `s` holds `needle`.
pub open spec fn no_line_with(s: Seq<u8>, needle: Seq<u8>) -> bool {
    forall|a: int, e: int|
        #[trigger] is_line_at(s, a, e) ==> !contains_seq(s.subrange(a, e), needle)
}

/// There is at most one topmost line holding `needle`.
pub proof fn lemma_first_line_unique(s: Seq<u8>, needle: Seq<u8>, a1: int, e1: int, a2: int, e2: int)
    requires
        first_line_with_at(s, needle, a1, e1),
        first_line_with_at(s, needle, a2, e2),
    ensures
        a1 == a2,
        e1 == e2,
{
    assert(a1 == a2) by {
        if a1 < a2 {
            assert(is_line_at(s, a1, e1) && a1 < a2);
        }
        if a2 < a1 {
            assert(is_line_at(s, a2, e2) && a2 < a1);
        }
    }
    assert(e1 == e2) by {
        if e1 < e2 {
            assert(s[e1] != 0x0a);
        }
        if e2 < e1 {
            assert(s[e2] != 0x0a);
        }
    }
}

/// Finds the topmost line in which `needle` occurs, scanning whole lines
/// from the top the way the status output is searched for its marker.
pub fn find_line_with(s: &[u8], needle: &[u8]) -> (r: Option<(usize, usize)>)
    ensures
        match r {
            Some(b) => first_line_with_at(s@, needle@, b.0 as int, b.1 as int),
            None => no_line_with(s@, needle@),
        },
{
    let n = s.len();
    let mut cur: usize = 0;
    loop
        invariant
            cur <= n == s@.len(),
            cur == 0 || s@[cur - 1] == 0x0a,
            forall|a: int, e: int|
                #[trigger] is_line_at(s@, a, e) && a < cur ==> !contains_seq(
                    s@.subrange(a, e),
                    needle@,
                ),
        decreases n - cur,
    {
        let mut le: usize = cur;
        while le < n && s[le] != 0x0a
            invariant
                cur <= le <= n == s@.len(),
                forall|i: int| cur <= i < le ==> s@[i] != 0x0a,
            decreases n - le,
        {
            le = le + 1;
        }
        assert(is_line_at(s@, cur as int, le as int));
        if contains_in_range(s, cur, le, needle) {
            return Some((cur, le));
        }
        proof {
            assert forall|a: int, e: int|
                #[trigger] is_line_at(s@, a, e) && a < le + 1 implies !contains_seq(
                s@.subrange(a, e),
                needle@,
            ) by {
                if a >= cur {
                    assert(a == cur) by {
                        if a > cur {
                            assert(s@[a - 1] == 0x0a);
                        }
                    }
                    assert(e == le) by {
                        if e < le {
                            assert(s@[e as int] != 0x0a);
                        }
                        if e > le {
                            assert(le < n ==> s@[le as int] == 0x0a);
                            assert(e <= n);
                        }
                    }
                }
            }
        }
        if le == n {
            proof {
                assert forall|a: int, e: int| #[trigger] is_line_at(s@, a, e) implies !contains_seq(
                    s@.subrange(a, e),
                    needle@,
                ) by {
                    assert(a < le + 1);
                }
            }
            return None;
        }
        cur = le + 1;
    }
}

/// The marker bytes `Mute` searched for in the mixer status listing.
pub open spec fn mute_marker() -> Seq<u8> {
    seq![0x4du8, 0x75u8, 0x74u8, 0x65u8]
}

/// The marker bytes `yes` that flag a muted sink.
pub open spec fn yes_marker() -> Seq<u8> {
    seq![0x79u8, 0x65u8, 0x73u8]
}

/// The marker bytes `Volume` searched for in the mixer status listing.
pub open spec fn volume_marker() -> Seq<u8> {
    seq![0x56u8, 0x6fu8, 0x6cu8, 0x75u8, 0x6du8, 0x65u8]
}

fn mute_needle() -> (r: Vec<u8>)
    ensures
        r@ == mute_marker(),
{
    let mut v: Vec<u8> = Vec::new();
    v.push(0x4d);
    v.push(0x75);
    v.push(0x74);
    v.push(0x65);
    proof {
        assert(v@ =~= mute_marker());
    }
    v
}

fn yes_needle() -> (r: Vec<u8>)
    ensures
        r@ == yes_marker(),
{
    let mut v: Vec<u8> = Vec::new();
    v.push(0x79);
    v.push(0x65);
    v.push(0x73);
    proof {
        assert(v@ =~= yes_marker());
    }
    v
}

fn volume_needle() -> (r: Vec<u8>)
    ensures
        r@ == volume_marker(),
{
    let mut v: Vec<u8> = Vec::new();
    v.push(0x56);
    v.push(0x6f);
    v.push(0x6c);
    v.push(0x75);
    v.push(0x6d);
    v.push(0x65);
    proof {
        assert(v@ =~= volume_marker());
    }
    v
}

/// Reads the mute flag out of the mixer's status listing: the topmost
/// line holding `Mute` decides, and the sink is muted exactly when that
/// line also holds `yes`. Without such a line the sink counts as not
/// muted.
pub fn parse_muted(out: &[u8]) -> (r: bool)
    ensures
        no_line_with(out@, mute_marker()) ==> r == false,
        forall|a: int, e: int|
            #[trigger] first_line_with_at(out@, mute_marker(), a, e) ==> r == contains_seq(
                out@.subrange(a, e),
                yes_marker(),
            ),
{
    let needle = mute_needle();
    match find_line_with(out, needle.as_slice()) {
        None => {
            proof {
                assert forall|a: int, e: int|
                    #[trigger] first_line_with_at(out@, mute_marker(), a, e) implies false by {
                    assert(is_line_at(out@, a, e));
                }
            }
            false
        },
        Some(bounds) => {
            let yes = yes_needle();
            let r = contains_in_range(out, bounds.0, bounds.1, yes.as_slice());
            proof {
                assert forall|a: int, e: int|
                    #[trigger] first_line_with_at(out@, mute_marker(), a, e) implies r
                    == contains_seq(out@.subrange(a, e), yes_marker()) by {
                    lemma_first_line_unique(
                        out@,
                        mute_marker(),
                        a,
                        e,
                        bounds.0 as int,
                        bounds.1 as int,
                    );
                }
            }
            r
        },
    }
}

/// ASCII whitespace: space, tab, line feed, vertical tab, form feed or
/// carriage return.
pub open spec fn is_ws(b: u8) -> bool {
    b == 0x20 || 0x09 <= b <= 0x0d
}

/// A whitespace-separated field starts at `p`: a non-blank byte at the
/// beginning or right after a blank one.
pub open spec fn start_at(t: Seq<u8>, p: int) -> bool {
    &&& 0 <= p < t.len()
    &&& !is_ws(t[p])
    &&& (p == 0 || is_ws(t[p - 1]))
}

/// Number of whitespace-separated fields that start in `t`.
pub open spec fn count_starts(t: Seq<u8>) -> int
    decreases t.len(),
{
    if t.len() == 0 {
        0
    } else {
        count_starts(t.drop_last()) + if start_at(t, t.len() - 1) {
            1int
        } else {
            0int
        }
    }
}

/// One scan step: position `p` adds one to the count exactly when a field
/// starts there.
pub proof fn lemma_count_starts_step(t: Seq<u8>, p: int)
    requires
        0 <= p < t.len(),
    ensures
        count_starts(t.take(p + 1)) == count_starts(t.take(p)) + if start_at(t, p) {
            1int
        } else {
            0int
        },
{
    assert(t.take(p + 1).drop_last() =~= t.take(p));
    assert(t.take(p + 1)[p] == t[p]);
    if p > 0 {
        assert(t.take(p + 1)[p - 1] == t[p - 1]);
    }
    assert(start_at(t.take(p + 1), p) == start_at(t, p));
}

/// Scanning further never loses counted field starts.
pub proof fn lemma_count_starts_monotone(t: Seq<u8>, i: int, j: int)
    requires
        0 <= i <= j <= t.len(),
    ensures
        count_starts(t.take(i)) <= count_starts(t.take(j)),
    decreases j - i,
{
    if i < j {
        lemma_count_starts_monotone(t, i, j - 1);
        lemma_count_starts_step(t, j - 1);
    }
}

/// `t[a..e]` is the whitespace-separated field with index `k` of `t`: a
/// maximal non-blank run preceded by exactly `k` earlier field starts.
pub open spec fn ws_field_at(t: Seq<u8>, k: int, a: int, e: int) -> bool {
    &&& 0 <= a < e <= t.len()
    &&& (a == 0 || is_ws(t[a - 1]))
    &&& (e == t.len() || is_ws(t[e]))
    &&& (forall|i: int| a <= i < e ==> !is_ws(t[i]))
    &&& count_starts(t.take(a)) == k
}

/// A field index picks out at most one whitespace-separated range.
pub proof fn lemma_ws_field_unique(t: Seq<u8>, k: int, a1: int, e1: int, a2: int, e2: int)
    requires
        ws_field_at(t, k, a1, e1),
        ws_field_at(t, k, a2, e2),
    ensures
        a1 == a2,
        e1 == e2,
{
    assert(a1 == a2) by {
        if a1 < a2 {
            assert(start_at(t, a1));
            lemma_count_starts_step(t, a1);
            lemma_count_starts_monotone(t, a1 + 1, a2);
        }
        if a2 < a1 {
            assert(start_at(t, a2));
            lemma_count_starts_step(t, a2);
            lemma_count_starts_monotone(t, a2 + 1, a1);
        }
    }
    assert(e1 == e2) by {
        if e1 < e2 {
            assert(!is_ws(t[e1]));
        }
        if e2 < e1 {
            assert(!is_ws(t[e2]));
        }
    }
}

/// Finds the whitespace-separated field with index `k` inside `s[lo..hi]`,
/// returning absolute bounds.
pub fn ws_field(s: &[u8], lo: usize, hi: usize, k: usize) -> (r: Option<(usize, usize)>)
    requires
        lo <= hi <= s@.len(),
    ensures
        ({
            let t = s@.subrange(lo as int, hi as int);
            match r {
                Some(b) => lo <= b.0 < b.1 <= hi && ws_field_at(
                    t,
                    k as int,
                    b.0 - lo,
                    b.1 - lo,
                ),
                None => forall|a: int, e: int| !ws_field_at(t, k as int, a, e),
            }
        }),
{
    let ghost t = s@.subrange(lo as int, hi as int);
    let n = s.len();
    let mut p: usize = lo;
    let mut seen: usize = 0;
    while p < hi
        invariant
            lo <= p <= hi <= n == s@.len(),
            t == s@.subrange(lo as int, hi as int),
            seen <= k,
            count_starts(t.take(p - lo)) == seen,
            forall|a: int| 0 <= a < p - lo && start_at(t, a) ==> count_starts(t.take(a)) < k,
        decreases hi - p,
    {
        let b = s[p];
        let ws_here = b == 0x20 || (0x09 <= b && b <= 0x0d);
        let prev_ws = if p == lo {
            true
        } else {
            let c = s[p - 1];
            c == 0x20 || (0x09 <= c && c <= 0x0d)
        };
        let starts_here = !ws_here && prev_ws;
        proof {
            assert(t[p - lo] == b);
            if p > lo {
                assert(t[p - lo - 1] == s@[p - 1]);
            }
            lemma_count_starts_step(t, p - lo);
            assert(start_at(t, p - lo) == starts_here);
        }
        if starts_here && seen == k {
            let fa = p;
            let mut fe = p;
            while fe < hi && !(s[fe] == 0x20 || (0x09 <= s[fe] && s[fe] <= 0x0d))
                invariant
                    lo <= fa <= fe <= hi <= n == s@.len(),
                    t == s@.subrange(lo as int, hi as int),
                    forall|i: int| fa - lo <= i < fe - lo ==> !is_ws(t[i]),
                decreases hi - fe,
            {
                proof {
                    assert(t[fe - lo] == s@[fe as int]);
                }
                fe = fe + 1;
            }
            proof {
                assert(fe < n ==> t.len() > fe - lo ==> true);
                assert(fe > fa) by {
                    if fe == fa {
                        assert(!is_ws(t[fa - lo]));
                        assert(fa < hi);
                        assert(t[fa - lo] == s@[fa as int]);
                    }
                }
                if fe < hi {
                    assert(t[fe - lo] == s@[fe as int]);
                    assert(is_ws(t[fe - lo]));
                }
                assert(ws_field_at(t, k as int, fa - lo, fe - lo));
            }
            return Some((fa, fe));
        }
        if starts_here {
            seen = seen + 1;
        }
        p = p + 1;
    }
    proof {
        assert(t.take(p - lo) =~= t);
        assert forall|a: int, e: int| !ws_field_at(t, k as int, a, e) by {
            if ws_field_at(t, k as int, a, e) {
                assert(start_at(t, a));
                assert(a < p - lo);
            }
        }
    }
    None
}

/// The level written in a status line: its whitespace-separated field
/// with index 4, every percent sign removed, read as a decimal integer —
/// if that field exists and parses.
pub open spec fn line_level(line: Seq<u8>) -> Option<int> {
    if exists|fa: int, fe: int| #[trigger] ws_field_at(line, 4, fa, fe) {
        let (fa, fe) = choose|fa: int, fe: int| #[trigger] ws_field_at(line, 4, fa, fe);
        if i64_parsable(depercent(line.subrange(fa, fe))) {
            Some(parsed_i64(depercent(line.subrange(fa, fe))))
        } else {
            None
        }
    } else {
        None
    }
}

/// Reads the volume level out of the mixer's status listing: the topmost
/// line holding `Volume` decides; its field with index 4, percent signs
/// dropped, is the level. Without such a line the level reads as zero;
/// a `Volume` line whose field is missing or malformed reads as nothing.
pub fn parse_volume_level(out: &[u8]) -> (r: Option<i64>)
    ensures
        no_line_with(out@, volume_marker()) ==> r == Some(0i64),
        forall|a: int, e: int|
            #[trigger] first_line_with_at(out@, volume_marker(), a, e) ==> (match r {
                Some(v) => line_level(out@.subrange(a, e)) == Some(v as int),
                None => line_level(out@.subrange(a, e)) is None,
            }),
{
    let needle = volume_needle();
    match find_line_with(out, needle.as_slice()) {
        None => {
            proof {
                assert forall|a: int, e: int|
                    #[trigger] first_line_with_at(out@, volume_marker(), a, e) implies false by {
                    assert(is_line_at(out@, a, e));
                }
            }
            Some(0)
        },
        Some(lb) => {
            let ghost line = out@.subrange(lb.0 as int, lb.1 as int);
            let field = ws_field(out, lb.0, lb.1, 4);
            let r: Option<i64> = match field {
                None => None,
                Some(fb) => {
                    let digits = strip_percents_range(out, fb.0, fb.1);
                    proof {
                        assert(out@.subrange(fb.0 as int, fb.1 as int) =~= line.subrange(
                            fb.0 - lb.0,
                            fb.1 - lb.0,
                        ));
                    }
                    parse_i64_decimal(digits.as_slice())
                },
            };
            proof {
                assert forall|a: int, e: int|
                    #[trigger] first_line_with_at(out@, volume_marker(), a, e) implies (match r {
                    Some(v) => line_level(out@.subrange(a, e)) == Some(v as int),
                    None => line_level(out@.subrange(a, e)) is None,
                }) by {
                    lemma_first_line_unique(
                        out@,
                        volume_marker(),
                        a,
                        e,
                        lb.0 as int,
                        lb.1 as int,
                    );
                    assert(out@.subrange(a, e) == line);
                    match field {
                        None => {
                            assert(line_level(line) is None);
                        },
                        Some(fb) => {
                            assert(ws_field_at(line, 4, fb.0 - lb.0, fb.1 - lb.0));
                            let (ca, ce) = choose|ca: int, ce: int|
                                #[trigger] ws_field_at(line, 4, ca, ce);
                            lemma_ws_field_unique(
                                line,
                                4,
                                ca,
                                ce,
                                fb.0 - lb.0,
                                fb.1 - lb.0,
                            );
                        },
                    }
                }
            }
            r
        },
    }
}

} // verus!

//! A bound, read off a duration text, on the nanoseconds that the parts of the
//! duration can add up to.
//!
//! A duration text is a sequence of spans, each a number and a unit word, as in
//! `1h 30min` or `1500ms`. Each span adds at most its number, plus one where it
//! has a fractional part, times its unit in nanoseconds; a word that is no known
//! unit counts as a year, the longest unit. The bound is therefore never below the
//! total that the spans of the text describe.

use vstd::prelude::*;
use crate::text::{is_digit, digit_value, is_unicode_space, is_space, has_prefix_at};

verus! {

/// The largest value the bound is tracked up to: 2^64 seconds in nanoseconds.
pub const SPAN_LIMIT: u128 = 18_446_744_073_709_551_616_000_000_000;

/// The length in nanoseconds of a unit word; an unknown word counts as a year.
pub open spec fn unit_nanos(w: Seq<char>) -> nat {
    if w == "nanos"@ || w == "nsec"@ || w == "ns"@ {
        1
    } else if w == "usec"@ || w == "us"@ || w == "µs"@ {
        1_000
    } else if w == "millis"@ || w == "msec"@ || w == "ms"@ {
        1_000_000
    } else if w == "seconds"@ || w == "second"@ || w == "secs"@ || w == "sec"@ || w == "s"@ {
        1_000_000_000
    } else if w == "minutes"@ || w == "minute"@ || w == "min"@ || w == "mins"@ || w == "m"@ {
        60_000_000_000
    } else if w == "hours"@ || w == "hour"@ || w == "hr"@ || w == "hrs"@ || w == "h"@ {
        3_600_000_000_000
    } else if w == "days"@ || w == "day"@ || w == "d"@ {
        86_400_000_000_000
    } else if w == "weeks"@ || w == "week"@ || w == "wk"@ || w == "wks"@ || w == "w"@ {
        604_800_000_000_000
    } else if w == "months"@ || w == "month"@ || w == "M"@ {
        2_630_016_000_000_000
    } else {
        31_557_600_000_000_000
    }
}

/// The state of reading a duration text: the bound of the spans already closed,
/// the integer part of the current number, whether it has a fractional part, and
/// its unit word so far.
pub struct SpanScan {
    pub weight: nat,
    pub acc: nat,
    pub frac: bool,
    pub word: Seq<char>,
}

/// The bound once the current span is closed.
pub open spec fn closed_bound(st: SpanScan) -> nat {
    st.weight + (st.acc + if st.frac {
        1nat
    } else {
        0nat
    }) * unit_nanos(st.word)
}

/// Reading one more character: a digit after a unit word opens a new span, as
/// white space after one does; other digits extend the integer part until a `.`
/// starts the fractional part; any other character belongs to the unit word.
pub open spec fn scan_step(st: SpanScan, c: char) -> SpanScan {
    if is_digit(c) {
        if st.word.len() > 0 {
            SpanScan { weight: closed_bound(st), acc: digit_value(c), frac: false, word: Seq::empty() }
        } else if st.frac {
            st
        } else {
            SpanScan { weight: st.weight, acc: st.acc * 10 + digit_value(c), frac: st.frac, word: st.word }
        }
    } else if is_unicode_space(c) {
        if st.word.len() > 0 {
            SpanScan { weight: closed_bound(st), acc: 0, frac: false, word: Seq::empty() }
        } else {
            st
        }
    } else if c == '.' && st.word.len() == 0 {
        SpanScan { weight: st.weight, acc: st.acc, frac: true, word: st.word }
    } else {
        SpanScan { weight: st.weight, acc: st.acc, frac: st.frac, word: st.word.push(c) }
    }
}

/// The state after reading `s`.
pub open spec fn scan_text(s: Seq<char>) -> SpanScan
    decreases s.len(),
{
    if s.len() == 0 {
        SpanScan { weight: 0, acc: 0, frac: false, word: Seq::empty() }
    } else {
        scan_step(scan_text(s.drop_last()), s.last())
    }
}

/// The bound, in nanoseconds, on what the spans of a duration text add up to.
pub open spec fn duration_bound(s: Seq<char>) -> nat {
    closed_bound(scan_text(s))
}

/// `x`, or the limit where `x` reaches it.
pub open spec fn capped(x: nat) -> nat {
    if x < SPAN_LIMIT {
        x
    } else {
        SPAN_LIMIT as nat
    }
}

fn word_is(v: &Vec<char>, lo: usize, hi: usize, lit: &str) -> (r: bool)
    requires
        lo <= hi <= v@.len(),
    ensures
        r == (v@.subrange(lo as int, hi as int) == lit@),
{
    if hi - lo != lit.unicode_len() {
        return false;
    }
    let b = has_prefix_at(v, lo, hi, lit);
    b
}

/// The unit length of the word `v[lo..hi]`.
fn unit_nanos_of(v: &Vec<char>, lo: usize, hi: usize) -> (r: u128)
    requires
        lo <= hi <= v@.len(),
    ensures
        r == unit_nanos(v@.subrange(lo as int, hi as int)),
        r >= 1,
{
    if word_is(v, lo, hi, "nanos") || word_is(v, lo, hi, "nsec") || word_is(v, lo, hi, "ns") {
        1
    } else if word_is(v, lo, hi, "usec") || word_is(v, lo, hi, "us") || word_is(v, lo, hi, "µs") {
        1_000
    } else if word_is(v, lo, hi, "millis") || word_is(v, lo, hi, "msec") || word_is(v, lo, hi, "ms") {
        1_000_000
    } else if word_is(v, lo, hi, "seconds") || word_is(v, lo, hi, "second") || word_is(v, lo, hi, "secs")
        || word_is(v, lo, hi, "sec") || word_is(v, lo, hi, "s") {
        1_000_000_000
    } else if word_is(v, lo, hi, "minutes") || word_is(v, lo, hi, "minute") || word_is(v, lo, hi, "min")
        || word_is(v, lo, hi, "mins") || word_is(v, lo, hi, "m") {
        60_000_000_000
    } else if word_is(v, lo, hi, "hours") || word_is(v, lo, hi, "hour") || word_is(v, lo, hi, "hr")
        || word_is(v, lo, hi, "hrs") || word_is(v, lo, hi, "h") {
        3_600_000_000_000
    } else if word_is(v, lo, hi, "days") || word_is(v, lo, hi, "day") || word_is(v, lo, hi, "d") {
        86_400_000_000_000
    } else if word_is(v, lo, hi, "weeks") || word_is(v, lo, hi, "week") || word_is(v, lo, hi, "wk")
        || word_is(v, lo, hi, "wks") || word_is(v, lo, hi, "w") {
        604_800_000_000_000
    } else if word_is(v, lo, hi, "months") || word_is(v, lo, hi, "month") || word_is(v, lo, hi, "M") {
        2_630_016_000_000_000
    } else {
        31_557_600_000_000_000
    }
}

/// The capped bound once a span is closed.
fn close_capped(
    weight: u128,
    acc: u128,
    frac: bool,
    unit: u128,
    Ghost(w): Ghost<nat>,
    Ghost(a): Ghost<nat>,
) -> (r: u128)
    requires
        weight == capped(w),
        acc == capped(a),
        unit >= 1,
    ensures
        r == capped(w + (a + if frac {
            1nat
        } else {
            0nat
        }) * (unit as nat)),
{
    let f: u128 = if frac {
        1
    } else {
        0
    };
    let ghost fn_: nat = if frac {
        1nat
    } else {
        0nat
    };
    assert((a + fn_) * unit >= a + fn_) by (nonlinear_arith)
        requires
            unit >= 1,
    ;
    if weight == SPAN_LIMIT || acc == SPAN_LIMIT {
        return SPAN_LIMIT;
    }
    match (acc + f).checked_mul(unit) {
        None => SPAN_LIMIT,
        Some(p) => {
            assert(p == (a + fn_) * unit);
            match weight.checked_add(p) {
                None => SPAN_LIMIT,
                Some(sum) => if sum >= SPAN_LIMIT {
                    SPAN_LIMIT
                } else {
                    sum
                },
            }
        },
    }
}

/// Computes `capped(duration_bound(v[lo..hi]))`.
pub fn duration_bound_capped(v: &Vec<char>, lo: usize, hi: usize) -> (r: u128)
    requires
        lo <= hi <= v@.len(),
    ensures
        r == capped(duration_bound(v@.subrange(lo as int, hi as int))),
{
    let mut weight: u128 = 0;
    let mut acc: u128 = 0;
    let mut frac = false;
    let mut ws = lo;
    let mut i = lo;
    assert(v@.subrange(lo as int, lo as int) =~= Seq::<char>::empty());
    while i < hi
        invariant
            lo <= ws <= i <= hi <= v@.len(),
            weight == capped(scan_text(v@.subrange(lo as int, i as int)).weight),
            acc == capped(scan_text(v@.subrange(lo as int, i as int)).acc),
            frac == scan_text(v@.subrange(lo as int, i as int)).frac,
            scan_text(v@.subrange(lo as int, i as int)).word == v@.subrange(ws as int, i as int),
        decreases hi - i,
    {
        let ghost st = scan_text(v@.subrange(lo as int, i as int));
        let c = v[i];
        assert(v@.subrange(lo as int, i + 1).drop_last() =~= v@.subrange(lo as int, i as int));
        assert(v@.subrange(lo as int, i + 1).last() == c);
        assert(v@.subrange(i + 1, i + 1) =~= Seq::<char>::empty());
        assert(v@.subrange(ws as int, i + 1) =~= v@.subrange(ws as int, i as int).push(c));
        if '0' <= c && c <= '9' {
            let d = (c as u32 - '0' as u32) as u128;
            assert(d == digit_value(c));
            if ws < i {
                let unit = unit_nanos_of(v, ws, i);
                weight = close_capped(weight, acc, frac, unit, Ghost(st.weight), Ghost(st.acc));
                acc = d;
                frac = false;
                ws = i + 1;
            } else if !frac {
                if acc == SPAN_LIMIT {
                    acc = SPAN_LIMIT;
                } else {
                    let next = acc * 10 + d;
                    acc = if next >= SPAN_LIMIT {
                        SPAN_LIMIT
                    } else {
                        next
                    };
                }
                ws = i + 1;
            } else {
                ws = i + 1;
            }
        } else if is_space(c) {
            if ws < i {
                let unit = unit_nanos_of(v, ws, i);
                weight = close_capped(weight, acc, frac, unit, Ghost(st.weight), Ghost(st.acc));
                acc = 0;
                frac = false;
            }
            ws = i + 1;
        } else if c == '.' && ws == i {
            frac = true;
            ws = i + 1;
        }
        i = i + 1;
    }
    let ghost st = scan_text(v@.subrange(lo as int, hi as int));
    let unit = unit_nanos_of(v, ws, hi);
    close_capped(weight, acc, frac, unit, Ghost(st.weight), Ghost(st.acc))
}

} // verus!

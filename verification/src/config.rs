//! Parsing of the request's settings: expected answers, concurrency, timeout,
//! record type and bootstrap addresses.

use vstd::prelude::*;
use vstd::string::*;
use crate::addr::{IpAddress, ip_from_text, parse_ip_text};
use crate::span::{duration_bound, duration_bound_capped, SPAN_LIMIT};
use crate::text::{
    chars_of, split_ranges, trim_range, string_of_range, parse_unsigned_range, text_eq_ignore_ascii_case,
    texts, non_empty, split_class, trim, trim_class, parse_unsigned, eq_ignore_ascii_case, CharClass,
};

verus! {

/// A `Result` whose error string is taken by its view.
pub open spec fn err_view<T>(r: Result<T, String>) -> Result<T, Seq<char>> {
    match r {
        Ok(t) => Ok(t),
        Err(e) => Err(e@),
    }
}

// ---------------------------------------------------------------- expected answers

/// Each piece trimmed of white space.
pub open spec fn trim_all(ps: Seq<Seq<char>>) -> Seq<Seq<char>> {
    ps.map_values(|p: Seq<char>| trim(p))
}

/// The expected answers that a comma-separated list names: each item trimmed,
/// empty items dropped.
pub open spec fn expected_items(s: Seq<char>) -> Seq<Seq<char>> {
    non_empty(trim_all(split_class(s, CharClass::Comma)))
}

/// Splits `input` at commas into trimmed, non-empty expected answers.
pub fn parse_expected(input: &str) -> (r: Vec<String>)
    ensures
        texts(r@) == expected_items(input@),
{
    let v = chars_of(input);
    let ranges = split_ranges(&v, 0, v.len(), CharClass::Comma);
    let ghost pieces = split_class(v@.subrange(0, v@.len() as int), CharClass::Comma);
    assert(v@.subrange(0, v@.len() as int) =~= input@);
    let mut out: Vec<String> = Vec::new();
    let mut j: usize = 0;
    while j < ranges.len()
        invariant
            v@ == input@,
            pieces == split_class(input@, CharClass::Comma),
            ranges@.len() == pieces.len(),
            forall|i: int|
                0 <= i < ranges@.len() ==> 0 <= (#[trigger] ranges@[i]).0 <= ranges@[i].1 <= v@.len()
                    && v@.subrange(ranges@[i].0 as int, ranges@[i].1 as int) == pieces[i],
            j <= ranges@.len(),
            texts(out@) == non_empty(trim_all(pieces.take(j as int))),
        decreases ranges.len() - j,
    {
        let (lo, hi) = ranges[j];
        let (a, b) = trim_range(&v, lo, hi, CharClass::Space);
        assert(trim_all(pieces.take(j + 1)).drop_last() =~= trim_all(pieces.take(j as int)));
        assert(trim_all(pieces.take(j + 1)).last() == trim(pieces[j as int]));
        if a < b {
            let item = string_of_range(&v, a, b);
            out.push(item);
            assert(texts(out@) =~= texts(out@).drop_last().push(item@));
            assert(texts(out@).drop_last() =~= texts(out@.drop_last()));
        }
        j = j + 1;
    }
    assert(pieces.take(ranges@.len() as int) =~= pieces);
    out
}

// ---------------------------------------------------------------- matching

/// Whether some answer equals `item` up to ASCII letter case.
pub open spec fn answered(answers: Seq<Seq<char>>, item: Seq<char>) -> bool {
    exists|j: int| 0 <= j < answers.len() && eq_ignore_ascii_case(#[trigger] answers[j], item)
}

/// Whether every expected item is among the answers, up to ASCII letter case.
/// With no expected items this holds whatever the answers are.
pub open spec fn all_answered(answers: Seq<Seq<char>>, expected: Seq<Seq<char>>) -> bool {
    forall|i: int| 0 <= i < expected.len() ==> answered(answers, #[trigger] expected[i])
}

/// Whether each expected value occurs among the answers, ignoring ASCII case.
pub fn matches_expected(answers: &[String], expected: &[String]) -> (r: bool)
    ensures
        r == all_answered(texts(answers@), texts(expected@)),
{
    let ghost av = texts(answers@);
    let ghost ev = texts(expected@);
    if expected.len() == 0 {
        return true;
    }
    let mut i: usize = 0;
    while i < expected.len()
        invariant
            av == texts(answers@),
            ev == texts(expected@),
            i <= expected@.len(),
            forall|k: int| 0 <= k < i ==> answered(av, #[trigger] ev[k]),
        decreases expected.len() - i,
    {
        let mut found = false;
        let mut j: usize = 0;
        while j < answers.len()
            invariant
                av == texts(answers@),
                ev == texts(expected@),
                i < expected@.len(),
                j <= answers@.len(),
                found == exists|m: int| 0 <= m < j && eq_ignore_ascii_case(#[trigger] av[m], ev[i as int]),
            decreases answers.len() - j,
        {
            assert(av[j as int] == answers@[j as int]@);
            assert(ev[i as int] == expected@[i as int]@);
            if text_eq_ignore_ascii_case(answers[j].as_str(), expected[i].as_str()) {
                found = true;
            }
            j = j + 1;
        }
        if !found {
            assert(!answered(av, ev[i as int]));
            return false;
        }
        i = i + 1;
    }
    true
}

// ---------------------------------------------------------------- concurrency

/// The default number of lookups run at once.
pub const DEFAULT_CONCURRENCY: usize = 32;

/// The largest number of lookups run at once.
pub const MAX_CONCURRENCY: usize = 256;

/// The concurrency a text asks for: a positive number, at most the largest; the
/// default where the trimmed text is no positive `usize`.
pub open spec fn concurrency_of(s: Seq<char>) -> nat {
    match parse_unsigned(trim(s), usize::MAX as nat) {
        Some(n) => if n > 0 {
            if n < MAX_CONCURRENCY {
                n
            } else {
                MAX_CONCURRENCY as nat
            }
        } else {
            DEFAULT_CONCURRENCY as nat
        },
        None => DEFAULT_CONCURRENCY as nat,
    }
}

/// The number of lookups to run at once.
pub fn parse_concurrency(input: &str) -> (r: usize)
    ensures
        r == concurrency_of(input@),
        1 <= r <= MAX_CONCURRENCY,
{
    let v = chars_of(input);
    assert(v@.subrange(0, v@.len() as int) =~= input@);
    let (a, b) = trim_range(&v, 0, v.len(), CharClass::Space);
    match parse_unsigned_range(&v, a, b, usize::MAX as u64) {
        Some(n) => {
            if n == 0 {
                DEFAULT_CONCURRENCY
            } else if n < MAX_CONCURRENCY as u64 {
                n as usize
            } else {
                MAX_CONCURRENCY
            }
        },
        None => DEFAULT_CONCURRENCY,
    }
}

// ---------------------------------------------------------------- timeout

/// A span of time: whole seconds and the nanoseconds beyond them.
#[derive(Clone, Copy, PartialEq, Eq, Debug, Structural)]
pub struct Timeout {
    pub secs: u64,
    pub nanos: u32,
}

/// What `humantime::parse_duration` gives for a text: the duration's seconds and
/// nanoseconds, or the text that its error displays.
pub uninterp spec fn humantime_outcome(text: Seq<char>) -> Result<(u64, u32), Seq<char>>;

/// A parsed duration as seconds and nanoseconds, its error text by its view.
pub open spec fn duration_view(r: Result<Timeout, String>) -> Result<(u64, u32), Seq<char>> {
    match r {
        Ok(t) => Ok((t.secs, t.nanos)),
        Err(e) => Err(e@),
    }
}

/// What `humantime::format_duration` displays for a duration.
pub uninterp spec fn humantime_text(secs: u64, nanos: u32) -> Seq<char>;

/// Calls `humantime::parse_duration`. The result is `humantime_outcome` of the text,
/// its error by its `Display`. As the crate's source shows, the text `0` gives the
/// zero duration and the empty text the error `value was empty`; as `Duration`
/// documents, the nanoseconds stay below one billion.
///
/// The parser panics when the seconds it adds up reach `u64::MAX` together with a
/// whole carried second (`add_current` then calls `Duration::new` with one
/// billion nanoseconds), as on `18446744073709551615s 1000000000ns`: that is, when
/// the total of the spans reaches 2^64 seconds. In the source each span adds its
/// integer part times its unit, and a fractional part adds less than one unit;
/// a span whose word is no unit is refused before it adds anything. So the total
/// never exceeds `duration_bound` of the text, and `requires` admits only texts
/// whose bound stays below 2^64 seconds.
#[verifier::external_body]
fn humantime_parse(text: &str) -> (r: Result<Timeout, String>)
    requires
        duration_bound(text@) < SPAN_LIMIT,
    ensures
        duration_view(r) == humantime_outcome(text@),
        r matches Ok(t) ==> t.nanos < 1_000_000_000,
        text@ == seq!['0'] ==> r is Ok && r->Ok_0.secs == 0 && r->Ok_0.nanos == 0,
        text@.len() == 0 ==> r is Err && r->Err_0@ == "value was empty"@,
{
    match humantime::parse_duration(text) {
        Ok(d) => Ok(Timeout { secs: d.as_secs(), nanos: d.subsec_nanos() }),
        Err(e) => Err(e.to_string()),
    }
}

/// Calls `humantime::format_duration` and displays it; the text is `humantime_text`.
#[verifier::external_body]
pub(crate) fn humantime_format(t: Timeout) -> (r: String)
    requires
        t.nanos < 1_000_000_000,
    ensures
        r@ == humantime_text(t.secs, t.nanos),
{
    humantime::format_duration(std::time::Duration::new(t.secs, t.nanos)).to_string()
}

/// The timeout a text names, or the error reported for it. A text whose spans may
/// add up to 2^64 seconds or more is refused before it reaches the duration parser.
pub open spec fn timeout_result(s: Seq<char>) -> Result<Timeout, Seq<char>> {
    if duration_bound(trim(s)) >= SPAN_LIMIT {
        Err("invalid timeout '"@ + s + "': duration too large"@)
    } else {
        match humantime_outcome(trim(s)) {
            Ok((secs, nanos)) => Ok(Timeout { secs, nanos }),
            Err(e) => Err("invalid timeout '"@ + s + "': "@ + e),
        }
    }
}

/// Parses a human-readable duration such as `5s` or `1500ms`.
pub fn parse_timeout(input: &str) -> (r: Result<Timeout, String>)
    ensures
        err_view(r) == timeout_result(input@),
        r matches Ok(t) ==> t.nanos < 1_000_000_000,
{
    proof {
        reveal_strlit("invalid timeout '");
        reveal_strlit("': ");
        reveal_strlit("': duration too large");
    }
    let v = chars_of(input);
    assert(v@.subrange(0, v@.len() as int) =~= input@);
    let (a, b) = trim_range(&v, 0, v.len(), CharClass::Space);
    if duration_bound_capped(&v, a, b) >= SPAN_LIMIT {
        let mut msg = String::from_str("invalid timeout '");
        msg.append(input);
        msg.append("': duration too large");
        return Err(msg);
    }
    let trimmed = string_of_range(&v, a, b);
    match humantime_parse(trimmed.as_str()) {
        Ok(t) => Ok(t),
        Err(e) => {
            let mut msg = String::from_str("invalid timeout '");
            msg.append(input);
            msg.append("': ");
            msg.append(e.as_str());
            Err(msg)
        },
    }
}

// ---------------------------------------------------------------- record type

/// What `hickory_proto::rr::RecordType::from_str` gives for a text, taken as the
/// type's code (`u16::from`).
pub uninterp spec fn record_type_from_text(text: Seq<char>) -> Option<u16>;

/// Calls `RecordType::from_str` and takes the type's code. The result is
/// `record_type_from_text` of the text; the crate's source maps the mnemonics
/// `A`, `NS`, `CNAME`, `MX`, `TXT`, `AAAA` to the codes 1, 2, 5, 15, 16, 28.
#[verifier::external_body]
fn record_type_code(text: &str) -> (r: Option<u16>)
    ensures
        r == record_type_from_text(text@),
        text@ == "A"@ ==> r == Some(1u16),
        text@ == "NS"@ ==> r == Some(2u16),
        text@ == "CNAME"@ ==> r == Some(5u16),
        text@ == "MX"@ ==> r == Some(15u16),
        text@ == "TXT"@ ==> r == Some(16u16),
        text@ == "AAAA"@ ==> r == Some(28u16),
{
    match <hickory_resolver::proto::rr::RecordType as std::str::FromStr>::from_str(text) {
        Ok(t) => Some(u16::from(t)),
        Err(_) => None,
    }
}

/// The record type a text names, or the error reported for it.
pub open spec fn record_type_result(s: Seq<char>) -> Result<u16, Seq<char>> {
    match record_type_from_text(trim(s)) {
        Some(code) => Ok(code),
        None => Err("unsupported record type: "@ + s),
    }
}

/// Parses a record type mnemonic such as `A` or `AAAA` into its code.
pub fn parse_record_type(input: &str) -> (r: Result<u16, String>)
    ensures
        err_view(r) == record_type_result(input@),
{
    proof {
        reveal_strlit("unsupported record type: ");
    }
    let v = chars_of(input);
    assert(v@.subrange(0, v@.len() as int) =~= input@);
    let (a, b) = trim_range(&v, 0, v.len(), CharClass::Space);
    let trimmed = string_of_range(&v, a, b);
    match record_type_code(trimmed.as_str()) {
        Some(code) => Ok(code),
        None => {
            let mut msg = String::from_str("unsupported record type: ");
            msg.append(input);
            Err(msg)
        },
    }
}

// ---------------------------------------------------------------- bootstrap addresses

/// The address a bootstrap item names once trimmed of white space and then of
/// brackets, or the error reported for the item.
pub open spec fn bootstrap_ip_result(value: Seq<char>) -> Result<IpAddress, Seq<char>> {
    match ip_from_text(trim_class(trim(value), CharClass::Bracket)) {
        Some(ip) => Ok(ip),
        None => Err("invalid bootstrap IP: "@ + value),
    }
}

/// Parses one bootstrap address; `[::1]` and `::1` both name the same address.
pub fn parse_ip_addr(value: &str) -> (r: Result<IpAddress, String>)
    ensures
        err_view(r) == bootstrap_ip_result(value@),
{
    proof {
        reveal_strlit("invalid bootstrap IP: ");
    }
    let v = chars_of(value);
    assert(v@.subrange(0, v@.len() as int) =~= value@);
    let (a, b) = trim_range(&v, 0, v.len(), CharClass::Space);
    let (c, d) = trim_range(&v, a, b, CharClass::Bracket);
    let normalized = string_of_range(&v, c, d);
    match parse_ip_text(normalized.as_str()) {
        Some(ip) => Ok(ip),
        None => {
            let mut msg = String::from_str("invalid bootstrap IP: ");
            msg.append(value);
            Err(msg)
        },
    }
}

/// The addresses of the items, or the error of the first item that names none.
pub open spec fn collect_ips(items: Seq<Seq<char>>) -> Result<Seq<IpAddress>, Seq<char>>
    decreases items.len(),
{
    if items.len() == 0 {
        Ok(Seq::<IpAddress>::empty())
    } else {
        match collect_ips(items.drop_last()) {
            Err(e) => Err(e),
            Ok(ips) => match bootstrap_ip_result(items.last()) {
                Ok(ip) => Ok(ips.push(ip)),
                Err(e) => Err(e),
            },
        }
    }
}

/// The items of a bootstrap list: the non-empty pieces between commas and ASCII
/// white space.
pub open spec fn bootstrap_items(s: Seq<char>) -> Seq<Seq<char>> {
    non_empty(split_class(s, CharClass::CommaOrAsciiSpace))
}

/// Once an item fails, later items do not change the outcome.
pub proof fn lemma_collect_ips_err_stays(a: Seq<Seq<char>>, b: Seq<Seq<char>>)
    requires
        collect_ips(a) is Err,
    ensures
        collect_ips(a + b) == collect_ips(a),
    decreases b.len(),
{
    if b.len() == 0 {
        assert(a + b =~= a);
    } else {
        lemma_collect_ips_err_stays(a, b.drop_last());
        assert((a + b).drop_last() =~= a + b.drop_last());
    }
}

/// Dropping empty pieces commutes with concatenation.
pub proof fn lemma_non_empty_add(a: Seq<Seq<char>>, b: Seq<Seq<char>>)
    ensures
        non_empty(a + b) == non_empty(a) + non_empty(b),
    decreases b.len(),
{
    if b.len() == 0 {
        assert(a + b =~= a);
        assert(non_empty(b) =~= Seq::<Seq<char>>::empty());
        assert(non_empty(a) + non_empty(b) =~= non_empty(a));
    } else {
        lemma_non_empty_add(a, b.drop_last());
        assert((a + b).drop_last() =~= a + b.drop_last());
        if b.last().len() == 0 {
        } else {
            assert(non_empty(a) + non_empty(b.drop_last()).push(b.last()) =~= (non_empty(a)
                + non_empty(b.drop_last())).push(b.last()));
        }
    }
}

/// A list of addresses by its view, its error text by its view.
pub open spec fn ips_view(r: Result<Vec<IpAddress>, String>) -> Result<Seq<IpAddress>, Seq<char>> {
    match r {
        Ok(v) => Ok(v@),
        Err(e) => Err(e@),
    }
}

/// Parses a list of bootstrap addresses separated by commas or white space.
pub fn parse_bootstrap_list(input: &str) -> (r: Result<Vec<IpAddress>, String>)
    ensures
        ips_view(r) == collect_ips(bootstrap_items(input@)),
{
    let v = chars_of(input);
    assert(v@.subrange(0, v@.len() as int) =~= input@);
    let ranges = split_ranges(&v, 0, v.len(), CharClass::CommaOrAsciiSpace);
    let ghost pieces = split_class(input@, CharClass::CommaOrAsciiSpace);
    let mut out: Vec<IpAddress> = Vec::new();
    let mut j: usize = 0;
    while j < ranges.len()
        invariant
            v@ == input@,
            ranges@.len() == pieces.len(),
            pieces == split_class(input@, CharClass::CommaOrAsciiSpace),
            forall|i: int|
                0 <= i < ranges@.len() ==> 0 <= (#[trigger] ranges@[i]).0 <= ranges@[i].1 <= v@.len()
                    && v@.subrange(ranges@[i].0 as int, ranges@[i].1 as int) == pieces[i],
            j <= ranges@.len(),
            collect_ips(non_empty(pieces.take(j as int))) == Ok::<Seq<IpAddress>, Seq<char>>(out@),
        decreases ranges.len() - j,
    {
        let (lo, hi) = ranges[j];
        assert(pieces.take(j + 1).drop_last() =~= pieces.take(j as int));
        assert(pieces.take(j + 1).last() == pieces[j as int]);
        let ghost ne = non_empty(pieces.take(j as int));
        if lo < hi {
            let item = string_of_range(&v, lo, hi);
            assert(non_empty(pieces.take(j + 1)) == ne.push(pieces[j as int]));
            assert(ne.push(pieces[j as int]).drop_last() =~= ne);
            match parse_ip_addr(item.as_str()) {
                Ok(ip) => {
                    out.push(ip);
                },
                Err(e) => {
                    proof {
                        assert(pieces =~= pieces.take(j + 1) + pieces.skip(j + 1));
                        lemma_non_empty_add(pieces.take(j + 1), pieces.skip(j + 1));
                        lemma_collect_ips_err_stays(
                            non_empty(pieces.take(j + 1)),
                            non_empty(pieces.skip(j + 1)),
                        );
                    }
                    return Err(e);
                },
            }
        } else {
            assert(non_empty(pieces.take(j + 1)) == ne);
        }
        j = j + 1;
    }
    assert(pieces.take(ranges@.len() as int) =~= pieces);
    Ok(out)
}

} // verus!

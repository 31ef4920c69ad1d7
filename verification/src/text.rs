//! Character-level text utilities with their specifications.

use vstd::prelude::*;

verus! {

/// The Unicode `White_Space` property, as used by `char::is_whitespace`.
pub open spec fn is_unicode_space(c: char) -> bool {
    ||| ('\u{9}' <= c && c <= '\u{d}')
    ||| c == ' '
    ||| c == '\u{85}'
    ||| c == '\u{a0}'
    ||| c == '\u{1680}'
    ||| ('\u{2000}' <= c && c <= '\u{200a}')
    ||| c == '\u{2028}'
    ||| c == '\u{2029}'
    ||| c == '\u{202f}'
    ||| c == '\u{205f}'
    ||| c == '\u{3000}'
}

/// Whether `c` is a Unicode white-space character.
pub fn is_space(c: char) -> (r: bool)
    ensures
        r == is_unicode_space(c),
{
    ('\u{9}' <= c && c <= '\u{d}') || c == ' ' || c == '\u{85}' || c == '\u{a0}' || c
        == '\u{1680}' || ('\u{2000}' <= c && c <= '\u{200a}') || c == '\u{2028}' || c
        == '\u{2029}' || c == '\u{202f}' || c == '\u{205f}' || c == '\u{3000}'
}

/// The characters of `s`, in order.
pub fn chars_of(s: &str) -> (v: Vec<char>)
    ensures
        v@ == s@,
{
    let mut v: Vec<char> = Vec::new();
    for c in it: s.chars()
        invariant
            v@ == it.seq().take(it.index() as int),
            it.seq() == s@,
    {
        v.push(c);
    }
    v
}

} // verus!

verus! {

/// Classes of separator characters used by the parsers.
#[derive(Clone, Copy, PartialEq, Eq, Debug)]
pub enum CharClass {
    /// Unicode white space.
    Space,
    /// The two square brackets `[` and `]`.
    Bracket,
    /// The comma.
    Comma,
    /// A comma or ASCII white space (space, tab, line feed, form feed, carriage return).
    CommaOrAsciiSpace,
    /// The line feed.
    LineFeed,
}

/// ASCII white space as `char::is_ascii_whitespace` defines it.
pub open spec fn is_ascii_space(c: char) -> bool {
    c == ' ' || c == '\t' || c == '\n' || c == '\u{c}' || c == '\r'
}

/// Whether `c` belongs to class `k`.
pub open spec fn in_class_spec(k: CharClass, c: char) -> bool {
    match k {
        CharClass::Space => is_unicode_space(c),
        CharClass::Bracket => c == '[' || c == ']',
        CharClass::Comma => c == ',',
        CharClass::CommaOrAsciiSpace => c == ',' || is_ascii_space(c),
        CharClass::LineFeed => c == '\n',
    }
}

/// Whether `c` belongs to class `k`.
pub fn in_class(k: CharClass, c: char) -> (r: bool)
    ensures
        r == in_class_spec(k, c),
{
    match k {
        CharClass::Space => is_space(c),
        CharClass::Bracket => c == '[' || c == ']',
        CharClass::Comma => c == ',',
        CharClass::CommaOrAsciiSpace => c == ',' || c == ' ' || c == '\t' || c == '\n' || c
            == '\u{c}' || c == '\r',
        CharClass::LineFeed => c == '\n',
    }
}

/// `s` without its leading characters of class `k`.
pub open spec fn trim_start_class(s: Seq<char>, k: CharClass) -> Seq<char>
    decreases s.len(),
{
    if s.len() > 0 && in_class_spec(k, s[0]) {
        trim_start_class(s.drop_first(), k)
    } else {
        s
    }
}

/// `s` without its trailing characters of class `k`.
pub open spec fn trim_end_class(s: Seq<char>, k: CharClass) -> Seq<char>
    decreases s.len(),
{
    if s.len() > 0 && in_class_spec(k, s.last()) {
        trim_end_class(s.drop_last(), k)
    } else {
        s
    }
}

/// `s` without leading and trailing characters of class `k` (`str::trim_matches`).
pub open spec fn trim_class(s: Seq<char>, k: CharClass) -> Seq<char> {
    trim_end_class(trim_start_class(s, k), k)
}

/// `s` without leading and trailing white space (`str::trim`).
pub open spec fn trim(s: Seq<char>) -> Seq<char> {
    trim_class(s, CharClass::Space)
}

/// The pieces of `s` between the characters of class `k`, empty pieces included
/// (`str::split` with a character predicate).
pub open spec fn split_class(s: Seq<char>, k: CharClass) -> Seq<Seq<char>>
    decreases s.len(),
{
    if s.len() == 0 {
        seq![Seq::<char>::empty()]
    } else {
        let r = split_class(s.drop_last(), k);
        if in_class_spec(k, s.last()) {
            r.push(Seq::<char>::empty())
        } else {
            r.update(r.len() - 1, r.last().push(s.last()))
        }
    }
}

/// The non-empty elements of `ps`, in order.
pub open spec fn non_empty(ps: Seq<Seq<char>>) -> Seq<Seq<char>>
    decreases ps.len(),
{
    if ps.len() == 0 {
        ps
    } else if ps.last().len() == 0 {
        non_empty(ps.drop_last())
    } else {
        non_empty(ps.drop_last()).push(ps.last())
    }
}

/// The maximal runs of non-white-space characters of `s` (`str::split_whitespace`).
pub open spec fn words(s: Seq<char>) -> Seq<Seq<char>> {
    non_empty(split_class(s, CharClass::Space))
}

pub proof fn lemma_split_class_nonempty(s: Seq<char>, k: CharClass)
    ensures
        split_class(s, k).len() >= 1,
    decreases s.len(),
{
    if s.len() > 0 {
        lemma_split_class_nonempty(s.drop_last(), k);
    }
}

/// The range `[a, b)` of `v` within `[lo, hi)` that holds `v[lo..hi]` trimmed of class `k`.
pub fn trim_range(v: &Vec<char>, lo: usize, hi: usize, k: CharClass) -> (r: (usize, usize))
    requires
        lo <= hi <= v@.len(),
    ensures
        lo <= r.0 <= r.1 <= hi,
        v@.subrange(r.0 as int, r.1 as int) == trim_class(v@.subrange(lo as int, hi as int), k),
{
    let mut a = lo;
    while a < hi && in_class(k, v[a])
        invariant
            lo <= a <= hi <= v@.len(),
            trim_start_class(v@.subrange(lo as int, hi as int), k) == trim_start_class(
                v@.subrange(a as int, hi as int),
                k,
            ),
        decreases hi - a,
    {
        assert(v@.subrange(a as int, hi as int).drop_first() =~= v@.subrange(
            a + 1,
            hi as int,
        ));
        a = a + 1;
    }
    assert(trim_start_class(v@.subrange(a as int, hi as int), k) == v@.subrange(
        a as int,
        hi as int,
    ));
    let mut b = hi;
    while b > a && in_class(k, v[b - 1])
        invariant
            lo <= a <= b <= hi <= v@.len(),
            trim_class(v@.subrange(lo as int, hi as int), k) == trim_end_class(
                v@.subrange(a as int, b as int),
                k,
            ),
        decreases b - a,
    {
        assert(v@.subrange(a as int, b as int).drop_last() =~= v@.subrange(
            a as int,
            b - 1,
        ));
        b = b - 1;
    }
    (a, b)
}

/// The ranges of the pieces of `v[lo..hi]` between characters of class `k`.
pub fn split_ranges(v: &Vec<char>, lo: usize, hi: usize, k: CharClass) -> (r: Vec<(usize, usize)>)
    requires
        lo <= hi <= v@.len(),
    ensures
        r@.len() == split_class(v@.subrange(lo as int, hi as int), k).len(),
        forall|j: int|
            0 <= j < r@.len() ==> lo <= (#[trigger] r@[j]).0 <= r@[j].1 <= hi && v@.subrange(
                r@[j].0 as int,
                r@[j].1 as int,
            ) == split_class(v@.subrange(lo as int, hi as int), k)[j],
{
    let mut r: Vec<(usize, usize)> = Vec::new();
    let mut cur = lo;
    let mut i = lo;
    while i < hi
        invariant
            lo <= cur <= i <= hi <= v@.len(),
            r@.len() + 1 == split_class(v@.subrange(lo as int, i as int), k).len(),
            forall|j: int|
                0 <= j < r@.len() ==> lo <= (#[trigger] r@[j]).0 <= r@[j].1 <= i && v@.subrange(
                    r@[j].0 as int,
                    r@[j].1 as int,
                ) == split_class(v@.subrange(lo as int, i as int), k)[j],
            v@.subrange(cur as int, i as int) == split_class(
                v@.subrange(lo as int, i as int),
                k,
            ).last(),
        decreases hi - i,
    {
        let ghost old_ps = split_class(v@.subrange(lo as int, i as int), k);
        assert(v@.subrange(lo as int, i + 1).drop_last() =~= v@.subrange(lo as int, i as int));
        assert(v@.subrange(lo as int, i + 1).last() == v@[i as int]);
        if in_class(k, v[i]) {
            r.push((cur, i));
            cur = i + 1;
            assert(v@.subrange(cur as int, i + 1) =~= Seq::<char>::empty());
        } else {
            assert(v@.subrange(cur as int, i + 1) =~= v@.subrange(cur as int, i as int).push(
                v@[i as int],
            ));
        }
        i = i + 1;
    }
    r.push((cur, hi));
    r
}

} // verus!

verus! {

/// Whether `c` is an ASCII decimal digit.
pub open spec fn is_digit(c: char) -> bool {
    '0' <= c && c <= '9'
}

/// The value of the decimal digit `c`.
pub open spec fn digit_value(c: char) -> nat {
    ((c as int) - ('0' as int)) as nat
}

/// Whether every character of `s` is a decimal digit.
pub open spec fn all_digits(s: Seq<char>) -> bool {
    forall|i: int| 0 <= i < s.len() ==> is_digit(#[trigger] s[i])
}

/// The number that the decimal digits `s` denote.
pub open spec fn digits_value(s: Seq<char>) -> nat
    decreases s.len(),
{
    if s.len() == 0 {
        0
    } else {
        digits_value(s.drop_last()) * 10 + digit_value(s.last())
    }
}

/// What `str::parse` gives for an unsigned integer type whose largest value is `max`:
/// an optional `+`, then one or more decimal digits whose value is at most `max`.
pub open spec fn parse_unsigned(s: Seq<char>, max: nat) -> Option<nat> {
    let d = if s.len() > 0 && s[0] == '+' {
        s.drop_first()
    } else {
        s
    };
    if d.len() > 0 && all_digits(d) && digits_value(d) <= max {
        Some(digits_value(d))
    } else {
        None
    }
}

/// A longer run of digits never denotes a smaller number than its prefix.
pub proof fn lemma_digits_value_prefix(s: Seq<char>, i: int)
    requires
        0 <= i <= s.len(),
        all_digits(s),
    ensures
        digits_value(s.take(i)) <= digits_value(s),
    decreases s.len(),
{
    if i < s.len() {
        assert(s.drop_last().take(i) =~= s.take(i));
        lemma_digits_value_prefix(s.drop_last(), i);
    } else {
        assert(s.take(i) =~= s);
    }
}

/// Parses `v[lo..hi]` as an unsigned decimal number no larger than `max`.
pub fn parse_unsigned_range(v: &Vec<char>, lo: usize, hi: usize, max: u64) -> (r: Option<u64>)
    requires
        lo <= hi <= v@.len(),
    ensures
        r matches Some(n) ==> parse_unsigned(v@.subrange(lo as int, hi as int), max as nat) == Some(
            n as nat,
        ),
        r is None ==> parse_unsigned(v@.subrange(lo as int, hi as int), max as nat) is None,
{
    let ghost s = v@.subrange(lo as int, hi as int);
    let mut start = lo;
    if lo < hi && v[lo] == '+' {
        start = lo + 1;
        assert(s.drop_first() =~= v@.subrange(start as int, hi as int));
    } else {
        assert(s =~= v@.subrange(start as int, hi as int));
    }
    let ghost d = v@.subrange(start as int, hi as int);
    if start == hi {
        return None;
    }
    let mut acc: u64 = 0;
    let mut i = start;
    while i < hi
        invariant
            lo <= start <= i <= hi <= v@.len(),
            d == v@.subrange(start as int, hi as int),
            s == v@.subrange(lo as int, hi as int),
            d == (if s.len() > 0 && s[0] == '+' {
                s.drop_first()
            } else {
                s
            }),
            all_digits(d.take(i - start)),
            acc as nat == digits_value(d.take(i - start)),
            acc <= max,
        decreases hi - i,
    {
        let c = v[i];
        assert(d[i - start] == c);
        if !('0' <= c && c <= '9') {
            return None;
        }
        let dv = (c as u32 - '0' as u32) as u64;
        assert(d.take(i - start + 1).drop_last() =~= d.take(i - start));
        let next: u128 = (acc as u128) * 10 + (dv as u128);
        assert(d.take(i - start + 1).last() == c);
        assert(next == digits_value(d.take(i - start + 1)));
        if next > max as u128 {
            proof {
                if all_digits(d) {
                    lemma_digits_value_prefix(d, i - start + 1);
                }
            }
            return None;
        }
        acc = next as u64;
        i = i + 1;
    }
    assert(d.take(i - start) =~= d);
    Some(acc)
}

/// The decimal digit character for `n < 10`.
pub open spec fn digit_char(n: nat) -> char {
    (('0' as int) + n) as char
}

/// The shortest decimal representation of `n`, as `Display` writes integers.
pub open spec fn decimal_text(n: nat) -> Seq<char>
    decreases n,
{
    if n < 10 {
        seq![digit_char(n)]
    } else {
        decimal_text(n / 10).push(digit_char(n % 10))
    }
}

/// Appends `c` to `s` (`String::push`).
#[verifier::external_body]
pub(crate) fn push_char(s: &mut String, c: char)
    ensures
        final(s)@ == old(s)@.push(c),
{
    s.push(c);
}

/// Appends the decimal representation of `n` to `s`.
pub fn push_decimal(s: &mut String, n: u64)
    ensures
        final(s)@ == old(s)@ + decimal_text(n as nat),
    decreases n,
{
    if n >= 10 {
        push_decimal(s, n / 10);
    }
    let d = n % 10;
    let c: char = ('0' as u8 + d as u8) as char;
    assert(c == digit_char(d as nat));
    push_char(s, c);
    assert(decimal_text(n as nat) == (if n < 10 {
        seq![digit_char(n as nat)]
    } else {
        decimal_text((n / 10) as nat).push(digit_char((n % 10) as nat))
    }));
}

/// The string holding `v[lo..hi]`.
pub fn string_of_range(v: &Vec<char>, lo: usize, hi: usize) -> (r: String)
    requires
        lo <= hi <= v@.len(),
    ensures
        r@ == v@.subrange(lo as int, hi as int),
{
    let mut r = String::new();
    let mut i = lo;
    while i < hi
        invariant
            lo <= i <= hi <= v@.len(),
            r@ == v@.subrange(lo as int, i as int),
        decreases hi - i,
    {
        push_char(&mut r, v[i]);
        assert(v@.subrange(lo as int, i + 1) =~= v@.subrange(lo as int, i as int).push(
            v@[i as int],
        ));
        i = i + 1;
    }
    r
}

/// The elements of `list` joined by `sep` (`[String]::join`).
pub open spec fn join_texts(list: Seq<Seq<char>>, sep: Seq<char>) -> Seq<char>
    decreases list.len(),
{
    if list.len() == 0 {
        Seq::<char>::empty()
    } else if list.len() == 1 {
        list[0]
    } else {
        join_texts(list.drop_last(), sep) + sep + list.last()
    }
}

/// The views of the strings in `v`.
pub open spec fn texts(v: Seq<String>) -> Seq<Seq<char>> {
    v.map_values(|x: String| x@)
}

/// Appends the elements of `list`, joined by `sep`, to `s`.
pub fn push_joined(s: &mut String, list: &Vec<String>, sep: &str)
    ensures
        final(s)@ == old(s)@ + join_texts(texts(list@), sep@),
{
    let ghost start = s@;
    let ghost all = texts(list@);
    let mut i: usize = 0;
    while i < list.len()
        invariant
            i <= list@.len(),
            all == texts(list@),
            s@ == start + join_texts(all.take(i as int), sep@),
        decreases list.len() - i,
    {
        assert(all.take(i + 1).drop_last() =~= all.take(i as int));
        assert(all.take(i + 1).last() == list@[i as int]@);
        if i > 0 {
            s.append(sep);
        } else {
            assert(all.take(1) =~= seq![list@[0]@]);
        }
        s.append(list[i].as_str());
        i = i + 1;
    }
    assert(all.take(list@.len() as int) =~= all);
}

/// The code of `c` after ASCII upper-case letters are folded to lower case.
pub open spec fn ascii_fold(c: char) -> u32 {
    if 'A' <= c && c <= 'Z' {
        (c as u32 + 32) as u32
    } else {
        c as u32
    }
}

/// Whether `a` and `b` are equal up to ASCII letter case (`str::eq_ignore_ascii_case`).
pub open spec fn eq_ignore_ascii_case(a: Seq<char>, b: Seq<char>) -> bool {
    a.len() == b.len() && forall|i: int| 0 <= i < a.len() ==> ascii_fold(#[trigger] a[i])
        == ascii_fold(b[i])
}

fn fold_code(c: char) -> (r: u32)
    ensures
        r == ascii_fold(c),
{
    if 'A' <= c && c <= 'Z' {
        c as u32 + 32
    } else {
        c as u32
    }
}

/// Whether `a` and `b` are equal up to ASCII letter case.
pub fn text_eq_ignore_ascii_case(a: &str, b: &str) -> (r: bool)
    ensures
        r == eq_ignore_ascii_case(a@, b@),
{
    let va = chars_of(a);
    let vb = chars_of(b);
    if va.len() != vb.len() {
        return false;
    }
    let mut i: usize = 0;
    while i < va.len()
        invariant
            i <= va@.len() == vb@.len(),
            va@ == a@,
            vb@ == b@,
            forall|j: int| 0 <= j < i ==> ascii_fold(#[trigger] a@[j]) == ascii_fold(b@[j]),
        decreases va.len() - i,
    {
        if fold_code(va[i]) != fold_code(vb[i]) {
            return false;
        }
        i = i + 1;
    }
    true
}

/// Whether `v[lo..]` starts with `prefix`.
pub fn has_prefix_at(v: &Vec<char>, lo: usize, hi: usize, prefix: &str) -> (r: bool)
    requires
        lo <= hi <= v@.len(),
    ensures
        r == (prefix@.len() <= hi - lo && v@.subrange(lo as int, lo + prefix@.len()) == prefix@),
{
    let p = chars_of(prefix);
    if p.len() > hi - lo {
        return false;
    }
    let mut i: usize = 0;
    while i < p.len()
        invariant
            p@ == prefix@,
            p@.len() <= hi - lo,
            lo <= hi <= v@.len(),
            i <= p@.len(),
            forall|j: int| 0 <= j < i ==> v@[lo + j] == p@[j],
        decreases p.len() - i,
    {
        if v[lo + i] != p[i] {
            assert(v@.subrange(lo as int, lo + prefix@.len())[i as int] != prefix@[i as int]);
            return false;
        }
        i = i + 1;
    }
    assert(v@.subrange(lo as int, lo + prefix@.len()) =~= prefix@);
    true
}

/// The ranges of the white-space separated words of `v[lo..hi]`.
pub fn word_ranges(v: &Vec<char>, lo: usize, hi: usize) -> (r: Vec<(usize, usize)>)
    requires
        lo <= hi <= v@.len(),
    ensures
        r@.len() == words(v@.subrange(lo as int, hi as int)).len(),
        forall|j: int|
            0 <= j < r@.len() ==> lo <= (#[trigger] r@[j]).0 <= r@[j].1 <= hi && v@.subrange(
                r@[j].0 as int,
                r@[j].1 as int,
            ) == words(v@.subrange(lo as int, hi as int))[j],
{
    let ghost pieces = split_class(v@.subrange(lo as int, hi as int), CharClass::Space);
    let ranges = split_ranges(v, lo, hi, CharClass::Space);
    let mut r: Vec<(usize, usize)> = Vec::new();
    let mut j: usize = 0;
    while j < ranges.len()
        invariant
            lo <= hi <= v@.len(),
            pieces == split_class(v@.subrange(lo as int, hi as int), CharClass::Space),
            ranges@.len() == pieces.len(),
            forall|i: int|
                0 <= i < ranges@.len() ==> lo <= (#[trigger] ranges@[i]).0 <= ranges@[i].1 <= hi
                    && v@.subrange(ranges@[i].0 as int, ranges@[i].1 as int) == pieces[i],
            j <= ranges@.len(),
            r@.len() == non_empty(pieces.take(j as int)).len(),
            forall|i: int|
                0 <= i < r@.len() ==> lo <= (#[trigger] r@[i]).0 <= r@[i].1 <= hi && v@.subrange(
                    r@[i].0 as int,
                    r@[i].1 as int,
                ) == non_empty(pieces.take(j as int))[i],
        decreases ranges.len() - j,
    {
        let (a, b) = ranges[j];
        assert(pieces.take(j + 1).drop_last() =~= pieces.take(j as int));
        assert(pieces.take(j + 1).last() == pieces[j as int]);
        if a < b {
            r.push((a, b));
        }
        j = j + 1;
    }
    assert(pieces.take(ranges@.len() as int) =~= pieces);
    r
}

/// Trimming the start leaves a suffix.
pub proof fn lemma_trim_start_suffix(s: Seq<char>, k: CharClass)
    ensures
        trim_start_class(s, k).len() <= s.len(),
        trim_start_class(s, k) == s.skip(s.len() - trim_start_class(s, k).len()),
        trim_start_class(s, k).len() > 0 ==> !in_class_spec(k, trim_start_class(s, k)[0]),
    decreases s.len(),
{
    if s.len() > 0 && in_class_spec(k, s[0]) {
        lemma_trim_start_suffix(s.drop_first(), k);
        let t = trim_start_class(s.drop_first(), k);
        assert(s.drop_first().skip(s.drop_first().len() - t.len()) =~= s.skip(s.len() - t.len()));
    } else {
        assert(s.skip(0) =~= s);
    }
}

/// Trimming the end leaves a prefix.
pub proof fn lemma_trim_end_prefix(s: Seq<char>, k: CharClass)
    ensures
        trim_end_class(s, k).len() <= s.len(),
        trim_end_class(s, k) == s.take(trim_end_class(s, k).len() as int),
        trim_end_class(s, k).len() > 0 ==> !in_class_spec(k, trim_end_class(s, k).last()),
    decreases s.len(),
{
    if s.len() > 0 && in_class_spec(k, s.last()) {
        lemma_trim_end_prefix(s.drop_last(), k);
        let t = trim_end_class(s.drop_last(), k);
        assert(s.drop_last().take(t.len() as int) =~= s.take(t.len() as int));
    } else {
        assert(s.take(s.len() as int) =~= s);
    }
}

/// A trimmed text that is not empty starts and ends outside the class, and each of
/// its characters is one of the untrimmed text's.
pub proof fn lemma_trim_class_ends(s: Seq<char>, k: CharClass)
    ensures
        trim_class(s, k).len() > 0 ==> !in_class_spec(k, trim_class(s, k)[0]) && !in_class_spec(
            k,
            trim_class(s, k).last(),
        ),
        forall|i: int|
            0 <= i < trim_class(s, k).len() ==> exists|j: int|
                0 <= j < s.len() && s[j] == #[trigger] trim_class(s, k)[i],
{
    lemma_trim_start_suffix(s, k);
    let a = trim_start_class(s, k);
    lemma_trim_end_prefix(a, k);
    let t = trim_end_class(a, k);
    if t.len() > 0 {
        assert(t[0] == a[0]);
    }
    assert forall|i: int| 0 <= i < t.len() implies exists|j: int|
        0 <= j < s.len() && s[j] == #[trigger] t[i] by {
        assert(t[i] == a[i]);
        assert(a[i] == s[s.len() - a.len() + i]);
    }
}

/// No piece of a split holds a separator.
pub proof fn lemma_split_pieces_clean(s: Seq<char>, k: CharClass)
    ensures
        forall|i: int, j: int|
            0 <= i < split_class(s, k).len() && 0 <= j < split_class(s, k)[i].len() ==> !in_class_spec(
                k,
                #[trigger] split_class(s, k)[i][j],
            ),
    decreases s.len(),
{
    lemma_split_class_nonempty(s, k);
    if s.len() > 0 {
        lemma_split_pieces_clean(s.drop_last(), k);
        lemma_split_class_nonempty(s.drop_last(), k);
        let r = split_class(s.drop_last(), k);
        if !in_class_spec(k, s.last()) {
            let ps = split_class(s, k);
            assert forall|i: int, j: int|
                0 <= i < ps.len() && 0 <= j < ps[i].len() implies !in_class_spec(k, #[trigger] ps[i][j]) by {
                if i < r.len() - 1 {
                    assert(ps[i] == r[i]);
                } else {
                    assert(ps[i] == r.last().push(s.last()));
                    if j < r.last().len() {
                        assert(ps[i][j] == r[r.len() - 1][j]);
                    }
                }
            }
        }
    }
}

/// Each element left by `non_empty` is a non-empty element of the input.
pub proof fn lemma_non_empty_elements(ps: Seq<Seq<char>>)
    ensures
        forall|i: int|
            0 <= i < non_empty(ps).len() ==> (#[trigger] non_empty(ps)[i]).len() > 0 && exists|j: int|
                0 <= j < ps.len() && ps[j] == non_empty(ps)[i],
    decreases ps.len(),
{
    if ps.len() > 0 {
        lemma_non_empty_elements(ps.drop_last());
        let r = non_empty(ps.drop_last());
        assert forall|i: int| 0 <= i < non_empty(ps).len() implies (#[trigger] non_empty(ps)[i]).len() > 0
            && exists|j: int| 0 <= j < ps.len() && ps[j] == non_empty(ps)[i] by {
            if i < r.len() {
                assert(non_empty(ps)[i] == r[i]);
                let j = choose|j: int| 0 <= j < ps.drop_last().len() && ps.drop_last()[j] == r[i];
                assert(ps[j] == r[i]);
            } else {
                assert(non_empty(ps)[i] == ps.last());
                assert(ps[ps.len() - 1] == ps.last());
            }
        }
    }
}

/// The offset at which element `i` of a join starts.
pub open spec fn join_offset(list: Seq<Seq<char>>, sep: Seq<char>, i: int) -> int {
    if i == 0 {
        0
    } else {
        (join_texts(list.take(i), sep).len() + sep.len()) as int
    }
}

/// Each element of a join stands in it whole.
pub proof fn lemma_join_contains(list: Seq<Seq<char>>, sep: Seq<char>, i: int)
    requires
        0 <= i < list.len(),
    ensures
        0 <= join_offset(list, sep, i),
        join_offset(list, sep, i) + list[i].len() <= join_texts(list, sep).len(),
        join_texts(list, sep).subrange(join_offset(list, sep, i), join_offset(list, sep, i) + list[i].len())
            == list[i],
    decreases list.len(),
{
    let j = join_texts(list, sep);
    if list.len() == 1 {
        assert(j.subrange(0, list[0].len() as int) =~= list[0]);
    } else if i == list.len() - 1 {
        assert(list.take(i) =~= list.drop_last());
        let pre = join_texts(list.drop_last(), sep);
        assert(j == pre + sep + list.last());
        assert(j.subrange((pre.len() + sep.len()) as int, (pre.len() + sep.len() + list[i].len()) as int) =~= list[i]);
    } else {
        lemma_join_contains(list.drop_last(), sep, i);
        let pre = join_texts(list.drop_last(), sep);
        assert(j == pre + sep + list.last());
        assert(list.drop_last().take(i) =~= list.take(i));
        assert(list.drop_last()[i] == list[i]);
        let o = join_offset(list, sep, i);
        assert(j.subrange(o, o + list[i].len()) =~= pre.subrange(o, o + list[i].len()));
    }
}

} // verus!

//! The outcome of checking one server, and the summary of a batch of checks.

use vstd::prelude::*;
use vstd::string::StringExecFns;
use crate::config::{all_answered, matches_expected};
use crate::server::{ParsedServer, ServerView, clone_server};
use crate::text::{join_texts, push_joined, texts};

verus! {

/// Whether a check succeeded.
#[derive(Clone, Copy, PartialEq, Eq, Debug, Structural)]
pub enum CheckStatus {
    /// The lookup answered, and with every expected value.
    Success,
    /// The lookup failed, or its answers lacked an expected value.
    Failure,
}

/// The status as the interface writes it: `ok` or `error`.
pub fn status_text(s: CheckStatus) -> (r: &'static str)
    ensures
        r@ == (match s {
            CheckStatus::Success => "ok"@,
            CheckStatus::Failure => "error"@,
        }),
{
    match s {
        CheckStatus::Success => "ok",
        CheckStatus::Failure => "error",
    }
}

/// The outcome of checking one server.
#[derive(Debug)]
pub struct CheckResult {
    pub line: u32,
    pub server: String,
    pub protocol: Option<String>,
    pub domain: String,
    pub query_type: String,
    pub answers: Vec<String>,
    pub expected: Vec<String>,
    pub matched: Option<bool>,
    pub status: CheckStatus,
    pub error: Option<String>,
    pub response_code: Option<String>,
    /// How long the lookup took, in nanoseconds.
    pub elapsed_nanos: u64,
}

/// A check outcome as plain values.
pub struct CheckView {
    pub line: u32,
    pub server: Seq<char>,
    pub protocol: Option<Seq<char>>,
    pub domain: Seq<char>,
    pub query_type: Seq<char>,
    pub answers: Seq<Seq<char>>,
    pub expected: Seq<Seq<char>>,
    pub matched: Option<bool>,
    pub status: CheckStatus,
    pub error: Option<Seq<char>>,
    pub response_code: Option<Seq<char>>,
    pub elapsed_nanos: u64,
}

impl View for CheckResult {
    type V = CheckView;

    open spec fn view(&self) -> CheckView {
        CheckView {
            line: self.line,
            server: self.server@,
            protocol: crate::server::opt_view(self.protocol),
            domain: self.domain@,
            query_type: self.query_type@,
            answers: texts(self.answers@),
            expected: texts(self.expected@),
            matched: self.matched,
            status: self.status,
            error: crate::server::opt_view(self.error),
            response_code: crate::server::opt_view(self.response_code),
            elapsed_nanos: self.elapsed_nanos,
        }
    }
}

/// The error of a lookup whose answers lack an expected value.
pub open spec fn mismatch_text(expected: Seq<Seq<char>>, answers: Seq<Seq<char>>) -> Seq<char> {
    "expected ["@ + join_texts(expected, ", "@) + "], got ["@ + join_texts(answers, ", "@) + "]"@
}

/// The outcome of checking `server`, given what its lookup gave (the answers, or
/// the error) and how long it took.
pub open spec fn check_outcome(
    server: ServerView,
    domain: Seq<char>,
    query_type: Seq<char>,
    expected: Seq<Seq<char>>,
    lookup: Result<Seq<Seq<char>>, Seq<char>>,
    elapsed_nanos: u64,
) -> CheckView {
    match lookup {
        Ok(answers) => {
            let matched = all_answered(answers, expected);
            CheckView {
                line: server.line,
                server: server.raw,
                protocol: Some(server.protocol),
                domain,
                query_type,
                answers,
                expected,
                matched: Some(matched),
                status: if matched {
                    CheckStatus::Success
                } else {
                    CheckStatus::Failure
                },
                error: if matched {
                    None
                } else {
                    Some(mismatch_text(expected, answers))
                },
                response_code: None,
                elapsed_nanos,
            }
        },
        Err(e) => CheckView {
            line: server.line,
            server: server.raw,
            protocol: Some(server.protocol),
            domain,
            query_type,
            answers: Seq::<Seq<char>>::empty(),
            expected,
            matched: if expected.len() == 0 {
                None
            } else {
                Some(false)
            },
            status: CheckStatus::Failure,
            error: Some(e),
            response_code: None,
            elapsed_nanos,
        },
    }
}

/// A lookup's outcome by its view.
pub open spec fn lookup_view(r: Result<Vec<String>, String>) -> Result<Seq<Seq<char>>, Seq<char>> {
    match r {
        Ok(v) => Ok(texts(v@)),
        Err(e) => Err(e@),
    }
}

/// Builds the outcome of checking `server` from what its lookup gave.
pub fn build_check_result(
    server: ParsedServer,
    domain: String,
    query_type: String,
    expected_values: Vec<String>,
    lookup: Result<Vec<String>, String>,
    elapsed_nanos: u64,
) -> (r: CheckResult)
    ensures
        r@ == check_outcome(
            server@,
            domain@,
            query_type@,
            texts(expected_values@),
            lookup_view(lookup),
            elapsed_nanos,
        ),
{
    proof {
        reveal_strlit("expected [");
        reveal_strlit("], got [");
        reveal_strlit("]");
        reveal_strlit(", ");
    }
    match lookup {
        Ok(answers) => {
            let matched = matches_expected(answers.as_slice(), expected_values.as_slice());
            let status = if matched {
                CheckStatus::Success
            } else {
                CheckStatus::Failure
            };
            let error = if matched {
                None
            } else {
                let mut msg = String::from_str("expected [");
                push_joined(&mut msg, &expected_values, ", ");
                msg.append("], got [");
                push_joined(&mut msg, &answers, ", ");
                msg.append("]");
                Some(msg)
            };
            CheckResult {
                line: server.line,
                server: server.raw,
                protocol: Some(server.protocol),
                domain,
                query_type,
                answers,
                expected: expected_values,
                matched: Some(matched),
                status,
                error,
                response_code: None,
                elapsed_nanos,
            }
        },
        Err(error) => {
            let matched = if expected_values.len() == 0 {
                None
            } else {
                Some(false)
            };
            let answers: Vec<String> = Vec::new();
            assert(texts(answers@) =~= Seq::<Seq<char>>::empty());
            CheckResult {
                line: server.line,
                server: server.raw,
                protocol: Some(server.protocol),
                domain,
                query_type,
                answers,
                expected: expected_values,
                matched,
                status: CheckStatus::Failure,
                error: Some(error),
                response_code: None,
                elapsed_nanos,
            }
        },
    }
}

/// The views of check outcomes.
pub open spec fn check_views(s: Seq<CheckResult>) -> Seq<CheckView> {
    s.map_values(|c: CheckResult| c@)
}

/// The outcomes of `s` on line `k`, in their order in `s`.
pub open spec fn on_line(s: Seq<CheckView>, k: u32) -> Seq<CheckView>
    decreases s.len(),
{
    if s.len() == 0 {
        s
    } else if s.last().line == k {
        on_line(s.drop_last(), k).push(s.last())
    } else {
        on_line(s.drop_last(), k)
    }
}

/// Whether the outcomes are ordered by line.
pub open spec fn sorted_by_line(s: Seq<CheckView>) -> bool {
    forall|i: int, j: int| 0 <= i < j < s.len() ==> s[i].line <= s[j].line
}

/// The number of successful outcomes.
pub open spec fn count_success(s: Seq<CheckView>) -> nat
    decreases s.len(),
{
    if s.len() == 0 {
        0
    } else {
        count_success(s.drop_last()) + if s.last().status == CheckStatus::Success {
            1nat
        } else {
            0nat
        }
    }
}

/// The outcomes on a line of a concatenation are those of the parts.
pub proof fn lemma_on_line_add(a: Seq<CheckView>, b: Seq<CheckView>, k: u32)
    ensures
        on_line(a + b, k) == on_line(a, k) + on_line(b, k),
    decreases b.len(),
{
    if b.len() == 0 {
        assert(a + b =~= a);
        assert(on_line(a, k) + on_line(b, k) =~= on_line(a, k));
    } else {
        lemma_on_line_add(a, b.drop_last(), k);
        assert((a + b).drop_last() =~= a + b.drop_last());
        if b.last().line == k {
            assert(on_line(a, k) + on_line(b.drop_last(), k).push(b.last()) =~= (on_line(a, k)
                + on_line(b.drop_last(), k)).push(b.last()));
        }
    }
}

/// Outcomes none of which is on line `k` have nothing on it.
pub proof fn lemma_on_line_none(a: Seq<CheckView>, k: u32)
    requires
        forall|i: int| 0 <= i < a.len() ==> a[i].line != k,
    ensures
        on_line(a, k) =~= Seq::<CheckView>::empty(),
    decreases a.len(),
{
    if a.len() > 0 {
        lemma_on_line_none(a.drop_last(), k);
    }
}

/// A single outcome on its own.
pub proof fn lemma_on_line_single(x: CheckView, k: u32)
    ensures
        on_line(seq![x], k) == (if x.line == k {
            seq![x]
        } else {
            Seq::<CheckView>::empty()
        }),
{
    assert(seq![x].drop_last() =~= Seq::<CheckView>::empty());
    assert(seq![x].last() == x);
    assert(on_line(Seq::<CheckView>::empty(), k) =~= Seq::<CheckView>::empty());
    assert(Seq::<CheckView>::empty().push(x) =~= seq![x]);
}

/// A summary of a batch of checks.
#[derive(Debug)]
pub struct BatchCheckResponse {
    /// The outcomes, ordered by line.
    pub results: Vec<CheckResult>,
    /// The number of servers checked.
    pub total: u32,
    /// The number of successful checks.
    pub ok: u32,
    /// The number of servers that did not pass: `total - ok`, or 0.
    pub failed: u32,
}

/// Summarizes the outcomes of a batch of `total` checks: they are ordered by line,
/// keeping the order in which they came for equal lines, and the successes counted.
pub fn summarize_batch(results: Vec<CheckResult>, total: u32) -> (r: BatchCheckResponse)
    requires
        results@.len() <= u32::MAX,
    ensures
        r.results@.len() == results@.len(),
        sorted_by_line(check_views(r.results@)),
        forall|k: u32| on_line(check_views(r.results@), k) == on_line(check_views(results@), k),
        r.ok == count_success(check_views(results@)),
        r.ok <= results@.len(),
        results@.len() == total ==> r.ok + r.failed == total,
        r.total == total,
        r.failed == (if total >= r.ok {
            total - r.ok
        } else {
            0
        }),
{
    let ghost input = check_views(results@);
    let mut ok: u32 = 0;
    let mut i: usize = 0;
    while i < results.len()
        invariant
            input == check_views(results@),
            results@.len() <= u32::MAX,
            i <= results@.len(),
            ok == count_success(input.take(i as int)),
            ok <= i,
        decreases results.len() - i,
    {
        assert(input.take(i + 1).drop_last() =~= input.take(i as int));
        assert(input.take(i + 1).last() == results@[i as int]@);
        match results[i].status {
            CheckStatus::Success => {
                ok = ok + 1;
            },
            CheckStatus::Failure => {},
        }
        i = i + 1;
    }
    assert(input.take(results@.len() as int) =~= input);
    let mut rest = results;
    let mut sorted: Vec<CheckResult> = Vec::new();
    assert(input.skip(input.len() as int) =~= Seq::<CheckView>::empty());
    assert(check_views(rest@) =~= input.take(input.len() as int));
    while rest.len() > 0
        invariant
            check_views(rest@) == input.take(rest@.len() as int),
            rest@.len() <= input.len(),
            sorted@.len() + rest@.len() == input.len(),
            input.len() == results@.len(),
            sorted_by_line(check_views(sorted@)),
            forall|k: u32|
                on_line(check_views(sorted@), k) == on_line(input.skip(rest@.len() as int), k),
        decreases rest.len(),
    {
        let m = rest.len();
        let ghost old_rest = rest@;
        assert(check_views(old_rest)[m - 1] == old_rest[m - 1]@);
        assert(input.take(m as int)[m - 1] == input[m - 1]);
        let item = rest.pop().unwrap();
        assert(item@ == input[m - 1]);
        assert(check_views(rest@) =~= input.take(m - 1));
        let ghost before = check_views(sorted@);
        let mut p: usize = 0;
        while p < sorted.len() && sorted[p].line < item.line
            invariant
                p <= sorted@.len(),
                before == check_views(sorted@),
                forall|j: int| 0 <= j < p ==> before[j].line < item.line,
            decreases sorted.len() - p,
        {
            p = p + 1;
        }
        let ghost x = item@;
        sorted.insert(p, item);
        let ghost after = check_views(sorted@);
        assert(after =~= before.insert(p as int, x));
        assert forall|j: int| p <= j < before.len() implies before[j].line >= x.line by {
            if p < before.len() {
                assert(before[p as int].line >= x.line);
            }
        }
        assert(sorted_by_line(after));
        assert forall|k: u32| on_line(after, k) == on_line(input.skip(m - 1), k) by {
            let a = before.take(p as int);
            let b = before.skip(p as int);
            assert(before =~= a + b);
            assert(after =~= a + seq![x] + b);
            assert(input.skip(m - 1) =~= seq![x] + input.skip(m as int));
            lemma_on_line_add(a, b, k);
            lemma_on_line_add(a + seq![x], b, k);
            lemma_on_line_add(a, seq![x], k);
            lemma_on_line_add(seq![x], input.skip(m as int), k);
            lemma_on_line_single(x, k);
            if x.line == k {
                lemma_on_line_none(a, k);
            }
        }
    }
    assert(input.skip(0) =~= input);
    BatchCheckResponse { results: sorted, total, ok, failed: total.saturating_sub(ok) }
}

/// A member of `s` on line `k` is a member of its outcomes on that line, and back.
pub proof fn lemma_on_line_members(s: Seq<CheckView>, k: u32)
    ensures
        forall|x: CheckView| s.contains(x) && x.line == k ==> on_line(s, k).contains(x),
        forall|x: CheckView| on_line(s, k).contains(x) ==> s.contains(x),
    decreases s.len(),
{
    if s.len() > 0 {
        lemma_on_line_members(s.drop_last(), k);
        let r = on_line(s.drop_last(), k);
        assert forall|x: CheckView| s.contains(x) && x.line == k implies on_line(s, k).contains(x) by {
            let i = choose|i: int| 0 <= i < s.len() && s[i] == x;
            if i < s.len() - 1 {
                assert(s.drop_last()[i] == x);
                assert(s.drop_last().contains(x));
                assert(r.contains(x));
                let j = choose|j: int| 0 <= j < r.len() && r[j] == x;
                if s.last().line == k {
                    assert(on_line(s, k) == r.push(s.last()));
                    assert(on_line(s, k)[j] == x);
                } else {
                    assert(on_line(s, k) == r);
                }
            } else {
                assert(s.last() == x);
                assert(on_line(s, k) == r.push(s.last()));
                assert(on_line(s, k)[r.len() as int] == x);
            }
        }
        assert forall|x: CheckView| on_line(s, k).contains(x) implies s.contains(x) by {
            let j = choose|j: int| 0 <= j < on_line(s, k).len() && on_line(s, k)[j] == x;
            if s.last().line == k {
                assert(on_line(s, k) == r.push(s.last()));
                if j < r.len() {
                    assert(r[j] == x);
                    assert(r.contains(x));
                    assert(on_line(s.drop_last(), k).contains(x));
                    assert(s.drop_last().contains(x));
                    let i = choose|i: int| 0 <= i < s.drop_last().len() && s.drop_last()[i] == x;
                    assert(s[i] == x);
                } else {
                    assert(s[s.len() - 1] == x);
                }
            } else {
                assert(on_line(s, k) == r);
                assert(r[j] == x);
                assert(r.contains(x));
                assert(on_line(s.drop_last(), k).contains(x));
                assert(s.drop_last().contains(x));
                let i = choose|i: int| 0 <= i < s.drop_last().len() && s.drop_last()[i] == x;
                assert(s[i] == x);
            }
        }
    }
}

/// What the lookup of one server gave: the server's index in the plan, the
/// answers or the error, and how long the lookup took.
#[derive(Debug)]
pub struct ServerLookup {
    pub index: usize,
    pub lookup: Result<Vec<String>, String>,
    pub elapsed_nanos: u64,
}

/// The outcomes of the lookups, in the order they came, each built from the
/// server it concerns.
pub open spec fn batch_outcomes(
    servers: Seq<ParsedServer>,
    domain: Seq<char>,
    query_type: Seq<char>,
    expected: Seq<Seq<char>>,
    lookups: Seq<ServerLookup>,
) -> Seq<CheckView> {
    Seq::new(
        lookups.len(),
        |k: int|
            check_outcome(
                servers[lookups[k].index as int]@,
                domain,
                query_type,
                expected,
                lookup_view(lookups[k].lookup),
                lookups[k].elapsed_nanos,
            ),
    )
}

/// A copy of a list of strings.
fn clone_strings(v: &Vec<String>) -> (r: Vec<String>)
    ensures
        r@ == v@,
{
    let mut r: Vec<String> = Vec::new();
    let mut i: usize = 0;
    while i < v.len()
        invariant
            i <= v@.len(),
            r@ == v@.take(i as int),
        decreases v.len() - i,
    {
        r.push(v[i].clone());
        assert(r@ =~= v@.take(i + 1));
        i = i + 1;
    }
    assert(v@.take(v@.len() as int) =~= v@);
    r
}

/// Builds the summary of a batch from the lookups of its servers: each lookup
/// becomes the outcome of checking its server, exactly as a single check would,
/// and the outcomes are summarized as `summarize_batch` does.
pub fn assemble_batch(
    servers: &Vec<ParsedServer>,
    domain: &str,
    query_type: &str,
    expected: &Vec<String>,
    lookups: Vec<ServerLookup>,
    total: u32,
) -> (r: BatchCheckResponse)
    requires
        forall|k: int| 0 <= k < lookups@.len() ==> (#[trigger] lookups@[k]).index < servers@.len(),
        lookups@.len() <= u32::MAX,
    ensures
        ({
            let built = batch_outcomes(servers@, domain@, query_type@, texts(expected@), lookups@);
            &&& r.results@.len() == lookups@.len()
            &&& sorted_by_line(check_views(r.results@))
            &&& forall|k: u32| on_line(check_views(r.results@), k) == on_line(built, k)
            &&& forall|i: int|
                0 <= i < r.results@.len() ==> exists|k: int|
                    0 <= k < built.len() && built[k] == (#[trigger] r.results@[i])@
            &&& r.ok == count_success(built)
            &&& r.total == total
            &&& r.failed == (if total >= r.ok {
                total - r.ok
            } else {
                0
            })
        }),
{
    let ghost built = batch_outcomes(servers@, domain@, query_type@, texts(expected@), lookups@);
    let ghost all = lookups@;
    let mut rest = lookups;
    let mut results: Vec<CheckResult> = Vec::new();
    let mut k: usize = 0;
    while rest.len() > 0
        invariant
            k + rest@.len() == all.len(),
            all.len() <= u32::MAX,
            rest@ == all.skip(k as int),
            check_views(results@) == built.take(k as int),
            built == batch_outcomes(servers@, domain@, query_type@, texts(expected@), all),
            forall|j: int| 0 <= j < all.len() ==> (#[trigger] all[j]).index < servers@.len(),
        decreases rest.len(),
    {
        let l = rest.remove(0);
        assert(l == all[k as int]);
        assert(rest@ =~= all.skip(k + 1));
        let server = clone_server(&servers[l.index]);
        let c = build_check_result(
            server,
            String::from_str(domain),
            String::from_str(query_type),
            clone_strings(expected),
            l.lookup,
            l.elapsed_nanos,
        );
        let ghost cv = c@;
        let ghost prev = results@;
        results.push(c);
        assert(check_views(results@) =~= check_views(prev).push(cv));
        assert(built.take(k + 1) =~= built.take(k as int).push(cv));
        k = k + 1;
    }
    assert(built.take(k as int) =~= built);
    let r = summarize_batch(results, total);
    proof {
        let out = check_views(r.results@);
        assert forall|i: int| 0 <= i < r.results@.len() implies exists|k: int|
            0 <= k < built.len() && built[k] == (#[trigger] r.results@[i])@ by {
            let x = out[i];
            assert(x == r.results@[i]@);
            lemma_on_line_members(out, x.line);
            lemma_on_line_members(built, x.line);
            assert(out.contains(x));
            assert(on_line(out, x.line).contains(x));
            assert(built.contains(x));
        }
    }
    r
}

} // verus!

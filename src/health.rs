use vstd::prelude::*;

use crate::checks::{Check, CheckContext, CheckModel};
use crate::sample::{PrometheusSample, SampleModel};
use crate::sample_parser::{lemma_skip_skip, parse_line, parse_sample_chars, run_len, scan_run, CharClass};
use crate::order::{lemma_lex_irreflexive, lemma_sorted_unique, sort_strings, strictly_sorted, strings_view};
use crate::text::to_chars;

verus! {

/// Why a run failed.
#[derive(Debug)]
pub enum HealthCheckError {
    /// A failure described by its text alone, such as one of retrieval.
    Other(String),
    /// The first sample with a failing check: its name, the bit pattern of its
    /// value, and the checks on that name that it fails, in request order.
    Unsatisfied { name: String, value: u64, failed: Vec<Check> },
    /// The requested metric names that no sample confirmed, each once, in
    /// increasing order.
    Missing { names: Vec<String> },
}

/// An error that carries only a message.
pub fn string_error(message: String) -> (r: HealthCheckError)
    ensures
        r matches HealthCheckError::Other(m) && m@ == message@,
{
    HealthCheckError::Other(message)
}

pub open spec fn checks_view(checks: Seq<Check>) -> Seq<CheckModel> {
    checks.map_values(|c: Check| c@)
}

/// A line without its final carriage return, if it has one.
pub open spec fn strip_cr(l: Seq<char>) -> Seq<char> {
    if l.len() > 0 && l.last() == '\r' {
        l.drop_last()
    } else {
        l
    }
}

/// The lines of a text: split at each `\n`, each line without a `\r` just
/// before its `\n`; a final `\n` starts no further line.
pub open spec fn lines_of(s: Seq<char>) -> Seq<Seq<char>>
    decreases s.len(),
{
    if s.len() == 0 {
        Seq::empty()
    } else {
        let e = run_len(s, CharClass::NotNewline);
        if e >= s.len() {
            seq![s]
        } else {
            seq![strip_cr(s.take(e as int))] + lines_of(s.skip(e + 1 as int))
        }
    }
}

/// Comment lines start with `#` and are never parsed.
pub open spec fn is_comment(l: Seq<char>) -> bool {
    l.len() > 0 && l[0] == '#'
}

/// The sample a line contributes, if any.
pub open spec fn line_sample(l: Seq<char>) -> Option<SampleModel> {
    if is_comment(l) {
        None
    } else {
        parse_line(l)
    }
}

/// Some check asks about `name`.
pub open spec fn is_requested(checks: Seq<CheckModel>, name: Seq<char>) -> bool {
    exists|i: int| 0 <= i < checks.len() && (#[trigger] checks[i]).name == name
}

/// The distinct names that the checks ask about.
pub open spec fn requested(checks: Seq<CheckModel>) -> Set<Seq<char>> {
    Set::new(|name: Seq<char>| is_requested(checks, name))
}

/// The checks on `name` that `value` fails, in the order of `checks`.
pub open spec fn failed_checks(
    checks: Seq<CheckModel>,
    name: Seq<char>,
    value: u64,
    context: CheckContext,
) -> Seq<CheckModel>
    decreases checks.len(),
{
    if checks.len() == 0 {
        Seq::empty()
    } else {
        let earlier = failed_checks(checks.drop_last(), name, value, context);
        let c = checks.last();
        if c.name == name && !c.check_type.holds(value, context) {
            earlier.push(c)
        } else {
            earlier
        }
    }
}

/// Reads the lines in order with the names confirmed so far: the names
/// confirmed at the end, or the first sample with failing checks and those
/// checks.
pub open spec fn scan(
    context: CheckContext,
    checks: Seq<CheckModel>,
    lines: Seq<Seq<char>>,
    confirmed: Set<Seq<char>>,
) -> Result<Set<Seq<char>>, (SampleModel, Seq<CheckModel>)>
    decreases lines.len(),
{
    if lines.len() == 0 {
        Ok(confirmed)
    } else {
        match line_sample(lines[0]) {
            None => scan(context, checks, lines.skip(1), confirmed),
            Some(sample) => {
                let failed = failed_checks(checks, sample.name, sample.value, context);
                if failed.len() > 0 {
                    Err((sample, failed))
                } else if is_requested(checks, sample.name) {
                    scan(context, checks, lines.skip(1), confirmed.insert(sample.name))
                } else {
                    scan(context, checks, lines.skip(1), confirmed)
                }
            },
        }
    }
}

/// What a run ends with: success, or the first sample with failing checks
/// and those checks, or the set of requested names never confirmed.
pub enum Verdict {
    Pass,
    Unsatisfied(SampleModel, Seq<CheckModel>),
    Missing(Set<Seq<char>>),
}

pub open spec fn verdict_of_lines(
    context: CheckContext,
    checks: Seq<CheckModel>,
    lines: Seq<Seq<char>>,
) -> Verdict {
    match scan(context, checks, lines, Set::empty()) {
        Err((sample, failed)) => Verdict::Unsatisfied(sample, failed),
        Ok(confirmed) => {
            let missing = requested(checks).difference(confirmed);
            if missing.is_empty() {
                Verdict::Pass
            } else {
                Verdict::Missing(missing)
            }
        },
    }
}

/// `r` is how `match_metrics` hands back the verdict `v`.
pub open spec fn reports(r: Result<(), HealthCheckError>, v: Verdict) -> bool {
    match v {
        Verdict::Pass => r is Ok,
        Verdict::Unsatisfied(sample, failed) => r is Err && match r->Err_0 {
            HealthCheckError::Unsatisfied { name, value, failed: f } => name@ == sample.name
                && value == sample.value && checks_view(f@) == failed,
            _ => false,
        },
        Verdict::Missing(missing) => r is Err && match r->Err_0 {
            HealthCheckError::Missing { names } => strictly_sorted(strings_view(names@))
                && strings_view(names@).no_duplicates() && strings_view(names@).to_set() == missing,
            _ => false,
        },
    }
}

/// Two results of runs say the same: both succeed, or both name the same
/// failing sample, value and checks, or the same missing names in the same
/// order.
pub open spec fn same_outcome(a: Result<(), HealthCheckError>, b: Result<(), HealthCheckError>) -> bool {
    match (a, b) {
        (Ok(()), Ok(())) => true,
        (
            Err(HealthCheckError::Unsatisfied { name: n1, value: v1, failed: f1 }),
            Err(HealthCheckError::Unsatisfied { name: n2, value: v2, failed: f2 }),
        ) => n1@ == n2@ && v1 == v2 && checks_view(f1@) == checks_view(f2@),
        (Err(HealthCheckError::Missing { names: m1 }), Err(HealthCheckError::Missing { names: m2 })) => {
            strings_view(m1@) == strings_view(m2@)
        },
        _ => false,
    }
}

/// The verdict of a whole run over a body.
pub open spec fn verdict(context: CheckContext, checks: Seq<CheckModel>, body: Seq<char>) -> Verdict {
    verdict_of_lines(context, checks, lines_of(body))
}

/// The characters `v[a..e]`, less a final `\r` when `e` stands on a `\n`.
fn line_at(v: &Vec<char>, a: usize, e: usize) -> (r: Vec<char>)
    requires
        a <= e <= v.len(),
    ensures
        e < v.len() ==> r@ == strip_cr(v@.subrange(a as int, e as int)),
        e == v.len() ==> r@ == v@.subrange(a as int, e as int),
{
    let end: usize = if e < v.len() && e > a && v[e - 1] == '\r' {
        e - 1
    } else {
        e
    };
    let mut r: Vec<char> = Vec::new();
    let mut k: usize = a;
    while k < end
        invariant
            a <= k <= end <= e <= v.len(),
            r@ == v@.subrange(a as int, k as int),
        decreases end - k,
    {
        r.push(v[k]);
        k = k + 1;
        assert(r@ =~= v@.subrange(a as int, k as int));
    }
    if end < e {
        assert(v@.subrange(a as int, e as int).drop_last() =~= v@.subrange(a as int, e - 1));
    }
    r
}

/// Holds one sample against every check on its name: the checks it fails, in
/// request order. When none fails, each check on that name is marked seen.
fn evaluate_sample(
    context: CheckContext,
    checks: &[Check],
    sample: &PrometheusSample,
    seen: &mut Vec<bool>,
) -> (failed: Vec<Check>)
    requires
        old(seen).len() == checks.len(),
    ensures
        checks_view(failed@) == failed_checks(
            checks_view(checks@),
            sample.name@,
            sample.value,
            context,
        ),
        final(seen).len() == checks.len(),
        forall|j: int|
            0 <= j < checks.len() ==> #[trigger] final(seen)[j] == (old(seen)[j] || checks@[j].name@
                == sample.name@),
{
    let ghost cv = checks_view(checks@);
    let mut failed: Vec<Check> = Vec::new();
    let mut j: usize = 0;
    assert(cv.take(0) =~= Seq::<CheckModel>::empty());
    assert(checks_view(failed@) =~= Seq::<CheckModel>::empty());
    while j < checks.len()
        invariant
            j <= checks.len(),
            cv == checks_view(checks@),
            seen.len() == checks.len(),
            checks_view(failed@) == failed_checks(
                cv.take(j as int),
                sample.name@,
                sample.value,
                context,
            ),
            forall|k: int|
                0 <= k < j ==> #[trigger] seen[k] == (old(seen)[k] || checks@[k].name@
                    == sample.name@),
            forall|k: int| j <= k < checks.len() ==> #[trigger] seen[k] == old(seen)[k],
        decreases checks.len() - j,
    {
        let c = &checks[j];
        assert(cv.take(j + 1).drop_last() =~= cv.take(j as int));
        assert(cv.take(j + 1).last() == c@);
        if c.name == sample.name {
            seen.set(j, true);
            if !c.check_type.is_satisfied_by(sample.value, context) {
                let ghost before = failed@;
                failed.push(Check { name: c.name.clone(), check_type: c.check_type });
                assert(checks_view(failed@) =~= checks_view(before).push(c@));
            }
        }
        j = j + 1;
    }
    assert(cv.take(checks.len() as int) =~= cv);
    failed
}

/// The requested names of the checks not marked seen, each once.
fn unseen_names(checks: &[Check], seen: &Vec<bool>) -> (names: Vec<String>)
    requires
        seen.len() == checks.len(),
    ensures
        strings_view(names@).no_duplicates(),
        forall|name: Seq<char>|
            #[trigger] strings_view(names@).contains(name) <==> exists|j: int|
                0 <= j < checks.len() && !seen[j] && (#[trigger] checks@[j]).name@ == name,
{
    let mut names: Vec<String> = Vec::new();
    let mut j: usize = 0;
    while j < checks.len()
        invariant
            j <= checks.len(),
            seen.len() == checks.len(),
            strings_view(names@).no_duplicates(),
            forall|name: Seq<char>|
                #[trigger] strings_view(names@).contains(name) <==> exists|k: int|
                    0 <= k < j && !seen[k] && (#[trigger] checks@[k]).name@ == name,
        decreases checks.len() - j,
    {
        let ghost old_names = names@;
        let ghost before = strings_view(names@);
        let ghost cname = checks@[j as int].name@;
        let ghost mut pushed = false;
        if !seen[j] {
            let mut present = false;
            let mut k: usize = 0;
            while k < names.len()
                invariant
                    j < checks.len(),
                    k <= names.len(),
                    before == strings_view(names@),
                    cname == checks@[j as int].name@,
                    present == exists|m: int| 0 <= m < k && before[m] == cname,
                decreases names.len() - k,
            {
                assert(before[k as int] == names@[k as int]@);
                if names[k] == checks[j].name {
                    present = true;
                }
                k = k + 1;
            }
            if !present {
                assert(!before.contains(cname));
                names.push(checks[j].name.clone());
                assert(strings_view(names@) =~= before.push(cname));
                proof {
                    pushed = true;
                }
            } else {
                assert(before.contains(cname));
            }
        }
        let ghost after = strings_view(names@);
        assert(pushed ==> after == before.push(cname));
        assert(!pushed ==> after == before);
        assert(!seen[j as int] ==> after.contains(cname)) by {
            if pushed {
                assert(after[after.len() - 1] == cname);
            }
        }
        assert forall|name: Seq<char>| #[trigger] after.contains(name) implies exists|k: int|
            0 <= k < j + 1 && !seen[k] && (#[trigger] checks@[k]).name@ == name by {
            let i = choose|i: int| 0 <= i < after.len() && after[i] == name;
            if pushed && i == after.len() - 1 {
                assert(!seen[j as int] && checks@[j as int].name@ == name);
            } else {
                assert(before[i] == name);
                assert(before.contains(name));
                assert(strings_view(old_names).contains(name));
            }
        }
        assert forall|name: Seq<char>| (exists|k: int|
            0 <= k < j + 1 && !seen[k] && (#[trigger] checks@[k]).name@ == name) implies #[trigger] after.contains(name) by {
            let k = choose|k: int| 0 <= k < j + 1 && !seen[k] && (#[trigger] checks@[k]).name@ == name;
            if k < j {
                assert(strings_view(old_names).contains(name));
                let i = choose|i: int| 0 <= i < before.len() && before[i] == name;
                assert(after[i] == name);
            }
        }
        j = j + 1;
    }
    names
}

/// Runs the checks over a body: reads its lines in order, drops comments and
/// lines that do not parse, holds each sample against the checks on its name,
/// and stops at the first sample that fails one. After the last line, every
/// requested name must have been confirmed by a sample.
pub fn match_metrics(context: CheckContext, checks: &[Check], body: &str) -> (r: Result<
    (),
    HealthCheckError,
>)
    ensures
        reports(r, verdict(context, checks_view(checks@), body@)),
{
    let v = to_chars(body);
    let ghost cv = checks_view(checks@);
    let mut seen: Vec<bool> = Vec::new();
    while seen.len() < checks.len()
        invariant
            seen.len() <= checks.len(),
            forall|j: int| 0 <= j < seen.len() ==> !#[trigger] seen[j],
        decreases checks.len() - seen.len(),
    {
        seen.push(false);
    }
    let ghost mut confirmed: Set<Seq<char>> = Set::empty();
    let mut i: usize = 0;
    assert(v@.skip(0) =~= v@);
    while i < v.len()
        invariant
            i <= v.len(),
            v@ == body@,
            cv == checks_view(checks@),
            seen.len() == checks.len(),
            scan(context, cv, lines_of(v@), Set::empty()) == scan(
                context,
                cv,
                lines_of(v@.skip(i as int)),
                confirmed,
            ),
            forall|j: int| 0 <= j < checks.len() ==> #[trigger] seen[j] == confirmed.contains(cv[j].name),
            confirmed.subset_of(requested(cv)),
        decreases v.len() - i,
    {
        let e = scan_run(&v, i, CharClass::NotNewline);
        let line = line_at(&v, i, e);
        let ghost s = v@.skip(i as int);
        let next: usize = if e < v.len() {
            e + 1
        } else {
            e
        };
        proof {
            if e < v.len() {
                lemma_skip_skip(v@, i as int, e + 1 - i);
                assert(s.take(e - i) =~= v@.subrange(i as int, e as int));
            } else {
                assert(s =~= v@.subrange(i as int, e as int));
                assert(lines_of(v@.skip(next as int)) =~= Seq::empty());
            }
            assert(lines_of(s) =~= seq![line@] + lines_of(v@.skip(next as int)));
            assert((seq![line@] + lines_of(v@.skip(next as int))).skip(1) =~= lines_of(
                v@.skip(next as int),
            ));
        }
        if !(line.len() > 0 && line[0] == '#') {
            match parse_sample_chars(&line) {
                None => {},
                Some(sample) => {
                    let ghost old_seen = seen@;
                    let failed = evaluate_sample(context, checks, &sample, &mut seen);
                    proof {
                        let ls = lines_of(s);
                        assert(ls[0] == line@);
                        assert(line_sample(ls[0]) == Some(sample@));
                    }
                    if failed.len() > 0 {
                        assert(checks_view(failed@).len() > 0);
                        assert(verdict(context, cv, body@) == Verdict::Unsatisfied(
                            sample@,
                            checks_view(failed@),
                        ));
                        return Err(
                            HealthCheckError::Unsatisfied {
                                name: sample.name,
                                value: sample.value,
                                failed,
                            },
                        );
                    }
                    proof {
                        if is_requested(cv, sample.name@) {
                            confirmed = confirmed.insert(sample.name@);
                        } else {
                            assert forall|j: int| 0 <= j < checks.len() implies cv[j].name
                                != sample.name@ by {
                                if cv[j].name == sample.name@ {
                                    assert(is_requested(cv, sample.name@));
                                }
                            }
                        }
                    }
                },
            }
        }
        i = next;
    }
    assert(lines_of(v@.skip(i as int)) =~= Seq::empty());
    let names = sort_strings(unseen_names(checks, &seen));
    proof {
        let sv = strings_view(names@);
        assert forall|a: int, b: int| 0 <= a < sv.len() && 0 <= b < sv.len() && a != b implies sv[a]
            != sv[b] by {
            lemma_lex_irreflexive(sv[a]);
        }
    }
    let ghost missing = requested(cv).difference(confirmed);
    assert forall|name: Seq<char>| #[trigger] missing.contains(name) <==> strings_view(
        names@,
    ).contains(name) by {
        if missing.contains(name) {
            let j = choose|j: int| 0 <= j < cv.len() && (#[trigger] cv[j]).name == name;
            assert(checks@[j].name@ == name);
        }
    }
    assert(strings_view(names@).to_set() =~= missing);
    if names.len() == 0 {
        assert(missing =~= Set::empty()) by {
            assert forall|name: Seq<char>| !missing.contains(name) by {
                if missing.contains(name) {
                    assert(strings_view(names@).contains(name));
                }
            }
        }
        Ok(())
    } else {
        assert(missing.contains(strings_view(names@)[0]));
        Err(HealthCheckError::Missing { names })
    }
}

/// Two runs over the same context, checks and body end alike: the verdict is a
/// function of those three alone.
pub proof fn lemma_runs_agree(
    context: CheckContext,
    checks: Seq<CheckModel>,
    body: Seq<char>,
    first: Result<(), HealthCheckError>,
    second: Result<(), HealthCheckError>,
)
    requires
        reports(first, verdict(context, checks, body)),
        reports(second, verdict(context, checks, body)),
    ensures
        same_outcome(first, second),
{
    if let (
        Err(HealthCheckError::Missing { names: m1 }),
        Err(HealthCheckError::Missing { names: m2 }),
    ) = (first, second) {
        lemma_sorted_unique(strings_view(m1@), strings_view(m2@));
    }
}

proof fn lemma_scan_insert(
    context: CheckContext,
    checks: Seq<CheckModel>,
    lines: Seq<Seq<char>>,
    k: int,
    bad: Seq<char>,
    confirmed: Set<Seq<char>>,
)
    requires
        0 <= k <= lines.len(),
        line_sample(bad) is None,
    ensures
        scan(context, checks, lines.insert(k, bad), confirmed) == scan(
            context,
            checks,
            lines,
            confirmed,
        ),
    decreases k,
{
    let ins = lines.insert(k, bad);
    if k == 0 {
        assert(ins[0] == bad);
        assert(ins.skip(1) =~= lines);
    } else {
        assert(ins[0] == lines[0]);
        assert(ins.skip(1) =~= lines.skip(1).insert(k - 1, bad));
        lemma_scan_insert(context, checks, lines.skip(1), k - 1, bad, confirmed);
        if let Some(sample) = line_sample(lines[0]) {
            lemma_scan_insert(context, checks, lines.skip(1), k - 1, bad, confirmed.insert(sample.name));
        }
    }
}

/// A line that does not parse, put anywhere among the lines of a body, leaves
/// the verdict as it was.
pub proof fn lemma_unparsable_line_changes_nothing(
    context: CheckContext,
    checks: Seq<CheckModel>,
    lines: Seq<Seq<char>>,
    k: int,
    bad: Seq<char>,
)
    requires
        0 <= k <= lines.len(),
        parse_line(bad) is None,
    ensures
        verdict_of_lines(context, checks, lines.insert(k, bad)) == verdict_of_lines(
            context,
            checks,
            lines,
        ),
{
    lemma_scan_insert(context, checks, lines, k, bad, Set::empty());
}

} // verus!

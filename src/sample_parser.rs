use vstd::prelude::*;

use crate::sample::{labels_view, LabelsModel, PrometheusSample, SampleModel};
use crate::text::{f64_bits_of, parse_double, to_chars, to_string};

verus! {

// Grammar of one exposition line:
//   name [ "{" [ key "=" '"' text '"' { "," key "=" '"' text '"' } ] "}" ]
//   spaces value [ spaces timestamp ]
// and nothing more. Each rule below takes the longest run it can, as the
// line is read left to right.

/// The character classes that the grammar reads runs of.
pub enum CharClass {
    Ident,
    Space,
    Digit,
    NotQuote,
    NotNewline,
}

pub open spec fn in_class(c: char, k: CharClass) -> bool {
    match k {
        CharClass::Ident => ('a' <= c && c <= 'z') || ('A' <= c && c <= 'Z') || ('0' <= c && c
            <= '9') || c == '_',
        CharClass::Space => c == ' ' || c == '\t',
        CharClass::Digit => '0' <= c && c <= '9',
        CharClass::NotQuote => c != '"',
        CharClass::NotNewline => c != '\n',
    }
}

/// The length of the longest prefix of `s` whose characters are all in `k`.
pub open spec fn run_len(s: Seq<char>, k: CharClass) -> nat
    decreases s.len(),
{
    if s.len() > 0 && in_class(s[0], k) {
        1 + run_len(s.skip(1), k)
    } else {
        0
    }
}

pub open spec fn is_sign(c: char) -> bool {
    c == '+' || c == '-'
}

/// `c` is the letter `lower` in either case.
pub open spec fn letter_ci(c: char, lower: char) -> bool {
    c == lower || c as u32 == (lower as u32) - 32
}

/// The words `nan` and `inf`, in any case.
pub open spec fn special_len(s: Seq<char>) -> Option<nat> {
    if s.len() >= 3 && ((letter_ci(s[0], 'n') && letter_ci(s[1], 'a') && letter_ci(s[2], 'n'))
        || (letter_ci(s[0], 'i') && letter_ci(s[1], 'n') && letter_ci(s[2], 'f'))) {
        Some(3)
    } else {
        None
    }
}

/// Digits with an optional fraction, or a point and digits.
pub open spec fn mantissa_len(t: Seq<char>) -> Option<nat> {
    let n = run_len(t, CharClass::Digit);
    if n > 0 {
        if n < t.len() && t[n as int] == '.' {
            Some(n + 1 + run_len(t.skip(n + 1 as int), CharClass::Digit))
        } else {
            Some(n)
        }
    } else if t.len() > 1 && t[0] == '.' && in_class(t[1], CharClass::Digit) {
        Some(1 + run_len(t.skip(1), CharClass::Digit))
    } else {
        None
    }
}

/// After the mantissa: nothing, or `e`/`E`, an optional sign, and digits.
pub open spec fn exponent_len(u: Seq<char>) -> Option<nat> {
    if u.len() > 0 && (u[0] == 'e' || u[0] == 'E') {
        let es: nat = if u.len() > 1 && is_sign(u[1]) {
            2
        } else {
            1
        };
        let d = run_len(u.skip(es as int), CharClass::Digit);
        if d > 0 {
            Some(es + d)
        } else {
            None
        }
    } else {
        Some(0)
    }
}

/// The length of the float literal at the start of `s`: an optional sign, a
/// mantissa and an optional exponent; or else `nan` or `inf`.
pub open spec fn float_len(s: Seq<char>) -> Option<nat> {
    let sign: nat = if s.len() > 0 && is_sign(s[0]) {
        1
    } else {
        0
    };
    let t = s.skip(sign as int);
    match mantissa_len(t) {
        Some(m) => match exponent_len(t.skip(m as int)) {
            Some(e) => Some(sign + m + e),
            None => None,
        },
        None => special_len(s),
    }
}

/// `s` is one whole float literal.
pub open spec fn is_float_token(s: Seq<char>) -> bool {
    float_len(s) == Some(s.len())
}

pub open spec fn digit_value(c: char) -> nat {
    (c as u32 - '0' as u32) as nat
}

/// The number that a run of decimal digits spells.
pub open spec fn digits_value(s: Seq<char>) -> nat
    decreases s.len(),
{
    if s.len() == 0 {
        0
    } else {
        digits_value(s.drop_last()) * 10 + digit_value(s.last())
    }
}

/// `key="text"` pairs separated by commas and closed by `}`; the pairs and
/// what follows the brace.
pub open spec fn label_pairs(r: Seq<char>) -> Option<(LabelsModel, Seq<char>)>
    decreases r.len(),
{
    let k = run_len(r, CharClass::Ident);
    if k == 0 || k + 1 >= r.len() || r[k as int] != '=' || r[k + 1 as int] != '"' {
        None
    } else {
        let body = r.skip(k + 2 as int);
        let q = run_len(body, CharClass::NotQuote);
        if q >= body.len() {
            None
        } else {
            let pair = (r.take(k as int), body.take(q as int));
            let rest = body.skip(q + 1 as int);
            if rest.len() > 0 && rest[0] == ',' {
                match label_pairs(rest.skip(1)) {
                    Some((more, after)) => Some((seq![pair] + more, after)),
                    None => None,
                }
            } else if rest.len() > 0 && rest[0] == '}' {
                Some((seq![pair], rest.skip(1)))
            } else {
                None
            }
        }
    }
}

/// The optional label block after the name: absent, or `{` then `}` or pairs.
pub open spec fn label_block(r: Seq<char>) -> Option<(Option<LabelsModel>, Seq<char>)> {
    if r.len() > 0 && r[0] == '{' {
        let inner = r.skip(1);
        if inner.len() > 0 && inner[0] == '}' {
            Some((Some(Seq::empty()), inner.skip(1)))
        } else {
            match label_pairs(inner) {
                Some((pairs, after)) => Some((Some(pairs), after)),
                None => None,
            }
        }
    } else {
        Some((None, r))
    }
}

/// What is left after the value: nothing, or spaces and a timestamp that fits
/// in 64 bits.
pub open spec fn timestamp_part(r: Seq<char>) -> Option<Option<u64>> {
    if r.len() == 0 {
        Some(None)
    } else {
        let sp = run_len(r, CharClass::Space);
        let ds = r.skip(sp as int);
        if sp > 0 && ds.len() > 0 && run_len(ds, CharClass::Digit) == ds.len() && digits_value(ds)
            <= u64::MAX {
            Some(Some(digits_value(ds) as u64))
        } else {
            None
        }
    }
}

/// The sample that a whole line spells, if it follows the grammar.
pub open spec fn parse_line(s: Seq<char>) -> Option<SampleModel> {
    let n = run_len(s, CharClass::Ident);
    if n == 0 {
        None
    } else {
        match label_block(s.skip(n as int)) {
            None => None,
            Some((labels, r)) => {
                let sp = run_len(r, CharClass::Space);
                let v = r.skip(sp as int);
                if sp == 0 {
                    None
                } else {
                    match float_len(v) {
                        None => None,
                        Some(f) => match timestamp_part(v.skip(f as int)) {
                            None => None,
                            Some(timestamp) => Some(
                                SampleModel {
                                    name: s.take(n as int),
                                    labels,
                                    value: f64_bits_of(v.take(f as int)),
                                    timestamp,
                                },
                            ),
                        },
                    }
                }
            },
        }
    }
}

pub(crate) proof fn lemma_skip_skip(s: Seq<char>, a: int, b: int)
    requires
        0 <= a,
        0 <= b,
        a + b <= s.len(),
    ensures
        s.skip(a).skip(b) == s.skip(a + b),
{
    assert(s.skip(a).skip(b) =~= s.skip(a + b));
}

fn in_class_exec(c: char, k: &CharClass) -> (r: bool)
    ensures
        r == in_class(c, *k),
{
    match k {
        CharClass::Ident => ('a' <= c && c <= 'z') || ('A' <= c && c <= 'Z') || ('0' <= c && c
            <= '9') || c == '_',
        CharClass::Space => c == ' ' || c == '\t',
        CharClass::Digit => '0' <= c && c <= '9',
        CharClass::NotQuote => c != '"',
        CharClass::NotNewline => c != '\n',
    }
}

/// The end of the run of class `k` that starts at `i`.
pub(crate) fn scan_run(v: &Vec<char>, i: usize, k: CharClass) -> (e: usize)
    requires
        i <= v.len(),
    ensures
        e == i + run_len(v@.skip(i as int), k),
        e <= v.len(),
{
    let mut j: usize = i;
    while j < v.len() && in_class_exec(v[j], &k)
        invariant
            i <= j <= v.len(),
            i + run_len(v@.skip(i as int), k) == j + run_len(v@.skip(j as int), k),
        decreases v.len() - j,
    {
        proof {
            lemma_skip_skip(v@, j as int, 1);
        }
        j = j + 1;
    }
    j
}

fn is_sign_at(v: &Vec<char>, i: usize) -> (r: bool)
    ensures
        r == (i < v.len() && is_sign(v@[i as int])),
{
    i < v.len() && (v[i] == '+' || v[i] == '-')
}

fn letter_ci_exec(c: char, lower: char) -> (r: bool)
    requires
        'a' <= lower <= 'z',
    ensures
        r == letter_ci(c, lower),
{
    c == lower || c as u32 == (lower as u32) - 32
}

/// The end of the mantissa that starts at `t0`, if one does.
fn scan_mantissa(v: &Vec<char>, t0: usize) -> (r: Option<usize>)
    requires
        t0 <= v.len(),
    ensures
        match mantissa_len(v@.skip(t0 as int)) {
            Some(m) => r is Some && r->0 == t0 + m,
            None => r is None,
        },
        r matches Some(e) ==> t0 <= e <= v.len(),
{
    let int_end = scan_run(v, t0, CharClass::Digit);
    if int_end > t0 {
        if int_end < v.len() && v[int_end] == '.' {
            proof {
                lemma_skip_skip(v@, t0 as int, (int_end + 1 - t0) as int);
            }
            Some(scan_run(v, int_end + 1, CharClass::Digit))
        } else {
            Some(int_end)
        }
    } else if v.len() - t0 > 1 && v[t0] == '.' && in_class_exec(v[t0 + 1], &CharClass::Digit) {
        proof {
            lemma_skip_skip(v@, t0 as int, 1);
        }
        Some(scan_run(v, t0 + 1, CharClass::Digit))
    } else {
        None
    }
}

/// The end of the optional exponent that starts at `m`, if it is well formed.
fn scan_exponent(v: &Vec<char>, m: usize) -> (r: Option<usize>)
    requires
        m <= v.len(),
    ensures
        match exponent_len(v@.skip(m as int)) {
            Some(e) => r is Some && r->0 == m + e,
            None => r is None,
        },
        r matches Some(e) ==> m <= e <= v.len(),
{
    if m < v.len() && (v[m] == 'e' || v[m] == 'E') {
        let d0: usize = if is_sign_at(v, m + 1) {
            m + 2
        } else {
            m + 1
        };
        proof {
            lemma_skip_skip(v@, m as int, d0 - m);
        }
        let e_end = scan_run(v, d0, CharClass::Digit);
        if e_end > d0 {
            Some(e_end)
        } else {
            None
        }
    } else {
        Some(m)
    }
}

/// The end of `nan` or `inf` at `i`, if one of them stands there.
fn scan_special(v: &Vec<char>, i: usize) -> (r: Option<usize>)
    requires
        i <= v.len(),
    ensures
        match special_len(v@.skip(i as int)) {
            Some(f) => r is Some && r->0 == i + f,
            None => r is None,
        },
        r matches Some(e) ==> i <= e <= v.len(),
{
    if v.len() - i >= 3 && ((letter_ci_exec(v[i], 'n') && letter_ci_exec(v[i + 1], 'a')
        && letter_ci_exec(v[i + 2], 'n')) || (letter_ci_exec(v[i], 'i') && letter_ci_exec(
        v[i + 1],
        'n',
    ) && letter_ci_exec(v[i + 2], 'f'))) {
        Some(i + 3)
    } else {
        None
    }
}

/// The end of the float literal that starts at `i`, if one does.
fn scan_float(v: &Vec<char>, i: usize) -> (r: Option<usize>)
    requires
        i <= v.len(),
    ensures
        match float_len(v@.skip(i as int)) {
            Some(f) => r is Some && r->0 == i + f,
            None => r is None,
        },
        r matches Some(e) ==> i <= e <= v.len(),
{
    let t0: usize = if is_sign_at(v, i) {
        i + 1
    } else {
        i
    };
    let ghost s = v@.skip(i as int);
    proof {
        lemma_skip_skip(v@, i as int, t0 - i);
        if i < v.len() {
            assert(s[0] == v@[i as int]);
        }
    }
    assert(s.skip(t0 - i) == v@.skip(t0 as int));
    assert((if s.len() > 0 && is_sign(s[0]) { 1nat } else { 0nat }) == t0 - i);
    match scan_mantissa(v, t0) {
        None => scan_special(v, i),
        Some(m_end) => {
            proof {
                lemma_skip_skip(v@, t0 as int, m_end - t0);
            }
            let ghost t = v@.skip(t0 as int);
            assert(mantissa_len(t) == Some((m_end - t0) as nat));
            assert(t.skip(m_end - t0) == v@.skip(m_end as int));
            scan_exponent(v, m_end)
        },
    }
}

/// Pairs already read, put in front of what the rest of the block gives.
pub open spec fn prepend(
    first: LabelsModel,
    r: Option<(LabelsModel, Seq<char>)>,
) -> Option<(LabelsModel, Seq<char>)> {
    match r {
        Some((more, after)) => Some((first + more, after)),
        None => None,
    }
}

proof fn lemma_digits_prefix(s: Seq<char>, j: int)
    requires
        0 <= j <= s.len(),
    ensures
        digits_value(s.take(j)) <= digits_value(s),
    decreases s.len(),
{
    if j < s.len() {
        assert(s.drop_last().take(j) =~= s.take(j));
        lemma_digits_prefix(s.drop_last(), j);
    } else {
        assert(s.take(j) =~= s);
    }
}

/// The number spelled by the digits `v[a..b]`, if it fits in 64 bits.
fn parse_digits(v: &Vec<char>, a: usize, b: usize) -> (r: Option<u64>)
    requires
        a <= b <= v.len(),
        forall|k: int| a <= k < b ==> #[trigger] in_class(v@[k], CharClass::Digit),
    ensures
        digits_value(v@.subrange(a as int, b as int)) <= u64::MAX ==> r == Some(
            digits_value(v@.subrange(a as int, b as int)) as u64,
        ),
        digits_value(v@.subrange(a as int, b as int)) > u64::MAX ==> r is None,
{
    let mut acc: u64 = 0;
    let mut j: usize = a;
    assert(v@.subrange(a as int, a as int).len() == 0);
    while j < b
        invariant
            a <= j <= b <= v.len(),
            forall|k: int| a <= k < b ==> #[trigger] in_class(v@[k], CharClass::Digit),
            acc == digits_value(v@.subrange(a as int, j as int)),
        decreases b - j,
    {
        let ghost prev = v@.subrange(a as int, j as int);
        let ghost next = v@.subrange(a as int, j + 1);
        assert(next.drop_last() =~= prev);
        assert(next.last() == v@[j as int]);
        assert(in_class(v@[j as int], CharClass::Digit));
        let d: u64 = (v[j] as u32 - '0' as u32) as u64;
        proof {
            lemma_digits_prefix(v@.subrange(a as int, b as int), j + 1 - a);
            assert(v@.subrange(a as int, b as int).take(j + 1 - a) =~= next);
        }
        match acc.checked_mul(10) {
            None => {
                return None;
            },
            Some(t) => match t.checked_add(d) {
                None => {
                    return None;
                },
                Some(n) => {
                    acc = n;
                },
            },
        }
        j = j + 1;
    }
    Some(acc)
}

/// The pairs of a label block whose first pair starts at `start`, and the
/// position after its closing brace.
fn scan_label_pairs(v: &Vec<char>, start: usize) -> (r: Option<(Vec<(String, String)>, usize)>)
    requires
        start <= v.len(),
    ensures
        match label_pairs(v@.skip(start as int)) {
            Some((pairs, after)) => r is Some && labels_view((r->0).0@) == pairs && (r->0).1 <= v.len()
                && v@.skip((r->0).1 as int) == after,
            None => r is None,
        },
{
    let mut acc: Vec<(String, String)> = Vec::new();
    let mut i: usize = start;
    assert(labels_view(acc@) + Seq::empty() =~= Seq::<(Seq<char>, Seq<char>)>::empty());
    proof {
        let x = label_pairs(v@.skip(start as int));
        if let Some((more, after)) = x {
            assert(labels_view(acc@) + more =~= more);
        }
    }
    loop
        invariant
            start <= i <= v.len(),
            label_pairs(v@.skip(start as int)) == prepend(
                labels_view(acc@),
                label_pairs(v@.skip(i as int)),
            ),
        decreases v.len() - i,
    {
        let ghost r = v@.skip(i as int);
        let k_end = scan_run(v, i, CharClass::Ident);
        if k_end == i || v.len() - k_end < 2 || v[k_end] != '=' || v[k_end + 1] != '"' {
            return None;
        }
        let b0 = k_end + 2;
        proof {
            lemma_skip_skip(v@, i as int, b0 - i);
        }
        let q = scan_run(v, b0, CharClass::NotQuote);
        if q >= v.len() {
            return None;
        }
        let ghost body = r.skip(b0 - i);
        assert(body[q - b0] == v@[q as int]);
        let key = to_string(v, i, k_end);
        let text = to_string(v, b0, q);
        assert(key@ == r.take(k_end - i));
        assert(text@ == body.take(q - b0));
        proof {
            lemma_skip_skip(v@, i as int, q + 1 - i);
        }
        let ghost rest = body.skip(q - b0 + 1);
        assert(rest == v@.skip(q + 1));
        let ghost pair = (key@, text@);
        let ghost old_acc = acc@;
        acc.push((key, text));
        assert(labels_view(acc@) =~= labels_view(old_acc).push(pair));
        if q + 1 < v.len() && v[q + 1] == ',' {
            proof {
                lemma_skip_skip(v@, q + 1, 1);
                let x = label_pairs(v@.skip(q + 2));
                if let Some((more, after)) = x {
                    assert(labels_view(old_acc) + (seq![pair] + more) =~= labels_view(acc@)
                        + more);
                }
            }
            i = q + 2;
        } else if q + 1 < v.len() && v[q + 1] == '}' {
            proof {
                lemma_skip_skip(v@, q + 1, 1);
                assert(labels_view(old_acc) + seq![pair] =~= labels_view(acc@));
            }
            return Some((acc, q + 2));
        } else {
            return None;
        }
    }
}

pub open spec fn opt_labels_view(labels: Option<Vec<(String, String)>>) -> Option<LabelsModel> {
    match labels {
        Some(pairs) => Some(labels_view(pairs@)),
        None => None,
    }
}

/// The optional label block at `n`, and the position after it.
fn scan_label_block(v: &Vec<char>, n: usize) -> (r: Option<(Option<Vec<(String, String)>>, usize)>)
    requires
        n <= v.len(),
    ensures
        match label_block(v@.skip(n as int)) {
            Some((labels, after)) => r is Some && opt_labels_view((r->0).0) == labels && (r->0).1
                <= v.len() && v@.skip((r->0).1 as int) == after,
            None => r is None,
        },
{
    if n < v.len() && v[n] == '{' {
        proof {
            lemma_skip_skip(v@, n as int, 1);
        }
        if n + 1 < v.len() && v[n + 1] == '}' {
            proof {
                lemma_skip_skip(v@, n + 1, 1);
            }
            let empty: Vec<(String, String)> = Vec::new();
            assert(labels_view(empty@) =~= Seq::empty());
            Some((Some(empty), n + 2))
        } else {
            match scan_label_pairs(v, n + 1) {
                None => None,
                Some((pairs, after)) => Some((Some(pairs), after)),
            }
        }
    } else {
        Some((None, n))
    }
}

/// What follows the value at `f`: nothing, or spaces and a timestamp.
fn scan_timestamp(v: &Vec<char>, f: usize) -> (r: Option<Option<u64>>)
    requires
        f <= v.len(),
    ensures
        r == timestamp_part(v@.skip(f as int)),
{
    if f == v.len() {
        return Some(None);
    }
    let t0 = scan_run(v, f, CharClass::Space);
    let t1 = scan_run(v, t0, CharClass::Digit);
    proof {
        lemma_skip_skip(v@, f as int, t0 - f);
    }
    if t0 == f || t1 == t0 || t1 < v.len() {
        return None;
    }
    assert(v@.skip(t0 as int) =~= v@.subrange(t0 as int, t1 as int));
    proof {
        lemma_run_all(v@.skip(t0 as int), CharClass::Digit);
        assert forall|k: int| t0 <= k < t1 implies #[trigger] in_class(
            v@[k],
            CharClass::Digit,
        ) by {
            assert(v@[k] == v@.skip(t0 as int)[k - t0]);
        }
    }
    match parse_digits(v, t0, t1) {
        None => None,
        Some(t) => Some(Some(t)),
    }
}

/// Parses one exposition line, given as characters: the sample it spells, or
/// `None` where the line does not follow the grammar as a whole.
pub fn parse_sample_chars(v: &Vec<char>) -> (r: Option<PrometheusSample>)
    ensures
        match parse_line(v@) {
            Some(m) => r is Some && (r->0)@ == m,
            None => r is None,
        },
{
    assert(v@.skip(0) =~= v@);
    let n = scan_run(v, 0, CharClass::Ident);
    if n == 0 {
        return None;
    }
    let (labels, p) = match scan_label_block(v, n) {
        None => {
            return None;
        },
        Some(block) => block,
    };
    let sp = scan_run(v, p, CharClass::Space);
    if sp == p {
        return None;
    }
    proof {
        lemma_skip_skip(v@, p as int, sp - p);
    }
    let f = match scan_float(v, sp) {
        None => {
            return None;
        },
        Some(f) => f,
    };
    let value = match parse_double(v, sp, f) {
        None => {
            return None;
        },
        Some(bits) => bits,
    };
    assert(v@.skip(sp as int).take(f - sp) =~= v@.subrange(sp as int, f as int));
    proof {
        lemma_skip_skip(v@, sp as int, f - sp);
    }
    let timestamp = match scan_timestamp(v, f) {
        None => {
            return None;
        },
        Some(t) => t,
    };
    let name = to_string(v, 0, n);
    assert(name@ == v@.take(n as int));
    Some(PrometheusSample { name, labels, value, timestamp })
}

/// A run that covers the whole sequence holds only characters of its class.
proof fn lemma_run_all(s: Seq<char>, k: CharClass)
    requires
        run_len(s, k) == s.len(),
    ensures
        forall|j: int| 0 <= j < s.len() ==> in_class(#[trigger] s[j], k),
    decreases s.len(),
{
    if s.len() > 0 {
        lemma_run_all(s.skip(1), k);
        assert forall|j: int| 0 <= j < s.len() implies in_class(#[trigger] s[j], k) by {
            if j > 0 {
                assert(s[j] == s.skip(1)[j - 1]);
            }
        }
    }
}

/// Parses one exposition line: the sample it spells, or `None` where the line
/// does not follow the grammar as a whole.
pub fn parse_prometheus_sample(input: &str) -> (r: Option<PrometheusSample>)
    ensures
        match parse_line(input@) {
            Some(m) => r is Some && (r->0)@ == m,
            None => r is None,
        },
{
    let v = to_chars(input);
    parse_sample_chars(&v)
}

proof fn lemma_run_prefix(a: Seq<char>, b: Seq<char>, k: CharClass)
    requires
        forall|i: int| 0 <= i < a.len() ==> in_class(#[trigger] a[i], k),
    ensures
        run_len(a + b, k) == a.len() + run_len(b, k),
    decreases a.len(),
{
    if a.len() == 0 {
        assert(a + b =~= b);
    } else {
        assert((a + b).skip(1) =~= a.skip(1) + b);
        assert(in_class(a[0], k));
        assert forall|i: int| 0 <= i < a.skip(1).len() implies in_class(#[trigger] a.skip(1)[i], k) by {
            assert(a.skip(1)[i] == a[i + 1]);
        }
        lemma_run_prefix(a.skip(1), b, k);
    }
}

proof fn lemma_float_start(v: Seq<char>)
    requires
        float_len(v) is Some,
    ensures
        v.len() > 0,
        !in_class(v[0], CharClass::Space),
{
    assert(v.skip(0) =~= v);
    if !(v.len() > 0 && is_sign(v[0])) {
        if mantissa_len(v) is Some {
            if run_len(v, CharClass::Digit) == 0 {
                assert(v[0] == '.');
            }
        }
    }
}

/// A line of a name, one space and a float literal is a sample with that
/// name and value, without labels or timestamp.
pub proof fn lemma_plain_line(name: Seq<char>, value: Seq<char>)
    requires
        name.len() > 0,
        forall|i: int| 0 <= i < name.len() ==> in_class(#[trigger] name[i], CharClass::Ident),
        is_float_token(value),
    ensures
        parse_line(name + seq![' '] + value) == Some(
            SampleModel { name, labels: None, value: f64_bits_of(value), timestamp: None },
        ),
{
    let r = seq![' '] + value;
    let s = name + seq![' '] + value;
    assert(s =~= name + r);
    lemma_run_prefix(name, r, CharClass::Ident);
    assert(run_len(r, CharClass::Ident) == 0);
    assert(s.skip(name.len() as int) =~= r);
    assert(s.take(name.len() as int) =~= name);
    lemma_float_start(value);
    lemma_run_prefix(seq![' '], value, CharClass::Space);
    assert(run_len(value, CharClass::Space) == 0);
    assert(r.skip(1) =~= value);
    assert(value.skip(value.len() as int) =~= Seq::<char>::empty());
    assert(value.take(value.len() as int) =~= value);
}

/// A line of spaces and tabs alone, or an empty one, is no sample.
pub proof fn lemma_blank_line(s: Seq<char>)
    requires
        forall|i: int| 0 <= i < s.len() ==> in_class(#[trigger] s[i], CharClass::Space),
    ensures
        parse_line(s) is None,
{
    if s.len() > 0 {
        assert(in_class(s[0], CharClass::Space));
    }
}

proof fn lemma_run_extend(x: Seq<char>, b: Seq<char>, k: CharClass)
    requires
        b.len() > 0,
        !in_class(b[0], k),
    ensures
        run_len(x + b, k) == run_len(x, k),
        run_len(x, k) <= x.len(),
    decreases x.len(),
{
    if x.len() == 0 {
        assert(x + b =~= b);
    } else if in_class(x[0], k) {
        assert((x + b).skip(1) =~= x.skip(1) + b);
        lemma_run_extend(x.skip(1), b, k);
    }
}

proof fn lemma_mantissa_extend(t: Seq<char>, b: Seq<char>)
    requires
        b.len() > 0,
        in_class(b[0], CharClass::Space),
    ensures
        mantissa_len(t + b) == mantissa_len(t),
        mantissa_len(t) matches Some(m) ==> m <= t.len(),
{
    let tb = t + b;
    lemma_run_extend(t, b, CharClass::Digit);
    let n = run_len(t, CharClass::Digit);
    if n > 0 {
        if n < t.len() && t[n as int] == '.' {
            assert(tb.skip(n + 1 as int) =~= t.skip(n + 1 as int) + b);
            lemma_run_extend(t.skip(n + 1 as int), b, CharClass::Digit);
        } else {
            assert(tb[n as int] != '.');
        }
    } else if t.len() > 1 && t[0] == '.' && in_class(t[1], CharClass::Digit) {
        assert(tb.skip(1) =~= t.skip(1) + b);
        lemma_run_extend(t.skip(1), b, CharClass::Digit);
    } else {
        if t.len() == 1 {
            assert(tb[1] == b[0]);
        } else if t.len() == 0 {
            assert(tb[0] == b[0]);
        }
    }
}

proof fn lemma_exponent_extend(u: Seq<char>, b: Seq<char>)
    requires
        b.len() > 0,
        in_class(b[0], CharClass::Space),
    ensures
        exponent_len(u + b) == exponent_len(u),
{
    let ub = u + b;
    if u.len() == 0 {
        assert(ub[0] == b[0]);
    } else if u[0] == 'e' || u[0] == 'E' {
        if u.len() == 1 {
            assert(ub[1] == b[0]);
        }
        let es: int = if u.len() > 1 && is_sign(u[1]) {
            2
        } else {
            1
        };
        assert(ub.skip(es) =~= u.skip(es) + b);
        lemma_run_extend(u.skip(es), b, CharClass::Digit);
    }
}

/// What follows a space never changes the float literal read before it.
proof fn lemma_float_extend(a: Seq<char>, b: Seq<char>)
    requires
        b.len() > 0,
        in_class(b[0], CharClass::Space),
    ensures
        float_len(a + b) == float_len(a),
{
    let s = a + b;
    if a.len() == 0 {
        assert(s[0] == b[0]);
    } else {
        assert(s[0] == a[0]);
    }
    let sign: int = if a.len() > 0 && is_sign(a[0]) {
        1
    } else {
        0
    };
    let t = a.skip(sign);
    assert(s.skip(sign) =~= t + b);
    lemma_mantissa_extend(t, b);
    match mantissa_len(t) {
        Some(m) => {
            assert(s.skip(sign).skip(m as int) =~= t.skip(m as int) + b);
            lemma_exponent_extend(t.skip(m as int), b);
        },
        None => {
            if a.len() >= 3 {
                assert(s[1] == a[1] && s[2] == a[2]);
            } else if s.len() >= 3 {
                assert(s[a.len() as int] == b[0]);
            }
        },
    }
}

proof fn lemma_one_label(key: Seq<char>, text: Seq<char>, after: Seq<char>)
    requires
        key.len() > 0,
        forall|i: int| 0 <= i < key.len() ==> in_class(#[trigger] key[i], CharClass::Ident),
        forall|i: int| 0 <= i < text.len() ==> in_class(#[trigger] text[i], CharClass::NotQuote),
    ensures
        label_block(seq!['{'] + (key + (seq!['=', '"'] + (text + (seq!['"'] + (seq!['}'] + after))))))
            == Some((Some(seq![(key, text)]), after)),
{
    let rest = seq!['}'] + after;
    let body = text + (seq!['"'] + rest);
    let inner = key + (seq!['=', '"'] + body);
    let r = seq!['{'] + inner;
    assert(r.skip(1) =~= inner);
    lemma_run_prefix(key, seq!['=', '"'] + body, CharClass::Ident);
    assert(run_len(seq!['=', '"'] + body, CharClass::Ident) == 0);
    assert(inner.take(key.len() as int) =~= key);
    assert(inner.skip(key.len() + 2 as int) =~= body);
    lemma_run_prefix(text, seq!['"'] + rest, CharClass::NotQuote);
    assert(run_len(seq!['"'] + rest, CharClass::NotQuote) == 0);
    assert(body.take(text.len() as int) =~= text);
    assert(body.skip(text.len() + 1 as int) =~= rest);
    assert(rest.skip(1) =~= after);
}

proof fn lemma_value_then_timestamp(value: Seq<char>, timestamp: Seq<char>)
    requires
        is_float_token(value),
        timestamp.len() > 0,
        forall|i: int|
            0 <= i < timestamp.len() ==> in_class(#[trigger] timestamp[i], CharClass::Digit),
    ensures
        ({
            let after_value = value + (seq![' '] + timestamp);
            &&& float_len(after_value) == Some(value.len())
            &&& after_value.take(value.len() as int) == value
            &&& after_value.skip(value.len() as int) == seq![' '] + timestamp
            &&& run_len(seq![' '] + after_value, CharClass::Space) == 1
            &&& (seq![' '] + after_value).skip(1) == after_value
        }),
        digits_value(timestamp) <= u64::MAX ==> timestamp_part(seq![' '] + timestamp) == Some(
            Some(digits_value(timestamp) as u64),
        ),
{
    let tail = seq![' '] + timestamp;
    let after_value = value + tail;
    lemma_float_start(value);
    lemma_run_prefix(seq![' '], after_value, CharClass::Space);
    assert(after_value[0] == value[0]);
    assert(run_len(after_value, CharClass::Space) == 0);
    assert((seq![' '] + after_value).skip(1) =~= after_value);
    lemma_float_extend(value, tail);
    assert(float_len(value) == Some(value.len()));
    assert(after_value.take(value.len() as int) =~= value);
    assert(after_value.skip(value.len() as int) =~= tail);
    lemma_run_prefix(seq![' '], timestamp, CharClass::Space);
    assert(run_len(timestamp, CharClass::Space) == 0);
    assert(tail.skip(1) =~= timestamp);
    lemma_run_prefix(timestamp, Seq::empty(), CharClass::Digit);
    assert(timestamp + Seq::<char>::empty() =~= timestamp);
}

/// A line of a name, one label `key="text"`, a space, a float literal, a
/// space and a timestamp is a sample with that single label and timestamp.
pub proof fn lemma_labelled_line(
    name: Seq<char>,
    key: Seq<char>,
    text: Seq<char>,
    value: Seq<char>,
    timestamp: Seq<char>,
)
    requires
        name.len() > 0,
        forall|i: int| 0 <= i < name.len() ==> in_class(#[trigger] name[i], CharClass::Ident),
        key.len() > 0,
        forall|i: int| 0 <= i < key.len() ==> in_class(#[trigger] key[i], CharClass::Ident),
        forall|i: int| 0 <= i < text.len() ==> in_class(#[trigger] text[i], CharClass::NotQuote),
        is_float_token(value),
        timestamp.len() > 0,
        forall|i: int|
            0 <= i < timestamp.len() ==> in_class(#[trigger] timestamp[i], CharClass::Digit),
        digits_value(timestamp) <= u64::MAX,
    ensures
        parse_line(
            name + seq!['{'] + key + seq!['=', '"'] + text + seq!['"', '}', ' '] + value + seq![' ']
                + timestamp,
        ) == Some(
            SampleModel {
                name,
                labels: Some(seq![(key, text)]),
                value: f64_bits_of(value),
                timestamp: Some(digits_value(timestamp) as u64),
            },
        ),
{
    let after_value = value + (seq![' '] + timestamp);
    let after_brace = seq![' '] + after_value;
    let r = seq!['{'] + (key + (seq!['=', '"'] + (text + (seq!['"'] + (seq!['}'] + after_brace)))));
    let line = name + seq!['{'] + key + seq!['=', '"'] + text + seq!['"', '}', ' '] + value + seq![
        ' ',
    ] + timestamp;
    assert(line =~= name + r);
    lemma_run_prefix(name, r, CharClass::Ident);
    assert(run_len(r, CharClass::Ident) == 0);
    assert(line.take(name.len() as int) =~= name);
    assert(line.skip(name.len() as int) =~= r);
    lemma_one_label(key, text, after_brace);
    lemma_value_then_timestamp(value, timestamp);
}

proof fn lemma_run_le(s: Seq<char>, k: CharClass)
    ensures
        run_len(s, k) <= s.len(),
    decreases s.len(),
{
    if s.len() > 0 && in_class(s[0], k) {
        lemma_run_le(s.skip(1), k);
    }
}

proof fn lemma_run_stops(a: Seq<char>, b: Seq<char>, k: CharClass)
    requires
        run_len(a, k) < a.len(),
    ensures
        run_len(a + b, k) == run_len(a, k),
    decreases a.len(),
{
    if in_class(a[0], k) {
        assert((a + b).skip(1) =~= a.skip(1) + b);
        lemma_run_stops(a.skip(1), b, k);
    } else {
        assert((a + b)[0] == a[0]);
    }
}

proof fn lemma_label_pairs_extend(a: Seq<char>, b: Seq<char>)
    requires
        label_pairs(a) is Some,
    ensures
        label_pairs(a + b) == Some(
            (label_pairs(a).unwrap().0, label_pairs(a).unwrap().1 + b),
        ),
    decreases a.len(),
{
    let ab = a + b;
    let k = run_len(a, CharClass::Ident);
    lemma_run_stops(a, b, CharClass::Ident);
    assert(ab[k as int] == a[k as int] && ab[k + 1 as int] == a[k + 1 as int]);
    let body = a.skip(k + 2 as int);
    assert(ab.skip(k + 2 as int) =~= body + b);
    let q = run_len(body, CharClass::NotQuote);
    lemma_run_stops(body, b, CharClass::NotQuote);
    assert(ab.take(k as int) =~= a.take(k as int));
    assert((body + b).take(q as int) =~= body.take(q as int));
    let rest = body.skip(q + 1 as int);
    assert((body + b).skip(q + 1 as int) =~= rest + b);
    if rest.len() > 0 && rest[0] == ',' {
        assert((rest + b)[0] == rest[0]);
        assert((rest + b).skip(1) =~= rest.skip(1) + b);
        lemma_label_pairs_extend(rest.skip(1), b);
    } else {
        assert((rest + b)[0] == rest[0]);
        assert((rest + b).skip(1) =~= rest.skip(1) + b);
    }
}

proof fn lemma_label_block_extend(r: Seq<char>, b: Seq<char>)
    requires
        r.len() > 0,
        label_block(r) is Some,
    ensures
        label_block(r + b) == Some(
            (label_block(r).unwrap().0, label_block(r).unwrap().1 + b),
        ),
{
    let rb = r + b;
    assert(rb[0] == r[0]);
    if r[0] == '{' {
        let inner = r.skip(1);
        assert(rb.skip(1) =~= inner + b);
        if inner.len() > 0 && inner[0] == '}' {
            assert((inner + b)[0] == inner[0]);
            assert((inner + b).skip(1) =~= inner.skip(1) + b);
        } else {
            lemma_label_pairs_extend(inner, b);
        }
    }
}

proof fn lemma_float_le(v: Seq<char>)
    requires
        float_len(v) is Some,
    ensures
        float_len(v).unwrap() <= v.len(),
{
    let sign: int = if v.len() > 0 && is_sign(v[0]) {
        1
    } else {
        0
    };
    let t = v.skip(sign);
    lemma_mantissa_extend(t, seq![' ']);
    if let Some(m) = mantissa_len(t) {
        let u = t.skip(m as int);
        if u.len() > 0 && (u[0] == 'e' || u[0] == 'E') {
            let es: int = if u.len() > 1 && is_sign(u[1]) {
                2
            } else {
                1
            };
            lemma_run_le(u.skip(es), CharClass::Digit);
        }
    }
}

proof fn lemma_timestamp_trailing(t: Seq<char>, rest: Seq<char>)
    requires
        timestamp_part(t) matches Some(Some(_)),
        rest.len() > 0,
        !in_class(rest[0], CharClass::Digit),
    ensures
        timestamp_part(t + rest) is None,
{
    let sp = run_len(t, CharClass::Space);
    lemma_run_le(t, CharClass::Space);
    let ds = t.skip(sp as int);
    lemma_run_stops(t, rest, CharClass::Space);
    assert((t + rest).skip(sp as int) =~= ds + rest);
    lemma_run_all(ds, CharClass::Digit);
    lemma_run_prefix(ds, rest, CharClass::Digit);
}

proof fn lemma_value_trailing(v: Seq<char>, rest: Seq<char>)
    requires
        float_len(v) is Some,
        timestamp_part(v.skip(float_len(v).unwrap() as int)) matches Some(Some(_)),
        rest.len() > 0,
        !in_class(rest[0], CharClass::Digit),
    ensures
        float_len(v + rest) == float_len(v),
        timestamp_part((v + rest).skip(float_len(v).unwrap() as int)) is None,
{
    let f = float_len(v).unwrap();
    lemma_float_le(v);
    let head = v.take(f as int);
    let tail = v.skip(f as int);
    assert(v =~= head + tail);
    assert(v + rest =~= head + (tail + rest));
    assert(tail[0] == (tail + rest)[0]);
    assert(in_class(tail[0], CharClass::Space));
    lemma_float_extend(head, tail);
    lemma_float_extend(head, tail + rest);
    assert((v + rest).skip(f as int) =~= tail + rest);
    lemma_timestamp_trailing(tail, rest);
}

/// Nothing may follow a timestamp: a line whose sample has one, followed by
/// any text that does not go on with its digits, is no sample.
pub proof fn lemma_trailing_text(line: Seq<char>, rest: Seq<char>)
    requires
        parse_line(line) matches Some(m) && m.timestamp is Some,
        rest.len() > 0,
        !in_class(rest[0], CharClass::Digit),
    ensures
        parse_line(line + rest) is None,
{
    let whole = line + rest;
    let n = run_len(line, CharClass::Ident);
    lemma_run_le(line, CharClass::Ident);
    if n == line.len() {
        assert(line.skip(n as int).len() == 0);
    }
    let r = line.skip(n as int);
    let (labels, after) = label_block(r)->0;
    let sp = run_len(after, CharClass::Space);
    let v = after.skip(sp as int);
    let f = float_len(v)->0;
    lemma_run_le(after, CharClass::Space);
    lemma_float_start(v);
    lemma_float_le(v);
    lemma_run_stops(line, rest, CharClass::Ident);
    assert(whole.skip(n as int) =~= r + rest);
    lemma_label_block_extend(r, rest);
    lemma_run_stops(after, rest, CharClass::Space);
    assert((after + rest).skip(sp as int) =~= v + rest);
    lemma_value_trailing(v, rest);
}

proof fn lemma_value_then_spaces(v: Seq<char>, rest: Seq<char>)
    requires
        float_len(v) is Some,
        timestamp_part(v.skip(float_len(v).unwrap() as int)) == Some(None::<u64>),
        rest.len() > 0,
        in_class(rest[0], CharClass::Space),
        ({
            let ds = rest.skip(run_len(rest, CharClass::Space) as int);
            ds.len() == 0 || !in_class(ds[0], CharClass::Digit)
        }),
    ensures
        float_len(v + rest) == float_len(v),
        timestamp_part((v + rest).skip(float_len(v).unwrap() as int)) is None,
{
    let f = float_len(v).unwrap();
    lemma_float_le(v);
    lemma_float_extend(v, rest);
    assert((v + rest).skip(f as int) =~= rest);
    lemma_run_le(rest, CharClass::Space);
}

/// A line whose sample has no timestamp, followed by spaces and then nothing
/// or text that does not start with a digit, is no sample.
pub proof fn lemma_trailing_spaces(line: Seq<char>, rest: Seq<char>)
    requires
        parse_line(line) matches Some(m) && m.timestamp is None,
        rest.len() > 0,
        in_class(rest[0], CharClass::Space),
        ({
            let ds = rest.skip(run_len(rest, CharClass::Space) as int);
            ds.len() == 0 || !in_class(ds[0], CharClass::Digit)
        }),
    ensures
        parse_line(line + rest) is None,
{
    let whole = line + rest;
    let n = run_len(line, CharClass::Ident);
    lemma_run_le(line, CharClass::Ident);
    if n == line.len() {
        assert(line.skip(n as int).len() == 0);
    }
    let r = line.skip(n as int);
    let (labels, after) = label_block(r)->0;
    let sp = run_len(after, CharClass::Space);
    let v = after.skip(sp as int);
    lemma_run_le(after, CharClass::Space);
    lemma_float_start(v);
    lemma_run_stops(line, rest, CharClass::Ident);
    assert(whole.skip(n as int) =~= r + rest);
    lemma_label_block_extend(r, rest);
    lemma_run_stops(after, rest, CharClass::Space);
    assert((after + rest).skip(sp as int) =~= v + rest);
    lemma_value_then_spaces(v, rest);
}

} // verus!

use vstd::prelude::*;

use crate::text::to_chars;

verus! {

/// `a` comes strictly before `b` when their characters are compared by code
/// point, first difference first, a proper prefix first of all.
pub open spec fn lex_lt(a: Seq<char>, b: Seq<char>) -> bool
    decreases a.len(),
{
    if a.len() == 0 {
        b.len() > 0
    } else if b.len() == 0 {
        false
    } else if a[0] != b[0] {
        a[0] < b[0]
    } else {
        lex_lt(a.skip(1), b.skip(1))
    }
}

pub proof fn lemma_lex_irreflexive(a: Seq<char>)
    ensures
        !lex_lt(a, a),
    decreases a.len(),
{
    if a.len() > 0 {
        lemma_lex_irreflexive(a.skip(1));
    }
}

pub proof fn lemma_lex_total(a: Seq<char>, b: Seq<char>)
    requires
        a != b,
    ensures
        lex_lt(a, b) || lex_lt(b, a),
    decreases a.len(),
{
    if a.len() > 0 && b.len() > 0 && a[0] == b[0] {
        if a.skip(1) == b.skip(1) {
            assert(a =~= seq![a[0]] + a.skip(1));
            assert(b =~= seq![b[0]] + b.skip(1));
        }
        lemma_lex_total(a.skip(1), b.skip(1));
    } else if a.len() == 0 && b.len() == 0 {
        assert(a =~= b);
    }
}

pub proof fn lemma_lex_transitive(a: Seq<char>, b: Seq<char>, c: Seq<char>)
    requires
        lex_lt(a, b),
        lex_lt(b, c),
    ensures
        lex_lt(a, c),
    decreases a.len(),
{
    if a.len() > 0 && b.len() > 0 && c.len() > 0 && a[0] == b[0] && b[0] == c[0] {
        lemma_lex_transitive(a.skip(1), b.skip(1), c.skip(1));
    }
}

/// Compares two strings as `lex_lt` orders them.
fn lex_less(a: &String, b: &String) -> (r: bool)
    ensures
        r == lex_lt(a@, b@),
{
    let av = to_chars(a.as_str());
    let bv = to_chars(b.as_str());
    let mut i: usize = 0;
    assert(av@.skip(0) =~= av@);
    assert(bv@.skip(0) =~= bv@);
    loop
        invariant
            i <= av.len(),
            i <= bv.len(),
            lex_lt(a@, b@) == lex_lt(av@.skip(i as int), bv@.skip(i as int)),
        decreases av.len() - i,
    {
        if i == av.len() {
            return i < bv.len();
        }
        if i == bv.len() {
            return false;
        }
        if av[i] != bv[i] {
            return av[i] < bv[i];
        }
        assert(av@.skip(i as int).skip(1) =~= av@.skip(i + 1));
        assert(bv@.skip(i as int).skip(1) =~= bv@.skip(i + 1));
        i = i + 1;
    }
}

pub open spec fn strings_view(v: Seq<String>) -> Seq<Seq<char>> {
    v.map_values(|n: String| n@)
}

/// Each element comes strictly before every later one.
pub open spec fn strictly_sorted(s: Seq<Seq<char>>) -> bool {
    forall|i: int, j: int| 0 <= i < j < s.len() ==> lex_lt(#[trigger] s[i], #[trigger] s[j])
}

/// The same strings, in strictly increasing order.
pub fn sort_strings(items: Vec<String>) -> (r: Vec<String>)
    requires
        strings_view(items@).no_duplicates(),
    ensures
        strictly_sorted(strings_view(r@)),
        forall|n: Seq<char>| #[trigger]
            strings_view(r@).contains(n) <==> strings_view(items@).contains(n),
{
    let ghost input = strings_view(items@);
    let mut out: Vec<String> = Vec::new();
    let mut j: usize = 0;
    while j < items.len()
        invariant
            j <= items.len(),
            input == strings_view(items@),
            input.no_duplicates(),
            strictly_sorted(strings_view(out@)),
            forall|n: Seq<char>| #[trigger]
                strings_view(out@).contains(n) <==> exists|k: int| 0 <= k < j && input[k] == n,
        decreases items.len() - j,
    {
        let ghost cur = strings_view(out@);
        let ghost x = input[j as int];
        assert(!cur.contains(x)) by {
            if cur.contains(x) {
                let k = choose|k: int| 0 <= k < j && input[k] == x;
                assert(input[k] == input[j as int]);
            }
        }
        let mut p: usize = 0;
        while p < out.len() && !lex_less(&items[j], &out[p])
            invariant
                j < items.len(),
                p <= out.len(),
                cur == strings_view(out@),
                x == items@[j as int]@,
                !cur.contains(x),
                forall|i: int| 0 <= i < p ==> lex_lt(#[trigger] cur[i], x),
            decreases out.len() - p,
        {
            proof {
                assert(cur[p as int] != x);
                lemma_lex_total(cur[p as int], x);
            }
            p = p + 1;
        }
        out.insert(p, items[j].clone());
        let ghost next = strings_view(out@);
        assert(next =~= cur.insert(p as int, x));
        assert forall|a: int, b: int| 0 <= a < b < next.len() implies lex_lt(
            #[trigger] next[a],
            #[trigger] next[b],
        ) by {
            if a < p && b == p {
            } else if a < p && b > p {
                assert(lex_lt(cur[a], x));
                if b - 1 > p {
                    assert(lex_lt(x, cur[p as int]));
                    assert(lex_lt(cur[p as int], cur[b - 1]));
                    lemma_lex_transitive(x, cur[p as int], cur[b - 1]);
                }
                lemma_lex_transitive(cur[a], x, cur[b - 1]);
            } else if a == p {
                if b - 1 > p {
                    assert(lex_lt(cur[p as int], cur[b - 1]));
                    lemma_lex_transitive(x, cur[p as int], cur[b - 1]);
                }
            } else if a > p {
                assert(next[a] == cur[a - 1]);
                assert(next[b] == cur[b - 1]);
            } else {
                assert(next[a] == cur[a]);
                assert(next[b] == cur[b]);
            }
        }
        assert forall|n: Seq<char>| #[trigger] next.contains(n) <==> exists|k: int|
            0 <= k < j + 1 && input[k] == n by {
            if next.contains(n) {
                let i = choose|i: int| 0 <= i < next.len() && next[i] == n;
                if i == p {
                    assert(input[j as int] == n);
                } else {
                    if i < p {
                        assert(cur[i] == n);
                    } else {
                        assert(cur[i - 1] == n);
                    }
                    assert(cur.contains(n));
                    let k = choose|k: int| 0 <= k < j && input[k] == n;
                    assert(0 <= k < j + 1 && input[k] == n);
                }
            }
            if exists|k: int| 0 <= k < j + 1 && input[k] == n {
                let k = choose|k: int| 0 <= k < j + 1 && input[k] == n;
                if k < j {
                    assert(cur.contains(n));
                    let i = choose|i: int| 0 <= i < cur.len() && cur[i] == n;
                    if i < p {
                        assert(next[i] == n);
                    } else {
                        assert(next[i + 1] == n);
                    }
                } else {
                    assert(next[p as int] == n);
                }
            }
        }
        j = j + 1;
    }
    assert forall|n: Seq<char>| #[trigger] input.contains(n) <==> exists|k: int|
        0 <= k < items.len() && input[k] == n by {
        if input.contains(n) {
            let k = choose|k: int| 0 <= k < input.len() && input[k] == n;
        }
    }
    out
}

/// Two strictly sorted sequences that hold the same elements are equal.
pub proof fn lemma_sorted_unique(a: Seq<Seq<char>>, b: Seq<Seq<char>>)
    requires
        strictly_sorted(a),
        strictly_sorted(b),
        a.to_set() == b.to_set(),
    ensures
        a == b,
    decreases a.len(),
{
    if a.len() == 0 {
        if b.len() > 0 {
            assert(b.to_set().contains(b[0]));
        }
        assert(a =~= b);
    } else {
        assert(a.to_set().contains(a[0]));
        assert(b.contains(a[0]));
        assert(b.len() > 0);
        assert(b.to_set().contains(b[0]));
        assert(a.contains(b[0]));
        let i = choose|i: int| 0 <= i < b.len() && b[i] == a[0];
        let k = choose|k: int| 0 <= k < a.len() && a[k] == b[0];
        if i > 0 {
            assert(lex_lt(b[0], b[i]));
            if k > 0 {
                assert(lex_lt(a[0], a[k]));
                lemma_lex_transitive(a[0], a[k], a[0]);
            }
            lemma_lex_irreflexive(a[0]);
        }
        let a1 = a.skip(1);
        let b1 = b.skip(1);
        assert forall|n: Seq<char>| a1.to_set().contains(n) <==> b1.to_set().contains(n) by {
            if a1.to_set().contains(n) {
                let x = choose|x: int| 0 <= x < a1.len() && a1[x] == n;
                assert(lex_lt(a[0], a[x + 1]));
                lemma_lex_irreflexive(n);
                assert(a.to_set().contains(n));
                let y = choose|y: int| 0 <= y < b.len() && b[y] == n;
                assert(y != 0);
                assert(b1[y - 1] == n);
            }
            if b1.to_set().contains(n) {
                let x = choose|x: int| 0 <= x < b1.len() && b1[x] == n;
                assert(lex_lt(b[0], b[x + 1]));
                lemma_lex_irreflexive(n);
                assert(b.to_set().contains(n));
                let y = choose|y: int| 0 <= y < a.len() && a[y] == n;
                assert(y != 0);
                assert(a1[y - 1] == n);
            }
        }
        assert(a1.to_set() =~= b1.to_set());
        lemma_sorted_unique(a1, b1);
        assert(a =~= seq![a[0]] + a1);
        assert(b =~= seq![b[0]] + b1);
    }
}

} // verus!

//! How fast a grammar's drawn segments grow under rewriting, tracked per symbol
//! without building any rewritten string.

use std::collections::BTreeMap;

use vstd::prelude::*;

use crate::rewriting::{
    count_of, iterate, lemma_count_concat, lemma_iterate_concat, lemma_iterate_empty,
    lemma_iterate_ruled, lemma_iterate_unruled,
};
use crate::ruleset::{find_rule, lemma_find_in_represented, list_keys, represents, rule_list, rules_view};
use crate::text::chars_of;

verus! {

/// No iteration count above this is ever suggested.
const HARD_MAX: u32 = 30;

/// Number of segments drawn (`F` symbols) after `n` rewriting steps of `s`.
pub open spec fn drawn_segments(s: Seq<char>, m: Map<char, Seq<char>>, n: nat) -> nat {
    count_of(iterate(s, m, n), 'F')
}

/// `x`, or `u64::MAX` where `x` does not fit.
pub open spec fn saturate(x: nat) -> u64 {
    if x > u64::MAX {
        u64::MAX
    } else {
        x as u64
    }
}

/// `ys[i]` is the saturated segment count of the `i`-th rule symbol after `n` steps.
spec fn yields_ok(list: Seq<(char, Vec<char>)>, ys: Seq<u64>, m: Map<char, Seq<char>>, n: nat) -> bool {
    &&& ys.len() == list.len()
    &&& forall|i: int|
        0 <= i < list.len() ==> #[trigger] ys[i] == saturate(drawn_segments(seq![list[i].0], m, n))
}

proof fn lemma_drawn_concat(a: Seq<char>, b: Seq<char>, m: Map<char, Seq<char>>, n: nat)
    ensures
        drawn_segments(a + b, m, n) == drawn_segments(a, m, n) + drawn_segments(b, m, n),
{
    lemma_iterate_concat(a, b, m, n);
    lemma_count_concat(iterate(a, m, n), iterate(b, m, n), 'F');
}

proof fn lemma_count_single(c: char)
    ensures
        count_of(seq![c], 'F') == (if c == 'F' {
            1nat
        } else {
            0nat
        }),
{
    assert(seq![c].drop_first() =~= Seq::<char>::empty());
    assert(seq![c][0] == c);
    assert(count_of(Seq::<char>::empty(), 'F') == 0);
}

/// Saturated number of segments drawn by the symbol `c` after `n` steps.
fn symbol_yield(
    c: char,
    list: &Vec<(char, Vec<char>)>,
    ys: &Vec<u64>,
    Ghost(m): Ghost<Map<char, Seq<char>>>,
    Ghost(n): Ghost<nat>,
) -> (y: u64)
    requires
        represents(list@, m),
        yields_ok(list@, ys@, m, n),
    ensures
        y == saturate(drawn_segments(seq![c], m, n)),
{
    match find_rule(list, c) {
        Some(i) => ys[i],
        None => {
            proof {
                lemma_find_in_represented(list@, m, c);
                lemma_iterate_unruled(c, m, n);
                lemma_count_single(c);
            }
            if c == 'F' {
                1
            } else {
                0
            }
        },
    }
}

/// Saturated number of segments drawn by the string `s` after `n` steps.
fn string_yield(
    s: &Vec<char>,
    list: &Vec<(char, Vec<char>)>,
    ys: &Vec<u64>,
    Ghost(m): Ghost<Map<char, Seq<char>>>,
    Ghost(n): Ghost<nat>,
) -> (y: u64)
    requires
        represents(list@, m),
        yields_ok(list@, ys@, m, n),
    ensures
        y == saturate(drawn_segments(s@, m, n)),
{
    let mut acc: u64 = 0;
    let mut j: usize = 0;
    proof {
        assert(s@.take(0) =~= Seq::<char>::empty());
        lemma_iterate_empty(m, n);
    }
    while j < s.len()
        invariant
            0 <= j <= s@.len(),
            represents(list@, m),
            yields_ok(list@, ys@, m, n),
            acc == saturate(drawn_segments(s@.take(j as int), m, n)),
        decreases s@.len() - j,
    {
        let c = s[j];
        let y = symbol_yield(c, list, ys, Ghost(m), Ghost(n));
        proof {
            assert(s@.take(j + 1) =~= s@.take(j as int) + seq![c]);
            lemma_drawn_concat(s@.take(j as int), seq![c], m, n);
        }
        acc = acc.saturating_add(y);
        j = j + 1;
    }
    proof {
        assert(s@.take(s@.len() as int) =~= s@);
    }
    acc
}

/// The per-symbol yields one rewriting step later.
fn advance_yields(
    list: &Vec<(char, Vec<char>)>,
    ys: &Vec<u64>,
    Ghost(m): Ghost<Map<char, Seq<char>>>,
    Ghost(n): Ghost<nat>,
) -> (next: Vec<u64>)
    requires
        represents(list@, m),
        yields_ok(list@, ys@, m, n),
    ensures
        yields_ok(list@, next@, m, n + 1),
{
    let mut next: Vec<u64> = Vec::new();
    let mut i: usize = 0;
    while i < list.len()
        invariant
            0 <= i <= list@.len(),
            represents(list@, m),
            yields_ok(list@, ys@, m, n),
            next@.len() == i,
            forall|a: int|
                0 <= a < i ==> #[trigger] next@[a] == saturate(
                    drawn_segments(seq![list@[a].0], m, n + 1),
                ),
        decreases list@.len() - i,
    {
        let y = string_yield(&list[i].1, list, ys, Ghost(m), Ghost(n));
        proof {
            let key = list@[i as int].0;
            assert(list_keys(list@)[i as int] == key);
            assert(list_keys(list@).contains(key));
            assert(m.contains_key(key));
            assert(m[key] == list@[i as int].1@);
            lemma_iterate_ruled(key, m, n + 1);
        }
        next.push(y);
        i = i + 1;
    }
    next
}

/// The largest iteration count, at most 30, for which the expansion of
/// `start` draws at most `max_segments` segments, counts saturating at
/// `u64::MAX`. The scan stops at the first count that draws more; a grammar
/// that never draws more gets 30.
pub fn max_safe_iterations(start: &str, rules: &BTreeMap<char, String>, max_segments: u64) -> (r: u32)
    ensures
        r <= 30,
        r == 30 <==> forall|n: nat|
            n <= 30 ==> saturate(#[trigger] drawn_segments(start@, rules_view(rules@), n))
                <= max_segments,
        r < 30 ==> (r == 0 && saturate(drawn_segments(start@, rules_view(rules@), 0)) > max_segments)
            || (saturate(drawn_segments(start@, rules_view(rules@), (r + 1) as nat)) > max_segments
            && forall|n: nat|
            n <= r ==> saturate(#[trigger] drawn_segments(start@, rules_view(rules@), n))
                <= max_segments),
{
    let ghost m = rules_view(rules@);
    let list = rule_list(rules);
    let start_chars = chars_of(start);
    let mut ys: Vec<u64> = Vec::new();
    let mut i: usize = 0;
    while i < list.len()
        invariant
            0 <= i <= list@.len(),
            ys@.len() == i,
            forall|a: int|
                0 <= a < i ==> #[trigger] ys@[a] == saturate(
                    drawn_segments(seq![list@[a].0], m, 0),
                ),
        decreases list@.len() - i,
    {
        proof {
            lemma_count_single(list@[i as int].0);
        }
        if list[i].0 == 'F' {
            ys.push(1);
        } else {
            ys.push(0);
        }
        i = i + 1;
    }
    let mut n: u32 = 0;
    while n <= HARD_MAX
        invariant
            n <= HARD_MAX + 1,
            represents(list@, m),
            yields_ok(list@, ys@, m, n as nat),
            start_chars@ == start@,
            m == rules_view(rules@),
            forall|k: nat| k < n ==> saturate(#[trigger] drawn_segments(start@, m, k)) <= max_segments,
        decreases HARD_MAX + 1 - n,
    {
        let total = string_yield(&start_chars, &list, &ys, Ghost(m), Ghost(n as nat));
        if total > max_segments {
            proof {
                assert(saturate(drawn_segments(start@, m, n as nat)) > max_segments);
            }
            if n == 0 {
                return 0;
            } else {
                return n - 1;
            }
        }
        ys = advance_yields(&list, &ys, Ghost(m), Ghost(n as nat));
        n = n + 1;
    }
    HARD_MAX
}

} // verus!

//! The mathematical model of L-system rewriting.
//!
//! A grammar is a map from symbols to replacement strings. One rewriting step
//! replaces every symbol that has a rule by its right-hand side and keeps every
//! other symbol; `iterate` applies that step a given number of times.

use vstd::prelude::*;

verus! {

/// What one symbol becomes in a single rewriting step.
pub open spec fn production<T>(c: T, rules: Map<T, Seq<T>>) -> Seq<T> {
    if rules.contains_key(c) {
        rules[c]
    } else {
        seq![c]
    }
}

/// One parallel rewriting step over a whole string.
pub open spec fn rewrite<T>(s: Seq<T>, rules: Map<T, Seq<T>>) -> Seq<T>
    decreases s.len(),
{
    if s.len() == 0 {
        Seq::empty()
    } else {
        production(s[0], rules) + rewrite(s.drop_first(), rules)
    }
}

/// `n` rewriting steps applied to `s`.
pub open spec fn iterate<T>(s: Seq<T>, rules: Map<T, Seq<T>>, n: nat) -> Seq<T>
    decreases n,
{
    if n == 0 {
        s
    } else {
        iterate(rewrite(s, rules), rules, (n - 1) as nat)
    }
}

/// Number of occurrences of `c` in `s`.
pub open spec fn count_of<T>(s: Seq<T>, c: T) -> nat
    decreases s.len(),
{
    if s.len() == 0 {
        0
    } else {
        (if s[0] == c {
            1nat
        } else {
            0nat
        }) + count_of(s.drop_first(), c)
    }
}

/// `s` with every element failing `keep` removed, order preserved.
pub open spec fn keep_only<T>(s: Seq<T>, keep: spec_fn(T) -> bool) -> Seq<T>
    decreases s.len(),
{
    if s.len() == 0 {
        Seq::empty()
    } else {
        (if keep(s[0]) {
            seq![s[0]]
        } else {
            Seq::empty()
        }) + keep_only(s.drop_first(), keep)
    }
}

/// Every element of `s` satisfies `keep`.
pub open spec fn all_kept<T>(s: Seq<T>, keep: spec_fn(T) -> bool) -> bool {
    forall|i: int| 0 <= i < s.len() ==> keep(#[trigger] s[i])
}

pub proof fn lemma_rewrite_concat<T>(a: Seq<T>, b: Seq<T>, rules: Map<T, Seq<T>>)
    ensures
        rewrite(a + b, rules) == rewrite(a, rules) + rewrite(b, rules),
    decreases a.len(),
{
    if a.len() == 0 {
        assert(a + b =~= b);
        assert(rewrite(a, rules) =~= Seq::<T>::empty());
        assert(rewrite(a, rules) + rewrite(b, rules) =~= rewrite(b, rules));
    } else {
        assert((a + b).drop_first() =~= a.drop_first() + b);
        assert((a + b)[0] == a[0]);
        lemma_rewrite_concat(a.drop_first(), b, rules);
        assert(rewrite(a + b, rules) =~= production(a[0], rules) + (rewrite(a.drop_first(), rules)
            + rewrite(b, rules)));
    }
}

pub proof fn lemma_iterate_concat<T>(a: Seq<T>, b: Seq<T>, rules: Map<T, Seq<T>>, n: nat)
    ensures
        iterate(a + b, rules, n) == iterate(a, rules, n) + iterate(b, rules, n),
    decreases n,
{
    if n > 0 {
        lemma_rewrite_concat(a, b, rules);
        lemma_iterate_concat(rewrite(a, rules), rewrite(b, rules), rules, (n - 1) as nat);
    }
}

pub proof fn lemma_rewrite_single<T>(c: T, rules: Map<T, Seq<T>>)
    ensures
        rewrite(seq![c], rules) == production(c, rules),
{
    assert(seq![c].drop_first() =~= Seq::<T>::empty());
    assert(rewrite(Seq::<T>::empty(), rules) =~= Seq::<T>::empty());
    assert(production(c, rules) + Seq::<T>::empty() =~= production(c, rules));
}

pub proof fn lemma_iterate_empty<T>(rules: Map<T, Seq<T>>, n: nat)
    ensures
        iterate(Seq::<T>::empty(), rules, n) == Seq::<T>::empty(),
    decreases n,
{
    if n > 0 {
        assert(rewrite(Seq::<T>::empty(), rules) =~= Seq::<T>::empty());
        lemma_iterate_empty(rules, (n - 1) as nat);
    }
}

/// A symbol without a rule is left unchanged by any number of steps.
pub proof fn lemma_iterate_unruled<T>(c: T, rules: Map<T, Seq<T>>, n: nat)
    requires
        !rules.contains_key(c),
    ensures
        iterate(seq![c], rules, n) == seq![c],
    decreases n,
{
    if n > 0 {
        lemma_rewrite_single(c, rules);
        lemma_iterate_unruled(c, rules, (n - 1) as nat);
    }
}

/// A symbol with a rule becomes its right-hand side, expanded one step less.
pub proof fn lemma_iterate_ruled<T>(c: T, rules: Map<T, Seq<T>>, n: nat)
    requires
        rules.contains_key(c),
        n > 0,
    ensures
        iterate(seq![c], rules, n) == iterate(rules[c], rules, (n - 1) as nat),
{
    lemma_rewrite_single(c, rules);
}

/// Splitting off the first symbol of a string commutes with iteration.
pub proof fn lemma_iterate_first<T>(s: Seq<T>, rules: Map<T, Seq<T>>, n: nat)
    requires
        s.len() > 0,
    ensures
        iterate(s, rules, n) == iterate(seq![s[0]], rules, n) + iterate(s.drop_first(), rules, n),
{
    assert(s =~= seq![s[0]] + s.drop_first());
    lemma_iterate_concat(seq![s[0]], s.drop_first(), rules, n);
}

pub proof fn lemma_count_concat<T>(a: Seq<T>, b: Seq<T>, c: T)
    ensures
        count_of(a + b, c) == count_of(a, c) + count_of(b, c),
    decreases a.len(),
{
    if a.len() == 0 {
        assert(a + b =~= b);
    } else {
        assert((a + b).drop_first() =~= a.drop_first() + b);
        lemma_count_concat(a.drop_first(), b, c);
    }
}

pub proof fn lemma_keep_only_concat<T>(a: Seq<T>, b: Seq<T>, keep: spec_fn(T) -> bool)
    ensures
        keep_only(a + b, keep) == keep_only(a, keep) + keep_only(b, keep),
    decreases a.len(),
{
    if a.len() == 0 {
        assert(a + b =~= b);
        assert(keep_only(a, keep) =~= Seq::<T>::empty());
        assert(keep_only(a, keep) + keep_only(b, keep) =~= keep_only(b, keep));
    } else {
        assert((a + b).drop_first() =~= a.drop_first() + b);
        assert((a + b)[0] == a[0]);
        lemma_keep_only_concat(a.drop_first(), b, keep);
        let head = if keep(a[0]) {
            seq![a[0]]
        } else {
            Seq::<T>::empty()
        };
        assert(keep_only(a + b, keep) =~= head + (keep_only(a.drop_first(), keep) + keep_only(
            b,
            keep,
        )));
    }
}

pub proof fn lemma_keep_only_single<T>(x: T, keep: spec_fn(T) -> bool)
    ensures
        keep_only(seq![x], keep) == (if keep(x) {
            seq![x]
        } else {
            Seq::<T>::empty()
        }),
{
    assert(seq![x].drop_first() =~= Seq::<T>::empty());
    assert(keep_only(Seq::<T>::empty(), keep) =~= Seq::<T>::empty());
    if keep(x) {
        assert(seq![x] + Seq::<T>::empty() =~= seq![x]);
    } else {
        assert(Seq::<T>::empty() + Seq::<T>::empty() =~= Seq::<T>::empty());
    }
}

/// The result of `keep_only` satisfies `keep` everywhere and is no longer than its input.
pub proof fn lemma_keep_only_kept<T>(s: Seq<T>, keep: spec_fn(T) -> bool)
    ensures
        all_kept(keep_only(s, keep), keep),
        keep_only(s, keep).len() <= s.len(),
    decreases s.len(),
{
    if s.len() > 0 {
        lemma_keep_only_kept(s.drop_first(), keep);
        let head = if keep(s[0]) {
            seq![s[0]]
        } else {
            Seq::<T>::empty()
        };
        let rest = keep_only(s.drop_first(), keep);
        assert(keep_only(s, keep) == head + rest);
        assert forall|i: int| 0 <= i < keep_only(s, keep).len() implies keep(
            #[trigger] keep_only(s, keep)[i],
        ) by {
            if i < head.len() {
            } else {
                assert(keep_only(s, keep)[i] == rest[i - head.len()]);
            }
        }
    }
}

/// Filtering a string whose elements all pass leaves it unchanged.
pub proof fn lemma_keep_only_all_kept<T>(s: Seq<T>, keep: spec_fn(T) -> bool)
    requires
        all_kept(s, keep),
    ensures
        keep_only(s, keep) == s,
    decreases s.len(),
{
    if s.len() == 0 {
        assert(keep_only(s, keep) =~= s);
    } else {
        assert(keep(s[0]));
        assert forall|i: int| 0 <= i < s.drop_first().len() implies keep(
            #[trigger] s.drop_first()[i],
        ) by {
            assert(s.drop_first()[i] == s[i + 1]);
        }
        lemma_keep_only_all_kept(s.drop_first(), keep);
        assert(keep_only(s, keep) =~= seq![s[0]] + s.drop_first());
        assert(s =~= seq![s[0]] + s.drop_first());
    }
}

/// Filtering twice is filtering once.
pub proof fn lemma_keep_only_idempotent<T>(s: Seq<T>, keep: spec_fn(T) -> bool)
    ensures
        keep_only(keep_only(s, keep), keep) == keep_only(s, keep),
{
    lemma_keep_only_kept(s, keep);
    lemma_keep_only_all_kept(keep_only(s, keep), keep);
}

/// Filtering one more element of a prefix appends that element if it passes.
pub proof fn lemma_keep_only_take_step<T>(s: Seq<T>, i: int, keep: spec_fn(T) -> bool)
    requires
        0 <= i < s.len(),
    ensures
        keep_only(s.take(i + 1), keep) == keep_only(s.take(i), keep) + keep_only(seq![s[i]], keep),
        keep_only(seq![s[i]], keep) == (if keep(s[i]) {
            seq![s[i]]
        } else {
            Seq::<T>::empty()
        }),
{
    assert(s.take(i + 1) =~= s.take(i) + seq![s[i]]);
    lemma_keep_only_concat(s.take(i), seq![s[i]], keep);
    lemma_keep_only_single(s[i], keep);
}

/// Filtering by a stricter predicate after a looser one is filtering by the
/// stricter one alone.
pub proof fn lemma_keep_only_nested<T>(s: Seq<T>, loose: spec_fn(T) -> bool, strict: spec_fn(T) -> bool)
    requires
        forall|x: T| #[trigger] strict(x) ==> loose(x),
    ensures
        keep_only(keep_only(s, loose), strict) == keep_only(s, strict),
    decreases s.len(),
{
    if s.len() == 0 {
        assert(keep_only(s, loose) =~= Seq::<T>::empty());
    } else {
        let head = if loose(s[0]) {
            seq![s[0]]
        } else {
            Seq::<T>::empty()
        };
        lemma_keep_only_nested(s.drop_first(), loose, strict);
        lemma_keep_only_concat(head, keep_only(s.drop_first(), loose), strict);
        if loose(s[0]) {
            lemma_keep_only_single(s[0], strict);
        } else {
            assert(keep_only(head, strict) =~= Seq::<T>::empty());
        }
        assert(keep_only(keep_only(s, loose), strict) =~= keep_only(s, strict));
    }
}

} // verus!

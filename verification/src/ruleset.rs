//! Production rules as authored: symbol to right-hand side, and which rules
//! the start string can ever reach.

use std::collections::BTreeMap;

use vstd::prelude::*;

use crate::rewriting::{iterate, keep_only, lemma_keep_only_take_step, production, rewrite};
use crate::text::{chars_of, contains_char};

verus! {

/// The rules of a `BTreeMap` as characters: symbol to right-hand-side characters.
pub open spec fn rules_view(m: Map<char, String>) -> Map<char, Seq<char>> {
    Map::new(|k: char| m.contains_key(k), |k: char| m[k]@)
}

/// `q` lists exactly the members of `keys`, in strictly increasing code-point order.
pub open spec fn is_sorted_listing(q: Seq<char>, keys: Set<char>) -> bool {
    &&& forall|i: int, j: int| 0 <= i < j < q.len() ==> (q[i] as int) < (q[j] as int)
    &&& forall|c: char| keys.contains(c) <==> q.contains(c)
}

/// The rule symbols of `m` in increasing code-point order (the order in which
/// a `BTreeMap<char, _>` walks its keys).
pub open spec fn rule_order<V>(m: Map<char, V>) -> Seq<char> {
    choose|q: Seq<char>| is_sorted_listing(q, m.dom())
}

/// `c` occurs in the start string or in some later rewriting step.
pub open spec fn appears(start: Seq<char>, m: Map<char, Seq<char>>, c: char) -> bool {
    exists|n: nat| #[trigger] iterate(start, m, n).contains(c)
}

/// Two sorted listings of one key set are the same sequence.
pub proof fn lemma_sorted_listing_unique(q1: Seq<char>, q2: Seq<char>, keys: Set<char>)
    requires
        is_sorted_listing(q1, keys),
        is_sorted_listing(q2, keys),
    ensures
        q1 == q2,
    decreases q1.len(),
{
    if q1.len() == 0 {
        if q2.len() > 0 {
            assert(q2.contains(q2[0]));
            assert(q1.contains(q2[0]));
        }
        assert(q1 =~= q2);
    } else {
        assert(q1.contains(q1[0]));
        assert(q2.contains(q1[0]));
        assert(q2.len() > 0);
        assert(q2.contains(q2[0]));
        assert(q1.contains(q2[0]));
        let i2 = choose|i: int| 0 <= i < q2.len() && q2[i] == q1[0];
        let i1 = choose|i: int| 0 <= i < q1.len() && q1[i] == q2[0];
        if i2 > 0 {
            assert((q2[0] as int) < (q2[i2] as int));
            if i1 > 0 {
                assert((q1[0] as int) < (q1[i1] as int));
            }
            assert(false);
        }
        assert(q1[0] == q2[0]);
        let rest = keys.remove(q1[0]);
        assert forall|c: char| rest.contains(c) <==> q1.drop_first().contains(c) by {
            if q1.drop_first().contains(c) {
                let j = choose|j: int| 0 <= j < q1.drop_first().len() && q1.drop_first()[j] == c;
                assert(q1[j + 1] == c);
                assert((q1[0] as int) < (q1[j + 1] as int));
            }
            if rest.contains(c) {
                assert(q1.contains(c));
                let j = choose|j: int| 0 <= j < q1.len() && q1[j] == c;
                assert(j != 0);
                assert(q1.drop_first()[j - 1] == c);
            }
        }
        assert forall|c: char| rest.contains(c) <==> q2.drop_first().contains(c) by {
            if q2.drop_first().contains(c) {
                let j = choose|j: int| 0 <= j < q2.drop_first().len() && q2.drop_first()[j] == c;
                assert(q2[j + 1] == c);
                assert((q2[0] as int) < (q2[j + 1] as int));
            }
            if rest.contains(c) {
                assert(q2.contains(c));
                let j = choose|j: int| 0 <= j < q2.len() && q2[j] == c;
                assert(j != 0);
                assert(q2.drop_first()[j - 1] == c);
            }
        }
        lemma_sorted_listing_unique(q1.drop_first(), q2.drop_first(), rest);
        assert(q1 =~= seq![q1[0]] + q1.drop_first());
        assert(q2 =~= seq![q2[0]] + q2.drop_first());
    }
}

/// A finite nonempty set of characters has a largest member.
proof fn lemma_max_exists(keys: Set<char>)
    requires
        keys.finite(),
        keys.len() > 0,
    ensures
        exists|c: char| keys.contains(c) && forall|x: char| keys.contains(x) ==> (x as int) <= (c as int),
    decreases keys.len(),
{
    let a = keys.choose();
    let rest = keys.remove(a);
    if rest.len() == 0 {
        assert forall|x: char| keys.contains(x) implies (x as int) <= (a as int) by {
            if x != a {
                assert(rest.contains(x));
            }
        }
    } else {
        lemma_max_exists(rest);
        let b = choose|c: char| rest.contains(c) && forall|x: char| rest.contains(x) ==> (x as int) <= (c as int);
        if (a as int) <= (b as int) {
            assert forall|x: char| keys.contains(x) implies (x as int) <= (b as int) by {
                if x != a {
                    assert(rest.contains(x));
                }
            }
        } else {
            assert forall|x: char| keys.contains(x) implies (x as int) <= (a as int) by {
                if x != a {
                    assert(rest.contains(x));
                }
            }
        }
    }
}

/// Every finite set of characters has a sorted listing.
pub proof fn lemma_sorted_listing_exists(keys: Set<char>)
    requires
        keys.finite(),
    ensures
        exists|q: Seq<char>| is_sorted_listing(q, keys),
    decreases keys.len(),
{
    if keys.len() == 0 {
        let q = Seq::<char>::empty();
        assert forall|c: char| keys.contains(c) <==> q.contains(c) by {
            if keys.contains(c) {
                assert(keys.len() > 0);
            }
        }
        assert(is_sorted_listing(q, keys));
    } else {
        lemma_max_exists(keys);
        let c = choose|c: char| keys.contains(c) && forall|x: char| keys.contains(x) ==> (x as int) <= (c as int);
        let rest = keys.remove(c);
        lemma_sorted_listing_exists(rest);
        let q0 = choose|q: Seq<char>| is_sorted_listing(q, rest);
        let q = q0.push(c);
        assert forall|i: int, j: int| 0 <= i < j < q.len() implies (q[i] as int) < (q[j] as int) by {
            if j < q0.len() {
                assert(q[i] == q0[i] && q[j] == q0[j]);
            } else {
                assert(q[i] == q0[i]);
                assert(q0.contains(q0[i]));
                assert(rest.contains(q0[i]));
            }
        }
        assert forall|x: char| keys.contains(x) <==> q.contains(x) by {
            if keys.contains(x) {
                if x == c {
                    assert(q[q0.len() as int] == c);
                } else {
                    assert(rest.contains(x));
                    let i = choose|i: int| 0 <= i < q0.len() && q0[i] == x;
                    assert(q[i] == x);
                }
            }
            if q.contains(x) {
                let i = choose|i: int| 0 <= i < q.len() && q[i] == x;
                if i < q0.len() {
                    assert(q0[i] == x);
                    assert(q0.contains(x));
                }
            }
        }
        assert(is_sorted_listing(q, keys));
    }
}

/// The entries of a `BTreeMap<char, String>` in key order (`Vec::from_iter`).
///
/// A `BTreeMap` iterates its entries in increasing key order, and `char`
/// orders by code point, so the entries come out with strictly increasing
/// keys, one per key of the map, each paired with its value.
#[verifier::external_body]
fn into_entries(rules: BTreeMap<char, String>) -> (v: Vec<(char, String)>)
    ensures
        forall|i: int, j: int| 0 <= i < j < v@.len() ==> (v@[i].0 as int) < (v@[j].0 as int),
        forall|i: int|
            0 <= i < v@.len() ==> rules@.contains_key(#[trigger] v@[i].0) && rules@[v@[i].0]
                == v@[i].1,
        forall|k: char|
            rules@.contains_key(k) ==> exists|i: int| 0 <= i < v@.len() && #[trigger] v@[i].0 == k,
{
    Vec::from_iter(rules)
}

/// The keys of a rule list, in list order.
pub open spec fn list_keys(v: Seq<(char, Vec<char>)>) -> Seq<char> {
    v.map_values(|e: (char, Vec<char>)| e.0)
}

/// `v` lists the rules of `m` in increasing symbol order.
pub open spec fn represents(v: Seq<(char, Vec<char>)>, m: Map<char, Seq<char>>) -> bool {
    &&& is_sorted_listing(list_keys(v), m.dom())
    &&& forall|i: int| 0 <= i < v.len() ==> m[#[trigger] v[i].0] == v[i].1@
}

/// The rules as a list of `(symbol, right-hand side)` in increasing symbol order.
pub fn rule_list(rules: &BTreeMap<char, String>) -> (v: Vec<(char, Vec<char>)>)
    ensures
        represents(v@, rules_view(rules@)),
        list_keys(v@) == rule_order(rules_view(rules@)),
{
    let entries = into_entries(rules.clone());
    let mut v: Vec<(char, Vec<char>)> = Vec::new();
    let ghost m = rules_view(rules@);
    let mut i: usize = 0;
    while i < entries.len()
        invariant
            0 <= i <= entries@.len(),
            v@.len() == i,
            forall|a: int| 0 <= a < i ==> (#[trigger] v@[a]).0 == entries@[a].0,
            forall|a: int| 0 <= a < i ==> (#[trigger] v@[a]).1@ == entries@[a].1@,
        decreases entries@.len() - i,
    {
        let key = entries[i].0;
        let rhs = chars_of(entries[i].1.as_str());
        v.push((key, rhs));
        i = i + 1;
    }
    proof {
        let keys = list_keys(v@);
        assert forall|c: char| m.dom().contains(c) <==> keys.contains(c) by {
            if m.dom().contains(c) {
                let a = choose|a: int| 0 <= a < entries@.len() && #[trigger] entries@[a].0 == c;
                assert(keys[a] == c);
            }
            if keys.contains(c) {
                let a = choose|a: int| 0 <= a < keys.len() && keys[a] == c;
                assert(entries@[a].0 == c);
            }
        }
        assert forall|a: int, b: int| 0 <= a < b < keys.len() implies (keys[a] as int) < (
        keys[b] as int) by {
            assert(keys[a] == entries@[a].0);
            assert(keys[b] == entries@[b].0);
        }
        assert forall|a: int| 0 <= a < v@.len() implies m[#[trigger] v@[a].0] == v@[a].1@ by {
            assert(entries@[a].0 == v@[a].0);
        }
        assert(is_sorted_listing(keys, m.dom()));
        lemma_sorted_listing_unique(keys, rule_order(m), m.dom());
    }
    v
}

/// Index of the rule for `c` in a rule list, if there is one.
pub fn find_rule(v: &Vec<(char, Vec<char>)>, c: char) -> (r: Option<usize>)
    ensures
        r matches Some(i) ==> i < v@.len() && v@[i as int].0 == c,
        r is None ==> forall|i: int| 0 <= i < v@.len() ==> (#[trigger] v@[i]).0 != c,
{
    let mut i: usize = 0;
    while i < v.len()
        invariant
            0 <= i <= v@.len(),
            forall|a: int| 0 <= a < i ==> (#[trigger] v@[a]).0 != c,
        decreases v@.len() - i,
    {
        if v[i].0 == c {
            return Some(i);
        }
        i = i + 1;
    }
    None
}

/// Looking a symbol up in a list that represents `m` answers membership in `m`.
pub proof fn lemma_find_in_represented(v: Seq<(char, Vec<char>)>, m: Map<char, Seq<char>>, c: char)
    requires
        represents(v, m),
    ensures
        m.contains_key(c) <==> exists|i: int| 0 <= i < v.len() && (#[trigger] v[i]).0 == c,
{
    if m.contains_key(c) {
        assert(list_keys(v).contains(c));
        let i = choose|i: int| 0 <= i < list_keys(v).len() && list_keys(v)[i] == c;
        assert(v[i].0 == c);
    }
    if exists|i: int| 0 <= i < v.len() && (#[trigger] v[i]).0 == c {
        let i = choose|i: int| 0 <= i < v.len() && (#[trigger] v[i]).0 == c;
        assert(list_keys(v)[i] == c);
    }
}

/// Every symbol of a rule's right-hand side appears in the next step of any
/// string holding that rule's symbol.
pub proof fn lemma_rewrite_contains_rhs(s: Seq<char>, m: Map<char, Seq<char>>, p: char, x: char)
    requires
        s.contains(p),
        m.contains_key(p),
        m[p].contains(x),
    ensures
        rewrite(s, m).contains(x),
    decreases s.len(),
{
    let rest = rewrite(s.drop_first(), m);
    let head = production(s[0], m);
    assert(rewrite(s, m) == head + rest);
    if s[0] == p {
        let j = choose|j: int| 0 <= j < m[p].len() && m[p][j] == x;
        assert((head + rest)[j] == x);
    } else {
        let i = choose|i: int| 0 <= i < s.len() && s[i] == p;
        assert(s.drop_first()[i - 1] == p);
        lemma_rewrite_contains_rhs(s.drop_first(), m, p, x);
        let j = choose|j: int| 0 <= j < rest.len() && rest[j] == x;
        assert((head + rest)[head.len() + j] == x);
    }
}

/// A symbol without a rule survives a rewriting step.
pub proof fn lemma_rewrite_keeps_unruled(s: Seq<char>, m: Map<char, Seq<char>>, c: char)
    requires
        s.contains(c),
        !m.contains_key(c),
    ensures
        rewrite(s, m).contains(c),
    decreases s.len(),
{
    let rest = rewrite(s.drop_first(), m);
    let head = production(s[0], m);
    assert(rewrite(s, m) == head + rest);
    if s[0] == c {
        assert((head + rest)[0] == c);
    } else {
        let i = choose|i: int| 0 <= i < s.len() && s[i] == c;
        assert(s.drop_first()[i - 1] == c);
        lemma_rewrite_keeps_unruled(s.drop_first(), m, c);
        let j = choose|j: int| 0 <= j < rest.len() && rest[j] == c;
        assert((head + rest)[head.len() + j] == c);
    }
}

/// Every symbol of a rewriting step comes from the step before: it is either
/// an unruled symbol of `s` or a symbol of the right-hand side of a ruled one.
pub proof fn lemma_rewrite_origin(s: Seq<char>, m: Map<char, Seq<char>>, x: char)
    requires
        rewrite(s, m).contains(x),
    ensures
        (s.contains(x) && !m.contains_key(x)) || exists|p: char|
            #![trigger m[p]]
            s.contains(p) && m.contains_key(p) && m[p].contains(x),
    decreases s.len(),
{
    let rest = rewrite(s.drop_first(), m);
    let head = production(s[0], m);
    assert(rewrite(s, m) == head + rest);
    let j = choose|j: int| 0 <= j < (head + rest).len() && (head + rest)[j] == x;
    assert(s.contains(s[0]));
    if j < head.len() {
        if m.contains_key(s[0]) {
            assert(m[s[0]][j] == x);
            assert(m[s[0]].contains(x));
        } else {
            assert(head[j] == s[0]);
        }
    } else {
        assert(rest[j - head.len()] == x);
        lemma_rewrite_origin(s.drop_first(), m, x);
        if s.drop_first().contains(x) {
            let i = choose|i: int| 0 <= i < s.drop_first().len() && s.drop_first()[i] == x;
            assert(s[i + 1] == x);
        } else {
            let p = choose|p: char|
                #![trigger m[p]]
                s.drop_first().contains(p) && m.contains_key(p) && m[p].contains(x);
            let i = choose|i: int| 0 <= i < s.drop_first().len() && s.drop_first()[i] == p;
            assert(s[i + 1] == p);
        }
    }
}

/// A set of symbols that holds the start string and is closed under the
/// rules holds every symbol that ever appears.
pub proof fn lemma_closed_holds_iterate(
    s: Seq<char>,
    m: Map<char, Seq<char>>,
    closed: Seq<char>,
    n: nat,
    x: char,
)
    requires
        forall|c: char| s.contains(c) ==> closed.contains(c),
        forall|p: char, y: char|
            closed.contains(p) && m.contains_key(p) && #[trigger] m[p].contains(y)
                ==> closed.contains(y),
        iterate(s, m, n).contains(x),
    ensures
        closed.contains(x),
    decreases n,
{
    if n == 0 {
    } else {
        let r = rewrite(s, m);
        assert forall|c: char| r.contains(c) implies closed.contains(c) by {
            lemma_rewrite_origin(s, m, c);
        }
        lemma_closed_holds_iterate(r, m, closed, (n - 1) as nat, x);
    }
}

/// The right-hand side of a rule whose symbol appears appears too.
pub proof fn lemma_appears_rhs(start: Seq<char>, m: Map<char, Seq<char>>, p: char, x: char)
    requires
        appears(start, m, p),
        m.contains_key(p),
        m[p].contains(x),
    ensures
        appears(start, m, x),
{
    let n = choose|n: nat| #[trigger] iterate(start, m, n).contains(p);
    lemma_iterate_step(start, m, n);
    lemma_rewrite_contains_rhs(iterate(start, m, n), m, p, x);
    assert(iterate(start, m, n + 1).contains(x));
}

/// Every symbol that appears is a start symbol or comes from the right-hand
/// side of a rule whose symbol appears.
pub proof fn lemma_appears_origin(start: Seq<char>, m: Map<char, Seq<char>>, n: nat, x: char)
    requires
        iterate(start, m, n).contains(x),
    ensures
        start.contains(x) || exists|k: char|
            appears(start, m, k) && m.contains_key(k) && #[trigger] m[k].contains(x),
    decreases n,
{
    if n > 0 {
        let prev = (n - 1) as nat;
        lemma_iterate_step(start, m, prev);
        lemma_rewrite_origin(iterate(start, m, prev), m, x);
        if iterate(start, m, prev).contains(x) && !m.contains_key(x) {
            lemma_appears_origin(start, m, prev, x);
        } else {
            let p = choose|p: char|
                #![trigger m[p]]
                iterate(start, m, prev).contains(p) && m.contains_key(p) && m[p].contains(x);
            assert(appears(start, m, p));
        }
    }
}

/// Taking one more step is rewriting the result of the previous steps.
pub proof fn lemma_iterate_step<T>(s: Seq<T>, m: Map<T, Seq<T>>, n: nat)
    ensures
        iterate(s, m, n + 1) == rewrite(iterate(s, m, n), m),
    decreases n,
{
    assert(iterate(s, m, n + 1) == iterate(rewrite(s, m), m, n));
    if n > 0 {
        lemma_iterate_step(rewrite(s, m), m, (n - 1) as nat);
        assert(iterate(s, m, n) == iterate(rewrite(s, m), m, (n - 1) as nat));
    }
}

/// Count of elements of `u` that are not in `done`.
spec fn pending_count(u: Seq<char>, done: Seq<char>) -> nat
    decreases u.len(),
{
    if u.len() == 0 {
        0
    } else {
        (if done.contains(u[0]) {
            0nat
        } else {
            1nat
        }) + pending_count(u.drop_first(), done)
    }
}

pub proof fn lemma_push_contains(done: Seq<char>, c: char, x: char)
    ensures
        done.push(c).contains(x) <==> (done.contains(x) || x == c),
{
    if done.contains(x) {
        let j = choose|j: int| 0 <= j < done.len() && done[j] == x;
        assert(done.push(c)[j] == x);
    }
    if x == c {
        assert(done.push(c)[done.len() as int] == c);
    }
    if done.push(c).contains(x) {
        let j = choose|j: int| 0 <= j < done.push(c).len() && done.push(c)[j] == x;
        if j < done.len() {
            assert(done[j] == x);
        }
    }
}

proof fn lemma_pending_count_mono(u: Seq<char>, done: Seq<char>, c: char)
    ensures
        pending_count(u, done.push(c)) <= pending_count(u, done),
    decreases u.len(),
{
    if u.len() > 0 {
        lemma_pending_count_mono(u.drop_first(), done, c);
        lemma_push_contains(done, c, u[0]);
    }
}

proof fn lemma_pending_count_shrinks(u: Seq<char>, done: Seq<char>, c: char)
    requires
        u.contains(c),
        !done.contains(c),
    ensures
        pending_count(u, done.push(c)) < pending_count(u, done),
    decreases u.len(),
{
    lemma_push_contains(done, c, u[0]);
    if u[0] == c {
        lemma_pending_count_mono(u.drop_first(), done, c);
    } else {
        let i = choose|i: int| 0 <= i < u.len() && u[i] == c;
        assert(u.drop_first()[i - 1] == c);
        lemma_pending_count_shrinks(u.drop_first(), done, c);
    }
}

/// Concatenation of every right-hand side of a rule list.
spec fn all_rhs(v: Seq<(char, Vec<char>)>) -> Seq<char>
    decreases v.len(),
{
    if v.len() == 0 {
        Seq::empty()
    } else {
        all_rhs(v.drop_last()) + v.last().1@
    }
}

proof fn lemma_all_rhs_contains(v: Seq<(char, Vec<char>)>, i: int, x: char)
    requires
        0 <= i < v.len(),
        v[i].1@.contains(x),
    ensures
        all_rhs(v).contains(x),
    decreases v.len(),
{
    let a = all_rhs(v.drop_last());
    let b = v.last().1@;
    if i == v.len() - 1 {
        let j = choose|j: int| 0 <= j < b.len() && b[j] == x;
        assert((a + b)[a.len() + j] == x);
    } else {
        assert(v.drop_last()[i] == v[i]);
        lemma_all_rhs_contains(v.drop_last(), i, x);
        let j = choose|j: int| 0 <= j < a.len() && a[j] == x;
        assert((a + b)[j] == x);
    }
}

/// Every symbol that can occur while expanding `start`: the start string's own
/// symbols plus the right-hand-side symbols of every reachable rule.
pub fn reachable_symbols(
    start: &Vec<char>,
    rules: &Vec<(char, Vec<char>)>,
    Ghost(m): Ghost<Map<char, Seq<char>>>,
) -> (r: Vec<char>)
    requires
        represents(rules@, m),
    ensures
        forall|c: char| r@.contains(c) <==> appears(start@, m, c),
{
    let mut reached: Vec<char> = Vec::new();
    let mut stack: Vec<char> = start.clone();
    let ghost universe = start@ + all_rhs(rules@);
    proof {
        assert(iterate(start@, m, 0) == start@);
        assert forall|c: char| stack@.contains(c) implies appears(start@, m, c) by {
            assert(iterate(start@, m, 0).contains(c));
        }
        assert forall|c: char| stack@.contains(c) implies universe.contains(c) by {
            let i = choose|i: int| 0 <= i < stack@.len() && stack@[i] == c;
            assert(universe[i] == c);
        }
    }
    while stack.len() > 0
        invariant
            represents(rules@, m),
            universe == start@ + all_rhs(rules@),
            forall|c: char| reached@.contains(c) ==> appears(start@, m, c),
            forall|c: char| stack@.contains(c) ==> appears(start@, m, c),
            forall|c: char| stack@.contains(c) ==> universe.contains(c),
            forall|c: char| start@.contains(c) ==> reached@.contains(c) || stack@.contains(c),
            forall|p: char, y: char|
                reached@.contains(p) && m.contains_key(p) && #[trigger] m[p].contains(y)
                    ==> reached@.contains(y) || stack@.contains(y),
        decreases pending_count(universe, reached@), stack@.len(),
    {
        let ghost stack_start = stack@;
        let c = stack.pop().unwrap();
        let ghost stack_before = stack@.push(c);
        proof {
            assert(stack_before =~= stack_start);
            assert forall|x: char| stack_before.contains(x) implies stack@.contains(x) || x == c by {
                let i = choose|i: int| 0 <= i < stack_before.len() && stack_before[i] == x;
                if i < stack@.len() {
                    assert(stack@[i] == x);
                }
            }
            assert(stack_before.contains(c)) by {
                assert(stack_before[stack@.len() as int] == c);
            }
        }
        let mut known = false;
        let mut j: usize = 0;
        while j < reached.len()
            invariant
                0 <= j <= reached@.len(),
                known == exists|a: int| 0 <= a < j && reached@[a] == c,
            decreases reached@.len() - j,
        {
            if reached[j] == c {
                known = true;
            }
            j = j + 1;
        }
        if !known {
            let ghost reached_before = reached@;
            reached.push(c);
            proof {
                lemma_pending_count_shrinks(universe, reached_before, c);
                assert forall|x: char| reached@.contains(x) implies reached_before.contains(x)
                    || x == c by {
                    let i = choose|i: int| 0 <= i < reached@.len() && reached@[i] == x;
                    if i < reached_before.len() {
                        assert(reached_before[i] == x);
                    }
                }
                assert forall|x: char| reached_before.contains(x) implies reached@.contains(x) by {
                    let i = choose|i: int| 0 <= i < reached_before.len() && reached_before[i] == x;
                    assert(reached@[i] == x);
                }
                assert(reached@.contains(c)) by {
                    assert(reached@[reached_before.len() as int] == c);
                }
            }
            match find_rule(rules, c) {
                Some(idx) => {
                    let rhs = &rules[idx].1;
                    let ghost stack_mid = stack@;
                    let mut k: usize = 0;
                    while k < rhs.len()
                        invariant
                            0 <= k <= rhs@.len(),
                            stack@ == stack_mid + rhs@.take(k as int),
                        decreases rhs@.len() - k,
                    {
                        stack.push(rhs[k]);
                        k = k + 1;
                        proof {
                            assert(rhs@.take(k as int) =~= rhs@.take((k - 1) as int).push(
                                rhs@[k - 1],
                            ));
                        }
                    }
                    proof {
                        assert(rhs@.take(rhs@.len() as int) =~= rhs@);
                        lemma_find_in_represented(rules@, m, c);
                        assert(m.contains_key(c));
                        assert(m[c] == rhs@);
                        assert forall|x: char| stack@.contains(x) implies stack_mid.contains(x)
                            || rhs@.contains(x) by {
                            let i = choose|i: int| 0 <= i < stack@.len() && stack@[i] == x;
                            if i < stack_mid.len() {
                                assert(stack_mid[i] == x);
                            } else {
                                assert(rhs@[i - stack_mid.len()] == x);
                            }
                        }
                        assert forall|x: char| rhs@.contains(x) implies stack@.contains(x) by {
                            let i = choose|i: int| 0 <= i < rhs@.len() && rhs@[i] == x;
                            assert(stack@[stack_mid.len() + i] == x);
                        }
                        assert forall|x: char| stack_mid.contains(x) implies stack@.contains(x) by {
                            let i = choose|i: int| 0 <= i < stack_mid.len() && stack_mid[i] == x;
                            assert(stack@[i] == x);
                        }
                        assert forall|x: char| rhs@.contains(x) implies appears(start@, m, x) by {
                            lemma_appears_rhs(start@, m, c, x);
                        }
                        assert forall|x: char| rhs@.contains(x) implies universe.contains(x) by {
                            lemma_all_rhs_contains(rules@, idx as int, x);
                            let a = all_rhs(rules@);
                            let i = choose|i: int| 0 <= i < a.len() && a[i] == x;
                            assert(universe[start@.len() + i] == x);
                        }
                        assert forall|x: char| #[trigger] stack@.contains(x) implies appears(start@, m, x)
                            && universe.contains(x) by {
                            if stack_mid.contains(x) {
                                lemma_push_contains(stack_mid, c, x);
                                assert(stack_before.contains(x));
                            }
                        }
                        assert forall|x: char| reached@.contains(x) implies appears(start@, m, x) by {
                            if x == c {
                                assert(stack_before.contains(x));
                            } else {
                                assert(reached_before.contains(x));
                            }
                        }
                    }
                },
                None => {
                    proof {
                        lemma_find_in_represented(rules@, m, c);
                        assert forall|x: char| #[trigger] stack@.contains(x) implies appears(start@, m, x)
                            && universe.contains(x) by {
                            lemma_push_contains(stack@, c, x);
                            assert(stack_before.contains(x));
                        }
                        assert forall|x: char| reached@.contains(x) implies appears(start@, m, x) by {
                            if x == c {
                                assert(stack_before.contains(x));
                            } else {
                                assert(reached_before.contains(x));
                            }
                        }
                    }
                },
            }
        } else {
            proof {
                let a = choose|a: int| 0 <= a < j && reached@[a] == c;
                assert(reached@.contains(c));
                assert forall|x: char| #[trigger] stack@.contains(x) implies appears(start@, m, x)
                    && universe.contains(x) by {
                    lemma_push_contains(stack@, c, x);
                    assert(stack_before.contains(x));
                }
            }
        }
    }
    proof {
        assert forall|c: char| appears(start@, m, c) implies reached@.contains(c) by {
            let n = choose|n: nat| #[trigger] iterate(start@, m, n).contains(c);
            lemma_closed_holds_iterate(start@, m, reached@, n, c);
        }
    }
    reached
}

/// The predicate "`k` never appears while expanding `start`", as a value.
pub open spec fn dead_filter(start: Seq<char>, m: Map<char, Seq<char>>) -> spec_fn(char) -> bool {
    |k: char| !appears(start, m, k)
}

/// The rules of `m` whose symbol appears while expanding `start`.
pub open spec fn live_rules(start: Seq<char>, m: Map<char, Seq<char>>) -> Map<char, Seq<char>> {
    m.restrict(Set::new(|k: char| appears(start, m, k)))
}

/// Rule symbols that never appear while expanding `start`, in increasing
/// symbol order. Such rules are never applied, whatever the number of steps.
pub fn unused_rules(start: &str, rules: &BTreeMap<char, String>) -> (r: Vec<char>)
    ensures
        r@ == keep_only(rule_order(rules_view(rules@)), dead_filter(start@, rules_view(rules@))),
{
    let ghost m = rules_view(rules@);
    let ghost dead = dead_filter(start@, m);
    let list = rule_list(rules);
    let start_chars = chars_of(start);
    let reachable = reachable_symbols(&start_chars, &list, Ghost(m));
    let ghost order = list_keys(list@);
    let mut out: Vec<char> = Vec::new();
    let mut i: usize = 0;
    while i < list.len()
        invariant
            0 <= i <= list@.len(),
            order == list_keys(list@),
            forall|c: char| reachable@.contains(c) <==> appears(start@, m, c),
            dead == dead_filter(start@, m),
            out@ == keep_only(order.take(i as int), dead),
        decreases list@.len() - i,
    {
        let key = list[i].0;
        proof {
            assert(order[i as int] == key);
            lemma_keep_only_take_step(order, i as int, dead);
        }
        if !contains_char(&reachable, key) {
            out.push(key);
        }
        i = i + 1;
        proof {
            assert(out@ =~= keep_only(order.take(i as int), dead));
        }
    }
    proof {
        assert(order.take(list@.len() as int) =~= order);
    }
    out
}

/// Every symbol of the next step comes from symbols that appear, so appears too.
pub proof fn lemma_rewrite_appears(start: Seq<char>, m: Map<char, Seq<char>>, s: Seq<char>, x: char)
    requires
        forall|c: char| s.contains(c) ==> appears(start, m, c),
        rewrite(s, m).contains(x),
    ensures
        appears(start, m, x),
{
    lemma_rewrite_origin(s, m, x);
    if !(s.contains(x) && !m.contains_key(x)) {
        let p = choose|p: char|
            #![trigger m[p]]
            s.contains(p) && m.contains_key(p) && m[p].contains(x);
        lemma_appears_rhs(start, m, p, x);
    }
}

/// `m2` has the same rule as `m` for every symbol that appears under `m`.
pub open spec fn agrees_on_appearing(start: Seq<char>, m: Map<char, Seq<char>>, m2: Map<char, Seq<char>>) -> bool {
    forall|c: char|
        #[trigger] appears(start, m, c) ==> (m2.contains_key(c) == m.contains_key(c) && (
        m.contains_key(c) ==> m2[c] == m[c]))
}

proof fn lemma_rewrite_agreeing(
    start: Seq<char>,
    m: Map<char, Seq<char>>,
    m2: Map<char, Seq<char>>,
    s: Seq<char>,
)
    requires
        agrees_on_appearing(start, m, m2),
        forall|c: char| s.contains(c) ==> appears(start, m, c),
    ensures
        rewrite(s, m2) == rewrite(s, m),
    decreases s.len(),
{
    if s.len() > 0 {
        let rest = s.drop_first();
        assert forall|x: char| rest.contains(x) implies appears(start, m, x) by {
            let i = choose|i: int| 0 <= i < rest.len() && rest[i] == x;
            assert(s[i + 1] == x);
            assert(s.contains(x));
        }
        lemma_rewrite_agreeing(start, m, m2, rest);
        assert(s.contains(s[0]));
        assert(appears(start, m, s[0]));
        assert(production(s[0], m2) == production(s[0], m));
    }
}

/// Rule maps that agree on every symbol that appears rewrite the start
/// string identically, step after step.
pub proof fn lemma_iterate_agreeing(
    start: Seq<char>,
    m: Map<char, Seq<char>>,
    m2: Map<char, Seq<char>>,
    s: Seq<char>,
    n: nat,
)
    requires
        agrees_on_appearing(start, m, m2),
        forall|c: char| s.contains(c) ==> appears(start, m, c),
    ensures
        iterate(s, m2, n) == iterate(s, m, n),
    decreases n,
{
    if n > 0 {
        lemma_rewrite_agreeing(start, m, m2, s);
        assert forall|x: char| rewrite(s, m).contains(x) implies appears(start, m, x) by {
            lemma_rewrite_appears(start, m, s, x);
        }
        lemma_iterate_agreeing(start, m, m2, rewrite(s, m), (n - 1) as nat);
    }
}

/// Every symbol of the start string appears.
pub proof fn lemma_start_appears(start: Seq<char>, m: Map<char, Seq<char>>)
    ensures
        forall|c: char| start.contains(c) ==> appears(start, m, c),
{
    assert forall|c: char| start.contains(c) implies appears(start, m, c) by {
        assert(iterate(start, m, 0) == start);
    }
}

/// Rules whose symbol never appears are dead: dropping them changes no
/// rewriting step of the start string.
pub proof fn lemma_unused_rules_dead(start: Seq<char>, m: Map<char, Seq<char>>, n: nat)
    ensures
        iterate(start, live_rules(start, m), n) == iterate(start, m, n),
{
    lemma_start_appears(start, m);
    lemma_iterate_agreeing(start, m, live_rules(start, m), start, n);
}

/// Whether the start string or any right-hand side pushes turtle state (`[`).
///
/// Only `[` needs checking: validated grammars have balanced brackets, so a
/// `]` never appears without one.
pub fn has_stack_directives(start: &str, rules: &BTreeMap<char, String>) -> (r: bool)
    ensures
        r == (start@.contains('[') || exists|k: char|
            rules@.contains_key(k) && (#[trigger] rules@[k])@.contains('[')),
{
    let start_chars = chars_of(start);
    if contains_char(&start_chars, '[') {
        return true;
    }
    let list = rule_list(rules);
    let ghost m = rules_view(rules@);
    let mut i: usize = 0;
    while i < list.len()
        invariant
            0 <= i <= list@.len(),
            represents(list@, m),
            m == rules_view(rules@),
            forall|a: int| 0 <= a < i ==> !(#[trigger] list@[a]).1@.contains('['),
        decreases list@.len() - i,
    {
        if contains_char(&list[i].1, '[') {
            proof {
                let k = list@[i as int].0;
                assert(list_keys(list@)[i as int] == k);
                assert(list_keys(list@).contains(k));
                assert(rules@.contains_key(k));
                assert(rules@[k]@ == list@[i as int].1@);
            }
            return true;
        }
        i = i + 1;
    }
    proof {
        assert forall|k: char| rules@.contains_key(k) implies !(#[trigger] rules@[k])@.contains('[') by {
            assert(m.dom().contains(k));
            assert(list_keys(list@).contains(k));
            let a = choose|a: int| 0 <= a < list_keys(list@).len() && list_keys(list@)[a] == k;
            assert(list@[a].0 == k);
            assert(m[k] == list@[a].1@);
        }
    }
    false
}

} // verus!

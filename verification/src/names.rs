//! Entry names: decimal suffixes and the first free name of a family.

use vstd::prelude::*;
use vstd::set_lib::{lemma_int_range, lemma_len_subset, lemma_map_size, lemma_map_size_bound, set_int_range};

use crate::text::{chars_of, str_equals, string_from_chars};

verus! {

/// The decimal digit character of `d < 10`.
pub open spec fn digit_char(d: nat) -> char {
    if d == 0 {
        '0'
    } else if d == 1 {
        '1'
    } else if d == 2 {
        '2'
    } else if d == 3 {
        '3'
    } else if d == 4 {
        '4'
    } else if d == 5 {
        '5'
    } else if d == 6 {
        '6'
    } else if d == 7 {
        '7'
    } else if d == 8 {
        '8'
    } else {
        '9'
    }
}

fn digit(d: usize) -> (c: char)
    requires
        d < 10,
    ensures
        c == digit_char(d as nat),
{
    if d == 0 {
        '0'
    } else if d == 1 {
        '1'
    } else if d == 2 {
        '2'
    } else if d == 3 {
        '3'
    } else if d == 4 {
        '4'
    } else if d == 5 {
        '5'
    } else if d == 6 {
        '6'
    } else if d == 7 {
        '7'
    } else if d == 8 {
        '8'
    } else {
        '9'
    }
}

/// The decimal representation of `n`, without leading zeros.
pub open spec fn decimal(n: nat) -> Seq<char>
    decreases n,
{
    if n < 10 {
        seq![digit_char(n)]
    } else {
        decimal(n / 10).push(digit_char(n % 10))
    }
}

/// The number a string of decimal digits denotes.
pub open spec fn decimal_value(s: Seq<char>) -> int
    decreases s.len(),
{
    if s.len() == 0 {
        0
    } else {
        decimal_value(s.drop_last()) * 10 + (s.last() as int - 48)
    }
}

/// The `k`-th name of the family of `base` (`k >= 1`): `base` itself, then
/// `base 2`, `base 3`, ...
pub open spec fn candidate(base: Seq<char>, k: nat) -> Seq<char> {
    if k <= 1 {
        base
    } else {
        base + seq![' '] + decimal(k)
    }
}

/// Some name of `names` is `s`.
pub open spec fn name_taken(names: Seq<String>, s: Seq<char>) -> bool {
    exists|i: int| 0 <= i < names.len() && (#[trigger] names[i])@ == s
}

proof fn lemma_digit_value(d: nat)
    requires
        d < 10,
    ensures
        digit_char(d) as int - 48 == d,
{
    assert('0' as int == 48);
    assert('9' as int == 57);
}

/// Reading a decimal representation gives back its number.
pub proof fn lemma_decimal_value(n: nat)
    ensures
        decimal_value(decimal(n)) == n,
        decimal(n).len() >= 1,
    decreases n,
{
    if n < 10 {
        lemma_digit_value(n);
        assert(seq![digit_char(n)].drop_last() =~= Seq::<char>::empty());
        assert(seq![digit_char(n)].last() == digit_char(n));
        assert(decimal_value(Seq::<char>::empty()) == 0);
    } else {
        lemma_decimal_value(n / 10);
        lemma_digit_value(n % 10);
        let d = decimal(n / 10).push(digit_char(n % 10));
        assert(d.drop_last() =~= decimal(n / 10));
        assert(d.last() == digit_char(n % 10));
        assert((n / 10) * 10 + n % 10 == n) by (nonlinear_arith);
    }
}

/// Different numbers have different decimal representations.
pub proof fn lemma_decimal_injective(a: nat, b: nat)
    requires
        decimal(a) == decimal(b),
    ensures
        a == b,
{
    lemma_decimal_value(a);
    lemma_decimal_value(b);
}

/// Different members of a name family are different names.
pub proof fn lemma_candidate_injective(base: Seq<char>, a: nat, b: nat)
    requires
        1 <= a,
        1 <= b,
        a != b,
    ensures
        candidate(base, a) != candidate(base, b),
{
    lemma_decimal_value(a);
    lemma_decimal_value(b);
    if a >= 2 && b >= 2 {
        if candidate(base, a) == candidate(base, b) {
            let prefix = base + seq![' '];
            assert(candidate(base, a).skip(prefix.len() as int) =~= decimal(a));
            assert(candidate(base, b).skip(prefix.len() as int) =~= decimal(b));
            lemma_decimal_injective(a, b);
        }
    } else if a >= 2 {
        assert(candidate(base, a).len() > base.len());
    } else {
        assert(candidate(base, b).len() > base.len());
    }
}

/// A list of `m` names cannot hold `m + 1` members of one family.
proof fn lemma_family_not_all_taken(names: Seq<String>, base: Seq<char>)
    ensures
        exists|k: nat| 1 <= k <= names.len() + 1 && !name_taken(names, #[trigger] candidate(base, k)),
{
    let m = names.len() as int;
    if forall|k: nat| 1 <= k <= m + 1 ==> name_taken(names, #[trigger] candidate(base, k)) {
        let ks = set_int_range(1, m + 2);
        lemma_int_range(1, m + 2);
        let f = |k: int| candidate(base, k as nat);
        assert forall|x: int, y: int| ks.contains(x) && ks.contains(y) && #[trigger] f(x) == #[trigger] f(y)
            implies x == y by {
            if x != y {
                lemma_candidate_injective(base, x as nat, y as nat);
            }
        }
        let cands = ks.map(f);
        lemma_map_size(ks, cands, f);
        let idx = set_int_range(0, m);
        lemma_int_range(0, m);
        let g = |i: int| names[i]@;
        let taken = idx.map(g);
        lemma_map_size_bound(idx, taken, g);
        assert forall|s: Seq<char>| cands.contains(s) implies taken.contains(s) by {
            let k = choose|k: int| ks.contains(k) && f(k) == s;
            assert(name_taken(names, candidate(base, k as nat)));
            let i = choose|i: int| 0 <= i < names.len() && (#[trigger] names[i])@ == candidate(
                base,
                k as nat,
            );
            assert(idx.contains(i) && g(i) == s);
        }
        lemma_len_subset(cands, taken);
        assert(false);
    }
}

/// The decimal digits of `n`.
pub fn decimal_chars(n: usize) -> (v: Vec<char>)
    ensures
        v@ == decimal(n as nat),
    decreases n,
{
    if n < 10 {
        let mut v: Vec<char> = Vec::new();
        v.push(digit(n));
        proof {
            assert(v@ =~= seq![digit_char(n as nat)]);
        }
        v
    } else {
        let mut v = decimal_chars(n / 10);
        v.push(digit(n % 10));
        v
    }
}

/// The `k`-th name of the family of `base`.
fn candidate_name(base: &str, k: usize) -> (s: String)
    requires
        k >= 1,
    ensures
        s@ == candidate(base@, k as nat),
{
    if k == 1 {
        return base.to_owned();
    }
    let mut v = chars_of(base);
    v.push(' ');
    let digits = decimal_chars(k);
    let mut i: usize = 0;
    let ghost front = v@;
    while i < digits.len()
        invariant
            0 <= i <= digits@.len(),
            front == base@ + seq![' '],
            v@ == front + digits@.take(i as int),
        decreases digits@.len() - i,
    {
        v.push(digits[i]);
        i = i + 1;
        proof {
            assert(v@ =~= front + digits@.take(i as int));
        }
    }
    proof {
        assert(digits@.take(digits@.len() as int) =~= digits@);
    }
    string_from_chars(v)
}

/// Whether some name of `names` is `name`.
pub fn contains_name(names: &Vec<String>, name: &str) -> (r: bool)
    ensures
        r == name_taken(names@, name@),
{
    let mut i: usize = 0;
    while i < names.len()
        invariant
            0 <= i <= names@.len(),
            forall|j: int| 0 <= j < i ==> (#[trigger] names@[j])@ != name@,
        decreases names@.len() - i,
    {
        if str_equals(names[i].as_str(), name) {
            return true;
        }
        i = i + 1;
    }
    false
}

/// Whether some name other than the one at `index` is `name`.
pub fn name_exists_except(names: &Vec<String>, name: &str, index: usize) -> (r: bool)
    ensures
        r == exists|i: int| 0 <= i < names@.len() && i != index && (#[trigger] names@[i])@ == name@,
{
    let mut i: usize = 0;
    while i < names.len()
        invariant
            0 <= i <= names@.len(),
            forall|j: int| 0 <= j < i && j != index ==> (#[trigger] names@[j])@ != name@,
        decreases names@.len() - i,
    {
        if i != index && str_equals(names[i].as_str(), name) {
            return true;
        }
        i = i + 1;
    }
    false
}

/// The first free name of the family of `base`: `base` itself if no name of
/// `names` is `base`, else the first of `base 2`, `base 3`, ... that is free.
pub fn unique_name(names: &Vec<String>, base: &str) -> (r: String)
    requires
        names@.len() < usize::MAX,
    ensures
        !name_taken(names@, r@),
        exists|k: nat|
            1 <= k <= names@.len() + 1 && r@ == candidate(base@, k) && forall|j: nat|
                1 <= j < k ==> name_taken(names@, #[trigger] candidate(base@, j)),
{
    let mut k: usize = 1;
    loop
        invariant
            1 <= k <= names@.len() + 1,
            names@.len() < usize::MAX,
            forall|j: nat| 1 <= j < k ==> name_taken(names@, #[trigger] candidate(base@, j)),
        decreases names@.len() + 1 - k,
    {
        let cand = candidate_name(base, k);
        if !contains_name(names, cand.as_str()) {
            return cand;
        }
        proof {
            if k == names@.len() + 1 {
                lemma_family_not_all_taken(names@, base@);
                let free = choose|j: nat| 1 <= j <= names@.len() + 1 && !name_taken(
                    names@,
                    #[trigger] candidate(base@, j),
                );
                if free < k {
                    assert(name_taken(names@, candidate(base@, free)));
                }
                assert(false);
            }
        }
        k = k + 1;
    }
}

/// The index of the first name that repeats an earlier one, if any.
pub fn first_repeated_name(names: &Vec<String>) -> (r: Option<usize>)
    ensures
        r matches Some(j) ==> j < names@.len() && name_taken(names@.take(j as int), names@[j as int]@)
            && forall|b: int| 0 <= b < j ==> !name_taken(names@.take(b), (#[trigger] names@[b])@),
        r is None ==> forall|i: int, j: int|
            0 <= i < j < names@.len() ==> (#[trigger] names@[i])@ != (#[trigger] names@[j])@,
{
    let mut seen: Vec<String> = Vec::new();
    let mut j: usize = 0;
    while j < names.len()
        invariant
            0 <= j <= names@.len(),
            seen@ == names@.take(j as int),
            forall|b: int| 0 <= b < j ==> !name_taken(names@.take(b), (#[trigger] names@[b])@),
        decreases names@.len() - j,
    {
        if contains_name(&seen, names[j].as_str()) {
            return Some(j);
        }
        proof {
            assert(names@.take(j + 1) =~= names@.take(j as int).push(names@[j as int]));
        }
        seen.push(names[j].clone());
        j = j + 1;
    }
    proof {
        assert forall|a: int, b: int| 0 <= a < b < names@.len() implies (#[trigger] names@[a])@ != (
        #[trigger] names@[b])@ by {
            if names@[a]@ == names@[b]@ {
                assert(names@.take(b)[a] == names@[a]);
                assert(name_taken(names@.take(b), names@[b]@));
            }
        }
    }
    None
}

} // verus!

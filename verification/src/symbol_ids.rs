//! Byte identifiers for grammar symbols.
//!
//! ASCII symbols are their own byte. Non-ASCII symbols receive sequential
//! identifiers from 128 upward, in order of first appearance; at most 128
//! distinct non-ASCII symbols fit.

use vstd::prelude::*;

verus! {

/// `c` is an ASCII character.
pub open spec fn is_ascii_char(c: char) -> bool {
    (c as u32) < 128
}

/// Whether `c` is an ASCII character.
pub fn char_is_ascii(c: char) -> (r: bool)
    ensures
        r == is_ascii_char(c),
{
    (c as u32) < 128
}

/// The table after seeing `c`: a new non-ASCII symbol is appended.
pub open spec fn table_step(t: Seq<char>, c: char) -> Seq<char> {
    if is_ascii_char(c) || t.contains(c) {
        t
    } else {
        t.push(c)
    }
}

/// Distinct non-ASCII symbols of `s` in order of first appearance.
pub open spec fn id_table(s: Seq<char>) -> Seq<char>
    decreases s.len(),
{
    if s.len() == 0 {
        Seq::empty()
    } else {
        table_step(id_table(s.drop_last()), s.last())
    }
}

/// The byte identifier of `c` under the non-ASCII table `t`.
pub open spec fn symbol_id(c: char, t: Seq<char>) -> u8 {
    if is_ascii_char(c) {
        (c as u32) as u8
    } else {
        (128 + t.index_of(c)) as u8
    }
}

/// `s` with every symbol replaced by its identifier.
pub open spec fn encode(s: Seq<char>, t: Seq<char>) -> Seq<u8> {
    s.map_values(|c: char| symbol_id(c, t))
}

/// `c` has an identifier under `t`.
pub open spec fn in_domain(c: char, t: Seq<char>) -> bool {
    is_ascii_char(c) || t.contains(c)
}

/// A table of distinct non-ASCII symbols.
pub open spec fn table_ok(t: Seq<char>) -> bool {
    &&& t.no_duplicates()
    &&& forall|i: int| 0 <= i < t.len() ==> !is_ascii_char(#[trigger] t[i])
}

/// `p` is a prefix of `t`.
pub open spec fn is_prefix_of(p: Seq<char>, t: Seq<char>) -> bool {
    p.len() <= t.len() && forall|i: int| 0 <= i < p.len() ==> #[trigger] t[i] == p[i]
}

pub proof fn lemma_id_table_push(s: Seq<char>, c: char)
    ensures
        id_table(s.push(c)) == table_step(id_table(s), c),
{
    assert(s.push(c).drop_last() =~= s);
}

pub proof fn lemma_id_table_ok(s: Seq<char>)
    ensures
        table_ok(id_table(s)),
    decreases s.len(),
{
    if s.len() > 0 {
        lemma_id_table_ok(s.drop_last());
        let t = id_table(s.drop_last());
        let c = s.last();
        if !(is_ascii_char(c) || t.contains(c)) {
            let t2 = t.push(c);
            assert forall|i: int, j: int| 0 <= i < t2.len() && 0 <= j < t2.len() && i != j implies t2[i]
                != t2[j] by {
                if i < t.len() && j < t.len() {
                } else if i < t.len() {
                    assert(t2[j] == c);
                    assert(t2[i] == t[i]);
                } else {
                    assert(t2[i] == c);
                    assert(t2[j] == t[j]);
                }
            }
            assert forall|i: int| 0 <= i < t2.len() implies !is_ascii_char(#[trigger] t2[i]) by {
                if i < t.len() {
                    assert(t2[i] == t[i]);
                }
            }
        }
    }
}

/// Every symbol of `s` has an identifier under the table built from `s`.
pub proof fn lemma_id_table_covers(s: Seq<char>, i: int)
    requires
        0 <= i < s.len(),
    ensures
        in_domain(s[i], id_table(s)),
    decreases s.len(),
{
    let t = id_table(s.drop_last());
    let c = s.last();
    if i < s.len() - 1 {
        lemma_id_table_covers(s.drop_last(), i);
        assert(s.drop_last()[i] == s[i]);
        if t.contains(s[i]) {
            let j = choose|j: int| 0 <= j < t.len() && t[j] == s[i];
            assert(table_step(t, c)[j] == s[i]);
        }
    } else {
        if !(is_ascii_char(c) || t.contains(c)) {
            assert(t.push(c)[t.len() as int] == c);
        }
    }
}

/// Building the table from a longer string extends the table of its prefix.
pub proof fn lemma_id_table_extends(s: Seq<char>, u: Seq<char>)
    ensures
        is_prefix_of(id_table(s), id_table(s + u)),
    decreases u.len(),
{
    if u.len() == 0 {
        assert(s + u =~= s);
    } else {
        lemma_id_table_extends(s, u.drop_last());
        assert((s + u).drop_last() =~= s + u.drop_last());
        assert((s + u).last() == u.last());
    }
}

pub proof fn lemma_index_of_unique(t: Seq<char>, i: int)
    requires
        t.no_duplicates(),
        0 <= i < t.len(),
    ensures
        t.index_of(t[i]) == i,
{
    assert(t.contains(t[i]));
}

/// Identifiers are injective on the symbols that have one.
pub proof fn lemma_symbol_id_injective(c1: char, c2: char, t: Seq<char>)
    requires
        table_ok(t),
        t.len() <= 128,
        in_domain(c1, t),
        in_domain(c2, t),
        symbol_id(c1, t) == symbol_id(c2, t),
    ensures
        c1 == c2,
{
    if is_ascii_char(c1) && is_ascii_char(c2) {
        assert((c1 as u32) == (c2 as u32));
    } else if !is_ascii_char(c1) && !is_ascii_char(c2) {
        let i1 = choose|i: int| 0 <= i < t.len() && t[i] == c1;
        let i2 = choose|i: int| 0 <= i < t.len() && t[i] == c2;
        lemma_index_of_unique(t, i1);
        lemma_index_of_unique(t, i2);
    } else if is_ascii_char(c1) {
        let i2 = choose|i: int| 0 <= i < t.len() && t[i] == c2;
        lemma_index_of_unique(t, i2);
    } else {
        let i1 = choose|i: int| 0 <= i < t.len() && t[i] == c1;
        lemma_index_of_unique(t, i1);
    }
}

/// A symbol's identifier under a prefix table is its identifier under the full table.
pub proof fn lemma_symbol_id_prefix(c: char, p: Seq<char>, t: Seq<char>)
    requires
        is_prefix_of(p, t),
        table_ok(t),
        in_domain(c, p),
    ensures
        symbol_id(c, p) == symbol_id(c, t),
        in_domain(c, t),
{
    if !is_ascii_char(c) {
        let i = choose|i: int| 0 <= i < p.len() && p[i] == c;
        assert(t[i] == c);
        assert(p.no_duplicates()) by {
            assert forall|a: int, b: int| 0 <= a < p.len() && 0 <= b < p.len() && a != b implies p[a]
                != p[b] by {
                assert(t[a] == p[a] && t[b] == p[b]);
            }
        }
        lemma_index_of_unique(p, i);
        lemma_index_of_unique(t, i);
    }
}

/// Keys of an identifier assignment list.
pub open spec fn assigned(v: Seq<(char, u8)>) -> Seq<char> {
    v.map_values(|e: (char, u8)| e.0)
}

/// The assignment list gives its `i`-th symbol the identifier `128 + i`, and
/// `next_id` is the identifier the next new symbol receives.
pub open spec fn assignment_ok(v: Seq<(char, u8)>, next_id: u8) -> bool {
    &&& v.len() <= 128
    &&& table_ok(assigned(v))
    &&& forall|i: int| 0 <= i < v.len() ==> (#[trigger] v[i]).1 == 128 + i
    &&& v.len() < 128 ==> next_id == 128 + v.len()
}

/// Maps ASCII symbols to their byte value and assigns non-ASCII symbols
/// sequential identifiers from 128 through 255.
pub fn char_to_id(c: char, non_ascii: &mut Vec<(char, u8)>, next_id: &mut u8) -> (id: u8)
    requires
        assignment_ok(old(non_ascii)@, *old(next_id)),
        in_domain(c, assigned(old(non_ascii)@)) || assigned(old(non_ascii)@).len() < 128,
    ensures
        assignment_ok(final(non_ascii)@, *final(next_id)),
        assigned(final(non_ascii)@) == table_step(assigned(old(non_ascii)@), c),
        id == symbol_id(c, assigned(final(non_ascii)@)),
        in_domain(c, assigned(old(non_ascii)@)) ==> final(non_ascii)@ == old(non_ascii)@
            && *final(next_id) == *old(next_id),
        !in_domain(c, assigned(old(non_ascii)@)) ==> final(non_ascii)@ == old(non_ascii)@.push(
            (c, *old(next_id)),
        ) && id == *old(next_id) && *final(next_id) == (if *old(next_id) == 255 {
            0u8
        } else {
            (*old(next_id) + 1) as u8
        }),
{
    let ghost t = assigned(non_ascii@);
    if char_is_ascii(c) {
        return (c as u32) as u8;
    }
    let mut i: usize = 0;
    while i < non_ascii.len()
        invariant
            0 <= i <= non_ascii@.len(),
            t == assigned(non_ascii@),
            non_ascii@ == old(non_ascii)@,
            *next_id == *old(next_id),
            assignment_ok(non_ascii@, *next_id),
            !is_ascii_char(c),
            forall|a: int| 0 <= a < i ==> t[a] != c,
        decreases non_ascii@.len() - i,
    {
        if non_ascii[i].0 == c {
            let id = non_ascii[i].1;
            proof {
                assert(t[i as int] == c);
                assert(t.contains(c));
                lemma_index_of_unique(t, i as int);
            }
            return id;
        }
        i = i + 1;
    }
    proof {
        assert(!t.contains(c));
    }
    let id = *next_id;
    *next_id = next_id.wrapping_add(1);
    non_ascii.push((c, id));
    proof {
        let t2 = assigned(non_ascii@);
        assert(t2 =~= t.push(c));
        assert(t2[t.len() as int] == c);
        lemma_index_of_unique_push(t, c);
    }
    id
}

proof fn lemma_index_of_unique_push(t: Seq<char>, c: char)
    requires
        table_ok(t),
        !t.contains(c),
        !is_ascii_char(c),
    ensures
        table_ok(t.push(c)),
        t.push(c).index_of(c) == t.len(),
{
    let t2 = t.push(c);
    assert forall|i: int, j: int| 0 <= i < t2.len() && 0 <= j < t2.len() && i != j implies t2[i]
        != t2[j] by {
        if i < t.len() && j < t.len() {
        } else if i < t.len() {
            assert(t2[i] == t[i]);
        } else {
            assert(t2[j] == t[j]);
        }
    }
    assert forall|i: int| 0 <= i < t2.len() implies !is_ascii_char(#[trigger] t2[i]) by {
        if i < t.len() {
            assert(t2[i] == t[i]);
        }
    }
    lemma_index_of_unique(t2, t.len() as int);
}

/// Appends the identifiers of `chars` to `arena`, assigning new non-ASCII
/// identifiers on the way. `prev` is every symbol seen before `chars`, and
/// `full` the table of the whole symbol sequence that `prev + chars` begins.
pub fn encode_into(
    arena: &mut Vec<u8>,
    chars: &Vec<char>,
    non_ascii: &mut Vec<(char, u8)>,
    next_id: &mut u8,
    Ghost(prev): Ghost<Seq<char>>,
    Ghost(full): Ghost<Seq<char>>,
)
    requires
        assignment_ok(old(non_ascii)@, *old(next_id)),
        assigned(old(non_ascii)@) == id_table(prev),
        is_prefix_of(id_table(prev + chars@), full),
        table_ok(full),
        full.len() <= 128,
    ensures
        final(arena)@ == old(arena)@ + encode(chars@, full),
        assignment_ok(final(non_ascii)@, *final(next_id)),
        assigned(final(non_ascii)@) == id_table(prev + chars@),
{
    let ghost arena0 = arena@;
    let mut j: usize = 0;
    while j < chars.len()
        invariant
            0 <= j <= chars@.len(),
            assignment_ok(non_ascii@, *next_id),
            assigned(non_ascii@) == id_table(prev + chars@.take(j as int)),
            arena@ == arena0 + encode(chars@.take(j as int), full),
            is_prefix_of(id_table(prev + chars@), full),
            table_ok(full),
            full.len() <= 128,
        decreases chars@.len() - j,
    {
        let c = chars[j];
        let ghost seen = prev + chars@.take(j as int);
        let ghost seen1 = prev + chars@.take(j + 1);
        proof {
            assert(seen1 =~= seen.push(c));
            lemma_id_table_push(seen, c);
            assert(prev + chars@ =~= seen1 + chars@.skip(j + 1));
            lemma_id_table_extends(seen1, chars@.skip(j + 1));
            let t1 = id_table(seen1);
            if !in_domain(c, assigned(non_ascii@)) {
                assert(t1 == assigned(non_ascii@).push(c));
            }
        }
        let ghost before = assigned(non_ascii@);
        let id = char_to_id(c, non_ascii, next_id);
        arena.push(id);
        j = j + 1;
        proof {
            let t1 = id_table(seen1);
            assert(assigned(non_ascii@) == t1);
            assert(is_prefix_of(t1, full)) by {
                assert forall|i: int| 0 <= i < t1.len() implies #[trigger] full[i] == t1[i] by {
                    let tall = id_table(prev + chars@);
                    assert(tall[i] == t1[i]);
                }
            }
            assert(in_domain(c, t1)) by {
                if !is_ascii_char(c) {
                    assert(t1.contains(c)) by {
                        if !before.contains(c) {
                            assert(t1 == before.push(c));
                            assert(t1[t1.len() - 1] == c);
                        }
                    }
                }
            }
            lemma_symbol_id_prefix(c, t1, full);
            assert(chars@.take(j as int) =~= chars@.take((j - 1) as int).push(c));
            assert(encode(chars@.take(j as int), full) =~= encode(
                chars@.take((j - 1) as int),
                full,
            ).push(symbol_id(c, full)));
        }
    }
    proof {
        assert(chars@.take(chars@.len() as int) =~= chars@);
    }
}

} // verus!

//! Choosing the bundled preset files: TOML files only, in path order.

use vstd::prelude::*;

use crate::text::chars_of;

verus! {

/// `a` comes before or equals `b` in lexicographic character order, which is
/// the byte order of their UTF-8 encodings.
pub open spec fn lex_le(a: Seq<char>, b: Seq<char>) -> bool
    decreases a.len(),
{
    if a.len() == 0 {
        true
    } else if b.len() == 0 {
        false
    } else if a[0] != b[0] {
        a[0] < b[0]
    } else {
        lex_le(a.drop_first(), b.drop_first())
    }
}

/// The path `label` names a file whose extension is `toml`: it ends in
/// `.toml` and that `.` is not the first character of the file name.
pub open spec fn is_toml_path(label: Seq<char>) -> bool {
    &&& label.len() > 5
    &&& label.subrange(label.len() - 5, label.len() as int) == seq!['.', 't', 'o', 'm', 'l']
    &&& label[label.len() - 6] != '/'
}

/// A preset file as found: its path and, when it is valid UTF-8, its text.
pub open spec fn is_preset(file: (String, Option<String>)) -> bool {
    is_toml_path(file.0@) && file.1 is Some
}

/// The presets among `files`, in their original order.
pub open spec fn preset_entries(files: Seq<(String, Option<String>)>) -> Seq<(String, String)>
    decreases files.len(),
{
    if files.len() == 0 {
        Seq::empty()
    } else {
        let rest = preset_entries(files.drop_last());
        let f = files.last();
        if is_preset(f) {
            rest.push((f.0, f.1->0))
        } else {
            rest
        }
    }
}

/// The entries whose path is `l`.
pub open spec fn with_label(l: Seq<char>) -> spec_fn((String, String)) -> bool {
    |e: (String, String)| e.0@ == l
}

/// Entries are in non-decreasing path order.
pub open spec fn sorted_by_label(v: Seq<(String, String)>) -> bool {
    forall|i: int, j: int| 0 <= i < j < v.len() ==> lex_le(v[i].0@, v[j].0@)
}

pub proof fn lemma_lex_le_total(a: Seq<char>, b: Seq<char>)
    ensures
        lex_le(a, b) || lex_le(b, a),
    decreases a.len(),
{
    if a.len() > 0 && b.len() > 0 {
        if a[0] == b[0] {
            lemma_lex_le_total(a.drop_first(), b.drop_first());
        } else {
            assert(a[0] < b[0] || b[0] < a[0]);
        }
    }
}

/// Every string comes before or equals itself.
proof fn lemma_lex_le_reflexive(a: Seq<char>)
    ensures
        lex_le(a, a),
    decreases a.len(),
{
    if a.len() > 0 {
        lemma_lex_le_reflexive(a.drop_first());
    }
}

/// No entry of `s` passes `f`: its filter is empty.
proof fn lemma_filter_none(s: Seq<(String, String)>, f: spec_fn((String, String)) -> bool)
    requires
        forall|i: int| 0 <= i < s.len() ==> !f(#[trigger] s[i]),
    ensures
        s.filter(f).len() == 0,
    decreases s.len(),
{
    reveal(Seq::filter);
    if s.len() > 0 {
        assert forall|i: int| 0 <= i < s.drop_last().len() implies !f(#[trigger] s.drop_last()[i]) by {
            assert(s.drop_last()[i] == s[i]);
        }
        lemma_filter_none(s.drop_last(), f);
        assert(!f(s[s.len() - 1]));
    }
}

pub proof fn lemma_lex_le_transitive(a: Seq<char>, b: Seq<char>, c: Seq<char>)
    requires
        lex_le(a, b),
        lex_le(b, c),
    ensures
        lex_le(a, c),
    decreases a.len(),
{
    if a.len() > 0 && b.len() > 0 && c.len() > 0 && a[0] == b[0] && b[0] == c[0] {
        lemma_lex_le_transitive(a.drop_first(), b.drop_first(), c.drop_first());
    }
}

/// Whether `label` names a TOML file.
fn has_toml_extension(label: &String) -> (r: bool)
    ensures
        r == is_toml_path(label@),
{
    let v = chars_of(label.as_str());
    let n = v.len();
    if n <= 5 {
        return false;
    }
    let r = v[n - 5] == '.' && v[n - 4] == 't' && v[n - 3] == 'o' && v[n - 2] == 'm' && v[n - 1]
        == 'l' && v[n - 6] != '/';
    proof {
        let tail = label@.subrange(n - 5, n as int);
        if r {
            assert(tail =~= seq!['.', 't', 'o', 'm', 'l']);
        } else if tail == seq!['.', 't', 'o', 'm', 'l'] {
            assert(tail[0] == v@[n - 5]);
            assert(tail[1] == v@[n - 4]);
            assert(tail[2] == v@[n - 3]);
            assert(tail[3] == v@[n - 2]);
            assert(tail[4] == v@[n - 1]);
        }
    }
    r
}

/// Whether `a` comes before or equals `b` in lexicographic character order.
fn label_le(a: &String, b: &String) -> (r: bool)
    ensures
        r == lex_le(a@, b@),
{
    let x = chars_of(a.as_str());
    let y = chars_of(b.as_str());
    let mut i: usize = 0;
    proof {
        assert(x@.skip(0) =~= x@);
        assert(y@.skip(0) =~= y@);
    }
    while i < x.len() && i < y.len()
        invariant
            0 <= i <= x@.len(),
            i <= y@.len(),
            x@ == a@,
            y@ == b@,
            forall|k: int| 0 <= k < i ==> x@[k] == y@[k],
            lex_le(a@, b@) == lex_le(x@.skip(i as int), y@.skip(i as int)),
        decreases x@.len() - i,
    {
        if x[i] != y[i] {
            proof {
                assert(x@.skip(i as int)[0] == x@[i as int]);
                assert(y@.skip(i as int)[0] == y@[i as int]);
            }
            return x[i] < y[i];
        }
        proof {
            assert(x@.skip(i as int).drop_first() =~= x@.skip(i + 1));
            assert(y@.skip(i as int).drop_first() =~= y@.skip(i + 1));
        }
        i = i + 1;
    }
    proof {
        assert(x@.skip(i as int).len() == 0 || y@.skip(i as int).len() == 0);
    }
    i == x.len()
}

/// The bundled presets among `files`, as `(path, text)` sorted by path: only
/// files with the `toml` extension whose text is valid UTF-8 are kept. The
/// sort is stable: presets with one path keep their order.
pub fn load_presets(files: Vec<(String, Option<String>)>) -> (r: Vec<(String, String)>)
    ensures
        r@.to_multiset() == preset_entries(files@).to_multiset(),
        sorted_by_label(r@),
        forall|l: Seq<char>| #[trigger] r@.filter(with_label(l)) == preset_entries(files@).filter(
            with_label(l),
        ),
{
    let mut out: Vec<(String, String)> = Vec::new();
    let mut remaining = files;
    let ghost all = remaining@;
    let mut i: usize = 0;
    let n = remaining.len();
    let mut taken: Vec<(String, String)> = Vec::new();
    // Keep the presets, in order.
    while i < n
        invariant
            0 <= i <= n,
            n == all.len(),
            remaining@ == all,
            taken@ == preset_entries(all.take(i as int)),
        decreases n - i,
    {
        proof {
            assert(all.take(i + 1).drop_last() =~= all.take(i as int));
            assert(all.take(i + 1).last() == all[i as int]);
        }
        if has_toml_extension(&remaining[i].0) {
            match &remaining[i].1 {
                Some(text) => {
                    taken.push((remaining[i].0.clone(), text.clone()));
                },
                None => {},
            }
        }
        i = i + 1;
    }
    proof {
        assert(all.take(n as int) =~= all);
    }
    // Insert each preset after every entry whose path does not come after it.
    let mut k: usize = 0;
    proof {
        broadcast use vstd::seq_lib::group_to_multiset_ensures;

        assert(taken@.take(0) =~= Seq::<(String, String)>::empty());
        assert(out@ =~= Seq::<(String, String)>::empty());
        assert(out@.to_multiset() =~= taken@.take(0).to_multiset());
        assert forall|l: Seq<char>| #[trigger] out@.filter(with_label(l)) == taken@.take(0).filter(
            with_label(l),
        ) by {
            reveal(Seq::filter);
        }
    }
    while k < taken.len()
        invariant
            0 <= k <= taken@.len(),
            taken@ == preset_entries(all),
            out@.to_multiset() == taken@.take(k as int).to_multiset(),
            sorted_by_label(out@),
            forall|l: Seq<char>| #[trigger] out@.filter(with_label(l)) == taken@.take(k as int).filter(
                with_label(l),
            ),
        decreases taken@.len() - k,
    {
        let item = (taken[k].0.clone(), taken[k].1.clone());
        assert(item == taken@[k as int]);
        let mut p: usize = out.len();
        while p > 0 && !label_le(&out[p - 1].0, &item.0)
            invariant
                0 <= p <= out@.len(),
                sorted_by_label(out@),
                forall|q: int| p <= q < out@.len() ==> !lex_le(out@[q].0@, item.0@),
            decreases p,
        {
            p = p - 1;
        }
        let ghost before = out@;
        out.insert(p, item);
        proof {
            broadcast use vstd::seq_lib::group_to_multiset_ensures;

            assert(before.insert(p as int, item) == out@);
            assert forall|a: int, b: int| 0 <= a < b < out@.len() implies lex_le(
                out@[a].0@,
                out@[b].0@,
            ) by {
                if b < p {
                    assert(out@[a] == before[a] && out@[b] == before[b]);
                } else if a < p && b == p {
                    assert(out@[a] == before[a]);
                    assert(lex_le(before[p - 1].0@, item.0@));
                    if a < p - 1 {
                        lemma_lex_le_transitive(before[a].0@, before[p - 1].0@, item.0@);
                    }
                } else if a < p {
                    assert(out@[a] == before[a] && out@[b] == before[b - 1]);
                } else if a == p {
                    assert(out@[b] == before[b - 1]);
                    assert(!lex_le(before[b - 1].0@, item.0@));
                    lemma_lex_le_total(before[b - 1].0@, item.0@);
                } else {
                    assert(out@[a] == before[a - 1] && out@[b] == before[b - 1]);
                }
            }
            assert(taken@.take(k + 1) =~= taken@.take(k as int).push(taken@[k as int]));
            assert(out@.to_multiset() =~= before.to_multiset().insert(item)) by {
                assert(out@ =~= before.take(p as int).push(item) + before.skip(p as int));
                vstd::seq_lib::lemma_multiset_commutative(before.take(p as int).push(item), before.skip(p as int));
                vstd::seq_lib::lemma_multiset_commutative(before.take(p as int), before.skip(p as int));
                assert(before =~= before.take(p as int) + before.skip(p as int));
            }
            let front = before.take(p as int);
            let back = before.skip(p as int);
            assert(out@ =~= front.push(item) + back);
            assert(before =~= front + back);
            assert forall|l: Seq<char>| #[trigger] out@.filter(with_label(l)) == taken@.take(k + 1).filter(
                with_label(l),
            ) by {
                let f = with_label(l);
                Seq::filter_distributes_over_add(front.push(item), back, f);
                Seq::filter_distributes_over_add(front, back, f);
                front.lemma_filter_push(item, f);
                taken@.take(k as int).lemma_filter_push(item, f);
                if f(item) {
                    assert forall|i: int| 0 <= i < back.len() implies !f(#[trigger] back[i]) by {
                        assert(back[i] == before[p + i]);
                        assert(!lex_le(before[p + i].0@, item.0@));
                        lemma_lex_le_reflexive(item.0@);
                    }
                    lemma_filter_none(back, f);
                    assert(back.filter(f) =~= Seq::<(String, String)>::empty());
                    assert(out@.filter(f) =~= front.filter(f).push(item));
                    assert(before.filter(f) =~= front.filter(f));
                } else {
                    assert(out@.filter(f) =~= before.filter(f));
                }
            }
        }
        k = k + 1;
    }
    proof {
        assert(taken@.take(taken@.len() as int) =~= taken@);
    }
    out
}

} // verus!

//! Character-level helpers shared by the parsers and formatters.

use vstd::prelude::*;

use crate::rewriting::{keep_only, lemma_keep_only_take_step};

verus! {

/// The characters of `s`, in order.
pub fn chars_of(s: &str) -> (v: Vec<char>)
    ensures
        v@ == s@,
{
    let mut v: Vec<char> = Vec::new();
    for c in it: s.chars()
        invariant
            v@ == it.seq().take(it.index() as int),
            it.seq() == s@,
    {
        v.push(c);
    }
    v
}

/// Builds a `String` holding exactly the characters of `chars`
/// (`String::from_iter` over a vector of characters).
#[verifier::external_body]
pub(crate) fn string_from_chars(chars: Vec<char>) -> (s: String)
    ensures
        s@ == chars@,
{
    String::from_iter(chars)
}

/// Whether `c` occurs in `v`.
pub fn contains_char(v: &Vec<char>, c: char) -> (r: bool)
    ensures
        r == v@.contains(c),
{
    let mut i: usize = 0;
    while i < v.len()
        invariant
            0 <= i <= v@.len(),
            forall|a: int| 0 <= a < i ==> v@[a] != c,
        decreases v@.len() - i,
    {
        if v[i] == c {
            proof {
                assert(v@[i as int] == c);
            }
            return true;
        }
        i = i + 1;
    }
    false
}

/// `c` has the Unicode `White_Space` property, the property `char::is_whitespace` tests:
/// U+0009..=U+000D, U+0020, U+0085, U+00A0, U+1680, U+2000..=U+200A, U+2028,
/// U+2029, U+202F, U+205F and U+3000.
pub open spec fn is_white_space(c: char) -> bool {
    let u = c as u32;
    (0x9 <= u && u <= 0xD) || u == 0x20 || u == 0x85 || u == 0xA0 || u == 0x1680 || (0x2000 <= u
        && u <= 0x200A) || u == 0x2028 || u == 0x2029 || u == 0x202F || u == 0x205F || u == 0x3000
}

/// The predicate "not white space", as a value.
pub open spec fn not_white_space() -> spec_fn(char) -> bool {
    |c: char| !is_white_space(c)
}

/// `s` with every white-space character removed.
pub open spec fn without_white_space(s: Seq<char>) -> Seq<char> {
    keep_only(s, not_white_space())
}

/// Whether `c` is white space.
pub fn char_is_white_space(c: char) -> (r: bool)
    ensures
        r == is_white_space(c),
{
    let u = c as u32;
    (0x9 <= u && u <= 0xD) || u == 0x20 || u == 0x85 || u == 0xA0 || u == 0x1680 || (0x2000 <= u
        && u <= 0x200A) || u == 0x2028 || u == 0x2029 || u == 0x202F || u == 0x205F || u == 0x3000
}

/// `s` with every white-space character removed.
pub fn strip_white_space(s: &str) -> (r: String)
    ensures
        r@ == without_white_space(s@),
{
    let v = chars_of(s);
    let mut out: Vec<char> = Vec::new();
    let mut i: usize = 0;
    while i < v.len()
        invariant
            0 <= i <= v@.len(),
            v@ == s@,
            out@ == keep_only(v@.take(i as int), not_white_space()),
        decreases v@.len() - i,
    {
        let c = v[i];
        proof {
            lemma_keep_only_take_step(v@, i as int, not_white_space());
        }
        if !char_is_white_space(c) {
            out.push(c);
        }
        i = i + 1;
        proof {
            assert(out@ =~= keep_only(v@.take(i as int), not_white_space()));
        }
    }
    proof {
        assert(v@.take(v@.len() as int) =~= s@);
    }
    string_from_chars(out)
}

/// Whether `a` and `b` hold the same characters.
pub fn str_equals(a: &str, b: &str) -> (r: bool)
    ensures
        r == (a@ == b@),
{
    let x = chars_of(a);
    let y = chars_of(b);
    if x.len() != y.len() {
        return false;
    }
    let mut i: usize = 0;
    while i < x.len()
        invariant
            0 <= i <= x@.len(),
            x@.len() == y@.len(),
            x@ == a@,
            y@ == b@,
            forall|j: int| 0 <= j < i ==> x@[j] == y@[j],
        decreases x@.len() - i,
    {
        if x[i] != y[i] {
            return false;
        }
        i = i + 1;
    }
    proof {
        assert(x@ =~= y@);
    }
    true
}

/// `s` without leading white space.
pub open spec fn trim_start_spec(s: Seq<char>) -> Seq<char>
    decreases s.len(),
{
    if s.len() > 0 && is_white_space(s[0]) {
        trim_start_spec(s.drop_first())
    } else {
        s
    }
}

/// `s` without trailing white space.
pub open spec fn trim_end_spec(s: Seq<char>) -> Seq<char>
    decreases s.len(),
{
    if s.len() > 0 && is_white_space(s.last()) {
        trim_end_spec(s.drop_last())
    } else {
        s
    }
}

/// `s` without leading and trailing white space (what `str::trim` keeps).
pub open spec fn trim_spec(s: Seq<char>) -> Seq<char> {
    trim_end_spec(trim_start_spec(s))
}

/// The characters of `s` without leading and trailing white space.
pub fn trimmed_chars(s: &str) -> (r: Vec<char>)
    ensures
        r@ == trim_spec(s@),
{
    let v = chars_of(s);
    let mut a: usize = 0;
    proof {
        assert(v@.skip(0) =~= v@);
    }
    while a < v.len() && char_is_white_space(v[a])
        invariant
            0 <= a <= v@.len(),
            v@ == s@,
            trim_start_spec(s@) == trim_start_spec(v@.skip(a as int)),
        decreases v@.len() - a,
    {
        proof {
            assert(v@.skip(a as int).drop_first() =~= v@.skip(a + 1));
        }
        a = a + 1;
    }
    let mut b: usize = v.len();
    let ghost start = v@.skip(a as int);
    proof {
        assert(trim_start_spec(v@.skip(a as int)) == start);
        assert(start =~= v@.subrange(a as int, b as int));
    }
    while b > a && char_is_white_space(v[b - 1])
        invariant
            0 <= a <= b <= v@.len(),
            trim_end_spec(start) == trim_end_spec(v@.subrange(a as int, b as int)),
        decreases b - a,
    {
        proof {
            assert(v@.subrange(a as int, b as int).drop_last() =~= v@.subrange(a as int, b - 1));
        }
        b = b - 1;
    }
    let mut out: Vec<char> = Vec::new();
    let mut i: usize = a;
    while i < b
        invariant
            a <= i <= b <= v@.len(),
            out@ == v@.subrange(a as int, i as int),
        decreases b - i,
    {
        out.push(v[i]);
        i = i + 1;
        proof {
            assert(out@ =~= v@.subrange(a as int, i as int));
        }
    }
    out
}

/// Removing white space drops exactly the characters with the Unicode
/// `White_Space` property (U+0009..=U+000D, U+0020, U+0085, U+00A0,
/// U+1680, U+2000..=U+200A, U+2028, U+2029, U+202F, U+205F, U+3000): none
/// is left in the result, and a string without any comes back unchanged.
pub proof fn lemma_white_space_removed(s: Seq<char>)
    ensures
        forall|i: int|
            0 <= i < without_white_space(s).len() ==> {
                let c = #[trigger] without_white_space(s)[i];
                !(('\u{9}' <= c && c <= '\u{d}') || c == ' ' || c == '\u{85}' || c == '\u{a0}' || c
                    == '\u{1680}' || ('\u{2000}' <= c && c <= '\u{200a}') || c == '\u{2028}' || c
                    == '\u{2029}' || c == '\u{202f}' || c == '\u{205f}' || c == '\u{3000}')
            },
        (forall|i: int|
            0 <= i < s.len() ==> {
                let c = #[trigger] s[i];
                !(('\u{9}' <= c && c <= '\u{d}') || c == ' ' || c == '\u{85}' || c == '\u{a0}' || c
                    == '\u{1680}' || ('\u{2000}' <= c && c <= '\u{200a}') || c == '\u{2028}' || c
                    == '\u{2029}' || c == '\u{202f}' || c == '\u{205f}' || c == '\u{3000}')
            }) ==> without_white_space(s) == s,
{
    crate::rewriting::lemma_keep_only_kept(s, not_white_space());
    if forall|i: int|
        0 <= i < s.len() ==> {
            let c = #[trigger] s[i];
            !(('\u{9}' <= c && c <= '\u{d}') || c == ' ' || c == '\u{85}' || c == '\u{a0}' || c
                == '\u{1680}' || ('\u{2000}' <= c && c <= '\u{200a}') || c == '\u{2028}' || c
                == '\u{2029}' || c == '\u{202f}' || c == '\u{205f}' || c == '\u{3000}')
        } {
        assert forall|i: int| 0 <= i < s.len() implies #[trigger] (not_white_space())(s[i]) by {
            let c = s[i];
            let u = c as u32;
            vstd::utf8::char_u32_cast(c, u);
        }
        assert(crate::rewriting::all_kept(s, not_white_space()));
        crate::rewriting::lemma_keep_only_all_kept(s, not_white_space());
    }
}

} // verus!

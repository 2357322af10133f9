//! The symbol alphabet of a grammar and the checks on authored grammar text.
//!
//! ASCII letters are rewrite symbols in any dimension; `F f + - | [ ]` are
//! turtle symbols in 2D and 3D; `& ^ / \` are turtle symbols only in 3D.

use vstd::prelude::*;

use crate::config::{ConfigError, Dimensions};
use crate::text::chars_of;

verus! {

/// `c` is an ASCII letter.
pub open spec fn is_ascii_letter(c: char) -> bool {
    ('a' <= c && c <= 'z') || ('A' <= c && c <= 'Z')
}

/// Turtle symbols accepted in 2D and 3D: `F f + - | [ ]`.
pub open spec fn is_universal_terminal(c: char) -> bool {
    c == 'F' || c == 'f' || c == '+' || c == '-' || c == '|' || c == '[' || c == ']'
}

/// Turtle symbols accepted only in 3D: `& ^ / \`.
pub open spec fn is_3d_terminal(c: char) -> bool {
    c == '&' || c == '^' || c == '/' || c == '\\'
}

/// `c` may appear in a grammar of the given dimensions.
pub open spec fn symbol_allowed(c: char, dimensions: Dimensions) -> bool {
    is_ascii_letter(c) || is_universal_terminal(c) || (dimensions == Dimensions::ThreeD
        && is_3d_terminal(c))
}

/// Every symbol of `s` is allowed.
pub open spec fn symbols_ok(s: Seq<char>, dimensions: Dimensions) -> bool {
    forall|i: int| 0 <= i < s.len() ==> symbol_allowed(#[trigger] s[i], dimensions)
}

/// `e` reports the first symbol of `s` that is not allowed.
pub open spec fn symbol_error(e: ConfigError, s: Seq<char>, field: Seq<char>, dimensions: Dimensions) -> bool {
    &&& e matches ConfigError::InvalidSymbol { ch, field: f, position }
    &&& e->InvalidSymbol_field@ == field
    &&& e->InvalidSymbol_position < s.len()
    &&& e->InvalidSymbol_ch == s[e->InvalidSymbol_position as int]
    &&& !symbol_allowed(s[e->InvalidSymbol_position as int], dimensions)
    &&& forall|j: int| 0 <= j < e->InvalidSymbol_position ==> symbol_allowed(#[trigger] s[j], dimensions)
}

/// Change of nesting depth caused by one symbol.
pub open spec fn depth_change(c: char) -> int {
    if c == '[' {
        1
    } else if c == ']' {
        -1
    } else {
        0
    }
}

/// Number of `[` minus number of `]` in `s`.
pub open spec fn bracket_depth(s: Seq<char>) -> int
    decreases s.len(),
{
    if s.len() == 0 {
        0
    } else {
        bracket_depth(s.drop_last()) + depth_change(s.last())
    }
}

/// No prefix of `s` closes more brackets than it opens.
pub open spec fn never_negative(s: Seq<char>) -> bool {
    forall|p: int| 0 <= p <= s.len() ==> bracket_depth(#[trigger] s.take(p)) >= 0
}

/// Every `[` of `s` is closed by a later `]` and every `]` closes an earlier `[`.
pub open spec fn brackets_ok(s: Seq<char>) -> bool {
    never_negative(s) && bracket_depth(s) == 0
}

/// `e` reports the first bracket problem of `s`: the first `]` that closes
/// nothing, or else the outermost `[` that is never closed.
pub open spec fn bracket_error(e: ConfigError, s: Seq<char>, field: Seq<char>) -> bool {
    if !never_negative(s) {
        &&& e matches ConfigError::UnmatchedClose { field: f, position }
        &&& e->UnmatchedClose_field@ == field
        &&& e->UnmatchedClose_position < s.len()
        &&& bracket_depth(s.take(e->UnmatchedClose_position + 1)) < 0
        &&& forall|p: int|
            0 <= p <= e->UnmatchedClose_position ==> bracket_depth(#[trigger] s.take(p)) >= 0
    } else {
        &&& e matches ConfigError::UnmatchedOpen { field: f, position }
        &&& e->UnmatchedOpen_field@ == field
        &&& e->UnmatchedOpen_position < s.len()
        &&& s[e->UnmatchedOpen_position as int] == '['
        &&& bracket_depth(s.take(e->UnmatchedOpen_position as int)) == 0
        &&& forall|p: int|
            e->UnmatchedOpen_position < p <= s.len() ==> bracket_depth(#[trigger] s.take(p)) > 0
    }
}

/// Whether `c` may appear in a grammar of the given dimensions.
pub fn is_symbol_allowed(c: char, dimensions: Dimensions) -> (r: bool)
    ensures
        r == symbol_allowed(c, dimensions),
{
    if ('a' <= c && c <= 'z') || ('A' <= c && c <= 'Z') {
        return true;
    }
    if c == 'F' || c == 'f' || c == '+' || c == '-' || c == '|' || c == '[' || c == ']' {
        return true;
    }
    match dimensions {
        Dimensions::ThreeD => c == '&' || c == '^' || c == '/' || c == '\\',
        Dimensions::TwoD => false,
    }
}

/// Checks that every symbol of `chars` belongs to the alphabet of
/// `dimensions`; the error names `field` and the position of the first
/// offending symbol.
pub fn validate_symbols(chars: &str, field: &str, dimensions: Dimensions) -> (res: Result<(), ConfigError>)
    ensures
        res is Ok <==> symbols_ok(chars@, dimensions),
        res matches Err(e) ==> symbol_error(e, chars@, field@, dimensions),
{
    let v = chars_of(chars);
    let mut i: usize = 0;
    while i < v.len()
        invariant
            0 <= i <= v@.len(),
            v@ == chars@,
            forall|j: int| 0 <= j < i ==> symbol_allowed(#[trigger] v@[j], dimensions),
        decreases v@.len() - i,
    {
        let ch = v[i];
        if !is_symbol_allowed(ch, dimensions) {
            return Err(ConfigError::InvalidSymbol { ch, field: field.to_owned(), position: i });
        }
        i = i + 1;
    }
    Ok(())
}

proof fn lemma_depth_step(s: Seq<char>, i: int)
    requires
        0 <= i < s.len(),
    ensures
        bracket_depth(s.take(i + 1)) == bracket_depth(s.take(i)) + depth_change(s[i]),
{
    assert(s.take(i + 1).drop_last() =~= s.take(i));
}

/// Checks that the brackets of `chars` are balanced. The error names `field`
/// and the position of the first `]` that closes nothing, or else of the
/// outermost `[` that is never closed.
pub fn validate_bracket_balance(chars: &str, field: &str) -> (res: Result<(), ConfigError>)
    ensures
        res is Ok <==> brackets_ok(chars@),
        res matches Err(e) ==> bracket_error(e, chars@, field@),
{
    let v = chars_of(chars);
    let ghost s = chars@;
    let mut depth: usize = 0;
    let mut first_open: usize = 0;
    let mut i: usize = 0;
    proof {
        assert(s.take(0) =~= Seq::<char>::empty());
    }
    while i < v.len()
        invariant
            0 <= i <= v@.len(),
            v@ == s,
            s == chars@,
            depth as int == bracket_depth(s.take(i as int)),
            depth <= i,
            forall|p: int| 0 <= p <= i ==> bracket_depth(#[trigger] s.take(p)) >= 0,
            depth > 0 ==> first_open < i && s[first_open as int] == '[' && bracket_depth(
                s.take(first_open as int),
            ) == 0,
            depth > 0 ==> forall|p: int| first_open < p <= i ==> bracket_depth(#[trigger] s.take(p)) > 0,
        decreases v@.len() - i,
    {
        let ch = v[i];
        proof {
            lemma_depth_step(s, i as int);
        }
        if ch == '[' {
            if depth == 0 {
                first_open = i;
            }
            depth = depth + 1;
        } else if ch == ']' {
            if depth == 0 {
                proof {
                    assert(bracket_depth(s.take(i + 1)) < 0);
                }
                return Err(ConfigError::UnmatchedClose { field: field.to_owned(), position: i });
            }
            depth = depth - 1;
        }
        i = i + 1;
    }
    proof {
        assert(s.take(s.len() as int) =~= s);
    }
    if depth > 0 {
        return Err(ConfigError::UnmatchedOpen { field: field.to_owned(), position: first_open });
    }
    Ok(())
}

/// Whether `s` uses any 3D-only turtle symbol.
pub fn contains_3d_symbols(s: &str) -> (r: bool)
    ensures
        r == exists|i: int| 0 <= i < s@.len() && is_3d_terminal(#[trigger] s@[i]),
{
    let v = chars_of(s);
    let mut i: usize = 0;
    while i < v.len()
        invariant
            0 <= i <= v@.len(),
            v@ == s@,
            forall|j: int| 0 <= j < i ==> !is_3d_terminal(#[trigger] v@[j]),
        decreases v@.len() - i,
    {
        let c = v[i];
        if c == '&' || c == '^' || c == '/' || c == '\\' {
            proof {
                assert(is_3d_terminal(s@[i as int]));
            }
            return true;
        }
        i = i + 1;
    }
    false
}

/// The alphabet of a grammar: every ASCII letter `a`..=`z` and `A`..=`Z`
/// is a rewrite symbol in both dimensions, the turtle symbols
/// `F f + - | [ ]` are allowed in both, `& ^ / \` only in 3D, and nothing
/// else is allowed.
pub proof fn lemma_grammar_alphabet(c: char, dimensions: Dimensions)
    ensures
        ('a' <= c && c <= 'z') || ('A' <= c && c <= 'Z') ==> symbol_allowed(c, dimensions),
        c == 'F' || c == 'f' || c == '+' || c == '-' || c == '|' || c == '[' || c == ']'
            ==> symbol_allowed(c, dimensions),
        c == '&' || c == '^' || c == '/' || c == '\\' ==> (symbol_allowed(c, dimensions) <==> dimensions
            == Dimensions::ThreeD),
        symbol_allowed(c, dimensions) ==> ('a' <= c && c <= 'z') || ('A' <= c && c <= 'Z') || c == '+'
            || c == '-' || c == '|' || c == '[' || c == ']' || c == '&' || c == '^' || c == '/' || c
            == '\\',
{
}

/// The depth of a concatenation is the sum of the depths.
proof fn lemma_depth_concat(a: Seq<char>, b: Seq<char>)
    ensures
        bracket_depth(a + b) == bracket_depth(a) + bracket_depth(b),
    decreases b.len(),
{
    if b.len() == 0 {
        assert(a + b =~= a);
    } else {
        lemma_depth_concat(a, b.drop_last());
        assert((a + b).drop_last() =~= a + b.drop_last());
        assert((a + b).last() == b.last());
    }
}

/// A string without `[` or `]` has depth zero.
proof fn lemma_depth_without_brackets(s: Seq<char>)
    requires
        forall|i: int| 0 <= i < s.len() ==> #[trigger] s[i] != '[' && s[i] != ']',
    ensures
        bracket_depth(s) == 0,
    decreases s.len(),
{
    if s.len() > 0 {
        let f = s.drop_last();
        assert forall|i: int| 0 <= i < f.len() implies #[trigger] f[i] != '[' && f[i] != ']' by {
            assert(f[i] == s[i]);
        }
        lemma_depth_without_brackets(f);
        assert(s.last() == s[s.len() - 1]);
    }
}

/// Bracket balance: a string with neither `[` nor `]` is balanced; wrapping
/// a balanced string in `[` ... `]` keeps it balanced; a string that starts
/// with `]` never is, and neither is a balanced string followed by `[`.
pub proof fn lemma_bracket_balance(s: Seq<char>)
    ensures
        (forall|i: int| 0 <= i < s.len() ==> #[trigger] s[i] != '[' && s[i] != ']') ==> brackets_ok(s),
        brackets_ok(s) ==> brackets_ok(seq!['['] + s + seq![']']),
        !brackets_ok(seq![']'] + s),
        brackets_ok(s) ==> !brackets_ok(s + seq!['[']),
{
    if forall|i: int| 0 <= i < s.len() ==> #[trigger] s[i] != '[' && s[i] != ']' {
        assert forall|p: int| 0 <= p <= s.len() implies bracket_depth(#[trigger] s.take(p)) >= 0 by {
            let t = s.take(p);
            assert forall|i: int| 0 <= i < t.len() implies #[trigger] t[i] != '[' && t[i] != ']' by {
                assert(t[i] == s[i]);
            }
            lemma_depth_without_brackets(t);
        }
        lemma_depth_without_brackets(s);
    }
    let open = seq!['['];
    let close = seq![']'];
    assert(bracket_depth(open) == 1) by {
        assert(open.drop_last() =~= Seq::<char>::empty());
        assert(open.last() == open[0]);
        assert(bracket_depth(Seq::<char>::empty()) == 0);
    }
    assert(bracket_depth(close) == -1) by {
        assert(close.drop_last() =~= Seq::<char>::empty());
        assert(close.last() == close[0]);
        assert(bracket_depth(Seq::<char>::empty()) == 0);
    }
    if brackets_ok(s) {
        let w = open + s + close;
        assert forall|p: int| 0 <= p <= w.len() implies bracket_depth(#[trigger] w.take(p)) >= 0 by {
            if p == 0 {
                assert(w.take(0) =~= Seq::<char>::empty());
            } else if p <= s.len() + 1 {
                assert(w.take(p) =~= open + s.take(p - 1));
                lemma_depth_concat(open, s.take(p - 1));
                assert(bracket_depth(s.take(p - 1)) >= 0);
            } else {
                assert(w.take(p) =~= w);
                lemma_depth_concat(open + s, close);
                lemma_depth_concat(open, s);
            }
        }
        lemma_depth_concat(open + s, close);
        lemma_depth_concat(open, s);
        lemma_depth_concat(s, open);
    }
    let c = close + s;
    assert(c.take(1) =~= close);
    assert(bracket_depth(c.take(1)) < 0);
}

} // verus!

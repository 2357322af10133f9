//! File-name helpers.

use vstd::prelude::*;

use crate::text::{chars_of, string_from_chars};

verus! {

/// `c` is an ASCII letter or digit.
pub open spec fn is_ascii_alphanumeric(c: char) -> bool {
    ('a' <= c && c <= 'z') || ('A' <= c && c <= 'Z') || ('0' <= c && c <= '9')
}

/// The file-name character for `c`: ASCII letters and digits lowercased,
/// everything else `_`.
pub open spec fn filename_char(c: char) -> char {
    if 'A' <= c && c <= 'Z' {
        (((c as u32) + 32) as u8) as char
    } else if is_ascii_alphanumeric(c) {
        c
    } else {
        '_'
    }
}

/// `name` with every character replaced by its file-name character.
pub open spec fn sanitized(name: Seq<char>) -> Seq<char> {
    name.map_values(|c: char| filename_char(c))
}

fn to_filename_char(c: char) -> (r: char)
    ensures
        r == filename_char(c),
{
    if 'A' <= c && c <= 'Z' {
        (((c as u32) + 32) as u8) as char
    } else if ('a' <= c && c <= 'z') || ('0' <= c && c <= '9') {
        c
    } else {
        '_'
    }
}

/// A safe ASCII file name for `name` with the given extension: ASCII letters
/// and digits are lowercased, every other character becomes `_`, and `.` and
/// `extension` follow.
pub fn sanitize_filename(name: &str, extension: &str) -> (r: String)
    ensures
        r@ == sanitized(name@) + seq!['.'] + extension@,
{
    let v = chars_of(name);
    let mut out: Vec<char> = Vec::new();
    let mut i: usize = 0;
    while i < v.len()
        invariant
            0 <= i <= v@.len(),
            v@ == name@,
            out@ == sanitized(v@.take(i as int)),
        decreases v@.len() - i,
    {
        out.push(to_filename_char(v[i]));
        i = i + 1;
        proof {
            assert(out@ =~= sanitized(v@.take(i as int)));
        }
    }
    out.push('.');
    let ext = chars_of(extension);
    let mut j: usize = 0;
    let ghost base = out@;
    while j < ext.len()
        invariant
            0 <= j <= ext@.len(),
            ext@ == extension@,
            out@ == base + ext@.take(j as int),
        decreases ext@.len() - j,
    {
        out.push(ext[j]);
        j = j + 1;
        proof {
            assert(out@ =~= base + ext@.take(j as int));
        }
    }
    proof {
        assert(v@.take(v@.len() as int) =~= name@);
        assert(ext@.take(ext@.len() as int) =~= extension@);
        assert(out@ =~= sanitized(name@) + seq!['.'] + extension@);
    }
    string_from_chars(out)
}

/// How a file name is made from a name: `a`..=`z` and `0`..=`9` are kept,
/// `A`..=`Z` become the same letter in lower case, and every other
/// character becomes `_`; the extension follows a `.`.
pub proof fn lemma_filename_chars(name: Seq<char>)
    ensures
        sanitized(name).len() == name.len(),
        forall|i: int|
            0 <= i < name.len() ==> {
                let c = name[i];
                let r = #[trigger] sanitized(name)[i];
                &&& ('a' <= c && c <= 'z') || ('0' <= c && c <= '9') ==> r == c
                &&& 'A' <= c && c <= 'Z' ==> 'a' <= r && r <= 'z' && (r as u32) == (c as u32) + 32
                &&& !(('a' <= c && c <= 'z') || ('0' <= c && c <= '9') || ('A' <= c && c <= 'Z'))
                    ==> r == '_'
            },
{
    assert forall|i: int| 0 <= i < name.len() implies {
        let c = name[i];
        let r = #[trigger] sanitized(name)[i];
        &&& ('a' <= c && c <= 'z') || ('0' <= c && c <= '9') ==> r == c
        &&& 'A' <= c && c <= 'Z' ==> 'a' <= r && r <= 'z' && (r as u32) == (c as u32) + 32
        &&& !(('a' <= c && c <= 'z') || ('0' <= c && c <= '9') || ('A' <= c && c <= 'Z')) ==> r == '_'
    } by {
        let c = name[i];
        if 'A' <= c && c <= 'Z' {
            let u = (c as u32) + 32;
            assert(97 <= u <= 122);
            assert((u as u8) as u32 == u);
        }
    }
}

} // verus!

//! Escaping of identity and reference tokens before they are emitted
//! into the graph description: embedded double quotes become
//! apostrophes and path separators become underscores, so every token
//! stays well-formed inside a quoted label and filesystem-safe.

use vstd::prelude::*;
use vstd::string::StrSliceExecFns;

verus! {

/// One token character after escaping: a double quote becomes an
/// apostrophe, a path separator becomes an underscore, and every other
/// character is kept.
pub open spec fn escape_char(c: char) -> char {
    if c == '"' {
        '\''
    } else if c == '/' {
        '_'
    } else {
        c
    }
}

/// The escaped form of a whole token.
pub open spec fn escape_seq(s: Seq<char>) -> Seq<char> {
    s.map_values(|c: char| escape_char(c))
}

/// Relies on String::push: appends exactly one character.
#[verifier::external_body]
fn push_char(s: &mut String, c: char)
    ensures
        final(s)@ == old(s)@.push(c),
{
    s.push(c)
}

/// Escape one token for emission into the graph description.
pub fn escape(s: &str) -> (r: String)
    ensures
        r@ == escape_seq(s@),
{
    let n: usize = s.unicode_len();
    let mut out = String::new();
    let mut i: usize = 0;
    while i < n
        invariant
            i <= n,
            n == s@.len(),
            out@ == escape_seq(s@.take(i as int)),
        decreases n - i,
    {
        let c = s.get_char(i);
        let e: char = if c == '"' {
            '\''
        } else if c == '/' {
            '_'
        } else {
            c
        };
        push_char(&mut out, e);
        proof {
            assert(escape_seq(s@.take(i + 1)) =~= escape_seq(s@.take(i as int)).push(
                escape_char(s@[i as int]),
            ));
        }
        i = i + 1;
    }
    proof {
        assert(s@.take(n as int) =~= s@);
    }
    out
}

/// Exact textual equality of two string slices.
pub fn str_eq(a: &str, b: &str) -> (r: bool)
    ensures
        r == (a@ == b@),
{
    let x = a.to_owned();
    let y = b.to_owned();
    x == y
}

/// An escaped token contains no double quote and no path separator,
/// so an emitted edge line stays well-formed and re-parsing it between
/// the delimiting quotes recovers the escaped token exactly.
pub proof fn lemma_escape_no_specials(s: Seq<char>)
    ensures
        forall|i: int|
            0 <= i < escape_seq(s).len() ==> escape_seq(s)[i] != '"' && escape_seq(s)[i] != '/',
{
}

/// Escaping is idempotent: escaping an already escaped token changes
/// nothing, because an escaped token contains no double quote and no
/// path separator.
pub proof fn lemma_escape_idempotent(s: Seq<char>)
    ensures
        escape_seq(escape_seq(s)) == escape_seq(s),
{
    assert(escape_seq(escape_seq(s)) =~= escape_seq(s));
}

} // verus!

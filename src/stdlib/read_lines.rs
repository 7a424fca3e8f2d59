//! The `read_lines` function: the split of a file's contents into lines.
use vstd::prelude::*;
use vstd::string::StrSliceExecFns;

use crate::stdlib::Function;
use crate::stdlib::Implementation;
use crate::stdlib::Signature;
use crate::text::find_line_end;
use crate::text::next_newline;

verus! {

/// The line `s[p..e]`, without a carriage return that precedes its
/// terminating newline.
pub open spec fn line_text(s: Seq<char>, p: int, e: int) -> Seq<char> {
    if e < s.len() && e > p && s[e - 1] == '\r' {
        s.subrange(p, e - 1)
    } else {
        s.subrange(p, e)
    }
}

/// The lines of `s` from offset `p` on. A newline ends a line; text after
/// the last newline is a last line of its own.
pub open spec fn lines_from(s: Seq<char>, p: int) -> Seq<Seq<char>>
    decreases s.len() + 1 - p,
{
    if p >= s.len() || p < 0 {
        seq![]
    } else {
        let e = next_newline(s, p);
        if e < p || e > s.len() {
            seq![]
        } else {
            seq![line_text(s, p, e)] + lines_from(s, e + 1)
        }
    }
}

/// Splits the contents of a file into its lines, in order; each loses its
/// terminating `\n` or `\r\n`. Empty contents have no lines.
pub fn split_lines(content: &str) -> (r: Vec<String>)
    ensures
        r@.map_values(|l: String| l@) == lines_from(content@, 0),
{
    let n = content.unicode_len();
    let mut out: Vec<String> = Vec::new();
    let mut p: usize = 0;
    while p < n
        invariant
            p <= n,
            n == content@.len(),
            lines_from(content@, 0) == out@.map_values(|l: String| l@) + lines_from(content@, p as int),
        decreases n - p,
    {
        let e = find_line_end(content, p);
        let line_end = if e < n && e > p && content.get_char(e - 1) == '\r' {
            e - 1
        } else {
            e
        };
        let line = content.substring_char(p, line_end);
        let ghost before = out@.map_values(|l: String| l@);
        out.push(line.to_owned());
        assert(out@.map_values(|l: String| l@) =~= before.push(line_text(content@, p as int, e as int)));
        assert(lines_from(content@, 0) =~= out@.map_values(|l: String| l@) + lines_from(content@, e + 1));
        p = if e < n {
            e + 1
        } else {
            n
        };
    }
    assert(lines_from(content@, p as int) =~= Seq::<Seq<char>>::empty());
    assert(out@.map_values(|l: String| l@) + Seq::<Seq<char>>::empty() =~= out@.map_values(|l: String| l@));
    out
}

/// Gets the function describing `read_lines`.
pub fn descriptor() -> (r: Function)
    ensures
        r.signatures@.len() == 1,
        r.signatures@[0].text@ == "(File) -> Array[String]"@,
        r.signatures@[0].implementation == Implementation::ReadLines,
{
    Function::single(Signature::new("(File) -> Array[String]", Implementation::ReadLines))
}

} // verus!

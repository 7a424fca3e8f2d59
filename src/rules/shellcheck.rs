//! A lint rule that runs ShellCheck over command sections.
//!
//! The rule sanitizes a command section into plain shell text, hands it to
//! the checker, and maps each reported finding back onto the document.
//! Sanitizing replaces every placeholder by a quoted expansion of a fresh,
//! random variable; findings that only complain about those variables are
//! dropped.
use rand::distributions::Alphanumeric;
use rand::distributions::DistString;
use vstd::prelude::*;
use vstd::string::StrSliceExecFns;
use vstd::string::StringExecFns;

use crate::diagnostics::kinds_of;
use crate::diagnostics::labels_of;
use crate::diagnostics::rule_of;
use crate::diagnostics::fix_of;
use crate::diagnostics::suppressed;
use crate::diagnostics::Diagnostic;
use crate::diagnostics::Diagnostics;
use crate::diagnostics::NodeInfo;
use crate::diagnostics::Severity;
use crate::diagnostics::Span;
use crate::diagnostics::SyntaxKind;
use crate::diagnostics::Tag;
use crate::diagnostics::TagSet;
use crate::rules::VisitReason;
use crate::text::all_whitespace;
use crate::text::count_leading_whitespace;
use crate::text::decimal;
use crate::text::find_line_end;
use crate::text::is_ascii_alphanumeric;
use crate::text::is_blank;
use crate::text::is_whitespace;
use crate::text::leading_whitespace;
use crate::text::next_newline;
use crate::text::push_decimal;

verus! {

/// The ShellCheck code for "variable is referenced but not assigned".
pub const SHELLCHECK_REFERENCED_UNASSIGNED: usize = 2154;

/// The identifier of the rule.
pub open spec fn rule_id() -> Seq<char> {
    "CommandSectionShellCheck"@
}

fn id_string() -> (r: String)
    ensures
        r@ == rule_id(),
{
    "CommandSectionShellCheck".to_owned()
}

// ---------------------------------------------------------------------------
// Command sections
// ---------------------------------------------------------------------------

/// A part of a command section as written in the document.
#[derive(Clone, Debug)]
pub enum CommandPart {
    /// Literal text, and the document offset at which it starts.
    Text { text: String, start: usize },
    /// A placeholder.
    Placeholder,
}

/// A part of a command section after common indentation was removed.
#[derive(Clone, Debug)]
pub enum StrippedCommandPart {
    /// Literal text.
    Text(String),
    /// A placeholder, with the length of its source text (`~{...}`).
    Placeholder(usize),
}

/// A finding of ShellCheck, in the coordinates of the text it was given.
#[derive(Clone, Debug)]
pub struct ShellCheckDiagnostic {
    /// Line the finding starts on (1-based).
    pub line: usize,
    /// Line the finding ends on.
    pub end_line: usize,
    /// Column the finding starts on.
    pub column: usize,
    /// Column the finding ends on.
    pub end_column: usize,
    /// Severity of the finding.
    pub level: String,
    /// ShellCheck code.
    pub code: usize,
    /// Message of the finding.
    pub message: String,
}

// ---------------------------------------------------------------------------
// Leading whitespace
// ---------------------------------------------------------------------------

/// `s` without one leading newline, where it has one.
pub open spec fn strip_newline(s: Seq<char>) -> Seq<char> {
    if s.len() > 0 && s[0] == '\n' {
        s.drop_first()
    } else {
        s
    }
}

/// The leading whitespace of the first text part of a command section,
/// not counting a newline right at its start.
pub open spec fn command_whitespace(parts: Seq<CommandPart>) -> nat
    decreases parts.len(),
{
    if parts.len() == 0 {
        0
    } else {
        match parts[0] {
            CommandPart::Text { text, start } => leading_whitespace(strip_newline(text@)),
            CommandPart::Placeholder => command_whitespace(parts.drop_first()),
        }
    }
}

/// Returns the amount of leading whitespace characters in a command
/// section. Only the first text part is considered.
pub fn count_command_whitespace(parts: &Vec<CommandPart>) -> (r: usize)
    ensures
        r == command_whitespace(parts@),
{
    let mut i: usize = 0;
    assert(parts@.subrange(0, parts@.len() as int) =~= parts@);
    while i < parts.len()
        invariant
            i <= parts@.len(),
            command_whitespace(parts@) == command_whitespace(parts@.subrange(i as int, parts@.len() as int)),
        decreases parts@.len() - i,
    {
        let ghost rest = parts@.subrange(i as int, parts@.len() as int);
        assert(rest[0] == parts@[i as int]);
        match &parts[i] {
            CommandPart::Text { text, .. } => {
                let n = text.as_str().unicode_len();
                if n > 0 && text.as_str().get_char(0) == '\n' {
                    let stripped = text.as_str().substring_char(1, n);
                    assert(stripped@ =~= strip_newline(text@));
                    return count_leading_whitespace(stripped);
                } else {
                    return count_leading_whitespace(text.as_str());
                }
            },
            CommandPart::Placeholder => {
                assert(rest.drop_first() =~= parts@.subrange(i + 1, parts@.len() as int));
            },
        }
        i = i + 1;
    }
    0
}

// ---------------------------------------------------------------------------
// The line map
// ---------------------------------------------------------------------------

/// The state of the line map while it is built: the document offset of
/// each sanitized line so far, and whether the last part was a placeholder
/// (whose line continues the previous one).
pub struct LineMapState {
    pub starts: Seq<int>,
    pub on_same_line: bool,
}

/// Records the line `t[s..e]` of a text part that starts at document
/// offset `start`.
pub open spec fn line_step(st: LineMapState, t: Seq<char>, start: int, s: int, e: int, lw: int) -> LineMapState {
    if st.starts.len() == 0 && all_whitespace(t.subrange(s, e)) {
        st
    } else if st.on_same_line {
        LineMapState { starts: st.starts, on_same_line: false }
    } else {
        LineMapState { starts: st.starts.push(start + s + lw - 1), on_same_line: false }
    }
}

/// Records the lines of text part `t` from offset `p` on.
pub open spec fn text_lines(st: LineMapState, t: Seq<char>, start: int, lw: int, p: int) -> LineMapState
    decreases t.len() + 1 - p,
{
    if p >= t.len() || p < 0 {
        st
    } else {
        let e = next_newline(t, p);
        if e < p || e > t.len() {
            st
        } else {
            text_lines(line_step(st, t, start, p, e, lw), t, start, lw, e + 1)
        }
    }
}

/// Records the lines of `parts`, in order.
pub open spec fn parts_lines(st: LineMapState, parts: Seq<CommandPart>, lw: int) -> LineMapState
    decreases parts.len(),
{
    if parts.len() == 0 {
        st
    } else {
        let next = match parts[0] {
            CommandPart::Text { text, start } => text_lines(st, text@, start as int, lw, 0),
            CommandPart::Placeholder => LineMapState { starts: st.starts, on_same_line: true },
        };
        parts_lines(next, parts.drop_first(), lw)
    }
}

/// The document offset, less one, of the first column of each line of the
/// sanitized command, given the command's leading whitespace `lw`.
pub open spec fn line_map_of(parts: Seq<CommandPart>, lw: int) -> Seq<int> {
    parts_lines(LineMapState { starts: seq![], on_same_line: false }, parts, lw).starts
}

/// Whether every text part's offsets, shifted by `lw`, fit a `usize` and
/// the first column of each of its lines lies at offset one or more.
pub open spec fn line_map_fits(parts: Seq<CommandPart>, lw: int) -> bool {
    forall|i: int|
        0 <= i < parts.len() ==> match #[trigger] parts[i] {
            CommandPart::Text { text, start } => 1 <= start + lw && start + text@.len() + lw
                < usize::MAX,
            CommandPart::Placeholder => true,
        }
}

pub open spec fn ints(s: Seq<usize>) -> Seq<int> {
    s.map_values(|x: usize| x as int)
}

/// Maps each line of the sanitized command (the first at index 0) to the
/// document offset, less one, of its first column.
pub fn build_line_map(parts: &Vec<CommandPart>, leading_whitespace: usize) -> (r: Vec<usize>)
    requires
        line_map_fits(parts@, leading_whitespace as int),
    ensures
        ints(r@) == line_map_of(parts@, leading_whitespace as int),
{
    let ghost lw = leading_whitespace as int;
    let mut map: Vec<usize> = Vec::new();
    let mut on_same_line = false;
    let mut i: usize = 0;
    let ghost init = LineMapState { starts: seq![], on_same_line: false };
    assert(ints(map@) =~= seq![]);
    assert(parts@.subrange(0, parts@.len() as int) =~= parts@);
    while i < parts.len()
        invariant
            i <= parts@.len(),
            line_map_fits(parts@, lw),
            lw == leading_whitespace,
            parts_lines(init, parts@, lw) == parts_lines(
                LineMapState { starts: ints(map@), on_same_line },
                parts@.subrange(i as int, parts@.len() as int),
                lw,
            ),
        decreases parts@.len() - i,
    {
        let ghost rest = parts@.subrange(i as int, parts@.len() as int);
        assert(rest[0] == parts@[i as int]);
        assert(rest.drop_first() =~= parts@.subrange(i + 1, parts@.len() as int));
        match &parts[i] {
            CommandPart::Text { text, start } => {
                let t = text.as_str();
                let n = t.unicode_len();
                let ghost st0 = LineMapState { starts: ints(map@), on_same_line };
                let mut p: usize = 0;
                assert(1 <= *start + lw && *start + n + lw < usize::MAX);
                while p < n
                    invariant
                        p <= n + 1,
                        n == t@.len(),
                        t@ == text@,
                        1 <= *start + lw,
                        *start + n + lw < usize::MAX,
                        lw == leading_whitespace,
                        text_lines(st0, t@, *start as int, lw, 0) == text_lines(
                            LineMapState { starts: ints(map@), on_same_line },
                            t@,
                            *start as int,
                            lw,
                            p as int,
                        ),
                    decreases n + 1 - p,
                {
                    let e = find_line_end(t, p);
                    let ghost before = LineMapState { starts: ints(map@), on_same_line };
                    if map.len() == 0 && is_blank(t, p, e) {
                    } else if on_same_line {
                        on_same_line = false;
                    } else {
                        map.push(*start + p + leading_whitespace - 1);
                        assert(ints(map@) =~= before.starts.push(*start + p + lw - 1));
                    }
                    assert(LineMapState { starts: ints(map@), on_same_line } == line_step(
                        before,
                        t@,
                        *start as int,
                        p as int,
                        e as int,
                        lw,
                    ));
                    p = e + 1;
                }
            },
            CommandPart::Placeholder => {
                on_same_line = true;
            },
        }
        i = i + 1;
    }
    map
}

// ---------------------------------------------------------------------------
// Sanitizing
// ---------------------------------------------------------------------------

/// The number of placeholders among `parts`.
pub open spec fn placeholder_count(parts: Seq<StrippedCommandPart>) -> nat
    decreases parts.len(),
{
    if parts.len() == 0 {
        0
    } else {
        placeholder_count(parts.drop_first()) + match parts[0] {
            StrippedCommandPart::Text(_) => 0nat,
            StrippedCommandPart::Placeholder(_) => 1nat,
        }
    }
}

/// The shell text of `parts` where the placeholders, in order, become
/// quoted expansions of the variables `vars`.
pub open spec fn sanitized(parts: Seq<StrippedCommandPart>, vars: Seq<Seq<char>>) -> Seq<char>
    decreases parts.len(),
{
    if parts.len() == 0 {
        seq![]
    } else {
        match parts[0] {
            StrippedCommandPart::Text(t) => t@ + sanitized(parts.drop_first(), vars),
            StrippedCommandPart::Placeholder(_) => seq!['"', '$'] + vars[0] + seq!['"']
                + sanitized(parts.drop_first(), vars.drop_first()),
        }
    }
}

/// The placeholder lengths of `parts`, in order.
pub open spec fn placeholder_lens(parts: Seq<StrippedCommandPart>) -> Seq<int>
    decreases parts.len(),
{
    if parts.len() == 0 {
        seq![]
    } else {
        match parts[0] {
            StrippedCommandPart::Text(_) => placeholder_lens(parts.drop_first()),
            StrippedCommandPart::Placeholder(n) => seq![n as int] + placeholder_lens(
                parts.drop_first(),
            ),
        }
    }
}

/// Whether `vars` are fit to stand for the placeholders of `parts`: one
/// per placeholder, of ASCII letters and digits, each three characters
/// shorter than its placeholder's source text (which holds `~{}`).
pub open spec fn valid_vars(parts: Seq<StrippedCommandPart>, vars: Seq<Seq<char>>) -> bool {
    let lens = placeholder_lens(parts);
    &&& vars.len() == lens.len()
    &&& forall|k: int| 0 <= k < vars.len() ==> (#[trigger] vars[k]).len() == lens[k] - 3
    &&& forall|k: int, j: int|
        0 <= k < vars.len() && 0 <= j < vars[k].len() ==> is_ascii_alphanumeric(
            #[trigger] vars[k][j],
        )
}

/// Whether every placeholder's source text is long enough to hold `~{}`.
pub open spec fn placeholders_well_formed(parts: Seq<StrippedCommandPart>) -> bool {
    forall|i: int|
        0 <= i < parts.len() ==> match #[trigger] parts[i] {
            StrippedCommandPart::Placeholder(n) => n >= 3,
            StrippedCommandPart::Text(_) => true,
        }
}

pub open spec fn views(s: Seq<String>) -> Seq<Seq<char>> {
    s.map_values(|x: String| x@)
}

proof fn lemma_placeholder_lens_len(parts: Seq<StrippedCommandPart>)
    ensures
        placeholder_lens(parts).len() == placeholder_count(parts),
    decreases parts.len(),
{
    if parts.len() > 0 {
        lemma_placeholder_lens_len(parts.drop_first());
    }
}

/// Builds the sanitized command from `parts`, with `vars[k]` standing for
/// the `k`-th placeholder, and returns it with the variables used.
pub fn sanitize_with(parts: &Vec<StrippedCommandPart>, vars: &Vec<String>) -> (r: (
    String,
    Vec<String>,
))
    requires
        vars@.len() == placeholder_count(parts@),
    ensures
        r.0@ == sanitized(parts@, views(vars@)),
        views(r.1@) == views(vars@),
{
    let ghost all = parts@;
    let ghost vs = views(vars@);
    let mut out = String::new();
    let mut decls: Vec<String> = Vec::new();
    let mut i: usize = 0;
    let mut k: usize = 0;
    proof {
        reveal_strlit("\"$");
        reveal_strlit("\"");
    }
    assert(all.subrange(0, all.len() as int) =~= all);
    assert(vs.subrange(0, vs.len() as int) =~= vs);
    while i < parts.len()
        invariant
            i <= all.len(),
            all == parts@,
            vs == views(vars@),
            k + placeholder_count(all.subrange(i as int, all.len() as int)) == vs.len(),
            k <= vs.len(),
            views(decls@) == vs.subrange(0, k as int),
            sanitized(all, vs) == out@ + sanitized(
                all.subrange(i as int, all.len() as int),
                vs.subrange(k as int, vs.len() as int),
            ),
        decreases all.len() - i,
    {
        let ghost rest = all.subrange(i as int, all.len() as int);
        let ghost vrest = vs.subrange(k as int, vs.len() as int);
        assert(rest[0] == all[i as int]);
        assert(rest.drop_first() =~= all.subrange(i + 1, all.len() as int));
        match &parts[i] {
            StrippedCommandPart::Text(t) => {
                out.append(t.as_str());
                assert(sanitized(all, vs) =~= out@ + sanitized(
                    all.subrange(i + 1, all.len() as int),
                    vrest,
                ));
            },
            StrippedCommandPart::Placeholder(_) => {
                let ghost before = out@;
                assert(placeholder_count(rest) == placeholder_count(rest.drop_first()) + 1);
                assert(vs[k as int] == vars@[k as int]@);
                assert(vrest[0] == vs[k as int]);
                assert(vrest.drop_first() =~= vs.subrange(k + 1, vs.len() as int));
                proof {
                    reveal_strlit("\"$");
                    reveal_strlit("\"");
                }
                out.append("\"$");
                out.append(vars[k].as_str());
                out.append("\"");
                assert("\"$"@ =~= seq!['"', '$']);
                assert("\""@ =~= seq!['"']);
                let ghost old_decls = decls@;
                let v = vars[k].clone();
                assert(v@ == vs[k as int]);
                decls.push(v);
                assert(decls@ == old_decls.push(v));
                assert(views(decls@) =~= views(old_decls).push(v@));
                assert(k < vs.len());
                assert(vs.len() == vars@.len());
                assert(k < vars.len());
                assert(views(decls@) =~= vs.subrange(0, k + 1));
                assert(sanitized(all, vs) =~= out@ + sanitized(
                    all.subrange(i + 1, all.len() as int),
                    vs.subrange(k + 1, vs.len() as int),
                ));
                k = k + 1;
            },
        }
        i = i + 1;
    }
    assert(vs.subrange(0, k as int) =~= vs);
    assert(sanitized(all.subrange(i as int, all.len() as int), vs.subrange(k as int, vs.len() as int)) =~= seq![]);
    assert(out@ =~= sanitized(all, vs));
    (out, decls)
}

/// Relies on rand's `Alphanumeric` distribution: `sample_string` returns
/// `len` characters, each drawn from the ASCII letters and digits.
#[verifier::external_body]
fn random_identifier(len: usize) -> (r: String)
    ensures
        r@.len() == len,
        forall|j: int| 0 <= j < r@.len() ==> is_ascii_alphanumeric(#[trigger] r@[j]),
{
    Alphanumeric.sample_string(&mut rand::thread_rng(), len)
}

/// Sanitizes a command section whose parts are `parts` once common
/// indentation was removed (`None`: its indentation is mixed).
///
/// Each placeholder becomes a quoted expansion of a fresh random variable
/// three characters shorter than the placeholder. Returns the sanitized
/// text and the variables used.
pub fn sanitize_command(parts: Option<&Vec<StrippedCommandPart>>) -> (r: Option<
    (String, Vec<String>),
>)
    requires
        parts matches Some(p) ==> placeholders_well_formed(p@),
    ensures
        r is Some <==> parts is Some,
        r matches Some(res) ==> exists|vars: Seq<Seq<char>>|
            #![trigger sanitized(parts->Some_0@, vars)]
            valid_vars(parts->Some_0@, vars) && res.0@ == sanitized(parts->Some_0@, vars)
                && views(res.1@) == vars,
{
    match parts {
        None => None,
        Some(parts) => {
            let mut vars: Vec<String> = Vec::new();
            let mut i: usize = 0;
            let ghost all = parts@;
            proof {
                lemma_lens_prefix(all, 0);
            }
            while i < parts.len()
                invariant
                    i <= all.len(),
                    all == parts@,
                    placeholders_well_formed(all),
                    vars@.len() == placeholder_count(all.subrange(0, i as int)),
                    placeholder_lens(all.subrange(0, i as int)).len() == vars@.len(),
                    forall|k: int|
                        0 <= k < vars@.len() ==> (#[trigger] vars@[k])@.len() == placeholder_lens(
                            all.subrange(0, i as int),
                        )[k] - 3,
                    forall|k: int, j: int|
                        0 <= k < vars@.len() && 0 <= j < vars@[k]@.len()
                            ==> is_ascii_alphanumeric(#[trigger] vars@[k]@[j]),
                decreases all.len() - i,
            {
                proof {
                    lemma_lens_prefix(all, i as int);
                    lemma_count_prefix(all, i as int);
                }
                match &parts[i] {
                    StrippedCommandPart::Text(_) => {},
                    StrippedCommandPart::Placeholder(n) => {
                        assert(*n >= 3);
                        let v = random_identifier(*n - 3);
                        vars.push(v);
                    },
                }
                proof {
                    lemma_count_prefix(all, i + 1);
                }
                i = i + 1;
            }
            assert(all.subrange(0, i as int) =~= all);
            let ghost vs = views(vars@);
            proof {
                lemma_placeholder_lens_len(all);
                assert forall|k: int, j: int|
                    0 <= k < vs.len() && 0 <= j < vs[k].len() implies is_ascii_alphanumeric(
                    #[trigger] vs[k][j],
                ) by {
                    assert(vs[k] == vars@[k]@);
                }
                assert forall|k: int| 0 <= k < vs.len() implies (#[trigger] vs[k]).len()
                    == placeholder_lens(all)[k] - 3 by {
                    assert(vs[k] == vars@[k]@);
                }
            }
            let res = sanitize_with(parts, &vars);
            assert(valid_vars(all, vs));
            Some(res)
        },
    }
}

proof fn lemma_lens_prefix(all: Seq<StrippedCommandPart>, i: int)
    requires
        0 <= i < all.len() || (i == 0 && all.len() == 0),
    ensures
        i < all.len() ==> placeholder_lens(all.subrange(0, i + 1)) == placeholder_lens(
            all.subrange(0, i),
        ) + match all[i] {
            StrippedCommandPart::Text(_) => Seq::<int>::empty(),
            StrippedCommandPart::Placeholder(n) => seq![n as int],
        },
        all.len() == 0 ==> placeholder_lens(all.subrange(0, 0)) == Seq::<int>::empty(),
    decreases i,
{
    if all.len() > 0 {
        let s = all.subrange(0, i + 1);
        if i > 0 {
            lemma_lens_prefix(all.drop_first(), i - 1);
            assert(s.drop_first() =~= all.drop_first().subrange(0, i));
            assert(all.subrange(0, i).drop_first() =~= all.drop_first().subrange(0, i - 1));
            assert(all.drop_first()[i - 1] == all[i]);
        } else {
            assert(s.drop_first() =~= Seq::<StrippedCommandPart>::empty());
            assert(all.subrange(0, 0) =~= Seq::<StrippedCommandPart>::empty());
        }
        assert(placeholder_lens(s) =~= placeholder_lens(all.subrange(0, i)) + match all[i] {
            StrippedCommandPart::Text(_) => Seq::<int>::empty(),
            StrippedCommandPart::Placeholder(n) => seq![n as int],
        });
    } else {
        assert(placeholder_lens(all.subrange(0, 0)) =~= Seq::<int>::empty());
    }
}

proof fn lemma_count_prefix(all: Seq<StrippedCommandPart>, i: int)
    requires
        0 <= i <= all.len(),
    ensures
        placeholder_count(all.subrange(0, i)) == placeholder_lens(all.subrange(0, i)).len(),
{
    lemma_placeholder_lens_len(all.subrange(0, i));
}

// ---------------------------------------------------------------------------
// Findings
// ---------------------------------------------------------------------------

/// The number of non-whitespace characters at the start of `s`.
pub open spec fn word_len(s: Seq<char>) -> nat
    decreases s.len(),
{
    if s.len() > 0 && !is_whitespace(s[0]) {
        1 + word_len(s.drop_first())
    } else {
        0
    }
}

/// The first whitespace-separated word of `s`, or nothing.
pub open spec fn first_word(s: Seq<char>) -> Seq<char> {
    let rest = s.subrange(leading_whitespace(s) as int, s.len() as int);
    rest.subrange(0, word_len(rest) as int)
}

proof fn lemma_leading_whitespace_le(s: Seq<char>)
    ensures
        leading_whitespace(s) <= s.len(),
    decreases s.len(),
{
    if s.len() > 0 {
        lemma_leading_whitespace_le(s.drop_first());
    }
}

proof fn lemma_word_len_at(s: Seq<char>, i: int)
    requires
        0 <= i <= s.len(),
        forall|k: int| 0 <= k < i ==> !is_whitespace(#[trigger] s[k]),
    ensures
        word_len(s) == i + word_len(s.subrange(i, s.len() as int)),
    decreases i,
{
    if i > 0 {
        lemma_word_len_at(s.drop_first(), i - 1);
        assert(s.drop_first().subrange(i - 1, s.drop_first().len() as int) =~= s.subrange(
            i,
            s.len() as int,
        ));
    } else {
        assert(s.subrange(0, s.len() as int) =~= s);
    }
}

/// Returns the first whitespace-separated word of `s`.
pub fn first_word_of(s: &str) -> (r: String)
    ensures
        r@ == first_word(s@),
{
    let n = s.unicode_len();
    let i = count_leading_whitespace(s);
    proof {
        lemma_leading_whitespace_le(s@);
    }
    let ghost rest = s@.subrange(i as int, n as int);
    let mut j = i;
    while j < n && !crate::text::char_is_whitespace(s.get_char(j))
        invariant
            i <= j <= n,
            n == s@.len(),
            rest == s@.subrange(i as int, n as int),
            forall|k: int| 0 <= k < j - i ==> !is_whitespace(#[trigger] rest[k]),
        decreases n - j,
    {
        assert(rest[j - i] == s@[j as int]);
        j = j + 1;
    }
    proof {
        lemma_word_len_at(rest, j - i);
        let tail = rest.subrange(j - i, rest.len() as int);
        if tail.len() > 0 {
            assert(tail[0] == s@[j as int]);
        }
    }
    let w = s.substring_char(i, j);
    assert(w@ =~= first_word(s@));
    w.to_owned()
}

/// Whether one of `names` is `name`.
pub fn contains_name(names: &Vec<String>, name: &String) -> (r: bool)
    ensures
        r == views(names@).contains(name@),
{
    let mut i: usize = 0;
    while i < names.len()
        invariant
            i <= names@.len(),
            forall|k: int| 0 <= k < i ==> (#[trigger] names@[k])@ != name@,
        decreases names@.len() - i,
    {
        if names[i] == *name {
            assert(views(names@)[i as int] == name@);
            return true;
        }
        i = i + 1;
    }
    assert(!views(names@).contains(name@)) by {
        assert forall|k: int| 0 <= k < views(names@).len() implies views(names@)[k] != name@ by {
            assert(views(names@)[k] == names@[k]@);
        }
    }
    false
}

/// Whether finding `f` only complains that one of `decls` (the variables
/// that stand for placeholders) is referenced but not assigned.
pub open spec fn is_artifact(f: ShellCheckDiagnostic, decls: Seq<Seq<char>>) -> bool {
    f.code == SHELLCHECK_REFERENCED_UNASSIGNED && decls.contains(first_word(f.message@))
}

/// Whether finding `f` is an artifact of sanitizing.
pub fn is_sanitizing_artifact(f: &ShellCheckDiagnostic, decls: &Vec<String>) -> (r: bool)
    ensures
        r == is_artifact(*f, views(decls@)),
{
    if f.code != SHELLCHECK_REFERENCED_UNASSIGNED {
        return false;
    }
    let w = first_word_of(f.message.as_str());
    contains_name(decls, &w)
}

/// The findings that are not artifacts, in order.
pub open spec fn kept(fs: Seq<ShellCheckDiagnostic>, decls: Seq<Seq<char>>) -> Seq<
    ShellCheckDiagnostic,
>
    decreases fs.len(),
{
    if fs.len() == 0 {
        seq![]
    } else {
        let k = kept(fs.drop_last(), decls);
        if is_artifact(fs.last(), decls) {
            k
        } else {
            k.push(fs.last())
        }
    }
}

/// A finding is kept exactly when it is one of the findings and not an
/// artifact of sanitizing: one that says a placeholder's variable is
/// referenced but not assigned is dropped, and any other is kept, among
/// them those on names the task really declares.
pub proof fn law_artifacts_dropped(fs: Seq<ShellCheckDiagnostic>, decls: Seq<Seq<char>>)
    ensures
        forall|f: ShellCheckDiagnostic|
            #[trigger] kept(fs, decls).contains(f) <==> (fs.contains(f) && !is_artifact(f, decls)),
    decreases fs.len(),
{
    if fs.len() > 0 {
        law_artifacts_dropped(fs.drop_last(), decls);
        let k = kept(fs.drop_last(), decls);
        assert forall|f: ShellCheckDiagnostic|
            #[trigger] kept(fs, decls).contains(f) <==> (fs.contains(f) && !is_artifact(f, decls)) by {
            if fs.contains(f) {
                let j = choose|j: int| 0 <= j < fs.len() && fs[j] == f;
                if j < fs.len() - 1 {
                    assert(fs.drop_last()[j] == f);
                }
            }
            if fs.drop_last().contains(f) {
                let j = choose|j: int| 0 <= j < fs.drop_last().len() && fs.drop_last()[j] == f;
                assert(fs[j] == f);
            }
            if !is_artifact(fs.last(), decls) {
                assert(k.push(fs.last())[k.len() as int] == fs.last());
                if k.push(fs.last()).contains(f) {
                    let j = choose|j: int| 0 <= j < k.len() + 1 && k.push(fs.last())[j] == f;
                    if j < k.len() {
                        assert(k[j] == f);
                    }
                }
                if k.contains(f) {
                    let j = choose|j: int| 0 <= j < k.len() && k[j] == f;
                    assert(k.push(fs.last())[j] == f);
                }
            }
            assert(fs[fs.len() - 1] == fs.last());
        }
    } else {
        assert(kept(fs, decls) =~= Seq::<ShellCheckDiagnostic>::empty());
    }
}

/// Whether finding `f` lies on a line of the map and its columns can be
/// translated.
pub open spec fn finding_fits(f: ShellCheckDiagnostic, map: Seq<int>) -> bool {
    &&& 1 <= f.line <= map.len()
    &&& f.column <= f.end_column
    &&& map[f.line - 1] + f.column <= usize::MAX
}

/// The document span of finding `f`.
pub open spec fn finding_span(f: ShellCheckDiagnostic, map: Seq<int>) -> Span {
    Span {
        start: (map[f.line - 1] + f.column) as usize,
        len: (f.end_column - f.column) as usize,
    }
}

/// Whether every finding that is not an artifact can be translated.
pub open spec fn findings_fit_spec(
    fs: Seq<ShellCheckDiagnostic>,
    decls: Seq<Seq<char>>,
    map: Seq<int>,
) -> bool {
    forall|i: int| 0 <= i < fs.len() && !is_artifact(#[trigger] fs[i], decls) ==> finding_fits(fs[i], map)
}

/// Whether every finding that is not an artifact lies on a line of the
/// map and can be translated.
pub fn findings_fit(
    findings: &Vec<ShellCheckDiagnostic>,
    decls: &Vec<String>,
    line_map: &Vec<usize>,
) -> (r: bool)
    ensures
        r == findings_fit_spec(findings@, views(decls@), ints(line_map@)),
{
    let mut i: usize = 0;
    while i < findings.len()
        invariant
            i <= findings@.len(),
            forall|k: int|
                0 <= k < i && !is_artifact(#[trigger] findings@[k], views(decls@)) ==> finding_fits(
                    findings@[k],
                    ints(line_map@),
                ),
        decreases findings@.len() - i,
    {
        let f = &findings[i];
        if !is_sanitizing_artifact(f, decls) {
            if f.line < 1 || f.line > line_map.len() || f.column > f.end_column {
                return false;
            }
            if line_map[f.line - 1] > usize::MAX - f.column {
                return false;
            }
        }
        i = i + 1;
    }
    true
}

/// The label message of the diagnostic made from finding `f`.
pub open spec fn lint_label(f: ShellCheckDiagnostic) -> Seq<char> {
    "SC"@ + decimal(f.code as nat) + "["@ + f.level@ + "]: "@ + f.message@
}

/// Whether `d` is the diagnostic reported for finding `f` at `span`.
pub open spec fn is_lint(d: Diagnostic, f: ShellCheckDiagnostic, span: Span) -> bool {
    &&& d.severity == Severity::Note
    &&& d.message@ == "`shellcheck` reported the following diagnostic"@
    &&& rule_of(d) == Some(rule_id())
    &&& labels_of(d) == seq![(lint_label(f), span)]
    &&& fix_of(d) == Some("address the diagnostics as recommended in the message"@)
}

/// Whether `d` reports that running the checker failed with `message`.
pub open spec fn is_failure(d: Diagnostic, message: Seq<char>, span: Span, fix: Seq<char>) -> bool {
    &&& d.severity == Severity::Error
    &&& d.message@ == "running `shellcheck` on command section"@
    &&& rule_of(d) == Some(rule_id())
    &&& labels_of(d) == seq![(message, span)]
    &&& fix_of(d) == Some(fix)
}

/// Creates the diagnostic for a finding of ShellCheck at `span`.
pub fn shellcheck_lint(comment: &ShellCheckDiagnostic, span: Span) -> (r: Diagnostic)
    ensures
        is_lint(r, *comment, span),
{
    let mut label = "SC".to_owned();
    push_decimal(&mut label, comment.code as u64);
    label.append("[");
    label.append(comment.level.as_str());
    label.append("]: ");
    label.append(comment.message.as_str());
    assert(label@ =~= lint_label(*comment));
    let d = Diagnostic::note("`shellcheck` reported the following diagnostic".to_owned());
    let d = d.with_rule(id_string());
    let d = d.with_label(label, span);
    let r = d.with_fix("address the diagnostics as recommended in the message".to_owned());
    assert(labels_of(r) =~= seq![(lint_label(*comment), span)]);
    r
}

/// Creates the diagnostic that reports a failure to run ShellCheck.
pub fn tool_failure(message: String, span: Span, fix: String) -> (r: Diagnostic)
    ensures
        is_failure(r, message@, span, fix@),
{
    let ghost m = message@;
    let d = Diagnostic::error("running `shellcheck` on command section".to_owned());
    let d = d.with_label(message, span);
    let d = d.with_rule(id_string());
    let r = d.with_fix(fix);
    assert(labels_of(r) =~= seq![(m, span)]);
    r
}

/// `n` in decimal, with a minus sign when it is negative.
pub open spec fn signed_decimal(n: int) -> Seq<char> {
    if n < 0 {
        seq!['-'] + decimal((-n) as nat)
    } else {
        decimal(n as nat)
    }
}

/// Interprets the exit status of a ShellCheck run. It exits with 0 when
/// it found nothing and with 1 when it reported findings; any other code,
/// or none at all, is a failure.
pub fn exit_outcome(code: Option<i32>) -> (r: Result<(), String>)
    ensures
        (code == Some(0i32) || code == Some(1i32)) <==> r is Ok,
        code matches Some(c) ==> (c != 0 && c != 1 ==> (r matches Err(m) && m@
            == "unexpected `shellcheck` exit code: "@ + signed_decimal(c as int))),
        code is None ==> (r matches Err(m) && m@
            == "the `shellcheck` process appears to have been interrupted"@),
{
    match code {
        Some(c) => {
            if c == 0 || c == 1 {
                Ok(())
            } else {
                let mut m = "unexpected `shellcheck` exit code: ".to_owned();
                if c < 0 {
                    m.append("-");
                    proof {
                        reveal_strlit("-");
                    }
                    let ghost before = m@;
                    push_decimal(&mut m, (-(c as i64)) as u64);
                    assert(m@ =~= "unexpected `shellcheck` exit code: "@ + signed_decimal(c as int));
                } else {
                    push_decimal(&mut m, c as u64);
                }
                Err(m)
            }
        },
        None => Err("the `shellcheck` process appears to have been interrupted".to_owned()),
    }
}

// ---------------------------------------------------------------------------
// Whether the checker is installed
// ---------------------------------------------------------------------------

/// The availability after one request: an unknown availability becomes
/// the probe's `answer`; a known one stays.
pub open spec fn after_request(c: Option<bool>, answer: bool) -> Option<bool> {
    match c {
        None => Some(answer),
        Some(v) => Some(v),
    }
}

/// Whether a request made with availability `c` queries the probe.
pub open spec fn queries_probe(c: Option<bool>) -> bool {
    c is None
}

/// Runs `n` requests from availability `c`; the probe, when queried for
/// the `q`-th time, answers `answers[q]`. Returns the final availability
/// and the number of queries made.
pub open spec fn run_requests(c: Option<bool>, answers: Seq<bool>, n: nat) -> (Option<bool>, nat)
    decreases n,
{
    if n == 0 {
        (c, 0)
    } else {
        let (c1, q1) = run_requests(c, answers, (n - 1) as nat);
        if queries_probe(c1) {
            (after_request(c1, answers[q1 as int]), q1 + 1)
        } else {
            (after_request(c1, answers[q1 as int]), q1)
        }
    }
}

/// However many documents and command sections ask, the probe for the
/// checker is queried at most once, and never once the answer is known.
pub proof fn law_probe_queried_at_most_once(c: Option<bool>, answers: Seq<bool>, n: nat)
    ensures
        run_requests(c, answers, n).1 <= 1,
        c is Some ==> run_requests(c, answers, n).1 == 0,
        n > 0 ==> run_requests(c, answers, n).0 is Some,
    decreases n,
{
    if n > 0 {
        law_probe_queried_at_most_once(c, answers, (n - 1) as nat);
    }
}

/// The process-wide record of whether the checker is installed, written
/// once by the first request and read by every later one.
pub struct ToolCache {
    available: Option<bool>,
}

impl View for ToolCache {
    type V = Option<bool>;

    closed spec fn view(&self) -> Option<bool> {
        self.available
    }
}

impl ToolCache {
    /// A cache that knows nothing yet.
    pub fn new() -> (r: ToolCache)
        ensures
            r@ is None,
    {
        ToolCache { available: None }
    }

    /// Whether the next request must query the probe.
    pub fn needs_probe(&self) -> (r: bool)
        ensures
            r == queries_probe(self@),
    {
        self.available.is_none()
    }

    /// Serves one request: where nothing is known yet, records `answer`.
    /// Returns whether the checker is available.
    pub fn record(&mut self, answer: bool) -> (r: bool)
        ensures
            final(self)@ == after_request(old(self)@, answer),
            final(self)@ == Some(r),
    {
        match self.available {
            Some(v) => v,
            None => {
                self.available = Some(answer);
                answer
            },
        }
    }

    /// What is known of the checker's availability.
    pub fn available(&self) -> (r: Option<bool>)
        ensures
            r == self@,
    {
        self.available
    }
}

// ---------------------------------------------------------------------------
// The rule
// ---------------------------------------------------------------------------

/// The node kinds at which the rule can be excepted.
pub open spec fn exceptable_kinds() -> Seq<SyntaxKind> {
    seq![
        SyntaxKind::VersionStatementNode,
        SyntaxKind::TaskDefinitionNode,
        SyntaxKind::CommandSectionNode,
    ]
}

/// Whether the rule's diagnostics on an element with these ancestors are
/// suppressed.
pub open spec fn rule_suppressed(ancestors: Seq<NodeInfo>) -> bool {
    suppressed(Some(rule_id()), ancestors, Some(exceptable_kinds()))
}

/// What the document holds of a command section: its parts, its parts
/// with common indentation removed (`None` where indentation is mixed),
/// the span of its `command` keyword, and its ancestry, itself first.
pub struct CommandSectionInfo {
    pub parts: Vec<CommandPart>,
    pub stripped: Option<Vec<StrippedCommandPart>>,
    pub keyword_span: Span,
    pub ancestors: Vec<NodeInfo>,
}

/// The run of ShellCheck that a command section asks for: the text to
/// check, the variables that stand for its placeholders (whose "referenced
/// but not assigned" findings are dropped), and the line map.
pub struct ShellCheckRequest {
    pub script: String,
    pub placeholder_vars: Vec<String>,
    pub line_map: Vec<usize>,
}

/// Whether `req` is the request for `section` when the placeholders are
/// replaced by `vars`.
pub open spec fn is_request_for(
    req: ShellCheckRequest,
    section: CommandSectionInfo,
    vars: Seq<Seq<char>>,
) -> bool {
    let stripped = section.stripped->Some_0@;
    &&& valid_vars(stripped, vars)
    &&& req.script@ == sanitized(stripped, vars)
    &&& views(req.placeholder_vars@) == vars
    &&& ints(req.line_map@) == line_map_of(
        section.parts@,
        command_whitespace(section.parts@) as int,
    )
}

/// Whether the new diagnostics are those of `ds`, each added through the
/// rule's suppression scopes on an element with `ancestors`.
pub open spec fn added_through_scopes(
    before: Seq<Diagnostic>,
    after: Seq<Diagnostic>,
    ancestors: Seq<NodeInfo>,
    count: nat,
) -> bool {
    if rule_suppressed(ancestors) {
        after == before
    } else {
        after.len() == before.len() + count && after.subrange(0, before.len() as int) == before
    }
}

/// Runs ShellCheck on a command section and reports violations.
#[derive(Copy, Clone, Debug)]
pub struct ShellCheckRule;

impl ShellCheckRule {
    /// The rule.
    pub fn new() -> (r: ShellCheckRule)
        ensures
            r == ShellCheckRule,
    {
        ShellCheckRule
    }

    /// The rule's identifier.
    pub fn id(&self) -> (r: &'static str)
        ensures
            r@ == rule_id(),
    {
        "CommandSectionShellCheck"
    }

    /// A one-line description of the rule.
    pub fn description(&self) -> (r: &'static str)
        ensures
            r@ == "Ensures that command blocks are free of ShellCheck violations."@,
    {
        "Ensures that command blocks are free of ShellCheck violations."
    }

    /// Why the rule matters.
    pub fn explanation(&self) -> (r: &'static str)
        ensures
            r@
                == "ShellCheck (https://shellcheck.net) is a static analysis tool and linter for sh / bash. The lints provided by ShellCheck help prevent common errors and pitfalls in your scripts. Following its recommendations will increase the robustness of your command sections."@,
    {
        "ShellCheck (https://shellcheck.net) is a static analysis tool and linter for sh / bash. The lints provided by ShellCheck help prevent common errors and pitfalls in your scripts. Following its recommendations will increase the robustness of your command sections."
    }

    /// The rule's tags.
    pub fn tags(&self) -> (r: TagSet)
        ensures
            r@ == set![Tag::Correctness, Tag::Style, Tag::Portability],
    {
        let tags = vec![Tag::Correctness, Tag::Style, Tag::Portability];
        let r = TagSet::new(tags.as_slice());
        assert(r@ =~= set![Tag::Correctness, Tag::Style, Tag::Portability]) by {
            assert(tags@[0] == Tag::Correctness);
            assert(tags@[1] == Tag::Style);
            assert(tags@[2] == Tag::Portability);
        }
        r
    }

    /// The node kinds at which the rule can be excepted.
    pub fn exceptable_nodes(&self) -> (r: Option<Vec<SyntaxKind>>)
        ensures
            r matches Some(v) && v@ == exceptable_kinds(),
    {
        let v = vec![
            SyntaxKind::VersionStatementNode,
            SyntaxKind::TaskDefinitionNode,
            SyntaxKind::CommandSectionNode,
        ];
        assert(v@ =~= exceptable_kinds());
        Some(v)
    }

    /// Adds `d` to `state` unless the rule is excepted on one of
    /// `ancestors`.
    fn add_scoped(&self, state: &mut Diagnostics, d: Diagnostic, ancestors: &Vec<NodeInfo>)
        requires
            rule_of(d) == Some(rule_id()),
        ensures
            rule_suppressed(ancestors@) ==> final(state)@ == old(state)@,
            !rule_suppressed(ancestors@) ==> final(state)@ == old(state)@.push(d),
    {
        let kinds = self.exceptable_nodes().unwrap();
        let slice = kinds.as_slice();
        assert(kinds_of(Some(slice)) == Some(exceptable_kinds()));
        state.exceptable_add(d, ancestors, Some(slice));
    }

    /// Reports the findings of one ShellCheck run: each finding that is
    /// not an artifact of sanitizing becomes a diagnostic at its place in
    /// the document.
    pub fn report_findings(
        &self,
        state: &mut Diagnostics,
        findings: &Vec<ShellCheckDiagnostic>,
        decls: &Vec<String>,
        line_map: &Vec<usize>,
        ancestors: &Vec<NodeInfo>,
    )
        requires
            findings_fit_spec(findings@, views(decls@), ints(line_map@)),
        ensures
            ({
                let ks = kept(findings@, views(decls@));
                &&& added_through_scopes(old(state)@, final(state)@, ancestors@, ks.len())
                &&& !rule_suppressed(ancestors@) ==> forall|k: int|
                    0 <= k < ks.len() ==> is_lint(
                        #[trigger] final(state)@[old(state)@.len() + k],
                        ks[k],
                        finding_span(ks[k], ints(line_map@)),
                    )
            }),
    {
        let ghost fs = findings@;
        let ghost ds = views(decls@);
        let ghost map = ints(line_map@);
        let ghost base = state@;
        let mut i: usize = 0;
        assert(fs.subrange(0, 0) =~= seq![]);
        assert(base.subrange(0, base.len() as int) =~= base);
        while i < findings.len()
            invariant
                i <= fs.len(),
                fs == findings@,
                ds == views(decls@),
                map == ints(line_map@),
                findings_fit_spec(fs, ds, map),
                added_through_scopes(base, state@, ancestors@, kept(fs.subrange(0, i as int), ds).len()),
                !rule_suppressed(ancestors@) ==> forall|k: int|
                    0 <= k < kept(fs.subrange(0, i as int), ds).len() ==> is_lint(
                        #[trigger] state@[base.len() + k],
                        kept(fs.subrange(0, i as int), ds)[k],
                        finding_span(kept(fs.subrange(0, i as int), ds)[k], map),
                    ),
            decreases fs.len() - i,
        {
            let ghost prev = kept(fs.subrange(0, i as int), ds);
            let ghost before = state@;
            assert(fs.subrange(0, i + 1).drop_last() =~= fs.subrange(0, i as int));
            assert(fs.subrange(0, i + 1).last() == fs[i as int]);
            let f = &findings[i];
            if !is_sanitizing_artifact(f, decls) {
                assert(finding_fits(fs[i as int], map));
                let start = line_map[f.line - 1];
                let span = Span::new(start + f.column, f.end_column - f.column);
                assert(span == finding_span(*f, map));
                let d = shellcheck_lint(f, span);
                self.add_scoped(state, d, ancestors);
                assert(kept(fs.subrange(0, i + 1), ds) == prev.push(*f));
                proof {
                    if !rule_suppressed(ancestors@) {
                        assert(state@.subrange(0, base.len() as int) =~= before.subrange(0, base.len() as int));
                        assert forall|k: int| 0 <= k < prev.len() + 1 implies is_lint(
                            #[trigger] state@[base.len() + k],
                            prev.push(*f)[k],
                            finding_span(prev.push(*f)[k], map),
                        ) by {
                            if k < prev.len() {
                                assert(state@[base.len() + k] == before[base.len() + k]);
                            }
                        }
                    }
                }
            }
            i = i + 1;
        }
        assert(fs.subrange(0, i as int) =~= fs);
    }

    /// Resets the rule on entry to a document. The rule keeps no state
    /// between command sections, so this changes nothing.
    pub fn document(&mut self, reason: VisitReason)
        ensures
            *final(self) == *old(self),
    {
        if reason == VisitReason::Exit {
            return;
        }
        *self = ShellCheckRule;
    }

    /// Handles a command section on entry: learns whether ShellCheck is
    /// installed (from `probe`, the answer of the installation probe, where
    /// `cache` does not know yet), reports once that it is missing, and
    /// returns the run of ShellCheck the section asks for. Returns nothing
    /// on exit, where ShellCheck is missing, and where the section's
    /// indentation is mixed (another rule reports that).
    pub fn command_section(
        &self,
        state: &mut Diagnostics,
        reason: VisitReason,
        section: &CommandSectionInfo,
        cache: &mut ToolCache,
        probe: Option<bool>,
    ) -> (r: Option<ShellCheckRequest>)
        requires
            reason == VisitReason::Enter && queries_probe(old(cache)@) ==> probe is Some,
            section.stripped matches Some(p) ==> placeholders_well_formed(p@),
            line_map_fits(section.parts@, command_whitespace(section.parts@) as int),
        ensures
            reason == VisitReason::Exit ==> r is None && final(cache)@ == old(cache)@ && final(state)@ == old(state)@,
            reason == VisitReason::Enter ==> final(cache)@ == after_request(
                old(cache)@,
                probe->Some_0,
            ),
            reason == VisitReason::Enter && old(cache)@ is None && probe == Some(false) ==> ({
                &&& added_through_scopes(old(state)@, final(state)@, section.ancestors@, 1)
                &&& !rule_suppressed(section.ancestors@) ==> is_failure(
                    final(state)@.last(),
                    "could not find `shellcheck` executable."@,
                    section.keyword_span,
                    "install shellcheck or disable this lint."@,
                )
            }),
            !(reason == VisitReason::Enter && old(cache)@ is None && probe == Some(false))
                ==> final(state)@ == old(state)@,
            r is Some <==> (reason == VisitReason::Enter && final(cache)@ == Some(true)
                && section.stripped is Some),
            r matches Some(req) ==> exists|vars: Seq<Seq<char>>|
                #![trigger sanitized(section.stripped->Some_0@, vars)]
                is_request_for(req, *section, vars),
    {
        if reason == VisitReason::Exit {
            return None;
        }
        let was_known = !cache.needs_probe();
        let answer = match probe {
            Some(a) => a,
            None => false,
        };
        let available = cache.record(answer);
        if !available {
            if !was_known {
                let message = "could not find `shellcheck` executable.".to_owned();
                let fix = "install shellcheck or disable this lint.".to_owned();
                let d = tool_failure(message, section.keyword_span, fix);
                let ghost before = state@;
                self.add_scoped(state, d, &section.ancestors);
                proof {
                    if !rule_suppressed(section.ancestors@) {
                        assert(state@.subrange(0, before.len() as int) =~= before);
                    }
                }
            }
            return None;
        }
        let stripped = match &section.stripped {
            Some(p) => p,
            None => {
                return None;
            },
        };
        let sanitized_command = sanitize_command(Some(stripped));
        let (script, cmd_decls) = match sanitized_command {
            Some(res) => res,
            None => {
                return None;
            },
        };
        let leading_whitespace = count_command_whitespace(&section.parts);
        let line_map = build_line_map(&section.parts, leading_whitespace);
        let ghost vars = views(cmd_decls@);
        let req = ShellCheckRequest { script, placeholder_vars: cmd_decls, line_map };
        assert(is_request_for(req, *section, vars));
        Some(req)
    }

    /// Reports the outcome of the run of ShellCheck that `request` asked for
    /// on `section`: its findings, or the message of its failure. Findings
    /// that cannot be placed in the document make the run a failure.
    pub fn finish_command_section(
        &self,
        state: &mut Diagnostics,
        section: &CommandSectionInfo,
        request: &ShellCheckRequest,
        outcome: Result<Vec<ShellCheckDiagnostic>, String>,
    )
        ensures
            outcome matches Ok(fs) ==> (findings_fit_spec(
                fs@,
                views(request.placeholder_vars@),
                ints(request.line_map@),
            ) ==> ({
                let ks = kept(fs@, views(request.placeholder_vars@));
                &&& added_through_scopes(old(state)@, final(state)@, section.ancestors@, ks.len())
                &&& !rule_suppressed(section.ancestors@) ==> forall|k: int|
                    0 <= k < ks.len() ==> is_lint(
                        #[trigger] final(state)@[old(state)@.len() + k],
                        ks[k],
                        finding_span(ks[k], ints(request.line_map@)),
                    )
            })),
            outcome matches Ok(fs) ==> (!findings_fit_spec(
                fs@,
                views(request.placeholder_vars@),
                ints(request.line_map@),
            ) ==> ({
                &&& added_through_scopes(old(state)@, final(state)@, section.ancestors@, 1)
                &&& !rule_suppressed(section.ancestors@) ==> is_failure(
                    final(state)@.last(),
                    "`shellcheck` reported a location outside the command section"@,
                    section.keyword_span,
                    "address reported error."@,
                )
            })),
            outcome matches Err(m) ==> ({
                &&& added_through_scopes(old(state)@, final(state)@, section.ancestors@, 1)
                &&& !rule_suppressed(section.ancestors@) ==> is_failure(
                    final(state)@.last(),
                    m@,
                    section.keyword_span,
                    "address reported error."@,
                )
            }),
    {
        let message = match outcome {
            Ok(findings) => {
                if findings_fit(&findings, &request.placeholder_vars, &request.line_map) {
                    self.report_findings(
                        state,
                        &findings,
                        &request.placeholder_vars,
                        &request.line_map,
                        &section.ancestors,
                    );
                    return;
                }
                "`shellcheck` reported a location outside the command section".to_owned()
            },
            Err(message) => message,
        };
        let d = tool_failure(message, section.keyword_span, "address reported error.".to_owned());
        let ghost before = state@;
        self.add_scoped(state, d, &section.ancestors);
        proof {
            if !rule_suppressed(section.ancestors@) {
                assert(state@.subrange(0, before.len() as int) =~= before);
            }
        }
    }
}

impl Default for ShellCheckRule {
    fn default() -> (r: ShellCheckRule)
        ensures
            r == ShellCheckRule,
    {
        ShellCheckRule
    }
}

} // verus!

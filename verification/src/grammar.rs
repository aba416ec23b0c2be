//! The meaning of each rule of the configuration language, stated over the
//! source characters `s` and offsets into them.

use vstd::prelude::*;
use crate::loc::{LocModel, loc_after};
use crate::lexer::{TokenModel, matches_at};

verus! {

/// The character at offset `p`, if there is one.
pub open spec fn ch(s: Seq<char>, p: int) -> Option<char> {
    if 0 <= p < s.len() {
        Some(s[p])
    } else {
        None
    }
}

/// The location of offset `p`.
pub open spec fn lc(s: Seq<char>, p: int) -> LocModel {
    loc_after(s.take(p))
}

/// A space or a tab.
pub open spec fn is_blank(c: char) -> bool {
    c == ' ' || c == '\t'
}

/// The end of the run of spaces and tabs that starts at `p`.
pub open spec fn blank_end(s: Seq<char>, p: int) -> int
    decreases s.len() - p,
{
    if ch(s, p) == Some(' ') || ch(s, p) == Some('\t') {
        blank_end(s, p + 1)
    } else {
        p
    }
}

/// The offset of the first newline at or after `p`, or the end of the text.
pub open spec fn find_nl(s: Seq<char>, p: int) -> int
    decreases s.len() - p,
{
    if p < 0 || p >= s.len() {
        s.len() as int
    } else if s[p] == '\n' {
        p
    } else {
        find_nl(s, p + 1)
    }
}

pub proof fn lemma_blank_end(s: Seq<char>, p: int)
    ensures
        p <= blank_end(s, p),
        0 <= p <= s.len() ==> blank_end(s, p) <= s.len(),
        forall|j: int| p <= j < blank_end(s, p) ==> is_blank(#[trigger] s[j]),
        !(ch(s, blank_end(s, p)) == Some(' ') || ch(s, blank_end(s, p)) == Some('\t')),
    decreases s.len() - p,
{
    if ch(s, p) == Some(' ') || ch(s, p) == Some('\t') {
        lemma_blank_end(s, p + 1);
    }
}

pub proof fn lemma_find_nl(s: Seq<char>, p: int)
    ensures
        0 <= p <= s.len() ==> p <= find_nl(s, p),
        find_nl(s, p) <= s.len(),
        find_nl(s, p) < s.len() ==> s[find_nl(s, p)] == '\n',
        0 <= p ==> forall|j: int| p <= j < find_nl(s, p) ==> #[trigger] s[j] != '\n',
    decreases s.len() - p,
{
    if !(p < 0 || p >= s.len()) && s[p] != '\n' {
        lemma_find_nl(s, p + 1);
    }
}

/// A comment: `#` up to (not including) the end of the line.
pub open spec fn cmnt_end(s: Seq<char>, p: int) -> int {
    if ch(s, p) == Some('#') {
        find_nl(s, p + 1)
    } else {
        p
    }
}

/// An end of line, `\n` or `\r\n`: the offset after it.
pub open spec fn eol_end(s: Seq<char>, p: int) -> Option<int> {
    if ch(s, p) == Some('\n') {
        Some(p + 1)
    } else if ch(s, p) == Some('\r') && ch(s, p + 1) == Some('\n') {
        Some(p + 2)
    } else {
        None
    }
}

/// Separating space: spaces, tabs and backslash line continuations.
pub open spec fn spcs_end(s: Seq<char>, p: int) -> int
    decreases s.len() - p,
{
    match ch(s, p) {
        Some(c) => if is_blank(c) {
            spcs_end(s, p + 1)
        } else if c == '\\' && ch(s, p + 1) == Some('\n') {
            spcs_end(s, p + 2)
        } else if c == '\\' && ch(s, p + 1) == Some('\r') && ch(s, p + 2) == Some('\n') {
            spcs_end(s, p + 3)
        } else {
            p
        },
        None => p,
    }
}

/// Blank lines and comment lines: the offset where the next line with
/// content starts. A comment that runs to the end of the text ends the scan
/// there.
pub open spec fn empty_lines_end(s: Seq<char>, p: int) -> int
    decreases s.len() - p,
{
    if p < 0 || p >= s.len() {
        p
    } else {
        let i = blank_end(s, p);
        proof {
            lemma_blank_end(s, p);
        }
        if ch(s, i) == Some('#') {
            let k = find_nl(s, i);
            proof {
                lemma_find_nl(s, i);
            }
            if k < s.len() {
                empty_lines_end(s, k + 1)
            } else {
                s.len() as int
            }
        } else if let Some(e) = eol_end(s, i) {
            empty_lines_end(s, e)
        } else {
            p
        }
    }
}

/// The number of four-space indent groups that start at `p`.
pub open spec fn indent_groups(s: Seq<char>, p: int) -> nat
    decreases s.len() - p,
{
    if 0 <= p && p + 4 <= s.len() && s[p] == ' ' && s[p + 1] == ' ' && s[p + 2] == ' ' && s[p
        + 3] == ' ' {
        1 + indent_groups(s, p + 4)
    } else {
        0
    }
}

/// An error: where it was found and what was expected.
pub type ErrModel = (LocModel, &'static str);

/// The indent of a line: `Ok(k)` for `k` groups of four spaces, checked
/// against the indent of the previous record.
pub open spec fn indent_spec(s: Seq<char>, p: int, has_a_record: bool, last_indent: nat) -> Result<
    nat,
    ErrModel,
> {
    let k = indent_groups(s, p);
    let q = p + 4 * k;
    if ch(s, q) == Some(' ') || ch(s, q) == Some('\t') {
        Err((lc(s, q), "indents must be four spaces"))
    } else if (!has_a_record && k > 0) || k > last_indent + 1 {
        Err((lc(s, q), "too many indents"))
    } else {
        Ok(k)
    }
}

/// The offset of the first `'` at or after `p`, if any.
pub open spec fn find_quote(s: Seq<char>, p: int) -> Option<int>
    decreases s.len() - p,
{
    if p < 0 || p >= s.len() {
        None
    } else if s[p] == '\'' {
        Some(p)
    } else {
        find_quote(s, p + 1)
    }
}

/// An escape in a double quoted value at `j`: the offset after it and the
/// text it stands for. `\\s`, `\\t`, `\\r`, `\\n` stand for a space, tab,
/// carriage return and newline, an escaped line end stands for nothing, and
/// any other escaped character for itself.
pub open spec fn desc_step(s: Seq<char>, j: int) -> Option<(int, Seq<char>)> {
    if ch(s, j) == Some('\\') {
        match ch(s, j + 1) {
            None => Some((j + 1, seq!['\\'])),
            Some(d) => if d == '\n' {
                Some((j + 2, Seq::empty()))
            } else if d == '\r' {
                if ch(s, j + 2) == Some('\n') {
                    Some((j + 3, Seq::empty()))
                } else {
                    None
                }
            } else if d == 's' {
                Some((j + 2, seq![' ']))
            } else if d == 't' {
                Some((j + 2, seq!['\t']))
            } else if d == 'r' {
                Some((j + 2, seq!['\r']))
            } else if d == 'n' {
                Some((j + 2, seq!['\n']))
            } else {
                Some((j + 2, seq![d]))
            },
        }
    } else {
        None
    }
}

/// A plain character of a value that ends at `close`.
pub open spec fn plain_step(s: Seq<char>, j: int, close: char) -> Option<(int, Seq<char>)> {
    match ch(s, j) {
        Some(c) => if c != close {
            Some((j + 1, seq![c]))
        } else {
            None
        },
        None => None,
    }
}

/// One step of a double quoted value: an escape or a plain character.
pub open spec fn dstep(s: Seq<char>, j: int) -> Option<(int, Seq<char>)> {
    match desc_step(s, j) {
        Some(x) => Some(x),
        None => plain_step(s, j, '"'),
    }
}

pub proof fn lemma_dstep(s: Seq<char>, j: int)
    ensures
        dstep(s, j) matches Some((j2, t)) ==> j < j2 <= s.len() && 0 <= j,
{
}

/// The body of a double quoted value from `j`: where it stops (at the
/// closing quote or the end of the text) and its text with escapes resolved.
pub open spec fn dbody(s: Seq<char>, j: int) -> (int, Seq<char>)
    decreases s.len() - j,
{
    match dstep(s, j) {
        Some((j2, t)) => {
            proof {
                lemma_dstep(s, j);
            }
            let r = dbody(s, j2);
            (r.0, t + r.1)
        },
        None => (j, Seq::empty()),
    }
}

/// A character that may start an unquoted value.
pub open spec fn sval_head_char(c: char) -> bool {
    !(c == ' ' || c == '\t' || c == '\r' || c == '\n' || c == '{' || c == '\'' || c == '"' || c
        == '#')
}

/// A character that may continue an unquoted value.
pub open spec fn sval_body_char(c: char) -> bool {
    !(c == ' ' || c == '\t' || c == '\r' || c == '\n')
}

/// An escape in an unquoted value at `j`: the offset after it and the text
/// it stands for. An escaped line end stands for nothing, an escaped space or
/// tab for itself, and any other escaped character keeps its backslash.
pub open spec fn sesc_step(s: Seq<char>, j: int) -> Option<(int, Seq<char>)> {
    if ch(s, j) == Some('\\') {
        match ch(s, j + 1) {
            None => Some((j + 1, seq!['\\'])),
            Some(d) => if d == '\n' {
                Some((j + 2, Seq::empty()))
            } else if d == '\r' {
                if ch(s, j + 2) == Some('\n') {
                    Some((j + 3, Seq::empty()))
                } else {
                    None
                }
            } else if is_blank(d) {
                Some((j + 2, seq![d]))
            } else {
                Some((j + 2, seq!['\\', d]))
            },
        }
    } else {
        None
    }
}

/// A plain character of an unquoted value; the first one (`head`) may be
/// fewer characters.
pub open spec fn schar_step(s: Seq<char>, j: int, head: bool) -> Option<(int, Seq<char>)> {
    match ch(s, j) {
        Some(c) => if (if head {
            sval_head_char(c)
        } else {
            sval_body_char(c)
        }) {
            Some((j + 1, seq![c]))
        } else {
            None
        },
        None => None,
    }
}

/// One step of an unquoted value at `j`: an escape or a plain character,
/// with the offset after it and the text it stands for.
pub open spec fn sstep(s: Seq<char>, j: int, head: bool) -> Option<(int, Seq<char>)> {
    match sesc_step(s, j) {
        Some(x) => Some(x),
        None => schar_step(s, j, head),
    }
}

pub proof fn lemma_sstep(s: Seq<char>, j: int, head: bool)
    ensures
        sstep(s, j, head) matches Some((j2, t)) ==> j < j2 <= s.len() && 0 <= j,
{
}

/// The rest of an unquoted value from `j`: where it stops and its text.
pub open spec fn sbody(s: Seq<char>, j: int) -> (int, Seq<char>)
    decreases s.len() - j,
{
    match sstep(s, j, false) {
        Some((j2, t)) => {
            proof {
                lemma_sstep(s, j, false);
            }
            let r = sbody(s, j2);
            (r.0, t + r.1)
        },
        None => (j, Seq::empty()),
    }
}

/// The scan of a braced value from `j`, with `bc` braces open, `take` the
/// end of the text kept so far and `taking` whether the current line has
/// content: where the scan stops, the end of the kept text, and the braces
/// still open. A brace right after a backslash is text: it neither opens
/// nor closes a level.
pub open spec fn bscan(s: Seq<char>, j: int, bc: nat, take: int, taking: bool) -> (int, int, nat)
    decreases s.len() - j,
{
    match ch(s, j) {
        None => (j, take, bc),
        Some(c) => if c == '\\' && (ch(s, j + 1) == Some('{') || ch(s, j + 1) == Some('}')) {
            bscan(s, j + 2, bc, j + 2, true)
        } else if c == '{' {
            bscan(s, j + 1, bc + 1, j + 1, true)
        } else if c == '}' && bc > 0 {
            bscan(s, j + 1, (bc - 1) as nat, j + 1, true)
        } else if c == '}' {
            (j, take, bc)
        } else if c == '\n' {
            bscan(s, j + 1, bc, j, false)
        } else if c == '\r' && ch(s, j + 1) == Some('\n') {
            bscan(s, j + 2, bc, j, false)
        } else if is_blank(c) {
            bscan(s, j + 1, bc, if taking { j + 1 } else { take }, taking)
        } else {
            bscan(s, j + 1, bc, j + 1, true)
        },
    }
}

/// Where the body of a braced or back quoted value starts: after the opening
/// at `p1`, blanks followed by an end of line are skipped.
pub open spec fn block_body_start(s: Seq<char>, p1: int) -> int {
    let b = blank_end(s, p1);
    match eol_end(s, b) {
        Some(e) => e,
        None => p1,
    }
}

/// The closing of a back quoted value: one or three back quotes.
pub open spec fn back_quotes(n: nat) -> Seq<char> {
    if n == 3 {
        seq!['`', '`', '`']
    } else {
        seq!['`']
    }
}

/// The scan of a back quoted value from `j`: where it stops (at the closing
/// quotes or the end of the text) and the end of the text kept.
pub open spec fn qscan(s: Seq<char>, j: int, take: int, taking: bool, n: nat) -> (int, int)
    decreases s.len() - j,
{
    match ch(s, j) {
        None => (j, take),
        Some(c) => if c == '\n' {
            qscan(s, j + 1, j, false, n)
        } else if c == '\r' && ch(s, j + 1) == Some('\n') {
            qscan(s, j + 2, j, false, n)
        } else if is_blank(c) {
            qscan(s, j + 1, if taking { j + 1 } else { take }, taking, n)
        } else if matches_at(s, j, back_quotes(n)) {
            (j, take)
        } else {
            qscan(s, j + 1, j + 1, true, n)
        },
    }
}

/// The result of a value rule at `p`: nothing there, a value (the offset
/// after it and its token), or an error.
pub type ValRes = Result<Option<(int, TokenModel)>, ErrModel>;

/// A value in single quotes: its text is everything up to the next quote.
pub open spec fn qval_spec(s: Seq<char>, p: int) -> ValRes {
    if ch(s, p) == Some('\'') {
        match find_quote(s, p + 1) {
            Some(q) => Ok(
                Some(
                    (
                        q + 1,
                        TokenModel { start: lc(s, p + 1), end: lc(s, q), text: s.subrange(p + 1, q) },
                    ),
                ),
            ),
            None => Err((lc(s, p), "expecting closing quote")),
        }
    } else {
        Ok(None)
    }
}

/// A value in double quotes, with escapes.
pub open spec fn dval_spec(s: Seq<char>, p: int) -> ValRes {
    if ch(s, p) == Some('"') {
        let r = dbody(s, p + 1);
        if ch(s, r.0) == Some('"') {
            Ok(Some((r.0 + 1, TokenModel { start: lc(s, p + 1), end: lc(s, r.0), text: r.1 })))
        } else {
            Err((lc(s, p), "expecting closing double quote"))
        }
    } else {
        Ok(None)
    }
}

/// A value in curly braces, which may span lines and hold nested braces. A
/// line end right after the opening brace, and blank lines before the
/// closing one, are not part of the text.
pub open spec fn bval_spec(s: Seq<char>, p: int) -> ValRes {
    if ch(s, p) == Some('{') {
        let p2 = block_body_start(s, p + 1);
        let r = bscan(s, p2, 0, p2, false);
        if ch(s, r.0) == Some('}') {
            if r.2 == 0 {
                Ok(Some((r.0 + 1, TokenModel { start: lc(s, p + 1), end: lc(s, r.1), text: s.subrange(p2, r.1) })))
            } else {
                Err((lc(s, p), "braces must match"))
            }
        } else {
            Err((lc(s, p), "expecting closing brace"))
        }
    } else {
        Ok(None)
    }
}

/// How many back quotes open a back quoted value at `p`: three, one, or none.
pub open spec fn back_quote_open(s: Seq<char>, p: int) -> nat {
    if matches_at(s, p, back_quotes(3)) {
        3
    } else if matches_at(s, p, back_quotes(1)) {
        1
    } else {
        0
    }
}

/// A value in one or three back quotes, which may span lines.
pub open spec fn bqval_spec(s: Seq<char>, p: int) -> ValRes {
    let n = back_quote_open(s, p);
    if n == 0 {
        Ok(None)
    } else {
        let p2 = block_body_start(s, p + n);
        let r = qscan(s, p2, p2, false, n);
        if matches_at(s, r.0, back_quotes(n)) {
            Ok(Some((r.0 + n, TokenModel { start: lc(s, p2), end: lc(s, r.1), text: s.subrange(p2, r.1) })))
        } else if n == 1 {
            Err((lc(s, p), "expecting closing back quote"))
        } else {
            Err((lc(s, p), "expecting closing back quotes"))
        }
    }
}

/// An unquoted value.
pub open spec fn sval_spec(s: Seq<char>, p: int) -> ValRes {
    match sstep(s, p, true) {
        Some((j, t)) => {
            let r = sbody(s, j);
            Ok(Some((r.0, TokenModel { start: lc(s, p), end: lc(s, r.0), text: t + r.1 })))
        },
        None => Ok(None),
    }
}

pub proof fn lemma_dbody(s: Seq<char>, j: int)
    requires
        0 <= j <= s.len(),
    ensures
        j <= dbody(s, j).0 <= s.len(),
        dstep(s, dbody(s, j).0) is None,
    decreases s.len() - j,
{
    if let Some((j2, t)) = dstep(s, j) {
        lemma_dstep(s, j);
        lemma_dbody(s, j2);
    }
}

pub proof fn lemma_sbody(s: Seq<char>, j: int)
    requires
        0 <= j <= s.len(),
    ensures
        j <= sbody(s, j).0 <= s.len(),
        sstep(s, sbody(s, j).0, false) is None,
    decreases s.len() - j,
{
    if let Some((j2, t)) = sstep(s, j, false) {
        lemma_sstep(s, j, false);
        lemma_sbody(s, j2);
    }
}

pub proof fn lemma_bscan(s: Seq<char>, j: int, bc: nat, take: int, taking: bool)
    requires
        0 <= j <= s.len(),
        take <= j,
    ensures
        j <= bscan(s, j, bc, take, taking).0 <= s.len(),
        bscan(s, j, bc, take, taking).1 <= bscan(s, j, bc, take, taking).0,
        take <= bscan(s, j, bc, take, taking).1,
    decreases s.len() - j,
{
    match ch(s, j) {
        None => {},
        Some(c) => if c == '\\' && (ch(s, j + 1) == Some('{') || ch(s, j + 1) == Some('}')) {
            lemma_bscan(s, j + 2, bc, j + 2, true);
        } else if c == '{' {
            lemma_bscan(s, j + 1, bc + 1, j + 1, true);
        } else if c == '}' && bc > 0 {
            lemma_bscan(s, j + 1, (bc - 1) as nat, j + 1, true);
        } else if c == '}' {
        } else if c == '\n' {
            lemma_bscan(s, j + 1, bc, j, false);
        } else if c == '\r' && ch(s, j + 1) == Some('\n') {
            lemma_bscan(s, j + 2, bc, j, false);
        } else if is_blank(c) {
            lemma_bscan(s, j + 1, bc, if taking { j + 1 } else { take }, taking);
        } else {
            lemma_bscan(s, j + 1, bc, j + 1, true);
        },
    }
}

pub proof fn lemma_qscan(s: Seq<char>, j: int, take: int, taking: bool, n: nat)
    requires
        0 <= j <= s.len(),
        take <= j,
    ensures
        j <= qscan(s, j, take, taking, n).0 <= s.len(),
        qscan(s, j, take, taking, n).1 <= qscan(s, j, take, taking, n).0,
        take <= qscan(s, j, take, taking, n).1,
    decreases s.len() - j,
{
    match ch(s, j) {
        None => {},
        Some(c) => if c == '\n' {
            lemma_qscan(s, j + 1, j, false, n);
        } else if c == '\r' && ch(s, j + 1) == Some('\n') {
            lemma_qscan(s, j + 2, j, false, n);
        } else if is_blank(c) {
            lemma_qscan(s, j + 1, if taking { j + 1 } else { take }, taking, n);
        } else if matches_at(s, j, back_quotes(n)) {
        } else {
            lemma_qscan(s, j + 1, j + 1, true, n);
        },
    }
}

pub proof fn lemma_find_quote(s: Seq<char>, p: int)
    requires
        0 <= p,
    ensures
        find_quote(s, p) matches Some(q) ==> p <= q < s.len() && s[q] == '\'',
        forall|t: int|
            p <= t < (match find_quote(s, p) {
                Some(q) => q,
                None => s.len() as int,
            }) ==> #[trigger] s[t] != '\'',
    decreases s.len() - p,
{
    if !(p < 0 || p >= s.len()) && s[p] != '\'' {
        lemma_find_quote(s, p + 1);
    }
}

pub proof fn lemma_block_body_start(s: Seq<char>, p1: int)
    requires
        0 <= p1 <= s.len(),
    ensures
        p1 <= block_body_start(s, p1) <= s.len(),
{
    lemma_blank_end(s, p1);
}

} // verus!

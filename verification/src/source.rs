//! Reading a configuration text, and pointing into it.

use vstd::prelude::*;
use crate::loc::Loc;
use crate::lexer::Lexer;
use crate::parser::{parse_main, parse_spec, main_at, main_start, ready, tree_wf};
use crate::conf::{Conf, opt_str_model};
use crate::parse_error::ParseError;
use crate::text::{chars_of, string_from_str, push_chars, push_char};

verus! {

/// Parses the text `src` into a configuration, keeping the text if
/// `keep_src` and recording `path` as where it came from. An error gives
/// where the text stopped making sense and what was expected there.
pub fn parse(src: &str, keep_src: bool, path: Option<&str>) -> (r: Result<Conf, ParseError>)
    ensures
        match parse_spec(src@) {
            Ok(rs) => r matches Ok(c) && tree_wf(rs) && c.records() == rs && c.src_model() == (if keep_src {
                Some(src@)
            } else {
                None
            }) && c.path_model() == opt_str_model(path),
            Err((l, m)) => r matches Err(e) && e.loc@ == l && e.msg@ == m@,
        },
{
    let cs = chars_of(src);
    let mut lexer = Lexer::new(cs.as_slice());
    proof {
        assert(cs@.take(0) =~= Seq::<char>::empty());
        assert(main_at(0) == main_start());
    }
    match parse_main(&mut lexer) {
        Ok(records) => {
            Ok(Conf::new(records, if keep_src { Some(src) } else { None }, path))
        },
        Err((loc, msg)) => {
            Err(ParseError { msg: string_from_str(msg), loc })
        },
    }
}

/// The offset where the line that holds `a` ends: the first `\r` or `\n`
/// at or after `a`, or the end of the text.
pub open spec fn line_end(s: Seq<char>, a: int) -> int
    decreases s.len() - a,
{
    if a < 0 || a >= s.len() {
        s.len() as int
    } else if s[a] == '\r' || s[a] == '\n' {
        a
    } else {
        line_end(s, a + 1)
    }
}

proof fn lemma_line_end(s: Seq<char>, a: int)
    requires
        0 <= a <= s.len(),
    ensures
        a <= line_end(s, a) <= s.len(),
        line_end(s, a) < s.len() ==> (s[line_end(s, a)] == '\r' || s[line_end(s, a)] == '\n'),
        forall|k: int| a <= k < line_end(s, a) ==> #[trigger] s[k] != '\r' && s[k] != '\n',
    decreases s.len() - a,
{
    if a < s.len() && !(s[a] == '\r' || s[a] == '\n') {
        lemma_line_end(s, a + 1);
    }
}

/// The padding under a line that puts a caret at offset `pos`: one space,
/// or a tab under a tab, for each character of the line before `pos`.
pub open spec fn caret_pad(s: Seq<char>, a: int, e: int, pos: int) -> Seq<char> {
    let m = if pos < e { pos } else { e };
    let n = if m > a { m - a } else { 0 };
    Seq::new(n as nat, |k: int| if s[a + k] == '\t' { '\t' } else { ' ' })
}

/// The line of `s` that `loc` is on, and under it a caret at `loc`.
pub open spec fn error_line_text(s: Seq<char>, loc: Loc) -> Seq<char> {
    if s.len() == 0 {
        Seq::empty()
    } else {
        let a = loc.line_start_pos as int;
        let e = line_end(s, a);
        s.subrange(a, e) + seq!['\n'] + caret_pad(s, a, e, loc.pos as int) + seq!['^']
    }
}

/// The line of `src` that `loc` is on, and under it a caret pointing at the
/// column of `loc`.
///
/// The offsets of `loc` count characters, as every `Loc` of this library
/// does, and the line is cut from `src` by character: on text with
/// characters beyond ASCII this gives the line that `loc` names, where
/// cutting the text at those numbers taken as byte offsets would give
/// another stretch of it or fall inside a character.
pub fn error_line_src(src: &str, loc: Loc) -> (r: String)
    requires
        src@.len() == 0 || loc.line_start_pos <= src@.len(),
    ensures
        r@ == error_line_text(src@, loc),
{
    let cs = chars_of(src);
    if cs.len() == 0 {
        return String::new();
    }
    let a = loc.line_start_pos;
    let mut b = a;
    let mut spaces = String::new();
    let ghost s = src@;
    proof {
        lemma_line_end(s, a as int);
    }
    while b < cs.len()
        invariant
            cs@ == s,
            a <= b <= s.len(),
            b <= line_end(s, a as int),
            a <= line_end(s, a as int) <= s.len(),
            forall|k: int| a <= k < line_end(s, a as int) ==> #[trigger] s[k] != '\r' && s[k] != '\n',
            line_end(s, a as int) < s.len() ==> (s[line_end(s, a as int)] == '\r' || s[line_end(
                s,
                a as int,
            )] == '\n'),
            spaces@ == caret_pad(s, a as int, b as int, loc.pos as int),
        ensures
            b == line_end(s, a as int),
            spaces@ == caret_pad(s, a as int, b as int, loc.pos as int),
        decreases s.len() - b,
    {
        let c = cs[b];
        if c == '\r' || c == '\n' {
            break;
        }
        if b < loc.pos {
            if c == '\t' {
                push_char(&mut spaces, '\t');
            } else {
                push_char(&mut spaces, ' ');
            }
        }
        b += 1;
        proof {
            assert(spaces@ =~= caret_pad(s, a as int, b as int, loc.pos as int));
        }
    }
    let mut r = String::new();
    push_chars(&mut r, &cs.as_slice()[a..b]);
    push_char(&mut r, '\n');
    push_chars(&mut r, chars_of(spaces.as_str()).as_slice());
    push_char(&mut r, '^');
    proof {
        assert(r@ =~= error_line_text(s, loc));
    }
    r
}

/// The offsets of the line ends of `s`, in increasing order.
pub open spec fn newlines(s: Seq<char>) -> Seq<int>
    decreases s.len(),
{
    if s.len() == 0 {
        Seq::empty()
    } else if s.last() == '\n' {
        newlines(s.drop_last()).push(s.len() - 1)
    } else {
        newlines(s.drop_last())
    }
}

/// Where line `j` of a value `sub` starts, the value starting at offset
/// `pos` on a line that starts at `ls`.
pub open spec fn value_line_start(sub: Seq<char>, pos: int, ls: int, j: int) -> int {
    if j == 0 {
        ls
    } else {
        pos + newlines(sub)[j - 1] + 1
    }
}

/// The offset of column `sub_col` of line `sub_row` of a value `sub` that
/// starts at offset `pos` on a line starting at `ls`, and the start of the
/// line it is on: `sub_col` past the start of line `sub_row` when the value
/// has more than `sub_row` line ends, and else the value's end, on its last
/// line.
pub open spec fn sub_loc(sub: Seq<char>, pos: int, ls: int, sub_row: nat, sub_col: int) -> (int, int) {
    let n = newlines(sub).len();
    if sub_row < n {
        let a = value_line_start(sub, pos, ls, sub_row as int);
        (a + sub_col, a)
    } else {
        (pos + sub.len(), value_line_start(sub, pos, ls, n as int))
    }
}

/// The line ends of a prefix of `s` are the first ones of `s`.
proof fn lemma_newlines_prefix(s: Seq<char>, k: int)
    requires
        0 <= k <= s.len(),
    ensures
        newlines(s.take(k)).len() <= newlines(s).len(),
        newlines(s).take(newlines(s.take(k)).len() as int) == newlines(s.take(k)),
    decreases s.len(),
{
    if k < s.len() {
        assert(s.take(k) =~= s.drop_last().take(k));
        lemma_newlines_prefix(s.drop_last(), k);
        let p = newlines(s.drop_last());
        let m = newlines(s.take(k)).len() as int;
        if s.last() == '\n' {
            assert(newlines(s).take(m) =~= p.take(m));
        }
    } else {
        assert(s.take(k) =~= s);
        assert(newlines(s).take(newlines(s).len() as int) =~= newlines(s));
    }
}

/// The location of column `sub_col` of line `sub_row` within the text of a
/// value that runs from `val_start_loc` to `val_end_loc`: rows and columns
/// are added to the value's start, and the offset is found by counting the
/// value's lines. When line `sub_row` ends within the value, the offset is
/// `sub_col` past that line's start; otherwise (the value has `sub_row` line
/// ends or fewer) it is the value's end, on the value's last line, and the
/// line start found is that of the last line.
///
/// Offsets count characters, and the value's text is cut from `src` by
/// character, so text with characters beyond ASCII is counted as it reads
/// rather than by its bytes.
pub fn calc_loc_from_sub_row_col(
    src: &str,
    val_start_loc: Loc,
    val_end_loc: Loc,
    sub_row: usize,
    sub_col: usize,
) -> (r: Loc)
    requires
        val_start_loc.pos <= val_end_loc.pos <= src@.len(),
        val_start_loc.row + sub_row <= usize::MAX,
        val_start_loc.col + sub_col <= usize::MAX,
        val_start_loc.line_start_pos + sub_col <= usize::MAX,
        val_end_loc.pos + sub_col <= usize::MAX,
    ensures
        ({
            let res = sub_loc(
                src@.subrange(val_start_loc.pos as int, val_end_loc.pos as int),
                val_start_loc.pos as int,
                val_start_loc.line_start_pos as int,
                sub_row as nat,
                sub_col as int,
            );
            &&& r.pos == res.0
            &&& r.line_start_pos == res.1
            &&& r.row == val_start_loc.row + sub_row
            &&& r.col == val_start_loc.col + sub_col
        }),
{
    let cs = chars_of(src);
    let sub = &cs.as_slice()[val_start_loc.pos..val_end_loc.pos];
    let ghost ss = sub@;
    let ghost p0 = val_start_loc.pos as int;
    let ghost ls0 = val_start_loc.line_start_pos as int;
    let ghost target = sub_loc(ss, p0, ls0, sub_row as nat, sub_col as int);
    let mut sub_row2: usize = 0;
    let mut pos2 = val_start_loc.pos;
    let mut line_start_pos2 = val_start_loc.line_start_pos;
    let mut k: usize = 0;
    proof {
        assert(ss.take(0) =~= Seq::<char>::empty());
        assert(ss.take(ss.len() as int) =~= ss);
    }
    while k < sub.len()
        invariant_except_break
            k <= ss.len(),
            sub@ == ss,
            ss.take(ss.len() as int) == ss,
            p0 == val_start_loc.pos as int,
            ls0 == val_start_loc.line_start_pos as int,
            ss.len() == val_end_loc.pos - val_start_loc.pos,
            pos2 == val_start_loc.pos + k,
            sub_row2 <= k,
            sub_row2 <= sub_row,
            sub_row2 == newlines(ss.take(k as int)).len(),
            line_start_pos2 == (if sub_row2 == 0 {
                ls0
            } else {
                p0 + newlines(ss.take(k as int))[sub_row2 - 1] + 1
            }),
            line_start_pos2 <= val_start_loc.line_start_pos || line_start_pos2 <= pos2,
            val_start_loc.line_start_pos + sub_col <= usize::MAX,
            val_end_loc.pos + sub_col <= usize::MAX,
            target == sub_loc(ss, p0, ls0, sub_row as nat, sub_col as int),
        ensures
            target == (pos2 as int, line_start_pos2 as int),
        decreases sub.len() - k,
    {
        let c = sub[k];
        let ghost nl = newlines(ss.take(k as int));
        proof {
            assert(ss.take(k + 1).drop_last() =~= ss.take(k as int));
            assert(ss.take(k + 1).last() == c);
        }
        if c == '\n' {
            if sub_row2 == sub_row {
                proof {
                    lemma_newlines_prefix(ss, k + 1);
                    let full = newlines(ss);
                    let pre = newlines(ss.take(k + 1));
                    assert(pre == nl.push(k as int));
                    if sub_row2 > 0 {
                        assert(full[sub_row2 - 1] == full.take(pre.len() as int)[sub_row2 - 1]);
                        assert(pre[sub_row2 - 1] == nl[sub_row2 - 1]);
                    }
                }
                pos2 = line_start_pos2 + sub_col;
                break;
            }
            sub_row2 += 1;
            line_start_pos2 = pos2 + 1;
            proof {
                assert(newlines(ss.take(k + 1)) == nl.push(k as int));
            }
        } else {
            proof {
                assert(newlines(ss.take(k + 1)) == nl);
            }
        }
        pos2 += 1;
        k += 1;
    }
    Loc {
        pos: pos2,
        row: val_start_loc.row + sub_row,
        col: val_start_loc.col + sub_col,
        line_start_pos: line_start_pos2,
    }
}

} // verus!

//! The parser: from the characters of a source to a tree of records.

use vstd::prelude::*;
use crate::loc::{Loc, LocModel, loc_after};
use crate::input::{InputModel, lemma_next_synced, lemma_synced_pos, next_model};
use crate::text::chars_of;
use crate::lexer::{
    Lexer,
    matches_at,
    LexState,
    Token,
    TokenModel,
    token_opt_model,
    skip_state,
    consume_state,
    token_or_empty,
    stack_wf,
};
use crate::grammar::{
    ch,
    lc,
    is_blank,
    blank_end,
    find_nl,
    cmnt_end,
    eol_end,
    spcs_end,
    empty_lines_end,
    indent_groups,
    indent_spec,
    ErrModel,
    desc_step,
    plain_step,
    dstep,
    dbody,
    sesc_step,
    sstep,
    sbody,
    sval_head_char,
    sval_body_char,
    find_quote,
    qval_spec,
    dval_spec,
    sval_spec,
    lemma_dstep,
    lemma_sstep,
    schar_step,
    lemma_dbody,
    lemma_sbody,
    lemma_find_quote,
    bscan,
    qscan,
    block_body_start,
    back_quotes,
    back_quote_open,
    bval_spec,
    bqval_spec,
    ValRes,
    lemma_bscan,
    lemma_qscan,
    lemma_block_body_start,
    lemma_blank_end,
    lemma_find_nl,
};

verus! {

/// How a value was written: bare (unquoted), in single, double or back
/// quotes, or in curly braces.
#[derive(Debug, Clone, Copy, PartialEq, Eq, PartialOrd, Structural)]
pub enum ValueType {
    Bare,
    Quote,
    DoubleQuote,
    CurlyBrace,
    BackQuote,
}

/// A value of a record: its text, where it was written and how.
#[derive(Debug)]
pub struct Value {
    pub start_loc: Loc,
    pub end_loc: Loc,
    pub extracted: String,
    pub value_type: ValueType,
}

/// The mathematical form of a `Value`.
pub struct ValueModel {
    pub start: LocModel,
    pub end: LocModel,
    pub text: Seq<char>,
    pub value_type: ValueType,
}

impl View for Value {
    type V = ValueModel;

    open spec fn view(&self) -> ValueModel {
        ValueModel {
            start: self.start_loc@,
            end: self.end_loc@,
            text: self.extracted@,
            value_type: self.value_type,
        }
    }
}

/// One line of a configuration: its values, the record it is nested under,
/// and the records nested under it, by index.
#[derive(Debug, Default)]
pub struct Record {
    pub values: Vec<Value>,
    pub parent: Option<usize>,
    pub children: Vec<usize>,
}

/// The mathematical form of a `Record`.
pub struct RecordModel {
    pub values: Seq<ValueModel>,
    pub parent: Option<usize>,
    pub children: Seq<usize>,
}

impl View for Record {
    type V = RecordModel;

    open spec fn view(&self) -> RecordModel {
        RecordModel {
            values: self.values@.map_values(|v: Value| v@),
            parent: self.parent,
            children: self.children@,
        }
    }
}

/// The models of a list of records.
pub open spec fn records_model(rs: Seq<Record>) -> Seq<RecordModel> {
    rs.map_values(|r: Record| r@)
}

/// A value made from a token.
pub fn token_to_value(token: Token, value_type: ValueType) -> (r: Value)
    ensures
        r@ == (ValueModel {
            start: token@.start,
            end: token@.end,
            text: token@.text,
            value_type,
        }),
{
    Value {
        start_loc: token.start_loc,
        end_loc: token.end_loc,
        extracted: token.extracted,
        value_type,
    }
}

/// The state `st` with its cursor moved to offset `q` and its location
/// following.
pub open spec fn moved(st: LexState, q: int) -> LexState {
    LexState {
        input: InputModel {
            chars: st.input.chars,
            idx: q as nat,
            loc: loc_after(st.input.chars.take(q)),
        },
        token: st.token,
    }
}

/// The lexer is well formed and its location follows its offset.
pub open spec fn ready(lex: Lexer) -> bool {
    &&& lex.wf()
    &&& lex.top().input.synced()
    &&& lex.top().input.chars == lex.src()
}

/// `b` differs from `a` at most in its top state.
pub open spec fn same_below(a: Seq<LexState>, b: Seq<LexState>) -> bool {
    &&& a.len() == b.len()
    &&& a.drop_last() == b.drop_last()
}

/// Skipping `n` characters that are all there moves a synced state to the
/// offset after them.
pub proof fn lemma_skip(st: LexState, n: nat)
    requires
        st.input.wf(),
        st.input.synced(),
        st.input.idx + n <= st.input.chars.len(),
    ensures
        skip_state(st, n) == moved(st, (st.input.idx + n) as int),
        moved(st, (st.input.idx + n) as int).input.wf(),
        moved(st, (st.input.idx + n) as int).input.synced(),
{
    lemma_next_synced(st.input, n);
}

/// Consuming `n` characters that are all there moves a synced state to the
/// offset after them and extends the token.
pub proof fn lemma_consume(st: LexState, n: nat, rep: Option<Seq<char>>)
    requires
        st.input.wf(),
        st.input.synced(),
        st.input.idx + n <= st.input.chars.len(),
    ensures
        consume_state(st, n, rep).input == moved(st, (st.input.idx + n) as int).input,
        consume_state(st, n, rep).token == Some(
            TokenModel {
                start: token_or_empty(st).start,
                end: lc(st.input.chars, (st.input.idx + n) as int),
                text: token_or_empty(st).text + match rep {
                    Some(r) => r,
                    None => st.input.chars.subrange(st.input.idx as int, (st.input.idx + n) as int),
                },
            },
        ),
        moved(st, (st.input.idx + n) as int).input.wf(),
        moved(st, (st.input.idx + n) as int).input.synced(),
{
    lemma_next_synced(st.input, n);
}

/// How a value rule's result and the lexer after it follow from the rule's
/// meaning: nothing read, a value whose token is now the current one with
/// the cursor after it, or the same error with the lexer as it was.
pub open spec fn val_outcome(
    before: Lexer,
    after: Lexer,
    r: Result<bool, (Loc, &'static str)>,
    spec: Result<Option<(int, TokenModel)>, ErrModel>,
) -> bool {
    match spec {
        Ok(None) => r == Ok::<bool, (Loc, &'static str)>(false) && after.states() == before.states(),
        Ok(Some((e, t))) => r == Ok::<bool, (Loc, &'static str)>(true) && after.top() == (LexState {
            input: moved(before.top(), e).input,
            token: Some(t),
        }),
        Err(x) => r matches Err(y) && err_model(y) == x && after.states() == before.states(),
    }
}

/// Skips `n` characters that are known to be in the text.
fn skip_known(lexer: &mut Lexer, n: usize)
    requires
        ready(*old(lexer)),
        old(lexer).top().input.idx + n <= old(lexer).src().len(),
    ensures
        ready(*final(lexer)),
        final(lexer).src() == old(lexer).src(),
        same_below(old(lexer).states(), final(lexer).states()),
        final(lexer).top() == moved(old(lexer).top(), old(lexer).top().input.idx + n),
{
    proof {
        lemma_skip(lexer.top(), n as nat);
    }
    lexer.skip(n);
    assert(final(lexer).states().drop_last() =~= old(lexer).states().drop_last());
}

/// Consumes `n` characters that are known to be in the text into the token,
/// or `replace` in their place.
fn consume_known(lexer: &mut Lexer, n: usize, replace: Option<&str>)
    requires
        ready(*old(lexer)),
        old(lexer).top().input.idx + n <= old(lexer).src().len(),
    ensures
        ready(*final(lexer)),
        final(lexer).src() == old(lexer).src(),
        same_below(old(lexer).states(), final(lexer).states()),
        final(lexer).top().input == moved(
            old(lexer).top(),
            old(lexer).top().input.idx + n,
        ).input,
        final(lexer).top().token == Some(
            TokenModel {
                start: token_or_empty(old(lexer).top()).start,
                end: lc(old(lexer).src(), old(lexer).top().input.idx + n),
                text: token_or_empty(old(lexer).top()).text + match replace {
                    Some(r) => r@,
                    None => old(lexer).src().subrange(
                        old(lexer).top().input.idx as int,
                        old(lexer).top().input.idx + n,
                    ),
                },
            },
        ),
{
    proof {
        lemma_consume(
            lexer.top(),
            n as nat,
            match replace {
                Some(r) => Some(r@),
                None => None,
            },
        );
    }
    lexer.consume(n, replace);
    assert(final(lexer).states().drop_last() =~= old(lexer).states().drop_last());
}

/// A comment, from `#` to the end of the line.
fn parse_cmnt(lexer: &mut Lexer) -> (r: bool)
    requires
        ready(*old(lexer)),
    ensures
        ready(*final(lexer)),
        same_below(old(lexer).states(), final(lexer).states()),
        r == (ch(old(lexer).src(), old(lexer).top().input.idx as int) == Some('#')),
        final(lexer).top() == moved(
            old(lexer).top(),
            cmnt_end(old(lexer).src(), old(lexer).top().input.idx as int),
        ),
{
    let ghost s = lexer.src();
    let ghost p = lexer.top().input.idx as int;
    let ghost top0 = lexer.top();
    let ghost below = lexer.states().drop_last();
    match lexer.getc(0) {
        Some(c) => {
            if c != '#' {
                assert(lexer.top() == moved(top0, p));
                return false;
            }
        },
        None => {
            assert(lexer.top() == moved(top0, p));
            return false;
        },
    }
    proof {
        lemma_skip(lexer.top(), 1);
        lemma_find_nl(s, p + 1);
    }
    lexer.skip(1);
    assert(lexer.states().drop_last() =~= below);
    loop
        invariant_except_break
            ready(*lexer),
            lexer.src() == s,
            lexer.states().drop_last() == below,
            lexer.states().len() == below.len() + 1,
            p + 1 <= lexer.top().input.idx <= find_nl(s, p + 1),
            find_nl(s, lexer.top().input.idx as int) == find_nl(s, p + 1),
            lexer.top() == moved(top0, lexer.top().input.idx as int),
        ensures
            ready(*lexer),
            lexer.states().drop_last() == below,
            lexer.states().len() == below.len() + 1,
            lexer.top() == moved(top0, find_nl(s, p + 1)),
        decreases s.len() - lexer.top().input.idx,
    {
        let ghost q = lexer.top().input.idx as int;
        match lexer.getc(0) {
            Some(c) => {
                if c == '\n' {
                    break;
                }
                proof {
                    lemma_skip(lexer.top(), 1);
                    lemma_find_nl(s, q + 1);
                }
                lexer.skip(1);
                assert(lexer.states().drop_last() =~= below);
            },
            None => {
                break;
            },
        }
    }
    true
}

/// An end of line, `\n` or `\r\n`.
fn parse_eol(lexer: &mut Lexer) -> (r: bool)
    requires
        ready(*old(lexer)),
    ensures
        ready(*final(lexer)),
        final(lexer).src() == old(lexer).src(),
        same_below(old(lexer).states(), final(lexer).states()),
        r == (eol_end(old(lexer).src(), old(lexer).top().input.idx as int) is Some),
        final(lexer).top() == moved(
            old(lexer).top(),
            match eol_end(old(lexer).src(), old(lexer).top().input.idx as int) {
                Some(e) => e,
                None => old(lexer).top().input.idx as int,
            },
        ),
{
    let ghost top0 = lexer.top();
    let c0 = lexer.getc(0);
    if c0 == Some('\n') {
        skip_known(lexer, 1);
        return true;
    }
    if c0 == Some('\r') && lexer.getc(1) == Some('\n') {
        skip_known(lexer, 2);
        return true;
    }
    assert(lexer.top() == moved(top0, top0.input.idx as int));
    false
}

/// Separating space: spaces, tabs and backslash line continuations. Returns
/// whether any was found.
fn parse_spcs(lexer: &mut Lexer) -> (r: bool)
    requires
        ready(*old(lexer)),
    ensures
        ready(*final(lexer)),
        final(lexer).src() == old(lexer).src(),
        same_below(old(lexer).states(), final(lexer).states()),
        r == (spcs_end(old(lexer).src(), old(lexer).top().input.idx as int)
            != old(lexer).top().input.idx),
        final(lexer).top() == moved(
            old(lexer).top(),
            spcs_end(old(lexer).src(), old(lexer).top().input.idx as int),
        ),
{
    let ghost s = lexer.src();
    let ghost p = lexer.top().input.idx as int;
    let ghost top0 = lexer.top();
    let ghost st0 = lexer.states();
    let mut found = false;
    assert(lexer.top() == moved(top0, p));
    loop
        invariant
            ready(*lexer),
            lexer.src() == s,
            same_below(st0, lexer.states()),
            p <= lexer.top().input.idx,
            spcs_end(s, lexer.top().input.idx as int) == spcs_end(s, p),
            found == (lexer.top().input.idx != p),
            lexer.top() == moved(top0, lexer.top().input.idx as int),
        ensures
            ready(*lexer),
            lexer.src() == s,
            same_below(st0, lexer.states()),
            spcs_end(s, p) == lexer.top().input.idx,
            found == (lexer.top().input.idx != p),
            lexer.top() == moved(top0, lexer.top().input.idx as int),
        decreases s.len() - lexer.top().input.idx,
    {
        let ghost q = lexer.top().input.idx as int;
        match lexer.getc(0) {
            Some(c) => {
                if c == ' ' || c == '\t' {
                    skip_known(lexer, 1);
                    found = true;
                } else if c == '\\' {
                    let c1 = lexer.getc(1);
                    if c1 == Some('\n') {
                        skip_known(lexer, 2);
                        found = true;
                    } else if c1 == Some('\r') && lexer.getc(2) == Some('\n') {
                        skip_known(lexer, 3);
                        found = true;
                    } else {
                        break;
                    }
                } else {
                    break;
                }
            },
            None => {
                break;
            },
        }
    }
    found
}

/// Blank lines and comment lines, up to the next line with content.
fn parse_empty_lines(lexer: &mut Lexer)
    requires
        ready(*old(lexer)),
    ensures
        ready(*final(lexer)),
        final(lexer).src() == old(lexer).src(),
        same_below(old(lexer).states(), final(lexer).states()),
        final(lexer).top() == moved(
            old(lexer).top(),
            empty_lines_end(old(lexer).src(), old(lexer).top().input.idx as int),
        ),
{
    let ghost s = lexer.src();
    let ghost p = lexer.top().input.idx as int;
    let ghost top0 = lexer.top();
    let ghost st0 = lexer.states();
    assert(lexer.top() == moved(top0, p));
    while !lexer.is_end()
        invariant_except_break
            ready(*lexer),
            lexer.src() == s,
            same_below(st0, lexer.states()),
            p <= lexer.top().input.idx <= s.len(),
            empty_lines_end(s, lexer.top().input.idx as int) == empty_lines_end(s, p),
            lexer.top() == moved(top0, lexer.top().input.idx as int),
        ensures
            ready(*lexer),
            lexer.src() == s,
            same_below(st0, lexer.states()),
            empty_lines_end(s, p) == lexer.top().input.idx,
            lexer.top() == moved(top0, lexer.top().input.idx as int),
        decreases s.len() - lexer.top().input.idx,
    {
        let ghost q = lexer.top().input.idx as int;
        let mut i: usize = 0;
        loop
            invariant
                ready(*lexer),
                lexer.top().input.idx == q,
                lexer.src() == s,
                q + i <= s.len(),
                blank_end(s, q + i) == blank_end(s, q),
            ensures
                q + i == blank_end(s, q),
            decreases s.len() - i,
        {
            match lexer.getc(i) {
                Some(c) => {
                    if c == ' ' || c == '\t' {
                        i = i + 1;
                    } else {
                        break;
                    }
                },
                None => {
                    break;
                },
            }
        }
        proof {
            lemma_blank_end(s, q);
        }
        if lexer.getc(i) == Some('#') {
            let ghost k = find_nl(s, q + i);
            proof {
                lemma_find_nl(s, q + i);
            }
            let mut j: usize = i;
            loop
                invariant_except_break
                    ready(*lexer),
                    lexer.top().input.idx == q,
                    lexer.src() == s,
                    q + i <= q + j <= k,
                    k <= s.len(),
                    k < s.len() ==> s[k] == '\n',
                    forall|t: int| q + i <= t < k ==> #[trigger] s[t] != '\n',
                ensures
                    ready(*lexer),
                    lexer.top().input.idx == q,
                    lexer.src() == s,
                    (q + j == k + 1 && k < s.len()) || (q + j == s.len() && k == s.len()),
                decreases s.len() - j,
            {
                let c0 = lexer.getc(j);
                if c0 == Some('\r') && lexer.getc(j + 1) == Some('\n') {
                    proof {
                        assert(s[q + j] == '\r');
                        assert(s[q + j + 1] == '\n');
                        assert(k != q + j);
                    }
                    j = j + 2;
                    break;
                } else if c0 == Some('\n') {
                    proof {
                        assert(s[q + j] == '\n');
                    }
                    j = j + 1;
                    break;
                } else if c0.is_some() {
                    proof {
                        assert(s[q + j] != '\n');
                    }
                    j = j + 1;
                } else {
                    break;
                }
            }
            skip_known(lexer, j);
        } else {
            let c0 = lexer.getc(i);
            if c0 == Some('\r') && lexer.getc(i + 1) == Some('\n') {
                skip_known(lexer, i + 2);
            } else if c0 == Some('\n') {
                skip_known(lexer, i + 1);
            } else {
                break;
            }
        }
    }
}

/// The model of a parse error.
pub open spec fn err_model(e: (Loc, &'static str)) -> ErrModel {
    (e.0@, e.1)
}

/// `k` spaces.
pub open spec fn spaces(k: nat) -> Seq<char> {
    Seq::new(k, |_i: int| ' ')
}

/// The indent of a record line: groups of four spaces, at most one more
/// than the indent of the previous record, and none before the first record.
fn parse_indent(lexer: &mut Lexer, has_a_record: bool, last_indent: usize) -> (r: Result<
    Option<usize>,
    (Loc, &'static str),
>)
    requires
        ready(*old(lexer)),
        old(lexer).top().token is None,
    ensures
        ready(*final(lexer)),
        final(lexer).src() == old(lexer).src(),
        same_below(old(lexer).states(), final(lexer).states()),
        match indent_spec(
            old(lexer).src(),
            old(lexer).top().input.idx as int,
            has_a_record,
            last_indent as nat,
        ) {
            Ok(k) => r == Ok::<Option<usize>, (Loc, &'static str)>(Some(k as usize))
                && final(lexer).top() == moved(
                old(lexer).top(),
                (old(lexer).top().input.idx + 4 * k) as int,
            ),
            Err(e) => r matches Err(x) && err_model(x) == e,
        },
{
    let ghost s = lexer.src();
    let ghost p = lexer.top().input.idx as int;
    let ghost top0 = lexer.top();
    let ghost st0 = lexer.states();
    let mut k: usize = 0;
    loop
        invariant
            ready(*lexer),
            lexer.src() == s,
            same_below(st0, lexer.states()),
            lexer.top().input.idx == p + 4 * k,
            indent_groups(s, p) == k + indent_groups(s, p + 4 * k),
            lexer.top().input == moved(top0, p + 4 * k).input,
            k == 0 ==> lexer.top().token is None,
            k > 0 ==> lexer.top().token == Some(
                TokenModel { start: lc(s, p), end: lc(s, p + 4 * k), text: spaces(k as nat) },
            ),
        ensures
            indent_groups(s, p + 4 * k) == 0,
        decreases s.len() - lexer.top().input.idx,
    {
        if lexer.getc(0) == Some(' ') && lexer.getc(1) == Some(' ') && lexer.getc(2) == Some(' ')
            && lexer.getc(3) == Some(' ') {
            let ghost before = lexer.top();
            consume_known(lexer, 4, Some(" "));
            proof {
                reveal_strlit(" ");
                if k == 0 {
                    crate::input::lemma_synced_pos(before.input);
                }
                assert(token_or_empty(before).text + " "@ =~= spaces((k + 1) as nat));
            }
            k = k + 1;
        } else {
            break;
        }
    }
    proof {
        assert(indent_groups(s, p + 4 * k) == 0);
    }
    let c0 = lexer.getc(0);
    if c0 == Some(' ') || c0 == Some('\t') {
        return Err((lexer.loc(), "indents must be four spaces"));
    }
    let ghost before = lexer.top();
    consume_known(lexer, 0, None);
    let ghost mid = lexer.states();
    let tok = lexer.token();
    assert(lexer.states().drop_last() =~= mid.drop_last());
    let indent = match tok {
        Some(t) => crate::text::chars_of(t.extracted.as_str()).len(),
        None => 0,
    };
    proof {
        if k == 0 {
            crate::input::lemma_synced_pos(before.input);
        }
        assert(indent == k);
    }
    if (!has_a_record && indent > 0) || (indent > 0 && indent - 1 > last_indent) {
        return Err((lexer.loc(), "too many indents"));
    }
    Ok(Some(indent))
}

/// `st` after its token was extended by `t`, ending at offset `q` where the
/// cursor now is.
pub open spec fn extended(st: LexState, q: int, t: Seq<char>) -> LexState {
    LexState {
        input: moved(st, q).input,
        token: Some(
            TokenModel {
                start: token_or_empty(st).start,
                end: loc_after(st.input.chars.take(q)),
                text: token_or_empty(st).text + t,
            },
        ),
    }
}

/// `st` after a step that may have read a piece of a value.
pub open spec fn stepped(st: LexState, r: Option<(int, Seq<char>)>) -> LexState {
    match r {
        Some((q, t)) => extended(st, q, t),
        None => st,
    }
}

/// A character of a single quoted value.
fn parse_qval_char(lexer: &mut Lexer) -> (r: bool)
    requires
        ready(*old(lexer)),
    ensures
        ready(*final(lexer)),
        final(lexer).src() == old(lexer).src(),
        same_below(old(lexer).states(), final(lexer).states()),
        r == (plain_step(old(lexer).src(), old(lexer).top().input.idx as int, '\'') is Some),
        final(lexer).top() == stepped(
            old(lexer).top(),
            plain_step(old(lexer).src(), old(lexer).top().input.idx as int, '\''),
        ),
{
    let ghost p = lexer.top().input.idx as int;
    if let Some(c) = lexer.getc(0) {
        if c != '\'' {
            proof {
                assert(lexer.src().subrange(p, p + 1) =~= seq![c]);
            }
            consume_known(lexer, 1, None);
            return true;
        }
    }
    false
}

/// A character of a double quoted value.
fn parse_dval_char(lexer: &mut Lexer) -> (r: bool)
    requires
        ready(*old(lexer)),
    ensures
        ready(*final(lexer)),
        final(lexer).src() == old(lexer).src(),
        same_below(old(lexer).states(), final(lexer).states()),
        r == (plain_step(old(lexer).src(), old(lexer).top().input.idx as int, '"') is Some),
        final(lexer).top() == stepped(
            old(lexer).top(),
            plain_step(old(lexer).src(), old(lexer).top().input.idx as int, '"'),
        ),
{
    let ghost p = lexer.top().input.idx as int;
    if let Some(c) = lexer.getc(0) {
        if c != '"' {
            proof {
                assert(lexer.src().subrange(p, p + 1) =~= seq![c]);
            }
            consume_known(lexer, 1, None);
            return true;
        }
    }
    false
}

/// An escape in a double quoted value.
fn parse_desc(lexer: &mut Lexer) -> (r: bool)
    requires
        ready(*old(lexer)),
    ensures
        ready(*final(lexer)),
        final(lexer).src() == old(lexer).src(),
        same_below(old(lexer).states(), final(lexer).states()),
        r == (desc_step(old(lexer).src(), old(lexer).top().input.idx as int) is Some),
        final(lexer).top() == stepped(
            old(lexer).top(),
            desc_step(old(lexer).src(), old(lexer).top().input.idx as int),
        ),
{
    proof {
        reveal_strlit("");
        reveal_strlit(" ");
        reveal_strlit("\t");
        reveal_strlit("\r");
        reveal_strlit("\n");
    }
    let ghost p = lexer.top().input.idx as int;
    let ghost s = lexer.src();
    let ghost want = stepped(lexer.top(), desc_step(s, p));
    if lexer.getc(0) == Some('\\') {
        match lexer.getc(1) {
            Some(c) => {
                if c == '\n' {
                    proof { reveal_strlit(""); assert(""@ =~= Seq::<char>::empty()); }
                    consume_known(lexer, 2, Some(""));
                } else if c == '\r' {
                    if lexer.getc(2) == Some('\n') {
                        proof { reveal_strlit(""); assert(""@ =~= Seq::<char>::empty()); }
                        consume_known(lexer, 3, Some(""));
                    } else {
                        return false;
                    }
                } else if c == 's' {
                    proof { reveal_strlit(" "); assert(" "@ =~= seq![' ']); }
                    consume_known(lexer, 2, Some(" "));
                } else if c == 't' {
                    proof { reveal_strlit("\t"); assert("\t"@ =~= seq!['\t']); }
                    consume_known(lexer, 2, Some("\t"));
                } else if c == 'r' {
                    proof { reveal_strlit("\r"); assert("\r"@ =~= seq!['\r']); }
                    consume_known(lexer, 2, Some("\r"));
                } else if c == 'n' {
                    proof { reveal_strlit("\n"); assert("\n"@ =~= seq!['\n']); }
                    consume_known(lexer, 2, Some("\n"));
                } else {
                    let arr = [c];
                    let cs = crate::text::string_from_chars(&arr);
                    assert(cs@ =~= seq![c]);
                    consume_known(lexer, 2, Some(cs.as_str()));
                }
            },
            None => {
                assert(s.subrange(p, p + 1) =~= seq!['\\']);
                consume_known(lexer, 1, None);
                    assert(lexer.top() == want);
            },
        }
        return true;
    }
    false
}

/// A value in single quotes.
fn parse_qval(lexer: &mut Lexer) -> (r: Result<bool, (Loc, &'static str)>)
    requires
        ready(*old(lexer)),
        old(lexer).top().token is None,
    ensures
        ready(*final(lexer)),
        final(lexer).src() == old(lexer).src(),
        same_below(old(lexer).states(), final(lexer).states()),
        val_outcome(*old(lexer), *final(lexer), r, qval_spec(old(lexer).src(), old(lexer).top().input.idx as int)),
{
    let ghost s = lexer.src();
    let ghost p = lexer.top().input.idx as int;
    let ghost st0 = lexer.states();
    if lexer.getc(0) == Some('\'') {
        lexer.push();
        skip_known(lexer, 1);
        consume_known(lexer, 0, None);
        proof {
            lemma_synced_pos(lexer.top().input);
            assert(s.subrange(p + 1, p + 1) =~= Seq::<char>::empty());
        }
        loop
            invariant
                ready(*lexer),
                lexer.src() == s,
                lexer.states().len() == st0.len() + 1,
                lexer.states().drop_last() == st0,
                0 <= p,
                p + 1 <= lexer.top().input.idx <= s.len(),
                find_quote(s, p + 1) == find_quote(s, lexer.top().input.idx as int),
                forall|t: int| p + 1 <= t < lexer.top().input.idx ==> #[trigger] s[t] != '\'',
                lexer.top() == (LexState {
                    input: moved(lexer.top(), lexer.top().input.idx as int).input,
                    token: Some(
                        TokenModel {
                            start: lc(s, p + 1),
                            end: lc(s, lexer.top().input.idx as int),
                            text: s.subrange(p + 1, lexer.top().input.idx as int),
                        },
                    ),
                }),
            ensures
                ready(*lexer),
                lexer.src() == s,
                lexer.states().len() == st0.len() + 1,
                lexer.states().drop_last() == st0,
                p + 1 <= lexer.top().input.idx <= s.len(),
                find_quote(s, p + 1) == find_quote(s, lexer.top().input.idx as int),
                plain_step(s, lexer.top().input.idx as int, '\'') is None,
                lexer.top() == (LexState {
                    input: moved(lexer.top(), lexer.top().input.idx as int).input,
                    token: Some(
                        TokenModel {
                            start: lc(s, p + 1),
                            end: lc(s, lexer.top().input.idx as int),
                            text: s.subrange(p + 1, lexer.top().input.idx as int),
                        },
                    ),
                }),
            decreases s.len() - lexer.top().input.idx,
        {
            let ghost j = lexer.top().input.idx as int;
            if !parse_qval_char(lexer) {
                break;
            }
            proof {
                assert(j < s.len());
                assert(s.subrange(p + 1, j + 1) =~= s.subrange(p + 1, j) + seq![s[j]]);
            }
        }
        if lexer.getc(0) == Some('\'') {
            skip_known(lexer, 1);
            lexer.pop_keep();
            assert(lexer.states().drop_last() =~= st0.drop_last());
            return Ok(true);
        } else {
            lexer.pop_discard();
            return Err((lexer.loc(), "expecting closing quote"));
        }
    } else {
        return Ok(false);
    }
}

/// A value in double quotes, with escapes.
fn parse_dval(lexer: &mut Lexer) -> (r: Result<bool, (Loc, &'static str)>)
    requires
        ready(*old(lexer)),
        old(lexer).top().token is None,
    ensures
        ready(*final(lexer)),
        final(lexer).src() == old(lexer).src(),
        same_below(old(lexer).states(), final(lexer).states()),
        val_outcome(*old(lexer), *final(lexer), r, dval_spec(old(lexer).src(), old(lexer).top().input.idx as int)),
{
    let ghost s = lexer.src();
    let ghost p = lexer.top().input.idx as int;
    let ghost st0 = lexer.states();
    if lexer.getc(0) == Some('"') {
        lexer.push();
        skip_known(lexer, 1);
        consume_known(lexer, 0, None);
        proof {
            lemma_synced_pos(lexer.top().input);
            lemma_dbody(s, p + 1);
            assert(Seq::<char>::empty() + dbody(s, p + 1).1 =~= dbody(s, p + 1).1);
        }
        loop
            invariant
                ready(*lexer),
                lexer.src() == s,
                lexer.states().len() == st0.len() + 1,
                lexer.states().drop_last() == st0,
                0 <= p,
                p + 1 <= lexer.top().input.idx <= s.len(),
                dbody(s, p + 1).0 == dbody(s, lexer.top().input.idx as int).0,
                lexer.top().token matches Some(t) && t.start == lc(s, p + 1) && t.end == lc(
                    s,
                    lexer.top().input.idx as int,
                ) && t.text + dbody(s, lexer.top().input.idx as int).1 == dbody(s, p + 1).1,
            ensures
                ready(*lexer),
                lexer.src() == s,
                lexer.states().len() == st0.len() + 1,
                lexer.states().drop_last() == st0,
                dbody(s, p + 1).0 == lexer.top().input.idx,
                lexer.top().token matches Some(t) && t.start == lc(s, p + 1) && t.end == lc(
                    s,
                    lexer.top().input.idx as int,
                ) && t.text == dbody(s, p + 1).1,
            decreases s.len() - lexer.top().input.idx,
        {
            let ghost j = lexer.top().input.idx as int;
            let ghost t0 = lexer.top().token.unwrap().text;
            proof {
                lemma_dbody(s, j);
            }
            if parse_desc(lexer) {
            } else if parse_dval_char(lexer) {
            } else {
                proof {
                    assert(dbody(s, j).1 =~= Seq::<char>::empty());
                    assert(t0 + dbody(s, j).1 =~= t0);
                }
                break;
            }
            proof {
                let (j2, t) = dstep(s, j).unwrap();
                lemma_dstep(s, j);
                assert(t0 + (t + dbody(s, j2).1) =~= (t0 + t) + dbody(s, j2).1);
            }
        }
        if lexer.getc(0) == Some('"') {
            skip_known(lexer, 1);
            lexer.pop_keep();
            assert(lexer.states().drop_last() =~= st0.drop_last());
            return Ok(true);
        } else {
            lexer.pop_discard();
            return Err((lexer.loc(), "expecting closing double quote"));
        }
    } else {
        return Ok(false);
    }
}

/// An escape in an unquoted value.
fn parse_sesc(lexer: &mut Lexer) -> (r: bool)
    requires
        ready(*old(lexer)),
    ensures
        ready(*final(lexer)),
        final(lexer).src() == old(lexer).src(),
        same_below(old(lexer).states(), final(lexer).states()),
        r == (sesc_step(old(lexer).src(), old(lexer).top().input.idx as int) is Some),
        final(lexer).top() == stepped(
            old(lexer).top(),
            sesc_step(old(lexer).src(), old(lexer).top().input.idx as int),
        ),
{
    let ghost p = lexer.top().input.idx as int;
    let ghost s = lexer.src();
    if lexer.getc(0) == Some('\\') {
        match lexer.getc(1) {
            Some(c) => {
                if c == '\n' {
                    proof { reveal_strlit(""); assert(""@ =~= Seq::<char>::empty()); }
                    consume_known(lexer, 2, Some(""));
                } else if c == '\r' {
                    if lexer.getc(2) == Some('\n') {
                        proof { reveal_strlit(""); assert(""@ =~= Seq::<char>::empty()); }
                        consume_known(lexer, 3, Some(""));
                    } else {
                        return false;
                    }
                } else if c == ' ' || c == '\t' {
                    let arr = [c];
                    let cs = crate::text::string_from_chars(&arr);
                    assert(cs@ =~= seq![c]);
                    consume_known(lexer, 2, Some(cs.as_str()));
                } else {
                    assert(s.subrange(p, p + 2) =~= seq!['\\', c]);
                    consume_known(lexer, 2, None);
                }
            },
            None => {
                assert(s.subrange(p, p + 1) =~= seq!['\\']);
                consume_known(lexer, 1, None);
            },
        }
        return true;
    }
    false
}

/// The first plain character of an unquoted value.
fn parse_sval_char0(lexer: &mut Lexer) -> (r: bool)
    requires
        ready(*old(lexer)),
    ensures
        ready(*final(lexer)),
        final(lexer).src() == old(lexer).src(),
        same_below(old(lexer).states(), final(lexer).states()),
        r == (schar_step(old(lexer).src(), old(lexer).top().input.idx as int, true) is Some),
        final(lexer).top() == stepped(
            old(lexer).top(),
            schar_step(old(lexer).src(), old(lexer).top().input.idx as int, true),
        ),
{
    let ghost p = lexer.top().input.idx as int;
    if let Some(c) = lexer.getc(0) {
        if c == ' ' || c == '\t' || c == '\r' || c == '\n' || c == '{' || c == '\'' || c == '"'
            || c == '#' {
        } else {
            proof {
                assert(lexer.src().subrange(p, p + 1) =~= seq![c]);
            }
            consume_known(lexer, 1, None);
            return true;
        }
    }
    false
}

/// A following plain character of an unquoted value.
fn parse_sval_charn(lexer: &mut Lexer) -> (r: bool)
    requires
        ready(*old(lexer)),
    ensures
        ready(*final(lexer)),
        final(lexer).src() == old(lexer).src(),
        same_below(old(lexer).states(), final(lexer).states()),
        r == (schar_step(old(lexer).src(), old(lexer).top().input.idx as int, false) is Some),
        final(lexer).top() == stepped(
            old(lexer).top(),
            schar_step(old(lexer).src(), old(lexer).top().input.idx as int, false),
        ),
{
    let ghost p = lexer.top().input.idx as int;
    if let Some(c) = lexer.getc(0) {
        if c == ' ' || c == '\t' || c == '\r' || c == '\n' {
        } else {
            proof {
                assert(lexer.src().subrange(p, p + 1) =~= seq![c]);
            }
            consume_known(lexer, 1, None);
            return true;
        }
    }
    false
}

/// An unquoted value: an escape or a character that may start one, then
/// escapes and characters up to a space or line end.
fn parse_sval(lexer: &mut Lexer) -> (r: Result<bool, (Loc, &'static str)>)
    requires
        ready(*old(lexer)),
        old(lexer).top().token is None,
    ensures
        ready(*final(lexer)),
        final(lexer).src() == old(lexer).src(),
        same_below(old(lexer).states(), final(lexer).states()),
        val_outcome(*old(lexer), *final(lexer), r, sval_spec(old(lexer).src(), old(lexer).top().input.idx as int)),
{
    let ghost s = lexer.src();
    let ghost p = lexer.top().input.idx as int;
    let ghost st0 = lexer.states();
    let first = if parse_sesc(lexer) {
        true
    } else {
        parse_sval_char0(lexer)
    };
    if first {
        let ghost (j0, t0) = sstep(s, p, true).unwrap();
        proof {
            lemma_sstep(s, p, true);
            lemma_synced_pos(st0.last().input);
            lemma_sbody(s, j0);
        }
        loop
            invariant
                ready(*lexer),
                lexer.src() == s,
                same_below(st0, lexer.states()),
                0 <= p,
                j0 <= lexer.top().input.idx <= s.len(),
                sbody(s, j0).0 == sbody(s, lexer.top().input.idx as int).0,
                lexer.top().token matches Some(t) && t.start == lc(s, p) && t.end == lc(
                    s,
                    lexer.top().input.idx as int,
                ) && t.text + sbody(s, lexer.top().input.idx as int).1 == t0 + sbody(s, j0).1,
            ensures
                ready(*lexer),
                lexer.src() == s,
                same_below(st0, lexer.states()),
                sbody(s, j0).0 == lexer.top().input.idx,
                lexer.top().token matches Some(t) && t.start == lc(s, p) && t.end == lc(
                    s,
                    lexer.top().input.idx as int,
                ) && t.text == t0 + sbody(s, j0).1,
            decreases s.len() - lexer.top().input.idx,
        {
            let ghost j = lexer.top().input.idx as int;
            let ghost tt = lexer.top().token.unwrap().text;
            proof {
                lemma_sbody(s, j);
            }
            let more = if parse_sesc(lexer) {
                true
            } else {
                parse_sval_charn(lexer)
            };
            if !more {
                proof {
                    assert(sbody(s, j).1 =~= Seq::<char>::empty());
                    assert(tt + sbody(s, j).1 =~= tt);
                }
                break;
            }
            proof {
                let (j2, t) = sstep(s, j, false).unwrap();
                lemma_sstep(s, j, false);
                assert(tt + (t + sbody(s, j2).1) =~= (tt + t) + sbody(s, j2).1);
            }
        }
        proof {
            assert(lexer.top().input =~= moved(st0.last(), lexer.top().input.idx as int).input);
        }
        Ok(true)
    } else {
        proof {
            assert(lexer.top() == st0.last());
            assert(lexer.states().drop_last() == st0.drop_last());
            assert(lexer.states().len() == st0.len());
            assert forall|k: int| 0 <= k < st0.len() implies lexer.states()[k] == st0[k] by {
                if k < st0.len() - 1 {
                    assert(lexer.states().drop_last()[k] == st0.drop_last()[k]);
                }
            }
            assert(lexer.states() =~= st0);
        }
        Ok(false)
    }
}

/// Skips blanks and then one end of line right after an opening, if there is
/// one: the start of a block body.
fn skip_block_start(lexer: &mut Lexer)
    requires
        ready(*old(lexer)),
    ensures
        ready(*final(lexer)),
        final(lexer).src() == old(lexer).src(),
        same_below(old(lexer).states(), final(lexer).states()),
        final(lexer).top() == moved(
            old(lexer).top(),
            block_body_start(old(lexer).src(), old(lexer).top().input.idx as int),
        ),
{
    let ghost s = lexer.src();
    let ghost p = lexer.top().input.idx as int;
    proof {
        lemma_synced_pos(lexer.top().input);
        lemma_blank_end(s, p);
    }
    let mut i: usize = 0;
    loop
        invariant
            ready(*lexer),
            lexer.top().input.idx == p,
            lexer.src() == s,
            0 <= p,
            p + i <= s.len(),
            blank_end(s, p + i) == blank_end(s, p),
        ensures
            p + i == blank_end(s, p),
        decreases s.len() - i,
    {
        match lexer.getc(i) {
            Some(c) => {
                if c == ' ' || c == '\t' {
                    i = i + 1;
                } else {
                    break;
                }
            },
            None => {
                break;
            },
        }
    }
    let c0 = lexer.getc(i);
    if c0 == Some('\n') {
        skip_known(lexer, i + 1);
    } else if c0 == Some('\r') && lexer.getc(i + 1) == Some('\n') {
        skip_known(lexer, i + 2);
    } else {
        assert(lexer.top() == moved(lexer.top(), p));
    }
}

/// A value in curly braces, which may span lines and hold nested braces.
fn parse_bval(lexer: &mut Lexer) -> (r: Result<bool, (Loc, &'static str)>)
    requires
        ready(*old(lexer)),
        old(lexer).top().token is None,
    ensures
        ready(*final(lexer)),
        final(lexer).src() == old(lexer).src(),
        same_below(old(lexer).states(), final(lexer).states()),
        val_outcome(*old(lexer), *final(lexer), r, bval_spec(old(lexer).src(), old(lexer).top().input.idx as int)),
{
    let ghost s = lexer.src();
    let ghost p = lexer.top().input.idx as int;
    let ghost st0 = lexer.states();
    if lexer.getc(0) == Some('{') {
        let mut brace_count: usize = 0;
        lexer.push();
        skip_known(lexer, 1);
        consume_known(lexer, 0, None);
        proof {
            lemma_synced_pos(st0.last().input);
            lemma_block_body_start(s, p + 1);
        }
        skip_block_start(lexer);
        let ghost p2 = block_body_start(s, p + 1);
        let ghost res = bscan(s, p2, 0, p2, false);
        let ghost tok = lexer.top().token;
        let mut take_ind: usize = 0;
        let mut taking = false;
        let mut i: usize = 0;
        loop
            invariant
                ready(*lexer),
                lexer.src() == s,
                lexer.states().len() == st0.len() + 1,
                lexer.states().drop_last() == st0,
                lexer.top().input.idx == p2,
                lexer.top().token == tok,
                0 <= p2,
                p2 + i <= s.len(),
                take_ind <= i,
                brace_count <= i,
                bscan(s, p2 + i, brace_count as nat, p2 + take_ind, taking) == res,
            ensures
                res.0 == p2 + i,
                res.1 == p2 + take_ind,
                res.2 == brace_count,
                take_ind <= i,
                p2 + i <= s.len(),
            decreases s.len() - i,
        {
            match lexer.getc(i) {
                Some(c) => {
                    let c1 = lexer.getc(i + 1);
                    if c == '\\' && (c1 == Some('{') || c1 == Some('}')) {
                        taking = true;
                        i = i + 2;
                        take_ind = i;
                    } else if c == '{' {
                        brace_count = brace_count + 1;
                        taking = true;
                        i = i + 1;
                        take_ind = i;
                    } else if c == '}' && brace_count > 0 {
                        brace_count = brace_count - 1;
                        taking = true;
                        i = i + 1;
                        take_ind = i;
                    } else if c == '}' {
                        break;
                    } else if c == '\n' {
                        take_ind = i;
                        taking = false;
                        i = i + 1;
                    } else if c == '\r' && lexer.getc(i + 1) == Some('\n') {
                        take_ind = i;
                        taking = false;
                        i = i + 2;
                    } else if c == ' ' || c == '\t' {
                        i = i + 1;
                        if taking {
                            take_ind = i;
                        }
                    } else {
                        taking = true;
                        i = i + 1;
                        take_ind = i;
                    }
                },
                None => {
                    break;
                },
            }
        }
        if lexer.getc(i) == Some('}') {
            if brace_count == 0 {
                consume_known(lexer, take_ind, None);
                skip_known(lexer, i - take_ind);
                skip_known(lexer, 1);
                lexer.pop_keep();
                let token = lexer.token().unwrap();
                lexer.set_token(token);
                assert(lexer.states().drop_last() =~= st0.drop_last());
                return Ok(true);
            } else {
                lexer.pop_discard();
                return Err((lexer.loc(), "braces must match"));
            }
        } else {
            lexer.pop_discard();
            return Err((lexer.loc(), "expecting closing brace"));
        }
    } else {
        return Ok(false);
    }
}

/// A value in one or three back quotes, which may span lines.
fn parse_bqval(lexer: &mut Lexer) -> (r: Result<bool, (Loc, &'static str)>)
    requires
        ready(*old(lexer)),
        old(lexer).top().token is None,
    ensures
        ready(*final(lexer)),
        final(lexer).src() == old(lexer).src(),
        same_below(old(lexer).states(), final(lexer).states()),
        val_outcome(*old(lexer), *final(lexer), r, bqval_spec(old(lexer).src(), old(lexer).top().input.idx as int)),
{
    let ghost s = lexer.src();
    let ghost p = lexer.top().input.idx as int;
    let ghost st0 = lexer.states();
    proof {
        reveal_strlit("```");
        reveal_strlit("`");
        assert("```"@ =~= back_quotes(3));
        assert("`"@ =~= back_quotes(1));
    }
    if let Some(q) = lexer.has(0, ["```", "`"]) {
        let qlen = crate::text::chars_of(q).len();
        let ghost n = back_quote_open(s, p);
        proof {
            assert(q@ == back_quotes(n));
            assert(qlen == n);
            lemma_synced_pos(st0.last().input);
            lemma_block_body_start(s, p + n);
        }
        lexer.push();
        skip_known(lexer, qlen);
        skip_block_start(lexer);
        let ghost p2 = block_body_start(s, p + n);
        let ghost res = qscan(s, p2, p2, false, n);
        let mut take_ind: usize = 0;
        let mut taking = false;
        let mut i: usize = 0;
        loop
            invariant
                ready(*lexer),
                lexer.src() == s,
                lexer.states().len() == st0.len() + 1,
                lexer.states().drop_last() == st0,
                lexer.top().input.idx == p2,
                lexer.top().token is None,
                q@ == back_quotes(n),
                0 <= p2,
                p2 + i <= s.len(),
                take_ind <= i,
                qscan(s, p2 + i, p2 + take_ind, taking, n) == res,
            ensures
                res.0 == p2 + i,
                res.1 == p2 + take_ind,
                take_ind <= i,
                p2 + i <= s.len(),
            decreases s.len() - i,
        {
            match lexer.getc(i) {
                Some(c) => {
                    if c == '\n' {
                        take_ind = i;
                        taking = false;
                        i = i + 1;
                    } else if c == '\r' && lexer.getc(i + 1) == Some('\n') {
                        take_ind = i;
                        taking = false;
                        i = i + 2;
                    } else if c == ' ' || c == '\t' {
                        i = i + 1;
                        if taking {
                            take_ind = i;
                        }
                    } else {
                        if lexer.has(i, [q]).is_some() {
                            break;
                        }
                        taking = true;
                        i = i + 1;
                        take_ind = i;
                    }
                },
                None => {
                    break;
                },
            }
        }
        if lexer.has(i, [q]).is_some() {
            consume_known(lexer, take_ind, None);
            skip_known(lexer, i - take_ind);
            skip_known(lexer, qlen);
            lexer.pop_keep();
            let token = lexer.token().unwrap();
            lexer.set_token(token);
            assert(lexer.states().drop_last() =~= st0.drop_last());
            return Ok(true);
        } else {
            if qlen == 1 {
                lexer.pop_discard();
                return Err((lexer.loc(), "expecting closing back quote"));
            } else {
                lexer.pop_discard();
                return Err((lexer.loc(), "expecting closing back quotes"));
            }
        }
    } else {
        return Ok(false);
    }
}

/// The value rule: single quoted, double quoted, braced, back quoted, or
/// unquoted, tried in that order. The first that starts at `p` decides.
#[verifier::opaque]
pub open spec fn val_spec(s: Seq<char>, p: int) -> Result<
    Option<(ValueType, int, TokenModel)>,
    ErrModel,
> {
    match qval_spec(s, p) {
        Err(x) => Err(x),
        Ok(Some((e, t))) => Ok(Some((ValueType::Quote, e, t))),
        Ok(None) => match dval_spec(s, p) {
            Err(x) => Err(x),
            Ok(Some((e, t))) => Ok(Some((ValueType::DoubleQuote, e, t))),
            Ok(None) => match bval_spec(s, p) {
                Err(x) => Err(x),
                Ok(Some((e, t))) => Ok(Some((ValueType::CurlyBrace, e, t))),
                Ok(None) => match bqval_spec(s, p) {
                    Err(x) => Err(x),
                    Ok(Some((e, t))) => Ok(Some((ValueType::BackQuote, e, t))),
                    Ok(None) => match sval_spec(s, p) {
                        Err(x) => Err(x),
                        Ok(Some((e, t))) => Ok(Some((ValueType::Bare, e, t))),
                        Ok(None) => Ok(None),
                    },
                },
            },
        },
    }
}

/// A value read from a text always takes at least one character.
pub proof fn lemma_val_progress(s: Seq<char>, p: int)
    requires
        0 <= p <= s.len(),
    ensures
        val_spec(s, p) matches Ok(Some((vt, e, t))) ==> p < e <= s.len(),
{
    reveal(val_spec);
    lemma_find_quote(s, p + 1);
    if p + 1 <= s.len() {
        lemma_dbody(s, p + 1);
        lemma_block_body_start(s, p + 1);
        let p2 = block_body_start(s, p + 1);
        lemma_bscan(s, p2, 0, p2, false);
    }
    let n = back_quote_open(s, p);
    if n > 0 && p + n <= s.len() {
        lemma_block_body_start(s, p + n);
        let p3 = block_body_start(s, p + n);
        lemma_qscan(s, p3, p3, false, n);
    }
    lemma_sstep(s, p, true);
    if let Some((j, t)) = sstep(s, p, true) {
        lemma_sbody(s, j);
    }
}

/// The model of the value made from a token.
pub open spec fn value_of(t: TokenModel, vt: ValueType) -> ValueModel {
    ValueModel { start: t.start, end: t.end, text: t.text, value_type: vt }
}

/// Further values after the one that ended at `e`, each after separating
/// space: the values and the offset after the last one.
pub open spec fn more_vals(s: Seq<char>, e: int) -> Result<(Seq<ValueModel>, int), ErrModel>
    decreases s.len() - e,
{
    if 0 <= e <= s.len() {
        let q = spcs_end(s, e);
        if q == e {
            Ok((Seq::empty(), e))
        } else {
            proof {
                lemma_spcs_end(s, e);
                lemma_val_progress(s, q);
            }
            match val_spec(s, q) {
                Err(x) => Err(x),
                Ok(None) => Ok((Seq::empty(), e)),
                Ok(Some((vt, e2, t))) => match more_vals(s, e2) {
                    Err(x) => Err(x),
                    Ok((vs, f)) => Ok((seq![value_of(t, vt)] + vs, f)),
                },
            }
        }
    } else {
        Ok((Seq::empty(), e))
    }
}

/// The values of a record: one value, then more after separating space.
pub open spec fn vals_spec(s: Seq<char>, p: int) -> Result<Option<(Seq<ValueModel>, int)>, ErrModel> {
    match val_spec(s, p) {
        Err(x) => Err(x),
        Ok(None) => Ok(None),
        Ok(Some((vt, e, t))) => match more_vals(s, e) {
            Err(x) => Err(x),
            Ok((vs, f)) => Ok(Some((seq![value_of(t, vt)] + vs, f))),
        },
    }
}

/// Separating space never moves backwards and stays in the text.
pub proof fn lemma_spcs_end(s: Seq<char>, p: int)
    requires
        0 <= p <= s.len(),
    ensures
        p <= spcs_end(s, p) <= s.len(),
    decreases s.len() - p,
{
    match ch(s, p) {
        Some(c) => if is_blank(c) {
            lemma_spcs_end(s, p + 1);
        } else if c == '\\' && ch(s, p + 1) == Some('\n') {
            lemma_spcs_end(s, p + 2);
        } else if c == '\\' && ch(s, p + 1) == Some('\r') && ch(s, p + 2) == Some('\n') {
            lemma_spcs_end(s, p + 3);
        },
        None => {},
    }
}

/// One value, of whichever kind starts here.
fn parse_val(lexer: &mut Lexer) -> (r: Result<Option<ValueType>, (Loc, &'static str)>)
    requires
        ready(*old(lexer)),
        old(lexer).top().token is None,
    ensures
        ready(*final(lexer)),
        final(lexer).src() == old(lexer).src(),
        same_below(old(lexer).states(), final(lexer).states()),
        match val_spec(old(lexer).src(), old(lexer).top().input.idx as int) {
            Ok(None) => r == Ok::<Option<ValueType>, (Loc, &'static str)>(None)
                && final(lexer).states() == old(lexer).states(),
            Ok(Some((vt, e, t))) => r == Ok::<Option<ValueType>, (Loc, &'static str)>(Some(vt))
                && final(lexer).top() == (LexState {
                input: moved(old(lexer).top(), e).input,
                token: Some(t),
            }),
            Err(x) => r matches Err(y) && err_model(y) == x && final(lexer).states() == old(lexer).states(),
        },
{
    proof {
        reveal(val_spec);
    }
    match parse_qval(lexer) {
        Err(e) => return Err(e),
        Ok(true) => return Ok(Some(ValueType::Quote)),
        Ok(false) => {},
    }
    match parse_dval(lexer) {
        Err(e) => return Err(e),
        Ok(true) => return Ok(Some(ValueType::DoubleQuote)),
        Ok(false) => {},
    }
    match parse_bval(lexer) {
        Err(e) => return Err(e),
        Ok(true) => return Ok(Some(ValueType::CurlyBrace)),
        Ok(false) => {},
    }
    match parse_bqval(lexer) {
        Err(e) => return Err(e),
        Ok(true) => return Ok(Some(ValueType::BackQuote)),
        Ok(false) => {},
    }
    match parse_sval(lexer) {
        Err(e) => return Err(e),
        Ok(true) => return Ok(Some(ValueType::Bare)),
        Ok(false) => {},
    }
    Ok(None)
}

/// The values of a record, separated by spaces: the values read, or `None`
/// when no value starts here.
#[verifier::rlimit(40)]
fn parse_vals(lexer: &mut Lexer) -> (r: Result<Option<Vec<Value>>, (Loc, &'static str)>)
    requires
        ready(*old(lexer)),
        old(lexer).top().token is None,
    ensures
        ready(*final(lexer)),
        final(lexer).src() == old(lexer).src(),
        match vals_spec(old(lexer).src(), old(lexer).top().input.idx as int) {
            Ok(None) => r matches Ok(None) && final(lexer).states() == old(lexer).states(),
            Ok(Some((vs, f))) => r matches Ok(Some(values)) && values@.map_values(|v: Value| v@)
                == vs && same_below(old(lexer).states(), final(lexer).states())
                && final(lexer).top() == moved(old(lexer).top(), f),
            Err(x) => r matches Err(y) && err_model(y) == x,
        },
{
    let ghost s = lexer.src();
    let ghost p = lexer.top().input.idx as int;
    let ghost st0 = lexer.states();
    let ghost top0 = lexer.top();
    proof {
        lemma_synced_pos(top0.input);
        lemma_val_progress(s, p);
    }
    match parse_val(lexer) {
        Err(e) => Err(e),
        Ok(None) => Ok(None),
        Ok(Some(value_type)) => {
            let ghost (vt0, e0, t0) = (val_spec(s, p)->Ok_0)->Some_0;
            let mut values: Vec<Value> = Vec::new();
            let token = lexer.token().unwrap();
            values.push(token_to_value(token, value_type));
            proof {
                assert(values@.map_values(|v: Value| v@) =~= seq![value_of(t0, vt0)]);
                assert(lexer.states().drop_last() =~= st0.drop_last());
            }
            let ghost mv0 = more_vals(s, e0);
            loop
                invariant
                    ready(*lexer),
                    lexer.src() == s,
                    same_below(st0, lexer.states()),
                    lexer.top().token is None,
                    0 <= p < lexer.top().input.idx <= s.len(),
                    top0.token is None,
                    lexer.top() == moved(top0, lexer.top().input.idx as int),
                    mv0 == more_vals(s, e0),
                    s == old(lexer).src(),
                    p == old(lexer).top().input.idx,
                    val_spec(s, p) == Ok::<Option<(ValueType, int, TokenModel)>, ErrModel>(
                        Some((vt0, e0, t0)),
                    ),
                    more_vals(s, lexer.top().input.idx as int) is Err ==> mv0 == more_vals(
                        s,
                        lexer.top().input.idx as int,
                    ),
                    more_vals(s, lexer.top().input.idx as int) is Ok ==> {
                        &&& mv0 is Ok
                        &&& (mv0->Ok_0).1 == (more_vals(s, lexer.top().input.idx as int)->Ok_0).1
                        &&& values@.map_values(|v: Value| v@) + (more_vals(
                            s,
                            lexer.top().input.idx as int,
                        )->Ok_0).0 == seq![value_of(t0, vt0)] + (mv0->Ok_0).0
                    },
                ensures
                    more_vals(s, lexer.top().input.idx as int) == Ok::<
                        (Seq<ValueModel>, int),
                        ErrModel,
                    >((Seq::empty(), lexer.top().input.idx as int)),
                decreases s.len() - lexer.top().input.idx,
            {
                let ghost j = lexer.top().input.idx as int;
                let ghost vm = values@.map_values(|v: Value| v@);
                proof {
                    lemma_spcs_end(s, j);
                    lemma_val_progress(s, spcs_end(s, j));
                }
                let ghost pre = lexer.states();
                lexer.push();
                assert(lexer.src() == s);
                if parse_spcs(lexer) {
                    match parse_val(lexer) {
                        Err(e) => {
                            return Err(e);
                        },
                        Ok(Some(value_type)) => {
                            lexer.pop_keep();
                            let token = lexer.token().unwrap();
                            values.push(token_to_value(token, value_type));
                            proof {
                                let (vt, e2, t) = (val_spec(s, spcs_end(s, j))->Ok_0)->Some_0;
                                assert(values@.map_values(|v: Value| v@) =~= vm.push(value_of(t, vt)));
                                if let Ok((vs2, f2)) = more_vals(s, e2) {
                                    assert(vm.push(value_of(t, vt)) + vs2 =~= vm + (seq![value_of(t, vt)] + vs2));
                                }
                                assert(lexer.states().drop_last() =~= st0.drop_last());
                            }
                            continue;
                        },
                        Ok(None) => {},
                    }
                }
                lexer.pop_discard();
                proof {
                    assert(lexer.states() =~= pre);
                    assert(vm + Seq::<ValueModel>::empty() =~= vm);
                }
                break;
            }
            Ok(Some(values))
        },
    }
}

/// The number of steps from record `i` up to the top record.
pub open spec fn depth_of(records: Seq<RecordModel>, i: int) -> nat
    decreases i,
{
    if i <= 0 || i >= records.len() {
        0
    } else {
        match records[i].parent {
            Some(j) => if j < i {
                1 + depth_of(records, j as int)
            } else {
                0
            },
            None => 0,
        }
    }
}

/// A well formed record tree: the first record is the top, with no parent
/// and no values; every other record has an earlier parent; each record's
/// children are later records, in increasing order, whose parent it is; and
/// every record but the top is a child of its parent.
pub open spec fn tree_wf(records: Seq<RecordModel>) -> bool {
    &&& records.len() >= 1
    &&& records[0].parent is None
    &&& records[0].values.len() == 0
    &&& forall|i: int|
        1 <= i < records.len() ==> ((#[trigger] records[i]).parent matches Some(j) && j < i
            && records[i].values.len() >= 1)
    &&& forall|i: int, k: int|
        0 <= i < records.len() && 0 <= k < records[i].children.len() ==> {
            let c = #[trigger] records[i].children[k];
            &&& i < c < records.len()
            &&& records[c as int].parent == Some(i as usize)
        }
    &&& forall|i: int, k1: int, k2: int|
        0 <= i < records.len() && 0 <= k1 < k2 < records[i].children.len()
            ==> #[trigger] records[i].children[k1] < #[trigger] records[i].children[k2]
    &&& forall|c: int|
        1 <= c < records.len() ==> records[(#[trigger] records[c]).parent.unwrap() as int].children.contains(
            c as usize,
        )
}

/// The record `n` levels up from `cp`.
pub open spec fn climb(records: Seq<RecordModel>, cp: Option<usize>, n: nat) -> Option<usize>
    decreases n,
{
    if n == 0 {
        cp
    } else {
        match cp {
            Some(i) => if i < records.len() {
                climb(records, records[i as int].parent, (n - 1) as nat)
            } else {
                None
            },
            None => None,
        }
    }
}

/// `records` with a new record of `values` added under `parent`.
pub open spec fn add_record(
    records: Seq<RecordModel>,
    parent: Option<usize>,
    values: Seq<ValueModel>,
) -> Seq<RecordModel> {
    let idx = records.len();
    let r1 = match parent {
        Some(pi) => records.update(
            pi as int,
            RecordModel {
                values: records[pi as int].values,
                parent: records[pi as int].parent,
                children: records[pi as int].children.push(idx as usize),
            },
        ),
        None => records,
    };
    r1.push(RecordModel { values, parent, children: Seq::empty() })
}

/// The state of the line by line reading of a configuration.
pub struct MainState {
    pub pos: int,
    pub last_indent: nat,
    pub has_a_record: bool,
    pub records: Seq<RecordModel>,
    pub cur_parent: Option<usize>,
}

/// The record that a line with indent `k` is nested under, given the indent
/// of the previous record line.
pub open spec fn parent_for(st: MainState, k: nat) -> Option<usize> {
    if k > st.last_indent {
        Some((st.records.len() - 1) as usize)
    } else if k < st.last_indent {
        climb(st.records, st.cur_parent, (st.last_indent - k) as nat)
    } else {
        st.cur_parent
    }
}

/// The configuration language, line by line from the state `st`: blank and
/// comment lines are skipped; a line with an indent and values adds a
/// record, which may end with space and a comment; a line with only space
/// and a comment adds nothing. Each line ends with an end of line or the end
/// of the text; anything else is an error.
pub open spec fn main_spec(s: Seq<char>, st: MainState) -> Result<Seq<RecordModel>, ErrModel>
    decreases s.len() - st.pos,
{
    if !(0 <= st.pos <= s.len()) {
        Ok(st.records)
    } else {
        let p = empty_lines_end(s, st.pos);
        proof {
            lemma_empty_lines_end(s, st.pos);
        }
        match indent_spec(s, p, st.has_a_record, st.last_indent) {
            Err(x) => Err(x),
            Ok(k) => {
                proof {
                    lemma_indent(s, p);
                }
                match vals_spec(s, p + 4 * k) {
                    Err(x) => Err(x),
                    Ok(Some((vals, e))) => {
                        proof {
                            lemma_vals_end(s, p + 4 * k);
                        }
                        let cp = parent_for(st, k);
                        let recs2 = add_record(st.records, cp, vals);
                        let r = spcs_end(s, e);
                        proof {
                            lemma_spcs_end(s, e);
                            lemma_find_nl(s, r + 1);
                        }
                        let c = if r != e {
                            cmnt_end(s, r)
                        } else {
                            r
                        };
                        match eol_end(s, c) {
                            Some(n) => main_spec(
                                s,
                                MainState {
                                    pos: n,
                                    last_indent: k,
                                    has_a_record: true,
                                    records: recs2,
                                    cur_parent: cp,
                                },
                            ),
                            None => if c >= s.len() {
                                Ok(recs2)
                            } else {
                                Err((lc(s, c), "unknown error"))
                            },
                        }
                    },
                    Ok(None) => {
                        let a = spcs_end(s, p);
                        proof {
                            lemma_spcs_end(s, p);
                            lemma_find_nl(s, a + 1);
                        }
                        let c = cmnt_end(s, a);
                        match eol_end(s, c) {
                            Some(n) => main_spec(
                                s,
                                MainState {
                                    pos: n,
                                    last_indent: st.last_indent,
                                    has_a_record: st.has_a_record,
                                    records: st.records,
                                    cur_parent: st.cur_parent,
                                },
                            ),
                            None => if c >= s.len() {
                                Ok(st.records)
                            } else {
                                Err((lc(s, p), "unknown error"))
                            },
                        }
                    },
                }
            },
        }
    }
}

/// Where the lines that add records start, in order, when reading from the
/// state `st` as `main_spec` does.
pub open spec fn record_lines(s: Seq<char>, st: MainState) -> Seq<int>
    decreases s.len() - st.pos,
{
    if !(0 <= st.pos <= s.len()) {
        Seq::empty()
    } else {
        let p = empty_lines_end(s, st.pos);
        proof {
            lemma_empty_lines_end(s, st.pos);
        }
        match indent_spec(s, p, st.has_a_record, st.last_indent) {
            Err(x) => Seq::empty(),
            Ok(k) => {
                proof {
                    lemma_indent(s, p);
                }
                match vals_spec(s, p + 4 * k) {
                    Err(x) => Seq::empty(),
                    Ok(Some((vals, e))) => {
                        proof {
                            lemma_vals_end(s, p + 4 * k);
                        }
                        let cp = parent_for(st, k);
                        let recs2 = add_record(st.records, cp, vals);
                        let r = spcs_end(s, e);
                        proof {
                            lemma_spcs_end(s, e);
                            lemma_find_nl(s, r + 1);
                        }
                        let c = if r != e {
                            cmnt_end(s, r)
                        } else {
                            r
                        };
                        match eol_end(s, c) {
                            Some(n) => seq![p] + record_lines(
                                s,
                                MainState {
                                    pos: n,
                                    last_indent: k,
                                    has_a_record: true,
                                    records: recs2,
                                    cur_parent: cp,
                                },
                            ),
                            None => seq![p],
                        }
                    },
                    Ok(None) => {
                        let a = spcs_end(s, p);
                        proof {
                            lemma_spcs_end(s, p);
                            lemma_find_nl(s, a + 1);
                        }
                        let c = cmnt_end(s, a);
                        match eol_end(s, c) {
                            Some(n) => record_lines(s, MainState { pos: n, ..st }),
                            None => Seq::empty(),
                        }
                    },
                }
            },
        }
    }
}

/// What the line by line reading keeps: the records form a tree, the
/// current parent is at the depth of the last indent, and the last record
/// one deeper.
pub open spec fn main_state_ok(s: Seq<char>, st: MainState) -> bool {
    &&& 0 <= st.pos <= s.len()
    &&& tree_wf(st.records)
    &&& st.records.len() <= st.pos + 1
    &&& st.cur_parent matches Some(c) && c < st.records.len() && depth_of(st.records, c as int) == st.last_indent
    &&& st.has_a_record ==> depth_of(st.records, st.records.len() - 1) == st.last_indent + 1
    &&& !st.has_a_record ==> st.records.len() == 1 && st.last_indent == 0
}

/// Each record read from state `st` lies as deep as its line is indented,
/// plus one, and the records already there keep their depths.
pub proof fn lemma_record_depths(s: Seq<char>, st: MainState)
    requires
        s.len() < usize::MAX,
        main_state_ok(s, st),
    ensures
        main_spec(s, st) matches Ok(rs) ==> {
            &&& tree_wf(rs)
            &&& rs.len() <= s.len() + 1
            &&& rs.len() == st.records.len() + record_lines(s, st).len()
            &&& forall|i: int| 0 <= i < st.records.len() ==> #[trigger] depth_of(rs, i) == depth_of(st.records, i)
            &&& forall|j: int|
                0 <= j < record_lines(s, st).len() ==> depth_of(rs, st.records.len() + j) == indent_groups(
                    s,
                    #[trigger] record_lines(s, st)[j],
                ) + 1
        },
    decreases s.len() - st.pos,
{
    if 0 <= st.pos <= s.len() {
        let p = empty_lines_end(s, st.pos);
        lemma_empty_lines_end(s, st.pos);
        match indent_spec(s, p, st.has_a_record, st.last_indent) {
            Err(x) => {},
            Ok(k) => {
                lemma_indent(s, p);
                match vals_spec(s, p + 4 * k) {
                    Err(x) => {},
                    Ok(Some((vals, e))) => {
                        lemma_vals_end(s, p + 4 * k);
                        let cp = parent_for(st, k);
                        let c0 = st.cur_parent.unwrap();
                        if k > st.last_indent {
                        } else if k < st.last_indent {
                            lemma_climb(st.records, c0, (st.last_indent - k) as nat);
                        }
                        assert(cp matches Some(c) && c < st.records.len() && depth_of(st.records, c as int) == k);
                        lemma_add_record(st.records, cp.unwrap(), vals);
                        let recs2 = add_record(st.records, cp, vals);
                        let n0 = st.records.len();
                        let r = spcs_end(s, e);
                        lemma_spcs_end(s, e);
                        lemma_find_nl(s, r + 1);
                        let c = if r != e {
                            cmnt_end(s, r)
                        } else {
                            r
                        };
                        let lines = record_lines(s, st);
                        match eol_end(s, c) {
                            Some(n) => {
                                let st2 = MainState {
                                    pos: n,
                                    last_indent: k,
                                    has_a_record: true,
                                    records: recs2,
                                    cur_parent: cp,
                                };
                                assert(depth_of(recs2, cp.unwrap() as int) == k);
                                lemma_record_depths(s, st2);
                                if let Ok(rs) = main_spec(s, st) {
                                    let l2 = record_lines(s, st2);
                                    assert(lines == seq![p] + l2);
                                    assert forall|j: int| 0 <= j < lines.len() implies depth_of(rs, n0 + j)
                                        == indent_groups(s, #[trigger] lines[j]) + 1 by {
                                        if j == 0 {
                                            assert(depth_of(rs, n0 as int) == depth_of(recs2, n0 as int));
                                        } else {
                                            assert(lines[j] == l2[j - 1]);
                                            assert(n0 + j == recs2.len() + (j - 1));
                                        }
                                    }
                                    assert forall|i: int| 0 <= i < n0 implies #[trigger] depth_of(rs, i)
                                        == depth_of(st.records, i) by {
                                        assert(depth_of(rs, i) == depth_of(recs2, i));
                                    }
                                }
                            },
                            None => {},
                        }
                    },
                    Ok(None) => {
                        let a = spcs_end(s, p);
                        lemma_spcs_end(s, p);
                        lemma_find_nl(s, a + 1);
                        let c = cmnt_end(s, a);
                        match eol_end(s, c) {
                            Some(n) => {
                                lemma_record_depths(s, MainState { pos: n, ..st });
                            },
                            None => {},
                        }
                    },
                }
            },
        }
    }
}

/// The state before the first line: only the top record.
pub open spec fn main_start() -> MainState {
    MainState {
        pos: 0,
        last_indent: 0,
        has_a_record: false,
        records: seq![RecordModel { values: Seq::empty(), parent: None, children: Seq::empty() }],
        cur_parent: Some(0),
    }
}

/// The records of a configuration text, or the first error in it.
pub open spec fn parse_spec(s: Seq<char>) -> Result<Seq<RecordModel>, ErrModel> {
    main_spec(s, main_start())
}

pub proof fn lemma_empty_lines_end(s: Seq<char>, p: int)
    requires
        0 <= p <= s.len(),
    ensures
        p <= empty_lines_end(s, p) <= s.len(),
    decreases s.len() - p,
{
    if p < s.len() {
        let i = blank_end(s, p);
        lemma_blank_end(s, p);
        if ch(s, i) == Some('#') {
            let k = find_nl(s, i);
            lemma_find_nl(s, i);
            if k < s.len() {
                lemma_empty_lines_end(s, k + 1);
            }
        } else if let Some(e) = eol_end(s, i) {
            lemma_empty_lines_end(s, e);
        }
    }
}

pub proof fn lemma_indent(s: Seq<char>, p: int)
    requires
        0 <= p <= s.len(),
    ensures
        p + 4 * indent_groups(s, p) <= s.len(),
    decreases s.len() - p,
{
    if 0 <= p && p + 4 <= s.len() && s[p] == ' ' && s[p + 1] == ' ' && s[p + 2] == ' ' && s[p
        + 3] == ' ' {
        lemma_indent(s, p + 4);
    }
}

pub proof fn lemma_more_vals_end(s: Seq<char>, e: int)
    requires
        0 <= e <= s.len(),
    ensures
        more_vals(s, e) matches Ok((vs, f)) ==> e <= f <= s.len(),
    decreases s.len() - e,
{
    let q = spcs_end(s, e);
    lemma_spcs_end(s, e);
    if q != e {
        lemma_val_progress(s, q);
        if let Ok(Some((vt, e2, t))) = val_spec(s, q) {
            lemma_more_vals_end(s, e2);
        }
    }
}

pub proof fn lemma_vals_end(s: Seq<char>, p: int)
    requires
        0 <= p <= s.len(),
    ensures
        vals_spec(s, p) matches Ok(Some((vs, f))) ==> p < f <= s.len(),
{
    lemma_val_progress(s, p);
    if let Ok(Some((vt, e, t))) = val_spec(s, p) {
        lemma_more_vals_end(s, e);
    }
}

/// Depths depend only on parents.
pub proof fn lemma_depth_frame(a: Seq<RecordModel>, b: Seq<RecordModel>, i: int)
    requires
        a.len() <= b.len(),
        forall|j: int| 0 <= j < a.len() ==> (#[trigger] b[j]).parent == a[j].parent,
        0 <= i < a.len(),
    ensures
        depth_of(a, i) == depth_of(b, i),
    decreases i,
{
    if i > 0 {
        assert(b[i].parent == a[i].parent);
        if let Some(j) = a[i].parent {
            if j < i {
                lemma_depth_frame(a, b, j as int);
            }
        }
    }
}

/// Adding a record under an existing one keeps the tree well formed, keeps
/// every depth, and puts the new record one level below its parent.
pub proof fn lemma_add_record(records: Seq<RecordModel>, c: usize, vals: Seq<ValueModel>)
    requires
        tree_wf(records),
        c < records.len(),
        records.len() < usize::MAX,
        vals.len() >= 1,
    ensures
        tree_wf(add_record(records, Some(c), vals)),
        add_record(records, Some(c), vals).len() == records.len() + 1,
        forall|i: int|
            0 <= i < records.len() ==> #[trigger] depth_of(add_record(records, Some(c), vals), i)
                == depth_of(records, i),
        depth_of(add_record(records, Some(c), vals), records.len() as int) == 1 + depth_of(
            records,
            c as int,
        ),
{
    let n = records.len();
    let r2 = add_record(records, Some(c), vals);
    assert(forall|j: int| 0 <= j < n ==> (#[trigger] r2[j]).parent == records[j].parent);
    assert forall|i: int| 0 <= i < n implies #[trigger] depth_of(r2, i) == depth_of(records, i) by {
        lemma_depth_frame(records, r2, i);
    }
    assert(depth_of(r2, n as int) == 1 + depth_of(r2, c as int));
    assert forall|i: int, k: int|
        0 <= i < r2.len() && 0 <= k < r2[i].children.len() implies {
        let ch = #[trigger] r2[i].children[k];
        &&& i < ch < r2.len()
        &&& r2[ch as int].parent == Some(i as usize)
    } by {
        if i < n && !(i == c && k == records[i].children.len()) {
            assert(r2[i].children[k] == records[i].children[k]);
            let ch = records[i].children[k];
            assert(i < ch < n);
            assert(r2[ch as int].parent == records[ch as int].parent);
        } else if i == c && k == records[i].children.len() {
            assert(r2[i].children[k] == n as usize);
            assert(r2[n as int].parent == Some(c));
        }
    }
    assert forall|i: int, k1: int, k2: int|
        0 <= i < r2.len() && 0 <= k1 < k2 < r2[i].children.len() implies #[trigger] r2[i].children[k1]
        < #[trigger] r2[i].children[k2] by {
        if i == c && k2 == records[i].children.len() {
            assert(r2[i].children[k1] == records[i].children[k1]);
            assert(records[i].children[k1] < n);
            assert(r2[i].children[k2] == n as usize);
        } else if i < n {
            assert(r2[i].children[k1] == records[i].children[k1]);
            assert(r2[i].children[k2] == records[i].children[k2]);
        }
    }
    assert forall|ci: int| 1 <= ci < r2.len() implies r2[(#[trigger] r2[ci]).parent.unwrap() as int].children.contains(
        ci as usize,
    ) by {
        if ci < n {
            let pi = records[ci].parent.unwrap() as int;
            assert(records[pi].children.contains(ci as usize));
            let k = choose|k: int| 0 <= k < records[pi].children.len() && records[pi].children[k] == ci as usize;
            assert(r2[pi].children[k] == ci as usize);
        } else {
            assert(r2[c as int].children[records[c as int].children.len() as int] == ci as usize);
        }
    }
}

/// Climbing from a record of depth at least `n` reaches a record `n` levels
/// higher.
pub proof fn lemma_climb(records: Seq<RecordModel>, c: usize, n: nat)
    requires
        tree_wf(records),
        c < records.len(),
        n <= depth_of(records, c as int),
    ensures
        climb(records, Some(c), n) matches Some(c2) && c2 < records.len() && depth_of(records, c2 as int)
            == depth_of(records, c as int) - n,
    decreases n,
{
    if n > 0 {
        assert(c >= 1);
        assert(records[c as int].parent matches Some(j) && j < c);
        let j = records[c as int].parent.unwrap();
        lemma_climb(records, j, (n - 1) as nat);
    }
}

/// The state before the first line, reading from offset `pos`.
pub open spec fn main_at(pos: int) -> MainState {
    MainState {
        pos,
        last_indent: 0,
        has_a_record: false,
        records: seq![RecordModel { values: Seq::empty(), parent: None, children: Seq::empty() }],
        cur_parent: Some(0),
    }
}

/// What reading a whole configuration from offset `pos` gives when the
/// lexer holds the token `tok`: a token with text is taken as part of the
/// indent of the first line that is not blank, and as no line before the
/// first record may be indented, that line is an error; otherwise the
/// configuration is read line by line.
pub open spec fn main_tok_spec(s: Seq<char>, pos: int, tok: Option<TokenModel>) -> Result<
    Seq<RecordModel>,
    ErrModel,
> {
    match tok {
        Some(t) if t.text.len() > 0 => {
            let p = empty_lines_end(s, pos);
            match indent_spec(s, p, false, 0) {
                Err(x) => Err(x),
                Ok(k) => Err((lc(s, p + 4 * k), "too many indents")),
            }
        },
        _ => main_spec(s, main_at(pos)),
    }
}

/// Reads a whole configuration from the lexer's position, line by line, into
/// a tree of records whose first record is the top; on success the whole
/// text was read.
pub fn parse_main(lexer: &mut Lexer) -> (r: Result<Vec<Record>, (Loc, &'static str)>)
    requires
        ready(*old(lexer)),
    ensures
        final(lexer).wf(),
        match main_tok_spec(old(lexer).src(), old(lexer).top().input.idx as int, old(lexer).top().token) {
            Ok(rs) => r matches Ok(v) && records_model(v@) == rs && tree_wf(rs),
            Err(x) => r matches Err(y) && err_model(y) == x,
        },
        r is Ok ==> final(lexer).top().input.idx == old(lexer).src().len(),
{
    let pending = lexer.token();
    let nonempty = match &pending {
        Some(t) => {
            let cs = chars_of(t.extracted.as_str());
            cs.len() > 0
        },
        None => false,
    };
    let ghost s = old(lexer).src();
    let ghost pos = old(lexer).top().input.idx as int;
    assert(lexer.src() == s && lexer.top().input.idx == pos);
    assert(nonempty == (old(lexer).top().token matches Some(t) && t.text.len() > 0));
    if nonempty {
        proof {
            lemma_empty_lines_end(s, pos);
        }
        parse_empty_lines(lexer);
        let ghost p = empty_lines_end(s, pos);
        lexer.push();
        assert(lexer.src() == s && lexer.top().input.idx == p);
        match parse_indent(lexer, false, 0) {
            Err(e) => Err(e),
            Ok(_) => {
                proof {
                    lemma_indent(s, p);
                }
                Err((lexer.loc(), "too many indents"))
            },
        }
    } else {
        parse_lines(lexer)
    }
}

/// Reads a whole configuration from the lexer's position, line by line, into
/// a tree of records whose first record is the top.
#[verifier::rlimit(90)]
#[verifier::spinoff_prover]
fn parse_lines(lexer: &mut Lexer) -> (r: Result<Vec<Record>, (Loc, &'static str)>)
    requires
        ready(*old(lexer)),
        old(lexer).top().token is None,
    ensures
        final(lexer).wf(),
        match main_spec(old(lexer).src(), main_at(old(lexer).top().input.idx as int)) {
            Ok(rs) => r matches Ok(v) && records_model(v@) == rs && tree_wf(rs),
            Err(x) => r matches Err(y) && err_model(y) == x,
        },
        r is Ok ==> final(lexer).top().input.idx == old(lexer).src().len(),
{
    let ghost s = lexer.src();
    let ghost target = main_spec(s, main_at(lexer.top().input.idx as int));
    let ghost n0 = lexer.states().len();
    let mut last_indent: usize = 0;
    let mut has_a_record = false;
    let mut records: Vec<Record> = Vec::new();
    records.push(Record { values: Vec::new(), parent: None, children: Vec::new() });
    let mut cur_parent: Option<usize> = Some(0);
    proof {
        lemma_synced_pos(lexer.top().input);
        assert(records@[0].values@.map_values(|v: Value| v@) =~= Seq::<ValueModel>::empty());
        assert(records@[0].children@ =~= Seq::<usize>::empty());
        assert(records_model(records@) =~= main_start().records);
    }
    loop
        invariant_except_break
            ready(*lexer),
            lexer.src() == s,
            s == old(lexer).src(),
            target == main_spec(old(lexer).src(), main_at(old(lexer).top().input.idx as int)),
            lexer.states().len() == n0,
            lexer.top().token is None,
            lexer.top().input.idx <= s.len(),
            main_spec(
                s,
                MainState {
                    pos: lexer.top().input.idx as int,
                    last_indent: last_indent as nat,
                    has_a_record,
                    records: records_model(records@),
                    cur_parent,
                },
            ) == target,
            tree_wf(records_model(records@)),
            records@.len() <= lexer.top().input.idx + 1,
            has_a_record ==> records@.len() <= lexer.top().input.idx,
            !has_a_record ==> records@.len() == 1 && last_indent == 0,
            cur_parent matches Some(c) && c < records@.len() && depth_of(
                records_model(records@),
                c as int,
            ) == last_indent,
            has_a_record ==> depth_of(records_model(records@), records@.len() - 1)
                == last_indent + 1,
        ensures
            lexer.wf(),
            lexer.top().input.synced(),
            lexer.top().input.chars == s,
            tree_wf(records_model(records@)),
            target == if lexer.top().input.idx >= s.len() {
                Ok::<Seq<RecordModel>, ErrModel>(records_model(records@))
            } else {
                Err::<Seq<RecordModel>, ErrModel>((lexer.top().input.loc, "unknown error"))
            },
        decreases s.len() - lexer.top().input.idx,
    {
        let ghost st = MainState {
            pos: lexer.top().input.idx as int,
            last_indent: last_indent as nat,
            has_a_record,
            records: records_model(records@),
            cur_parent,
        };
        proof {
            lemma_empty_lines_end(s, st.pos);
        }
        parse_empty_lines(lexer);
        let ghost p = lexer.top().input.idx as int;
        let ghost before_push = lexer.states();
        lexer.push();
        match parse_indent(lexer, has_a_record, last_indent) {
            Err(e) => {
                return Err(e);
            },
            Ok(indent_opt) => {
                if let Some(indent) = indent_opt {
                    proof {
                        lemma_indent(s, p);
                    }
                    match parse_vals(lexer) {
                        Err(e) => {
                            return Err(e);
                        },
                        Ok(Some(values)) => {
                            let ghost (vals, e) = (vals_spec(s, p + 4 * indent)->Ok_0)->Some_0;
                            proof {
                                lemma_vals_end(s, p + 4 * indent);
                            }
                            let ghost rm0 = records_model(records@);
                            if indent > last_indent {
                                cur_parent = Some(records.len() - 1);
                            } else if indent < last_indent {
                                let ghost cp0 = cur_parent;
                                proof {
                                    lemma_climb(rm0, cur_parent.unwrap(), (last_indent - indent) as nat);
                                }
                                for i in indent..last_indent
                                    invariant
                                        records_model(records@) == rm0,
                                        tree_wf(rm0),
                                        cur_parent matches Some(c) && c < records@.len() && depth_of(
                                            rm0,
                                            c as int,
                                        ) == last_indent - i + indent,
                                        climb(rm0, cur_parent, (last_indent - i) as nat) == climb(
                                            rm0,
                                            cp0,
                                            (last_indent - indent) as nat,
                                        ),
                                {
                                    let c = cur_parent.unwrap();
                                    proof {
                                        assert(rm0[c as int].parent == records@[c as int].parent);
                                        assert(c >= 1);
                                    }
                                    cur_parent = records[c].parent;
                                }
                            }
                            let ghost cp = cur_parent;
                            proof {
                                assert(cp == parent_for(st, indent as nat));
                                lemma_add_record(rm0, cp.unwrap(), vals);
                            }
                            if let Some(parent) = cur_parent {
                                let cur_record = records.len();
                                records[parent].children.push(cur_record);
                            }
                            records.push(Record { values, parent: cur_parent, children: Vec::new() });
                            proof {
                                assert(records_model(records@) =~= add_record(rm0, cp, vals));
                            }
                            has_a_record = true;
                            last_indent = indent;
                            let ghost r0 = spcs_end(s, e);
                            let ghost c = if r0 != e {
                                cmnt_end(s, r0)
                            } else {
                                r0
                            };
                            let ghost next = MainState {
                                pos: 0,
                                last_indent: indent as nat,
                                has_a_record: true,
                                records: records_model(records@),
                                cur_parent: cp,
                            };
                            proof {
                                lemma_spcs_end(s, e);
                                lemma_find_nl(s, r0 + 1);
                                assert(lexer.top().input.idx == e);
                            }
                            if parse_spcs(lexer) {
                                parse_cmnt(lexer);
                            }
                            assert(lexer.top().input.idx == c);
                            if parse_eol(lexer) {
                                lexer.pop_keep();
                                proof {
                                    let n = eol_end(s, c).unwrap();
                                    assert(main_spec(s, st) == main_spec(
                                        s,
                                        MainState { pos: n, ..next },
                                    ));
                                }
                                continue;
                            } else if lexer.is_end() {
                                lexer.pop_keep();
                                proof {
                                    assert(main_spec(s, st) == Ok::<Seq<RecordModel>, ErrModel>(
                                        records_model(records@),
                                    ));
                                }
                                break;
                            } else {
                                proof {
                                    lemma_synced_pos(lexer.top().input);
                                    assert(main_spec(s, st) == Err::<Seq<RecordModel>, ErrModel>(
                                        (lc(s, c), "unknown error"),
                                    ));
                                }
                                break;
                            }
                        },
                        Ok(None) => {},
                    }
                }
            },
        }
        let ghost a = spcs_end(s, p);
        let ghost c = cmnt_end(s, a);
        proof {
            lemma_spcs_end(s, p);
            lemma_find_nl(s, a + 1);
        }
        lexer.pop_discard();
        assert(lexer.states() =~= before_push);
        lexer.push();
        parse_spcs(lexer);
        parse_cmnt(lexer);
        if parse_eol(lexer) {
            lexer.pop_keep();
            proof {
                let n = eol_end(s, c).unwrap();
                assert(main_spec(s, st) == main_spec(s, MainState { pos: n, ..st }));
            }
            continue;
        } else if lexer.is_end() {
            lexer.pop_keep();
            proof {
                assert(main_spec(s, st) == Ok::<Seq<RecordModel>, ErrModel>(records_model(records@)));
            }
            break;
        } else {
            lexer.pop_discard();
            proof {
                assert(lexer.states() =~= before_push);
                assert(main_spec(s, st) == Err::<Seq<RecordModel>, ErrModel>((lc(s, p), "unknown error")));
            }
            break;
        }
    }
    if lexer.is_end() {
        Ok(records)
    } else {
        Err((lexer.loc(), "unknown error"))
    }
}

/// A record is never deeper than its index.
pub proof fn lemma_depth_le(records: Seq<RecordModel>, i: int)
    ensures
        depth_of(records, i) <= if i < 0 { 0 } else { i },
    decreases i,
{
    if 0 < i < records.len() {
        if let Some(j) = records[i].parent {
            if j < i {
                lemma_depth_le(records, j as int);
            }
        }
    }
}

} // verus!

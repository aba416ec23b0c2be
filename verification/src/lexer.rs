use vstd::prelude::*;
use crate::loc::{Loc, LocModel};
use crate::input::{Input, InputModel, char_at, next_model};
use crate::text::{chars_of, push_chars};

verus! {

/// A piece of text taken from the source, with where it starts and ends.
#[derive(Debug, Clone)]
pub struct Token {
    pub start_loc: Loc,
    pub end_loc: Loc,
    pub extracted: String,
}

/// The mathematical form of a `Token`.
pub struct TokenModel {
    pub start: LocModel,
    pub end: LocModel,
    pub text: Seq<char>,
}

impl View for Token {
    type V = TokenModel;

    open spec fn view(&self) -> TokenModel {
        TokenModel { start: self.start_loc@, end: self.end_loc@, text: self.extracted@ }
    }
}

/// The model of an optional token.
pub open spec fn token_opt_model(t: Option<Token>) -> Option<TokenModel> {
    match t {
        Some(t) => Some(t@),
        None => None,
    }
}

/// A copy of a token.
pub fn copy_token(t: &Token) -> (r: Token)
    ensures
        r@ == t@,
{
    Token { start_loc: t.start_loc, end_loc: t.end_loc, extracted: t.extracted.clone() }
}

fn copy_token_opt(t: &Option<Token>) -> (r: Option<Token>)
    ensures
        token_opt_model(r) == token_opt_model(*t),
{
    match t {
        Some(t) => Some(copy_token(t)),
        None => None,
    }
}

/// One saved lexer state: the cursor and the token being built.
#[derive(Debug)]
struct Hist<'a> {
    input: Input<'a>,
    token: Option<Token>,
}

/// The mathematical form of one lexer state.
pub struct LexState {
    pub input: InputModel,
    pub token: Option<TokenModel>,
}

/// A lexer with a stack of states for backtracking: the top state is the
/// current one, and the states below it are the ones saved by `push`.
pub struct Lexer<'a> {
    stk: Vec<Hist<'a>>,
}

/// The state after skipping `n` characters.
pub open spec fn skip_state(st: LexState, n: nat) -> LexState {
    LexState { input: next_model(st.input, n), token: st.token }
}

/// The token a consume starts from: the current one, or an empty one at the
/// current location.
pub open spec fn token_or_empty(st: LexState) -> TokenModel {
    match st.token {
        Some(t) => t,
        None => TokenModel { start: st.input.loc, end: st.input.loc, text: Seq::empty() },
    }
}

/// The state after consuming `n` characters into the token, appending them,
/// or `rep` in their place. When fewer than `n` characters remain only the
/// token is started and nothing is read.
pub open spec fn consume_state(st: LexState, n: nat, rep: Option<Seq<char>>) -> LexState {
    let t = token_or_empty(st);
    if st.input.idx + n <= st.input.chars.len() {
        let inp = next_model(st.input, n);
        let taken = match rep {
            Some(r) => r,
            None => st.input.chars.subrange(st.input.idx as int, (st.input.idx + n) as int),
        };
        LexState {
            input: inp,
            token: Some(TokenModel { start: t.start, end: inp.loc, text: t.text + taken }),
        }
    } else {
        LexState { input: st.input, token: Some(t) }
    }
}

/// The text `x` occurs in `s` at offset `p`.
pub open spec fn matches_at(s: Seq<char>, p: int, x: Seq<char>) -> bool {
    &&& 0 <= p
    &&& p + x.len() <= s.len()
    &&& s.subrange(p, p + x.len()) == x
}

/// A well formed stack: at least one state, every cursor well formed and over
/// the same text.
pub open spec fn stack_wf(states: Seq<LexState>) -> bool {
    &&& states.len() >= 1
    &&& forall|k: int|
        0 <= k < states.len() ==> {
            &&& (#[trigger] states[k]).input.wf()
            &&& states[k].input.chars == states[0].input.chars
        }
}

impl<'a> Lexer<'a> {
    /// The stack of states, bottom first.
    pub closed spec fn states(&self) -> Seq<LexState> {
        Seq::new(
            self.stk@.len(),
            |k: int| LexState { input: self.stk@[k].input@, token: token_opt_model(self.stk@[k].token) },
        )
    }

    /// The current state.
    pub open spec fn top(&self) -> LexState {
        self.states().last()
    }

    /// The text being read.
    pub open spec fn src(&self) -> Seq<char> {
        self.states()[0].input.chars
    }

    pub open spec fn wf(&self) -> bool {
        stack_wf(self.states())
    }

    /// The stack with its top state replaced by `st`.
    pub open spec fn with_top(&self, st: LexState) -> Seq<LexState> {
        self.states().update(self.states().len() - 1, st)
    }

    /// A lexer at the start of `chrs`, with no token and nothing saved.
    pub fn new(chrs: &'a [char]) -> (r: Lexer<'a>)
        ensures
            r.states() == seq![
                LexState {
                    input: InputModel { chars: chrs@, idx: 0, loc: crate::loc::start_model() },
                    token: None,
                },
            ],
            r.wf(),
            r.top().input.synced(),
    {
        let input = Input::new(chrs);
        let mut stk = Vec::new();
        stk.push(Hist { input, token: None });
        let r = Lexer { stk };
        assert(r.states() =~= seq![LexState { input: input@, token: None }]);
        r
    }

    /// The current location.
    pub fn loc(&self) -> (r: Loc)
        requires
            self.wf(),
        ensures
            r@ == self.top().input.loc,
    {
        let n = self.stk.len();
        self.stk[n - 1].input.loc()
    }

    /// How many states are saved below the current one.
    pub fn stack_size(&self) -> (r: usize)
        requires
            self.wf(),
        ensures
            r == self.states().len() - 1,
    {
        self.stk.len() - 1
    }

    /// Saves a copy of the current state.
    pub fn push(&mut self)
        requires
            old(self).wf(),
        ensures
            final(self).states() == old(self).states().push(old(self).top()),
            final(self).wf(),
    {
        let n = self.stk.len();
        let input = self.stk[n - 1].input;
        let token = copy_token_opt(&self.stk[n - 1].token);
        self.stk.push(Hist { input, token });
        assert(self.states() =~= old(self).states().push(old(self).top()));
    }

    /// Drops the current state and returns to the last saved one.
    pub fn pop_discard(&mut self)
        requires
            old(self).wf(),
            old(self).states().len() >= 2,
        ensures
            final(self).states() == old(self).states().drop_last(),
            final(self).wf(),
    {
        self.stk.pop();
        assert(self.states() =~= old(self).states().drop_last());
    }

    /// Keeps the current state and forgets the last saved one.
    pub fn pop_keep(&mut self)
        requires
            old(self).wf(),
            old(self).states().len() >= 2,
        ensures
            final(self).states() == old(self).states().drop_last().drop_last().push(
                old(self).top(),
            ),
            final(self).wf(),
    {
        let n = self.stk.len();
        self.stk.remove(n - 2);
        assert(self.states() =~= old(self).states().drop_last().drop_last().push(
            old(self).top(),
        ));
    }

    /// The characters of `x` occur `i` places after the offset.
    fn has_text(&self, i: usize, x: &str) -> (r: bool)
        requires
            self.wf(),
        ensures
            r == matches_at(self.src(), self.top().input.idx + i, x@),
    {
        let xs = chars_of(x);
        let n = self.stk.len();
        match self.stk[n - 1].input.get(i, xs.len()) {
            Some(got) => crate::text::chars_eq(got, xs.as_slice()),
            None => false,
        }
    }

    /// The first of `xs` whose characters occur `i` places after the offset.
    pub fn has<const N: usize>(&self, i: usize, xs: [&'static str; N]) -> (r: Option<
        &'static str,
    >)
        requires
            self.wf(),
        ensures
            r is None ==> forall|k: int|
                0 <= k < N ==> !matches_at(self.src(), self.top().input.idx + i, xs@[k]@),
            r matches Some(x) ==> exists|k: int|
                0 <= k < N && x == xs@[k] && matches_at(
                    self.src(),
                    self.top().input.idx + i,
                    xs@[k]@,
                ) && forall|j: int|
                    0 <= j < k ==> !matches_at(self.src(), self.top().input.idx + i, xs@[j]@),
    {
        let mut k: usize = 0;
        while k < N
            invariant
                self.wf(),
                k <= N,
                N == xs@.len(),
                forall|j: int|
                    0 <= j < k ==> !matches_at(self.src(), self.top().input.idx + i, xs@[j]@),
            decreases N - k,
        {
            if self.has_text(i, xs[k]) {
                return Some(xs[k]);
            }
            k = k + 1;
        }
        None
    }

    /// The `n` characters that start `i` places after the offset.
    pub fn get(&self, i: usize, n: usize) -> (r: Option<&'a [char]>)
        requires
            self.wf(),
        ensures
            r is Some <==> self.top().input.idx + i + n <= self.src().len(),
            r matches Some(x) ==> x@ == self.src().subrange(
                self.top().input.idx + i,
                self.top().input.idx + i + n,
            ),
    {
        let n0 = self.stk.len();
        self.stk[n0 - 1].input.get(i, n)
    }

    /// The character `i` places after the offset.
    pub fn getc(&self, i: usize) -> (r: Option<char>)
        requires
            self.wf(),
        ensures
            r == char_at(self.top().input, i as int),
    {
        let n = self.stk.len();
        self.stk[n - 1].input.get_char(i)
    }

    /// Every character has been read.
    pub fn is_end(&self) -> (r: bool)
        requires
            self.wf(),
        ensures
            r == (char_at(self.top().input, 0) is None),
            r == (self.top().input.idx >= self.src().len()),
    {
        self.getc(0).is_none()
    }

    /// Reads `n` characters without adding them to the token.
    pub fn skip(&mut self, n: usize)
        requires
            old(self).wf(),
        ensures
            final(self).states() == old(self).with_top(skip_state(old(self).top(), n as nat)),
            final(self).wf(),
    {
        let k = self.stk.len() - 1;
        let mut h = self.stk.remove(k);
        h.input.next(n);
        self.stk.push(h);
        assert(self.states() =~= old(self).with_top(skip_state(old(self).top(), n as nat)));
    }

    /// Reads `n` characters into the token, or appends `replace` in their place.
    pub fn consume(&mut self, n: usize, replace: Option<&str>)
        requires
            old(self).wf(),
        ensures
            final(self).states() == old(self).with_top(
                consume_state(
                    old(self).top(),
                    n as nat,
                    match replace {
                        Some(r) => Some(r@),
                        None => None,
                    },
                ),
            ),
            final(self).wf(),
    {
        let k = self.stk.len() - 1;
        let mut h = self.stk.remove(k);
        let mut tok = match h.token {
            Some(t) => t,
            None => Token { start_loc: h.input.loc(), end_loc: h.input.loc(), extracted: String::new() },
        };
        match h.input.get(0, n) {
            Some(s) => {
                match replace {
                    Some(r) => {
                        let rc = chars_of(r);
                        push_chars(&mut tok.extracted, rc.as_slice());
                    },
                    None => {
                        push_chars(&mut tok.extracted, s);
                    },
                }
                h.input.next(n);
                tok.end_loc = h.input.loc();
            },
            None => {},
        }
        h.token = Some(tok);
        self.stk.push(h);
        assert(self.states() =~= old(self).with_top(
            consume_state(
                old(self).top(),
                n as nat,
                match replace {
                    Some(r) => Some(r@),
                    None => None,
                },
            ),
        ));
    }

    /// Takes the token out of the current state.
    pub fn token(&mut self) -> (r: Option<Token>)
        requires
            old(self).wf(),
        ensures
            token_opt_model(r) == old(self).top().token,
            final(self).states() == old(self).with_top(
                LexState { input: old(self).top().input, token: None },
            ),
            final(self).wf(),
    {
        let k = self.stk.len() - 1;
        let mut h = self.stk.remove(k);
        let t = h.token;
        h.token = None;
        self.stk.push(h);
        assert(self.states() =~= old(self).with_top(
            LexState { input: old(self).top().input, token: None },
        ));
        t
    }

    /// Puts `token` in the current state.
    pub fn set_token(&mut self, token: Token)
        requires
            old(self).wf(),
        ensures
            final(self).states() == old(self).with_top(
                LexState { input: old(self).top().input, token: Some(token@) },
            ),
            final(self).wf(),
    {
        let k = self.stk.len() - 1;
        let mut h = self.stk.remove(k);
        h.token = Some(token);
        self.stk.push(h);
        assert(self.states() =~= old(self).with_top(
            LexState { input: old(self).top().input, token: Some(token@) },
        ));
    }
}

} // verus!

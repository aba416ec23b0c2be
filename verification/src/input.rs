use vstd::prelude::*;
use crate::loc::{Loc, LocModel, advance, loc_after, start_model, lemma_advance_concat, lemma_advance_pos};

verus! {

/// A cursor over a text: the characters, the offset of the next unread
/// character, and the location reached so far.
#[derive(Clone, Copy, Debug)]
pub struct Input<'a> {
    chrs: &'a [char],
    idx: usize,
    loc: Loc,
}

/// The mathematical form of an `Input`.
pub struct InputModel {
    pub chars: Seq<char>,
    pub idx: nat,
    pub loc: LocModel,
}

impl InputModel {
    /// The offset is inside the text and the location does not run ahead of it.
    pub open spec fn wf(self) -> bool {
        &&& self.idx <= self.chars.len()
        &&& self.chars.len() <= usize::MAX
        &&& self.loc.bounded()
        &&& self.loc.pos <= self.idx
    }

    /// The location is the one reached by reading the text up to the offset.
    pub open spec fn synced(self) -> bool {
        self.loc == loc_after(self.chars.take(self.idx as int))
    }
}

/// The character `i` places after the offset, if the text reaches there.
pub open spec fn char_at(m: InputModel, i: int) -> Option<char> {
    if 0 <= i && m.idx + i < m.chars.len() {
        Some(m.chars[m.idx + i])
    } else {
        None
    }
}

/// The cursor after reading `n` characters. Reading past the end moves the
/// offset to the end and leaves the location where it was.
pub open spec fn next_model(m: InputModel, n: nat) -> InputModel {
    if m.idx + n <= m.chars.len() {
        InputModel {
            chars: m.chars,
            idx: m.idx + n,
            loc: advance(m.loc, m.chars.subrange(m.idx as int, (m.idx + n) as int)),
        }
    } else {
        InputModel { chars: m.chars, idx: m.chars.len(), loc: m.loc }
    }
}

/// Reading `n` characters from a synced cursor, within the text, keeps it synced.
pub proof fn lemma_next_synced(m: InputModel, n: nat)
    requires
        m.wf(),
        m.synced(),
        m.idx + n <= m.chars.len(),
    ensures
        next_model(m, n).synced(),
        next_model(m, n).wf(),
        next_model(m, n).loc.pos == m.idx + n,
{
    lemma_synced_pos(m);
    let a = m.chars.take(m.idx as int);
    let b = m.chars.subrange(m.idx as int, (m.idx + n) as int);
    lemma_advance_concat(start_model(), a, b);
    assert(a + b =~= m.chars.take((m.idx + n) as int));
    lemma_advance_pos(m.loc, b);
}

/// A synced cursor's location is at its offset.
pub proof fn lemma_synced_pos(m: InputModel)
    requires
        m.synced(),
        m.idx <= m.chars.len(),
    ensures
        m.loc.pos == m.idx,
        m.loc.bounded(),
{
    lemma_advance_pos(start_model(), m.chars.take(m.idx as int));
}

impl<'a> View for Input<'a> {
    type V = InputModel;

    closed spec fn view(&self) -> InputModel {
        InputModel { chars: self.chrs@, idx: self.idx as nat, loc: self.loc@ }
    }
}

impl<'a> Input<'a> {
    /// A cursor at the start of `chrs`.
    pub fn new(chrs: &'a [char]) -> (r: Input<'a>)
        ensures
            r@ == (InputModel { chars: chrs@, idx: 0, loc: start_model() }),
            r@.wf(),
            r@.synced(),
    {
        let _len = chrs.len();
        let r = Input { chrs, idx: 0, loc: Loc::start() };
        assert(chrs@.take(0) =~= Seq::<char>::empty());
        r
    }

    /// The `n` characters that start `i` places after the offset, if the text
    /// holds them all. With `n == 0` the result is an empty slice whenever the
    /// offset plus `i` is within the text.
    pub fn get(&self, i: usize, n: usize) -> (r: Option<&'a [char]>)
        requires
            self@.wf(),
        ensures
            r is Some <==> self@.idx + i + n <= self@.chars.len(),
            r matches Some(x) ==> x@ == self@.chars.subrange(
                self@.idx + i,
                self@.idx + i + n,
            ),
    {
        let rem = self.chrs.len() - self.idx;
        if i <= rem && n <= rem - i {
            let start = self.idx + i;
            Some(&self.chrs[start..start + n])
        } else {
            None
        }
    }

    /// The character `i` places after the offset.
    pub fn get_char(&self, i: usize) -> (r: Option<char>)
        requires
            self@.wf(),
        ensures
            r == char_at(self@, i as int),
    {
        let rem = self.chrs.len() - self.idx;
        if i < rem {
            Some(self.chrs[self.idx + i])
        } else {
            None
        }
    }

    /// Steps the location over the next `n` characters, when the text holds them.
    fn calc_loc(&mut self, n: usize)
        requires
            old(self)@.wf(),
        ensures
            final(self).chrs == old(self).chrs,
            final(self).idx == old(self).idx,
            final(self)@.loc == if old(self)@.idx + n <= old(self)@.chars.len() {
                advance(
                    old(self)@.loc,
                    old(self)@.chars.subrange(old(self)@.idx as int, old(self)@.idx + n),
                )
            } else {
                old(self)@.loc
            },
            final(self)@.loc.bounded(),
    {
        let rem = self.chrs.len() - self.idx;
        if n <= rem {
            let ghost m = self@;
            let mut loc = self.loc;
            let mut k: usize = 0;
            proof {
                assert(m.chars.subrange(m.idx as int, m.idx as int) =~= Seq::<char>::empty());
            }
            while k < n
                invariant
                    k <= n,
                    n <= rem,
                    rem == self.chrs.len() - self.idx,
                    self@ == m,
                    m.wf(),
                    loc@ == advance(m.loc, m.chars.subrange(m.idx as int, (m.idx + k) as int)),
                    loc@.bounded(),
                    loc@.pos == m.loc.pos + k,
                decreases n - k,
            {
                let c = self.chrs[self.idx + k];
                proof {
                    lemma_advance_pos(m.loc, m.chars.subrange(m.idx as int, (m.idx + k) as int));
                }
                loc.step(c);
                proof {
                    let s1 = m.chars.subrange(m.idx as int, (m.idx + k + 1) as int);
                    assert(s1.drop_last() =~= m.chars.subrange(m.idx as int, (m.idx + k) as int));
                    assert(s1.last() == c);
                }
                k = k + 1;
            }
            self.loc = loc;
        }
    }

    /// Reads `n` characters: the offset moves by `n`, or to the end of the text
    /// when fewer remain, and the location follows when all `n` were there.
    pub fn next(&mut self, n: usize)
        requires
            old(self)@.wf(),
        ensures
            final(self)@ == next_model(old(self)@, n as nat),
            final(self)@.wf(),
    {
        let ghost m = self@;
        self.calc_loc(n);
        let rem = self.chrs.len() - self.idx;
        if n <= rem {
            self.idx = self.idx + n;
            proof {
                lemma_advance_pos(m.loc, m.chars.subrange(m.idx as int, (m.idx + n) as int));
            }
        } else {
            self.idx = self.chrs.len();
        }
    }

    /// The location reached so far.
    pub fn loc(&self) -> (r: Loc)
        ensures
            r@ == self@.loc,
    {
        self.loc
    }
}

} // verus!

use vstd::prelude::*;
use core::cmp::Ordering;

verus! {

/// A position in source text: the character offset, the zero-based row and
/// column, and the offset at which the current line starts.
#[derive(Clone, Copy, Debug, Hash, Eq, Ord)]
pub struct Loc {
    pub pos: usize,
    pub row: usize,
    pub col: usize,
    pub line_start_pos: usize,
}

/// The mathematical form of a `Loc`.
pub struct LocModel {
    pub pos: nat,
    pub row: nat,
    pub col: nat,
    pub line_start_pos: nat,
}

impl View for Loc {
    type V = LocModel;

    open spec fn view(&self) -> LocModel {
        LocModel {
            pos: self.pos as nat,
            row: self.row as nat,
            col: self.col as nat,
            line_start_pos: self.line_start_pos as nat,
        }
    }
}

/// The location of the first character of a text.
pub open spec fn start_model() -> LocModel {
    LocModel { pos: 0, row: 0, col: 0, line_start_pos: 0 }
}

/// The location after stepping over one character: a newline starts a new
/// row, a carriage return only advances the offset, any other character
/// advances the column.
pub open spec fn step_model(l: LocModel, c: char) -> LocModel {
    if c == '\n' {
        LocModel { pos: l.pos + 1, row: l.row + 1, col: 0, line_start_pos: l.pos + 1 }
    } else if c == '\r' {
        LocModel { pos: l.pos + 1, row: l.row, col: l.col, line_start_pos: l.line_start_pos }
    } else {
        LocModel { pos: l.pos + 1, row: l.row, col: l.col + 1, line_start_pos: l.line_start_pos }
    }
}

/// The location reached from `l` after stepping over every character of `s`.
pub open spec fn advance(l: LocModel, s: Seq<char>) -> LocModel
    decreases s.len(),
{
    if s.len() == 0 {
        l
    } else {
        step_model(advance(l, s.drop_last()), s.last())
    }
}

/// The location just after the text `s`, counted from the start of a text.
pub open spec fn loc_after(s: Seq<char>) -> LocModel {
    advance(start_model(), s)
}

impl LocModel {
    /// Row, column and line start never run past the offset.
    pub open spec fn bounded(self) -> bool {
        &&& self.row <= self.pos
        &&& self.col <= self.pos
        &&& self.line_start_pos <= self.pos
    }
}

/// Stepping over `a` and then over `b` is stepping over `a + b`.
pub proof fn lemma_advance_concat(l: LocModel, a: Seq<char>, b: Seq<char>)
    ensures
        advance(advance(l, a), b) == advance(l, a + b),
    decreases b.len(),
{
    if b.len() == 0 {
        assert(a + b =~= a);
    } else {
        lemma_advance_concat(l, a, b.drop_last());
        assert((a + b).drop_last() =~= a + b.drop_last());
        assert((a + b).last() == b.last());
    }
}

/// Advancing over `s` moves the offset by exactly the length of `s`, and keeps
/// a bounded location bounded.
pub proof fn lemma_advance_pos(l: LocModel, s: Seq<char>)
    requires
        l.bounded(),
    ensures
        advance(l, s).pos == l.pos + s.len(),
        advance(l, s).bounded(),
    decreases s.len(),
{
    if s.len() > 0 {
        lemma_advance_pos(l, s.drop_last());
    }
}

impl Loc {
    /// Steps over the character `c`.
    pub fn step(&mut self, c: char)
        requires
            old(self)@.bounded(),
            old(self).pos < usize::MAX,
        ensures
            final(self)@ == step_model(old(self)@, c),
            final(self)@.bounded(),
    {
        self.pos = self.pos + 1;
        if c == '\n' {
            self.row = self.row + 1;
            self.col = 0;
            self.line_start_pos = self.pos;
        } else if c != '\r' {
            self.col = self.col + 1;
        }
    }

    /// The start of a text.
    pub fn start() -> (r: Loc)
        ensures
            r@ == start_model(),
    {
        Loc { pos: 0, row: 0, col: 0, line_start_pos: 0 }
    }
}

impl Default for Loc {
    fn default() -> (r: Loc)
        ensures
            r@ == start_model(),
    {
        Loc { pos: 0, row: 0, col: 0, line_start_pos: 0 }
    }
}

/// Two locations are equal when they are at the same offset.
impl PartialEq for Loc {
    fn eq(&self, other: &Self) -> (r: bool) {
        self.pos == other.pos
    }
}

impl vstd::std_specs::cmp::PartialEqSpecImpl for Loc {
    open spec fn obeys_eq_spec() -> bool {
        true
    }

    open spec fn eq_spec(&self, other: &Loc) -> bool {
        self.pos == other.pos
    }
}

/// Locations are ordered by offset.
impl PartialOrd for Loc {
    fn partial_cmp(&self, other: &Self) -> (r: Option<Ordering>) {
        if self.pos < other.pos {
            Some(Ordering::Less)
        } else if self.pos == other.pos {
            Some(Ordering::Equal)
        } else {
            Some(Ordering::Greater)
        }
    }
}

impl vstd::std_specs::cmp::PartialOrdSpecImpl for Loc {
    open spec fn obeys_partial_cmp_spec() -> bool {
        true
    }

    open spec fn partial_cmp_spec(&self, other: &Loc) -> Option<Ordering> {
        if self.pos < other.pos {
            Some(Ordering::Less)
        } else if self.pos == other.pos {
            Some(Ordering::Equal)
        } else {
            Some(Ordering::Greater)
        }
    }
}

} // verus!

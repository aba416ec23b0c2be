//! Configuration paths compared as file paths: by their components, so
//! that repeated separators, a trailing separator and `.` in the middle of a
//! path make no difference.

use vstd::prelude::*;
use crate::error_order::{text_order, lemma_text_order_flip, lemma_text_order_trans, lemma_text_order_zero, chars_order};
use crate::text::chars_of;

verus! {

/// A component of a path: the root, `.` at the start, `..`, or a name.
pub enum PathComp {
    Root,
    Cur,
    Parent,
    Normal(Seq<char>),
}

/// Where the part of `s` that starts at `i` ends: at the next `/` or the
/// end of the text.
pub open spec fn seg_end(s: Seq<char>, i: int) -> int
    decreases s.len() - i,
{
    if i < 0 || i >= s.len() || s[i] == '/' {
        i
    } else {
        seg_end(s, i + 1)
    }
}

pub proof fn lemma_seg_end(s: Seq<char>, i: int)
    requires
        0 <= i <= s.len(),
    ensures
        i <= seg_end(s, i) <= s.len(),
        seg_end(s, i) < s.len() ==> s[seg_end(s, i)] == '/',
        forall|j: int| i <= j < seg_end(s, i) ==> s[j] != '/',
    decreases s.len() - i,
{
    if i < s.len() && s[i] != '/' {
        lemma_seg_end(s, i + 1);
    }
}

/// The component a part between separators makes: none for an empty part,
/// none for `.` except at the start of a path without a root.
pub open spec fn part_comp(p: Seq<char>, at_start: bool) -> Seq<PathComp> {
    if p.len() == 0 {
        Seq::empty()
    } else if p == seq!['.'] {
        if at_start {
            seq![PathComp::Cur]
        } else {
            Seq::empty()
        }
    } else if p == seq!['.', '.'] {
        seq![PathComp::Parent]
    } else {
        seq![PathComp::Normal(p)]
    }
}

/// The components of the parts of `s` from offset `i` on.
pub open spec fn comps_at(s: Seq<char>, i: int, at_start: bool) -> Seq<PathComp>
    decreases s.len() - i,
{
    if i < 0 || i >= s.len() {
        Seq::empty()
    } else {
        let e = seg_end(s, i);
        proof {
            lemma_seg_end(s, i);
        }
        if e < s.len() {
            part_comp(s.subrange(i, e), at_start) + comps_at(s, e + 1, false)
        } else {
            part_comp(s.subrange(i, e), at_start)
        }
    }
}

/// The components of a path: the root if it starts with `/`, then its parts
/// between separators.
pub open spec fn components(s: Seq<char>) -> Seq<PathComp> {
    if s.len() > 0 && s[0] == '/' {
        seq![PathComp::Root] + comps_at(s, 1, false)
    } else {
        comps_at(s, 0, true)
    }
}

/// The rank of a component kind: root, `.`, `..`, name.
pub open spec fn comp_rank(c: PathComp) -> int {
    match c {
        PathComp::Root => 0,
        PathComp::Cur => 1,
        PathComp::Parent => 2,
        PathComp::Normal(_) => 3,
    }
}

/// How two components compare: by kind, then names by their text.
pub open spec fn comp_order(a: PathComp, b: PathComp) -> int {
    if comp_rank(a) < comp_rank(b) {
        -1
    } else if comp_rank(a) > comp_rank(b) {
        1
    } else {
        match (a, b) {
            (PathComp::Normal(x), PathComp::Normal(y)) => text_order(x, y),
            _ => 0,
        }
    }
}

/// How two sequences of components compare, one component after another;
/// a sequence comes before the longer ones it starts.
pub open spec fn comps_order(a: Seq<PathComp>, b: Seq<PathComp>) -> int
    decreases a.len(),
{
    if a.len() == 0 && b.len() == 0 {
        0
    } else if a.len() == 0 {
        -1
    } else if b.len() == 0 {
        1
    } else if comp_order(a[0], b[0]) != 0 {
        comp_order(a[0], b[0])
    } else {
        comps_order(a.drop_first(), b.drop_first())
    }
}

/// How two paths compare: by their components.
pub open spec fn path_text_order(a: Seq<char>, b: Seq<char>) -> int {
    comps_order(components(a), components(b))
}

/// Components compare the opposite way round, transitively, and equal
/// exactly when they are equal.
pub proof fn lemma_comp_order(a: PathComp, b: PathComp, c: PathComp)
    ensures
        comp_order(a, b) == -comp_order(b, a),
        comp_order(a, b) <= 0 && comp_order(b, c) <= 0 ==> comp_order(a, c) <= 0,
        (comp_order(a, b) == 0) == (a == b),
{
    match (a, b) {
        (PathComp::Normal(x), PathComp::Normal(y)) => {
            lemma_text_order_flip(x, y);
            lemma_text_order_zero(x, y);
        },
        _ => {},
    }
    match (a, b, c) {
        (PathComp::Normal(x), PathComp::Normal(y), PathComp::Normal(z)) => {
            if text_order(x, y) <= 0 && text_order(y, z) <= 0 {
                lemma_text_order_trans(x, y, z);
            }
        },
        _ => {},
    }
}

/// Sequences of components compare the opposite way round, transitively,
/// and equal exactly when they are equal.
pub proof fn lemma_comps_order(a: Seq<PathComp>, b: Seq<PathComp>, c: Seq<PathComp>)
    ensures
        comps_order(a, b) == -comps_order(b, a),
        comps_order(a, b) <= 0 && comps_order(b, c) <= 0 ==> comps_order(a, c) <= 0,
        (comps_order(a, b) == 0) == (a == b),
    decreases a.len(),
{
    if a.len() > 0 && b.len() > 0 {
        lemma_comp_order(a[0], b[0], if c.len() > 0 {
            c[0]
        } else {
            a[0]
        });
        if c.len() > 0 {
            lemma_comp_order(b[0], c[0], a[0]);
            lemma_comp_order(a[0], c[0], b[0]);
        }
        lemma_comps_order(a.drop_first(), b.drop_first(), if c.len() > 0 {
            c.drop_first()
        } else {
            c
        });
        if comp_order(a[0], b[0]) == 0 && a.drop_first() == b.drop_first() {
            assert(a =~= seq![a[0]] + a.drop_first());
            assert(b =~= seq![b[0]] + b.drop_first());
        }
        if a == b {
            assert(a.drop_first() =~= b.drop_first());
        }
    } else if a.len() == 0 && b.len() == 0 {
        assert(a =~= b);
    }
}

/// A component of a path, as the program holds it.
pub enum PathPart {
    Root,
    Cur,
    Parent,
    Normal(Vec<char>),
}

pub open spec fn part_view(p: PathPart) -> PathComp {
    match p {
        PathPart::Root => PathComp::Root,
        PathPart::Cur => PathComp::Cur,
        PathPart::Parent => PathComp::Parent,
        PathPart::Normal(v) => PathComp::Normal(v@),
    }
}

pub open spec fn parts_view(ps: Seq<PathPart>) -> Seq<PathComp> {
    ps.map_values(|p: PathPart| part_view(p))
}

/// The components of the path `s`.
pub fn path_parts(s: &str) -> (r: Vec<PathPart>)
    ensures
        parts_view(r@) == components(s@),
{
    let cs = chars_of(s);
    let n = cs.len();
    let ghost t = s@;
    let mut r: Vec<PathPart> = Vec::new();
    let mut i: usize = 0;
    let mut first = true;
    if n > 0 && cs[0] == '/' {
        r.push(PathPart::Root);
        i = 1;
        first = false;
    }
    proof {
        assert(parts_view(r@) + comps_at(t, i as int, first) =~= components(t));
    }
    while i < n
        invariant
            cs@ == t,
            n == t.len(),
            i <= n,
            parts_view(r@) + comps_at(t, i as int, first) == components(t),
        decreases n - i,
    {
        let ghost r0 = r@;
        let mut e = i;
        proof {
            lemma_seg_end(t, i as int);
        }
        while e < n && cs[e] != '/'
            invariant
                cs@ == t,
                n == t.len(),
                i <= e <= n,
                seg_end(t, e as int) == seg_end(t, i as int),
            decreases n - e,
        {
            e += 1;
        }
        let ghost p = t.subrange(i as int, e as int);
        let len = e - i;
        if len == 0 {
        } else if len == 1 && cs[i] == '.' {
            if first {
                r.push(PathPart::Cur);
            }
            proof {
                assert(p =~= seq!['.']);
            }
        } else if len == 2 && cs[i] == '.' && cs[i + 1] == '.' {
            r.push(PathPart::Parent);
            proof {
                assert(p =~= seq!['.', '.']);
            }
        } else {
            let mut v: Vec<char> = Vec::new();
            let mut k = i;
            while k < e
                invariant
                    cs@ == t,
                    n == t.len(),
                    i <= k <= e <= n,
                    v@ == t.subrange(i as int, k as int),
                decreases e - k,
            {
                v.push(cs[k]);
                proof {
                    assert(t.subrange(i as int, k + 1) =~= t.subrange(i as int, k as int).push(t[k as int]));
                }
                k += 1;
            }
            proof {
                if len == 1 {
                    assert(p != seq!['.']) by {
                        assert(p[0] == t[i as int]);
                    }
                }
                if len == 2 {
                    assert(p != seq!['.', '.']) by {
                        assert(p[0] == t[i as int] && p[1] == t[i + 1]);
                    }
                }
            }
            r.push(PathPart::Normal(v));
        }
        proof {
            assert(parts_view(r@) =~= parts_view(r0) + part_comp(p, first));
        }
        if e >= n {
            proof {
                assert(comps_at(t, i as int, first) == part_comp(p, first));
                assert(comps_at(t, e as int, false) =~= Seq::<PathComp>::empty());
                assert(parts_view(r@) + comps_at(t, e as int, false) =~= parts_view(r@));
            }
            i = e;
            first = false;
        } else {
            proof {
                assert(comps_at(t, i as int, first) == part_comp(p, first) + comps_at(t, e + 1, false));
                assert(parts_view(r0) + part_comp(p, first) + comps_at(t, e + 1, false) =~= parts_view(r0) + (
                part_comp(p, first) + comps_at(t, e + 1, false)));
            }
            i = e + 1;
            first = false;
        }
    }
    proof {
        assert(comps_at(t, i as int, first) =~= Seq::<PathComp>::empty());
        assert(parts_view(r@) + Seq::<PathComp>::empty() =~= parts_view(r@));
    }
    r
}

/// How two components compare.
fn part_order(a: &PathPart, b: &PathPart) -> (r: i8)
    ensures
        r == comp_order(part_view(*a), part_view(*b)),
{
    let ra: u8 = match a {
        PathPart::Root => 0,
        PathPart::Cur => 1,
        PathPart::Parent => 2,
        PathPart::Normal(_) => 3,
    };
    let rb: u8 = match b {
        PathPart::Root => 0,
        PathPart::Cur => 1,
        PathPart::Parent => 2,
        PathPart::Normal(_) => 3,
    };
    if ra < rb {
        -1
    } else if ra > rb {
        1
    } else {
        match (a, b) {
            (PathPart::Normal(x), PathPart::Normal(y)) => chars_order(x, y),
            _ => 0,
        }
    }
}

/// How two paths compare, by their components.
pub(crate) fn path_text_order_exec(a: &str, b: &str) -> (r: i8)
    ensures
        r == path_text_order(a@, b@),
{
    let x = path_parts(a);
    let y = path_parts(b);
    let ghost xa = parts_view(x@);
    let ghost ya = parts_view(y@);
    let mut i: usize = 0;
    proof {
        assert(xa.subrange(0, xa.len() as int) =~= xa);
        assert(ya.subrange(0, ya.len() as int) =~= ya);
    }
    while i < x.len() && i < y.len()
        invariant
            i <= x@.len(),
            i <= y@.len(),
            xa == parts_view(x@),
            ya == parts_view(y@),
            xa == components(a@),
            ya == components(b@),
            comps_order(xa, ya) == comps_order(xa.subrange(i as int, xa.len() as int), ya.subrange(i as int, ya.len() as int)),
        decreases x.len() - i,
    {
        let c = part_order(&x[i], &y[i]);
        let ghost sa = xa.subrange(i as int, xa.len() as int);
        let ghost sb = ya.subrange(i as int, ya.len() as int);
        proof {
            assert(sa[0] == part_view(x@[i as int]));
            assert(sb[0] == part_view(y@[i as int]));
        }
        if c != 0 {
            return c;
        }
        proof {
            assert(sa.drop_first() =~= xa.subrange(i + 1, xa.len() as int));
            assert(sb.drop_first() =~= ya.subrange(i + 1, ya.len() as int));
        }
        i += 1;
    }
    if i == x.len() && i == y.len() {
        0
    } else if i == x.len() {
        -1
    } else {
        1
    }
}

} // verus!

//! The text form of a configuration: one line per record, indented by
//! depth, with its values quoted.

use vstd::prelude::*;
use crate::conf::Conf;
use crate::parser::{RecordModel, ValueModel, Value, Record, tree_wf, depth_of, records_model};
use crate::display::{debug_text, debug_str};
use crate::text::push_str;

verus! {

/// The values quoted and joined with `, `.
pub open spec fn values_text(vs: Seq<ValueModel>) -> Seq<char>
    decreases vs.len(),
{
    if vs.len() == 0 {
        Seq::empty()
    } else if vs.len() == 1 {
        debug_text(vs[0].text)
    } else {
        values_text(vs.drop_last()) + ", "@ + debug_text(vs.last().text)
    }
}

/// Four spaces per level.
pub open spec fn indent_text(depth: nat) -> Seq<char>
    decreases depth,
{
    if depth == 0 {
        Seq::empty()
    } else {
        indent_text((depth - 1) as nat) + "    "@
    }
}

/// The line of record `i`.
pub open spec fn record_line(rs: Seq<RecordModel>, i: int) -> Seq<char> {
    indent_text(depth_of(rs, i)) + values_text(rs[i].values) + "\n"@
}

/// The lines of record `i` and of the records under it, in order.
pub open spec fn subtree_text(rs: Seq<RecordModel>, i: int) -> Seq<char>
    decreases rs.len() - i, rs[i].children.len() + 1,
{
    if 0 <= i < rs.len() {
        record_line(rs, i) + children_text(rs, i, rs[i].children.len() as int)
    } else {
        Seq::empty()
    }
}

/// The lines of the first `k` children of record `i` and of the records
/// under them.
pub open spec fn children_text(rs: Seq<RecordModel>, i: int, k: int) -> Seq<char>
    decreases rs.len() - i, k,
{
    if 0 <= i < rs.len() && 0 < k <= rs[i].children.len() {
        let c = rs[i].children[k - 1] as int;
        children_text(rs, i, k - 1) + if i < c < rs.len() {
            subtree_text(rs, c)
        } else {
            Seq::empty()
        }
    } else {
        Seq::empty()
    }
}

/// The text of a configuration: `Conf`, then the lines of the records under
/// the top record.
pub open spec fn conf_text(rs: Seq<RecordModel>) -> Seq<char> {
    "Conf\n"@ + children_text(rs, 0, rs[0].children.len() as int)
}

/// The lines of the records on a stack, the last first.
pub open spec fn stack_text(rs: Seq<RecordModel>, stk: Seq<usize>) -> Seq<char>
    decreases stk.len(),
{
    if stk.len() == 0 {
        Seq::empty()
    } else {
        subtree_text(rs, stk.last() as int) + stack_text(rs, stk.drop_last())
    }
}

/// The lines of the records `xs` and of the records under them, in order.
pub open spec fn subtrees_text(rs: Seq<RecordModel>, xs: Seq<usize>) -> Seq<char>
    decreases xs.len(),
{
    if xs.len() == 0 {
        Seq::empty()
    } else {
        subtrees_text(rs, xs.drop_last()) + subtree_text(rs, xs.last() as int)
    }
}

/// The lines of records listed one after the other start with those of the
/// first.
proof fn lemma_subtrees_front(rs: Seq<RecordModel>, xs: Seq<usize>)
    requires
        xs.len() > 0,
    ensures
        subtrees_text(rs, xs) == subtree_text(rs, xs[0] as int) + subtrees_text(rs, xs.skip(1)),
    decreases xs.len(),
{
    if xs.len() == 1 {
        assert(xs.drop_last() =~= Seq::<usize>::empty());
        assert(xs.skip(1) =~= Seq::<usize>::empty());
    } else {
        lemma_subtrees_front(rs, xs.drop_last());
        assert(xs.drop_last().skip(1) =~= xs.skip(1).drop_last());
        assert(xs.skip(1).last() == xs.last());
        assert(xs.drop_last()[0] == xs[0]);
    }
}

/// Pushing records last first puts their lines before those of the stack.
proof fn lemma_push_reversed(rs: Seq<RecordModel>, xs: Seq<usize>, stk: Seq<usize>)
    ensures
        stack_text(rs, stk + xs.reverse()) == subtrees_text(rs, xs) + stack_text(rs, stk),
    decreases xs.len(),
{
    if xs.len() == 0 {
        assert(stk + xs.reverse() =~= stk);
    } else {
        let s2 = stk + xs.reverse();
        assert(s2.last() == xs[0]);
        assert(s2.drop_last() =~= stk + xs.skip(1).reverse());
        lemma_push_reversed(rs, xs.skip(1), stk);
        lemma_subtrees_front(rs, xs);
    }
}

/// The lines of the first `k` children of a record are those of the
/// children listed.
proof fn lemma_children_subtrees(rs: Seq<RecordModel>, i: int, k: int)
    requires
        tree_wf(rs),
        0 <= i < rs.len(),
        0 <= k <= rs[i].children.len(),
    ensures
        children_text(rs, i, k) == subtrees_text(rs, rs[i].children.take(k)),
    decreases k,
{
    if k > 0 {
        lemma_children_subtrees(rs, i, k - 1);
        let ch = rs[i].children;
        assert(ch.take(k).drop_last() =~= ch.take(k - 1));
        assert(i < ch[k - 1] < rs.len());
    }
}

/// Pushing the children of record `i` last first puts their lines before
/// those of the stack.
proof fn lemma_push_children(rs: Seq<RecordModel>, i: int, stk: Seq<usize>)
    requires
        tree_wf(rs),
        0 <= i < rs.len(),
    ensures
        stack_text(rs, stk + rs[i].children.reverse()) == children_text(rs, i, rs[i].children.len() as int)
            + stack_text(rs, stk),
{
    lemma_push_reversed(rs, rs[i].children, stk);
    lemma_children_subtrees(rs, i, rs[i].children.len() as int);
    assert(rs[i].children.take(rs[i].children.len() as int) =~= rs[i].children);
}

/// Appends the values of a record, quoted and joined with `, `.
fn push_values(s: &mut String, vs: &Vec<Value>)
    ensures
        final(s)@ == old(s)@ + values_text(vs@.map_values(|v: Value| v@)),
{
    let ghost m = vs@.map_values(|v: Value| v@);
    let mut k: usize = 0;
    while k < vs.len()
        invariant
            k <= vs@.len(),
            m == vs@.map_values(|v: Value| v@),
            s@ == old(s)@ + values_text(m.take(k as int)),
        decreases vs.len() - k,
    {
        if k > 0 {
            push_str(s, ", ");
        }
        let d = debug_str(vs[k].extracted.as_str());
        push_str(s, d.as_str());
        proof {
            let t = m.take(k + 1);
            assert(t.drop_last() =~= m.take(k as int));
            assert(t.last().text == vs@[k as int].extracted@);
            if k == 0 {
                assert(values_text(m.take(0)) =~= Seq::<char>::empty());
            }
        }
        k += 1;
    }
    proof {
        assert(m.take(k as int) =~= m);
    }
}

impl Conf {
    /// The text of the configuration: `Conf`, then one line per record in
    /// order, indented four spaces per level, with its values quoted and
    /// joined with `, `.
    pub fn to_string(&self) -> (r: String)
        ensures
            r@ == conf_text(self.records()),
    {
        let root = self.root();
        let ghost rs = self.records();
        let ghost full = conf_text(rs);
        let mut out = String::new();
        push_str(&mut out, "Conf\n");
        let top = self.record(0);
        let mut stk: Vec<usize> = Vec::new();
        let mut k = top.children.len();
        while k > 0
            invariant
                k <= top.children@.len(),
                top@ == rs[0],
                tree_wf(rs),
                stk@ == rs[0].children.skip(k as int).reverse(),
            decreases k,
        {
            k -= 1;
            stk.push(top.children[k]);
            proof {
                assert(rs[0].children.skip(k as int).reverse() =~= rs[0].children.skip(k + 1).reverse().push(rs[0].children[k as int]));
            }
        }
        proof {
            assert(rs[0].children.skip(0) =~= rs[0].children);
            lemma_push_children(rs, 0, Seq::empty());
            assert(Seq::<usize>::empty() + rs[0].children.reverse() =~= stk@);
            assert(stack_text(rs, Seq::<usize>::empty()) =~= Seq::<char>::empty());
            assert(full =~= out@ + stack_text(rs, stk@));
        }
        while stk.len() > 0
            invariant
                tree_wf(rs),
                rs == self.records(),
                forall|j: int| 0 <= j < stk@.len() ==> 0 < #[trigger] stk@[j] < rs.len(),
                full == out@ + stack_text(rs, stk@),
            decreases full.len() - out@.len(),
        {
            let ghost s0 = stk@;
            let i = stk.pop().unwrap();
            assert(s0.last() == i);
            assert(stk@ =~= s0.drop_last());
            let rec = self.record(i);
            let ghost ch = rs[i as int].children;
            let mut c = rec.children.len();
            let ghost base = stk@;
            while c > 0
                invariant
                    c <= ch.len(),
                    rec@ == rs[i as int],
                    ch == rs[i as int].children,
                    tree_wf(rs),
                    0 < i < rs.len(),
                    stk@ == base + ch.skip(c as int).reverse(),
                    forall|j: int| 0 <= j < stk@.len() ==> 0 < #[trigger] stk@[j] < rs.len(),
                decreases c,
            {
                c -= 1;
                let x = rec.children[c];
                assert(i < x < rs.len());
                stk.push(x);
                proof {
                    assert(base + ch.skip(c as int).reverse() =~= (base + ch.skip(c + 1).reverse()).push(ch[c as int]));
                }
            }
            let ghost before = out@;
            let d = self.depth_at(i);
            let mut q: usize = 0;
            while q < d
                invariant
                    q <= d,
                    out@ == before + indent_text(q as nat),
                decreases d - q,
            {
                push_str(&mut out, "    ");
                q += 1;
            }
            push_values(&mut out, &rec.values);
            push_str(&mut out, "\n");
            proof {
                reveal_strlit("\n");
                assert(ch.skip(0) =~= ch);
                lemma_push_children(rs, i as int, base);
                assert(base + ch.reverse() =~= stk@);
                assert(out@ =~= before + record_line(rs, i as int));
                assert(subtree_text(rs, i as int) == record_line(rs, i as int) + children_text(
                    rs,
                    i as int,
                    ch.len() as int,
                ));
                assert(full =~= out@ + stack_text(rs, stk@));
            }
        }
        proof {
            assert(stack_text(rs, stk@) =~= Seq::<char>::empty());
            assert(full =~= out@);
        }
        out
    }
}

/// The values as they are, joined with `, `.
pub open spec fn raw_values_text(vs: Seq<ValueModel>) -> Seq<char>
    decreases vs.len(),
{
    if vs.len() == 0 {
        Seq::empty()
    } else if vs.len() == 1 {
        vs[0].text
    } else {
        raw_values_text(vs.drop_last()) + ", "@ + vs.last().text
    }
}

/// Three spaces per level.
pub open spec fn tree_indent(depth: nat) -> Seq<char>
    decreases depth,
{
    if depth == 0 {
        Seq::empty()
    } else {
        tree_indent((depth - 1) as nat) + "   "@
    }
}

/// The tree line of record `i`: its values indented by its depth.
pub open spec fn tree_line(rs: Seq<RecordModel>, i: int) -> (int, Seq<char>) {
    (i, tree_indent(depth_of(rs, i)) + raw_values_text(rs[i].values))
}

/// The tree lines of record `i` and of the records under it, in order.
pub open spec fn subtree_lines(rs: Seq<RecordModel>, i: int) -> Seq<(int, Seq<char>)>
    decreases rs.len() - i, rs[i].children.len() + 1,
{
    if 0 <= i < rs.len() {
        seq![tree_line(rs, i)] + children_lines(rs, i, rs[i].children.len() as int)
    } else {
        Seq::empty()
    }
}

/// The tree lines of the first `k` children of record `i` and of the
/// records under them.
pub open spec fn children_lines(rs: Seq<RecordModel>, i: int, k: int) -> Seq<(int, Seq<char>)>
    decreases rs.len() - i, k,
{
    if 0 <= i < rs.len() && 0 < k <= rs[i].children.len() {
        let c = rs[i].children[k - 1] as int;
        children_lines(rs, i, k - 1) + if i < c < rs.len() {
            subtree_lines(rs, c)
        } else {
            Seq::empty()
        }
    } else {
        Seq::empty()
    }
}

/// The tree lines of the records on a stack, the last first.
pub open spec fn stack_lines(rs: Seq<RecordModel>, stk: Seq<usize>) -> Seq<(int, Seq<char>)>
    decreases stk.len(),
{
    if stk.len() == 0 {
        Seq::empty()
    } else {
        subtree_lines(rs, stk.last() as int) + stack_lines(rs, stk.drop_last())
    }
}

/// The tree lines of the records `xs` and of the records under them.
pub open spec fn subtrees_lines(rs: Seq<RecordModel>, xs: Seq<usize>) -> Seq<(int, Seq<char>)>
    decreases xs.len(),
{
    if xs.len() == 0 {
        Seq::empty()
    } else {
        subtrees_lines(rs, xs.drop_last()) + subtree_lines(rs, xs.last() as int)
    }
}

proof fn lemma_subtrees_lines_front(rs: Seq<RecordModel>, xs: Seq<usize>)
    requires
        xs.len() > 0,
    ensures
        subtrees_lines(rs, xs) == subtree_lines(rs, xs[0] as int) + subtrees_lines(rs, xs.skip(1)),
    decreases xs.len(),
{
    if xs.len() == 1 {
        assert(xs.drop_last() =~= Seq::<usize>::empty());
        assert(xs.skip(1) =~= Seq::<usize>::empty());
        assert(subtree_lines(rs, xs[0] as int) + Seq::<(int, Seq<char>)>::empty() =~= subtree_lines(rs, xs[0] as int));
        assert(Seq::<(int, Seq<char>)>::empty() + subtree_lines(rs, xs[0] as int) =~= subtree_lines(rs, xs[0] as int));
    } else {
        lemma_subtrees_lines_front(rs, xs.drop_last());
        assert(xs.drop_last().skip(1) =~= xs.skip(1).drop_last());
        assert(xs.skip(1).last() == xs.last());
        assert(xs.drop_last()[0] == xs[0]);
    }
}

proof fn lemma_push_reversed_lines(rs: Seq<RecordModel>, xs: Seq<usize>, stk: Seq<usize>)
    ensures
        stack_lines(rs, stk + xs.reverse()) == subtrees_lines(rs, xs) + stack_lines(rs, stk),
    decreases xs.len(),
{
    if xs.len() == 0 {
        assert(stk + xs.reverse() =~= stk);
        assert(Seq::<(int, Seq<char>)>::empty() + stack_lines(rs, stk) =~= stack_lines(rs, stk));
    } else {
        let s2 = stk + xs.reverse();
        assert(s2.last() == xs[0]);
        assert(s2.drop_last() =~= stk + xs.skip(1).reverse());
        lemma_push_reversed_lines(rs, xs.skip(1), stk);
        lemma_subtrees_lines_front(rs, xs);
    }
}

proof fn lemma_children_lines(rs: Seq<RecordModel>, i: int, k: int)
    requires
        tree_wf(rs),
        0 <= i < rs.len(),
        0 <= k <= rs[i].children.len(),
    ensures
        children_lines(rs, i, k) == subtrees_lines(rs, rs[i].children.take(k)),
    decreases k,
{
    if k > 0 {
        lemma_children_lines(rs, i, k - 1);
        let ch = rs[i].children;
        assert(ch.take(k).drop_last() =~= ch.take(k - 1));
        assert(i < ch[k - 1] < rs.len());
    }
}

/// Appends the values as they are, joined with `, `.
fn push_raw_values(s: &mut String, vs: &Vec<Value>)
    ensures
        final(s)@ == old(s)@ + raw_values_text(vs@.map_values(|v: Value| v@)),
{
    let ghost m = vs@.map_values(|v: Value| v@);
    let mut k: usize = 0;
    while k < vs.len()
        invariant
            k <= vs@.len(),
            m == vs@.map_values(|v: Value| v@),
            s@ == old(s)@ + raw_values_text(m.take(k as int)),
        decreases vs.len() - k,
    {
        if k > 0 {
            push_str(s, ", ");
        }
        push_str(s, vs[k].extracted.as_str());
        proof {
            let t = m.take(k + 1);
            assert(t.drop_last() =~= m.take(k as int));
            assert(t.last().text == vs@[k as int].extracted@);
            if k == 0 {
                assert(raw_values_text(m.take(0)) =~= Seq::<char>::empty());
            }
        }
        k += 1;
    }
    proof {
        assert(m.take(k as int) =~= m);
    }
}

/// The depth of record `i`: the number of parents above it.
fn record_depth(records: &Vec<Record>, i: usize) -> (r: usize)
    requires
        tree_wf(records_model(records@)),
        i < records@.len(),
    ensures
        r == depth_of(records_model(records@), i as int),
{
    let ghost rs = records_model(records@);
    let mut cur = i;
    let mut d: usize = 0;
    while records[cur].parent.is_some()
        invariant
            tree_wf(rs),
            rs == records_model(records@),
            cur < rs.len(),
            d + cur <= i,
            depth_of(rs, i as int) == d + depth_of(rs, cur as int),
        decreases cur,
    {
        let p = records[cur].parent.unwrap();
        assert(rs[cur as int].parent == Some(p));
        assert(cur >= 1) by {
            assert(rs[0].parent is None);
        }
        d += 1;
        cur = p;
    }
    proof {
        assert(rs[cur as int].parent is None);
        assert(depth_of(rs, cur as int) == 0);
    }
    d
}

/// Whether `records` form a tree: the first record is the top, with no
/// values and no parent; every other record has values and an earlier
/// parent, which lists it among its children; children come after their
/// parent, in increasing order, and name it as their parent.
pub fn is_tree(records: &Vec<Record>) -> (r: bool)
    ensures
        r == tree_wf(records_model(records@)),
{
    let ghost m = records_model(records@);
    let n = records.len();
    if n == 0 {
        return false;
    }
    assert(m[0] == records@[0]@);
    if records[0].parent.is_some() || records[0].values.len() != 0 {
        return false;
    }
    let mut i: usize = 1;
    while i < n
        invariant
            1 <= i <= n,
            n == records@.len(),
            m == records_model(records@),
            forall|a: int|
                1 <= a < i ==> ((#[trigger] m[a]).parent matches Some(j) && j < a && m[a].values.len() >= 1),
        decreases n - i,
    {
        assert(m[i as int] == records@[i as int]@);
        let ok = match records[i].parent {
            Some(j) => j < i && records[i].values.len() >= 1,
            None => false,
        };
        if !ok {
            return false;
        }
        i += 1;
    }
    let mut i: usize = 0;
    while i < n
        invariant
            i <= n,
            n == records@.len(),
            m == records_model(records@),
            m.len() >= 1,
            m[0].parent is None,
            m[0].values.len() == 0,
            forall|a: int|
                1 <= a < n ==> ((#[trigger] m[a]).parent matches Some(j) && j < a && m[a].values.len() >= 1),
            forall|a: int, k: int|
                0 <= a < i && 0 <= k < m[a].children.len() ==> {
                    let c = #[trigger] m[a].children[k];
                    &&& a < c < m.len()
                    &&& m[c as int].parent == Some(a as usize)
                },
            forall|a: int, k1: int, k2: int|
                0 <= a < i && 0 <= k1 < k2 < m[a].children.len() ==> #[trigger] m[a].children[k1]
                    < #[trigger] m[a].children[k2],
        decreases n - i,
    {
        let ch = &records[i].children;
        assert(m[i as int].children == ch@);
        let mut k: usize = 0;
        while k < ch.len()
            invariant
                k <= ch@.len(),
                i < n,
                n == records@.len(),
                m == records_model(records@),
                m[i as int].children == ch@,
                forall|q: int|
                    0 <= q < k ==> {
                        let c = #[trigger] ch@[q];
                        &&& i < c < m.len()
                        &&& m[c as int].parent == Some(i)
                    },
                forall|k1: int, k2: int| 0 <= k1 < k2 < k ==> #[trigger] ch@[k1] < #[trigger] ch@[k2],
            decreases ch.len() - k,
        {
            let c = ch[k];
            if c <= i || c >= n {
                return false;
            }
            assert(m[c as int] == records@[c as int]@);
            if records[c].parent != Some(i) {
                return false;
            }
            if k > 0 && ch[k - 1] >= c {
                return false;
            }
            k += 1;
        }
        i += 1;
    }
    let mut c: usize = 1;
    while c < n
        invariant
            1 <= c <= n,
            n == records@.len(),
            m == records_model(records@),
            forall|a: int|
                1 <= a < n ==> ((#[trigger] m[a]).parent matches Some(j) && j < a && m[a].values.len() >= 1),
            forall|a: int| 1 <= a < c ==> m[(#[trigger] m[a]).parent.unwrap() as int].children.contains(a as usize),
        decreases n - c,
    {
        assert(m[c as int] == records@[c as int]@);
        let p = records[c].parent.unwrap();
        let ch = &records[p].children;
        assert(m[p as int] == records@[p as int]@);
        let mut q: usize = 0;
        let mut found = false;
        while q < ch.len() && !found
            invariant
                q <= ch@.len(),
                found ==> q > 0 && ch@[q - 1] == c,
                !found ==> forall|x: int| 0 <= x < q ==> ch@[x] != c,
            decreases ch.len() - q,
        {
            if ch[q] == c {
                found = true;
            }
            q += 1;
        }
        if !found {
            assert(!m[p as int].children.contains(c));
            return false;
        }
        assert(m[p as int].children[q - 1] == c);
        c += 1;
    }
    true
}

/// The lines a tree of records is printed with, in order from the top
/// record: each with the index of its record, and its values as they are,
/// joined with `, ` and indented three spaces per level.
pub fn tree_lines(records: &Vec<Record>) -> (r: Vec<(usize, String)>)
    requires
        tree_wf(records_model(records@)),
    ensures
        r@.map_values(|x: (usize, String)| (x.0 as int, x.1@)) == subtree_lines(records_model(records@), 0),
{
    let ghost rs = records_model(records@);
    let ghost full = subtree_lines(rs, 0);
    let mut out: Vec<(usize, String)> = Vec::new();
    let mut stk: Vec<usize> = Vec::new();
    stk.push(0);
    proof {
        assert(seq![0usize].drop_last() =~= Seq::<usize>::empty());
        assert(stack_lines(rs, Seq::<usize>::empty()) =~= Seq::<(int, Seq<char>)>::empty());
        assert(stack_lines(rs, seq![0usize]) =~= full + stack_lines(rs, Seq::<usize>::empty()));
        assert(stk@ =~= seq![0usize]);
        assert(out@.map_values(|x: (usize, String)| (x.0 as int, x.1@)) =~= Seq::<(int, Seq<char>)>::empty());
    }
    while stk.len() > 0
        invariant
            tree_wf(rs),
            rs == records_model(records@),
            forall|j: int| 0 <= j < stk@.len() ==> #[trigger] stk@[j] < rs.len(),
            full == out@.map_values(|x: (usize, String)| (x.0 as int, x.1@)) + stack_lines(rs, stk@),
        decreases full.len() - out@.len(),
    {
        let ghost s0 = stk@;
        let ghost o0 = out@;
        let i = stk.pop().unwrap();
        assert(s0.last() == i);
        assert(stk@ =~= s0.drop_last());
        let rec = &records[i];
        assert(rec@ == rs[i as int]);
        let ghost ch = rs[i as int].children;
        let ghost base = stk@;
        let mut c = rec.children.len();
        while c > 0
            invariant
                c <= ch.len(),
                rec@ == rs[i as int],
                ch == rs[i as int].children,
                tree_wf(rs),
                i < rs.len(),
                stk@ == base + ch.skip(c as int).reverse(),
                forall|j: int| 0 <= j < stk@.len() ==> #[trigger] stk@[j] < rs.len(),
            decreases c,
        {
            c -= 1;
            let x = rec.children[c];
            assert(i < x < rs.len());
            stk.push(x);
            proof {
                assert(base + ch.skip(c as int).reverse() =~= (base + ch.skip(c + 1).reverse()).push(ch[c as int]));
            }
        }
        let d = record_depth(records, i);
        let mut line = String::new();
        let mut q: usize = 0;
        while q < d
            invariant
                q <= d,
                line@ == tree_indent(q as nat),
            decreases d - q,
        {
            push_str(&mut line, "   ");
            q += 1;
        }
        push_raw_values(&mut line, &rec.values);
        let item = (i, line);
        out.push(item);
        proof {
            assert(ch.skip(0) =~= ch);
            lemma_push_reversed_lines(rs, ch, base);
            lemma_children_lines(rs, i as int, ch.len() as int);
            assert(ch.take(ch.len() as int) =~= ch);
            assert(base + ch.reverse() =~= stk@);
            crate::walker::lemma_map_push(o0, item, |x: (usize, String)| (x.0 as int, x.1@));
            assert((item.0 as int, item.1@) == tree_line(rs, i as int));
            assert(subtree_lines(rs, i as int) == seq![tree_line(rs, i as int)] + children_lines(rs, i as int, ch.len() as int));
            assert(full =~= out@.map_values(|x: (usize, String)| (x.0 as int, x.1@)) + stack_lines(rs, stk@));
        }
    }
    proof {
        assert(stack_lines(rs, stk@) =~= Seq::<(int, Seq<char>)>::empty());
        assert(full =~= out@.map_values(|x: (usize, String)| (x.0 as int, x.1@)));
    }
    out
}

} // verus!

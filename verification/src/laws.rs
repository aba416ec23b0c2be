//! Properties that hold across the operations of the library.

use vstd::prelude::*;
use crate::lexer::LexState;
use crate::parser::{
    RecordModel, tree_wf, depth_of, climb, parse_spec, main_start, record_lines, lemma_record_depths, lemma_climb,
};
use crate::grammar::indent_groups;
use crate::conf::{RecordContainer, child_yields, value_yields};
use crate::walker_error::Expectation;
use crate::walker::{WalkerModel, branch_index, branch_spec, lemma_branch_index};
use crate::error_order::{
    dedup_exps, exp_same, sort_exps, ins_pos, group_exps, exps_sorted, lemma_ins_pos, lemma_sort_sorted,
    lemma_dedup_sorted, lemma_group_sorted, payload_free,
};
use crate::walk::{
    WrModel, add_wr, WalkModel, FrameModel, Event, walk_step, walk_run, walk_init, events_ok, event_ok, enter_pre,
    enter_post, exit_step, exit_finish, child_frames, WalkHook, reject_tail, try_all, try_node, offset,
};
use crate::walker::{
    NodeModel, BranchModel, branch_nodes_from_spec, children_free, dfs, count_false, lemma_count_false_update,
    visit_order, tag_nodes_of, non_tag_nodes_of, key_index,
};
use crate::schema::{build_step, wr_tag, wr_vals, first_or_empty};
use crate::grammar::{desc_step, ch, dbody};

verus! {

/// Backtracking: saving the current lexer state and then dropping the
/// current state gives back the states as they were before the save.
pub proof fn law_push_then_pop_discard(states: Seq<LexState>)
    requires
        states.len() >= 1,
    ensures
        states.push(states.last()).drop_last() == states,
{
    assert(states.push(states.last()).drop_last() =~= states);
}

/// Committing: after saving the state, whatever the current state became,
/// keeping it leaves the states below the save as they were with the new
/// current state on top.
pub proof fn law_push_then_pop_keep(states: Seq<LexState>, cur: LexState)
    requires
        states.len() >= 1,
    ensures
        states.push(cur).drop_last().drop_last().push(cur) == states.drop_last().push(cur),
{
    assert(states.push(cur).drop_last() =~= states);
}

/// An operation on the stack of lexer states: `push` saves, `pop_keep`
/// commits, `pop_discard` drops, and every reading operation (`skip`,
/// `consume`, `token`, `set_token`) replaces the current state.
pub enum LexOp {
    Save,
    Commit,
    Drop,
    Replace(LexState),
}

/// The lexer states after one operation, as the lexer's methods leave them.
pub open spec fn lex_step(states: Seq<LexState>, op: LexOp) -> Seq<LexState> {
    match op {
        LexOp::Save => states.push(states.last()),
        LexOp::Commit => states.drop_last().drop_last().push(states.last()),
        LexOp::Drop => states.drop_last(),
        LexOp::Replace(st) => states.update(states.len() - 1, st),
    }
}

/// The lexer states after a sequence of operations.
pub open spec fn states_after(states: Seq<LexState>, ops: Seq<LexOp>) -> Seq<LexState>
    decreases ops.len(),
{
    if ops.len() == 0 {
        states
    } else {
        states_after(lex_step(states, ops[0]), ops.drop_first())
    }
}

/// How many of `ops` are saves, minus how many are commits or drops.
pub open spec fn net_saves(ops: Seq<LexOp>) -> int
    decreases ops.len(),
{
    if ops.len() == 0 {
        0
    } else {
        (match ops[0] {
            LexOp::Save => 1int,
            LexOp::Replace(_) => 0int,
            _ => -1int,
        }) + net_saves(ops.drop_first())
    }
}

/// The operations never leave fewer than `floor + 1` states, and never
/// commit or drop with fewer than `floor + 2`.
pub open spec fn stays_above(n: int, ops: Seq<LexOp>, floor: int) -> bool {
    &&& forall|k: int| 0 <= k <= ops.len() ==> n + #[trigger] net_saves(ops.take(k)) >= floor + 1
    &&& forall|k: int|
        0 <= k < ops.len() && !(ops[k] is Save) && !(ops[k] is Replace) ==> n + net_saves(ops.take(k))
            >= floor + 2
}

/// Operations that never reach below the `floor` lowest states leave those
/// states as they were, and change the number of states by the saves less
/// the commits and drops.
proof fn lemma_states_after(states: Seq<LexState>, ops: Seq<LexOp>, floor: int)
    requires
        0 <= floor < states.len(),
        stays_above(states.len() as int, ops, floor),
    ensures
        states_after(states, ops).len() == states.len() + net_saves(ops),
        states_after(states, ops).take(floor) == states.take(floor),
    decreases ops.len(),
{
    if ops.len() > 0 {
        let s1 = lex_step(states, ops[0]);
        let rest = ops.drop_first();
        assert(ops.take(0) =~= Seq::<LexOp>::empty());
        assert(net_saves(Seq::<LexOp>::empty()) == 0);
        assert(!(ops[0] is Save) && !(ops[0] is Replace) ==> states.len() >= floor + 2);
        assert forall|k: int| 0 <= k <= rest.len() implies s1.len() + #[trigger] net_saves(rest.take(k)) >= floor + 1 by {
            assert(ops.take(k + 1).drop_first() =~= rest.take(k));
            assert(ops.take(k + 1)[0] == ops[0]);
            assert(states.len() + net_saves(ops.take(k + 1)) >= floor + 1);
        }
        assert forall|k: int|
            0 <= k < rest.len() && !(rest[k] is Save) && !(rest[k] is Replace) implies s1.len() + net_saves(
            rest.take(k),
        ) >= floor + 2 by {
            assert(ops.take(k + 1).drop_first() =~= rest.take(k));
            assert(ops.take(k + 1)[0] == ops[0]);
            assert(ops[k + 1] == rest[k]);
            assert(states.len() + net_saves(ops.take(k + 1)) >= floor + 2);
        }
        assert(s1.take(floor) =~= states.take(floor));
        lemma_states_after(s1, rest, floor);
    }
}

/// Stack size: each save adds one state and each commit or drop removes
/// one, so after any sequence that never takes the last state away, the
/// stack has grown by the saves less the commits and drops; a balanced
/// sequence leaves it as it was.
pub proof fn law_stack_size(states: Seq<LexState>, ops: Seq<LexOp>)
    requires
        states.len() >= 1,
        stays_above(states.len() as int, ops, 0),
    ensures
        states_after(states, ops).len() == states.len() + net_saves(ops),
{
    lemma_states_after(states, ops, 0);
}

/// Backtracking over any reading: after a save, any operations that never
/// reach below the saved state and are balanced (as many saves as commits
/// and drops), then a drop gives back the states as they were before the
/// save; a commit instead keeps the states below and puts on top the current
/// state those operations left.
pub proof fn law_save_then_restore(states: Seq<LexState>, inner: Seq<LexOp>)
    requires
        states.len() >= 1,
        stays_above(states.len() + 1int, inner, states.len() as int),
        net_saves(inner) == 0,
    ensures
        lex_step(states_after(lex_step(states, LexOp::Save), inner), LexOp::Drop) == states,
        lex_step(states_after(lex_step(states, LexOp::Save), inner), LexOp::Commit) == states.drop_last().push(
            states_after(lex_step(states, LexOp::Save), inner).last(),
        ),
{
    let s0 = lex_step(states, LexOp::Save);
    lemma_states_after(s0, inner, states.len() as int);
    let after = states_after(s0, inner);
    assert(s0.take(states.len() as int) =~= states);
    assert(after.drop_last() =~= after.take(states.len() as int));
    assert(after.drop_last().drop_last() =~= states.drop_last());
}

/// An operation on the errors of an `Expecter`: `push` marks, `pop_keep`
/// keeps, `pop_discard` discards, and `expect` adds an error.
pub enum ExpOp<'a, E> {
    Mark,
    Keep,
    Discard,
    Add(Expectation<'a, E>),
}

/// The errors and marks after one operation, as the `Expecter`'s methods
/// leave them.
pub open spec fn exp_step<'a, E>(st: (Seq<Expectation<'a, E>>, Seq<usize>), op: ExpOp<'a, E>) -> (
    Seq<Expectation<'a, E>>,
    Seq<usize>,
) {
    let (e, h) = st;
    match op {
        ExpOp::Mark => (e, h.push(e.len() as usize)),
        ExpOp::Keep => (e, if h.len() > 0 {
            h.drop_last()
        } else {
            h
        }),
        ExpOp::Discard => (e.take(h.last() as int), h.drop_last()),
        ExpOp::Add(x) => (e.push(x), h),
    }
}

/// The errors and marks after a sequence of operations.
pub open spec fn exps_after<'a, E>(st: (Seq<Expectation<'a, E>>, Seq<usize>), ops: Seq<ExpOp<'a, E>>) -> (
    Seq<Expectation<'a, E>>,
    Seq<usize>,
)
    decreases ops.len(),
{
    if ops.len() == 0 {
        st
    } else {
        exps_after(exp_step(st, ops[0]), ops.drop_first())
    }
}

/// How many of `ops` are marks, minus how many are keeps or discards.
pub open spec fn net_marks<'a, E>(ops: Seq<ExpOp<'a, E>>) -> int
    decreases ops.len(),
{
    if ops.len() == 0 {
        0
    } else {
        (match ops[0] {
            ExpOp::Mark => 1int,
            ExpOp::Add(_) => 0int,
            _ => -1int,
        }) + net_marks(ops.drop_first())
    }
}

/// The operations only keep or discard marks they made themselves.
pub open spec fn own_marks_only<'a, E>(ops: Seq<ExpOp<'a, E>>) -> bool {
    &&& forall|k: int| 0 <= k <= ops.len() ==> #[trigger] net_marks(ops.take(k)) >= 0
    &&& forall|k: int|
        0 <= k < ops.len() && !(ops[k] is Mark) && !(ops[k] is Add) ==> net_marks(ops.take(k)) >= 1
}

/// The marks from `from` on rise, the last is within the errors, and the
/// one at `from` is `m`.
spec fn marks_ok<'a, E>(e: Seq<Expectation<'a, E>>, h: Seq<usize>, from: int, m: int) -> bool {
    &&& 0 <= from < h.len()
    &&& h[from] == m
    &&& forall|i: int, j: int| from <= i <= j < h.len() ==> #[trigger] h[i] <= #[trigger] h[j]
    &&& h.last() <= e.len()
}

/// Operations that only keep or discard their own marks leave the marks up
/// to `from`, and the errors before mark `from`, as they were.
proof fn lemma_exps_after<'a, E>(
    e: Seq<Expectation<'a, E>>,
    h: Seq<usize>,
    ops: Seq<ExpOp<'a, E>>,
    from: int,
    m: int,
)
    requires
        marks_ok(e, h, from, m),
        forall|k: int| 0 <= k <= ops.len() ==> h.len() + #[trigger] net_marks(ops.take(k)) >= from + 1,
        forall|k: int|
            0 <= k < ops.len() && !(ops[k] is Mark) && !(ops[k] is Add) ==> h.len() + net_marks(ops.take(k))
                >= from + 2,
        e.len() + ops.len() < usize::MAX,
    ensures
        ({
            let (e2, h2) = exps_after((e, h), ops);
            &&& h2.len() == h.len() + net_marks(ops)
            &&& h2.take(from + 1) == h.take(from + 1)
            &&& e2.take(m) == e.take(m)
            &&& marks_ok(e2, h2, from, m)
        }),
    decreases ops.len(),
{
    if ops.len() > 0 {
        let (e1, h1) = exp_step((e, h), ops[0]);
        let rest = ops.drop_first();
        assert(ops.take(0) =~= Seq::<ExpOp<'a, E>>::empty());
        assert(net_marks(Seq::<ExpOp<'a, E>>::empty()) == 0);
        assert(!(ops[0] is Mark) && !(ops[0] is Add) ==> h.len() >= from + 2);
        assert forall|k: int| 0 <= k <= rest.len() implies h1.len() + #[trigger] net_marks(rest.take(k)) >= from + 1 by {
            assert(ops.take(k + 1).drop_first() =~= rest.take(k));
            assert(ops.take(k + 1)[0] == ops[0]);
            assert(h.len() + net_marks(ops.take(k + 1)) >= from + 1);
        }
        assert forall|k: int|
            0 <= k < rest.len() && !(rest[k] is Mark) && !(rest[k] is Add) implies h1.len() + net_marks(
            rest.take(k),
        ) >= from + 2 by {
            assert(ops.take(k + 1).drop_first() =~= rest.take(k));
            assert(ops.take(k + 1)[0] == ops[0]);
            assert(ops[k + 1] == rest[k]);
            assert(h.len() + net_marks(ops.take(k + 1)) >= from + 2);
        }
        assert(h1.take(from + 1) =~= h.take(from + 1));
        assert(m <= h.last()) by {
            assert(h[from] <= h[h.len() - 1]);
        }
        assert(e1.take(m) =~= e.take(m));
        assert(marks_ok(e1, h1, from, m)) by {
            if ops[0] is Discard {
                assert(h1.last() == h[h.len() - 2]);
                assert(h[h.len() - 2] <= h[h.len() - 1]);
            } else if ops[0] is Keep {
                assert(h1.last() == h[h.len() - 2]);
                assert(h[h.len() - 2] <= h[h.len() - 1]);
            } else if ops[0] is Mark {
                assert forall|i: int, j: int| from <= i <= j < h1.len() implies #[trigger] h1[i] <= #[trigger] h1[j] by {
                    if j == h.len() && i < j {
                        assert(h[i] <= h[h.len() - 1]);
                    }
                }
            }
        }
        lemma_exps_after(e1, h1, rest, from, m);
    }
}

/// Dropping the errors found since a mark: after a mark, any operations that
/// keep or discard only marks they made themselves and leave none open, then
/// a discard gives back the errors and marks as they were before the mark;
/// a keep instead leaves the marks as they were and the errors found since
/// the mark after those found before it.
pub proof fn law_mark_then_discard<'a, E>(e0: Seq<Expectation<'a, E>>, h0: Seq<usize>, inner: Seq<ExpOp<'a, E>>)
    requires
        own_marks_only(inner),
        net_marks(inner) == 0,
        e0.len() + inner.len() < usize::MAX,
    ensures
        exp_step(exps_after(exp_step((e0, h0), ExpOp::Mark), inner), ExpOp::Discard) == (e0, h0),
        ({
            let (e2, h2) = exp_step(exps_after(exp_step((e0, h0), ExpOp::Mark), inner), ExpOp::Keep);
            &&& h2 == h0
            &&& e2.take(e0.len() as int) == e0
        }),
{
    let (e1, h1) = exp_step((e0, h0), ExpOp::Mark);
    let from = h0.len() as int;
    let m = e0.len() as int;
    assert(marks_ok(e1, h1, from, m));
    assert forall|k: int| 0 <= k <= inner.len() implies h1.len() + #[trigger] net_marks(inner.take(k)) >= from + 1 by {
        assert(net_marks(inner.take(k)) >= 0);
    }
    lemma_exps_after(e1, h1, inner, from, m);
    let (e2, h2) = exps_after((e1, h1), inner);
    assert(e0.take(m) =~= e0);
    assert(h2.last() == h2.take(from + 1)[from]);
    assert(h2.drop_last() =~= h0);
    assert(e2.take(m) =~= e0);
}

/// A child of a record has that record as its parent and lies one level
/// deeper.
pub proof fn law_child_parent(records: Seq<RecordModel>, i: int, k: int)
    requires
        tree_wf(records),
        0 <= i < records.len(),
        0 <= k < records[i].children.len(),
    ensures
        records[records[i].children[k] as int].parent == Some(i as usize),
        depth_of(records, records[i].children[k] as int) == depth_of(records, i) + 1,
{
    let c = records[i].children[k] as int;
    assert(i < c < records.len());
    assert(records[c].parent == Some(i as usize));
}

/// Navigation: the parent of the `k`-th child of a record is the record.
pub proof fn law_container_child_parent<'a>(r: RecordContainer<'a>, k: int)
    requires
        tree_wf(r.conf().records()),
        0 <= r.index() < r.conf().records().len(),
        0 <= k < r.rec().children.len(),
    ensures
        r.child_spec(k) matches Some(c) && r.conf().records()[c].parent == Some(r.index() as usize),
{
    law_child_parent(r.conf().records(), r.index(), k);
}

/// Navigation: the nearest ancestor of a record is its parent, and each
/// further ancestor is the next ancestor of that parent.
pub proof fn law_ancestor_parent(records: Seq<RecordModel>, i: usize, k: nat)
    requires
        i < records.len(),
    ensures
        climb(records, Some(i), 1) == records[i as int].parent,
        climb(records, Some(i), k + 1) == climb(records, records[i as int].parent, k),
{
    assert(climb(records, records[i as int].parent, 0) == records[i as int].parent);
}

/// A record on a line indented `d` times has exactly `d + 1` proper
/// ancestors: it lies at depth `d + 1`, climbing `d + 1` steps reaches the
/// top record, and climbing one more leaves the tree.
pub proof fn law_depth_by_indent(s: Seq<char>)
    requires
        s.len() < usize::MAX,
    ensures
        parse_spec(s) matches Ok(rs) ==> {
            let lines = record_lines(s, main_start());
            &&& rs.len() == lines.len() + 1
            &&& forall|j: int|
                0 <= j < lines.len() ==> {
                    let d = indent_groups(s, #[trigger] lines[j]);
                    &&& depth_of(rs, j + 1) == d + 1
                    &&& climb(rs, Some((j + 1) as usize), d + 1) == Some(0usize)
                    &&& climb(rs, Some((j + 1) as usize), d + 2) is None
                }
        },
{
    let st = main_start();
    assert(depth_of(st.records, 0) == 0);
    lemma_record_depths(s, st);
    if let Ok(rs) = parse_spec(s) {
        let lines = record_lines(s, st);
        assert forall|j: int| 0 <= j < lines.len() implies {
            let d = indent_groups(s, #[trigger] lines[j]);
            &&& depth_of(rs, j + 1) == d + 1
            &&& climb(rs, Some((j + 1) as usize), d + 1) == Some(0usize)
            &&& climb(rs, Some((j + 1) as usize), d + 2) is None
        } by {
            let d = indent_groups(s, lines[j]);
            assert(depth_of(rs, st.records.len() + j) == d + 1);
            assert(j + 1 < rs.len());
            assert(((j + 1) as usize) as int == j + 1);
            assert(depth_of(rs, j + 1) == d + 1);
            lemma_climb(rs, (j + 1) as usize, d + 1);
            let top = climb(rs, Some((j + 1) as usize), d + 1).unwrap();
            assert(depth_of(rs, top as int) == 0);
            if top != 0 {
                assert(rs[top as int].parent matches Some(q) && q < top);
                assert(false);
            }
            assert(climb(rs, Some((j + 1) as usize), d + 1) == Some(0usize));
            lemma_climb_more(rs, Some((j + 1) as usize), d + 1);
            assert(climb(rs, rs[0].parent, 0) == rs[0].parent);
            assert(climb(rs, Some(0usize), 1) == rs[0].parent);
            assert(climb(rs, Some((j + 1) as usize), d + 2) is None);
        }
    }
}

/// One step more climbs one more from where the first steps ended.
proof fn lemma_climb_more(records: Seq<RecordModel>, cp: Option<usize>, n: nat)
    ensures
        climb(records, cp, n + 1) == climb(records, climb(records, cp, n), 1),
    decreases n,
{
    if n > 0 {
        match cp {
            Some(i) => if i < records.len() {
                lemma_climb_more(records, records[i as int].parent, (n - 1) as nat);
            },
            None => {},
        }
    }
}

/// Ancestor iteration: the ancestors of a record at depth `d` are the `d`
/// records reached by climbing one step at a time, nearest first, each one
/// level higher, the last of them the top record; there is none after it.
pub proof fn law_ancestor_iteration(records: Seq<RecordModel>, i: usize)
    requires
        tree_wf(records),
        i < records.len(),
    ensures
        forall|k: nat|
            1 <= k <= depth_of(records, i as int) ==> (#[trigger] climb(records, Some(i), k) matches Some(a) && a
                < records.len() && depth_of(records, a as int) == depth_of(records, i as int) - k),
        climb(records, Some(i), depth_of(records, i as int)) == Some(0usize),
        climb(records, Some(i), depth_of(records, i as int) + 1) is None,
{
    let d = depth_of(records, i as int);
    assert forall|k: nat| 1 <= k <= d implies (#[trigger] climb(records, Some(i), k) matches Some(a) && a
        < records.len() && depth_of(records, a as int) == d - k) by {
        lemma_climb(records, i, k);
    }
    lemma_climb(records, i, d);
    let top = climb(records, Some(i), d).unwrap();
    if top != 0 {
        assert(records[top as int].parent matches Some(q) && q < top);
    }
    lemma_climb_more(records, Some(i), d);
    assert(climb(records, records[0].parent, 0) == records[0].parent);
}

/// Child iteration: whatever the mix of calls from the front and from the
/// back, each child position is given at most once, all lie between the
/// two ends, and as many are given as calls were made until the ends meet.
pub proof fn law_child_iteration(f: int, b: int, moves: Seq<bool>)
    requires
        f <= b,
    ensures
        child_yields(f, b, moves).len() == if moves.len() < b - f {
            moves.len() as int
        } else {
            b - f
        },
        forall|i: int| 0 <= i < child_yields(f, b, moves).len() ==> f <= #[trigger] child_yields(f, b, moves)[i] < b,
        forall|i: int, j: int|
            0 <= i < j < child_yields(f, b, moves).len() ==> #[trigger] child_yields(f, b, moves)[i]
                != #[trigger] child_yields(f, b, moves)[j],
    decreases moves.len(),
{
    if moves.len() > 0 {
        let rest = moves.drop_first();
        if f < b {
            if moves[0] {
                law_child_iteration(f + 1, b, rest);
                let y = child_yields(f, b, moves);
                assert(y == seq![f] + child_yields(f + 1, b, rest));
                assert forall|i: int| 0 <= i < y.len() implies f <= #[trigger] y[i] < b by {
                    if i > 0 {
                        assert(y[i] == child_yields(f + 1, b, rest)[i - 1]);
                    }
                }
                assert forall|i: int, j: int| 0 <= i < j < y.len() implies #[trigger] y[i] != #[trigger] y[j] by {
                    assert(y[j] == child_yields(f + 1, b, rest)[j - 1]);
                    if i > 0 {
                        assert(y[i] == child_yields(f + 1, b, rest)[i - 1]);
                    }
                }
            } else {
                law_child_iteration(f, b - 1, rest);
                let y = child_yields(f, b, moves);
                assert(y == seq![b - 1] + child_yields(f, b - 1, rest));
                assert forall|i: int| 0 <= i < y.len() implies f <= #[trigger] y[i] < b by {
                    if i > 0 {
                        assert(y[i] == child_yields(f, b - 1, rest)[i - 1]);
                    }
                }
                assert forall|i: int, j: int| 0 <= i < j < y.len() implies #[trigger] y[i] != #[trigger] y[j] by {
                    assert(y[j] == child_yields(f, b - 1, rest)[j - 1]);
                    if i > 0 {
                        assert(y[i] == child_yields(f, b - 1, rest)[i - 1]);
                    }
                }
            }
        } else {
            law_child_iteration(f, b, rest);
        }
    }
}

/// Value iteration: `k` calls from the first value give the positions of
/// the first `k` values in order, or of all of them when there are fewer.
pub proof fn law_value_iteration(i: int, n: int, k: nat)
    requires
        0 <= i <= n,
    ensures
        value_yields(i, n, k) == Seq::new(
            if k < n - i {
                k
            } else {
                (n - i) as nat
            },
            |j: int| i + j,
        ),
    decreases k,
{
    if k > 0 {
        if i < n {
            law_value_iteration(i + 1, n, (k - 1) as nat);
        } else {
            law_value_iteration(i, n, (k - 1) as nat);
        }
        let m = if k < n - i {
            k
        } else {
            (n - i) as nat
        };
        assert(value_yields(i, n, k) =~= Seq::new(m, |j: int| i + j));
    }
}

/// Reporting each error once: after dropping repeats, no error is the same
/// as the one kept just before it.
pub proof fn law_dedup_no_adjacent_repeats<'a, E: PartialEq>(s: Seq<Expectation<'a, E>>)
    ensures
        forall|i: int|
            0 <= i < dedup_exps(s).len() - 1 ==> !exp_same(#[trigger] dedup_exps(s)[i + 1], dedup_exps(s)[i]),
    decreases s.len(),
{
    if s.len() > 0 {
        let d = dedup_exps(s.drop_last());
        law_dedup_no_adjacent_repeats(s.drop_last());
        if !(d.len() > 0 && exp_same(s.last(), d.last())) {
            assert forall|i: int| 0 <= i < dedup_exps(s).len() - 1 implies !exp_same(
                #[trigger] dedup_exps(s)[i + 1],
                dedup_exps(s)[i],
            ) by {
                if i + 1 < d.len() {
                    assert(dedup_exps(s)[i + 1] == d[i + 1]);
                    assert(dedup_exps(s)[i] == d[i]);
                }
            }
        }
    }
}

/// Dropping repeats keeps only errors that were there, in their order.
pub proof fn law_dedup_subsequence<'a, E: PartialEq>(s: Seq<Expectation<'a, E>>)
    ensures
        dedup_exps(s).len() <= s.len(),
        forall|i: int| 0 <= i < dedup_exps(s).len() ==> s.contains(#[trigger] dedup_exps(s)[i]),
        s.len() > 0 ==> dedup_exps(s).len() > 0,
    decreases s.len(),
{
    if s.len() > 0 {
        let d = dedup_exps(s.drop_last());
        law_dedup_subsequence(s.drop_last());
        assert forall|i: int| 0 <= i < dedup_exps(s).len() implies s.contains(#[trigger] dedup_exps(s)[i]) by {
            if i < d.len() {
                assert(dedup_exps(s)[i] == d[i]);
                assert(s.drop_last().contains(d[i]));
                let j = choose|j: int| 0 <= j < s.drop_last().len() && s.drop_last()[j] == d[i];
                assert(s[j] == d[i]);
            } else {
                assert(dedup_exps(s)[i] == s.last());
                assert(s[s.len() - 1] == s.last());
            }
        }
    }
}

/// Sorting the errors keeps every one of them, as many times as it was
/// found.
pub proof fn law_sort_keeps_errors<'a, E: Ord>(s: Seq<Expectation<'a, E>>)
    ensures
        sort_exps(s).to_multiset() == s.to_multiset(),
    decreases s.len(),
{
    if s.len() > 0 {
        let t = sort_exps(s.drop_last());
        law_sort_keeps_errors(s.drop_last());
        lemma_ins_pos(t, s.last());
        let p = ins_pos(t, s.last());
        vstd::seq_lib::lemma_seq_union_to_multiset_commutative(t.take(p), seq![s.last()]);
        assert(t.insert(p, s.last()) =~= t.take(p) + seq![s.last()] + t.skip(p));
        assert(t =~= t.take(p) + t.skip(p));
        vstd::seq_lib::lemma_multiset_commutative(t.take(p) + seq![s.last()], t.skip(p));
        vstd::seq_lib::lemma_multiset_commutative(t.take(p), seq![s.last()]);
        vstd::seq_lib::lemma_multiset_commutative(t.take(p), t.skip(p));
        assert(s =~= s.drop_last().push(s.last()));
        vstd::seq_lib::lemma_multiset_commutative(s.drop_last(), seq![s.last()]);
        assert(s.drop_last().push(s.last()) =~= s.drop_last() + seq![s.last()]);
    }
}

/// The errors are reported in order, by configuration path, then location,
/// then kind (and payload): sorting puts them in order, dropping repeats
/// keeps them so, and so does every group of one path. This holds when the
/// payload type's order follows its laws, or when no error carries a
/// payload.
pub proof fn law_errors_in_order<'a, E: Ord>(s: Seq<Expectation<'a, E>>)
    requires
        vstd::laws_cmp::obeys_cmp::<E>() || payload_free(s),
    ensures
        exps_sorted(sort_exps(s)),
        exps_sorted(dedup_exps(sort_exps(s))),
        forall|i: int|
            0 <= i < group_exps(dedup_exps(sort_exps(s))).1.len() ==> exps_sorted(
                #[trigger] group_exps(dedup_exps(sort_exps(s))).1[i],
            ),
{
    lemma_sort_sorted(s);
    lemma_dedup_sorted(sort_exps(s));
    lemma_group_sorted(dedup_exps(sort_exps(s)));
}

/// Declaring a branch makes its label found, at the end of the branches.
pub proof fn law_branch_declared(m: WalkerModel, label: Seq<char>)
    requires
        branch_index(m.branches, label) is None,
    ensures
        branch_index(branch_spec(m, label).branches, label) == Some(m.branches.len() as int),
{
    let bs = branch_spec(m, label).branches;
    assert(bs.drop_last() =~= m.branches);
}

/// Declaring a branch keeps the branches declared before it where they
/// were.
pub proof fn law_branch_keeps_others(m: WalkerModel, label: Seq<char>, other: Seq<char>)
    requires
        branch_index(m.branches, other) is Some,
    ensures
        branch_index(branch_spec(m, label).branches, other) == branch_index(m.branches, other),
{
    let bs = branch_spec(m, label).branches;
    assert(bs.drop_last() =~= m.branches);
}

/// Accepted records form a tree: a parent comes before its children, and
/// each record with a parent is listed among that parent's children.
pub open spec fn records_tree<'a, P>(rs: Seq<WrModel<'a, P>>) -> bool {
    &&& forall|k: int|
        0 <= k < rs.len() ==> ((#[trigger] rs[k]).parent matches Some(p) ==> p < k && rs[p as int].children.contains(
            k as usize,
        ))
    &&& forall|k: int, j: int| 0 <= k < rs.len() && 0 <= j < rs[k].children.len() ==> {
        let c = #[trigger] rs[k].children[j];
        k < c < rs.len() && rs[c as int].parent == Some(k as usize)
    }
}

/// Adding an accepted record under an earlier parent keeps the accepted
/// records a tree.
pub proof fn law_add_record_keeps_tree<'a, P>(rs: Seq<WrModel<'a, P>>, r: WrModel<'a, P>)
    requires
        records_tree(rs),
        r.parent matches Some(p) ==> p < rs.len(),
        r.children.len() == 0,
        rs.len() < usize::MAX,
    ensures
        records_tree(add_wr(rs, r)),
{
    let n = rs.len();
    let out = add_wr(rs, r);
    assert(out.len() == n + 1);
    assert(out[n as int] == r);
    assert forall|k: int| 0 <= k < out.len() implies ((#[trigger] out[k]).parent matches Some(p) ==> p < k
        && out[p as int].children.contains(k as usize)) by {
        if k < n {
            assert(out[k].parent == rs[k].parent);
            if let Some(p) = rs[k].parent {
                assert(rs[p as int].children.contains(k as usize));
                let j = choose|j: int| 0 <= j < rs[p as int].children.len() && rs[p as int].children[j] == k as usize;
                assert(out[p as int].children[j] == k as usize);
            }
        } else {
            if let Some(p) = r.parent {
                let ch = out[p as int].children;
                assert(ch[ch.len() - 1] == n as usize);
            }
        }
    }
    assert forall|k: int, j: int| 0 <= k < out.len() && 0 <= j < out[k].children.len() implies {
        let c = #[trigger] out[k].children[j];
        k < c < out.len() && out[c as int].parent == Some(k as usize)
    } by {
        if k < n {
            if j < rs[k].children.len() {
                assert(out[k].children[j] == rs[k].children[j]);
                let c = rs[k].children[j];
                assert(out[c as int].parent == rs[c as int].parent);
            }
        }
    }
}

/// The stack entries refer only to accepted records that exist, and there
/// are no more accepted records than records entered.
pub open spec fn frames_ok<'a>(frames: Seq<FrameModel<'a>>, n: nat) -> bool {
    forall|i: int|
        0 <= i < frames.len() ==> ((#[trigger] frames[i]).parent matches Some(p) ==> p < n) && (frames[i].exit matches Some(
            x,
        ) ==> x < n)
}

/// The shape a walk keeps: its accepted records form a tree, and its stack
/// refers only to them.
pub open spec fn walk_shape<'a, P, E>(st: WalkModel<'a, P, E>) -> bool {
    &&& records_tree(st.records)
    &&& frames_ok(st.frames, st.records.len())
    &&& st.records.len() <= st.order
}

/// Entries for children refer to the parent given.
pub proof fn lemma_child_frames_ok<'a>(
    frames: Seq<FrameModel<'a>>,
    r: RecordContainer<'a>,
    branch: Seq<char>,
    parent: Option<usize>,
    depth: nat,
    n: nat,
)
    requires
        frames_ok(frames, n),
        parent matches Some(p) ==> p < n,
    ensures
        frames_ok(frames + child_frames(r, branch, parent, depth), n),
{
    let c = child_frames(r, branch, parent, depth);
    assert forall|i: int| 0 <= i < (frames + c).len() implies ((#[trigger] (frames + c)[i]).parent matches Some(p) ==> p < n)
        && ((frames + c)[i].exit matches Some(x) ==> x < n) by {
        if i < frames.len() {
            assert((frames + c)[i] == frames[i]);
        } else {
            assert((frames + c)[i] == c[i - frames.len()]);
        }
    }
}

/// Entries stay valid when more records are accepted.
pub proof fn lemma_frames_ok_grow<'a>(frames: Seq<FrameModel<'a>>, n: nat, m: nat)
    requires
        frames_ok(frames, n),
        n <= m,
    ensures
        frames_ok(frames, m),
{
}

/// Taking off the top entry keeps the others valid.
pub proof fn lemma_frames_ok_drop<'a>(frames: Seq<FrameModel<'a>>, n: nat)
    requires
        frames_ok(frames, n),
        frames.len() > 0,
    ensures
        frames_ok(frames.drop_last(), n),
        frames.last().parent matches Some(p) ==> p < n,
{
    assert(frames.last() == frames[frames.len() - 1]);
    assert forall|i: int| 0 <= i < frames.drop_last().len() implies ((#[trigger] frames.drop_last()[i]).parent matches Some(
        p,
    ) ==> p < n) && (frames.drop_last()[i].exit matches Some(x) ==> x < n) by {
        assert(frames.drop_last()[i] == frames[i]);
    }
}

/// One step of a walk keeps its shape.
pub proof fn lemma_step_shape<'a, P, E>(w: WalkerModel, st: WalkModel<'a, P, E>, ev: Event<'a, P, E>)
    requires
        walk_shape(st),
        st.frames.len() > 0,
        ev matches Event::Enter(_, _) ==> st.order < usize::MAX,
        ev matches Event::Enter(log, cb) ==> (enter_pre(w, st, log).1 is Some <==> cb is Some),
    ensures
        walk_shape(walk_step(w, st, ev)),
{
    let f = st.frames.last();
    lemma_frames_ok_drop(st.frames, st.records.len());
    match ev {
        Event::Enter(log, cb) => {
            reveal(enter_pre);
            let (s1, acc) = enter_pre(w, st, log);
            assert(s1.frames == st.frames.drop_last());
            match acc {
                Some((ni, idx)) => {
                    let v0 = crate::walk::first_text(f);
                    let tr = crate::walk::tried(w, st, log);
                    law_add_record_keeps_tree(st.records, crate::walk::new_record(w, f, w.nodes[ni as int], tr, st.order));
                    assert(s1.records.len() == st.records.len() + 1);
                    assert(idx == st.records.len());
                    lemma_frames_ok_grow(st.frames.drop_last(), st.records.len(), s1.records.len());
                    assert(records_tree(s1.records));
                    assert(frames_ok(s1.frames, s1.records.len()));
                    match cb {
                        Some(c) => {
                            reveal(enter_post);
                            let n = s1.records.len();
                            let fx = FrameModel { record: f.record, branch: f.branch, parent: f.parent, depth: f.depth, exit: Some(idx) };
                            let fr = s1.frames.push(fx);
                            assert(frames_ok(fr, n)) by {
                                assert forall|i: int| 0 <= i < fr.len() implies ((#[trigger] fr[i]).parent matches Some(p) ==> p < n)
                                    && (fr[i].exit matches Some(x) ==> x < n) by {
                                    if i < s1.frames.len() {
                                        assert(fr[i] == s1.frames[i]);
                                    }
                                }
                            }
                            match c {
                                Ok(inc) => {
                                    let fr2 = match inc {
                                        Some(r) => fr + child_frames(r, f.branch, f.parent, f.depth),
                                        None => fr,
                                    };
                                    if let Some(r) = inc {
                                        lemma_child_frames_ok(fr, r, f.branch, f.parent, f.depth, n);
                                    }
                                    match w.nodes[ni as int].children {
                                        Some(ch) => {
                                            lemma_child_frames_ok(fr2, f.record, ch, Some(idx), f.depth + 1, n);
                                        },
                                        None => {},
                                    }
                                },
                                Err(_) => {},
                            }
                        },
                        None => {},
                    }
                },
                None => {
                    assert(s1.records == st.records);
                },
            }
        },
        Event::Exit(cb) => {
            reveal(exit_finish);
            match cb {
                Ok(Some(r)) => {
                    lemma_child_frames_ok(st.frames.drop_last(), r, f.branch, f.parent, f.depth, st.records.len());
                },
                _ => {},
            }
        },
    }
}

/// The accepted records that are waiting to be left, in the order they
/// were entered: those of the stack entries that leave a record.
pub open spec fn open_of<'a>(frames: Seq<FrameModel<'a>>) -> Seq<usize>
    decreases frames.len(),
{
    if frames.len() == 0 {
        Seq::empty()
    } else {
        open_of(frames.drop_last()) + match frames.last().exit {
            Some(x) => seq![x],
            None => Seq::empty(),
        }
    }
}

/// The callback call a step makes, if any: the accepted record it is
/// called on, whether it is entered, and whether the call gave no error.
pub open spec fn step_calls<'a, P, E>(w: WalkerModel, st: WalkModel<'a, P, E>, ev: Event<'a, P, E>) -> Seq<
    (usize, bool, bool),
> {
    match ev {
        Event::Enter(log, cb) => match (enter_pre(w, st, log).1, cb) {
            (Some((ni, idx)), Some(c)) => seq![(idx, true, c is Ok)],
            _ => Seq::empty(),
        },
        Event::Exit(cb) => match st.frames.last().exit {
            Some(x) => seq![(x, false, true)],
            None => Seq::empty(),
        },
    }
}

/// The callback calls of the steps `evs`, in order.
pub open spec fn call_log<'a, P, E>(w: WalkerModel, init: WalkModel<'a, P, E>, evs: Seq<Event<'a, P, E>>) -> Seq<
    (usize, bool, bool),
>
    decreases evs.len(),
{
    if evs.len() == 0 {
        Seq::empty()
    } else {
        call_log(w, init, evs.drop_last()) + step_calls(w, walk_run(w, init, evs.drop_last()), evs.last())
    }
}

/// Reading a log of calls: each entering call is on the next record in
/// turn (0, 1, 2, ...), and each leaving call is on the latest record
/// entered without error and not left yet. Gives the records still to be
/// left and the number entered, or nothing if the log breaks the rule.
pub open spec fn nest(log: Seq<(usize, bool, bool)>) -> Option<(Seq<usize>, nat)>
    decreases log.len(),
{
    if log.len() == 0 {
        Some((Seq::empty(), 0))
    } else {
        match nest(log.drop_last()) {
            None => None,
            Some((open, n)) => {
                let (idx, enter, ok) = log.last();
                if enter {
                    if idx == n {
                        Some((
                            if ok {
                                open.push(idx)
                            } else {
                                open
                            },
                            n + 1,
                        ))
                    } else {
                        None
                    }
                } else if open.len() > 0 && open.last() == idx {
                    Some((open.drop_last(), n))
                } else {
                    None
                }
            },
        }
    }
}

proof fn lemma_open_concat<'a>(a: Seq<FrameModel<'a>>, b: Seq<FrameModel<'a>>)
    ensures
        open_of(a + b) == open_of(a) + open_of(b),
    decreases b.len(),
{
    if b.len() == 0 {
        assert(a + b =~= a);
        assert(open_of(a) + open_of(b) =~= open_of(a));
    } else {
        lemma_open_concat(a, b.drop_last());
        assert((a + b).drop_last() =~= a + b.drop_last());
        assert((a + b).last() == b.last());
        assert(open_of(a) + open_of(b.drop_last()) + (match b.last().exit {
            Some(x) => seq![x],
            None => Seq::<usize>::empty(),
        }) =~= open_of(a) + open_of(b));
    }
}

proof fn lemma_open_child_frames<'a>(r: RecordContainer<'a>, branch: Seq<char>, parent: Option<usize>, depth: nat)
    ensures
        open_of(child_frames(r, branch, parent, depth)) == Seq::<usize>::empty(),
{
    lemma_open_none(child_frames(r, branch, parent, depth));
}

proof fn lemma_open_none<'a>(frames: Seq<FrameModel<'a>>)
    requires
        forall|i: int| 0 <= i < frames.len() ==> (#[trigger] frames[i]).exit is None,
    ensures
        open_of(frames) == Seq::<usize>::empty(),
    decreases frames.len(),
{
    if frames.len() > 0 {
        assert(frames.last() == frames[frames.len() - 1]);
        lemma_open_none(frames.drop_last());
        assert(open_of(frames) =~= Seq::<usize>::empty());
    }
}

/// What one step does to the calls, the records to be left and the count
/// of records entered.
proof fn lemma_step_nested<'a, P, E>(w: WalkerModel, st: WalkModel<'a, P, E>, ev: Event<'a, P, E>)
    requires
        st.frames.len() > 0,
        ev matches Event::Enter(log, cb) ==> st.frames.last().exit is None && (enter_pre(w, st, log).1 is Some
            <==> cb is Some),
        ev matches Event::Exit(cb) ==> st.frames.last().exit is Some,
        ev is Enter ==> st.records.len() < usize::MAX,
        walk_shape(st),
    ensures
        ({
            let r = walk_step(w, st, ev);
            let calls = step_calls(w, st, ev);
            let open = open_of(st.frames);
            &&& calls.len() <= 1
            &&& calls.len() == 0 ==> open_of(r.frames) == open && r.records.len() == st.records.len()
            &&& calls.len() == 1 && calls[0].1 ==> calls[0].0 == st.records.len() && r.records.len()
                == st.records.len() + 1 && open_of(r.frames) == (if calls[0].2 {
                open.push(calls[0].0)
            } else {
                open
            })
            &&& calls.len() == 1 && !calls[0].1 ==> calls[0].2 && open.len() > 0 && open.last() == calls[0].0
                && open_of(r.frames) == open.drop_last() && r.records.len() == st.records.len()
        }),
{
    let calls = step_calls(w, st, ev);
    let f = st.frames.last();
    assert(st.frames =~= st.frames.drop_last().push(f));
    lemma_open_concat(st.frames.drop_last(), seq![f]);
    assert(seq![f].drop_last() =~= Seq::<FrameModel<'a>>::empty());
    assert(open_of(Seq::<FrameModel<'a>>::empty()) == Seq::<usize>::empty());
    match ev {
        Event::Enter(log, cb) => {
            reveal(enter_pre);
            let (s1, acc) = enter_pre(w, st, log);
            assert(open_of(st.frames) == open_of(st.frames.drop_last()));
            assert(s1.frames == st.frames.drop_last());
            match acc {
                Some((ni, idx)) => {
                    assert(idx == st.records.len());
                    assert(s1.records.len() == st.records.len() + 1) by {
                        let tr = crate::walk::tried(w, st, log);
                        law_add_record_keeps_tree(
                            st.records,
                            crate::walk::new_record(w, f, w.nodes[ni as int], tr, st.order),
                        );
                    }
                    let c = cb.unwrap();
                    assert(calls == seq![(idx, true, c is Ok)]);
                        reveal(enter_post);
                    let r = walk_step(w, st, ev);
                    assert(r == enter_post(w, s1, f, ni, idx, c));
                    assert(r.records == s1.records);
                    match c {
                        Ok(inc) => {
                            let fx = FrameModel {
                                record: f.record,
                                branch: f.branch,
                                parent: f.parent,
                                depth: f.depth,
                                exit: Some(idx),
                            };
                            let fr = s1.frames.push(fx);
                            lemma_open_concat(s1.frames, seq![fx]);
                            assert(s1.frames + seq![fx] =~= fr);
                            assert(open_of(seq![fx]) == seq![idx]) by {
                                assert(seq![fx].drop_last() =~= Seq::<FrameModel<'a>>::empty());
                            }
                            let fr2 = match inc {
                                Some(rr) => fr + child_frames(rr, f.branch, f.parent, f.depth),
                                None => fr,
                            };
                            if let Some(rr) = inc {
                                lemma_open_concat(fr, child_frames(rr, f.branch, f.parent, f.depth));
                                lemma_open_child_frames(rr, f.branch, f.parent, f.depth);
                            }
                            assert(open_of(fr2) =~= open_of(s1.frames).push(idx));
                            match w.nodes[ni as int].children {
                                Some(ch) => {
                                    if f.record.rec().children.len() > 0 {
                                        lemma_open_concat(fr2, child_frames(f.record, ch, Some(idx), f.depth + 1));
                                        lemma_open_child_frames(f.record, ch, Some(idx), f.depth + 1);
                                        assert(open_of(fr2 + child_frames(f.record, ch, Some(idx), f.depth + 1))
                                            =~= open_of(fr2));
                                    }
                                },
                                None => {},
                            }
                        },
                        Err(_) => {},
                    }
                },
                None => {
                    assert(calls =~= Seq::<(usize, bool, bool)>::empty());
                },
            }
        },
        Event::Exit(cb) => {
            reveal(exit_finish);
            let x = f.exit.unwrap();
            assert(calls == seq![(x, false, true)]);
            let d = st.frames.drop_last();
            assert(open_of(st.frames) == open_of(d).push(x));
            assert(open_of(d).push(x).drop_last() =~= open_of(d));
            match cb {
                Ok(Some(rr)) => {
                    lemma_open_concat(d, child_frames(rr, f.branch, f.parent, f.depth));
                    lemma_open_child_frames(rr, f.branch, f.parent, f.depth);
                    assert(open_of(d) + Seq::<usize>::empty() =~= open_of(d));
                },
                _ => {},
            }
        },
    }
}

/// The calls a walk makes match its stack: the records to be left are those
/// of the stack's leaving entries, and the records entered those accepted.
#[verifier::spinoff_prover]
#[verifier::rlimit(60)]
proof fn lemma_run_nested<'a, P, E, F: Fn(&str, &'a str) -> Option<P>, H: WalkHook<'a, P, E>>(
    w: WalkerModel,
    init: WalkModel<'a, P, E>,
    evs: Seq<Event<'a, P, E>>,
    parser: F,
    hook: H,
)
    requires
        events_ok(w, init, evs, parser, hook),
        open_of(init.frames) == Seq::<usize>::empty(),
        init.records.len() == 0,
        walk_shape(init),
    ensures
        nest(call_log(w, init, evs)) == Some(
            (open_of(walk_run(w, init, evs).frames), walk_run(w, init, evs).records.len()),
        ),
    decreases evs.len(),
{
    if evs.len() > 0 {
        let pre = evs.drop_last();
        assert forall|i: int| 0 <= i < pre.len() implies event_ok(w, walk_run(w, init, pre.take(i)), #[trigger] pre[i], parser, hook) by {
            assert(pre.take(i) =~= evs.take(i));
            assert(pre[i] == evs[i]);
            assert(event_ok(w, walk_run(w, init, evs.take(i)), evs[i], parser, hook));
        }
        lemma_run_nested(w, init, pre, parser, hook);
        let i = evs.len() - 1;
        assert(evs.take(i) =~= pre);
        assert(evs[i] == evs.last());
        let st = walk_run(w, init, pre);
        let ev = evs.last();
        assert(event_ok(w, st, ev, parser, hook));
        lemma_run_shape(w, init, pre, parser, hook);
        lemma_step_nested(w, st, ev);
        let lg0 = call_log(w, init, pre);
        let calls = step_calls(w, st, ev);
        assert(call_log(w, init, evs) == lg0 + calls);
        if calls.len() == 0 {
            assert(lg0 + calls =~= lg0);
        } else {
            assert((lg0 + calls).drop_last() =~= lg0);
            assert((lg0 + calls).last() == calls[0]);
        }
    }
}

/// The callback calls of a walk are well nested, whatever the parser and
/// the callback give: entering calls come on the accepted records in turn,
/// 0, 1, 2, ...; each leaving call is on the latest record entered (without
/// an error from the callback) and not left yet; and the records still to
/// be left are those on the walk's stack, none once the stack is empty.
pub proof fn law_calls_nested<'a, P, E, F: Fn(&str, &'a str) -> Option<P>, H: WalkHook<'a, P, E>>(
    w: WalkerModel,
    root: RecordContainer<'a>,
    branch: Seq<char>,
    evs: Seq<Event<'a, P, E>>,
    parser: F,
    hook: H,
)
    requires
        events_ok(w, walk_init::<P, E>(root, branch), evs, parser, hook),
    ensures
        nest(call_log(w, walk_init::<P, E>(root, branch), evs)) == Some(
            (
                open_of(walk_run(w, walk_init::<P, E>(root, branch), evs).frames),
                walk_run(w, walk_init::<P, E>(root, branch), evs).records.len(),
            ),
        ),
        walk_run(w, walk_init::<P, E>(root, branch), evs).frames.len() == 0 ==> open_of(
            walk_run(w, walk_init::<P, E>(root, branch), evs).frames,
        ) == Seq::<usize>::empty(),
{
    let init = walk_init::<P, E>(root, branch);
    lemma_open_child_frames(root, branch, None, 0);
    lemma_child_frames_ok(Seq::empty(), root, branch, None, 0, 0);
    assert(Seq::<FrameModel<'a>>::empty() + child_frames(root, branch, None, 0) =~= init.frames);
    lemma_run_nested(w, init, evs, parser, hook);
}

/// A walk is in shape after any steps that are what it does.
pub proof fn lemma_run_shape<'a, P, E, F: Fn(&str, &'a str) -> Option<P>, H: WalkHook<'a, P, E>>(
    w: WalkerModel,
    init: WalkModel<'a, P, E>,
    evs: Seq<Event<'a, P, E>>,
    parser: F,
    hook: H,
)
    requires
        walk_shape(init),
        events_ok(w, init, evs, parser, hook),
    ensures
        walk_shape(walk_run(w, init, evs)),
    decreases evs.len(),
{
    if evs.len() > 0 {
        let pre = evs.drop_last();
        assert forall|i: int| 0 <= i < pre.len() implies event_ok(w, walk_run(w, init, pre.take(i)), #[trigger] pre[i], parser, hook) by {
            assert(pre.take(i) =~= evs.take(i));
            assert(pre[i] == evs[i]);
            assert(event_ok(w, walk_run(w, init, evs.take(i)), evs[i], parser, hook));
        }
        lemma_run_shape(w, init, pre, parser, hook);
        let i = evs.len() - 1;
        assert(evs.take(i) =~= pre);
        assert(event_ok(w, walk_run(w, init, evs.take(i)), evs[i], parser, hook));
        lemma_step_shape(w, walk_run(w, init, pre), evs.last());
    }
}

/// The records a walk accepts form a tree: each accepted record comes
/// after its accepted parent and is listed among that parent's children,
/// whatever the parser and the callback give.
pub proof fn law_walk_records_tree<'a, P, E, F: Fn(&str, &'a str) -> Option<P>, H: WalkHook<'a, P, E>>(
    w: WalkerModel,
    root: RecordContainer<'a>,
    branch: Seq<char>,
    evs: Seq<Event<'a, P, E>>,
    parser: F,
    hook: H,
)
    requires
        events_ok(w, walk_init::<P, E>(root, branch), evs, parser, hook),
    ensures
        records_tree(walk_run(w, walk_init::<P, E>(root, branch), evs).records),
{
    let init = walk_init::<P, E>(root, branch);
    lemma_child_frames_ok(Seq::empty(), root, branch, None, 0, 0);
    assert(Seq::<FrameModel<'a>>::empty() + child_frames(root, branch, None, 0) =~= init.frames);
    lemma_run_shape(w, init, evs, parser, hook);
}

/// Value counts: a node accepts a record only when the values after the
/// tag fit it. A tagged node without values takes a record that is only its
/// tag; a node with values that does not repeat takes exactly as many; a
/// node with values that repeats takes a positive multiple of them, never
/// none.
pub proof fn law_accepting_node_fits<P>(
    ns: Seq<NodeModel>,
    are_tags: bool,
    vals: Seq<crate::parser::ValueModel>,
    log: Seq<Seq<Option<P>>>,
)
    requires
        vals.len() >= 1,
    ensures
        try_all(ns, are_tags, vals, log).ok matches Some(k) ==> {
            let n = ns[k];
            let nv = n.vals.len() as int;
            let actual = vals.len() - offset(are_tags);
            &&& 0 <= k < log.len()
            &&& are_tags && nv == 0 ==> actual == 0
            &&& nv > 0 && n.repeat ==> actual > 0 && actual % nv == 0
            &&& nv > 0 && !n.repeat ==> actual == nv
            &&& nv == 0 && !n.repeat ==> actual == 0
        },
    decreases log.len(),
{
    if log.len() > 0 {
        law_accepting_node_fits(ns, are_tags, vals, log.drop_last());
    }
}

/// A repeating node with values never takes a record that has no values
/// after its tag: trying it leaves the record unaccepted and notes that the
/// number of values was wrong.
pub proof fn law_repeat_needs_values<P>(
    acc: crate::walk::TryModel<P>,
    node: NodeModel,
    k: int,
    are_tags: bool,
    vals: Seq<crate::parser::ValueModel>,
    res: Seq<Option<P>>,
)
    requires
        node.repeat,
        node.vals.len() > 0,
        vals.len() == offset(are_tags),
    ensures
        try_node(acc, node, k, are_tags, vals, res).params_num_err,
        try_node(acc, node, k, are_tags, vals, res).ok == acc.ok,
{
}

/// Optional children: a record `children_optional` under an entry of a
/// schema description makes every node of the current entry ignore child
/// errors, names the children branch when none was named yet, and changes
/// no other node.
pub proof fn law_children_optional_ignores_child_errors<'a, P>(m: WalkerModel, r: WrModel<'a, P>)
    requires
        r.branch_label == "entry"@,
        wr_tag(r) == "children_optional"@,
        m.cur_nodes_start <= m.nodes.len(),
    ensures
        ({
            let m2 = build_step(m, r);
            &&& m2.nodes.len() == m.nodes.len()
            &&& m2.cur_nodes_start == m.cur_nodes_start
            &&& forall|i: int| m.cur_nodes_start <= i < m.nodes.len() ==> (#[trigger] m2.nodes[i]).ignore_children
            &&& forall|i: int|
                m.cur_nodes_start <= i < m.nodes.len() && children_free(m) ==> (#[trigger] m2.nodes[i]).children
                    == Some(first_or_empty(wr_vals(r)))
            &&& forall|i: int| 0 <= i < m.cur_nodes_start ==> #[trigger] m2.nodes[i] == m.nodes[i]
        }),
{
    reveal_strlit("entry");
    reveal_strlit("root");
    reveal_strlit("branch");
    reveal_strlit("node");
    reveal_strlit("label");
    reveal_strlit("repeat");
    reveal_strlit("children");
    reveal_strlit("children_optional");
    assert("entry"@.len() == 5 && "root"@.len() == 4 && "branch"@.len() == 6 && "node"@.len() == 4);
    assert("children_optional"@.len() == 17 && "label"@.len() == 5 && "repeat"@.len() == 6);
    assert("children"@.len() == 8);
}

/// Nodes that ignore child errors: after the callback accepts a record
/// whose node ignores child errors, entering it adds no error, whether the
/// record has children the node does not expect or lacks children it does.
pub proof fn law_ignored_children_add_no_error<'a, P, E>(
    w: WalkerModel,
    st: WalkModel<'a, P, E>,
    f: FrameModel<'a>,
    ni: usize,
    idx: usize,
    inc: Option<RecordContainer<'a>>,
)
    requires
        w.nodes[ni as int].ignore_children,
    ensures
        enter_post(w, st, f, ni, idx, Ok(inc)).expects == st.expects,
{
    reveal(enter_post);
}

/// Including nodes: `branch_nodes_from` adds the label to the inserts of the
/// branch declared last and leaves every other branch, and the nodes, as
/// they were; nodes declared next start a new entry.
pub proof fn law_inserts_go_to_last_branch(m: WalkerModel, label: Seq<char>)
    requires
        m.branches.len() > 0,
    ensures
        ({
            let m2 = branch_nodes_from_spec(m, label);
            let n = m.branches.len() - 1;
            &&& m2.branches.len() == m.branches.len()
            &&& forall|i: int| 0 <= i < n ==> #[trigger] m2.branches[i] == m.branches[i]
            &&& m2.branches[n].inserts == m.branches[n].inserts.push(label)
            &&& m2.branches[n].label == m.branches[n].label
            &&& m2.branches[n].tags == m.branches[n].tags
            &&& m2.branches[n].non_tags == m.branches[n].non_tags
            &&& m2.branches[n].ignore_other_errors == m.branches[n].ignore_other_errors
            &&& m2.branches[n].tag_onces == m.branches[n].tag_onces
            &&& m2.nodes == m.nodes
            &&& m2.cur_nodes_start == m.nodes.len()
        }),
{
}

/// The branch of an accepted record: a record accepted on entering reports
/// the branch that declared the node that accepted it, which need not be
/// the branch it was walked against when that node was taken in from
/// another branch; it also carries that node's label, tag, repetition and
/// value count, and the record entered with its parent, depth and position
/// in the walk, and no children yet.
pub proof fn law_record_takes_node_branch<'a, P, E>(w: WalkerModel, st: WalkModel<'a, P, E>, log: Seq<Seq<Option<P>>>)
    requires
        st.frames.len() > 0,
        st.records.len() < usize::MAX,
        st.frames.last().parent matches Some(p) ==> p < st.records.len(),
    ensures
        enter_pre(w, st, log).1 matches Some((ni, idx)) ==> {
            let rs = enter_pre(w, st, log).0.records;
            let node = w.nodes[ni as int];
            &&& idx < rs.len()
            &&& rs[idx as int].branch_label == w.branches[node.branch_ind as int].label
            &&& rs[idx as int].node_label == match node.label {
                Some(l) => l,
                None => Seq::empty(),
            }
            &&& rs[idx as int].record == st.frames.last().record
            &&& rs[idx as int].parent == st.frames.last().parent
            &&& rs[idx as int].depth == st.frames.last().depth
            &&& rs[idx as int].has_tag == node.has_tag
            &&& rs[idx as int].has_repeat == node.repeat
            &&& rs[idx as int].node_vals_len == node.vals.len()
            &&& rs[idx as int].order == st.order
            &&& rs[idx as int].children.len() == 0
        },
{
    reveal(enter_pre);
    if let Some((ni, idx)) = enter_pre(w, st, log).1 {
        let f = st.frames.last();
        let tr = crate::walk::tried(w, st, log);
        let k = tr.ok.unwrap();
        let cands = crate::walk::candidates(w, f.branch, crate::walk::first_text(f));
        assert(ni == cands[k]);
        let node = w.nodes[ni as int];
        let r = crate::walk::new_record(w, f, node, tr, st.order);
        assert(idx == st.records.len());
        let added = add_wr(st.records, r);
        assert(added[idx as int] == r);
        assert(enter_pre(w, st, log).0.records == added);
    }
}

/// Escapes in double quoted values: a backslash followed by `n`, `t`, `r`
/// or `s` stands for a newline, tab, carriage return or space, and the
/// value goes on after the two characters; before a line end it stands for
/// nothing, before any other character for that character, and at the end
/// of the text for itself.
pub proof fn law_desc_escapes(s: Seq<char>, j: int)
    requires
        ch(s, j) == Some('\\'),
    ensures
        ch(s, j + 1) == Some('n') ==> desc_step(s, j) == Some((j + 2, seq!['\n'])),
        ch(s, j + 1) == Some('t') ==> desc_step(s, j) == Some((j + 2, seq!['\t'])),
        ch(s, j + 1) == Some('r') ==> desc_step(s, j) == Some((j + 2, seq!['\r'])),
        ch(s, j + 1) == Some('s') ==> desc_step(s, j) == Some((j + 2, seq![' '])),
        ch(s, j + 1) == Some('\n') ==> desc_step(s, j) == Some((j + 2, Seq::<char>::empty())),
        ch(s, j + 1) == Some('\r') && ch(s, j + 2) == Some('\n') ==> desc_step(s, j) == Some(
            (j + 3, Seq::<char>::empty()),
        ),
        ch(s, j + 1) is None ==> desc_step(s, j) == Some((j + 1, seq!['\\'])),
        ({
            let d = ch(s, j + 1).unwrap();
            ch(s, j + 1) is Some && d != 'n' && d != 't' && d != 'r' && d != 's' && d != '\n' && d != '\r'
                ==> desc_step(s, j) == Some((j + 2, seq![d]))
        }),
        ch(s, j + 1) == Some('n') ==> dbody(s, j) == (dbody(s, j + 2).0, seq!['\n'] + dbody(s, j + 2).1),
        ch(s, j + 1) == Some('t') ==> dbody(s, j) == (dbody(s, j + 2).0, seq!['\t'] + dbody(s, j + 2).1),
        ch(s, j + 1) == Some('r') ==> dbody(s, j) == (dbody(s, j + 2).0, seq!['\r'] + dbody(s, j + 2).1),
        ch(s, j + 1) == Some('s') ==> dbody(s, j) == (dbody(s, j + 2).0, seq![' '] + dbody(s, j + 2).1),
{
}

/// A walk of the branches from a stack reaches the branch of every label
/// on the stack, unless that branch was visited already.
proof fn lemma_dfs_reaches(bs: Seq<BranchModel>, stack: Seq<Seq<char>>, seen: Seq<bool>, l: Seq<char>, c: int)
    requires
        seen.len() == bs.len(),
        stack.contains(l),
        branch_index(bs, l) == Some(c),
    ensures
        dfs(bs, stack, seen).contains(c) || seen[c],
    decreases count_false(seen), stack.len(),
{
    lemma_branch_index(bs, l);
    let x = stack.last();
    let rest = stack.drop_last();
    lemma_branch_index(bs, x);
    let j = choose|j: int| 0 <= j < stack.len() && stack[j] == l;
    if x != l {
        assert(j < stack.len() - 1);
        assert(rest[j] == l);
    }
    match branch_index(bs, x) {
        Some(i) => {
            if 0 <= i < seen.len() && !seen[i] {
                lemma_count_false_update(seen, i);
                let seen2 = seen.update(i, true);
                let st2 = rest + bs[i].inserts;
                let d = dfs(bs, st2, seen2);
                assert(dfs(bs, stack, seen) == seq![i] + d);
                if x == l {
                    assert((seq![i] + d)[0] == c);
                } else {
                    assert(st2[j] == l);
                    lemma_dfs_reaches(bs, st2, seen2, l, c);
                    if d.contains(c) {
                        let q = choose|q: int| 0 <= q < d.len() && d[q] == c;
                        assert((seq![i] + d)[q + 1] == c);
                    } else if c == i {
                        assert((seq![i] + d)[0] == c);
                    }
                }
            } else if x != l {
                lemma_dfs_reaches(bs, rest, seen, l, c);
            }
        },
        None => {
            lemma_dfs_reaches(bs, rest, seen, l, c);
        },
    }
}

/// The nodes of a visited branch are among the nodes of the visited
/// branches, untagged and under each tag.
proof fn lemma_nodes_of_visited(bs: Seq<BranchModel>, vis: Seq<int>, c: int)
    requires
        vis.contains(c),
    ensures
        forall|n: usize| bs[c].non_tags.contains(n) ==> #[trigger] non_tag_nodes_of(bs, vis).contains(n),
        forall|t: Seq<char>, n: usize|
            key_index(bs[c].tags, t) matches Some(q) && bs[c].tags[q].1.contains(n) ==> #[trigger] tag_nodes_of(
                bs,
                vis,
                t,
            ).contains(n),
    decreases vis.len(),
{
    if vis.last() != c {
        let j = choose|j: int| 0 <= j < vis.len() && vis[j] == c;
        assert(vis.drop_last()[j] == c);
        lemma_nodes_of_visited(bs, vis.drop_last(), c);
    }
    let pre = vis.drop_last();
    assert forall|n: usize| bs[c].non_tags.contains(n) implies #[trigger] non_tag_nodes_of(bs, vis).contains(n) by {
        let a = non_tag_nodes_of(bs, pre);
        let b = bs[vis.last()].non_tags;
        assert(non_tag_nodes_of(bs, vis) == a + b);
        if vis.last() == c {
            let q = choose|q: int| 0 <= q < b.len() && b[q] == n;
            assert((a + b)[a.len() + q] == n);
        } else {
            assert(a.contains(n));
            let q = choose|q: int| 0 <= q < a.len() && a[q] == n;
            assert((a + b)[q] == n);
        }
    }
    assert forall|t: Seq<char>, n: usize|
        key_index(bs[c].tags, t) matches Some(q) && bs[c].tags[q].1.contains(n) implies #[trigger] tag_nodes_of(
        bs,
        vis,
        t,
    ).contains(n) by {
        let a = tag_nodes_of(bs, pre, t);
        let b = match key_index(bs[vis.last()].tags, t) {
            Some(q) => bs[vis.last()].tags[q].1,
            None => Seq::empty(),
        };
        assert(tag_nodes_of(bs, vis, t) == a + b);
        if vis.last() == c {
            let q = choose|q: int| 0 <= q < b.len() && b[q] == n;
            assert((a + b)[a.len() + q] == n);
        } else {
            assert(a.contains(n));
            let q = choose|q: int| 0 <= q < a.len() && a[q] == n;
            assert((a + b)[q] == n);
        }
    }
}

/// Taking in nodes: when branch `top` takes in the nodes of branch `l`, a
/// walk against `top` visits `l`, and every node of `l`, untagged or under
/// any tag, is among the nodes offered to the records walked against `top`.
pub proof fn law_inserted_nodes_are_candidates(bs: Seq<BranchModel>, top: Seq<char>, l: Seq<char>)
    requires
        branch_index(bs, top) matches Some(i) && bs[i].inserts.contains(l),
        branch_index(bs, l) is Some,
    ensures
        ({
            let c = branch_index(bs, l).unwrap();
            let vis = visit_order(bs, top);
            &&& vis.contains(c)
            &&& forall|n: usize| bs[c].non_tags.contains(n) ==> #[trigger] non_tag_nodes_of(bs, vis).contains(n)
            &&& forall|t: Seq<char>, n: usize|
                key_index(bs[c].tags, t) matches Some(q) && bs[c].tags[q].1.contains(n) ==> #[trigger] tag_nodes_of(
                    bs,
                    vis,
                    t,
                ).contains(n)
        }),
{
    let i = branch_index(bs, top).unwrap();
    let c = branch_index(bs, l).unwrap();
    lemma_branch_index(bs, top);
    lemma_branch_index(bs, l);
    let seen = Seq::new(bs.len(), |k: int| false);
    let seen2 = seen.update(i, true);
    let st2 = seq![top].drop_last() + bs[i].inserts;
    assert(st2 =~= bs[i].inserts);
    let d = dfs(bs, st2, seen2);
    let vis = visit_order(bs, top);
    assert(vis == seq![i] + d);
    lemma_dfs_reaches(bs, st2, seen2, l, c);
    if d.contains(c) {
        let q = choose|q: int| 0 <= q < d.len() && d[q] == c;
        assert(vis[q + 1] == c);
    } else {
        assert(c != i ==> !seen2[c]);
        assert(vis[0] == c);
    }
    lemma_nodes_of_visited(bs, vis, c);
}

/// The node a record is accepted by is one of the nodes offered to it, and
/// fits the number of its values after the tag: exactly when it does not
/// repeat, a positive multiple when it repeats, and only the tag for a
/// tagged node without values. A tagged node accepts only a tag not used
/// yet at that level where the tag may be used once, and accepting the
/// record leaves the errors as they were.
pub proof fn law_accepted_node_fits_record<'a, P, E>(w: WalkerModel, st: WalkModel<'a, P, E>, log: Seq<Seq<Option<P>>>)
    requires
        st.frames.len() > 0,
        st.frames.last().record.rec().values.len() >= 1,
        log.len() <= crate::walk::candidates(w, st.frames.last().branch, crate::walk::first_text(st.frames.last())).len(),
        st.expects.len() <= usize::MAX,
    ensures
        enter_pre(w, st, log).1 matches Some((ni, idx)) ==> {
            let f = st.frames.last();
            let cands = crate::walk::candidates(w, f.branch, crate::walk::first_text(f));
            let are_tags = crate::walk::are_tags_of(w, f.branch, crate::walk::first_text(f));
            let n = w.nodes[ni as int];
            let nv = n.vals.len() as int;
            let actual = f.record.rec().values.len() - offset(are_tags);
            &&& cands.contains(ni)
            &&& enter_pre(w, st, log).0.expects == st.expects
            &&& enter_pre(w, st, log).0.hists == st.hists
            &&& n.has_tag ==> !crate::walk::once_violated(
                w.branches,
                crate::walker::visit_order(w.branches, f.branch),
                crate::walk::first_text(f),
                crate::walk::resize_useds(st.useds, f.depth + 1).last(),
            )
            &&& are_tags && nv == 0 ==> actual == 0
            &&& nv > 0 && n.repeat ==> actual > 0 && actual % nv == 0
            &&& nv > 0 && !n.repeat ==> actual == nv
            &&& nv == 0 && !n.repeat ==> actual == 0
        },
{
    reveal(enter_pre);
    let f = st.frames.last();
    let v0 = crate::walk::first_text(f);
    let cands = crate::walk::candidates(w, f.branch, v0);
    let are_tags = crate::walk::are_tags_of(w, f.branch, v0);
    let ns = crate::walk::nodes_at(w, cands);
    law_accepting_node_fits(ns, are_tags, f.record.rec().values, log);
    if let Some((ni, idx)) = enter_pre(w, st, log).1 {
        let k = crate::walk::tried(w, st, log).ok.unwrap();
        assert(ni == cands[k]);
        assert(ns[k] == w.nodes[ni as int]);
        let tr = crate::walk::tried(w, st, log);
        let added = tr.errs.map_values(
            |j: int| crate::walker_error::Expectation { record: f.record, error_type: crate::walker_error::WalkerErrorType::<E>::ParamParseError, val_ind: j as usize },
        );
        assert((st.expects + added).take(st.expects.len() as int) =~= st.expects);
        assert(st.hists.push(st.expects.len() as usize).drop_last() =~= st.hists);
    }
}

/// The error for a record no node accepted: unless a parse failed or the
/// branch ignores such records, it is that the number of values was wrong
/// when some node was tried and did not fit it, and that the record is
/// unknown otherwise; either way it is about the record's first value.
pub proof fn law_rejection_error<'a, P, E>(
    w: WalkerModel,
    st: WalkModel<'a, P, E>,
    f: FrameModel<'a>,
    found_err: bool,
    params_num_err: bool,
)
    ensures
        ({
            let r = reject_tail(w, st, f, found_err, params_num_err);
            if !found_err && !crate::walk::top_branch(w, f).ignore_other_errors {
                &&& r.expects.len() == st.expects.len() + 1
                &&& r.expects.last().record == f.record
                &&& r.expects.last().val_ind == 0
                &&& (r.expects.last().error_type is ParamsIncorrectNum) == params_num_err
                &&& (r.expects.last().error_type is Unknown) == !params_num_err
            } else {
                r.expects == st.expects
            }
        }),
{
}

/// Required children: a record `children` under an entry of a schema
/// description names the children branch of the current nodes when none
/// was named yet, and leaves whether they ignore child errors as it was.
pub proof fn law_children_keeps_child_errors<'a, P>(m: WalkerModel, r: WrModel<'a, P>)
    requires
        r.branch_label == "entry"@,
        wr_tag(r) == "children"@,
        m.cur_nodes_start <= m.nodes.len(),
    ensures
        ({
            let m2 = build_step(m, r);
            &&& m2.nodes.len() == m.nodes.len()
            &&& forall|i: int| 0 <= i < m.nodes.len() ==> (#[trigger] m2.nodes[i]).ignore_children
                == m.nodes[i].ignore_children
            &&& forall|i: int|
                m.cur_nodes_start <= i < m.nodes.len() && children_free(m) ==> (#[trigger] m2.nodes[i]).children
                    == Some(first_or_empty(wr_vals(r)))
        }),
{
    reveal_strlit("entry");
    reveal_strlit("root");
    reveal_strlit("branch");
    reveal_strlit("node");
    reveal_strlit("label");
    reveal_strlit("repeat");
    reveal_strlit("children");
    assert("entry"@.len() == 5 && "root"@.len() == 4 && "branch"@.len() == 6 && "node"@.len() == 4);
    assert("label"@.len() == 5 && "repeat"@.len() == 6 && "children"@.len() == 8);
}

/// Entry settings of a schema description: a record `repeat` under an
/// entry makes every node of the current entry repeat, and a record `label`
/// gives them its first value as their label; other nodes stay as they
/// were.
pub proof fn law_entry_repeat_and_label<'a, P>(m: WalkerModel, r: WrModel<'a, P>)
    requires
        r.branch_label == "entry"@,
        m.cur_nodes_start <= m.nodes.len(),
    ensures
        ({
            let m2 = build_step(m, r);
            &&& wr_tag(r) == "repeat"@ ==> {
                &&& m2.nodes.len() == m.nodes.len()
                &&& forall|i: int| m.cur_nodes_start <= i < m.nodes.len() ==> (#[trigger] m2.nodes[i]).repeat
                &&& forall|i: int| 0 <= i < m.cur_nodes_start ==> #[trigger] m2.nodes[i] == m.nodes[i]
            }
            &&& wr_tag(r) == "label"@ ==> {
                &&& m2.nodes.len() == m.nodes.len()
                &&& forall|i: int|
                    m.cur_nodes_start <= i < m.nodes.len() ==> (#[trigger] m2.nodes[i]).label == Some(
                        first_or_empty(wr_vals(r)),
                    )
                &&& forall|i: int| 0 <= i < m.cur_nodes_start ==> #[trigger] m2.nodes[i] == m.nodes[i]
            }
        }),
{
    reveal_strlit("entry");
    reveal_strlit("root");
    reveal_strlit("branch");
    reveal_strlit("node");
    reveal_strlit("label");
    reveal_strlit("repeat");
    assert("entry"@.len() == 5 && "root"@.len() == 4 && "branch"@.len() == 6 && "node"@.len() == 4);
    assert("label"@.len() == 5 && "repeat"@.len() == 6);
}

} // verus!

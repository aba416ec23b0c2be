//! Schemas written in the configuration language itself: a schema for
//! schemas, and the building of a walker from a configuration that it
//! accepts.

use vstd::prelude::*;
use crate::walker::{
    Walker, WalkerModel, branch_index, empty_model, branch_spec, branch_nodes_from_spec, skip_node_errs_spec,
    skip_child_errs_spec, tagless_spec, tags_spec, str_spec, named_param_spec, repeat_spec, label_spec,
    children_spec, tag_once_spec, entry_spec, children_free, walker_wf,
};
use crate::walk::{
    WrModel, WalkModel, Event, walk_run, walk_init, walk_done, enter_pre, log_complete, nodes_at, candidates,
    are_tags_of, first_text, events_ok, event_ok, UnitHook, WalkHook, traverse, Walk, wr_model, log_parsed, res_parsed,
    parsed_by, val_kind, res_complete, cb_plain, lemma_run_payload_free,
};
use crate::walker::{ValModel, NodeModel, BranchModel, branch_ok, node_ok, tags_add, add_tag_nodes, key_index, lemma_first_key};
use crate::walker_container::{WalkerRecord, WalkerRecordContainer};
use crate::walker_error::{WalkerErrors, errors_are};
use crate::error_order::{group_exps, dedup_exps, sort_exps};
use crate::conf::Conf;
use crate::text::str_eq;

verus! {

/// The schema for schemas (see `definition_walker`), step by step.
pub open spec fn definition_model() -> WalkerModel {
    let m = empty_model();
    let m = children_spec(skip_child_errs_spec(str_spec(entry_spec(tagless_spec(branch_spec(m, "root"@))))), "branch"@);
    let m = tags_spec(branch_spec(m, "branch"@), seq!["tags"@]);
    let m = children_spec(skip_child_errs_spec(str_spec(repeat_spec(entry_spec(m)))), "node"@);
    let m = children_spec(skip_child_errs_spec(entry_spec(tags_spec(m, seq!["tagless"@]))), "node"@);
    let m = str_spec(repeat_spec(entry_spec(tags_spec(m, seq!["from"@, "once"@]))));
    let m = entry_spec(tags_spec(m, seq!["ignore_rest"@]));
    let m = skip_child_errs_spec(children_spec(entry_spec(tags_spec(branch_spec(m, "node"@), seq!["entry"@])), "entry"@));
    let m = skip_child_errs_spec(children_spec(repeat_spec(str_spec(entry_spec(m))), "entry"@));
    let m = tag_once_spec(tag_once_spec(branch_spec(m, "entry"@), seq!["repeat"@]), seq!["label"@]);
    let m = tag_once_spec(m, seq!["children"@, "children_optional"@]);
    let m = entry_spec(tags_spec(m, seq!["repeat"@, "children_optional"@]));
    str_spec(entry_spec(tags_spec(m, seq!["children"@, "children_optional"@, "label"@])))
}

/// The branch labels of the schema for schemas differ.
proof fn lemma_labels_distinct()
    ensures
        "root"@ != "branch"@,
        "root"@ != "node"@,
        "root"@ != "entry"@,
        "branch"@ != "node"@,
        "branch"@ != "entry"@,
        "node"@ != "entry"@,
{
    reveal_strlit("root");
    reveal_strlit("branch");
    reveal_strlit("node");
    reveal_strlit("entry");
    assert("root"@.len() == 4 && "node"@.len() == 4 && "branch"@.len() == 6 && "entry"@.len() == 5);
    assert("root"@[0] == 'r' && "node"@[0] == 'n');
}

/// A node of a schema under construction: its branch is one of `nb`, it
/// has values if it repeats untagged, and its children branch is in `ls`.
spec fn node_fine(n: NodeModel, ls: Set<Seq<char>>, nb: nat) -> bool {
    &&& n.branch_ind < nb
    &&& (n.repeat && !n.has_tag) ==> n.vals.len() > 0
    &&& n.children matches Some(c) ==> ls.contains(c)
}

/// What holds of a schema under construction whose branches are labelled
/// `labs` and whose nodes refer only to children branches in `ls`.
spec fn sketch_ok(m: WalkerModel, ls: Set<Seq<char>>, labs: Seq<Seq<char>>) -> bool {
    &&& m.branches.len() == labs.len()
    &&& forall|b: int|
        0 <= b < labs.len() ==> (#[trigger] m.branches[b]).label == labs[b] && m.branches[b].inserts.len() == 0
    &&& m.cur_nodes_start <= m.nodes.len()
    &&& forall|b: int, t: int, j: int|
        0 <= b < m.branches.len() && 0 <= t < m.branches[b].tags.len() && 0 <= j < m.branches[b].tags[t].1.len()
            ==> {
            let ni = #[trigger] m.branches[b].tags[t].1[j];
            ni < m.nodes.len() && m.nodes[ni as int].has_tag
        }
    &&& forall|b: int, j: int|
        0 <= b < m.branches.len() && 0 <= j < m.branches[b].non_tags.len() ==> {
            let ni = #[trigger] m.branches[b].non_tags[j];
            ni < m.nodes.len() && !m.nodes[ni as int].has_tag
        }
    &&& forall|n: int| 0 <= n < m.nodes.len() ==> node_fine(#[trigger] m.nodes[n], ls, labs.len())
    &&& forall|n: int|
        m.cur_nodes_start <= n < m.nodes.len() ==> (#[trigger] m.nodes[n]).has_tag == (m.for_tag_names.len() > 0)
}

proof fn lemma_sketch_empty(ls: Set<Seq<char>>)
    ensures
        sketch_ok(empty_model(), ls, Seq::empty()),
{
}

proof fn lemma_sketch_branch(m: WalkerModel, ls: Set<Seq<char>>, labs: Seq<Seq<char>>, l: Seq<char>)
    requires
        sketch_ok(m, ls, labs),
    ensures
        sketch_ok(branch_spec(m, l), ls, labs.push(l)),
        branch_spec(m, l).for_tag_names == m.for_tag_names,
        branch_spec(m, l).nodes.len() == m.nodes.len(),
{
    let m2 = branch_spec(m, l);
    assert forall|b: int, t: int, j: int|
        0 <= b < m2.branches.len() && 0 <= t < m2.branches[b].tags.len() && 0 <= j < m2.branches[b].tags[t].1.len()
            implies {
            let ni = #[trigger] m2.branches[b].tags[t].1[j];
            ni < m2.nodes.len() && m2.nodes[ni as int].has_tag
        } by {
        assert(b < m.branches.len());
    }
    assert forall|b: int, j: int|
        0 <= b < m2.branches.len() && 0 <= j < m2.branches[b].non_tags.len() implies {
            let ni = #[trigger] m2.branches[b].non_tags[j];
            ni < m2.nodes.len() && !m2.nodes[ni as int].has_tag
        } by {
        assert(b < m.branches.len());
    }
}

proof fn lemma_sketch_tags(m: WalkerModel, ls: Set<Seq<char>>, labs: Seq<Seq<char>>, names: Seq<Seq<char>>)
    requires
        sketch_ok(m, ls, labs),
    ensures
        sketch_ok(tags_spec(m, names), ls, labs),
        sketch_ok(tagless_spec(m), ls, labs),
        tags_spec(m, names).for_tag_names == names,
        tagless_spec(m).for_tag_names.len() == 0,
        tags_spec(m, names).nodes.len() == m.nodes.len(),
        tagless_spec(m).nodes.len() == m.nodes.len(),
{
}

proof fn lemma_sketch_tag_once(m: WalkerModel, ls: Set<Seq<char>>, labs: Seq<Seq<char>>, g: Seq<Seq<char>>)
    requires
        sketch_ok(m, ls, labs),
        labs.len() > 0,
    ensures
        sketch_ok(tag_once_spec(m, g), ls, labs),
        tag_once_spec(m, g).for_tag_names == m.for_tag_names,
        tag_once_spec(m, g).nodes.len() == m.nodes.len(),
{
    let m2 = tag_once_spec(m, g);
    assert forall|b: int| 0 <= b < labs.len() implies (#[trigger] m2.branches[b]).label == labs[b]
        && m2.branches[b].inserts.len() == 0 by {
        assert(m.branches[b].label == labs[b]);
    }
    assert forall|b: int, t: int, j: int|
        0 <= b < m2.branches.len() && 0 <= t < m2.branches[b].tags.len() && 0 <= j < m2.branches[b].tags[t].1.len()
            implies {
            let ni = #[trigger] m2.branches[b].tags[t].1[j];
            ni < m2.nodes.len() && m2.nodes[ni as int].has_tag
        } by {
        assert(m2.branches[b].tags == m.branches[b].tags);
    }
    assert forall|b: int, j: int|
        0 <= b < m2.branches.len() && 0 <= j < m2.branches[b].non_tags.len() implies {
            let ni = #[trigger] m2.branches[b].non_tags[j];
            ni < m2.nodes.len() && !m2.nodes[ni as int].has_tag
        } by {
        assert(m2.branches[b].non_tags == m.branches[b].non_tags);
    }
}

proof fn lemma_sketch_nodes(m: WalkerModel, ls: Set<Seq<char>>, labs: Seq<Seq<char>>, c: Seq<char>)
    requires
        sketch_ok(m, ls, labs),
    ensures
        sketch_ok(str_spec(m), ls, labs),
        sketch_ok(skip_child_errs_spec(m), ls, labs),
        ls.contains(c) ==> sketch_ok(children_spec(m, c), ls, labs),
        m.for_tag_names.len() > 0 ==> sketch_ok(repeat_spec(m), ls, labs),
        str_spec(m).for_tag_names == m.for_tag_names,
        skip_child_errs_spec(m).for_tag_names == m.for_tag_names,
        children_spec(m, c).for_tag_names == m.for_tag_names,
        repeat_spec(m).for_tag_names == m.for_tag_names,
        str_spec(m).nodes.len() == m.nodes.len(),
        skip_child_errs_spec(m).nodes.len() == m.nodes.len(),
        children_spec(m, c).nodes.len() == m.nodes.len(),
        repeat_spec(m).nodes.len() == m.nodes.len(),
{
    let m1 = str_spec(m);
    assert forall|n: int| 0 <= n < m1.nodes.len() implies node_fine(#[trigger] m1.nodes[n], ls, labs.len()) by {
        assert(node_fine(m.nodes[n], ls, labs.len()));
    }
    let m2 = skip_child_errs_spec(m);
    assert forall|n: int| 0 <= n < m2.nodes.len() implies node_fine(#[trigger] m2.nodes[n], ls, labs.len()) by {
        assert(node_fine(m.nodes[n], ls, labs.len()));
    }
    let m3 = children_spec(m, c);
    if ls.contains(c) {
        assert forall|n: int| 0 <= n < m3.nodes.len() implies node_fine(#[trigger] m3.nodes[n], ls, labs.len()) by {
            assert(node_fine(m.nodes[n], ls, labs.len()));
        }
    }
    let m4 = repeat_spec(m);
    if m.for_tag_names.len() > 0 {
        assert forall|n: int| 0 <= n < m4.nodes.len() implies node_fine(#[trigger] m4.nodes[n], ls, labs.len()) by {
            assert(node_fine(m.nodes[n], ls, labs.len()));
            if m.cur_nodes_start <= n {
                assert(m.nodes[n].has_tag);
            }
        }
    }
}

proof fn lemma_tags_add_ok(tags: Seq<(Seq<char>, Seq<usize>)>, k: Seq<char>, v: usize, ok: spec_fn(usize) -> bool)
    requires
        forall|t: int, j: int| 0 <= t < tags.len() && 0 <= j < tags[t].1.len() ==> ok(#[trigger] tags[t].1[j]),
        ok(v),
    ensures
        forall|t: int, j: int|
            0 <= t < tags_add(tags, k, v).len() && 0 <= j < tags_add(tags, k, v)[t].1.len() ==> ok(
                #[trigger] tags_add(tags, k, v)[t].1[j],
            ),
{
    lemma_first_key(tags.map_values(|e: (Seq<char>, Seq<usize>)| e.0), k);
    let r = tags_add(tags, k, v);
    assert forall|t: int, j: int| 0 <= t < r.len() && 0 <= j < r[t].1.len() implies ok(#[trigger] r[t].1[j]) by {
        match key_index(tags, k) {
            Some(i) => {
                if t == i && j == tags[i].1.len() {
                } else if t == i {
                    assert(r[t].1[j] == tags[t].1[j]);
                }
            },
            None => {
                if t < tags.len() {
                    assert(r[t] == tags[t]);
                }
            },
        }
    }
}

proof fn lemma_add_tag_nodes_ok(
    tags: Seq<(Seq<char>, Seq<usize>)>,
    names: Seq<Seq<char>>,
    start: nat,
    ok: spec_fn(usize) -> bool,
)
    requires
        forall|t: int, j: int| 0 <= t < tags.len() && 0 <= j < tags[t].1.len() ==> ok(#[trigger] tags[t].1[j]),
        forall|k: int| 0 <= k < names.len() ==> ok(#[trigger] ((start + k) as usize)),
    ensures
        forall|t: int, j: int|
            0 <= t < add_tag_nodes(tags, names, start).len() && 0 <= j < add_tag_nodes(tags, names, start)[t].1.len()
                ==> ok(#[trigger] add_tag_nodes(tags, names, start)[t].1[j]),
    decreases names.len(),
{
    if names.len() > 0 {
        let rest = names.drop_last();
        assert forall|k: int| 0 <= k < rest.len() implies ok(#[trigger] ((start + k) as usize)) by {
        }
        lemma_add_tag_nodes_ok(tags, rest, start, ok);
        let last_k = names.len() - 1;
        assert(ok(((start + last_k) as usize)));
        lemma_tags_add_ok(add_tag_nodes(tags, rest, start), names.last(), (start + names.len() - 1) as usize, ok);
    }
}

proof fn lemma_sketch_entry(m: WalkerModel, ls: Set<Seq<char>>, labs: Seq<Seq<char>>)
    requires
        sketch_ok(m, ls, labs),
        labs.len() > 0,
        m.nodes.len() + m.for_tag_names.len() <= usize::MAX,
    ensures
        sketch_ok(entry_spec(m), ls, labs),
        entry_spec(m).for_tag_names == m.for_tag_names,
        entry_spec(m).nodes.len() == m.nodes.len() + if m.for_tag_names.len() == 0 {
            1
        } else {
            m.for_tag_names.len()
        },
{
    let m2 = entry_spec(m);
    let bi = (m.branches.len() - 1) as nat;
    let n = m.nodes.len();
    assert forall|b: int| 0 <= b < labs.len() implies (#[trigger] m2.branches[b]).label == labs[b]
        && m2.branches[b].inserts.len() == 0 by {
        assert(m.branches[b].label == labs[b]);
    }
    assert forall|k: int| 0 <= k < m2.nodes.len() implies node_fine(#[trigger] m2.nodes[k], ls, labs.len()) by {
        if k < n {
            assert(m2.nodes[k] == m.nodes[k]);
        }
    }
    assert forall|k: int| m2.cur_nodes_start <= k < m2.nodes.len() implies (#[trigger] m2.nodes[k]).has_tag == (
    m2.for_tag_names.len() > 0) by {
    }
    if m.for_tag_names.len() == 0 {
        assert forall|b: int, t: int, j: int|
            0 <= b < m2.branches.len() && 0 <= t < m2.branches[b].tags.len() && 0 <= j
                < m2.branches[b].tags[t].1.len() implies {
                let ni = #[trigger] m2.branches[b].tags[t].1[j];
                ni < m2.nodes.len() && m2.nodes[ni as int].has_tag
            } by {
            assert(m2.branches[b].tags == m.branches[b].tags);
            let ni = m.branches[b].tags[t].1[j];
            assert(m2.nodes[ni as int] == m.nodes[ni as int]);
        }
        assert forall|b: int, j: int|
            0 <= b < m2.branches.len() && 0 <= j < m2.branches[b].non_tags.len() implies {
                let ni = #[trigger] m2.branches[b].non_tags[j];
                ni < m2.nodes.len() && !m2.nodes[ni as int].has_tag
            } by {
            if b == bi && j == m.branches[b].non_tags.len() {
            } else {
                assert(m2.branches[b].non_tags[j] == m.branches[b].non_tags[j]);
                let ni = m.branches[b].non_tags[j];
                assert(m2.nodes[ni as int] == m.nodes[ni as int]);
            }
        }
    } else {
        let ok = |x: usize| x < m2.nodes.len() && m2.nodes[x as int].has_tag;
        let old_tags = m.branches[bi as int].tags;
        assert forall|t: int, j: int| 0 <= t < old_tags.len() && 0 <= j < old_tags[t].1.len() implies ok(
            #[trigger] old_tags[t].1[j],
        ) by {
            let ni = old_tags[t].1[j];
            assert(m2.nodes[ni as int] == m.nodes[ni as int]);
        }
        assert forall|k: int| 0 <= k < m.for_tag_names.len() implies ok(#[trigger] ((n + k) as usize)) by {
        }
        lemma_add_tag_nodes_ok(old_tags, m.for_tag_names, n, ok);
        assert forall|b: int, t: int, j: int|
            0 <= b < m2.branches.len() && 0 <= t < m2.branches[b].tags.len() && 0 <= j
                < m2.branches[b].tags[t].1.len() implies {
                let ni = #[trigger] m2.branches[b].tags[t].1[j];
                ni < m2.nodes.len() && m2.nodes[ni as int].has_tag
            } by {
            if b == bi {
                assert(ok(m2.branches[b].tags[t].1[j]));
            } else {
                assert(m2.branches[b].tags == m.branches[b].tags);
                let ni = m.branches[b].tags[t].1[j];
                assert(m2.nodes[ni as int] == m.nodes[ni as int]);
            }
        }
        assert forall|b: int, j: int|
            0 <= b < m2.branches.len() && 0 <= j < m2.branches[b].non_tags.len() implies {
                let ni = #[trigger] m2.branches[b].non_tags[j];
                ni < m2.nodes.len() && !m2.nodes[ni as int].has_tag
            } by {
            assert(m2.branches[b].non_tags == m.branches[b].non_tags);
            let ni = m.branches[b].non_tags[j];
            assert(m2.nodes[ni as int] == m.nodes[ni as int]);
        }
    }
}

/// A label that some branch has is found.
proof fn lemma_branch_index_found(bs: Seq<BranchModel>, i: int, l: Seq<char>)
    requires
        0 <= i < bs.len(),
        bs[i].label == l,
    ensures
        branch_index(bs, l) is Some,
    decreases bs.len(),
{
    if i < bs.len() - 1 {
        lemma_branch_index_found(bs.drop_last(), i, l);
    }
}

/// The schema for schemas is well formed and has a root branch.
#[verifier::spinoff_prover]
#[verifier::rlimit(40)]
pub proof fn lemma_definition_wf()
    ensures
        walker_wf(definition_model()),
        branch_index(definition_model().branches, "root"@) is Some,
{
    let ls = set!["branch"@, "node"@, "entry"@];
    let l0: Seq<Seq<char>> = Seq::empty();
    let m = empty_model();
    lemma_sketch_empty(ls);
    let a1 = branch_spec(m, "root"@);
    lemma_sketch_branch(m, ls, l0, "root"@);
    let l1 = l0.push("root"@);
    let a2 = tagless_spec(a1);
    lemma_sketch_tags(a1, ls, l1, Seq::empty());
    let a3 = entry_spec(a2);
    lemma_sketch_entry(a2, ls, l1);
    let a4 = str_spec(a3);
    lemma_sketch_nodes(a3, ls, l1, "branch"@);
    let a5 = skip_child_errs_spec(a4);
    lemma_sketch_nodes(a4, ls, l1, "branch"@);
    let a6 = children_spec(a5, "branch"@);
    lemma_sketch_nodes(a5, ls, l1, "branch"@);
    let b1 = branch_spec(a6, "branch"@);
    lemma_sketch_branch(a6, ls, l1, "branch"@);
    let l2 = l1.push("branch"@);
    let b2 = tags_spec(b1, seq!["tags"@]);
    lemma_sketch_tags(b1, ls, l2, seq!["tags"@]);
    let b3 = entry_spec(b2);
    lemma_sketch_entry(b2, ls, l2);
    let b4 = repeat_spec(b3);
    lemma_sketch_nodes(b3, ls, l2, "node"@);
    let b5 = str_spec(b4);
    lemma_sketch_nodes(b4, ls, l2, "node"@);
    let b6 = skip_child_errs_spec(b5);
    lemma_sketch_nodes(b5, ls, l2, "node"@);
    let b7 = children_spec(b6, "node"@);
    lemma_sketch_nodes(b6, ls, l2, "node"@);
    let c1 = tags_spec(b7, seq!["tagless"@]);
    lemma_sketch_tags(b7, ls, l2, seq!["tagless"@]);
    let c2 = entry_spec(c1);
    lemma_sketch_entry(c1, ls, l2);
    let c3 = skip_child_errs_spec(c2);
    lemma_sketch_nodes(c2, ls, l2, "node"@);
    let c4 = children_spec(c3, "node"@);
    lemma_sketch_nodes(c3, ls, l2, "node"@);
    let d1 = tags_spec(c4, seq!["from"@, "once"@]);
    lemma_sketch_tags(c4, ls, l2, seq!["from"@, "once"@]);
    let d2 = entry_spec(d1);
    lemma_sketch_entry(d1, ls, l2);
    let d3 = repeat_spec(d2);
    lemma_sketch_nodes(d2, ls, l2, "node"@);
    let d4 = str_spec(d3);
    lemma_sketch_nodes(d3, ls, l2, "node"@);
    let e1 = tags_spec(d4, seq!["ignore_rest"@]);
    lemma_sketch_tags(d4, ls, l2, seq!["ignore_rest"@]);
    let e2 = entry_spec(e1);
    lemma_sketch_entry(e1, ls, l2);
    let f1 = branch_spec(e2, "node"@);
    lemma_sketch_branch(e2, ls, l2, "node"@);
    let l3 = l2.push("node"@);
    let f2 = tags_spec(f1, seq!["entry"@]);
    lemma_sketch_tags(f1, ls, l3, seq!["entry"@]);
    let f3 = entry_spec(f2);
    lemma_sketch_entry(f2, ls, l3);
    let f4 = children_spec(f3, "entry"@);
    lemma_sketch_nodes(f3, ls, l3, "entry"@);
    let f5 = skip_child_errs_spec(f4);
    lemma_sketch_nodes(f4, ls, l3, "entry"@);
    let g1 = entry_spec(f5);
    lemma_sketch_entry(f5, ls, l3);
    let g2 = str_spec(g1);
    lemma_sketch_nodes(g1, ls, l3, "entry"@);
    let g3 = repeat_spec(g2);
    lemma_sketch_nodes(g2, ls, l3, "entry"@);
    let g4 = children_spec(g3, "entry"@);
    lemma_sketch_nodes(g3, ls, l3, "entry"@);
    let g5 = skip_child_errs_spec(g4);
    lemma_sketch_nodes(g4, ls, l3, "entry"@);
    let h1 = branch_spec(g5, "entry"@);
    lemma_sketch_branch(g5, ls, l3, "entry"@);
    let l4 = l3.push("entry"@);
    let h2 = tag_once_spec(h1, seq!["repeat"@]);
    lemma_sketch_tag_once(h1, ls, l4, seq!["repeat"@]);
    let h3 = tag_once_spec(h2, seq!["label"@]);
    lemma_sketch_tag_once(h2, ls, l4, seq!["label"@]);
    let h4 = tag_once_spec(h3, seq!["children"@, "children_optional"@]);
    lemma_sketch_tag_once(h3, ls, l4, seq!["children"@, "children_optional"@]);
    let i1 = tags_spec(h4, seq!["repeat"@, "children_optional"@]);
    lemma_sketch_tags(h4, ls, l4, seq!["repeat"@, "children_optional"@]);
    let i2 = entry_spec(i1);
    lemma_sketch_entry(i1, ls, l4);
    let j1 = tags_spec(i2, seq!["children"@, "children_optional"@, "label"@]);
    lemma_sketch_tags(i2, ls, l4, seq!["children"@, "children_optional"@, "label"@]);
    let j2 = entry_spec(j1);
    lemma_sketch_entry(j1, ls, l4);
    let j3 = str_spec(j2);
    lemma_sketch_nodes(j2, ls, l4, "entry"@);
    assert(j3 == definition_model());
    let bs = j3.branches;
    assert(bs[0].label == "root"@ && bs[1].label == "branch"@ && bs[2].label == "node"@ && bs[3].label == "entry"@);
    lemma_branch_index_found(bs, 0, "root"@);
    lemma_branch_index_found(bs, 1, "branch"@);
    lemma_branch_index_found(bs, 2, "node"@);
    lemma_branch_index_found(bs, 3, "entry"@);
    assert forall|b: int| 0 <= b < bs.len() implies #[trigger] branch_ok(j3, b) by {
        assert(bs[b].inserts.len() == 0);
    }
    assert forall|n: int| 0 <= n < j3.nodes.len() implies node_ok(bs, #[trigger] j3.nodes[n]) by {
        assert(node_fine(j3.nodes[n], ls, l4.len()));
    }
}

/// The schema that configurations describing schemas follow: top-level
/// records name branches; under a branch, `tags`, `tagless`, `from`,
/// `once` and `ignore_rest`; under those, `entry` records; under an entry,
/// `repeat`, `label`, `children` and `children_optional`.
pub fn definition_walker() -> (r: Walker)
    ensures
        r.model() == definition_model(),
{
    let mut d = Walker::new();
    proof {
        reveal_strlit("root");
        reveal_strlit("branch");
        reveal_strlit("node");
        reveal_strlit("entry");
    }
    d.branch("root");
    d.tagless();
    d.entry();
    d.str();
    d.skip_child_errs();
    d.children("branch");
    assert(d.model().branches.len() == 1);
    assert(d.model().branches[0].label == "root"@);
    proof {
        lemma_labels_distinct();
    }
    assert(branch_index(d.model().branches, "branch"@) is None) by {
        reveal_with_fuel(branch_index, 3);
    }
    d.branch("branch");
    let t1 = vec!["tags"];
    assert(t1@.map_values(|x: &str| x@) =~= seq!["tags"@]);
    d.tags(t1.as_slice());
    d.entry();
    d.repeat();
    d.str();
    d.skip_child_errs();
    d.children("node");
    let t2 = vec!["tagless"];
    assert(t2@.map_values(|x: &str| x@) =~= seq!["tagless"@]);
    d.tags(t2.as_slice());
    d.entry();
    d.skip_child_errs();
    d.children("node");
    let t3 = vec!["from", "once"];
    assert(t3@.map_values(|x: &str| x@) =~= seq!["from"@, "once"@]);
    d.tags(t3.as_slice());
    d.entry();
    d.repeat();
    d.str();
    let t4 = vec!["ignore_rest"];
    assert(t4@.map_values(|x: &str| x@) =~= seq!["ignore_rest"@]);
    d.tags(t4.as_slice());
    d.entry();
    assert(d.model().branches.len() == 2);
    assert(d.model().branches[0].label == "root"@);
    assert(d.model().branches[1].label == "branch"@);
    proof {
        lemma_labels_distinct();
    }
    assert(branch_index(d.model().branches, "node"@) is None) by {
        reveal_with_fuel(branch_index, 4);
    }
    d.branch("node");
    let t5 = vec!["entry"];
    assert(t5@.map_values(|x: &str| x@) =~= seq!["entry"@]);
    d.tags(t5.as_slice());
    d.entry();
    d.children("entry");
    d.skip_child_errs();
    d.entry();
    d.str();
    d.repeat();
    d.children("entry");
    d.skip_child_errs();
    assert(d.model().branches.len() == 3);
    assert(d.model().branches[0].label == "root"@);
    assert(d.model().branches[1].label == "branch"@);
    assert(d.model().branches[2].label == "node"@);
    proof {
        lemma_labels_distinct();
    }
    assert(branch_index(d.model().branches, "entry"@) is None) by {
        reveal_with_fuel(branch_index, 5);
    }
    d.branch("entry");
    let o1 = vec!["repeat"];
    assert(o1@.map_values(|x: &str| x@) =~= seq!["repeat"@]);
    d.branch_tag_once(o1.as_slice());
    let o2 = vec!["label"];
    assert(o2@.map_values(|x: &str| x@) =~= seq!["label"@]);
    d.branch_tag_once(o2.as_slice());
    let o3 = vec!["children", "children_optional"];
    assert(o3@.map_values(|x: &str| x@) =~= seq!["children"@, "children_optional"@]);
    d.branch_tag_once(o3.as_slice());
    let t6 = vec!["repeat", "children_optional"];
    assert(t6@.map_values(|x: &str| x@) =~= seq!["repeat"@, "children_optional"@]);
    d.tags(t6.as_slice());
    d.entry();
    let t7 = vec!["children", "children_optional", "label"];
    assert(t7@.map_values(|x: &str| x@) =~= seq!["children"@, "children_optional"@, "label"@]);
    d.tags(t7.as_slice());
    d.entry();
    d.str();
    d.validate();
    d
}

/// The texts of the values of an accepted record after its tag.
pub open spec fn wr_vals<'a, P>(r: WrModel<'a, P>) -> Seq<Seq<char>> {
    let off: int = if r.has_tag {
        1
    } else {
        0
    };
    let vs = r.record.rec().values;
    Seq::new((vs.len() - off) as nat, |i: int| vs[i + off].text)
}

/// The tag of an accepted record, or the empty text.
pub open spec fn wr_tag<'a, P>(r: WrModel<'a, P>) -> Seq<char> {
    if r.has_tag {
        r.record.rec().values[0].text
    } else {
        Seq::empty()
    }
}

/// The first of `vs`, or the empty text.
pub open spec fn first_or_empty(vs: Seq<Seq<char>>) -> Seq<char> {
    if vs.len() > 0 {
        vs[0]
    } else {
        Seq::empty()
    }
}

/// The schema after taking in the nodes of each branch of `labels`.
pub open spec fn from_all(m: WalkerModel, labels: Seq<Seq<char>>) -> WalkerModel
    decreases labels.len(),
{
    if labels.len() == 0 {
        m
    } else {
        let m1 = from_all(m, labels.drop_last());
        if m1.branches.len() > 0 {
            branch_nodes_from_spec(m1, labels.last())
        } else {
            m1
        }
    }
}

/// The schema after giving the current nodes one value per text of
/// `vals`: any text for `any`, else a value parsed by that name.
pub open spec fn entry_vals(m: WalkerModel, vals: Seq<Seq<char>>) -> WalkerModel
    decreases vals.len(),
{
    if vals.len() == 0 {
        m
    } else {
        let m1 = entry_vals(m, vals.drop_last());
        if vals.last() == "any"@ {
            str_spec(m1)
        } else {
            named_param_spec(m1, vals.last())
        }
    }
}

/// The schema with the children branch of the current nodes set, when none
/// is set yet.
pub open spec fn set_children(m: WalkerModel, label: Seq<char>) -> WalkerModel {
    if children_free(m) {
        children_spec(m, label)
    } else {
        m
    }
}

/// The schema after one accepted record of a schema description.
pub open spec fn build_step<'a, P>(m: WalkerModel, r: WrModel<'a, P>) -> WalkerModel {
    let b = r.branch_label;
    let t = wr_tag(r);
    let vals = wr_vals(r);
    let s0 = first_or_empty(vals);
    let has = m.branches.len() > 0;
    if b == "root"@ {
        if branch_index(m.branches, s0) is None {
            branch_spec(m, s0)
        } else {
            m
        }
    } else if b == "branch"@ {
        if t == "tags"@ {
            tags_spec(m, vals)
        } else if t == "tagless"@ {
            tagless_spec(m)
        } else if t == "from"@ {
            from_all(m, vals)
        } else if t == "once"@ {
            if has {
                tag_once_spec(m, vals)
            } else {
                m
            }
        } else if t == "ignore_rest"@ {
            if has {
                skip_node_errs_spec(m)
            } else {
                m
            }
        } else {
            m
        }
    } else if b == "node"@ {
        if t == "entry"@ && has {
            entry_vals(entry_spec(m), vals)
        } else {
            m
        }
    } else if b == "entry"@ {
        if t == "label"@ {
            label_spec(m, s0)
        } else if t == "repeat"@ {
            repeat_spec(m)
        } else if t == "children"@ {
            set_children(m, s0)
        } else if t == "children_optional"@ {
            skip_child_errs_spec(set_children(m, s0))
        } else {
            m
        }
    } else {
        m
    }
}

/// The schema after the accepted records `rs`, in order.
pub open spec fn build<'a, P>(m: WalkerModel, rs: Seq<WrModel<'a, P>>) -> WalkerModel
    decreases rs.len(),
{
    if rs.len() == 0 {
        m
    } else {
        build_step(build(m, rs.drop_last()), rs.last())
    }
}

/// The texts of the values of accepted record `c` after its tag.
fn record_vals<'w, 'r, P>(c: &WalkerRecordContainer<'w, 'r, P>) -> (r: Vec<&'r str>)
    requires
        c.wf(),
    ensures
        r@.map_values(|x: &str| x@) == wr_vals(wr_model(c.wr())),
{
    let n = c.val_num();
    let mut v: Vec<&'r str> = Vec::new();
    let mut i: usize = 0;
    while i < n
        invariant
            i <= n,
            c.wf(),
            n == wr_vals(wr_model(c.wr())).len(),
            v@.map_values(|x: &str| x@) == wr_vals(wr_model(c.wr())).take(i as int),
        decreases n - i,
    {
        let s = c.get_str(i).unwrap();
        let ghost v0 = v@;
        v.push(s);
        proof {
            crate::walker::lemma_map_push(v0, s, |x: &str| x@);
            assert(wr_vals(wr_model(c.wr())).take(i + 1) =~= wr_vals(wr_model(c.wr())).take(i as int).push(s@));
        }
        i += 1;
    }
    proof {
        assert(wr_vals(wr_model(c.wr())).take(i as int) =~= wr_vals(wr_model(c.wr())));
    }
    v
}

/// Applies one accepted record of a schema description to the schema
/// being built (see `build_step`).
fn apply_record<'w, 'r, P>(nw: &mut Walker, c: &WalkerRecordContainer<'w, 'r, P>)
    requires
        c.wf(),
    ensures
        final(nw).model() == build_step(old(nw).model(), wr_model(c.wr())),
{
    let ghost r = wr_model(c.wr());
    let b = c.branch();
    let t = c.tag();
    let vals = record_vals(c);
    let s0 = if vals.len() > 0 {
        vals[0]
    } else {
        ""
    };
    proof {
        reveal_strlit("");
        assert(s0@ == first_or_empty(wr_vals(r)));
        assert(t@ == wr_tag(r));
    }
    let has = nw.branch_count() > 0;
    if str_eq(b, "root") {
        if nw.branch_position(s0).is_none() {
            nw.branch(s0);
        }
    } else if str_eq(b, "branch") {
        if str_eq(t, "tags") {
            nw.tags(vals.as_slice());
        } else if str_eq(t, "tagless") {
            nw.tagless();
        } else if str_eq(t, "from") {
            let mut i: usize = 0;
            while i < vals.len()
                invariant
                    i <= vals@.len(),
                    nw.model() == from_all(old(nw).model(), vals@.map_values(|x: &str| x@).take(i as int)),
                decreases vals.len() - i,
            {
                proof {
                    let l = vals@.map_values(|x: &str| x@);
                    assert(l.take(i + 1).drop_last() =~= l.take(i as int));
                }
                if nw.branch_count() > 0 {
                    nw.branch_nodes_from(vals[i]);
                }
                i += 1;
            }
            proof {
                assert(vals@.map_values(|x: &str| x@).take(i as int) =~= vals@.map_values(|x: &str| x@));
            }
        } else if str_eq(t, "once") {
            if has {
                nw.branch_tag_once(vals.as_slice());
            }
        } else if str_eq(t, "ignore_rest") {
            if has {
                nw.skip_node_errs();
            }
        }
    } else if str_eq(b, "node") {
        if str_eq(t, "entry") && has {
            nw.entry();
            let ghost m1 = nw.model();
            let mut i: usize = 0;
            while i < vals.len()
                invariant
                    i <= vals@.len(),
                    nw.model() == entry_vals(m1, vals@.map_values(|x: &str| x@).take(i as int)),
                decreases vals.len() - i,
            {
                proof {
                    let l = vals@.map_values(|x: &str| x@);
                    assert(l.take(i + 1).drop_last() =~= l.take(i as int));
                }
                let v = vals[i];
                if str_eq(v, "any") {
                    nw.str();
                } else {
                    nw.named_param(v);
                }
                i += 1;
            }
            proof {
                assert(vals@.map_values(|x: &str| x@).take(i as int) =~= vals@.map_values(|x: &str| x@));
            }
        }
    } else if str_eq(b, "entry") {
        if str_eq(t, "label") {
            nw.label(s0);
        } else if str_eq(t, "repeat") {
            nw.repeat();
        } else if str_eq(t, "children") {
            if nw.current_children_free() {
                nw.children(s0);
            }
        } else if str_eq(t, "children_optional") {
            if nw.current_children_free() {
                nw.children(s0);
            }
            nw.skip_child_errs();
        }
    }
}

/// The schema built from the accepted records `recs`, in order.
fn build_from_records<'r, P>(recs: &Vec<WalkerRecord<'r, P>>) -> (r: Walker)
    requires
        crate::walker_container::walker_records_wf(recs@),
    ensures
        r.model() == build(empty_model(), recs@.map_values(|x: WalkerRecord<'r, P>| wr_model(x))),
{
    let mut nw = Walker::new();
    let ghost rs = recs@.map_values(|x: WalkerRecord<'r, P>| wr_model(x));
    let mut k: usize = 0;
    while k < recs.len()
        invariant
            k <= recs@.len(),
            crate::walker_container::walker_records_wf(recs@),
            rs == recs@.map_values(|x: WalkerRecord<'r, P>| wr_model(x)),
            nw.model() == build(empty_model(), rs.take(k as int)),
        decreases recs.len() - k,
    {
        let c = WalkerRecordContainer { walker_record_index: k, walker_records: recs };
        apply_record(&mut nw, &c);
        proof {
            assert(rs.take(k + 1).drop_last() =~= rs.take(k as int));
            assert(rs.take(k + 1).last() == wr_model(c.wr()));
        }
        k += 1;
    }
    proof {
        assert(rs.take(k as int) =~= rs);
    }
    nw
}

/// Step `ev` is what a walk with no parsed values and a callback that gives
/// nothing back does in state `st`.
pub open spec fn event_plain<'a>(w: WalkerModel, st: WalkModel<'a, (), ()>, ev: Event<'a, (), ()>) -> bool {
    &&& st.frames.len() > 0
    &&& match ev {
        Event::Enter(log, cb) => {
            let f = st.frames.last();
            let v0 = first_text(f);
            let ns = nodes_at(w, candidates(w, f.branch, v0));
            let at = are_tags_of(w, f.branch, v0);
            &&& f.exit is None
            &&& st.order < usize::MAX
            &&& log_complete(ns, at, f.record.rec().values, log)
            &&& forall|k: int, i: int| 0 <= k < log.len() && 0 <= i < log[k].len() ==> #[trigger] log[k][i] is None
            &&& match (enter_pre(w, st, log).1, cb) {
                (Some(_), Some(x)) => x == Ok::<Option<crate::conf::RecordContainer<'a>>, (usize, ())>(None),
                (None, None) => true,
                _ => false,
            }
        },
        Event::Exit(cb) => st.frames.last().exit is Some && cb == Ok::<
            Option<crate::conf::RecordContainer<'a>>,
            (usize, ()),
        >(None),
    }
}

/// Every step of `evs` is what such a walk does from `init`.
pub open spec fn events_plain<'a>(w: WalkerModel, init: WalkModel<'a, (), ()>, evs: Seq<Event<'a, (), ()>>) -> bool {
    forall|i: int| 0 <= i < evs.len() ==> event_plain(w, walk_run(w, init, evs.take(i)), #[trigger] evs[i])
}

/// A walk whose parser gives nothing and whose callback gives nothing back
/// is such a walk.
pub proof fn lemma_events_plain<'a, F: Fn(&str, &'a str) -> Option<()>, C: for<'w> FnMut(
    WalkerRecordContainer<'w, 'a, ()>,
)>(
    w: WalkerModel,
    init: WalkModel<'a, (), ()>,
    evs: Seq<Event<'a, (), ()>>,
    parser: F,
    hook: UnitHook<C>,
)
    requires
        events_ok(w, init, evs, parser, hook),
        forall|a: &str, b: &'a str, r: Option<()>| call_ensures(parser, (a, b), r) ==> r is None,
    ensures
        events_plain(w, init, evs),
{
    assert forall|i: int| 0 <= i < evs.len() implies event_plain(w, walk_run(w, init, evs.take(i)), #[trigger] evs[i]) by {
        let st = walk_run(w, init, evs.take(i));
        assert(event_ok(w, st, evs[i], parser, hook));
        match evs[i] {
            Event::Enter(log, cb) => {
                let f = st.frames.last();
                let v0 = first_text(f);
                let ns = nodes_at(w, candidates(w, f.branch, v0));
                let at = are_tags_of(w, f.branch, v0);
                let vals = f.record.rec().values;
                assert forall|k: int, q: int| 0 <= k < log.len() && 0 <= q < log[k].len() implies #[trigger] log[k][q] is None by {
                    assert(res_complete(ns[k], at, vals.len() as int, log[k]));
                    assert(res_parsed(parser, ns[k], at, vals, log[k]));
                    match val_kind(ns[k], q) {
                        ValModel::Named(n) => {
                            assert(parsed_by(parser, n, vals[crate::walk::offset(at) + q].text, log[k][q]));
                        },
                        ValModel::Str => {},
                    }
                }
            },
            Event::Exit(cb) => {},
        }
    }
}

/// In such a walk the callback never gives an error.
proof fn lemma_plain_cb<'a>(w: WalkerModel, init: WalkModel<'a, (), ()>, evs: Seq<Event<'a, (), ()>>)
    requires
        events_plain(w, init, evs),
    ensures
        forall|i: int| 0 <= i < evs.len() ==> cb_plain(#[trigger] evs[i]),
{
    assert forall|i: int| 0 <= i < evs.len() implies cb_plain(#[trigger] evs[i]) by {
        assert(event_plain(w, walk_run(w, init, evs.take(i)), evs[i]));
    }
}

/// What building a schema from a configuration gives, given the walk of the
/// configuration against the schema for schemas that ended in `st`: the
/// schema built from the accepted records when no error was found, else the
/// errors sorted, without repeats, grouped by path.
pub open spec fn built<'a>(st: WalkModel<'a, (), ()>, r: Result<Walker, WalkerErrors<()>>) -> bool {
    if st.expects.len() == 0 {
        r matches Ok(nw) && nw.model() == build(empty_model(), st.records)
    } else {
        r matches Err(errs) && errors_are(errs, group_exps(dedup_exps(sort_exps(st.expects))))
    }
}

impl Walker {
    /// Builds a schema from a configuration that describes one: the
    /// configuration is walked against the schema for schemas (see
    /// `definition_walker`), and each record it accepts declares a branch, a
    /// set of tags, the nodes of an entry, or a property of those nodes.
    #[verifier::rlimit(40)]
    pub fn from_conf(conf: &Conf) -> (r: Result<Walker, WalkerErrors<()>>)
        ensures
            exists|evs: Seq<Event<'_, (), ()>>|
                #![trigger walk_run(definition_model(), walk_init::<(), ()>(conf.root_container(), "root"@), evs)]
                {
                    let st = walk_run(definition_model(), walk_init::<(), ()>(conf.root_container(), "root"@), evs);
                    &&& events_plain(definition_model(), walk_init::<(), ()>(conf.root_container(), "root"@), evs)
                    &&& walk_done(st)
                    &&& built(st, r)
                },
    {
        let def = definition_walker();
        proof {
            lemma_definition_wf();
        }
        let parser = |n: &str, v: &str| -> (r: Option<()>)
            ensures
                r is None,
            { None };
        let note = |c: WalkerRecordContainer<'_, '_, ()>| {};
        let root = conf.root();
        let (recs, res) = crate::walk::walk_records(&def, "root", root, parser, note);
        proof {
            let evs = choose|evs: Seq<Event<'_, (), ()>>|
                #![trigger walk_run(def.model(), walk_init::<(), ()>(root, "root"@), evs)]
                {
                    let st = walk_run(def.model(), walk_init::<(), ()>(root, "root"@), evs);
                    &&& events_ok(def.model(), walk_init::<(), ()>(root, "root"@), evs, parser, (UnitHook { f: note }))
                    &&& walk_done(st)
                    &&& crate::walk::walk_result(st, res)
                    &&& recs@.map_values(|x: WalkerRecord<'_, ()>| wr_model(x)) == st.records
                };
            lemma_events_plain(def.model(), walk_init::<(), ()>(root, "root"@), evs, parser, UnitHook { f: note });
            lemma_plain_cb(def.model(), walk_init::<(), ()>(root, "root"@), evs);
            lemma_run_payload_free(def.model(), walk_init::<(), ()>(root, "root"@), evs);
        }
        match res {
            Err(e) => Err(e),
            Ok(()) => Ok(build_from_records(&recs)),
        }
    }
}

} // verus!

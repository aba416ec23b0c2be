//! A walk of a record tree against a schema: matching each record with
//! the nodes its branch offers, and the state of the walk from one record
//! to the next.

use vstd::prelude::*;
use crate::conf::RecordContainer;
use crate::parser::ValueModel;
use crate::text::string_from_str;
use crate::walker::{
    Walker, WalkerModel, BranchModel, WalkerVal, NodeModel, ValModel, node_model, opt_model,
    lemma_map_push, key_index, set_add, branch_index, visit_order, tag_nodes_of, non_tag_nodes_of,
};
use crate::walker_container::{WalkerRecord, WalkerRecordContainer, walker_records_wf};
use crate::walker_error::{Expectation, Expecter, WalkerErrorType};
use crate::walker::{find_key, keys_of, set_insert, lemma_first_key, branch_model, walker_wf, lemma_map_update};
use crate::walker_error::{WalkerErrors, errors_are};
use crate::error_order::{order_ok, same_ok, group_exps, dedup_exps, sort_exps, carries, payload_free};
use crate::text::str_eq;

verus! {

/// How the number of values of a record fits a node.
pub enum Arity {
    /// A tagged node without values, and a record that is only its tag.
    TagOnly,
    /// The number of values does not fit.
    Mismatch,
    /// The number of values fits; they are then checked one by one.
    Fits,
}

/// How the `count` values of a record (its tag included when `are_tags`)
/// fit `node`.
pub open spec fn arity(node: NodeModel, are_tags: bool, count: int) -> Arity {
    let actual = if are_tags {
        count - 1
    } else {
        count
    };
    if are_tags && node.vals.len() == 0 && count == 1 {
        Arity::TagOnly
    } else if are_tags && node.vals.len() == 0 && count > 1 {
        Arity::Mismatch
    } else if node.repeat && actual % (node.vals.len() as int) != 0 {
        Arity::Mismatch
    } else if node.repeat && actual == 0 && node.vals.len() != 0 {
        Arity::Mismatch
    } else if !node.repeat && actual != node.vals.len() {
        Arity::Mismatch
    } else {
        Arity::Fits
    }
}

/// What the node expects of the `i`-th value after the tag: its values are
/// taken in turn, repeating when the node repeats.
pub open spec fn val_kind(node: NodeModel, i: int) -> ValModel {
    node.vals[i % (node.vals.len() as int)]
}

/// The first value, counted after the tag, whose named parse gave nothing,
/// among the parse results `res`.
pub open spec fn first_fail<P>(node: NodeModel, res: Seq<Option<P>>) -> Option<int>
    decreases res.len(),
{
    if res.len() == 0 {
        None
    } else {
        match first_fail(node, res.drop_last()) {
            Some(i) => Some(i),
            None => if val_kind(node, res.len() - 1) is Named && res.last() is None {
                Some(res.len() - 1)
            } else {
                None
            },
        }
    }
}

/// The state of trying the nodes in turn: the position of the node that
/// accepted the record, the values whose parse failed, whether some node
/// did not fit the number of values, whether a parse failed, and the
/// values parsed and the parser names, by value index, for the node that
/// accepted.
pub struct TryModel<P> {
    pub ok: Option<int>,
    pub errs: Seq<int>,
    pub params_num_err: bool,
    pub found_err: bool,
    pub parsed: Seq<Option<P>>,
    pub names: Seq<Option<Seq<char>>>,
}

/// No node tried yet.
pub open spec fn try_init<P>() -> TryModel<P> {
    TryModel {
        ok: None,
        errs: Seq::empty(),
        params_num_err: false,
        found_err: false,
        parsed: Seq::empty(),
        names: Seq::empty(),
    }
}

/// The offset of the first value after the tag.
pub open spec fn offset(are_tags: bool) -> int {
    if are_tags {
        1
    } else {
        0
    }
}

/// The state after trying `node` at position `k`, whose parse results of
/// the values after the tag are `res`.
pub open spec fn try_node<P>(
    acc: TryModel<P>,
    node: NodeModel,
    k: int,
    are_tags: bool,
    vals: Seq<ValueModel>,
    res: Seq<Option<P>>,
) -> TryModel<P> {
    let off = offset(are_tags);
    match arity(node, are_tags, vals.len() as int) {
        Arity::TagOnly => TryModel {
            ok: Some(k),
            parsed: Seq::new(vals.len(), |j: int| None),
            names: Seq::new(vals.len(), |j: int| None),
            ..acc
        },
        Arity::Mismatch => TryModel { params_num_err: true, ..acc },
        Arity::Fits => match first_fail(node, res) {
            Some(i) => TryModel { errs: acc.errs.push(off + i), found_err: true, ..acc },
            None => TryModel {
                ok: Some(k),
                parsed: Seq::new(
                    vals.len(),
                    |j: int|
                        if j >= off && val_kind(node, j - off) is Named {
                            res[j - off]
                        } else {
                            None
                        },
                ),
                names: Seq::new(
                    vals.len(),
                    |j: int|
                        if j >= off {
                            match val_kind(node, j - off) {
                                ValModel::Named(n) => Some(n),
                                ValModel::Str => None,
                            }
                        } else {
                            None
                        },
                ),
                ..acc
            },
        },
    }
}

/// The state after trying the nodes `ns` in turn, the `k`-th with parse
/// results `log[k]`, until one accepts.
pub open spec fn try_all<P>(
    ns: Seq<NodeModel>,
    are_tags: bool,
    vals: Seq<ValueModel>,
    log: Seq<Seq<Option<P>>>,
) -> TryModel<P>
    decreases log.len(),
{
    if log.len() == 0 {
        try_init()
    } else {
        let prev = try_all(ns, are_tags, vals, log.drop_last());
        if prev.ok is Some {
            prev
        } else {
            try_node(prev, ns[log.len() - 1], log.len() - 1, are_tags, vals, log.last())
        }
    }
}

/// `res` holds the parse results of trying `node`: none when the number of
/// values does not fit, else one per value up to the first failure, or all;
/// nothing for a value that takes any text.
pub open spec fn res_complete<P>(node: NodeModel, are_tags: bool, count: int, res: Seq<Option<P>>) -> bool {
    &&& arity(node, are_tags, count) is Fits ==> match first_fail(node, res) {
        Some(i) => res.len() == i + 1,
        None => res.len() == count - offset(are_tags),
    }
    &&& !(arity(node, are_tags, count) is Fits) ==> res.len() == 0
    &&& forall|i: int| 0 <= i < res.len() ==> (val_kind(node, i) is Str ==> #[trigger] res[i] is None)
}

/// The parser gave `r` for the text `v` under the name `n`.
pub open spec fn parsed_by<'a, P, F: Fn(&str, &'a str) -> Option<P>>(
    parser: F,
    n: Seq<char>,
    v: Seq<char>,
    r: Option<P>,
) -> bool {
    exists|a: &str, b: &'a str| a@ == n && b@ == v && call_ensures(parser, (a, b), r)
}

/// Each named value of `res` is what the parser gave for the value's text.
pub open spec fn res_parsed<'a, P, F: Fn(&str, &'a str) -> Option<P>>(
    parser: F,
    node: NodeModel,
    are_tags: bool,
    vals: Seq<ValueModel>,
    res: Seq<Option<P>>,
) -> bool {
    forall|i: int|
        0 <= i < res.len() ==> match val_kind(node, i) {
            ValModel::Named(n) => parsed_by(parser, n, vals[offset(are_tags) + i].text, #[trigger] res[i]),
            ValModel::Str => true,
        }
}

/// `log` holds the parse results of every node tried: nodes are tried in
/// turn until one accepts or none is left.
pub open spec fn log_complete<P>(
    ns: Seq<NodeModel>,
    are_tags: bool,
    vals: Seq<ValueModel>,
    log: Seq<Seq<Option<P>>>,
) -> bool {
    &&& log.len() <= ns.len()
    &&& log.len() == ns.len() || try_all(ns, are_tags, vals, log).ok is Some
    &&& forall|k: int| 0 <= k < log.len() ==> (#[trigger] try_all(ns, are_tags, vals, log.take(k))).ok is None
    &&& forall|k: int| 0 <= k < log.len() ==> res_complete(ns[k], are_tags, vals.len() as int, #[trigger] log[k])
}

/// Every parse result in `log` is what the parser gave.
pub open spec fn log_parsed<'a, P, F: Fn(&str, &'a str) -> Option<P>>(
    parser: F,
    ns: Seq<NodeModel>,
    are_tags: bool,
    vals: Seq<ValueModel>,
    log: Seq<Seq<Option<P>>>,
) -> bool {
    forall|k: int| 0 <= k < log.len() ==> res_parsed(parser, ns[k], are_tags, vals, #[trigger] log[k])
}

/// The outcome of trying the nodes on a record (see `TryModel`).
pub struct TryOut<P> {
    pub ok: Option<usize>,
    pub errs: Vec<usize>,
    pub params_num_err: bool,
    pub found_err: bool,
    pub parsed: Vec<Option<P>>,
    pub names: Vec<Option<String>>,
}

/// The model of a `TryOut`.
pub open spec fn try_out_model<P>(o: TryOut<P>) -> TryModel<P> {
    TryModel {
        ok: match o.ok {
            Some(k) => Some(k as int),
            None => None,
        },
        errs: o.errs@.map_values(|x: usize| x as int),
        params_num_err: o.params_num_err,
        found_err: o.found_err,
        parsed: o.parsed@,
        names: o.names@.map_values(|x: Option<String>| opt_model(x)),
    }
}

/// The nodes at the indices `cands`.
pub open spec fn cand_nodes(w: &Walker, cands: Seq<usize>) -> Seq<NodeModel> {
    cands.map_values(|i: usize| w.model().nodes[i as int])
}

/// `count` empty slots.
fn nones<T>(count: usize) -> (r: Vec<Option<T>>)
    ensures
        r@ == Seq::new(count as nat, |j: int| None::<T>),
{
    let mut v: Vec<Option<T>> = Vec::new();
    let mut i: usize = 0;
    while i < count
        invariant
            i <= count,
            v@ == Seq::new(i as nat, |j: int| None::<T>),
        decreases count - i,
    {
        v.push(None);
        i += 1;
        assert(v@ =~= Seq::new(i as nat, |j: int| None::<T>));
    }
    v
}

/// Tries the nodes at `cands` on `record` in turn, parsing named values
/// with `parser`, until one accepts; returns the outcome and the parse
/// results of each node tried.
pub(crate) fn try_nodes<'a, P, F: Fn(&str, &'a str) -> Option<P>>(
    w: &Walker,
    cands: &Vec<usize>,
    are_tags: bool,
    record: RecordContainer<'a>,
    parser: &F,
) -> (r: (TryOut<P>, Ghost<Seq<Seq<Option<P>>>>))
    requires
        forall|k: int| 0 <= k < cands@.len() ==> #[trigger] cands@[k] < w.model().nodes.len(),
        forall|k: int|
            0 <= k < cands@.len() ==> ({
                let n = #[trigger] cand_nodes(w, cands@)[k];
                n.repeat && !are_tags ==> n.vals.len() > 0
            }),
        record.rec().values.len() >= 1,
        forall|a: &str, b: &'a str| call_requires(*parser, (a, b)),
    ensures
        try_out_model(r.0) == try_all(cand_nodes(w, cands@), are_tags, record.rec().values, r.1@),
        log_complete(cand_nodes(w, cands@), are_tags, record.rec().values, r.1@),
        log_parsed(*parser, cand_nodes(w, cands@), are_tags, record.rec().values, r.1@),
        r.0.parsed@.len() == record.rec().values.len() || r.0.ok is None,
        r.0.names@.len() == record.rec().values.len() || r.0.ok is None,
        forall|q: int| 0 <= q < r.0.errs@.len() ==> #[trigger] r.0.errs@[q] < record.rec().values.len(),
        r.0.ok matches Some(k) ==> k < cands@.len(),
{
    let ghost ns = cand_nodes(w, cands@);
    let ghost vals = record.rec().values;
    let count = record.value_count();
    let off: usize = if are_tags {
        1
    } else {
        0
    };
    let mut out: TryOut<P> = TryOut {
        ok: None,
        errs: Vec::new(),
        params_num_err: false,
        found_err: false,
        parsed: Vec::new(),
        names: Vec::new(),
    };
    let ghost mut log: Seq<Seq<Option<P>>> = Seq::empty();
    proof {
        assert(try_out_model(out).errs =~= Seq::<int>::empty());
        assert(try_out_model(out).names =~= Seq::<Option<Seq<char>>>::empty());
        assert(try_out_model(out) == try_all(ns, are_tags, vals, log));
    }
    let mut k: usize = 0;
    while k < cands.len() && out.ok.is_none()
        invariant
            ns == cand_nodes(w, cands@),
            vals == record.rec().values,
            count == vals.len(),
            count >= 1,
            off == offset(are_tags),
            forall|k: int| 0 <= k < cands@.len() ==> #[trigger] cands@[k] < w.model().nodes.len(),
            forall|k: int|
                0 <= k < cands@.len() ==> ({
                    let n = #[trigger] cand_nodes(w, cands@)[k];
                    n.repeat && !are_tags ==> n.vals.len() > 0
                }),
            forall|a: &str, b: &'a str| call_requires(*parser, (a, b)),
            k <= cands@.len(),
            log.len() == k,
            try_out_model(out) == try_all(ns, are_tags, vals, log),
            forall|q: int| 0 <= q < log.len() ==> (#[trigger] try_all(ns, are_tags, vals, log.take(q))).ok is None,
            forall|q: int| 0 <= q < log.len() ==> res_complete(ns[q], are_tags, vals.len() as int, #[trigger] log[q]),
            log_parsed(*parser, ns, are_tags, vals, log),
            out.ok is Some ==> out.parsed@.len() == count && out.names@.len() == count,
            forall|q: int| 0 <= q < out.errs@.len() ==> #[trigger] out.errs@[q] < count,
            out.ok matches Some(kk) ==> kk < cands@.len(),
        decreases cands.len() - k,
    {
        let ghost prev_log = log;
        let ghost prev_out = try_out_model(out);
        let node = w.node_at(cands[k]);
        let ghost nm = node_model(*node);
        assert(nm == ns[k as int]);
        let nv = node.vals.len();
        let actual = count - off;
        let ghost res: Seq<Option<P>> = Seq::empty();
        if are_tags && nv == 0 && count == 1 {
            out.ok = Some(k);
            out.parsed = nones(count);
            out.names = nones(count);
            proof {
                assert(arity(nm, are_tags, count as int) is TagOnly);
                assert(out.names@.map_values(|x: Option<String>| opt_model(x)) =~= Seq::new(
                    vals.len(),
                    |j: int| None::<Seq<char>>,
                ));
            }
        } else if (are_tags && nv == 0 && count > 1) || (node.repeat && actual % nv != 0) || (node.repeat
            && actual == 0 && nv != 0) || (!node.repeat && actual != nv) {
            out.params_num_err = true;
            proof {
                assert(arity(nm, are_tags, count as int) is Mismatch);
            }
        } else {
            proof {
                assert(arity(nm, are_tags, count as int) is Fits);
                assert(nv > 0);
            }
            let mut parsed: Vec<Option<P>> = nones(count);
            let mut names: Vec<Option<String>> = nones(count);
            let mut failed = false;
            let mut j: usize = off;
            while j < count && !failed
                invariant
                    nm == node_model(*node),
                    nv == nm.vals.len(),
                    nv > 0,
                    vals == record.rec().values,
                    count == vals.len(),
                    off == offset(are_tags),
                    off <= j <= count,
                    forall|a: &str, b: &'a str| call_requires(*parser, (a, b)),
                    res.len() == j - off,
                    try_out_model(out).ok == prev_out.ok,
                    try_out_model(out).params_num_err == prev_out.params_num_err,
                    try_out_model(out).parsed == prev_out.parsed,
                    try_out_model(out).names == prev_out.names,
                    !failed ==> try_out_model(out).errs == prev_out.errs && out.found_err == prev_out.found_err,
                    failed ==> try_out_model(out).errs == prev_out.errs.push(off + res.len() - 1) && out.found_err,
                    forall|q: int| 0 <= q < out.errs@.len() ==> #[trigger] out.errs@[q] < count,
                    failed ==> first_fail(nm, res) == Some(res.len() - 1),
                    !failed ==> first_fail(nm, res) is None,
                    forall|i: int| 0 <= i < res.len() ==> (val_kind(nm, i) is Str ==> #[trigger] res[i] is None),
                    res_parsed(*parser, nm, are_tags, vals, res),
                    parsed@.len() == count,
                    names@.len() == count,
                    !failed ==> forall|q: int|
                        0 <= q < count ==> #[trigger] parsed@[q] == if off <= q < j && val_kind(nm, q - off) is Named {
                            res[q - off]
                        } else {
                            None
                        },
                    !failed ==> forall|q: int|
                        0 <= q < count ==> #[trigger] opt_model(names@[q]) == if off <= q < j {
                            match val_kind(nm, q - off) {
                                ValModel::Named(n) => Some(n),
                                ValModel::Str => None,
                            }
                        } else {
                            None
                        },
                decreases count - j,
            {
                let vi = (j - off) % nv;
                proof {
                    assert(node.vals@.map_values(|v: WalkerVal| crate::walker::val_model(v))[vi as int] == crate::walker::val_model(node.vals@[vi as int]));
                    assert(val_kind(nm, (j - off) as int) == crate::walker::val_model(node.vals@[vi as int]));
                }
                let ghost res0 = res;
                match &node.vals[vi] {
                    WalkerVal::Str => {
                        proof {
                            res = res.push(None);
                            assert(res.drop_last() =~= res0);
                        }
                    },
                    WalkerVal::Named(n) => {
                        let v = record.value(j).unwrap();
                        let x = parser(n.as_str(), v.extracted.as_str());
                        let ghost gx = x;
                        proof {
                            res = res.push(gx);
                            assert(res.drop_last() =~= res0);
                            assert(parsed_by(*parser, n@, vals[j as int].text, gx));
                        }
                        match x {
                            Some(p) => {
                                parsed.set(j, Some(p));
                                names.set(j, Some(string_from_str(n.as_str())));
                            },
                            None => {
                                let ghost e0 = out.errs@;
                                out.errs.push(j);
                                proof {
                                    lemma_map_push(e0, j, |x: usize| x as int);
                                }
                                out.found_err = true;
                                failed = true;
                            },
                        }
                    },
                }
                proof {
                    assert forall|i: int| 0 <= i < res.len() implies match val_kind(nm, i) {
                        ValModel::Named(nn) => parsed_by(*parser, nn, vals[offset(are_tags) + i].text, #[trigger] res[i]),
                        ValModel::Str => true,
                    } by {
                        if i < res0.len() {
                            assert(res[i] == res0[i]);
                        }
                    }
                }
                j += 1;
            }
            proof {
                if !failed {
                    assert(j == count);
                }
            }
            if !failed {
                out.ok = Some(k);
                out.parsed = parsed;
                out.names = names;
                proof {
                    assert(out.parsed@ =~= try_node(prev_out, nm, k as int, are_tags, vals, res).parsed);
                    assert(out.names@.map_values(|x: Option<String>| opt_model(x)) =~= try_node(
                        prev_out,
                        nm,
                        k as int,
                        are_tags,
                        vals,
                        res,
                    ).names);
                }
            }
        }
        proof {
            log = log.push(res);
            assert(log.drop_last() =~= prev_log);
            assert(log.take(k as int) =~= prev_log);
            assert forall|q: int| 0 <= q < log.len() implies (#[trigger] try_all(
                ns,
                are_tags,
                vals,
                log.take(q),
            )).ok is None by {
                if q < k {
                    assert(log.take(q) =~= prev_log.take(q));
                }
            }
            assert forall|q: int| 0 <= q < log.len() implies res_complete(ns[q], are_tags, vals.len() as int, #[trigger] log[q]) by {
                if q < k {
                    assert(log[q] == prev_log[q]);
                }
            }
            assert forall|q: int| 0 <= q < log.len() implies res_parsed(*parser, ns[q], are_tags, vals, #[trigger] log[q]) by {
                if q < k {
                    assert(log[q] == prev_log[q]);
                }
            }
            let t = try_node(prev_out, ns[k as int], k as int, are_tags, vals, res);
            assert(try_all(ns, are_tags, vals, log) == t);
            assert(try_out_model(out).errs =~= t.errs);
            assert(try_out_model(out).names =~= t.names);
            assert(try_out_model(out).parsed =~= t.parsed);
            assert(try_out_model(out) == t);
        }
        k += 1;
    }
    (out, Ghost(log))
}

/// The once-group of tag `t` in branch `b`.
pub open spec fn once_set(b: BranchModel, t: Seq<char>) -> Seq<Seq<char>> {
    match key_index(b.tag_onces, t) {
        Some(i) => b.tag_onces[i].1,
        None => Seq::empty(),
    }
}

/// Tag `t` may be used once among the branches `vis`, and a tag of its group
/// was already used under the same parent.
pub open spec fn once_violated(bs: Seq<BranchModel>, vis: Seq<int>, t: Seq<char>, used: Seq<Seq<char>>) -> bool {
    &&& exists|k: int| 0 <= k < vis.len() && (#[trigger] once_set(bs[vis[k]], t)).contains(t)
    &&& exists|k: int, u: Seq<char>|
        #![trigger used.contains(u), once_set(bs[vis[k]], t)]
        0 <= k < vis.len() && used.contains(u) && once_set(bs[vis[k]], t).contains(u)
}

/// An entry of the walk's stack: a record to enter, or to leave once its
/// children were walked, with the branch it is checked against, the
/// accepted parent, and its depth.
pub struct Frame<'a> {
    pub record: RecordContainer<'a>,
    pub branch: String,
    pub parent: Option<usize>,
    pub depth: usize,
    pub exit: Option<usize>,
}

/// The model of a `Frame`.
pub struct FrameModel<'a> {
    pub record: RecordContainer<'a>,
    pub branch: Seq<char>,
    pub parent: Option<usize>,
    pub depth: nat,
    pub exit: Option<usize>,
}

pub open spec fn frame_model<'a>(f: Frame<'a>) -> FrameModel<'a> {
    FrameModel { record: f.record, branch: f.branch@, parent: f.parent, depth: f.depth as nat, exit: f.exit }
}

/// The model of an accepted record.
pub struct WrModel<'a, P> {
    pub record: RecordContainer<'a>,
    pub parsed_values: Seq<Option<P>>,
    pub parsed_names: Seq<Option<Seq<char>>>,
    pub node_vals_len: nat,
    pub has_tag: bool,
    pub has_repeat: bool,
    pub parent: Option<usize>,
    pub children: Seq<usize>,
    pub node_label: Seq<char>,
    pub branch_label: Seq<char>,
    pub depth: nat,
    pub order: nat,
}

pub open spec fn wr_model<'a, P>(w: WalkerRecord<'a, P>) -> WrModel<'a, P> {
    WrModel {
        record: w.record,
        parsed_values: w.parsed_values@,
        parsed_names: w.parsed_names@.map_values(|x: Option<String>| opt_model(x)),
        node_vals_len: w.node_vals_len as nat,
        has_tag: w.has_tag,
        has_repeat: w.has_repeat,
        parent: w.parent,
        children: w.children@,
        node_label: w.node_label@,
        branch_label: w.branch_label@,
        depth: w.depth as nat,
        order: w.order as nat,
    }
}

/// The state of a walk: the stack of records to enter or leave, the tags
/// used under each parent along the current path, the records accepted so
/// far, how many records were entered, and the errors with their marks.
pub struct WalkModel<'a, P, E> {
    pub frames: Seq<FrameModel<'a>>,
    pub useds: Seq<Seq<Seq<char>>>,
    pub records: Seq<WrModel<'a, P>>,
    pub order: nat,
    pub expects: Seq<Expectation<'a, E>>,
    pub hists: Seq<usize>,
}

/// What a callback gives back: a record whose children are walked next,
/// or an error about one of the values.
pub type CbRes<'a, E> = Result<Option<RecordContainer<'a>>, (usize, E)>;

/// The first `n` lists of used tags, new lists added empty.
pub open spec fn resize_useds(u: Seq<Seq<Seq<char>>>, n: nat) -> Seq<Seq<Seq<char>>> {
    if u.len() >= n {
        u.take(n as int)
    } else {
        u + Seq::new((n - u.len()) as nat, |i: int| Seq::<Seq<char>>::empty())
    }
}

/// The stack entries for the children of `r`, last child first, so that
/// the first child is entered first.
pub open spec fn child_frames<'a>(r: RecordContainer<'a>, branch: Seq<char>, parent: Option<usize>, depth: nat) -> Seq<
    FrameModel<'a>,
> {
    let n = r.rec().children.len();
    Seq::new(n, |k: int| FrameModel { record: r.child_at(n - 1 - k), branch, parent, depth, exit: None })
}

/// The state with the error `et` about value `vi` of `record` added.
pub open spec fn expect<'a, P, E>(
    st: WalkModel<'a, P, E>,
    record: RecordContainer<'a>,
    vi: usize,
    et: WalkerErrorType<E>,
) -> WalkModel<'a, P, E> {
    WalkModel { expects: st.expects.push(Expectation { record, error_type: et, val_ind: vi }), ..st }
}

/// The state with the parse errors about values `errs` of `record` added.
pub open spec fn expect_parse_errs<'a, P, E>(st: WalkModel<'a, P, E>, record: RecordContainer<'a>, errs: Seq<int>) -> WalkModel<
    'a,
    P,
    E,
> {
    WalkModel {
        expects: st.expects + errs.map_values(
            |j: int| Expectation { record, error_type: WalkerErrorType::<E>::ParamParseError, val_ind: j as usize },
        ),
        ..st
    }
}

/// The branch a frame is checked against.
pub open spec fn top_branch(w: WalkerModel, f: FrameModel) -> BranchModel {
    w.branches[branch_index(w.branches, f.branch).unwrap()]
}

/// The candidate nodes for a record with first value `v0` in branch
/// `branch`: the tagged nodes of that tag if any, else the untagged ones.
pub open spec fn candidates(w: WalkerModel, branch: Seq<char>, v0: Seq<char>) -> Seq<usize> {
    let vis = visit_order(w.branches, branch);
    let tagn = tag_nodes_of(w.branches, vis, v0);
    if tagn.len() > 0 {
        tagn
    } else {
        non_tag_nodes_of(w.branches, vis)
    }
}

/// Whether the candidates are tagged nodes.
pub open spec fn are_tags_of(w: WalkerModel, branch: Seq<char>, v0: Seq<char>) -> bool {
    tag_nodes_of(w.branches, visit_order(w.branches, branch), v0).len() > 0
}

/// The nodes at the indices `cands`.
pub open spec fn nodes_at(w: WalkerModel, cands: Seq<usize>) -> Seq<NodeModel> {
    cands.map_values(|i: usize| w.nodes[i as int])
}

/// The first value of the record of a frame: its tag, if it has one.
pub open spec fn first_text(f: FrameModel) -> Seq<char> {
    f.record.rec().values[0].text
}

/// The outcome of the nodes tried on the record of the top frame.
pub open spec fn tried<'a, P, E>(w: WalkerModel, st: WalkModel<'a, P, E>, log: Seq<Seq<Option<P>>>) -> TryModel<P> {
    let f = st.frames.last();
    let v0 = first_text(f);
    try_all(
        nodes_at(w, candidates(w, f.branch, v0)),
        are_tags_of(w, f.branch, v0),
        f.record.rec().values,
        log,
    )
}

/// The end of entering a record that no node accepted: the error that no
/// node fits, unless a parse failed or the branch ignores such records;
/// the count of entered records goes up and the errors since the mark are
/// kept.
pub open spec fn reject_tail<'a, P, E>(
    w: WalkerModel,
    st: WalkModel<'a, P, E>,
    f: FrameModel<'a>,
    found_err: bool,
    params_num_err: bool,
) -> WalkModel<'a, P, E> {
    let s1 = if !found_err && !top_branch(w, f).ignore_other_errors {
        expect(
            st,
            f.record,
            0,
            if params_num_err {
                WalkerErrorType::ParamsIncorrectNum
            } else {
                WalkerErrorType::Unknown
            },
        )
    } else {
        st
    };
    WalkModel { order: s1.order + 1, hists: s1.hists.drop_last(), ..s1 }
}

/// The record accepted by node `node` from frame `f`.
pub open spec fn new_record<'a, P>(
    w: WalkerModel,
    f: FrameModel<'a>,
    node: NodeModel,
    tr: TryModel<P>,
    order: nat,
) -> WrModel<'a, P> {
    WrModel {
        record: f.record,
        parsed_values: tr.parsed,
        parsed_names: tr.names,
        node_vals_len: node.vals.len(),
        has_tag: node.has_tag,
        has_repeat: node.repeat,
        parent: f.parent,
        children: Seq::empty(),
        node_label: match node.label {
            Some(l) => l,
            None => Seq::empty(),
        },
        branch_label: w.branches[node.branch_ind as int].label,
        depth: f.depth,
        order,
    }
}

/// The accepted records with `r` added, and listed among its parent's
/// children.
pub open spec fn add_wr<'a, P>(records: Seq<WrModel<'a, P>>, r: WrModel<'a, P>) -> Seq<WrModel<'a, P>> {
    let idx = records.len();
    let r1 = match r.parent {
        Some(p) => records.update(p as int, WrModel { children: records[p as int].children.push(idx as usize), ..records[p as int] }),
        None => records,
    };
    r1.push(r)
}

/// Entering the record of the top frame, up to the call of the callback:
/// the frame is taken off, a mark is set, the candidate nodes are tried
/// (with parse results `log`), and the tag-once rule is checked. When a node
/// accepts, the errors since the mark are dropped, the record is added and
/// the node's index and the record's index are returned; else the rejection
/// is finished.
#[verifier::opaque]
pub open spec fn enter_pre<'a, P, E>(w: WalkerModel, st: WalkModel<'a, P, E>, log: Seq<Seq<Option<P>>>) -> (
    WalkModel<'a, P, E>,
    Option<(usize, usize)>,
) {
    let f = st.frames.last();
    let v0 = first_text(f);
    let s1 = WalkModel {
        frames: st.frames.drop_last(),
        useds: resize_useds(st.useds, f.depth + 1),
        hists: st.hists.push(st.expects.len() as usize),
        ..st
    };
    let cands = candidates(w, f.branch, v0);
    let tr = tried(w, st, log);
    let s2 = expect_parse_errs(s1, f.record, tr.errs);
    match tr.ok {
        Some(k) => {
            let ni = cands[k];
            let node = w.nodes[ni as int];
            let used = s2.useds.last();
            if node.has_tag && once_violated(w.branches, visit_order(w.branches, f.branch), v0, used) {
                let s3 = expect(s2, f.record, 0, WalkerErrorType::ExpectedTagOnce);
                (reject_tail(w, s3, f, tr.found_err, tr.params_num_err), None)
            } else {
                let useds = if node.has_tag {
                    s2.useds.update(s2.useds.len() - 1, set_add(used, v0))
                } else {
                    s2.useds
                };
                let idx = s2.records.len();
                (
                    WalkModel {
                        useds,
                        expects: s2.expects.take(s2.hists.last() as int),
                        hists: s2.hists.drop_last(),
                        records: add_wr(s2.records, new_record(w, f, node, tr, s2.order)),
                        ..s2
                    },
                    Some((ni, idx as usize)),
                )
            }
        },
        None => (reject_tail(w, s2, f, tr.found_err, tr.params_num_err), None),
    }
}

/// The error a callback reported about value `vi` of `record`.
pub open spec fn expect_custom<'a, P, E>(st: WalkModel<'a, P, E>, record: RecordContainer<'a>, vi: usize, e: E) -> WalkModel<
    'a,
    P,
    E,
> {
    if vi < record.rec().values.len() {
        expect(st, record, vi, WalkerErrorType::Custom(e))
    } else {
        expect(st, record, 0, WalkerErrorType::CustomInvalidValInd(vi, e))
    }
}

/// Entering an accepted record, after the callback gave `cb`: on success,
/// the record is left after its children, the children of the record the
/// callback gave are walked next at the same level, and the record's own
/// children are walked against the node's children branch (or are an
/// error); on failure the callback's error is added. A node that expects
/// children and got none is an error. The count of entered records goes up.
#[verifier::opaque]
pub open spec fn enter_post<'a, P, E>(
    w: WalkerModel,
    st: WalkModel<'a, P, E>,
    f: FrameModel<'a>,
    ni: usize,
    idx: usize,
    cb: CbRes<'a, E>,
) -> WalkModel<'a, P, E> {
    let node = w.nodes[ni as int];
    let rec = f.record.rec();
    let s1 = match cb {
        Ok(inc) => {
            let fr = st.frames.push(
                FrameModel { record: f.record, branch: f.branch, parent: f.parent, depth: f.depth, exit: Some(idx) },
            );
            let fr2 = match inc {
                Some(r) => fr + child_frames(r, f.branch, f.parent, f.depth),
                None => fr,
            };
            if rec.children.len() > 0 {
                match node.children {
                    Some(c) => WalkModel { frames: fr2 + child_frames(f.record, c, Some(idx), f.depth + 1), ..st },
                    None => if !node.ignore_children {
                        expect(WalkModel { frames: fr2, ..st }, f.record, 0, WalkerErrorType::ChildrenNotExpected)
                    } else {
                        WalkModel { frames: fr2, ..st }
                    },
                }
            } else {
                WalkModel { frames: fr2, ..st }
            }
        },
        Err((vi, e)) => expect_custom(st, f.record, vi, e),
    };
    let s2 = if rec.children.len() == 0 && node.children is Some && !node.ignore_children {
        expect(s1, f.record, 0, WalkerErrorType::ChildrenExpected)
    } else {
        s1
    };
    WalkModel { order: s2.order + 1, ..s2 }
}

/// Leaving the record of the top frame after the callback gave `cb`: the
/// children of the record it gave are walked next, or its error is added.
pub open spec fn exit_step<'a, P, E>(st: WalkModel<'a, P, E>, cb: CbRes<'a, E>) -> WalkModel<'a, P, E> {
    let f = st.frames.last();
    exit_finish(WalkModel { frames: st.frames.drop_last(), useds: resize_useds(st.useds, f.depth + 1), ..st }, f, cb)
}

/// Leaving the record of frame `f`, taken off already, after the callback
/// gave `cb`.
#[verifier::opaque]
pub open spec fn exit_finish<'a, P, E>(s1: WalkModel<'a, P, E>, f: FrameModel<'a>, cb: CbRes<'a, E>) -> WalkModel<'a, P, E> {
    match cb {
        Ok(Some(r)) => WalkModel { frames: s1.frames + child_frames(r, f.branch, f.parent, f.depth), ..s1 },
        Ok(None) => s1,
        Err((vi, e)) => expect_custom(s1, f.record, vi, e),
    }
}

/// What happened at one step of a walk: a record entered, with the parse
/// results of the nodes tried and what the callback gave if it was called,
/// or a record left, with what the callback gave.
pub enum Event<'a, P, E> {
    Enter(Seq<Seq<Option<P>>>, Option<CbRes<'a, E>>),
    Exit(CbRes<'a, E>),
}

/// One step of a walk.
pub open spec fn walk_step<'a, P, E>(w: WalkerModel, st: WalkModel<'a, P, E>, ev: Event<'a, P, E>) -> WalkModel<'a, P, E> {
    let f = st.frames.last();
    match ev {
        Event::Enter(log, cb) => {
            let (s1, acc) = enter_pre(w, st, log);
            match (acc, cb) {
                (Some((ni, idx)), Some(c)) => enter_post(w, s1, f, ni, idx, c),
                _ => s1,
            }
        },
        Event::Exit(cb) => exit_step(st, cb),
    }
}

/// The state after the steps `evs`.
pub open spec fn walk_run<'a, P, E>(w: WalkerModel, init: WalkModel<'a, P, E>, evs: Seq<Event<'a, P, E>>) -> WalkModel<
    'a,
    P,
    E,
>
    decreases evs.len(),
{
    if evs.len() == 0 {
        init
    } else {
        walk_step(w, walk_run(w, init, evs.drop_last()), evs.last())
    }
}

/// The state at the start of a walk of the children of `root` against
/// branch `branch`.
pub open spec fn walk_init<P, E>(root: RecordContainer<'_>, branch: Seq<char>) -> WalkModel<'_, P, E> {
    WalkModel {
        frames: child_frames(root, branch, None, 0),
        useds: seq![Seq::empty()],
        records: Seq::empty(),
        order: 0,
        expects: Seq::empty(),
        hists: seq![0usize],
    }
}


/// Whether `x` is in `list`.
fn contains_str(list: &Vec<String>, x: &str) -> (r: bool)
    ensures
        r == list@.map_values(|y: String| y@).contains(x@),
{
    let ghost m = list@.map_values(|y: String| y@);
    let mut i: usize = 0;
    while i < list.len()
        invariant
            i <= list@.len(),
            m == list@.map_values(|y: String| y@),
            forall|j: int| 0 <= j < i ==> m[j] != x@,
        decreases list.len() - i,
    {
        if str_eq(list[i].as_str(), x) {
            assert(m[i as int] == x@);
            return true;
        }
        i += 1;
    }
    false
}

/// Whether tag `t` breaks the tag-once rule of the branches `vis` given the
/// tags `used` under the same parent.
fn once_check(w: &Walker, vis: &Vec<usize>, t: &str, used: &Vec<String>) -> (r: bool)
    requires
        forall|j: int| 0 <= j < vis@.len() ==> #[trigger] vis@[j] < w.model().branches.len(),
    ensures
        r == once_violated(
            w.model().branches,
            vis@.map_values(|i: usize| i as int),
            t@,
            used@.map_values(|y: String| y@),
        ),
{
    let ghost bs = w.model().branches;
    let ghost vm = vis@.map_values(|i: usize| i as int);
    let ghost um = used@.map_values(|y: String| y@);
    let mut has_t = false;
    let mut hit = false;
    let mut k: usize = 0;
    while k < vis.len()
        invariant
            k <= vis@.len(),
            bs == w.model().branches,
            vm == vis@.map_values(|i: usize| i as int),
            um == used@.map_values(|y: String| y@),
            forall|j: int| 0 <= j < vis@.len() ==> #[trigger] vis@[j] < bs.len(),
            has_t == exists|q: int| 0 <= q < k && (#[trigger] once_set(bs[vm[q]], t@)).contains(t@),
            hit == exists|q: int, u: Seq<char>|
                #![trigger um.contains(u), once_set(bs[vm[q]], t@)]
                0 <= q < k && um.contains(u) && once_set(bs[vm[q]], t@).contains(u),
        decreases vis.len() - k,
    {
        let b = w.branch_at(vis[k]);
        let ghost bm = branch_model(*b);
        assert(bm == bs[vm[k as int]]);
        proof {
            assert(keys_of(b.tag_onces@) =~= bm.tag_onces.map_values(|e: (Seq<char>, Seq<Seq<char>>)| e.0));
            lemma_first_key(keys_of(b.tag_onces@), t@);
        }
        match find_key(&b.tag_onces, t) {
            Some(i) => {
                let set = &b.tag_onces[i].1;
                assert(once_set(bm, t@) == set@.map_values(|y: String| y@));
                if contains_str(set, t) {
                    has_t = true;
                }
                let mut q: usize = 0;
                while q < used.len()
                    invariant
                        q <= used@.len(),
                        um == used@.map_values(|y: String| y@),
                        once_set(bm, t@) == set@.map_values(|y: String| y@),
                        bm == bs[vm[k as int]],
                        k < vis@.len(),
                        hit == ((exists|q2: int, u: Seq<char>|
                            #![trigger um.contains(u), once_set(bs[vm[q2]], t@)]
                            0 <= q2 < k && um.contains(u) && once_set(bs[vm[q2]], t@).contains(u)) || exists|j: int|
                            0 <= j < q && once_set(bm, t@).contains(#[trigger] um[j])),
                    decreases used.len() - q,
                {
                    let c = contains_str(set, used[q].as_str());
                    assert(um[q as int] == used@[q as int]@);
                    assert(c == once_set(bm, t@).contains(um[q as int]));
                    if c {
                        hit = true;
                    }
                    q += 1;
                }
                proof {
                    if exists|j: int| 0 <= j < q && once_set(bm, t@).contains(#[trigger] um[j]) {
                        let j = choose|j: int| 0 <= j < q && once_set(bm, t@).contains(#[trigger] um[j]);
                        assert(um.contains(um[j]));
                    }
                    if exists|q2: int, u: Seq<char>|
                        #![trigger um.contains(u), once_set(bs[vm[q2]], t@)]
                        0 <= q2 < k + 1 && um.contains(u) && once_set(bs[vm[q2]], t@).contains(u) {
                        let (q2, u) = choose|q2: int, u: Seq<char>|
                            #![trigger um.contains(u), once_set(bs[vm[q2]], t@)]
                            0 <= q2 < k + 1 && um.contains(u) && once_set(bs[vm[q2]], t@).contains(u);
                        if q2 == k {
                            let j = choose|j: int| 0 <= j < um.len() && um[j] == u;
                            assert(once_set(bm, t@).contains(um[j]));
                        }
                    }
                }
            },
            None => {
                assert(once_set(bm, t@) =~= Seq::<Seq<char>>::empty());
            },
        }
        k += 1;
    }
    has_t && hit
}

/// A stack entry that can be walked: its record has a value, its branch is
/// declared, and the accepted records it refers to exist.
pub open spec fn frame_ok<'a>(w: WalkerModel, nrec: nat, order: nat, f: Frame<'a>) -> bool {
    &&& f.record.rec().values.len() >= 1
    &&& branch_index(w.branches, f.branch@) is Some
    &&& f.parent matches Some(p) ==> p < nrec
    &&& f.exit matches Some(x) ==> x < nrec && f.depth < order
    &&& f.depth <= order
}

/// Adding an accepted record at the end, with a parent that came before it
/// and a depth one more than that parent's, and listing it among that
/// parent's children keeps the list well formed and the depth of every stack
/// entry as it was.
proof fn lemma_records_grow<'a, P>(r0: Seq<WalkerRecord<'a, P>>, r: Seq<WalkerRecord<'a, P>>, wr: WalkerRecord<'a, P>)
    requires
        walker_records_wf(r0),
        r.len() == r0.len() + 1,
        r[r0.len() as int] == wr,
        wr.children@.len() == 0,
        wr.record.rec().values.len() >= 1,
        wr.parent matches Some(p) ==> p < r0.len() && wr.depth == r0[p as int].depth + 1,
        wr.parent is None ==> wr.depth == 0,
        forall|k: int|
            0 <= k < r0.len() ==> {
                &&& (#[trigger] r[k]).parent == r0[k].parent
                &&& r[k].depth == r0[k].depth
                &&& r[k].record == r0[k].record
                &&& (r[k].children@ == r0[k].children@ || r[k].children@ == r0[k].children@.push(r0.len() as usize))
            },
    ensures
        walker_records_wf(r),
        forall|f: Frame<'a>| depth_ok(r0, f) ==> #[trigger] depth_ok(r, f),
{
    assert forall|k: int| 0 <= k < r.len() implies {
        &&& (#[trigger] r[k]).parent matches Some(p) ==> p < r.len()
        &&& r[k].parent matches Some(p) ==> p < k && r[k].depth == r[p as int].depth + 1
        &&& r[k].parent is None ==> r[k].depth == 0
        &&& forall|j: int| 0 <= j < r[k].children@.len() ==> #[trigger] r[k].children@[j] < r.len()
        &&& r[k].record.rec().values.len() >= 1
    } by {
        if k < r0.len() {
            let o = r0[k];
            assert(o.parent matches Some(p) ==> p < k && o.depth == r0[p as int].depth + 1);
            if let Some(p) = o.parent {
                assert(r[p as int].depth == r0[p as int].depth);
            }
            assert forall|j: int| 0 <= j < r[k].children@.len() implies #[trigger] r[k].children@[j] < r.len() by {
                if j < o.children@.len() {
                    assert(r[k].children@[j] == o.children@[j]);
                    assert(o.children@[j] < r0.len());
                }
            }
        } else {
            if let Some(p) = wr.parent {
                assert(r[p as int].depth == r0[p as int].depth);
            }
        }
    }
    assert forall|f: Frame<'a>| depth_ok(r0, f) implies #[trigger] depth_ok(r, f) by {
        if let Some(p) = f.parent {
            assert(r[p as int].depth == r0[p as int].depth);
        }
    }
}

/// The depth of a stack entry is one more than that of its accepted
/// parent, or 0 without one.
pub open spec fn depth_ok<'a, P>(recs: Seq<WalkerRecord<'a, P>>, f: Frame<'a>) -> bool {
    match f.parent {
        Some(p) => p < recs.len() && f.depth == recs[p as int].depth + 1,
        None => f.depth == 0,
    }
}

/// Pushes the entries for the children of `r`, last child first.
fn push_children<'a>(
    frames: &mut Vec<Frame<'a>>,
    r: RecordContainer<'a>,
    branch: &str,
    parent: Option<usize>,
    depth: usize,
    Ghost(w): Ghost<WalkerModel>,
    Ghost(nrec): Ghost<nat>,
    Ghost(order): Ghost<nat>,
)
    requires
        branch_index(w.branches, branch@) is Some,
        parent matches Some(p) ==> p < nrec,
        depth <= order,
    ensures
        final(frames)@.map_values(|f: Frame<'a>| frame_model(f)) == old(frames)@.map_values(|f: Frame<'a>| frame_model(f))
            + child_frames(r, branch@, parent, depth as nat),
        final(frames)@.len() == old(frames)@.len() + r.rec().children.len(),
        forall|i: int| 0 <= i < old(frames)@.len() ==> final(frames)@[i] == old(frames)@[i],
        forall|i: int|
            old(frames)@.len() <= i < final(frames)@.len() ==> frame_ok(w, nrec, order, #[trigger] final(frames)@[i])
                && final(frames)@[i].exit is None && final(frames)@[i].parent == parent && final(frames)@[i].depth
                == depth,
{
    let n = r.child_count();
    let mut i = n;
    let ghost old_frames = frames@;
    let ghost cf = child_frames(r, branch@, parent, depth as nat);
    while i > 0
        invariant
            i <= n,
            n == r.rec().children.len(),
            cf == child_frames(r, branch@, parent, depth as nat),
            branch_index(w.branches, branch@) is Some,
            parent matches Some(p) ==> p < nrec,
            depth <= order,
            frames@.len() == old_frames.len() + (n - i),
            frames@.map_values(|f: Frame<'a>| frame_model(f)) == old_frames.map_values(|f: Frame<'a>| frame_model(f))
                + cf.take((n - i) as int),
            forall|k: int| 0 <= k < old_frames.len() ==> frames@[k] == old_frames[k],
            forall|k: int|
                old_frames.len() <= k < frames@.len() ==> frame_ok(w, nrec, order, #[trigger] frames@[k])
                    && frames@[k].exit is None && frames@[k].parent == parent && frames@[k].depth == depth,
        decreases i,
    {
        i -= 1;
        let c = r.child(i).unwrap();
        let fr = Frame { record: c, branch: string_from_str(branch), parent, depth, exit: None };
        let ghost prev = frames@;
        frames.push(fr);
        proof {
            lemma_map_push(prev, fr, |f: Frame<'a>| frame_model(f));
            assert(cf[(n - 1 - i) as int] == frame_model(fr));
            assert(cf.take((n - i) as int) =~= cf.take((n - i - 1) as int).push(frame_model(fr)));
        }
    }
    proof {
        assert(cf.take(n as int) =~= cf);
    }
}

/// Keeps the first `n` lists of used tags, adding empty ones.
fn resize_used(useds: &mut Vec<Vec<String>>, n: usize)
    ensures
        final(useds)@.map_values(|u: Vec<String>| u@.map_values(|y: String| y@)) == resize_useds(
            old(useds)@.map_values(|u: Vec<String>| u@.map_values(|y: String| y@)),
            n as nat,
        ),
{
    let ghost m0 = useds@.map_values(|u: Vec<String>| u@.map_values(|y: String| y@));
    if useds.len() >= n {
        useds.truncate(n);
        proof {
            assert(useds@.map_values(|u: Vec<String>| u@.map_values(|y: String| y@)) =~= m0.take(n as int));
        }
    } else {
        let k0 = useds.len();
        while useds.len() < n
            invariant
                k0 <= useds@.len() <= n,
                useds@.map_values(|u: Vec<String>| u@.map_values(|y: String| y@)) == m0 + Seq::new(
                    (useds@.len() - k0) as nat,
                    |i: int| Seq::<Seq<char>>::empty(),
                ),
                m0.len() == k0,
            decreases n - useds.len(),
        {
            let ghost prev = useds@;
            let e: Vec<String> = Vec::new();
            useds.push(e);
            proof {
                lemma_map_push(prev, e, |u: Vec<String>| u@.map_values(|y: String| y@));
                assert(e@.map_values(|y: String| y@) =~= Seq::<Seq<char>>::empty());
                assert(useds@.map_values(|u: Vec<String>| u@.map_values(|y: String| y@)) =~= m0 + Seq::new(
                    (useds@.len() - k0) as nat,
                    |i: int| Seq::<Seq<char>>::empty(),
                ));
            }
        }
    }
}

/// A copy of a text.
fn copy_string(s: &String) -> (r: String)
    ensures
        r@ == s@,
{
    string_from_str(s.as_str())
}

/// The state of a walk (see `WalkModel`).
pub struct Walk<'a, P, E> {
    frames: Vec<Frame<'a>>,
    useds: Vec<Vec<String>>,
    records: Vec<WalkerRecord<'a, P>>,
    order: usize,
    expecter: Expecter<'a, E>,
}

impl<'a, P, E> Walk<'a, P, E> {
    /// The model.
    pub closed spec fn model(&self) -> WalkModel<'a, P, E> {
        WalkModel {
            frames: self.frames@.map_values(|f: Frame<'a>| frame_model(f)),
            useds: self.useds@.map_values(|u: Vec<String>| u@.map_values(|y: String| y@)),
            records: self.records@.map_values(|r: WalkerRecord<'a, P>| wr_model(r)),
            order: self.order as nat,
            expects: self.expecter.expects(),
            hists: self.expecter.hists(),
        }
    }

    /// The errors are well formed with one mark at the start, the accepted
    /// records point at each other, and every stack entry can be walked.
    pub closed spec fn inv(&self, w: WalkerModel) -> bool {
        &&& self.expecter.wf()
        &&& self.expecter.hists() == seq![0usize]
        &&& walker_records_wf(self.records@)
        &&& forall|i: int|
            0 <= i < self.frames@.len() ==> frame_ok(w, self.records@.len(), self.order as nat, #[trigger] self.frames@[i])
        &&& forall|i: int| 0 <= i < self.frames@.len() ==> depth_ok(self.records@, #[trigger] self.frames@[i])
    }

    /// The errors found.
    pub fn into_expecter(self, Ghost(w): Ghost<WalkerModel>) -> (r: Expecter<'a, E>)
        ensures
            r.expects() == self.model().expects,
            r.hists() == self.model().hists,
            self.inv(w) ==> r.wf(),
    {
        self.expecter
    }

    /// A walk of the children of `root` against branch `branch`.
    pub fn new(root: RecordContainer<'a>, branch: &str, Ghost(w): Ghost<WalkerModel>) -> (r: Self)
        requires
            branch_index(w.branches, branch@) is Some,
        ensures
            r.model() == walk_init::<P, E>(root, branch@),
            r.inv(w),
    {
        let mut frames: Vec<Frame<'a>> = Vec::new();
        push_children(&mut frames, root, branch, None, 0, Ghost(w), Ghost(0), Ghost(0));
        let mut useds: Vec<Vec<String>> = Vec::new();
        let e: Vec<String> = Vec::new();
        useds.push(e);
        let r = Walk { frames, useds, records: Vec::new(), order: 0, expecter: Expecter::new() };
        proof {
            assert(Seq::<Frame<'a>>::empty().map_values(|f: Frame<'a>| frame_model(f)) =~= Seq::<FrameModel<'a>>::empty());
            assert(r.model().frames =~= child_frames(root, branch@, None, 0));
            assert(e@.map_values(|y: String| y@) =~= Seq::<Seq<char>>::empty());
            assert(r.model().useds =~= seq![Seq::<Seq<char>>::empty()]);
            assert(r.model().records =~= Seq::<WrModel<'a, P>>::empty());
        }
        r
    }
}

impl<'a, P, E> Walk<'a, P, E> {
    /// Whether the top of the stack is a record to leave.
    fn top_is_exit(&self) -> (r: bool)
        requires
            self.model().frames.len() > 0,
        ensures
            r == self.model().frames.last().exit is Some,
    {
        self.frames[self.frames.len() - 1].exit.is_some()
    }

    /// Whether the walk can take a step: a record is left to enter or leave,
    /// and the count of entered records can still go up if it is entered.
    fn can_step(&self) -> (r: bool)
        ensures
            r == (self.model().frames.len() > 0 && (self.model().frames.last().exit is Some || self.model().order
                < usize::MAX)),
    {
        self.frames.len() > 0 && (self.frames[self.frames.len() - 1].exit.is_some() || self.order < usize::MAX)
    }

    /// The end of entering a record that no node accepted.
    fn reject_tail(&mut self, w: &Walker, f: &Frame<'a>, found_err: bool, params_num_err: bool)
        requires
            old(self).expecter.wf(),
            old(self).expecter.hists().len() >= 1,
            old(self).order < usize::MAX,
            f.record.rec().values.len() >= 1,
            branch_index(w.model().branches, f.branch@) is Some,
        ensures
            final(self).model() == reject_tail(w.model(), old(self).model(), frame_model(*f), found_err, params_num_err),
            final(self).expecter.wf(),
            final(self).frames == old(self).frames,
            final(self).records == old(self).records,
            final(self).useds == old(self).useds,
    {
        proof {
            crate::walker::lemma_branch_index(w.model().branches, f.branch@);
        }
        let bi = w.branch_position(f.branch.as_str()).unwrap();
        let top = w.branch_at(bi);
        if !found_err && !top.ignore_other_errors {
            let et = if params_num_err {
                WalkerErrorType::ParamsIncorrectNum
            } else {
                WalkerErrorType::Unknown
            };
            self.expecter.expect(f.record, 0, et);
        }
        self.order += 1;
        self.expecter.pop_keep();
    }

    /// Enters the record of the top entry, up to the call of the callback
    /// (see `enter_pre`).
    #[verifier::spinoff_prover]
    #[verifier::rlimit(60)]
    fn enter_pre<F: Fn(&str, &'a str) -> Option<P>>(&mut self, w: &Walker, parser: &F) -> (r: (
        Frame<'a>,
        Option<(usize, usize)>,
        Ghost<Seq<Seq<Option<P>>>>,
    ))
        requires
            old(self).inv(w.model()),
            walker_wf(w.model()),
            old(self).model().frames.len() > 0,
            old(self).model().frames.last().exit is None,
            old(self).order < usize::MAX,
            forall|a: &str, b: &'a str| call_requires(*parser, (a, b)),
        ensures
            frame_model(r.0) == old(self).model().frames.last(),
            (final(self).model(), r.1) == enter_pre(w.model(), old(self).model(), r.2@),
            ({
                let f = old(self).model().frames.last();
                let v0 = first_text(f);
                &&& log_complete(
                    nodes_at(w.model(), candidates(w.model(), f.branch, v0)),
                    are_tags_of(w.model(), f.branch, v0),
                    f.record.rec().values,
                    r.2@,
                )
                &&& log_parsed(
                    *parser,
                    nodes_at(w.model(), candidates(w.model(), f.branch, v0)),
                    are_tags_of(w.model(), f.branch, v0),
                    f.record.rec().values,
                    r.2@,
                )
            }),
            final(self).expecter.wf(),
            final(self).expecter.hists() == seq![0usize],
            walker_records_wf(final(self).records@),
            frame_ok(w.model(), final(self).records@.len() as nat, old(self).order as nat, r.0),
            final(self).frames@.len() + 1 == old(self).frames@.len(),
            final(self).model().frames == old(self).model().frames.drop_last(),
            forall|i: int|
                0 <= i < final(self).frames@.len() ==> frame_ok(
                    w.model(),
                    final(self).records@.len() as nat,
                    final(self).order as nat,
                    #[trigger] final(self).frames@[i],
                ),
            match r.1 {
                Some((ni, idx)) => ni < w.model().nodes.len() && idx + 1 == final(self).records@.len()
                    && final(self).order == old(self).order && r.0.parent.unwrap_or(0) <= idx
                    && final(self).records@[idx as int].depth == r.0.depth,
                None => final(self).order == old(self).order + 1,
            },
            depth_ok(final(self).records@, r.0),
            forall|i: int| 0 <= i < final(self).frames@.len() ==> depth_ok(final(self).records@, #[trigger] final(self).frames@[i]),
    {
        proof {
            reveal(enter_pre);
        }
        let ghost st = self.model();
        let ghost wm = w.model();
        let ghost old_frames = self.frames@;
        let f = self.frames.pop().unwrap();
        assert(f == old_frames[old_frames.len() - 1]);
        assert(frame_ok(wm, self.records@.len() as nat, self.order as nat, f));
        let ghost nrec0 = self.records@.len();
        proof {
            assert(self.frames@ =~= old_frames.drop_last());
            assert(frame_ok(wm, self.records@.len() as nat, self.order as nat, old_frames[old_frames.len() - 1]));
            assert(self.model().frames =~= st.frames.drop_last()) by {
                assert(old_frames.drop_last().map_values(|f: Frame<'a>| frame_model(f)) =~= old_frames.map_values(
                    |f: Frame<'a>| frame_model(f),
                ).drop_last());
            }
        }
        resize_used(&mut self.useds, f.depth + 1);
        assert(self.model().useds.len() == f.depth + 1);
        assert(self.useds@.len() == f.depth + 1);
        let v0 = f.record.value(0).unwrap();
        self.expecter.push();
        let ghost s1 = self.model();
        assert(s1.hists.drop_last() =~= seq![0usize]);
        assert(s1 == WalkModel {
            frames: st.frames.drop_last(),
            useds: resize_useds(st.useds, frame_model(f).depth + 1),
            hists: st.hists.push(st.expects.len() as usize),
            ..st
        });
        let (tagn, non, vis) = w.collect(f.branch.as_str(), v0.extracted.as_str());
        let are_tags = tagn.len() > 0;
        let cands = if are_tags {
            tagn
        } else {
            non
        };
        assert(cands@ == candidates(wm, f.branch@, v0@.text));
        assert(are_tags == are_tags_of(wm, f.branch@, v0@.text));
        proof {
            let vm = vis@.map_values(|i: usize| i as int);
            crate::walker::lemma_tag_nodes_ok(wm, vm, v0@.text);
            crate::walker::lemma_non_tag_nodes_ok(wm, vm);
            assert forall|k: int| 0 <= k < cands@.len() implies #[trigger] cands@[k] < wm.nodes.len() && (wm.nodes[cands@[k] as int].has_tag == are_tags) by {
                if are_tags {
                    assert(cands@[k] == tag_nodes_of(wm.branches, vm, v0@.text)[k]);
                } else {
                    assert(cands@[k] == non_tag_nodes_of(wm.branches, vm)[k]);
                }
            }
            assert forall|k: int| 0 <= k < cands@.len() implies ({
                let n = #[trigger] cand_nodes(w, cands@)[k];
                n.repeat && !are_tags ==> n.vals.len() > 0
            }) by {
                assert(cand_nodes(w, cands@)[k] == wm.nodes[cands@[k] as int]);
                assert(crate::walker::node_ok(wm.branches, wm.nodes[cands@[k] as int]));
            }
        }
        let (tr, Ghost(log)) = try_nodes(w, &cands, are_tags, f.record, parser);
        let ghost trm = tried(wm, st, log);
        assert(nodes_at(wm, cands@) == cand_nodes(w, cands@));
        assert(try_out_model(tr) == trm);
        let mut q: usize = 0;
        let ghost fr_b = self.frames;
        let ghost rec_b = self.records;
        let ghost us_b = self.useds;
        let ghost ord_b = self.order;
        while q < tr.errs.len()
            invariant
                q <= tr.errs@.len(),
                self.frames == fr_b,
                self.records == rec_b,
                self.useds == us_b,
                self.order == ord_b,
                self.expecter.wf(),
                self.expecter.hists() == s1.hists,
                f.record.rec().values.len() >= 1,
                forall|k: int| 0 <= k < tr.errs@.len() ==> #[trigger] tr.errs@[k] < f.record.rec().values.len(),
                self.model() == expect_parse_errs(s1, f.record, trm.errs.take(q as int)),
                trm.errs == tr.errs@.map_values(|x: usize| x as int),
            decreases tr.errs.len() - q,
        {
            let ghost m0 = self.model();
            self.expecter.expect(f.record, tr.errs[q], WalkerErrorType::ParamParseError);
            q += 1;
            proof {
                assert(trm.errs.take(q as int) =~= trm.errs.take(q - 1).push(tr.errs@[q - 1] as int));
                assert(self.model().expects =~= expect_parse_errs(s1, f.record, trm.errs.take(q as int)).expects);
            }
        }
        proof {
            assert(trm.errs.take(q as int) =~= trm.errs);
        }
        let ghost s2 = self.model();
        assert(s2 == expect_parse_errs(s1, f.record, trm.errs));
        match tr.ok {
            Some(k) => {
                let ni = cands[k];
                let node = w.node_at(ni);
                let ghost nm = node_model(*node);
                let last = self.useds.len() - 1;
                let bad = node.has_tag && once_check(w, &vis, v0.extracted.as_str(), &self.useds[last]);
                proof {
                    assert(s2.useds.last() == self.useds@[last as int]@.map_values(|y: String| y@));
                }
                if bad {
                    self.expecter.expect(f.record, 0, WalkerErrorType::ExpectedTagOnce);
                    self.reject_tail(w, &f, tr.found_err, tr.params_num_err);
                    (f, None, Ghost(log))
                } else {
                    if node.has_tag {
                        let ghost u0 = self.useds@;
                        let mut u = self.useds.pop().unwrap();
                        set_insert(&mut u, v0.extracted.as_str());
                        self.useds.push(u);
                        proof {
                            assert(self.useds@ == u0.update(last as int, u));
                            lemma_map_update(u0, last as int, u, |u: Vec<String>| u@.map_values(|y: String| y@));
                        }
                    }
                    self.expecter.pop_discard();
                    let idx = self.records.len();
                    let node_label = match &node.node_label {
                        Some(l) => copy_string(l),
                        None => String::new(),
                    };
                    proof {
                        assert(crate::walker::node_ok(wm.branches, wm.nodes[ni as int]));
                    }
                    let branch_label = copy_string(&w.branch_at(node.branch_ind).branch_label);
                    let wr = WalkerRecord {
                        record: f.record,
                        parsed_values: tr.parsed,
                        parsed_names: tr.names,
                        node_vals_len: node.vals.len(),
                        has_tag: node.has_tag,
                        has_repeat: node.repeat,
                        parent: f.parent,
                        children: Vec::new(),
                        node_label,
                        branch_label,
                        depth: f.depth,
                        order: self.order,
                    };
                    let ghost wrm = wr_model(wr);
                    assert(wrm.children =~= Seq::<usize>::empty());
                    assert(wrm == new_record(wm, frame_model(f), nm, trm, s2.order));
                    let ghost r0 = self.records@;
                    assert(r0 == old(self).records@);
                    assert(r0.len() == nrec0);
                    self.records.push(wr);
                    proof {
                        lemma_map_push(r0, wr, |r: WalkerRecord<'a, P>| wr_model(r));
                    }
                    match f.parent {
                        Some(p) => {
                            assert(p < nrec0);
                            let ghost r1 = self.records@;
                            let mut pr = self.records.remove(p);
                            pr.children.push(idx);
                            self.records.insert(p, pr);
                            proof {
                                assert(self.records@ =~= r1.update(p as int, pr));
                                lemma_map_update(r1, p as int, pr, |r: WalkerRecord<'a, P>| wr_model(r));
                                assert(wr_model(pr) == WrModel { children: wr_model(r1[p as int]).children.push(idx), ..wr_model(r1[p as int]) });
                                assert(r0.push(wr).map_values(|r: WalkerRecord<'a, P>| wr_model(r)).update(p as int, wr_model(pr)) =~= add_wr(
                                    s2.records,
                                    wrm,
                                ));
                            }
                        },
                        None => {},
                    }
                    proof {
                        assert(self.model().records =~= add_wr(s2.records, wrm));
                        lemma_records_grow(r0, self.records@, wr);
                    }
                    (f, Some((ni, idx)), Ghost(log))
                }
            },
            None => {
                self.reject_tail(w, &f, tr.found_err, tr.params_num_err);
                (f, None, Ghost(log))
            },
        }
    }
}

impl<'a, P, E> Walk<'a, P, E> {
    /// Adds the error a callback reported about value `vi` of `record`.
    fn expect_custom(&mut self, record: RecordContainer<'a>, vi: usize, e: E)
        requires
            old(self).expecter.wf(),
            record.rec().values.len() >= 1,
        ensures
            final(self).model() == expect_custom(old(self).model(), record, vi, e),
            final(self).expecter.wf(),
            final(self).expecter.hists() == old(self).expecter.hists(),
            final(self).frames == old(self).frames,
            final(self).records == old(self).records,
            final(self).useds == old(self).useds,
            final(self).order == old(self).order,
    {
        if vi < record.value_count() {
            self.expecter.expect(record, vi, WalkerErrorType::Custom(e));
        } else {
            self.expecter.expect(record, 0, WalkerErrorType::CustomInvalidValInd(vi, e));
        }
    }

    /// Finishes entering an accepted record after the callback gave `cb`
    /// (see `enter_post`).
    fn enter_post(&mut self, w: &Walker, f: &Frame<'a>, ni: usize, idx: usize, cb: CbRes<'a, E>)
        requires
            old(self).expecter.wf(),
            old(self).expecter.hists() == seq![0usize],
            walker_records_wf(old(self).records@),
            walker_wf(w.model()),
            frame_ok(w.model(), old(self).records@.len() as nat, old(self).order as nat, *f),
            forall|i: int|
                0 <= i < old(self).frames@.len() ==> frame_ok(
                    w.model(),
                    old(self).records@.len() as nat,
                    old(self).order as nat,
                    #[trigger] old(self).frames@[i],
                ),
            ni < w.model().nodes.len(),
            idx < old(self).records@.len(),
            old(self).order < usize::MAX,
            depth_ok(old(self).records@, *f),
            old(self).records@[idx as int].depth == f.depth,
            forall|i: int| 0 <= i < old(self).frames@.len() ==> depth_ok(old(self).records@, #[trigger] old(self).frames@[i]),
        ensures
            final(self).model() == enter_post(w.model(), old(self).model(), frame_model(*f), ni, idx, cb),
            final(self).inv(w.model()),
            exits(final(self).model().frames) <= exits(old(self).model().frames) + 1,
            final(self).model().order == old(self).model().order + 1,
    {
        proof {
            reveal(enter_post);
        }
        let ghost wm = w.model();
        let ghost st = self.model();
        let ghost nrec = self.records@.len() as nat;
        let ghost ord1 = (self.order + 1) as nat;
        let ghost fr0 = self.frames@;
        let node = w.node_at(ni);
        proof {
            assert(crate::walker::node_ok(wm.branches, wm.nodes[ni as int]));
        }
        let count = f.record.value_count();
        let nchild = f.record.child_count();
        match cb {
            Ok(inc) => {
                let ex = Frame { record: f.record, branch: copy_string(&f.branch), parent: f.parent, depth: f.depth, exit: Some(idx) };
                self.frames.push(ex);
                proof {
                    lemma_map_push(fr0, ex, |f: Frame<'a>| frame_model(f));
                    let m0 = fr0.map_values(|f: Frame<'a>| frame_model(f));
                    assert(m0.push(frame_model(ex)) =~= m0 + seq![frame_model(ex)]);
                    lemma_exits_concat(m0, seq![frame_model(ex)]);
                    assert(exits(seq![frame_model(ex)]) == 1) by {
                        assert(seq![frame_model(ex)].drop_last() =~= Seq::<FrameModel<'a>>::empty());
                        assert(exits(Seq::<FrameModel<'a>>::empty()) == 0);
                        reveal_with_fuel(exits, 2);
                    }
                }
                let ghost e1 = exits(self.model().frames);
                assert(e1 == exits(st.frames) + 1);
                match inc {
                    Some(r) => {
                        let ghost fm1 = self.model().frames;
                        push_children(&mut self.frames, r, f.branch.as_str(), f.parent, f.depth, Ghost(wm), Ghost(nrec), Ghost(ord1));
                        proof {
                            lemma_exits_concat(fm1, child_frames(r, f.branch@, f.parent, f.depth as nat));
                            lemma_exits_children(r, f.branch@, f.parent, f.depth as nat);
                        }
                    },
                    None => {},
                }
                assert(exits(self.model().frames) == e1);
                if nchild > 0 {
                    match &node.children {
                        Some(c) => {
                            let ghost fm2 = self.model().frames;
                            push_children(&mut self.frames, f.record, c.as_str(), Some(idx), f.depth + 1, Ghost(wm), Ghost(nrec), Ghost(ord1));
                            proof {
                                lemma_exits_concat(fm2, child_frames(f.record, c@, Some(idx), (f.depth + 1) as nat));
                                lemma_exits_children(f.record, c@, Some(idx), (f.depth + 1) as nat);
                            }
                        },
                        None => {
                            if !node.ignore_children {
                                self.expecter.expect(f.record, 0, WalkerErrorType::ChildrenNotExpected);
                            }
                        },
                    }
                }
            },
            Err((vi, e)) => {
                self.expect_custom(f.record, vi, e);
            },
        }
        if nchild == 0 && node.children.is_some() && !node.ignore_children {
            self.expecter.expect(f.record, 0, WalkerErrorType::ChildrenExpected);
        }
        self.order += 1;
        proof {
            assert forall|i: int| 0 <= i < self.frames@.len() implies frame_ok(
                wm,
                self.records@.len() as nat,
                self.order as nat,
                #[trigger] self.frames@[i],
            ) by {
                if i < fr0.len() {
                    assert(self.frames@[i] == fr0[i]);
                }
            }
        }
    }

    /// Takes off the top entry, a record to leave.
    fn exit_pre(&mut self, Ghost(w): Ghost<WalkerModel>) -> (r: Frame<'a>)
        requires
            old(self).inv(w),
            old(self).model().frames.len() > 0,
            old(self).model().frames.last().exit is Some,
        ensures
            frame_model(r) == old(self).model().frames.last(),
            final(self).model() == (WalkModel {
                frames: old(self).model().frames.drop_last(),
                useds: resize_useds(old(self).model().useds, old(self).model().frames.last().depth + 1),
                ..old(self).model()
            }),
            final(self).inv(w),
            frame_ok(w, final(self).records@.len() as nat, final(self).order as nat, r),
            depth_ok(final(self).records@, r),
            final(self).records == old(self).records,
    {
        let ghost old_frames = self.frames@;
        let f = self.frames.pop().unwrap();
        assert(f == old_frames[old_frames.len() - 1]);
        proof {
            assert(self.model().frames =~= old(self).model().frames.drop_last()) by {
                assert(old_frames.drop_last().map_values(|f: Frame<'a>| frame_model(f)) =~= old_frames.map_values(
                    |f: Frame<'a>| frame_model(f),
                ).drop_last());
            }
        }
        assert(f.depth <= self.order);
        resize_used(&mut self.useds, f.depth + 1);
        proof {
            assert forall|i: int| 0 <= i < self.frames@.len() implies frame_ok(
                w,
                self.records@.len() as nat,
                self.order as nat,
                #[trigger] self.frames@[i],
            ) by {
                assert(self.frames@[i] == old_frames[i]);
            }
        }
        f
    }

    /// Finishes leaving the record of `f` after the callback gave `cb`.
    fn exit_post(&mut self, Ghost(w): Ghost<WalkerModel>, f: &Frame<'a>, cb: CbRes<'a, E>)
        requires
            old(self).inv(w),
            frame_ok(w, old(self).records@.len() as nat, old(self).order as nat, *f),
            depth_ok(old(self).records@, *f),
        ensures
            final(self).model() == exit_finish(old(self).model(), frame_model(*f), cb),
            final(self).inv(w),
            exits(final(self).model().frames) == exits(old(self).model().frames),
            final(self).model().order == old(self).model().order,
    {
        proof {
            reveal(exit_finish);
        }
        let ghost fr0 = self.frames@;
        let ghost nrec = self.records@.len() as nat;
        let ghost ord = self.order as nat;
        match cb {
            Ok(Some(r)) => {
                let ghost fm = self.model().frames;
                push_children(&mut self.frames, r, f.branch.as_str(), f.parent, f.depth, Ghost(w), Ghost(nrec), Ghost(ord));
                proof {
                    lemma_exits_concat(fm, child_frames(r, f.branch@, f.parent, f.depth as nat));
                    lemma_exits_children(r, f.branch@, f.parent, f.depth as nat);
                }
            },
            Ok(None) => {},
            Err((vi, e)) => {
                self.expect_custom(f.record, vi, e);
            },
        }
        proof {
            assert forall|i: int| 0 <= i < self.frames@.len() implies frame_ok(
                w,
                self.records@.len() as nat,
                self.order as nat,
                #[trigger] self.frames@[i],
            ) by {
                if i < fr0.len() {
                    assert(self.frames@[i] == fr0[i]);
                }
            }
        }
    }
}

/// How many stack entries are records to leave.
pub open spec fn exits<'a>(fs: Seq<FrameModel<'a>>) -> nat
    decreases fs.len(),
{
    if fs.len() == 0 {
        0
    } else {
        exits(fs.drop_last()) + if fs.last().exit is Some {
            1nat
        } else {
            0nat
        }
    }
}

/// Counting the entries to leave of two stacks one on the other.
pub proof fn lemma_exits_concat<'a>(a: Seq<FrameModel<'a>>, b: Seq<FrameModel<'a>>)
    ensures
        exits(a + b) == exits(a) + exits(b),
    decreases b.len(),
{
    if b.len() > 0 {
        assert((a + b).drop_last() =~= a + b.drop_last());
        lemma_exits_concat(a, b.drop_last());
    } else {
        assert(a + b =~= a);
    }
}

/// The entries for children are all records to enter.
pub proof fn lemma_exits_children<'a>(r: RecordContainer<'a>, branch: Seq<char>, parent: Option<usize>, depth: nat)
    ensures
        exits(child_frames(r, branch, parent, depth)) == 0,
{
    lemma_exits_none(child_frames(r, branch, parent, depth));
}

/// A stack of records to enter has none to leave.
pub proof fn lemma_exits_none<'a>(s: Seq<FrameModel<'a>>)
    requires
        forall|k: int| 0 <= k < s.len() ==> (#[trigger] s[k]).exit is None,
    ensures
        exits(s) == 0,
    decreases s.len(),
{
    if s.len() > 0 {
        lemma_exits_none(s.drop_last());
    }
}

/// What a walk calls on entering and leaving an accepted record.
pub trait WalkHook<'a, P, E> {
    /// The hook can be called on any accepted record.
    spec fn ready(&self) -> bool;

    /// Called on accepted record `idx` among `records`, on entering it
    /// (`enter`) or leaving it, the hook can give `res`.
    spec fn gave(&self, records: Seq<WrModel<'a, P>>, idx: usize, enter: bool, res: CbRes<'a, E>) -> bool;

    /// Calls the hook on accepted record `c`.
    fn call(&mut self, c: WalkerRecordContainer<'_, 'a, P>, enter: bool) -> (r: CbRes<'a, E>)
        requires
            old(self).ready(),
            c.wf(),
        ensures
            final(self).ready(),
            old(self).gave(c.walker_records@.map_values(|x: WalkerRecord<'a, P>| wr_model(x)), c.walker_record_index, enter, r),
            forall|rs: Seq<WrModel<'a, P>>, i: usize, e: bool, x: CbRes<'a, E>|
                #[trigger] final(self).gave(rs, i, e, x) == old(self).gave(rs, i, e, x),
    ;
}

/// A callback called on entering and leaving each accepted record, whose
/// result is used either way.
pub struct BothHook<C> {
    pub f: C,
}

impl<'a, P, E, C: for<'w> FnMut(WalkerRecordContainer<'w, 'a, P>, bool) -> CbRes<'a, E>> WalkHook<'a, P, E> for BothHook<C> {
    open spec fn ready(&self) -> bool {
        forall|c: WalkerRecordContainer<'_, 'a, P>, e: bool| c.wf() ==> call_requires(self.f, (c, e))
    }

    open spec fn gave(&self, records: Seq<WrModel<'a, P>>, idx: usize, enter: bool, res: CbRes<'a, E>) -> bool {
        exists|c: WalkerRecordContainer<'_, 'a, P>|
            c.walker_record_index == idx && c.walker_records@.map_values(|x: WalkerRecord<'a, P>| wr_model(x)) == records
                && #[trigger] call_ensures(self.f, (c, enter), res)
    }

    fn call(&mut self, c: WalkerRecordContainer<'_, 'a, P>, enter: bool) -> (r: CbRes<'a, E>) {
        let r = (self.f)(c, enter);
        assert(call_ensures(self.f, (c, enter), r));
        r
    }
}

/// A callback called on entering each accepted record, whose result is
/// used; leaving a record calls nothing.
pub struct EnterHook<C> {
    pub f: C,
}

impl<'a, P, E, C: for<'w> FnMut(WalkerRecordContainer<'w, 'a, P>) -> CbRes<'a, E>> WalkHook<'a, P, E> for EnterHook<C> {
    open spec fn ready(&self) -> bool {
        forall|c: WalkerRecordContainer<'_, 'a, P>| c.wf() ==> call_requires(self.f, (c,))
    }

    open spec fn gave(&self, records: Seq<WrModel<'a, P>>, idx: usize, enter: bool, res: CbRes<'a, E>) -> bool {
        if enter {
            exists|c: WalkerRecordContainer<'_, 'a, P>|
                c.walker_record_index == idx && c.walker_records@.map_values(|x: WalkerRecord<'a, P>| wr_model(x))
                    == records && #[trigger] call_ensures(self.f, (c,), res)
        } else {
            res == Ok::<Option<RecordContainer<'a>>, (usize, E)>(None)
        }
    }

    fn call(&mut self, c: WalkerRecordContainer<'_, 'a, P>, enter: bool) -> (r: CbRes<'a, E>) {
        if enter {
            let r = (self.f)(c);
            assert(call_ensures(self.f, (c,), r));
            r
        } else {
            Ok(None)
        }
    }
}

/// A callback called on entering each accepted record, with no result.
pub struct UnitHook<C> {
    pub f: C,
}

impl<'a, P, E, C: for<'w> FnMut(WalkerRecordContainer<'w, 'a, P>)> WalkHook<'a, P, E> for UnitHook<C> {
    open spec fn ready(&self) -> bool {
        forall|c: WalkerRecordContainer<'_, 'a, P>| c.wf() ==> call_requires(self.f, (c,))
    }

    open spec fn gave(&self, records: Seq<WrModel<'a, P>>, idx: usize, enter: bool, res: CbRes<'a, E>) -> bool {
        &&& res == Ok::<Option<RecordContainer<'a>>, (usize, E)>(None)
        &&& enter ==> exists|c: WalkerRecordContainer<'_, 'a, P>|
            c.walker_record_index == idx && c.walker_records@.map_values(|x: WalkerRecord<'a, P>| wr_model(x)) == records
                && #[trigger] call_ensures(self.f, (c,), ())
    }

    fn call(&mut self, c: WalkerRecordContainer<'_, 'a, P>, enter: bool) -> (r: CbRes<'a, E>) {
        if enter {
            (self.f)(c);
            assert(call_ensures(self.f, (c,), ()));
        }
        Ok(None)
    }
}

/// A callback called on entering and on leaving each accepted record, told
/// which of the two it is, with no result.
pub struct UnitFlagHook<C> {
    pub f: C,
}

impl<'a, P, E, C: for<'w> FnMut(WalkerRecordContainer<'w, 'a, P>, bool)> WalkHook<'a, P, E> for UnitFlagHook<C> {
    open spec fn ready(&self) -> bool {
        forall|c: WalkerRecordContainer<'_, 'a, P>, e: bool| c.wf() ==> call_requires(self.f, (c, e))
    }

    open spec fn gave(&self, records: Seq<WrModel<'a, P>>, idx: usize, enter: bool, res: CbRes<'a, E>) -> bool {
        &&& res == Ok::<Option<RecordContainer<'a>>, (usize, E)>(None)
        &&& exists|c: WalkerRecordContainer<'_, 'a, P>|
            c.walker_record_index == idx && c.walker_records@.map_values(|x: WalkerRecord<'a, P>| wr_model(x)) == records
                && #[trigger] call_ensures(self.f, (c, enter), ())
    }

    fn call(&mut self, c: WalkerRecordContainer<'_, 'a, P>, enter: bool) -> (r: CbRes<'a, E>) {
        (self.f)(c, enter);
        assert(call_ensures(self.f, (c, enter), ()));
        Ok(None)
    }
}

/// Step `ev` is what the walk does in state `st`: the top entry is entered
/// with the parse results and callback result of `ev`, or left with its
/// callback result.
pub open spec fn event_ok<'a, P, E, F: Fn(&str, &'a str) -> Option<P>, H: WalkHook<'a, P, E>>(
    w: WalkerModel,
    st: WalkModel<'a, P, E>,
    ev: Event<'a, P, E>,
    parser: F,
    hook: H,
) -> bool {
    &&& st.frames.len() > 0
    &&& match ev {
        Event::Enter(log, cb) => {
            let f = st.frames.last();
            let v0 = first_text(f);
            let ns = nodes_at(w, candidates(w, f.branch, v0));
            let at = are_tags_of(w, f.branch, v0);
            let pre = enter_pre(w, st, log);
            &&& f.exit is None
            &&& st.order < usize::MAX
            &&& log_complete(ns, at, f.record.rec().values, log)
            &&& log_parsed(parser, ns, at, f.record.rec().values, log)
            &&& match (pre.1, cb) {
                (Some((ni, idx)), Some(r)) => hook.gave(pre.0.records, idx, true, r),
                (None, None) => true,
                _ => false,
            }
        },
        Event::Exit(cb) => st.frames.last().exit matches Some(x) && hook.gave(st.records, x, false, cb),
    }
}

/// Every step of `evs` is what the walk does from `init`.
pub open spec fn events_ok<'a, P, E, F: Fn(&str, &'a str) -> Option<P>, H: WalkHook<'a, P, E>>(
    w: WalkerModel,
    init: WalkModel<'a, P, E>,
    evs: Seq<Event<'a, P, E>>,
    parser: F,
    hook: H,
) -> bool {
    forall|i: int| 0 <= i < evs.len() ==> event_ok(w, walk_run(w, init, evs.take(i)), #[trigger] evs[i], parser, hook)
}

/// The walk is over: nothing is left, or a record is left to enter when
/// the count of entered records cannot go up any more.
pub open spec fn walk_done<'a, P, E>(st: WalkModel<'a, P, E>) -> bool {
    st.frames.len() == 0 || (st.frames.last().exit is None && st.order == usize::MAX)
}

/// One more step that is what the walk does keeps the steps what the walk
/// does, and the state after it is that step applied.
pub proof fn lemma_events_push<'a, P, E, F: Fn(&str, &'a str) -> Option<P>, H: WalkHook<'a, P, E>>(
    w: WalkerModel,
    init: WalkModel<'a, P, E>,
    evs: Seq<Event<'a, P, E>>,
    ev: Event<'a, P, E>,
    parser: F,
    hook: H,
)
    requires
        events_ok(w, init, evs, parser, hook),
        event_ok(w, walk_run(w, init, evs), ev, parser, hook),
    ensures
        events_ok(w, init, evs.push(ev), parser, hook),
        walk_run(w, init, evs.push(ev)) == walk_step(w, walk_run(w, init, evs), ev),
{
    let evs2 = evs.push(ev);
    assert(evs2.drop_last() =~= evs);
    assert forall|i: int| 0 <= i < evs2.len() implies event_ok(
        w,
        walk_run(w, init, evs2.take(i)),
        #[trigger] evs2[i],
        parser,
        hook,
    ) by {
        if i < evs.len() {
            assert(evs2.take(i) =~= evs.take(i));
            assert(evs2[i] == evs[i]);
        } else {
            assert(evs2.take(i) =~= evs);
        }
    }
}

/// Walks the children of `root` against branch `root_label` of schema `w`:
/// each record is matched with the nodes its branch offers, named values are
/// parsed with `parser`, and `callback` is called on entering and leaving
/// each accepted record.
#[verifier::rlimit(40)]
pub(crate) fn traverse<'a, P, E, F, H>(
    w: &Walker,
    root_label: &str,
    root: RecordContainer<'a>,
    parser: &F,
    hook: &mut H,
) -> (r: Walk<'a, P, E>) where F: Fn(&str, &'a str) -> Option<P>, H: WalkHook<'a, P, E>
    requires
        walker_wf(w.model()),
        branch_index(w.model().branches, root_label@) is Some,
        forall|a: &str, b: &'a str| call_requires(*parser, (a, b)),
        old(hook).ready(),
    ensures
        exists|evs: Seq<Event<'a, P, E>>|
            events_ok(w.model(), walk_init::<P, E>(root, root_label@), evs, *parser, *old(hook))
                && r.model() == walk_run(w.model(), walk_init::<P, E>(root, root_label@), evs),
        walk_done(r.model()),
        r.inv(w.model()),
{
    let ghost wm = w.model();
    let ghost init = walk_init::<P, E>(root, root_label@);
    let mut walk: Walk<'a, P, E> = Walk::new(root, root_label, Ghost(wm));
    let ghost mut evs: Seq<Event<'a, P, E>> = Seq::empty();
    while walk.can_step()
        invariant
            wm == w.model(),
            walker_wf(wm),
            forall|a: &str, b: &'a str| call_requires(*parser, (a, b)),
            hook.ready(),
            forall|rs: Seq<WrModel<'a, P>>, i: usize, e: bool, x: CbRes<'a, E>|
                #[trigger] hook.gave(rs, i, e, x) == old(hook).gave(rs, i, e, x),
            walk.inv(wm),
            walk.model() == walk_run(wm, init, evs),
            events_ok(wm, init, evs, *parser, *old(hook)),
        decreases 2 * (usize::MAX - walk.model().order) + exits(walk.model().frames),
    {
        let ghost st = walk.model();
        let ghost m0 = 2 * (usize::MAX - st.order) + exits(st.frames);
        if walk.top_is_exit() {
            let f = walk.exit_pre(Ghost(wm));
            let idx = f.exit.unwrap();
            let c = WalkerRecordContainer { walker_record_index: idx, walker_records: &walk.records };
            assert(c.wf());
            let ghost h0 = *hook;
            let res = hook.call(c, false);
            let ghost gres = res;
            proof {
                assert(c.walker_records@.map_values(|x: WalkerRecord<'a, P>| wr_model(x)) == st.records);
                assert(h0.gave(st.records, idx, false, gres));
                assert(old(hook).gave(st.records, idx, false, gres));
            }
            walk.exit_post(Ghost(wm), &f, res);
            proof {
                let ev = Event::<'a, P, E>::Exit(gres);
                assert(event_ok(wm, st, ev, *parser, *old(hook)));
                lemma_events_push(wm, init, evs, ev, *parser, *old(hook));
                evs = evs.push(ev);
                let s1 = WalkModel { frames: st.frames.drop_last(), useds: resize_useds(st.useds, st.frames.last().depth + 1), ..st };
                assert(st.frames =~= s1.frames.push(st.frames.last()));
                lemma_exits_concat(s1.frames, seq![st.frames.last()]);
                assert(exits(seq![st.frames.last()]) == 1) by {
                    assert(seq![st.frames.last()].drop_last() =~= Seq::<FrameModel<'a>>::empty());
                    assert(exits(Seq::<FrameModel<'a>>::empty()) == 0);
                    reveal_with_fuel(exits, 2);
                }

            }
        } else {
            let (f, acc, Ghost(log)) = walk.enter_pre(w, parser);
            let ghost pre = enter_pre(wm, st, log);
            match acc {
                Some((ni, idx)) => {
                    let c = WalkerRecordContainer { walker_record_index: idx, walker_records: &walk.records };
                    assert(c.wf());
                    let ghost h0 = *hook;
                    let res = hook.call(c, true);
                    let ghost gres = res;
                    proof {
                        assert(c.walker_records@.map_values(|x: WalkerRecord<'a, P>| wr_model(x)) == pre.0.records);
                        assert(h0.gave(pre.0.records, idx, true, gres));
                        assert(old(hook).gave(pre.0.records, idx, true, gres));
                    }
                    walk.enter_post(w, &f, ni, idx, res);
                    proof {
                        let ev = Event::<'a, P, E>::Enter(log, Some(gres));
                        assert(event_ok(wm, st, ev, *parser, *old(hook)));
                        lemma_events_push(wm, init, evs, ev, *parser, *old(hook));
                        evs = evs.push(ev);
                    }
                },
                None => {
                    proof {
                        let ev = Event::<'a, P, E>::Enter(log, None);
                        assert(event_ok(wm, st, ev, *parser, *old(hook)));
                        lemma_events_push(wm, init, evs, ev, *parser, *old(hook));
                        evs = evs.push(ev);
                    }
                },
            }
            proof {
                let lastf = st.frames.last();
                assert(st.frames =~= st.frames.drop_last().push(lastf));
                lemma_exits_concat(st.frames.drop_last(), seq![lastf]);
                assert(exits(seq![lastf]) == 0) by {
                    assert(seq![lastf].drop_last() =~= Seq::<FrameModel<'a>>::empty());
                    assert(exits(Seq::<FrameModel<'a>>::empty()) == 0);
                    reveal_with_fuel(exits, 2);
                }
            }
        }
    }
    walk
}


/// The outcome of a walk that ended in state `st`: success when no error
/// was found, else some of the errors found, grouped by path; when the
/// payloads' order and equality follow their specs, or no error carries a
/// payload, these are all the errors sorted by path, location and kind,
/// without repeats.
pub open spec fn walk_result<'a, P, E: Ord + Clone>(st: WalkModel<'a, P, E>, r: Result<(), WalkerErrors<E>>) -> bool {
    if st.expects.len() == 0 {
        r is Ok
    } else {
        r matches Err(errs) && errs.paths@.len() == errs.errors@.len() && ((order_ok::<E>() && same_ok::<E>())
            || payload_free(st.expects) ==> errors_are(
            errs,
            group_exps(dedup_exps(sort_exps(st.expects))),
        )) && exists|d: Seq<Expectation<'a, E>>|
            {
                &&& forall|i: int| 0 <= i < d.len() ==> st.expects.contains(#[trigger] d[i])
                &&& d.len() > 0
                &&& errors_are(errs, group_exps(d))
            }
    }
}

/// The callback, if called at this step, gave no error.
pub open spec fn cb_plain<'a, P, E>(ev: Event<'a, P, E>) -> bool {
    match ev {
        Event::Enter(_, cb) => !(cb matches Some(Err(_))),
        Event::Exit(cb) => cb is Ok,
    }
}

/// A step whose callback gave no error adds no error carrying a value of
/// the caller's type.
pub proof fn lemma_step_payload_free<'a, P, E>(w: WalkerModel, st: WalkModel<'a, P, E>, ev: Event<'a, P, E>)
    requires
        payload_free(st.expects),
        cb_plain(ev),
    ensures
        payload_free(walk_step(w, st, ev).expects),
{
    reveal(enter_pre);
    reveal(enter_post);
    reveal(exit_finish);
    let f = st.frames.last();
    match ev {
        Event::Enter(log, cb) => {
            let v0 = first_text(f);
            let s1 = WalkModel {
                frames: st.frames.drop_last(),
                useds: resize_useds(st.useds, f.depth + 1),
                hists: st.hists.push(st.expects.len() as usize),
                ..st
            };
            let tr = tried(w, st, log);
            let s2 = expect_parse_errs(s1, f.record, tr.errs);
            assert forall|i: int| 0 <= i < s2.expects.len() implies !carries(#[trigger] s2.expects[i].error_type) by {
                if i >= st.expects.len() {
                    assert(s2.expects[i].error_type == WalkerErrorType::<E>::ParamParseError);
                }
            }
            let (p1, acc) = enter_pre(w, st, log);
            assert(payload_free(p1.expects)) by {
                assert forall|i: int| 0 <= i < p1.expects.len() implies !carries(#[trigger] p1.expects[i].error_type) by {
                    if i < s2.expects.len() {
                        assert(p1.expects[i] == s2.expects[i]);
                    }
                }
            }
            match (acc, cb) {
                (Some((ni, idx)), Some(c)) => {
                    let r = enter_post(w, p1, f, ni, idx, c);
                    assert forall|i: int| 0 <= i < r.expects.len() implies !carries(#[trigger] r.expects[i].error_type) by {
                        if i < p1.expects.len() {
                            assert(r.expects[i] == p1.expects[i]);
                        }
                    }
                },
                _ => {},
            }
        },
        Event::Exit(cb) => {},
    }
}

/// A walk whose callback can give no error is one whose callback never
/// gave one.
pub proof fn lemma_events_cb_plain<'a, P, E, F: Fn(&str, &'a str) -> Option<P>, H: WalkHook<'a, P, E>>(
    w: WalkerModel,
    init: WalkModel<'a, P, E>,
    evs: Seq<Event<'a, P, E>>,
    parser: F,
    hook: H,
)
    requires
        events_ok(w, init, evs, parser, hook),
        forall|rs: Seq<WrModel<'a, P>>, i: usize, e: bool, x: CbRes<'a, E>| #[trigger] hook.gave(rs, i, e, x) ==> x is Ok,
    ensures
        forall|i: int| 0 <= i < evs.len() ==> cb_plain(#[trigger] evs[i]),
{
    assert forall|i: int| 0 <= i < evs.len() implies cb_plain(#[trigger] evs[i]) by {
        let st = walk_run(w, init, evs.take(i));
        assert(event_ok(w, st, evs[i], parser, hook));
    }
}

/// A walk whose callback never gave an error has no error carrying a value
/// of the caller's type.
pub proof fn lemma_run_payload_free<'a, P, E>(w: WalkerModel, init: WalkModel<'a, P, E>, evs: Seq<Event<'a, P, E>>)
    requires
        payload_free(init.expects),
        forall|i: int| 0 <= i < evs.len() ==> cb_plain(#[trigger] evs[i]),
    ensures
        payload_free(walk_run(w, init, evs).expects),
    decreases evs.len(),
{
    if evs.len() > 0 {
        assert(cb_plain(evs[evs.len() - 1]));
        lemma_run_payload_free(w, init, evs.drop_last());
        lemma_step_payload_free(w, walk_run(w, init, evs.drop_last()), evs.last());
    }
}

impl<'a, P, E: Ord + Clone> Walk<'a, P, E> {
    /// The outcome of the walk (see `walk_result`).
    fn finish(self, Ghost(w): Ghost<WalkerModel>) -> (r: Result<(), WalkerErrors<E>>)
        requires
            self.inv(w),
        ensures
            walk_result(self.model(), r),
    {
        let x = self.into_expecter(Ghost(w));
        proof {
            x.lemma_pending_all();
        }
        if x.has_errors() {
            Err(x.get_errors())
        } else {
            Ok(())
        }
    }
}

impl<'a, P, E: Ord + Clone> Walk<'a, P, E> {
    /// The accepted records and the outcome of the walk.
    pub(crate) fn finish_with_records(self, Ghost(w): Ghost<WalkerModel>) -> (r: (
        Vec<WalkerRecord<'a, P>>,
        Result<(), WalkerErrors<E>>,
    ))
        requires
            self.inv(w),
        ensures
            r.0@.map_values(|x: WalkerRecord<'a, P>| wr_model(x)) == self.model().records,
            walker_records_wf(r.0@),
            walk_result(self.model(), r.1),
    {
        let Walk { frames, useds, records, order, expecter } = self;
        proof {
            expecter.lemma_pending_all();
        }
        let res = if expecter.has_errors() {
            Err(expecter.get_errors())
        } else {
            Ok(())
        };
        (records, res)
    }
}

/// Walks as `Walker::apply_simple` does, and gives back the accepted
/// records too.
pub(crate) fn walk_records<'a, P, F, C>(
    w: &Walker,
    root_label: &str,
    root: RecordContainer<'a>,
    parser: F,
    callback: C,
) -> (r: (Vec<WalkerRecord<'a, P>>, Result<(), WalkerErrors<()>>)) where
    F: Fn(&str, &'a str) -> Option<P>,
    C: for<'w> FnMut(WalkerRecordContainer<'w, 'a, P>),

    requires
        walker_wf(w.model()),
        branch_index(w.model().branches, root_label@) is Some,
        forall|a: &str, b: &'a str| call_requires(parser, (a, b)),
        forall|c: WalkerRecordContainer<'_, 'a, P>| c.wf() ==> call_requires(callback, (c,)),
    ensures
        exists|evs: Seq<Event<'a, P, ()>>|
            #![trigger walk_run(w.model(), walk_init::<P, ()>(root, root_label@), evs)]
            {
                let st = walk_run(w.model(), walk_init::<P, ()>(root, root_label@), evs);
                &&& events_ok(w.model(), walk_init::<P, ()>(root, root_label@), evs, parser, (UnitHook { f: callback }))
                &&& walk_done(st)
                &&& walk_result(st, r.1)
                &&& r.0@.map_values(|x: WalkerRecord<'a, P>| wr_model(x)) == st.records
            },
        walker_records_wf(r.0@),
{
    let mut hook = UnitHook { f: callback };
    let walk: Walk<'a, P, ()> = traverse(w, root_label, root, &parser, &mut hook);
    walk.finish_with_records(Ghost(w.model()))
}

impl Walker {
    /// Walks the children of `top_record` against branch `branch_label`,
    /// parsing named values with `param_parser` and calling `callback` on
    /// entering (`true`) and leaving (`false`) each accepted record; the
    /// record the callback gives back has its children walked next, and an
    /// error it gives back is reported. Returns the errors found, if any.
    ///
    /// The schema must be well formed as a whole (`well_formed` decides it)
    /// and declare `branch_label`: a part of the schema that a given walk
    /// would not reach is held to this too, where an unchecked walk would
    /// fail only on reaching an undeclared branch or a repeating untagged
    /// node without values.
    pub fn apply_ext<'a, P, E, F, C>(
        &self,
        branch_label: &str,
        top_record: RecordContainer<'a>,
        param_parser: F,
        callback: C,
    ) -> (r: Result<(), WalkerErrors<E>>) where
        F: Fn(&str, &'a str) -> Option<P>,
        C: for<'w> FnMut(WalkerRecordContainer<'w, 'a, P>, bool) -> CbRes<'a, E>,
        E: Ord + Clone,

        requires
            walker_wf(self.model()),
            branch_index(self.model().branches, branch_label@) is Some,
            forall|a: &str, b: &'a str| call_requires(param_parser, (a, b)),
            forall|c: WalkerRecordContainer<'_, 'a, P>, e: bool| c.wf() ==> call_requires(callback, (c, e)),
        ensures
            exists|evs: Seq<Event<'a, P, E>>|
                #![trigger walk_run(self.model(), walk_init::<P, E>(top_record, branch_label@), evs)]
                {
                    let st = walk_run(self.model(), walk_init::<P, E>(top_record, branch_label@), evs);
                    &&& events_ok(
                        self.model(),
                        walk_init::<P, E>(top_record, branch_label@),
                        evs,
                        param_parser,
                        (BothHook { f: callback }),
                    )
                    &&& walk_done(st)
                    &&& walk_result(st, r)
                },
    {
        let mut hook = BothHook { f: callback };
        let walk: Walk<'a, P, E> = traverse(self, branch_label, top_record, &param_parser, &mut hook);
        walk.finish(Ghost(self.model()))
    }

    /// Walks as `apply_ext` does, calling `callback` only on entering each
    /// accepted record.
    /// It asks of the schema what `apply_ext` asks.
    pub fn apply<'a, P, E, F, C>(
        &self,
        branch_label: &str,
        top_record: RecordContainer<'a>,
        param_parser: F,
        callback: C,
    ) -> (r: Result<(), WalkerErrors<E>>) where
        F: Fn(&str, &'a str) -> Option<P>,
        C: for<'w> FnMut(WalkerRecordContainer<'w, 'a, P>) -> CbRes<'a, E>,
        E: Ord + Clone,

        requires
            walker_wf(self.model()),
            branch_index(self.model().branches, branch_label@) is Some,
            forall|a: &str, b: &'a str| call_requires(param_parser, (a, b)),
            forall|c: WalkerRecordContainer<'_, 'a, P>| c.wf() ==> call_requires(callback, (c,)),
        ensures
            exists|evs: Seq<Event<'a, P, E>>|
                #![trigger walk_run(self.model(), walk_init::<P, E>(top_record, branch_label@), evs)]
                {
                    let st = walk_run(self.model(), walk_init::<P, E>(top_record, branch_label@), evs);
                    &&& events_ok(
                        self.model(),
                        walk_init::<P, E>(top_record, branch_label@),
                        evs,
                        param_parser,
                        (EnterHook { f: callback }),
                    )
                    &&& walk_done(st)
                    &&& walk_result(st, r)
                },
    {
        let mut hook = EnterHook { f: callback };
        let walk: Walk<'a, P, E> = traverse(self, branch_label, top_record, &param_parser, &mut hook);
        walk.finish(Ghost(self.model()))
    }

    /// Walks as `apply_ext` does, calling `callback` on entering each
    /// accepted record; the callback gives nothing back.
    /// It asks of the schema what `apply_ext` asks.
    pub fn apply_simple<'a, P, F, C>(
        &self,
        branch_label: &str,
        top_record: RecordContainer<'a>,
        param_parser: F,
        callback: C,
    ) -> (r: Result<(), WalkerErrors<()>>) where
        F: Fn(&str, &'a str) -> Option<P>,
        C: for<'w> FnMut(WalkerRecordContainer<'w, 'a, P>),

        requires
            walker_wf(self.model()),
            branch_index(self.model().branches, branch_label@) is Some,
            forall|a: &str, b: &'a str| call_requires(param_parser, (a, b)),
            forall|c: WalkerRecordContainer<'_, 'a, P>| c.wf() ==> call_requires(callback, (c,)),
        ensures
            exists|evs: Seq<Event<'a, P, ()>>|
                #![trigger walk_run(self.model(), walk_init::<P, ()>(top_record, branch_label@), evs)]
                {
                    let st = walk_run(self.model(), walk_init::<P, ()>(top_record, branch_label@), evs);
                    &&& events_ok(
                        self.model(),
                        walk_init::<P, ()>(top_record, branch_label@),
                        evs,
                        param_parser,
                        (UnitHook { f: callback }),
                    )
                    &&& walk_done(st)
                    &&& walk_result(st, r)
                    &&& payload_free(st.expects)
                },
    {
        let mut hook = UnitHook { f: callback };
        let ghost h0 = hook;
        let walk: Walk<'a, P, ()> = traverse(self, branch_label, top_record, &param_parser, &mut hook);
        proof {
            let init = walk_init::<P, ()>(top_record, branch_label@);
            let evs = choose|evs: Seq<Event<'a, P, ()>>|
                events_ok(self.model(), init, evs, param_parser, h0) && walk.model() == walk_run(
                    self.model(),
                    init,
                    evs,
                );
            lemma_events_cb_plain(self.model(), init, evs, param_parser, h0);
            lemma_run_payload_free(self.model(), init, evs);
        }
        walk.finish(Ghost(self.model()))
    }

    /// Walks as `apply_simple` does, calling `callback` on entering (`true`)
    /// and on leaving (`false`) each accepted record.
    /// It asks of the schema what `apply_ext` asks.
    pub fn apply_simple_ext<'a, P, F, C>(
        &self,
        branch_label: &str,
        top_record: RecordContainer<'a>,
        param_parser: F,
        callback: C,
    ) -> (r: Result<(), WalkerErrors<()>>) where
        F: Fn(&str, &'a str) -> Option<P>,
        C: for<'w> FnMut(WalkerRecordContainer<'w, 'a, P>, bool),

        requires
            walker_wf(self.model()),
            branch_index(self.model().branches, branch_label@) is Some,
            forall|a: &str, b: &'a str| call_requires(param_parser, (a, b)),
            forall|c: WalkerRecordContainer<'_, 'a, P>, e: bool| c.wf() ==> call_requires(callback, (c, e)),
        ensures
            exists|evs: Seq<Event<'a, P, ()>>|
                #![trigger walk_run(self.model(), walk_init::<P, ()>(top_record, branch_label@), evs)]
                {
                    let st = walk_run(self.model(), walk_init::<P, ()>(top_record, branch_label@), evs);
                    &&& events_ok(
                        self.model(),
                        walk_init::<P, ()>(top_record, branch_label@),
                        evs,
                        param_parser,
                        (UnitFlagHook { f: callback }),
                    )
                    &&& walk_done(st)
                    &&& walk_result(st, r)
                    &&& payload_free(st.expects)
                },
    {
        let mut hook = UnitFlagHook { f: callback };
        let ghost h0 = hook;
        let walk: Walk<'a, P, ()> = traverse(self, branch_label, top_record, &param_parser, &mut hook);
        proof {
            let init = walk_init::<P, ()>(top_record, branch_label@);
            let evs = choose|evs: Seq<Event<'a, P, ()>>|
                events_ok(self.model(), init, evs, param_parser, h0) && walk.model() == walk_run(
                    self.model(),
                    init,
                    evs,
                );
            lemma_events_cb_plain(self.model(), init, evs, param_parser, h0);
            lemma_run_payload_free(self.model(), init, evs);
        }
        walk.finish(Ghost(self.model()))
    }
}

} // verus!

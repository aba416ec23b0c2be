//! A walker: a schema of branches of nodes that says which records a
//! configuration may hold where, and a walk that checks a record tree
//! against it.

use vstd::prelude::*;
use crate::text::{str_eq, string_from_str};

verus! {

/// What a node expects of one value: any text, or a value parsed by the
/// named parser.
pub enum WalkerVal {
    Str,
    Named(String),
}

/// The model of a `WalkerVal`.
pub enum ValModel {
    Str,
    Named(Seq<char>),
}

pub open spec fn val_model(v: WalkerVal) -> ValModel {
    match v {
        WalkerVal::Str => ValModel::Str,
        WalkerVal::Named(n) => ValModel::Named(n@),
    }
}

/// The characters of an optional string.
pub open spec fn opt_model(s: Option<String>) -> Option<Seq<char>> {
    match s {
        Some(x) => Some(x@),
        None => None,
    }
}

/// A node: the values a record must have (after its tag, if tagged),
/// whether they may repeat, its label, the branch its children are checked
/// against, whether errors about children are ignored, and the branch it was
/// declared in.
pub struct WalkerNode {
    pub vals: Vec<WalkerVal>,
    pub has_tag: bool,
    pub repeat: bool,
    pub node_label: Option<String>,
    pub children: Option<String>,
    pub ignore_children: bool,
    pub branch_ind: usize,
}

/// The model of a `WalkerNode`.
pub struct NodeModel {
    pub vals: Seq<ValModel>,
    pub has_tag: bool,
    pub repeat: bool,
    pub label: Option<Seq<char>>,
    pub children: Option<Seq<char>>,
    pub ignore_children: bool,
    pub branch_ind: nat,
}

pub open spec fn node_model(n: WalkerNode) -> NodeModel {
    NodeModel {
        vals: n.vals@.map_values(|v: WalkerVal| val_model(v)),
        has_tag: n.has_tag,
        repeat: n.repeat,
        label: opt_model(n.node_label),
        children: opt_model(n.children),
        ignore_children: n.ignore_children,
        branch_ind: n.branch_ind as nat,
    }
}

impl WalkerNode {
    /// A node with no values, declared in branch `branch_ind`.
    pub fn new(has_tag: bool, branch_ind: usize) -> (r: Self)
        ensures
            node_model(r) == (NodeModel {
                vals: Seq::empty(),
                has_tag,
                repeat: false,
                label: None,
                children: None,
                ignore_children: false,
                branch_ind: branch_ind as nat,
            }),
    {
        let r = Self {
            vals: Vec::new(),
            has_tag,
            repeat: false,
            node_label: None,
            children: None,
            ignore_children: false,
            branch_ind,
        };
        assert(node_model(r).vals =~= Seq::<ValModel>::empty());
        r
    }
}

/// A branch: its tagged nodes by tag, its untagged nodes, the branches whose
/// nodes it also takes, whether records it does not know are ignored, its
/// label, and the groups of tags that may each be used once under a parent.
pub struct WalkerBranch {
    pub tags: Vec<(String, Vec<usize>)>,
    pub non_tags: Vec<usize>,
    pub branch_inserts: Vec<String>,
    pub ignore_other_errors: bool,
    pub branch_label: String,
    pub tag_onces: Vec<(String, Vec<String>)>,
}

/// The model of a `WalkerBranch`.
pub struct BranchModel {
    pub tags: Seq<(Seq<char>, Seq<usize>)>,
    pub non_tags: Seq<usize>,
    pub inserts: Seq<Seq<char>>,
    pub ignore_other_errors: bool,
    pub label: Seq<char>,
    pub tag_onces: Seq<(Seq<char>, Seq<Seq<char>>)>,
}

pub open spec fn branch_model(b: WalkerBranch) -> BranchModel {
    BranchModel {
        tags: b.tags@.map_values(|e: (String, Vec<usize>)| (e.0@, e.1@)),
        non_tags: b.non_tags@,
        inserts: b.branch_inserts@.map_values(|x: String| x@),
        ignore_other_errors: b.ignore_other_errors,
        label: b.branch_label@,
        tag_onces: b.tag_onces@.map_values(
            |e: (String, Vec<String>)| (e.0@, e.1@.map_values(|x: String| x@)),
        ),
    }
}

impl WalkerBranch {
    /// An empty branch labelled `branch_label`.
    pub fn new(branch_label: String) -> (r: Self)
        ensures
            branch_model(r) == (BranchModel {
                tags: Seq::empty(),
                non_tags: Seq::empty(),
                inserts: Seq::empty(),
                ignore_other_errors: false,
                label: branch_label@,
                tag_onces: Seq::empty(),
            }),
    {
        let r = Self {
            tags: Vec::new(),
            non_tags: Vec::new(),
            branch_inserts: Vec::new(),
            ignore_other_errors: false,
            branch_label,
            tag_onces: Vec::new(),
        };
        assert(branch_model(r).tags =~= Seq::<(Seq<char>, Seq<usize>)>::empty());
        assert(branch_model(r).inserts =~= Seq::<Seq<char>>::empty());
        assert(branch_model(r).tag_onces =~= Seq::<(Seq<char>, Seq<Seq<char>>)>::empty());
        r
    }
}

/// The model of a `Walker`.
pub struct WalkerModel {
    pub branches: Seq<BranchModel>,
    pub nodes: Seq<NodeModel>,
    pub for_tag_names: Seq<Seq<char>>,
    pub cur_nodes_start: nat,
}

/// The index of the first of `keys` equal to `k`, if any.
pub open spec fn first_key(keys: Seq<Seq<char>>, k: Seq<char>) -> Option<int>
    decreases keys.len(),
{
    if keys.len() == 0 {
        None
    } else {
        match first_key(keys.drop_last(), k) {
            Some(i) => Some(i),
            None => if keys.last() == k {
                Some(keys.len() - 1)
            } else {
                None
            },
        }
    }
}

/// The index of the first entry with key `k`, if any.
pub open spec fn key_index<V>(m: Seq<(Seq<char>, V)>, k: Seq<char>) -> Option<int> {
    first_key(m.map_values(|e: (Seq<char>, V)| e.0), k)
}

/// The keys of a list of entries.
pub open spec fn keys_of<V>(m: Seq<(String, V)>) -> Seq<Seq<char>> {
    m.map_values(|e: (String, V)| e.0@)
}

/// The index of the first branch labelled `label`, if any.
pub open spec fn branch_index(branches: Seq<BranchModel>, label: Seq<char>) -> Option<int>
    decreases branches.len(),
{
    if branches.len() == 0 {
        None
    } else {
        match branch_index(branches.drop_last(), label) {
            Some(i) => Some(i),
            None => if branches.last().label == label {
                Some(branches.len() - 1)
            } else {
                None
            },
        }
    }
}

/// A schema: a set of branches with distinct labels, of nodes.
pub struct Walker {
    branches: Vec<WalkerBranch>,
    nodes: Vec<WalkerNode>,
    for_tag_names: Vec<String>,
    cur_nodes_start: usize,
}

impl Walker {
    /// The model.
    pub closed spec fn model(&self) -> WalkerModel {
        WalkerModel {
            branches: self.branches@.map_values(|b: WalkerBranch| branch_model(b)),
            nodes: self.nodes@.map_values(|n: WalkerNode| node_model(n)),
            for_tag_names: self.for_tag_names@.map_values(|x: String| x@),
            cur_nodes_start: self.cur_nodes_start as nat,
        }
    }

    /// An empty schema.
    pub fn new() -> (r: Self)
        ensures
            r.model() == empty_model(),
    {
        let r = Self { branches: Vec::new(), nodes: Vec::new(), for_tag_names: Vec::new(), cur_nodes_start: 0 };
        assert(r.model().branches =~= Seq::<BranchModel>::empty());
        assert(r.model().nodes =~= Seq::<NodeModel>::empty());
        assert(r.model().for_tag_names =~= Seq::<Seq<char>>::empty());
        r
    }

    /// The index of the branch labelled `branch_label`.
    fn find_branch(&self, branch_label: &str) -> (r: Option<usize>)
        ensures
            match r {
                Some(j) => branch_index(self.model().branches, branch_label@) == Some(j as int),
                None => branch_index(self.model().branches, branch_label@) is None,
            },
    {
        let mut i: usize = 0;
        while i < self.branches.len()
            invariant
                i <= self.branches@.len(),
                branch_index(self.model().branches.take(i as int), branch_label@) is None,
            decreases self.branches.len() - i,
        {
            proof {
                assert(self.model().branches.take(i + 1).drop_last() =~= self.model().branches.take(i as int));
            }
            if str_eq(self.branches[i].branch_label.as_str(), branch_label) {
                proof {
                    lemma_branch_index_prefix(self.model().branches, (i + 1) as int, branch_label@);
                }
                return Some(i);
            }
            i += 1;
        }
        proof {
            assert(self.model().branches.take(i as int) =~= self.model().branches);
        }
        None
    }

    /// The branch labelled `branch_label`.
    fn get_branch(&self, branch_label: &str) -> (r: &WalkerBranch)
        requires
            branch_index(self.model().branches, branch_label@) is Some,
        ensures
            branch_model(*r) == self.model().branches[branch_index(self.model().branches, branch_label@).unwrap()],
    {
        proof {
            lemma_branch_index(self.model().branches, branch_label@);
        }
        let i = self.find_branch(branch_label).unwrap();
        let _n = self.branches.len();
        let ghost bi = branch_index(self.model().branches, branch_label@).unwrap();
        assert(0 <= bi < self.model().branches.len());
        assert(bi == i as int);
        assert(self.model().branches[i as int] == branch_model(self.branches@[i as int]));
        &self.branches[i]
    }

    /// Starts a new branch labelled `branch_label`; the nodes that follow are
    /// declared in it.
    pub fn branch(&mut self, branch_label: &str) -> (r: &mut Self)
        requires
            branch_index(old(self).model().branches, branch_label@) is None,
        ensures
            *final(self) == *final(r),
            r.model() == branch_spec(old(self).model(), branch_label@),
    {
        self.cur_nodes_start = self.nodes.len();
        let b = WalkerBranch::new(string_from_str(branch_label));
        self.branches.push(b);
        assert(self.model().branches =~= old(self).model().branches.push(branch_model(b)));
        assert(self.model().nodes =~= old(self).model().nodes);
        self
    }

    /// Takes the nodes of branch `branch_label` into the current branch too.
    pub fn branch_nodes_from(&mut self, branch_label: &str) -> (r: &mut Self)
        requires
            old(self).model().branches.len() > 0,
        ensures
            *final(self) == *final(r),
            r.model() == branch_nodes_from_spec(old(self).model(), branch_label@),
    {
        let k = self.branches.len() - 1;
        let label = string_from_str(branch_label);
        let ghost prev = self.branches@;
        self.branches[k].branch_inserts.push(label);
        self.cur_nodes_start = self.nodes.len();
        proof {
            lemma_map_update(prev, k as int, self.branches@[k as int], |b: WalkerBranch| branch_model(b));
            lemma_map_push(prev[k as int].branch_inserts@, label, |x: String| x@);
            assert(self.branches@ == prev.update(k as int, self.branches@[k as int]));
            assert(self.model().branches =~= update_last(
                old(self).model().branches,
                |b: BranchModel| BranchModel { inserts: b.inserts.push(branch_label@), ..b },
            ));
            assert(self.model().nodes =~= old(self).model().nodes);
        }
        self
    }

    /// Records of the current branch that no node accepts are not errors.
    pub fn skip_node_errs(&mut self) -> (r: &mut Self)
        requires
            old(self).model().branches.len() > 0,
        ensures
            *final(self) == *final(r),
            r.model() == skip_node_errs_spec(old(self).model()),
    {
        let k = self.branches.len() - 1;
        let ghost prev = self.branches@;
        self.branches[k].ignore_other_errors = true;
        proof {
            lemma_map_update(prev, k as int, self.branches@[k as int], |b: WalkerBranch| branch_model(b));
            assert(self.branches@ == prev.update(k as int, self.branches@[k as int]));
            assert(self.model().branches =~= update_last(
                old(self).model().branches,
                |b: BranchModel| BranchModel { ignore_other_errors: true, ..b },
            ));
            assert(self.model().nodes =~= old(self).model().nodes);
        }
        self
    }

    /// Errors about the children of the current nodes are not reported.
    pub fn skip_child_errs(&mut self) -> (r: &mut Self)
        ensures
            *final(self) == *final(r),
            r.model() == skip_child_errs_spec(old(self).model()),
    {
        let ghost f = |n: NodeModel| NodeModel { ignore_children: true, ..n };
        let ghost old_nodes = self.model().nodes;
        let start = self.cur_nodes_start;
        let mut i = start;
        while i < self.nodes.len()
            invariant
                start <= i,
                start == self.cur_nodes_start,
                f == (|n: NodeModel| NodeModel { ignore_children: true, ..n }),
                self.nodes@.len() == old_nodes.len(),
                self.model().nodes == update_range(old_nodes, start as int, i as int, f),
                self.model().branches == old(self).model().branches,
                self.model().for_tag_names == old(self).model().for_tag_names,
            decreases self.nodes.len() - i,
        {
            let ghost prev = self.nodes@;
            self.nodes[i].ignore_children = true;
            proof {
                lemma_range_step(old_nodes, prev, self.nodes@[i as int], start as int, i as int, f);
            }
            i += 1;
        }
        proof {
            assert(update_range(old_nodes, start as int, i as int, f) =~= update_range(
                old_nodes,
                start as int,
                old_nodes.len() as int,
                f,
            ));
        }
        self
    }

    /// The nodes that follow are untagged.
    pub fn tagless(&mut self) -> (r: &mut Self)
        ensures
            *final(self) == *final(r),
            r.model() == tagless_spec(old(self).model()),
    {
        self.cur_nodes_start = self.nodes.len();
        self.for_tag_names.clear();
        proof {
            assert(self.model().for_tag_names =~= Seq::<Seq<char>>::empty());
            assert(self.model().nodes =~= old(self).model().nodes);
            assert(self.model().branches =~= old(self).model().branches);
        }
        self
    }

    /// The nodes that follow are tagged, one for each of `tag_names`.
    pub fn tags(&mut self, tag_names: &[&str]) -> (r: &mut Self)
        ensures
            *final(self) == *final(r),
            r.model() == tags_spec(old(self).model(), tag_names@.map_values(|x: &str| x@)),
    {
        self.cur_nodes_start = self.nodes.len();
        self.for_tag_names.clear();
        let mut i: usize = 0;
        while i < tag_names.len()
            invariant
                i <= tag_names@.len(),
                self.model().for_tag_names == tag_names@.take(i as int).map_values(|x: &str| x@),
                self.model().nodes == old(self).model().nodes,
                self.model().branches == old(self).model().branches,
                self.cur_nodes_start == old(self).model().nodes.len(),
            decreases tag_names.len() - i,
        {
            let t = string_from_str(tag_names[i]);
            let ghost prev = self.for_tag_names@;
            self.for_tag_names.push(t);
            proof {
                lemma_map_push(prev, t, |x: String| x@);
                assert(tag_names@.take(i + 1) =~= tag_names@.take(i as int).push(tag_names@[i as int]));
                lemma_map_push(tag_names@.take(i as int), tag_names@[i as int], |x: &str| x@);
            }
            i += 1;
            proof {
                assert(self.model().for_tag_names =~= tag_names@.take(i as int).map_values(|x: &str| x@));
            }
        }
        proof {
            assert(tag_names@.take(i as int) =~= tag_names@);
        }
        self
    }

    /// Every current node takes any text as its next value.
    pub fn str(&mut self) -> (r: &mut Self)
        ensures
            *final(self) == *final(r),
            r.model() == str_spec(old(self).model()),
    {
        let ghost f = |n: NodeModel| NodeModel { vals: n.vals.push(ValModel::Str), ..n };
        let ghost old_nodes = self.model().nodes;
        let start = self.cur_nodes_start;
        let mut i = start;
        while i < self.nodes.len()
            invariant
                start <= i,
                start == self.cur_nodes_start,
                f == (|n: NodeModel| NodeModel { vals: n.vals.push(ValModel::Str), ..n }),
                self.nodes@.len() == old_nodes.len(),
                self.model().nodes == update_range(old_nodes, start as int, i as int, f),
                self.model().branches == old(self).model().branches,
                self.model().for_tag_names == old(self).model().for_tag_names,
            decreases self.nodes.len() - i,
        {
            let ghost prev = self.nodes@;
            self.nodes[i].vals.push(WalkerVal::Str);
            proof {
                lemma_map_push(prev[i as int].vals@, self.nodes@[i as int].vals@.last(), |v: WalkerVal| val_model(v));
                assert(self.nodes@[i as int].vals@ =~= prev[i as int].vals@.push(self.nodes@[i as int].vals@.last()));
                lemma_range_step(old_nodes, prev, self.nodes@[i as int], start as int, i as int, f);
            }
            i += 1;
        }
        proof {
            assert(update_range(old_nodes, start as int, i as int, f) =~= update_range(
                old_nodes,
                start as int,
                old_nodes.len() as int,
                f,
            ));
        }
        self
    }

    /// Every current node takes a value parsed by the parser named `name`
    /// as its next value.
    pub fn named_param(&mut self, name: &str) -> (r: &mut Self)
        ensures
            *final(self) == *final(r),
            r.model() == named_param_spec(old(self).model(), name@),
    {
        let ghost f = |n: NodeModel| NodeModel { vals: n.vals.push(ValModel::Named(name@)), ..n };
        let ghost old_nodes = self.model().nodes;
        let start = self.cur_nodes_start;
        let mut i = start;
        while i < self.nodes.len()
            invariant
                start <= i,
                start == self.cur_nodes_start,
                f == (|n: NodeModel| NodeModel { vals: n.vals.push(ValModel::Named(name@)), ..n }),
                self.nodes@.len() == old_nodes.len(),
                self.model().nodes == update_range(old_nodes, start as int, i as int, f),
                self.model().branches == old(self).model().branches,
                self.model().for_tag_names == old(self).model().for_tag_names,
            decreases self.nodes.len() - i,
        {
            let n = string_from_str(name);
            let ghost prev = self.nodes@;
            self.nodes[i].vals.push(WalkerVal::Named(n));
            proof {
                lemma_map_push(prev[i as int].vals@, self.nodes@[i as int].vals@.last(), |v: WalkerVal| val_model(v));
                assert(self.nodes@[i as int].vals@ =~= prev[i as int].vals@.push(self.nodes@[i as int].vals@.last()));
                lemma_range_step(old_nodes, prev, self.nodes@[i as int], start as int, i as int, f);
            }
            i += 1;
        }
        proof {
            assert(update_range(old_nodes, start as int, i as int, f) =~= update_range(
                old_nodes,
                start as int,
                old_nodes.len() as int,
                f,
            ));
        }
        self
    }

    /// Every current node takes its values repeatedly: the number of values
    /// must be a multiple of the node's, and not zero.
    pub fn repeat(&mut self) -> (r: &mut Self)
        ensures
            *final(self) == *final(r),
            r.model() == repeat_spec(old(self).model()),
    {
        let ghost f = |n: NodeModel| NodeModel { repeat: true, ..n };
        let ghost old_nodes = self.model().nodes;
        let start = self.cur_nodes_start;
        let mut i = start;
        while i < self.nodes.len()
            invariant
                start <= i,
                start == self.cur_nodes_start,
                f == (|n: NodeModel| NodeModel { repeat: true, ..n }),
                self.nodes@.len() == old_nodes.len(),
                self.model().nodes == update_range(old_nodes, start as int, i as int, f),
                self.model().branches == old(self).model().branches,
                self.model().for_tag_names == old(self).model().for_tag_names,
            decreases self.nodes.len() - i,
        {
            let ghost prev = self.nodes@;
            self.nodes[i].repeat = true;
            proof {
                lemma_range_step(old_nodes, prev, self.nodes@[i as int], start as int, i as int, f);
            }
            i += 1;
        }
        proof {
            assert(update_range(old_nodes, start as int, i as int, f) =~= update_range(
                old_nodes,
                start as int,
                old_nodes.len() as int,
                f,
            ));
        }
        self
    }

    /// Every current node is labelled `node_label`.
    pub fn label(&mut self, node_label: &str) -> (r: &mut Self)
        ensures
            *final(self) == *final(r),
            r.model() == label_spec(old(self).model(), node_label@),
    {
        let ghost f = |n: NodeModel| NodeModel { label: Some(node_label@), ..n };
        let ghost old_nodes = self.model().nodes;
        let start = self.cur_nodes_start;
        let mut i = start;
        while i < self.nodes.len()
            invariant
                start <= i,
                start == self.cur_nodes_start,
                f == (|n: NodeModel| NodeModel { label: Some(node_label@), ..n }),
                self.nodes@.len() == old_nodes.len(),
                self.model().nodes == update_range(old_nodes, start as int, i as int, f),
                self.model().branches == old(self).model().branches,
                self.model().for_tag_names == old(self).model().for_tag_names,
            decreases self.nodes.len() - i,
        {
            let ghost prev = self.nodes@;
            self.nodes[i].node_label = Some(string_from_str(node_label));
            proof {
                lemma_range_step(old_nodes, prev, self.nodes@[i as int], start as int, i as int, f);
            }
            i += 1;
        }
        proof {
            assert(update_range(old_nodes, start as int, i as int, f) =~= update_range(
                old_nodes,
                start as int,
                old_nodes.len() as int,
                f,
            ));
        }
        self
    }

    /// The children of records accepted by the current nodes are checked
    /// against branch `branch_label`. A node's children can be set once.
    pub fn children(&mut self, branch_label: &str) -> (r: &mut Self)
        requires
            forall|i: int|
                old(self).model().cur_nodes_start <= i < old(self).model().nodes.len()
                    ==> (#[trigger] old(self).model().nodes[i]).children is None,
        ensures
            *final(self) == *final(r),
            r.model() == children_spec(old(self).model(), branch_label@),
    {
        let ghost f = |n: NodeModel| NodeModel { children: Some(branch_label@), ..n };
        let ghost old_nodes = self.model().nodes;
        let start = self.cur_nodes_start;
        let mut i = start;
        while i < self.nodes.len()
            invariant
                start <= i,
                start == self.cur_nodes_start,
                f == (|n: NodeModel| NodeModel { children: Some(branch_label@), ..n }),
                self.nodes@.len() == old_nodes.len(),
                self.model().nodes == update_range(old_nodes, start as int, i as int, f),
                self.model().branches == old(self).model().branches,
                self.model().for_tag_names == old(self).model().for_tag_names,
            decreases self.nodes.len() - i,
        {
            let ghost prev = self.nodes@;
            self.nodes[i].children = Some(string_from_str(branch_label));
            proof {
                lemma_range_step(old_nodes, prev, self.nodes@[i as int], start as int, i as int, f);
            }
            i += 1;
        }
        proof {
            assert(update_range(old_nodes, start as int, i as int, f) =~= update_range(
                old_nodes,
                start as int,
                old_nodes.len() as int,
                f,
            ));
        }
        self
    }

    /// Declares the next node of the current branch: an untagged one when no
    /// tags are set, else one node for each of the tags; these become the
    /// current nodes.
    pub fn entry(&mut self) -> (r: &mut Self)
        requires
            old(self).model().branches.len() > 0,
        ensures
            *final(self) == *final(r),
            r.model() == entry_spec(old(self).model()),
    {
        let bi = self.branches.len() - 1;
        let ghost m0 = self.model();
        let mut cur = self.branches.pop().unwrap();
        let ghost b0 = cur;
        proof {
            assert(self.branches@ =~= old(self).branches@.drop_last());
        }
        if self.for_tag_names.len() == 0 {
            let ni = self.nodes.len();
            let node = WalkerNode::new(false, bi);
            let ghost prev = self.nodes@;
            self.nodes.push(node);
            let ghost nt0 = cur.non_tags@;
            cur.non_tags.push(ni);
            self.cur_nodes_start = ni;
            proof {
                lemma_map_push(prev, node, |n: WalkerNode| node_model(n));
            }
        } else {
            let n0 = self.nodes.len();
            self.cur_nodes_start = n0;
            let mut i: usize = 0;
            while i < self.for_tag_names.len()
                invariant
                    i <= self.for_tag_names@.len(),
                    self.for_tag_names == old(self).for_tag_names,
                    self.model().for_tag_names == m0.for_tag_names,
                    bi == m0.branches.len() - 1,
                    n0 == m0.nodes.len(),
                    self.model().nodes == m0.nodes + Seq::new(i as nat, |k: int| new_node_model(true, bi as nat)),
                    tags_model(cur.tags@) == add_tag_nodes(branch_model(b0).tags, m0.for_tag_names.take(i as int), n0 as nat),
                    cur.non_tags == b0.non_tags,
                    cur.branch_inserts == b0.branch_inserts,
                    cur.ignore_other_errors == b0.ignore_other_errors,
                    cur.branch_label == b0.branch_label,
                    cur.tag_onces == b0.tag_onces,
                    self.branches@ == old(self).branches@.drop_last(),
                    self.cur_nodes_start == n0,
                decreases self.for_tag_names.len() - i,
            {
                let ni = self.nodes.len();
                let node = WalkerNode::new(true, bi);
                let ghost prev = self.nodes@;
                self.nodes.push(node);
                tags_push(&mut cur.tags, self.for_tag_names[i].as_str(), ni);
                proof {
                    lemma_map_push(prev, node, |n: WalkerNode| node_model(n));
                    assert(self.model().nodes =~= m0.nodes + Seq::new((i + 1) as nat, |k: int| new_node_model(true, bi as nat)));
                    let names = m0.for_tag_names.take(i + 1);
                    assert(names.drop_last() =~= m0.for_tag_names.take(i as int));
                    assert(names.last() == self.for_tag_names@[i as int]@);
                }
                i += 1;
            }
            proof {
                assert(m0.for_tag_names.take(i as int) =~= m0.for_tag_names);
            }
        }
        let ghost bm = branch_model(cur);
        self.branches.push(cur);
        proof {
            lemma_map_push(old(self).branches@.drop_last(), cur, |b: WalkerBranch| branch_model(b));
            assert(m0.branches =~= old(self).branches@.drop_last().map_values(|b: WalkerBranch| branch_model(b)).push(branch_model(b0)));
            assert(self.model().branches =~= m0.branches.update(m0.branches.len() - 1, bm));
            assert(branch_model(cur).non_tags == cur.non_tags@);
            if m0.for_tag_names.len() == 0 {
                assert(self.model().nodes =~= m0.nodes.push(new_node_model(false, bi as nat)));
            }
            assert(self.model().branches =~= entry_spec(m0).branches);
            assert(self.model().nodes =~= entry_spec(m0).nodes);
        }
        self
    }

    /// Each of `tags` may be used once under a parent, and only one of them:
    /// records with those tags exclude each other.
    pub fn branch_tag_once(&mut self, tags: &[&str]) -> (r: &mut Self)
        requires
            old(self).model().branches.len() > 0,
        ensures
            *final(self) == *final(r),
            r.model() == tag_once_spec(old(self).model(), tags@.map_values(|x: &str| x@)),
    {
        let ghost m0 = self.model();
        let ghost group = tags@.map_values(|x: &str| x@);
        let mut cur = self.branches.pop().unwrap();
        let ghost b0 = cur;
        proof {
            assert(self.branches@ =~= old(self).branches@.drop_last());
        }
        let mut i: usize = 0;
        while i < tags.len()
            invariant
                i <= tags@.len(),
                group == tags@.map_values(|x: &str| x@),
                onces_model(cur.tag_onces@) == onces_group(branch_model(b0).tag_onces, group, i as int),
                cur.non_tags == b0.non_tags,
                cur.tags == b0.tags,
                cur.branch_inserts == b0.branch_inserts,
                cur.ignore_other_errors == b0.ignore_other_errors,
                cur.branch_label == b0.branch_label,
            decreases tags.len() - i,
        {
            onces_push(&mut cur.tag_onces, tags[i], tags);
            i += 1;
        }
        let ghost bm = branch_model(cur);
        self.branches.push(cur);
        proof {
            lemma_map_push(old(self).branches@.drop_last(), cur, |b: WalkerBranch| branch_model(b));
            assert(m0.branches =~= old(self).branches@.drop_last().map_values(|b: WalkerBranch| branch_model(b)).push(branch_model(b0)));
            assert(self.model().branches =~= m0.branches.update(m0.branches.len() - 1, bm));
            assert(self.model().nodes =~= m0.nodes);
            assert(self.model().for_tag_names =~= m0.for_tag_names);
        }
        self
    }

    /// The node at `i`.
    pub(crate) fn node_at(&self, i: usize) -> (r: &WalkerNode)
        requires
            i < self.model().nodes.len(),
        ensures
            node_model(*r) == self.model().nodes[i as int],
    {
        &self.nodes[i]
    }

    /// The branch at `i`.
    pub(crate) fn branch_at(&self, i: usize) -> (r: &WalkerBranch)
        requires
            i < self.model().branches.len(),
        ensures
            branch_model(*r) == self.model().branches[i as int],
    {
        &self.branches[i]
    }

    /// How many branches are declared.
    pub(crate) fn branch_count(&self) -> (r: usize)
        ensures
            r == self.model().branches.len(),
    {
        self.branches.len()
    }

    /// The index of the branch labelled `branch_label`, if declared.
    pub fn branch_position(&self, branch_label: &str) -> (r: Option<usize>)
        ensures
            match r {
                Some(j) => branch_index(self.model().branches, branch_label@) == Some(j as int),
                None => branch_index(self.model().branches, branch_label@) is None,
            },
    {
        self.find_branch(branch_label)
    }

    fn node_list_ok(&self, list: &Vec<usize>, tagged: bool) -> (r: bool)
        ensures
            r == forall|j: int| 0 <= j < list@.len() ==> {
                let ni = #[trigger] list@[j];
                ni < self.model().nodes.len() && self.model().nodes[ni as int].has_tag == tagged
            },
    {
        let mut j: usize = 0;
        while j < list.len()
            invariant
                j <= list@.len(),
                forall|k: int| 0 <= k < j ==> {
                    let ni = #[trigger] list@[k];
                    ni < self.model().nodes.len() && self.model().nodes[ni as int].has_tag == tagged
                },
            decreases list.len() - j,
        {
            let ni = list[j];
            if ni >= self.nodes.len() {
                return false;
            }
            if self.nodes[ni].has_tag != tagged {
                assert(self.model().nodes[ni as int].has_tag != tagged);
                return false;
            }
            j += 1;
        }
        true
    }

    fn branch_ok_at(&self, b: usize) -> (r: bool)
        requires
            b < self.model().branches.len(),
        ensures
            r == branch_ok(self.model(), b as int),
    {
        let ghost m = self.model();
        let br = &self.branches[b];
        assert(branch_model(*br) == m.branches[b as int]);
        let mut j: usize = 0;
        while j < br.branch_inserts.len()
            invariant
                j <= br.branch_inserts@.len(),
                m == self.model(),
                branch_model(*br) == m.branches[b as int],
                forall|k: int| 0 <= k < j ==> branch_index(m.branches, #[trigger] m.branches[b as int].inserts[k]) is Some,
            decreases br.branch_inserts.len() - j,
        {
            if self.find_branch(br.branch_inserts[j].as_str()).is_none() {
                assert(m.branches[b as int].inserts[j as int] == br.branch_inserts@[j as int]@);
                return false;
            }
            j += 1;
        }
        let mut t: usize = 0;
        while t < br.tags.len()
            invariant
                t <= br.tags@.len(),
                m == self.model(),
                branch_model(*br) == m.branches[b as int],
                forall|t2: int, k: int|
                    0 <= t2 < t && 0 <= k < m.branches[b as int].tags[t2].1.len() ==> {
                        let ni = #[trigger] m.branches[b as int].tags[t2].1[k];
                        ni < m.nodes.len() && m.nodes[ni as int].has_tag
                    },
            decreases br.tags.len() - t,
        {
            let ok = self.node_list_ok(&br.tags[t].1, true);
            assert(m.branches[b as int].tags[t as int].1 == br.tags@[t as int].1@);
            if !ok {
                return false;
            }
            t += 1;
        }
        let ok = self.node_list_ok(&br.non_tags, false);
        ok
    }

    /// Whether the schema is well formed: every branch it refers to is
    /// declared, and an untagged node that repeats has values.
    pub fn well_formed(&self) -> (r: bool)
        ensures
            r == walker_wf(self.model()),
    {
        let ghost m = self.model();
        let mut b: usize = 0;
        while b < self.branches.len()
            invariant
                b <= self.branches@.len(),
                m == self.model(),
                forall|k: int| 0 <= k < b ==> #[trigger] branch_ok(m, k),
            decreases self.branches.len() - b,
        {
            if !self.branch_ok_at(b) {
                return false;
            }
            b += 1;
        }
        let mut n: usize = 0;
        while n < self.nodes.len()
            invariant
                n <= self.nodes@.len(),
                m == self.model(),
                forall|k: int| 0 <= k < m.branches.len() ==> #[trigger] branch_ok(m, k),
                forall|k: int| 0 <= k < n ==> node_ok(m.branches, #[trigger] m.nodes[k]),
            decreases self.nodes.len() - n,
        {
            let node = &self.nodes[n];
            assert(node_model(*node) == m.nodes[n as int]);
            let c_ok = match &node.children {
                Some(c) => self.find_branch(c.as_str()).is_some(),
                None => true,
            };
            if !c_ok || node.branch_ind >= self.branches.len() || (node.repeat && !node.has_tag
                && node.vals.len() == 0) {
                return false;
            }
            n += 1;
        }
        true
    }

    /// The branches visited from branch `top`, taking in the branches each
    /// takes nodes from, and the nodes of tag `tag` and the untagged nodes
    /// they hold, in the order visited.
    pub(crate) fn collect(&self, top: &str, tag: &str) -> (r: (Vec<usize>, Vec<usize>, Vec<usize>))
        ensures
            r.2@.map_values(|i: usize| i as int) == visit_order(self.model().branches, top@),
            r.0@ == tag_nodes_of(self.model().branches, visit_order(self.model().branches, top@), tag@),
            r.1@ == non_tag_nodes_of(self.model().branches, visit_order(self.model().branches, top@)),
            forall|j: int| 0 <= j < r.2@.len() ==> #[trigger] r.2@[j] < self.model().branches.len(),
    {
        let ghost bs = self.model().branches;
        let ghost target = visit_order(bs, top@);
        let mut seen: Vec<bool> = Vec::new();
        let mut k: usize = 0;
        while k < self.branches.len()
            invariant
                k <= self.branches@.len(),
                seen@ == Seq::new(k as nat, |i: int| false),
            decreases self.branches.len() - k,
        {
            seen.push(false);
            k += 1;
            assert(seen@ =~= Seq::new(k as nat, |i: int| false));
        }
        let mut stack: Vec<&str> = Vec::new();
        stack.push(top);
        let mut vis: Vec<usize> = Vec::new();
        let mut tag_nodes: Vec<usize> = Vec::new();
        let mut non_tag_nodes: Vec<usize> = Vec::new();
        proof {
            assert(stack@.map_values(|x: &str| x@) =~= seq![top@]);
            assert(vis@.map_values(|i: usize| i as int) =~= Seq::<int>::empty());
        }
        while stack.len() > 0
            invariant
                bs == self.model().branches,
                seen@.len() == bs.len(),
                target == visit_order(bs, top@),
                target == vis@.map_values(|i: usize| i as int) + dfs(bs, stack@.map_values(|x: &str| x@), seen@),
                tag_nodes@ == tag_nodes_of(bs, vis@.map_values(|i: usize| i as int), tag@),
                non_tag_nodes@ == non_tag_nodes_of(bs, vis@.map_values(|i: usize| i as int)),
                forall|j: int| 0 <= j < vis@.len() ==> #[trigger] vis@[j] < bs.len(),
            decreases count_false(seen@), stack@.len(),
        {
            let ghost sm = stack@.map_values(|x: &str| x@);
            let ghost vm = vis@.map_values(|i: usize| i as int);
            let ghost seen0 = seen@;
            let b = stack.pop().unwrap();
            proof {
                assert(stack@.map_values(|x: &str| x@) =~= sm.drop_last());
                assert(sm.last() == b@);
                lemma_branch_index(bs, b@);
                assert(dfs(bs, sm, seen0) == match branch_index(bs, b@) {
                    Some(i) => if 0 <= i < seen0.len() && !seen0[i] {
                        seq![i] + dfs(bs, sm.drop_last() + bs[i].inserts, seen0.update(i, true))
                    } else {
                        dfs(bs, sm.drop_last(), seen0)
                    },
                    None => dfs(bs, sm.drop_last(), seen0),
                });
            }
            match self.find_branch(b) {
                Some(i) => {
                    if !seen[i] {
                        let br = &self.branches[i];
                        assert(branch_model(*br) == bs[i as int]);
                        proof {
                            lemma_count_false_update(seen@, i as int);
                        }
                        seen.set(i, true);
                        match find_key(&br.tags, tag) {
                            Some(t) => {
                                proof {
                                    assert(keys_of(br.tags@) =~= bs[i as int].tags.map_values(|e: (Seq<char>, Seq<usize>)| e.0));
                                    lemma_first_key(keys_of(br.tags@), tag@);
                                }
                                let list = &br.tags[t].1;
                                let mut q: usize = 0;
                                let ghost tn0 = tag_nodes@;
                                while q < list.len()
                                    invariant
                                        q <= list@.len(),
                                        tag_nodes@ == tn0 + list@.take(q as int),
                                    decreases list.len() - q,
                                {
                                    tag_nodes.push(list[q]);
                                    q += 1;
                                    assert(tag_nodes@ =~= tn0 + list@.take(q as int));
                                }
                                assert(list@.take(q as int) =~= list@);
                                assert(bs[i as int].tags[t as int].1 == list@);
                            },
                            None => {
                                proof {
                                    assert(keys_of(br.tags@) =~= bs[i as int].tags.map_values(|e: (Seq<char>, Seq<usize>)| e.0));
                                }
                                assert(tag_nodes@ =~= tag_nodes@ + Seq::<usize>::empty());
                            },
                        }
                        let mut q: usize = 0;
                        let ghost nn0 = non_tag_nodes@;
                        while q < br.non_tags.len()
                            invariant
                                q <= br.non_tags@.len(),
                                non_tag_nodes@ == nn0 + br.non_tags@.take(q as int),
                            decreases br.non_tags.len() - q,
                        {
                            non_tag_nodes.push(br.non_tags[q]);
                            q += 1;
                            assert(non_tag_nodes@ =~= nn0 + br.non_tags@.take(q as int));
                        }
                        assert(br.non_tags@.take(q as int) =~= br.non_tags@);
                        let mut q: usize = 0;
                        let ghost st0 = stack@.map_values(|x: &str| x@);
                        while q < br.branch_inserts.len()
                            invariant
                                q <= br.branch_inserts@.len(),
                                stack@.map_values(|x: &str| x@) == st0 + bs[i as int].inserts.take(q as int),
                                branch_model(*br) == bs[i as int],
                            decreases br.branch_inserts.len() - q,
                        {
                            let ghost before = stack@;
                            let lab = br.branch_inserts[q].as_str();
                            stack.push(lab);
                            q += 1;
                            proof {
                                lemma_map_push(before, lab, |x: &str| x@);
                                assert(stack@.map_values(|x: &str| x@) =~= st0 + bs[i as int].inserts.take(q as int));
                            }
                        }
                        assert(bs[i as int].inserts.take(q as int) =~= bs[i as int].inserts);
                        let ghost vprev = vis@;
                        vis.push(i);
                        proof {
                            lemma_map_push(vprev, i, |i: usize| i as int);
                            let vm2 = vis@.map_values(|i: usize| i as int);
                            assert(vm2.drop_last() =~= vm);
                            assert(vm + (seq![i as int] + dfs(bs, st0 + bs[i as int].inserts, seen@)) =~= vm2 + dfs(
                                bs,
                                st0 + bs[i as int].inserts,
                                seen@,
                            ));
                        }
                    }
                },
                None => {},
            }
        }
        proof {
            assert(dfs(bs, stack@.map_values(|x: &str| x@), seen@) =~= Seq::<int>::empty());
            assert(target =~= vis@.map_values(|i: usize| i as int));
        }
        (tag_nodes, non_tag_nodes, vis)
    }

    /// Whether none of the current nodes has a children branch yet.
    pub fn current_children_free(&self) -> (r: bool)
        ensures
            r == children_free(self.model()),
    {
        let mut i = self.cur_nodes_start;
        while i < self.nodes.len()
            invariant
                self.cur_nodes_start <= i,
                forall|k: int| self.cur_nodes_start <= k < i && k < self.nodes@.len() ==> (#[trigger] self.model().nodes[k]).children is None,
            decreases self.nodes.len() - i,
        {
            if self.nodes[i].children.is_some() {
                assert(self.model().nodes[i as int].children is Some);
                return false;
            }
            i += 1;
        }
        true
    }

    /// Checks nothing: the schema is used as it was declared.
    pub fn validate(&mut self) -> (r: &mut Self)
        ensures
            *final(self) == *final(r),
            r.model() == old(self).model(),
    {
        self
    }
}

/// Every branch label a schema refers to is declared, node indices are in
/// range and of the right kind, and an untagged node that repeats has values.
pub open spec fn walker_wf(m: WalkerModel) -> bool {
    &&& forall|b: int| 0 <= b < m.branches.len() ==> #[trigger] branch_ok(m, b)
    &&& forall|n: int| 0 <= n < m.nodes.len() ==> node_ok(m.branches, #[trigger] m.nodes[n])
}

/// The branches that branch `b` takes nodes from are declared, and its
/// tagged and untagged node lists name nodes of the right kind.
pub open spec fn branch_ok(m: WalkerModel, b: int) -> bool {
    &&& forall|j: int| 0 <= j < m.branches[b].inserts.len() ==> branch_index(
        m.branches,
        #[trigger] m.branches[b].inserts[j],
    ) is Some
    &&& forall|t: int, j: int|
        0 <= t < m.branches[b].tags.len() && 0 <= j < m.branches[b].tags[t].1.len() ==> {
            let ni = #[trigger] m.branches[b].tags[t].1[j];
            ni < m.nodes.len() && m.nodes[ni as int].has_tag
        }
    &&& forall|j: int|
        0 <= j < m.branches[b].non_tags.len() ==> {
            let ni = #[trigger] m.branches[b].non_tags[j];
            ni < m.nodes.len() && !m.nodes[ni as int].has_tag
        }
}

/// A node's children branch is declared, its branch exists, and if it is
/// untagged and repeats it has values.
pub open spec fn node_ok(branches: Seq<BranchModel>, n: NodeModel) -> bool {
    &&& n.children matches Some(c) ==> branch_index(branches, c) is Some
    &&& n.branch_ind < branches.len()
    &&& (n.repeat && !n.has_tag) ==> n.vals.len() > 0
}

/// How many entries of `s` are false.
pub open spec fn count_false(s: Seq<bool>) -> nat
    decreases s.len(),
{
    if s.len() == 0 {
        0
    } else {
        count_false(s.drop_last()) + if s.last() {
            0nat
        } else {
            1nat
        }
    }
}

/// Marking an unmarked entry leaves one fewer unmarked.
pub proof fn lemma_count_false_update(s: Seq<bool>, i: int)
    requires
        0 <= i < s.len(),
        !s[i],
    ensures
        count_false(s.update(i, true)) + 1 == count_false(s),
    decreases s.len(),
{
    let t = s.update(i, true);
    if i == s.len() - 1 {
        assert(t.drop_last() =~= s.drop_last());
    } else {
        assert(t.drop_last() =~= s.drop_last().update(i, true));
        lemma_count_false_update(s.drop_last(), i);
    }
}

/// The branches visited, in order, when the labels of `stack` are taken
/// from its end, each new branch adding the labels it takes nodes from;
/// `seen` marks the branches visited already.
pub open spec fn dfs(bs: Seq<BranchModel>, stack: Seq<Seq<char>>, seen: Seq<bool>) -> Seq<int>
    decreases count_false(seen), stack.len(),
{
    if stack.len() == 0 || seen.len() != bs.len() {
        Seq::empty()
    } else {
        let rest = stack.drop_last();
        match branch_index(bs, stack.last()) {
            Some(i) => if 0 <= i < seen.len() && !seen[i] {
                proof {
                    lemma_count_false_update(seen, i);
                }
                seq![i] + dfs(bs, rest + bs[i].inserts, seen.update(i, true))
            } else {
                dfs(bs, rest, seen)
            },
            None => dfs(bs, rest, seen),
        }
    }
}

/// The branches visited from branch `top`, in order.
pub open spec fn visit_order(bs: Seq<BranchModel>, top: Seq<char>) -> Seq<int> {
    dfs(bs, seq![top], Seq::new(bs.len(), |i: int| false))
}

/// The nodes of tag `tag` in the branches `vis`, in order.
pub open spec fn tag_nodes_of(bs: Seq<BranchModel>, vis: Seq<int>, tag: Seq<char>) -> Seq<usize>
    decreases vis.len(),
{
    if vis.len() == 0 {
        Seq::empty()
    } else {
        tag_nodes_of(bs, vis.drop_last(), tag) + match key_index(bs[vis.last()].tags, tag) {
            Some(t) => bs[vis.last()].tags[t].1,
            None => Seq::empty(),
        }
    }
}

/// The untagged nodes of the branches `vis`, in order.
pub open spec fn non_tag_nodes_of(bs: Seq<BranchModel>, vis: Seq<int>) -> Seq<usize>
    decreases vis.len(),
{
    if vis.len() == 0 {
        Seq::empty()
    } else {
        non_tag_nodes_of(bs, vis.drop_last()) + bs[vis.last()].non_tags
    }
}

/// The schema after `Walker::branch`.
pub open spec fn branch_spec(m: WalkerModel, branch_label: Seq<char>) -> WalkerModel {
    WalkerModel {
        branches: m.branches.push(
            BranchModel {
                tags: Seq::empty(),
                non_tags: Seq::empty(),
                inserts: Seq::empty(),
                ignore_other_errors: false,
                label: branch_label,
                tag_onces: Seq::empty(),
            },
        ),
        cur_nodes_start: m.nodes.len(),
        ..m
    }
}

/// The schema after `Walker::branch_nodes_from`.
pub open spec fn branch_nodes_from_spec(m: WalkerModel, branch_label: Seq<char>) -> WalkerModel {
    WalkerModel {
        branches: update_last(
            m.branches,
            |b: BranchModel| BranchModel { inserts: b.inserts.push(branch_label), ..b },
        ),
        cur_nodes_start: m.nodes.len(),
        ..m
    }
}

/// The schema after `Walker::skip_node_errs`.
pub open spec fn skip_node_errs_spec(m: WalkerModel) -> WalkerModel {
    WalkerModel {
        branches: update_last(
            m.branches,
            |b: BranchModel| BranchModel { ignore_other_errors: true, ..b },
        ),
        ..m
    }
}

/// The schema after `Walker::skip_child_errs`.
pub open spec fn skip_child_errs_spec(m: WalkerModel) -> WalkerModel {
    WalkerModel {
        nodes: update_range(
            m.nodes,
            m.cur_nodes_start as int,
            m.nodes.len() as int,
            |n: NodeModel| NodeModel { ignore_children: true, ..n },
        ),
        ..m
    }
}

/// The schema after `Walker::tagless`.
pub open spec fn tagless_spec(m: WalkerModel) -> WalkerModel {
    WalkerModel {
        for_tag_names: Seq::empty(),
        cur_nodes_start: m.nodes.len(),
        ..m
    }
}

/// The schema after `Walker::tags`.
pub open spec fn tags_spec(m: WalkerModel, tag_names: Seq<Seq<char>>) -> WalkerModel {
    WalkerModel {
        for_tag_names: tag_names,
        cur_nodes_start: m.nodes.len(),
        ..m
    }
}

/// The schema after `Walker::str`.
pub open spec fn str_spec(m: WalkerModel) -> WalkerModel {
    WalkerModel {
        nodes: update_range(
            m.nodes,
            m.cur_nodes_start as int,
            m.nodes.len() as int,
            |n: NodeModel| NodeModel { vals: n.vals.push(ValModel::Str), ..n },
        ),
        ..m
    }
}

/// The schema after `Walker::named_param`.
pub open spec fn named_param_spec(m: WalkerModel, name: Seq<char>) -> WalkerModel {
    WalkerModel {
        nodes: update_range(
            m.nodes,
            m.cur_nodes_start as int,
            m.nodes.len() as int,
            |n: NodeModel| NodeModel { vals: n.vals.push(ValModel::Named(name)), ..n },
        ),
        ..m
    }
}

/// The schema after `Walker::repeat`.
pub open spec fn repeat_spec(m: WalkerModel) -> WalkerModel {
    WalkerModel {
        nodes: update_range(
            m.nodes,
            m.cur_nodes_start as int,
            m.nodes.len() as int,
            |n: NodeModel| NodeModel { repeat: true, ..n },
        ),
        ..m
    }
}

/// The schema after `Walker::label`.
pub open spec fn label_spec(m: WalkerModel, node_label: Seq<char>) -> WalkerModel {
    WalkerModel {
        nodes: update_range(
            m.nodes,
            m.cur_nodes_start as int,
            m.nodes.len() as int,
            |n: NodeModel| NodeModel { label: Some(node_label), ..n },
        ),
        ..m
    }
}

/// The schema after `Walker::children`.
pub open spec fn children_spec(m: WalkerModel, branch_label: Seq<char>) -> WalkerModel {
    WalkerModel {
        nodes: update_range(
            m.nodes,
            m.cur_nodes_start as int,
            m.nodes.len() as int,
            |n: NodeModel| NodeModel { children: Some(branch_label), ..n },
        ),
        ..m
    }
}

/// The schema after `Walker::branch_tag_once`.
pub open spec fn tag_once_spec(m: WalkerModel, group: Seq<Seq<char>>) -> WalkerModel {
    WalkerModel {
        branches: update_last(
            m.branches,
            |b: BranchModel| BranchModel {
                tag_onces: onces_group(b.tag_onces, group, group.len() as int),
                ..b
            },
        ),
        ..m
    }
}

/// The schema with nothing declared.
pub open spec fn empty_model() -> WalkerModel {
    WalkerModel { branches: Seq::empty(), nodes: Seq::empty(), for_tag_names: Seq::empty(), cur_nodes_start: 0 }
}

/// Whether the current nodes of `m` have no children branch yet.
pub open spec fn children_free(m: WalkerModel) -> bool {
    forall|i: int| m.cur_nodes_start <= i < m.nodes.len() ==> (#[trigger] m.nodes[i]).children is None
}

/// A node just declared, with no values.
pub open spec fn new_node_model(has_tag: bool, branch_ind: nat) -> NodeModel {
    NodeModel {
        vals: Seq::empty(),
        has_tag,
        repeat: false,
        label: None,
        children: None,
        ignore_children: false,
        branch_ind,
    }
}

/// The schema after declaring the next node (see `Walker::entry`).
pub open spec fn entry_spec(m: WalkerModel) -> WalkerModel {
    let bi = (m.branches.len() - 1) as nat;
    let n = m.nodes.len();
    if m.for_tag_names.len() == 0 {
        WalkerModel {
            nodes: m.nodes.push(new_node_model(false, bi)),
            branches: update_last(m.branches, |b: BranchModel| BranchModel { non_tags: b.non_tags.push(n as usize), ..b }),
            cur_nodes_start: n,
            ..m
        }
    } else {
        WalkerModel {
            nodes: m.nodes + Seq::new(m.for_tag_names.len(), |k: int| new_node_model(true, bi)),
            branches: update_last(
                m.branches,
                |b: BranchModel| BranchModel { tags: add_tag_nodes(b.tags, m.for_tag_names, n), ..b },
            ),
            cur_nodes_start: n,
            ..m
        }
    }
}

/// `ns` with the nodes from `from` up to `to` changed by `f`.
pub open spec fn update_range(
    ns: Seq<NodeModel>,
    from: int,
    to: int,
    f: spec_fn(NodeModel) -> NodeModel,
) -> Seq<NodeModel> {
    Seq::new(ns.len(), |i: int| if from <= i < to { f(ns[i]) } else { ns[i] })
}

/// `bs` with its last branch changed by `f`.
pub open spec fn update_last(bs: Seq<BranchModel>, f: spec_fn(BranchModel) -> BranchModel) -> Seq<
    BranchModel,
> {
    bs.update(bs.len() - 1, f(bs.last()))
}

/// Adds `v` to the list under key `k`, starting the list if `k` is new.
pub open spec fn tags_add(tags: Seq<(Seq<char>, Seq<usize>)>, k: Seq<char>, v: usize) -> Seq<
    (Seq<char>, Seq<usize>),
> {
    match key_index(tags, k) {
        Some(i) => tags.update(i, (k, tags[i].1.push(v))),
        None => tags.push((k, seq![v])),
    }
}

/// Adds one node per tag of `names`, numbered from `start`.
pub open spec fn add_tag_nodes(
    tags: Seq<(Seq<char>, Seq<usize>)>,
    names: Seq<Seq<char>>,
    start: nat,
) -> Seq<(Seq<char>, Seq<usize>)>
    decreases names.len(),
{
    if names.len() == 0 {
        tags
    } else {
        tags_add(
            add_tag_nodes(tags, names.drop_last(), start),
            names.last(),
            (start + names.len() - 1) as usize,
        )
    }
}

/// Adds `x` to a set kept as a list.
pub open spec fn set_add(set: Seq<Seq<char>>, x: Seq<char>) -> Seq<Seq<char>> {
    if set.contains(x) {
        set
    } else {
        set.push(x)
    }
}

/// Adds every text of `xs` to a set kept as a list.
pub open spec fn set_add_all(set: Seq<Seq<char>>, xs: Seq<Seq<char>>) -> Seq<Seq<char>>
    decreases xs.len(),
{
    if xs.len() == 0 {
        set
    } else {
        set_add(set_add_all(set, xs.drop_last()), xs.last())
    }
}

/// Adds every text of `xs` to the set under key `k`, starting it if new.
pub open spec fn onces_add(
    onces: Seq<(Seq<char>, Seq<Seq<char>>)>,
    k: Seq<char>,
    xs: Seq<Seq<char>>,
) -> Seq<(Seq<char>, Seq<Seq<char>>)> {
    match key_index(onces, k) {
        Some(i) => onces.update(i, (k, set_add_all(onces[i].1, xs))),
        None => onces.push((k, set_add_all(Seq::empty(), xs))),
    }
}

/// Makes each tag of `group` share the once-set of the whole group, for the
/// first `n` tags.
pub open spec fn onces_group(
    onces: Seq<(Seq<char>, Seq<Seq<char>>)>,
    group: Seq<Seq<char>>,
    n: int,
) -> Seq<(Seq<char>, Seq<Seq<char>>)>
    decreases n,
{
    if n <= 0 || n > group.len() {
        onces
    } else {
        onces_add(onces_group(onces, group, n - 1), group[n - 1], group)
    }
}

/// Mapping after an update is updating after a map.
pub proof fn lemma_map_update<A, B>(s: Seq<A>, i: int, x: A, g: spec_fn(A) -> B)
    requires
        0 <= i < s.len(),
    ensures
        s.update(i, x).map_values(g) == s.map_values(g).update(i, g(x)),
{
    assert(s.update(i, x).map_values(g) =~= s.map_values(g).update(i, g(x)));
}

/// Mapping after a push is pushing after a map.
pub proof fn lemma_map_push<A, B>(s: Seq<A>, x: A, g: spec_fn(A) -> B)
    ensures
        s.push(x).map_values(g) == s.map_values(g).push(g(x)),
{
    assert(s.push(x).map_values(g) =~= s.map_values(g).push(g(x)));
}

/// One more node of a range changed.
pub proof fn lemma_range_step(
    old_nodes: Seq<NodeModel>,
    prev: Seq<WalkerNode>,
    x: WalkerNode,
    start: int,
    i: int,
    f: spec_fn(NodeModel) -> NodeModel,
)
    requires
        prev.map_values(|n: WalkerNode| node_model(n)) == update_range(old_nodes, start, i, f),
        prev.len() == old_nodes.len(),
        0 <= start <= i < prev.len(),
        node_model(x) == f(node_model(prev[i])),
    ensures
        prev.update(i, x).map_values(|n: WalkerNode| node_model(n)) == update_range(old_nodes, start, i + 1, f),
{
    lemma_map_update(prev, i, x, |n: WalkerNode| node_model(n));
    assert(prev.map_values(|n: WalkerNode| node_model(n))[i] == old_nodes[i]);
    assert(prev.update(i, x).map_values(|n: WalkerNode| node_model(n)) =~= update_range(old_nodes, start, i + 1, f));
}

/// A label is found at an index of the branches, whose label it is.
pub proof fn lemma_branch_index(branches: Seq<BranchModel>, label: Seq<char>)
    ensures
        branch_index(branches, label) matches Some(i) ==> 0 <= i < branches.len() && branches[i].label == label,
    decreases branches.len(),
{
    if branches.len() > 0 {
        lemma_branch_index(branches.drop_last(), label);
    }
}

/// A label found in a prefix is found at the same index in the whole.
pub proof fn lemma_branch_index_prefix(branches: Seq<BranchModel>, n: int, label: Seq<char>)
    requires
        0 <= n <= branches.len(),
        branch_index(branches.take(n), label) is Some,
    ensures
        branch_index(branches, label) == branch_index(branches.take(n), label),
    decreases branches.len() - n,
{
    if n < branches.len() {
        assert(branches.take(n + 1).drop_last() =~= branches.take(n));
        lemma_branch_index_prefix(branches, n + 1, label);
    } else {
        assert(branches.take(n) =~= branches);
    }
}

/// A key found is at an index of the keys, and equal to them there; a key
/// not found is none of them.
pub proof fn lemma_first_key(keys: Seq<Seq<char>>, k: Seq<char>)
    ensures
        first_key(keys, k) matches Some(i) ==> 0 <= i < keys.len() && keys[i] == k,
        first_key(keys, k) is None ==> forall|i: int| 0 <= i < keys.len() ==> keys[i] != k,
    decreases keys.len(),
{
    if keys.len() > 0 {
        lemma_first_key(keys.drop_last(), k);
        if first_key(keys.drop_last(), k) is None {
            assert forall|i: int| 0 <= i < keys.len() - 1 implies keys[i] != k by {
                assert(keys.drop_last()[i] == keys[i]);
            }
        }
    }
}

/// A key found in a prefix is found at the same index in the whole.
pub proof fn lemma_first_key_prefix(keys: Seq<Seq<char>>, n: int, k: Seq<char>)
    requires
        0 <= n <= keys.len(),
        first_key(keys.take(n), k) is Some,
    ensures
        first_key(keys, k) == first_key(keys.take(n), k),
    decreases keys.len() - n,
{
    if n < keys.len() {
        assert(keys.take(n + 1).drop_last() =~= keys.take(n));
        lemma_first_key_prefix(keys, n + 1, k);
    } else {
        assert(keys.take(n) =~= keys);
    }
}

/// The index of the first entry of `m` with key `k`.
pub(crate) fn find_key<V>(m: &Vec<(String, V)>, k: &str) -> (r: Option<usize>)
    ensures
        match r {
            Some(j) => first_key(keys_of(m@), k@) == Some(j as int),
            None => first_key(keys_of(m@), k@) is None,
        },
{
    let mut i: usize = 0;
    while i < m.len()
        invariant
            i <= m@.len(),
            first_key(keys_of(m@).take(i as int), k@) is None,
        decreases m.len() - i,
    {
        proof {
            assert(keys_of(m@).take(i + 1).drop_last() =~= keys_of(m@).take(i as int));
            assert(keys_of(m@).take(i + 1).last() == m@[i as int].0@);
        }
        if str_eq(m[i].0.as_str(), k) {
            proof {
                lemma_first_key_prefix(keys_of(m@), (i + 1) as int, k@);
            }
            return Some(i);
        }
        i += 1;
    }
    proof {
        assert(keys_of(m@).take(i as int) =~= keys_of(m@));
    }
    None
}

/// The model of a list of tags with their nodes.
pub open spec fn tags_model(t: Seq<(String, Vec<usize>)>) -> Seq<(Seq<char>, Seq<usize>)> {
    t.map_values(|e: (String, Vec<usize>)| (e.0@, e.1@))
}

/// The model of a list of tags with their once-groups.
pub open spec fn onces_model(t: Seq<(String, Vec<String>)>) -> Seq<(Seq<char>, Seq<Seq<char>>)> {
    t.map_values(|e: (String, Vec<String>)| (e.0@, e.1@.map_values(|x: String| x@)))
}

/// Adds node `v` under tag `k`.
fn tags_push(tags: &mut Vec<(String, Vec<usize>)>, k: &str, v: usize)
    ensures
        tags_model(final(tags)@) == tags_add(tags_model(old(tags)@), k@, v),
{
    proof {
        assert(keys_of(tags@) =~= tags_model(tags@).map_values(|e: (Seq<char>, Seq<usize>)| e.0));
        lemma_first_key(keys_of(tags@), k@);
    }
    match find_key(tags, k) {
        Some(i) => {
            let ghost prev = tags@;
            let mut e = tags.remove(i);
            e.1.push(v);
            tags.insert(i, e);
            proof {
                assert(tags@ =~= prev.update(i as int, e));
                lemma_map_update(prev, i as int, e, |e: (String, Vec<usize>)| (e.0@, e.1@));
            }
        },
        None => {
            let mut nodes = Vec::new();
            nodes.push(v);
            let e = (string_from_str(k), nodes);
            let ghost prev = tags@;
            tags.push(e);
            proof {
                lemma_map_push(prev, e, |e: (String, Vec<usize>)| (e.0@, e.1@));
                assert(e.1@ =~= seq![v]);
            }
        },
    }
}

/// Adds `x` to a set of texts kept as a list.
pub(crate) fn set_insert(set: &mut Vec<String>, x: &str)
    ensures
        final(set)@.map_values(|y: String| y@) == set_add(old(set)@.map_values(|y: String| y@), x@),
{
    let ghost m = set@.map_values(|y: String| y@);
    let mut i: usize = 0;
    while i < set.len()
        invariant
            i <= set@.len(),
            m == set@.map_values(|y: String| y@),
            forall|j: int| 0 <= j < i ==> m[j] != x@,
        decreases set.len() - i,
    {
        if str_eq(set[i].as_str(), x) {
            assert(m[i as int] == x@);
            assert(m.contains(x@));
            return;
        }
        i += 1;
    }
    assert(!m.contains(x@));
    let t = string_from_str(x);
    set.push(t);
    proof {
        lemma_map_push(old(set)@, t, |y: String| y@);
    }
}

/// Adds every text of `xs` to the once-group of tag `k`.
fn onces_push(onces: &mut Vec<(String, Vec<String>)>, k: &str, xs: &[&str])
    ensures
        onces_model(final(onces)@) == onces_add(onces_model(old(onces)@), k@, xs@.map_values(|x: &str| x@)),
{
    let ghost xm = xs@.map_values(|x: &str| x@);
    proof {
        assert(keys_of(onces@) =~= onces_model(onces@).map_values(|e: (Seq<char>, Seq<Seq<char>>)| e.0));
        lemma_first_key(keys_of(onces@), k@);
    }
    let ghost prev = onces@;
    let found = find_key(onces, k);
    proof {
        assert(found matches Some(i) ==> first_key(keys_of(prev), k@) == Some(i as int));
    }
    let mut e = match found {
        Some(i) => {
            let x = onces.remove(i);
            assert(onces@ =~= prev.remove(i as int));
            x
        },
        None => (string_from_str(k), Vec::new()),
    };
    let idx = match found {
        Some(i) => i,
        None => onces.len(),
    };
    let ghost start = e.1@.map_values(|y: String| y@);
    let ghost mid = onces@;
    let ghost e0 = e;
    proof {
        match first_key(keys_of(prev), k@) {
            Some(i) => {
                assert(mid =~= prev.remove(i));
                assert(e0 == prev[i]);
                assert(idx == i);
            },
            None => {
                assert(mid == prev);
                assert(idx == prev.len());
            },
        }
    }
    let mut j: usize = 0;
    while j < xs.len()
        invariant
            j <= xs@.len(),
            xm == xs@.map_values(|x: &str| x@),
            e.1@.map_values(|y: String| y@) == set_add_all(start, xm.take(j as int)),
            e.0 == e0.0,
        decreases xs.len() - j,
    {
        set_insert(&mut e.1, xs[j]);
        proof {
            assert(xm.take(j + 1).drop_last() =~= xm.take(j as int));
        }
        j += 1;
    }
    proof {
        assert(xm.take(j as int) =~= xm);
    }
    onces.insert(idx, e);
    proof {
        match first_key(keys_of(prev), k@) {
            Some(i) => {
                assert(onces@ =~= mid.insert(i, e));
                assert(onces@ =~= prev.update(i, e));
                lemma_map_update(prev, i, e, |e: (String, Vec<String>)| (e.0@, e.1@.map_values(|x: String| x@)));
            },
            None => {
                assert(onces@ =~= prev.push(e));
                lemma_map_push(prev, e, |e: (String, Vec<String>)| (e.0@, e.1@.map_values(|x: String| x@)));
                assert(start =~= Seq::<Seq<char>>::empty());
            },
        }
    }
}

/// In a well-formed schema the tagged nodes gathered from branches are
/// declared tagged nodes.
pub proof fn lemma_tag_nodes_ok(m: WalkerModel, vis: Seq<int>, tag: Seq<char>)
    requires
        walker_wf(m),
        forall|j: int| 0 <= j < vis.len() ==> 0 <= #[trigger] vis[j] < m.branches.len(),
    ensures
        forall|k: int|
            0 <= k < tag_nodes_of(m.branches, vis, tag).len() ==> {
                let ni = #[trigger] tag_nodes_of(m.branches, vis, tag)[k];
                ni < m.nodes.len() && m.nodes[ni as int].has_tag
            },
    decreases vis.len(),
{
    if vis.len() > 0 {
        let pre = vis.drop_last();
        lemma_tag_nodes_ok(m, pre, tag);
        let b = vis.last();
        assert(vis[vis.len() - 1] == b);
        assert(branch_ok(m, b));
        let bm = m.branches[b];
        let a = tag_nodes_of(m.branches, pre, tag);
        match key_index(bm.tags, tag) {
            Some(t) => {
                lemma_first_key(bm.tags.map_values(|e: (Seq<char>, Seq<usize>)| e.0), tag);
                assert forall|k: int| 0 <= k < tag_nodes_of(m.branches, vis, tag).len() implies {
                    let ni = #[trigger] tag_nodes_of(m.branches, vis, tag)[k];
                    ni < m.nodes.len() && m.nodes[ni as int].has_tag
                } by {
                    if k >= a.len() {
                        assert(tag_nodes_of(m.branches, vis, tag)[k] == bm.tags[t].1[k - a.len()]);
                    } else {
                        assert(tag_nodes_of(m.branches, vis, tag)[k] == a[k]);
                    }
                }
            },
            None => {
                assert(tag_nodes_of(m.branches, vis, tag) =~= a);
            },
        }
    }
}

/// In a well-formed schema the untagged nodes gathered from branches are
/// declared untagged nodes.
pub proof fn lemma_non_tag_nodes_ok(m: WalkerModel, vis: Seq<int>)
    requires
        walker_wf(m),
        forall|j: int| 0 <= j < vis.len() ==> 0 <= #[trigger] vis[j] < m.branches.len(),
    ensures
        forall|k: int|
            0 <= k < non_tag_nodes_of(m.branches, vis).len() ==> {
                let ni = #[trigger] non_tag_nodes_of(m.branches, vis)[k];
                ni < m.nodes.len() && !m.nodes[ni as int].has_tag
            },
    decreases vis.len(),
{
    if vis.len() > 0 {
        let pre = vis.drop_last();
        lemma_non_tag_nodes_ok(m, pre);
        let b = vis.last();
        assert(vis[vis.len() - 1] == b);
        assert(branch_ok(m, b));
        let a = non_tag_nodes_of(m.branches, pre);
        assert forall|k: int| 0 <= k < non_tag_nodes_of(m.branches, vis).len() implies {
            let ni = #[trigger] non_tag_nodes_of(m.branches, vis)[k];
            ni < m.nodes.len() && !m.nodes[ni as int].has_tag
        } by {
            if k >= a.len() {
                assert(non_tag_nodes_of(m.branches, vis)[k] == m.branches[b].non_tags[k - a.len()]);
            } else {
                assert(non_tag_nodes_of(m.branches, vis)[k] == a[k]);
            }
        }
    }
}

} // verus!

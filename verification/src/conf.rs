//! A parsed configuration and the navigation of its record tree.

use vstd::prelude::*;
use crate::parser::{Record, RecordModel, Value, ValueModel, records_model, tree_wf, depth_of, climb, lemma_depth_le};
use crate::text::string_from_str;

verus! {

/// A parsed configuration: its records (the first is the top record that
/// holds the others), and optionally the path and the text it came from.
#[derive(Debug)]
pub struct Conf {
    records: Vec<Record>,
    path: Option<String>,
    src: Option<String>,
}

/// The characters of an optional string.
pub open spec fn opt_str_model(s: Option<&str>) -> Option<Seq<char>> {
    match s {
        Some(x) => Some(x@),
        None => None,
    }
}

/// The characters of an optional owned string.
pub open spec fn opt_string_model(s: Option<String>) -> Option<Seq<char>> {
    match s {
        Some(x) => Some(x@),
        None => None,
    }
}

fn copy_opt_str(s: Option<&str>) -> (r: Option<String>)
    ensures
        opt_string_model(r) == opt_str_model(s),
{
    match s {
        Some(x) => Some(string_from_str(x)),
        None => None,
    }
}

impl Conf {
    /// The records.
    pub closed spec fn records(&self) -> Seq<RecordModel> {
        records_model(self.records@)
    }

    /// The path the configuration came from, if known.
    pub closed spec fn path_model(&self) -> Option<Seq<char>> {
        opt_string_model(self.path)
    }

    /// The text the configuration came from, if kept.
    pub closed spec fn src_model(&self) -> Option<Seq<char>> {
        opt_string_model(self.src)
    }

    #[verifier::type_invariant]
    spec fn inv(self) -> bool {
        tree_wf(records_model(self.records@))
    }

    /// A configuration of `records`, with the text and path it came from.
    ///
    /// The records must form the tree that parsing builds (`tree_wf`; the
    /// exec test `conf_text::is_tree` decides it): a top record without
    /// values or parent, every other record after its parent and listed
    /// among that parent's children in increasing order. Depths, ancestors,
    /// the iterators and the walks rest on it: on records that are no such
    /// tree, stepping to the parent of a record at depth 0 underflows the
    /// depth, a child index may lie outside the records, and following
    /// parents or children need not end.
    pub fn new(records: Vec<Record>, src: Option<&str>, path: Option<&str>) -> (r: Conf)
        requires
            tree_wf(records_model(records@)),
        ensures
            r.records() == records_model(records@),
            r.src_model() == opt_str_model(src),
            r.path_model() == opt_str_model(path),
    {
        Conf { records, path: copy_opt_str(path), src: copy_opt_str(src) }
    }

    /// The container of the top record.
    pub closed spec fn root_container(&self) -> RecordContainer<'_> {
        RecordContainer { record_index: 0, conf: self, depth: 0 }
    }

    /// The top record, which holds the records of the first indent level.
    pub fn root(&self) -> (r: RecordContainer<'_>)
        ensures
            r == self.root_container(),
            r.conf() == self,
            r.index() == 0,
            r.depth_model() == 0,
            tree_wf(self.records()),
    {
        proof {
            use_type_invariant(self);
        }
        RecordContainer::new_root(self)
    }

    /// The text the configuration came from, if kept.
    pub fn src(&self) -> (r: Option<&str>)
        ensures
            opt_str_model(r) == self.src_model(),
    {
        match &self.src {
            Some(x) => Some(x.as_str()),
            None => None,
        }
    }

    /// The path the configuration came from, if known.
    pub fn path(&self) -> (r: Option<&str>)
        ensures
            opt_str_model(r) == self.path_model(),
    {
        match &self.path {
            Some(x) => Some(x.as_str()),
            None => None,
        }
    }

    /// The record at `i`.
    pub(crate) fn record(&self, i: usize) -> (r: &Record)
        requires
            i < self.records().len(),
        ensures
            r@ == self.records()[i as int],
    {
        &self.records[i]
    }

    /// The depth of record `i`: 0 for the top record, one more than its
    /// parent's for any other.
    pub(crate) fn depth_at(&self, i: usize) -> (r: usize)
        requires
            i < self.records().len(),
        ensures
            r == depth_of(self.records(), i as int),
    {
        proof {
            use_type_invariant(self);
        }
        let ghost rs = self.records();
        let mut cur = i;
        let mut d: usize = 0;
        while cur > 0
            invariant
                tree_wf(rs),
                rs == self.records(),
                cur < rs.len(),
                d + cur <= i,
                depth_of(rs, i as int) == d + depth_of(rs, cur as int),
            decreases cur,
        {
            let p = self.records[cur].parent.unwrap();
            assert(rs[cur as int].parent == Some(p));
            d += 1;
            cur = p;
        }
        d
    }

}

/// A record of a configuration, with its depth: the top record is at depth
/// 0 and the records of the first indent level at depth 1.
#[derive(Clone, Copy)]
pub struct RecordContainer<'a> {
    record_index: usize,
    conf: &'a Conf,
    depth: usize,
}

impl<'a> RecordContainer<'a> {
    /// The configuration.
    pub closed spec fn conf(&self) -> &'a Conf {
        self.conf
    }

    /// The index of the record.
    pub closed spec fn index(&self) -> int {
        self.record_index as int
    }

    /// The depth of the record.
    pub closed spec fn depth_model(&self) -> int {
        self.depth as int
    }

    /// The model of the record.
    pub open spec fn rec(&self) -> RecordModel {
        self.conf().records()[self.index()]
    }

    #[verifier::type_invariant]
    spec fn inv(self) -> bool {
        &&& self.record_index < self.conf.records().len()
        &&& self.depth == depth_of(self.conf.records(), self.record_index as int)
    }

    /// The record `k` places into the children of this one.
    pub open spec fn child_spec(&self, k: int) -> Option<int> {
        if 0 <= k < self.rec().children.len() {
            Some(self.rec().children[k] as int)
        } else {
            None
        }
    }

    /// The container of the child `k` places into the children.
    pub closed spec fn child_at(&self, k: int) -> RecordContainer<'a> {
        RecordContainer {
            record_index: self.rec().children[k],
            conf: self.conf,
            depth: (self.depth + 1) as usize,
        }
    }

    /// The container of the top record.
    pub fn new_root(conf: &'a Conf) -> (r: Self)
        ensures
            r == conf.root_container(),
            r.conf() == conf,
            r.index() == 0,
            r.depth_model() == 0,
    {
        proof {
            use_type_invariant(conf);
        }
        Self { conf, record_index: 0, depth: 0 }
    }

    /// The depth of the record.
    pub fn depth(&self) -> (r: usize)
        ensures
            r == self.depth_model(),
            r == depth_of(self.conf().records(), self.index()),
            0 <= self.index() < self.conf().records().len(),
            tree_wf(self.conf().records()),
    {
        proof {
            use_type_invariant(self);
            use_type_invariant(self.conf);
        }
        self.depth
    }

    /// The index of the record among the configuration's records.
    pub fn record_index(&self) -> (r: usize)
        ensures
            r == self.index(),
    {
        self.record_index
    }

    /// The value at `value_index`, if the record has that many.
    pub fn value(&self, value_index: usize) -> (r: Option<&'a Value>)
        ensures
            r is Some <==> value_index < self.rec().values.len(),
            r matches Some(v) ==> v@ == self.rec().values[value_index as int],
    {
        proof {
            use_type_invariant(self);
        }
        let rec = self.conf.record(self.record_index);
        if value_index < rec.values.len() {
            Some(&rec.values[value_index])
        } else {
            None
        }
    }

    /// How many values the record has.
    pub fn value_count(&self) -> (r: usize)
        ensures
            r == self.rec().values.len(),
    {
        proof {
            use_type_invariant(self);
        }
        self.conf.record(self.record_index).values.len()
    }

    /// The child at `child_index`, if the record has that many.
    pub fn child(&self, child_index: usize) -> (r: Option<RecordContainer<'a>>)
        ensures
            match self.child_spec(child_index as int) {
                Some(c) => r matches Some(x) && x.conf() == self.conf() && x.index() == c
                    && x.depth_model() == self.depth_model() + 1 && x == self.child_at(child_index as int)
                    && x.rec().values.len() >= 1,
                None => r is None,
            },
    {
        proof {
            use_type_invariant(self);
            use_type_invariant(self.conf);
        }
        let rec = self.conf.record(self.record_index);
        if child_index < rec.children.len() {
            let c = rec.children[child_index];
            proof {
                let rs = self.conf.records();
                assert(rs[c as int].parent == Some(self.record_index));
                assert(depth_of(rs, c as int) == 1 + depth_of(rs, self.record_index as int));
                lemma_depth_le(rs, c as int);
            }
            Some(RecordContainer { conf: self.conf, record_index: c, depth: self.depth + 1 })
        } else {
            None
        }
    }

    /// How many children the record has.
    pub fn child_count(&self) -> (r: usize)
        ensures
            r == self.rec().children.len(),
    {
        proof {
            use_type_invariant(self);
        }
        self.conf.record(self.record_index).children.len()
    }

    /// The record this one is nested under; none for the top record.
    pub fn parent(&self) -> (r: Option<RecordContainer<'a>>)
        ensures
            match self.rec().parent {
                Some(pi) => r matches Some(x) && x.conf() == self.conf() && x.index() == pi
                    && x.depth_model() == self.depth_model() - 1,
                None => r is None,
            },
    {
        proof {
            use_type_invariant(self);
            use_type_invariant(self.conf);
        }
        match self.conf.record(self.record_index).parent {
            Some(pi) => {
                proof {
                    let rs = self.conf.records();
                    assert(self.record_index >= 1);
                }
                Some(RecordContainer { conf: self.conf, record_index: pi, depth: self.depth - 1 })
            },
            None => None,
        }
    }

    /// The ancestor `ancestor_index + 1` levels up: the parent for 0, the
    /// parent's parent for 1, and so on.
    pub fn ancestor(&self, ancestor_index: usize) -> (r: Option<RecordContainer<'a>>)
        ensures
            match climb(self.conf().records(), Some(self.index() as usize), (ancestor_index + 1) as nat) {
                Some(a) => r matches Some(x) && x.conf() == self.conf() && x.index() == a,
                None => r is None,
            },
    {
        proof {
            use_type_invariant(self);
        }
        let mut cur = self.parent();
        let mut i: usize = 0;
        proof {
            let rs = self.conf().records();
            assert(climb(rs, Some(self.index() as usize), (ancestor_index + 1) as nat) == climb(
                rs,
                rs[self.index()].parent,
                ancestor_index as nat,
            ));
        }
        loop
            invariant
                i <= ancestor_index,
                cur matches Some(y) ==> y.conf() == self.conf(),
                climb(self.conf().records(), Some(self.index() as usize), (ancestor_index + 1) as nat) == match cur {
                    Some(y) => climb(self.conf().records(), Some(y.index() as usize), (ancestor_index - i) as nat),
                    None => None,
                },
            ensures
                cur is None,
            decreases ancestor_index - i,
        {
            match cur {
                Some(x) => {
                    proof {
                        use_type_invariant(&x);
                    }
                    if i == ancestor_index {
                        return cur;
                    } else {
                        let ghost rs = self.conf().records();
                        let ghost xi = x.index();
                        cur = x.parent();
                        proof {
                            assert(climb(rs, Some(xi as usize), (ancestor_index - i) as nat) == climb(
                                rs,
                                rs[xi].parent,
                                (ancestor_index - i - 1) as nat,
                            ));
                        }
                        i += 1;
                    }
                },
                None => {
                    break;
                },
            }
        }
        None
    }

    /// An iterator over the ancestors, nearest first.
    pub fn ancestor_iter(&self) -> (r: AncestorIter<'a>)
        ensures
            r.current() == Some(*self),
    {
        AncestorIter { record: Some(*self) }
    }

    /// An iterator over the children, first to last and from either end.
    pub fn child_iter(&self) -> (r: ChildIter<'a>)
        ensures
            r.current() == *self,
            r.front() == 0,
            r.back() == self.rec().children.len(),
    {
        ChildIter { record: *self, child_index: 0, child_back_index: self.child_count() }
    }

    /// An iterator over the values, first to last.
    pub fn value_iter(&self) -> (r: ValueIter<'a>)
        ensures
            r.current() == *self,
            r.pos() == 0,
    {
        ValueIter { record: *self, value_index: 0 }
    }

    /// The path of the configuration, if known.
    pub fn path(&self) -> (r: Option<&'a str>)
        ensures
            opt_str_model(r) == self.conf().path_model(),
    {
        self.conf.path()
    }

    /// The text of the configuration, if kept.
    pub fn src(&self) -> (r: Option<&'a str>)
        ensures
            opt_str_model(r) == self.conf().src_model(),
    {
        self.conf.src()
    }
}

/// Steps through the children of a record; `child_index` is the next child
/// from the front and `child_back_index` is one past the next from the back.
pub struct ChildIter<'a> {
    child_index: usize,
    child_back_index: usize,
    record: RecordContainer<'a>,
}

impl<'a> ChildIter<'a> {
    /// The record whose children are stepped through.
    pub closed spec fn current(&self) -> RecordContainer<'a> {
        self.record
    }

    /// The position of the next child from the front.
    pub closed spec fn front(&self) -> int {
        self.child_index as int
    }

    /// One past the position of the next child from the back.
    pub closed spec fn back(&self) -> int {
        self.child_back_index as int
    }

    /// The next child from the front, until the two ends meet.
    pub fn next(&mut self) -> (r: Option<RecordContainer<'a>>)
        ensures
            final(self).current() == old(self).current(),
            final(self).back() == old(self).back(),
            match old(self).current().child_spec(old(self).front()) {
                Some(c) => if old(self).front() < old(self).back() {
                    r matches Some(x) && x.index() == c && x.conf() == old(self).current().conf()
                        && x.depth_model() == old(self).current().depth_model() + 1
                        && x == old(self).current().child_at(old(self).front())
                        && final(self).front() == old(self).front() + 1
                } else {
                    r is None && final(self).front() == old(self).front()
                },
                None => r is None && final(self).front() == old(self).front(),
            },
    {
        if let Some(child_record) = self.record.child(self.child_index) {
            if self.child_index < self.child_back_index {
                self.child_index += 1;
                Some(child_record)
            } else {
                None
            }
        } else {
            None
        }
    }

    /// The next child from the back, until the two ends meet.
    pub fn next_back(&mut self) -> (r: Option<RecordContainer<'a>>)
        ensures
            final(self).current() == old(self).current(),
            final(self).front() == old(self).front(),
            if old(self).back() > old(self).front() {
                &&& final(self).back() == old(self).back() - 1
                &&& match old(self).current().child_spec(old(self).back() - 1) {
                    Some(c) => r matches Some(x) && x.index() == c && x.conf() == old(self).current().conf()
                        && x == old(self).current().child_at(old(self).back() - 1),
                    None => r is None,
                }
            } else {
                r is None && final(self).back() == old(self).back()
            },
    {
        if self.child_back_index > self.child_index {
            self.child_back_index -= 1;
            self.record.child(self.child_back_index)
        } else {
            None
        }
    }
}

/// Steps through the ancestors of a record, nearest first.
pub struct AncestorIter<'a> {
    record: Option<RecordContainer<'a>>,
}

impl<'a> AncestorIter<'a> {
    /// The record reached so far: the start, then each ancestor in turn.
    pub closed spec fn current(&self) -> Option<RecordContainer<'a>> {
        self.record
    }

    /// The parent of the current record, which becomes the current one.
    pub fn next(&mut self) -> (r: Option<RecordContainer<'a>>)
        ensures
            r == final(self).current(),
            match old(self).current() {
                Some(x) => match x.rec().parent {
                    Some(pi) => r matches Some(y) && y.index() == pi && y.conf() == x.conf()
                        && y.depth_model() == x.depth_model() - 1,
                    None => r is None,
                },
                None => r is None,
            },
    {
        if let Some(record) = self.record {
            self.record = record.parent();
            self.record
        } else {
            None
        }
    }
}

/// The child positions that a sequence of calls gives, in order, from the
/// front position `f` and the back position `b`: `next` (true) gives the
/// front one and moves the front on, `next_back` (false) gives the one
/// before the back and moves the back down, and neither gives any once the
/// two meet.
pub open spec fn child_yields(f: int, b: int, moves: Seq<bool>) -> Seq<int>
    decreases moves.len(),
{
    if moves.len() == 0 {
        Seq::empty()
    } else if f < b {
        if moves[0] {
            seq![f] + child_yields(f + 1, b, moves.drop_first())
        } else {
            seq![b - 1] + child_yields(f, b - 1, moves.drop_first())
        }
    } else {
        child_yields(f, b, moves.drop_first())
    }
}

/// The value positions that `k` calls of `next` give from position `i` of
/// `n` values.
pub open spec fn value_yields(i: int, n: int, k: nat) -> Seq<int>
    decreases k,
{
    if k == 0 {
        Seq::empty()
    } else if i < n {
        seq![i] + value_yields(i + 1, n, (k - 1) as nat)
    } else {
        value_yields(i, n, (k - 1) as nat)
    }
}

/// Steps through the values of a record.
pub struct ValueIter<'a> {
    record: RecordContainer<'a>,
    value_index: usize,
}

impl<'a> ValueIter<'a> {
    /// The record whose values are stepped through.
    pub closed spec fn current(&self) -> RecordContainer<'a> {
        self.record
    }

    /// The position of the next value.
    pub closed spec fn pos(&self) -> int {
        self.value_index as int
    }

    /// The next value, if any is left.
    pub fn next(&mut self) -> (r: Option<&'a Value>)
        ensures
            final(self).current() == old(self).current(),
            if old(self).pos() < old(self).current().rec().values.len() {
                &&& r matches Some(v) && v@ == old(self).current().rec().values[old(self).pos()]
                &&& final(self).pos() == old(self).pos() + 1
            } else {
                r is None && final(self).pos() == old(self).pos()
            },
    {
        let n = self.record.value_count();
        if let Some(v) = self.record.value(self.value_index) {
            assert(self.value_index < n);
            self.value_index += 1;
            Some(v)
        } else {
            None
        }
    }
}

} // verus!

//! The records accepted by a walk, and read access to them.

use vstd::prelude::*;
use crate::conf::{RecordContainer, opt_str_model};
use crate::parser::Value;

verus! {

/// A record accepted by a walk: the configuration record, the values that
/// were parsed by name (by value index), the node of the schema that
/// accepted it, and where it stands in the tree of accepted records.
pub struct WalkerRecord<'r, P> {
    pub record: RecordContainer<'r>,
    pub parsed_values: Vec<Option<P>>,
    pub parsed_names: Vec<Option<String>>,
    pub node_vals_len: usize,
    pub has_tag: bool,
    pub has_repeat: bool,
    pub parent: Option<usize>,
    pub children: Vec<usize>,
    pub node_label: String,
    pub branch_label: String,
    pub depth: usize,
    pub order: usize,
}

/// Accepted records that point only at each other and hold configuration
/// records with at least one value; a parent comes before its children,
/// which lie one level deeper, and a record without a parent is at depth 0.
pub open spec fn walker_records_wf<'r, P>(wrs: Seq<WalkerRecord<'r, P>>) -> bool {
    forall|k: int|
        0 <= k < wrs.len() ==> {
            &&& (#[trigger] wrs[k]).parent matches Some(p) ==> p < wrs.len()
            &&& wrs[k].parent matches Some(p) ==> p < k && wrs[k].depth == wrs[p as int].depth + 1
            &&& wrs[k].parent is None ==> wrs[k].depth == 0
            &&& forall|j: int| 0 <= j < wrs[k].children@.len() ==> #[trigger] wrs[k].children@[j] < wrs.len()
            &&& wrs[k].record.rec().values.len() >= 1
        }
}

/// An accepted record, by index into the list of all accepted records.
pub struct WalkerRecordContainer<'w, 'r, P> {
    pub walker_record_index: usize,
    pub walker_records: &'w Vec<WalkerRecord<'r, P>>,
}

impl<'w, 'r, P> Clone for WalkerRecordContainer<'w, 'r, P> {
    fn clone(&self) -> (r: Self)
        ensures
            r == *self,
    {
        *self
    }
}

impl<'w, 'r, P> Copy for WalkerRecordContainer<'w, 'r, P> {

}

impl<'w, 'r, P> WalkerRecordContainer<'w, 'r, P> {
    /// The index names an accepted record, and the list is well formed.
    pub open spec fn wf(&self) -> bool {
        &&& self.walker_record_index < self.walker_records@.len()
        &&& walker_records_wf(self.walker_records@)
    }

    /// The accepted record.
    pub open spec fn wr(&self) -> WalkerRecord<'r, P> {
        self.walker_records@[self.walker_record_index as int]
    }

    /// The index of a value, counted after the tag when the record has one.
    pub open spec fn shifted(&self, value_index: int) -> int {
        if self.wr().has_tag {
            value_index + 1
        } else {
            value_index
        }
    }

    /// The label of the schema node that accepted the record.
    pub fn label(&self) -> (r: &str)
        requires
            self.wf(),
        ensures
            r@ == self.wr().node_label@,
    {
        self.walker_record().node_label.as_str()
    }

    /// The label of the schema branch that accepted the record.
    pub fn branch(&self) -> (r: &str)
        requires
            self.wf(),
        ensures
            r@ == self.wr().branch_label@,
    {
        self.walker_record().branch_label.as_str()
    }

    fn walker_record(&self) -> (r: &'w WalkerRecord<'r, P>)
        requires
            self.wf(),
        ensures
            *r == self.wr(),
    {
        &self.walker_records[self.walker_record_index]
    }

    fn parent_walker_record(&self) -> (r: Option<&'w WalkerRecord<'r, P>>)
        requires
            self.wf(),
        ensures
            match self.wr().parent {
                Some(p) => r matches Some(x) && *x == self.walker_records@[p as int],
                None => r is None,
            },
    {
        let parent = self.walker_record().parent;
        if let Some(parent) = parent {
            Some(&self.walker_records[parent])
        } else {
            None
        }
    }

    /// The index of the accepted record.
    pub fn walker_record_index(&self) -> (r: usize)
        ensures
            r == self.walker_record_index,
    {
        self.walker_record_index
    }

    /// The accepted child at `child_index`, if there are that many.
    pub fn get_child(&self, child_index: usize) -> (r: Option<WalkerRecordContainer<'w, 'r, P>>)
        requires
            self.wf(),
        ensures
            if child_index < self.wr().children@.len() {
                r matches Some(x) && x.walker_records == self.walker_records
                    && x.walker_record_index == self.wr().children@[child_index as int] && x.wf()
            } else {
                r is None
            },
    {
        let wr = self.walker_record();
        if child_index < wr.children.len() {
            let child_record_index = wr.children[child_index];
            Some(Self { walker_records: self.walker_records, walker_record_index: child_record_index })
        } else {
            None
        }
    }

    /// How many accepted children there are.
    pub fn child_num(&self) -> (r: usize)
        requires
            self.wf(),
        ensures
            r == self.wr().children@.len(),
    {
        self.walker_record().children.len()
    }

    /// The accepted parent, if any.
    pub fn get_parent(&self) -> (r: Option<WalkerRecordContainer<'w, 'r, P>>)
        requires
            self.wf(),
        ensures
            match self.wr().parent {
                Some(p) => r matches Some(x) && x.walker_records == self.walker_records
                    && x.walker_record_index == p && x.wf(),
                None => r is None,
            },
    {
        if let Some(parent_record_index) = self.walker_records[self.walker_record_index].parent {
            Some(Self { walker_records: self.walker_records, walker_record_index: parent_record_index })
        } else {
            None
        }
    }

    /// The accepted ancestor `ancestor_index + 1` levels up.
    pub fn get_ancestor(&self, ancestor_index: usize) -> (r: Option<WalkerRecordContainer<'w, 'r, P>>)
        requires
            self.wf(),
        ensures
            match walker_climb(self.walker_records@, Some(self.walker_record_index), (ancestor_index + 1) as nat) {
                Some(a) => r matches Some(x) && x.walker_records == self.walker_records
                    && x.walker_record_index == a,
                None => r is None,
            },
            r is Some <==> ancestor_index < self.wr().depth,
            r matches Some(x) ==> x.wf() && x.wr().depth + ancestor_index + 1 == self.wr().depth,
    {
        proof {
            lemma_climb_depth(self.walker_records@, self.walker_record_index, (ancestor_index + 1) as nat);
        }
        let mut cur = self.get_parent();
        let mut i: usize = 0;
        proof {
            assert(walker_climb(self.walker_records@, Some(self.walker_record_index), (ancestor_index + 1) as nat)
                == walker_climb(self.walker_records@, self.wr().parent, ancestor_index as nat));
        }
        loop
            invariant
                i <= ancestor_index,
                cur matches Some(y) ==> y.walker_records == self.walker_records && y.wf(),
                walker_climb(self.walker_records@, Some(self.walker_record_index), (ancestor_index + 1) as nat) is Some
                    <==> ancestor_index < self.wr().depth,
                walker_climb(self.walker_records@, Some(self.walker_record_index), (ancestor_index + 1) as nat) matches Some(a)
                    ==> a < self.walker_records@.len() && self.walker_records@[a as int].depth + ancestor_index + 1
                    == self.wr().depth,
                walker_climb(self.walker_records@, Some(self.walker_record_index), (ancestor_index + 1) as nat)
                    == match cur {
                    Some(y) => walker_climb(self.walker_records@, Some(y.walker_record_index), (ancestor_index - i) as nat),
                    None => None,
                },
            ensures
                cur is None,
            decreases ancestor_index - i,
        {
            match cur {
                Some(x) => {
                    if i == ancestor_index {
                        return cur;
                    } else {
                        proof {
                            assert(walker_climb(self.walker_records@, Some(x.walker_record_index), (ancestor_index - i) as nat)
                                == walker_climb(self.walker_records@, x.wr().parent, (ancestor_index - i - 1) as nat));
                        }
                        cur = x.get_parent();
                        i += 1;
                    }
                },
                None => {
                    break;
                },
            }
        }
        None
    }

    /// The depth of the accepted record: records accepted at the start of a
    /// walk are at depth 0.
    pub fn depth(&self) -> (r: usize)
        requires
            self.wf(),
        ensures
            r == self.wr().depth,
    {
        self.walker_record().depth
    }

    /// The path of the configuration the record came from, if known.
    pub fn path(&self) -> (r: Option<&'r str>)
        requires
            self.wf(),
        ensures
            opt_str_model(r) == self.wr().record.conf().path_model(),
    {
        self.walker_record().record.path()
    }

    /// The position of the record in the walk, counting every record
    /// visited, accepted or not.
    pub fn order(&self) -> (r: usize)
        requires
            self.wf(),
        ensures
            r == self.wr().order,
    {
        self.walker_record().order
    }

    /// Whether the record was accepted by a tagged node: then its first value
    /// is the tag.
    pub fn has_tag(&self) -> (r: bool)
        requires
            self.wf(),
        ensures
            r == self.wr().has_tag,
    {
        self.walker_record().has_tag
    }

    /// The tag, or the empty text when there is none.
    pub fn tag(&self) -> (r: &str)
        requires
            self.wf(),
        ensures
            r@ == if self.wr().has_tag {
                self.wr().record.rec().values[0].text
            } else {
                Seq::empty()
            },
    {
        if self.has_tag() {
            self.get_tag_val().unwrap().extracted.as_str()
        } else {
            proof {
                reveal_strlit("");
            }
            ""
        }
    }

    /// The tag of the accepted parent, or the empty text when there is no
    /// parent or it has no tag.
    pub fn parent_tag(&self) -> (r: &str)
        requires
            self.wf(),
        ensures
            r@ == match self.wr().parent {
                Some(p) => if self.walker_records@[p as int].has_tag {
                    self.walker_records@[p as int].record.rec().values[0].text
                } else {
                    Seq::empty()
                },
                None => Seq::empty(),
            },
    {
        proof {
            reveal_strlit("");
        }
        if let Some(parent_walker_record) = self.parent_walker_record() {
            if parent_walker_record.has_tag {
                return parent_walker_record.record.value(0).unwrap().extracted.as_str();
            }
        }
        ""
    }

    /// The tag value, when the record has a tag.
    pub fn get_tag_val(&self) -> (r: Option<&'r Value>)
        requires
            self.wf(),
        ensures
            if self.wr().has_tag {
                r matches Some(v) && v@ == self.wr().record.rec().values[0]
            } else {
                r is None
            },
    {
        if self.has_tag() {
            self.walker_record().record.value(0)
        } else {
            None
        }
    }

    /// The value at `value_index`, counted after the tag.
    pub fn get_val(&self, value_index: usize) -> (r: Option<&'r Value>)
        requires
            self.wf(),
            self.wr().has_tag ==> value_index < usize::MAX,
        ensures
            if 0 <= self.shifted(value_index as int) < self.wr().record.rec().values.len() {
                r matches Some(v) && v@ == self.wr().record.rec().values[self.shifted(
                    value_index as int,
                )]
            } else {
                r is None
            },
    {
        let value_index = if self.has_tag() {
            value_index + 1
        } else {
            value_index
        };
        self.walker_record().record.value(value_index)
    }

    /// How many values there are after the tag.
    pub fn val_num(&self) -> (r: usize)
        requires
            self.wf(),
        ensures
            r == self.wr().record.rec().values.len() - if self.wr().has_tag { 1int } else { 0 },
    {
        let c = self.walker_record().record.value_count();
        if self.has_tag() {
            c - 1
        } else {
            c
        }
    }

    /// The text of the value at `value_index`, counted after the tag, or the
    /// empty text when there is no such value.
    pub fn str(&self, value_index: usize) -> (r: &str)
        requires
            self.wf(),
            self.wr().has_tag ==> value_index < usize::MAX,
        ensures
            r@ == if 0 <= self.shifted(value_index as int) < self.wr().record.rec().values.len() {
                self.wr().record.rec().values[self.shifted(value_index as int)].text
            } else {
                Seq::empty()
            },
    {
        proof {
            reveal_strlit("");
        }
        match self.get_str(value_index) {
            Some(s) => s,
            None => "",
        }
    }

    /// The text of the value at `value_index`, counted after the tag.
    pub fn get_str(&self, value_index: usize) -> (r: Option<&'r str>)
        requires
            self.wf(),
            self.wr().has_tag ==> value_index < usize::MAX,
        ensures
            if 0 <= self.shifted(value_index as int) < self.wr().record.rec().values.len() {
                r matches Some(s) && s@ == self.wr().record.rec().values[self.shifted(
                    value_index as int,
                )].text
            } else {
                r is None
            },
    {
        match self.get_val(value_index) {
            Some(x) => Some(x.extracted.as_str()),
            None => None,
        }
    }

    /// The text of the parent's value at `value_index`, shifted past a tag
    /// when this record has one, or the empty text.
    pub fn parent_str(&self, value_index: usize) -> (r: &str)
        requires
            self.wf(),
            self.wr().has_tag ==> value_index < usize::MAX,
        ensures
            r@ == match self.wr().parent {
                Some(p) => {
                    let pr = self.walker_records@[p as int].record.rec();
                    let i = self.shifted(value_index as int);
                    if 0 <= i < pr.values.len() {
                        pr.values[i].text
                    } else {
                        Seq::empty()
                    }
                },
                None => Seq::empty(),
            },
    {
        proof {
            reveal_strlit("");
        }
        let value_index = if self.has_tag() {
            value_index + 1
        } else {
            value_index
        };
        match self.parent_walker_record() {
            Some(w) => match w.record.value(value_index) {
                Some(x) => x.extracted.as_str(),
                None => "",
            },
            None => "",
        }
    }

    /// The value parsed from the value at `value_index`, counted after the
    /// tag, if it was parsed by name.
    pub fn get_parsed(&self, value_index: usize) -> (r: Option<&'w P>)
        requires
            self.wf(),
            self.wr().has_tag ==> value_index < usize::MAX,
        ensures
            ({
                let i = self.shifted(value_index as int);
                if 0 <= i < self.wr().parsed_values@.len() {
                    match self.wr().parsed_values@[i] {
                        Some(x) => r == Some(&x),
                        None => r is None,
                    }
                } else {
                    r is None
                }
            }),
    {
        let value_index = if self.has_tag() {
            value_index + 1
        } else {
            value_index
        };
        let wr = self.walker_record();
        if value_index < wr.parsed_values.len() {
            match &wr.parsed_values[value_index] {
                Some(x) => Some(x),
                None => None,
            }
        } else {
            None
        }
    }

    /// The name the value at `value_index`, counted after the tag, was
    /// parsed by, if any.
    pub fn parsed_name(&self, value_index: usize) -> (r: Option<&'w str>)
        requires
            self.wf(),
            self.wr().has_tag ==> value_index < usize::MAX,
        ensures
            ({
                let i = self.shifted(value_index as int);
                if 0 <= i < self.wr().parsed_names@.len() {
                    match self.wr().parsed_names@[i] {
                        Some(x) => r matches Some(s) && s@ == x@,
                        None => r is None,
                    }
                } else {
                    r is None
                }
            }),
    {
        let value_index = if self.has_tag() {
            value_index + 1
        } else {
            value_index
        };
        let wr = self.walker_record();
        if value_index < wr.parsed_names.len() {
            match &wr.parsed_names[value_index] {
                Some(x) => Some(x.as_str()),
                None => None,
            }
        } else {
            None
        }
    }
}

/// Climbing from an accepted record reaches an accepted record exactly as
/// many levels as the record lies deep, and each step up is one level less
/// deep: the last one reached is at depth 0.
pub proof fn lemma_climb_depth<'r, P>(wrs: Seq<WalkerRecord<'r, P>>, i: usize, n: nat)
    requires
        walker_records_wf(wrs),
        i < wrs.len(),
    ensures
        walker_climb(wrs, Some(i), n) is Some <==> n <= wrs[i as int].depth,
        walker_climb(wrs, Some(i), n) matches Some(a) ==> a < wrs.len() && wrs[a as int].depth + n
            == wrs[i as int].depth,
    decreases n,
{
    if n > 0 {
        match wrs[i as int].parent {
            Some(p) => {
                lemma_climb_depth(wrs, p, (n - 1) as nat);
            },
            None => {
                assert(walker_climb(wrs, None, (n - 1) as nat) is None) by {
                    reveal_with_fuel(walker_climb, 2);
                }
            },
        }
    }
}

/// The accepted record `n` levels up from `cp`.
pub open spec fn walker_climb<'r, P>(wrs: Seq<WalkerRecord<'r, P>>, cp: Option<usize>, n: nat) -> Option<usize>
    decreases n,
{
    if n == 0 {
        cp
    } else {
        match cp {
            Some(i) => if i < wrs.len() {
                walker_climb(wrs, wrs[i as int].parent, (n - 1) as nat)
            } else {
                None
            },
            None => None,
        }
    }
}

} // verus!

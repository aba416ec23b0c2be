//! Comparing records by where they are: the path of their configuration,
//! then the location of their first value.

use vstd::prelude::*;
use core::cmp::Ordering;
use crate::conf::{RecordContainer, opt_str_model};
use crate::error_order::{same_path, path_order, loc_order, nat_order, sign, path_order_exec, loc_order_exec, usize_order};

verus! {

/// The ordering of sign `s`.
pub open spec fn ordering_of(s: int) -> Ordering {
    if s < 0 {
        Ordering::Less
    } else if s > 0 {
        Ordering::Greater
    } else {
        Ordering::Equal
    }
}

/// The ordering of a small sign.
pub open spec fn ordering_small(s: i8) -> Ordering {
    if s < 0 {
        Ordering::Less
    } else if s > 0 {
        Ordering::Greater
    } else {
        Ordering::Equal
    }
}

/// The ordering of a sign computed at run time.
fn to_ordering(s: i8) -> (r: Ordering)
    ensures
        r == ordering_small(s),
{
    if s < 0 {
        Ordering::Less
    } else if s > 0 {
        Ordering::Greater
    } else {
        Ordering::Equal
    }
}

impl<'a> RecordContainer<'a> {
    /// Whether two records are at the same place: the same path and the same
    /// offset of their first value.
    pub fn eq(&self, other: &Self) -> (r: bool)
        requires
            self.rec().values.len() >= 1,
            other.rec().values.len() >= 1,
        ensures
            r == (same_path(self.conf().path_model(), other.conf().path_model()) && self.rec().values[0].start.pos
                == other.rec().values[0].start.pos),
    {
        let p = path_order_exec(self.path(), other.path());
        proof {
            crate::error_order::lemma_path_order_zero(self.conf().path_model(), other.conf().path_model());
        }
        p == 0 && self.value(0).unwrap().start_loc.pos == other.value(0).unwrap().start_loc.pos
    }

    /// How two records compare by path, then by the offset of their first
    /// value.
    pub fn partial_cmp(&self, other: &Self) -> (r: Option<Ordering>)
        requires
            self.rec().values.len() >= 1,
            other.rec().values.len() >= 1,
        ensures
            r == Some(
                ordering_of(
                    if path_order(self.conf().path_model(), other.conf().path_model()) != 0 {
                        path_order(self.conf().path_model(), other.conf().path_model())
                    } else {
                        nat_order(self.rec().values[0].start.pos, other.rec().values[0].start.pos)
                    },
                ),
            ),
    {
        let p = path_order_exec(self.path(), other.path());
        if p != 0 {
            return Some(to_ordering(p));
        }
        let a = self.value(0).unwrap().start_loc.pos;
        let b = other.value(0).unwrap().start_loc.pos;
        Some(to_ordering(usize_order(a, b)))
    }

    /// How two records compare by path, then by the location of their first
    /// value, field by field.
    pub fn cmp(&self, other: &Self) -> (r: Ordering)
        requires
            self.rec().values.len() >= 1,
            other.rec().values.len() >= 1,
        ensures
            r == ordering_of(
                if path_order(self.conf().path_model(), other.conf().path_model()) != 0 {
                    path_order(self.conf().path_model(), other.conf().path_model())
                } else {
                    loc_order(self.rec().values[0].start, other.rec().values[0].start)
                },
            ),
    {
        let p = path_order_exec(self.path(), other.path());
        if p != 0 {
            return to_ordering(p);
        }
        let a = self.value(0).unwrap().start_loc;
        let b = other.value(0).unwrap().start_loc;
        to_ordering(loc_order_exec(&a, &b))
    }
}

} // verus!

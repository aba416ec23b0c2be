//! What a walk expected and did not find.

use vstd::prelude::*;
use crate::loc::Loc;
use crate::conf::{RecordContainer, opt_string_model, opt_str_model};
use crate::error_order::{
    exp_loc, group_exps, dedup_exps, sort_exps, ins_pos, exp_order_exec, exp_same_exec, path_order_exec,
    path_index, lemma_path_index, lemma_path_index_prefix, lemma_path_order_zero, same_path, exp_path, order_ok,
    same_ok, carries, payload_free,
};
use crate::text::string_from_str;

verus! {

/// What was wrong with a record.
#[derive(Debug)]
pub enum WalkerErrorType<E> {
    ParamsIncorrectNum,
    ParamParseError,
    ChildrenNotExpected,
    ChildrenExpected,
    Custom(E),
    CustomInvalidValInd(usize, E),
    Unknown,
    ExpectedTagOnce,
}

/// A copy of an error kind, cloning the payload.
pub fn copy_error_type<E: Clone>(t: &WalkerErrorType<E>) -> (r: WalkerErrorType<E>)
    ensures
        same_error_type(*t, r),
{
    match t {
        WalkerErrorType::ParamsIncorrectNum => WalkerErrorType::ParamsIncorrectNum,
        WalkerErrorType::ParamParseError => WalkerErrorType::ParamParseError,
        WalkerErrorType::ChildrenNotExpected => WalkerErrorType::ChildrenNotExpected,
        WalkerErrorType::ChildrenExpected => WalkerErrorType::ChildrenExpected,
        WalkerErrorType::Custom(e) => WalkerErrorType::Custom(e.clone()),
        WalkerErrorType::CustomInvalidValInd(i, e) => WalkerErrorType::CustomInvalidValInd(*i, e.clone()),
        WalkerErrorType::Unknown => WalkerErrorType::Unknown,
        WalkerErrorType::ExpectedTagOnce => WalkerErrorType::ExpectedTagOnce,
    }
}

/// `b` is `a`, with its payload cloned.
pub open spec fn same_error_type<E: Clone>(a: WalkerErrorType<E>, b: WalkerErrorType<E>) -> bool {
    match a {
        WalkerErrorType::Custom(x) => b matches WalkerErrorType::Custom(y) && cloned(x, y),
        WalkerErrorType::CustomInvalidValInd(i, x) => b matches WalkerErrorType::CustomInvalidValInd(
            j,
            y,
        ) && i == j && cloned(x, y),
        _ => b == a,
    }
}

/// A tree of errors by path.
pub struct WalkerErrorNode<E> {
    pub path: Option<String>,
    pub loc: Option<Loc>,
    pub nodes: Vec<WalkerErrorNode<E>>,
    pub error_type: Option<WalkerErrorType<E>>,
}

/// One error found by a walk: what was wrong and where.
#[derive(Debug)]
pub struct WalkerError<E> {
    pub error_type: WalkerErrorType<E>,
    pub loc: Loc,
}

/// The errors found by a walk, grouped by the path of the configuration
/// they were found in.
#[derive(Debug)]
pub struct WalkerErrors<E> {
    pub paths: Vec<Option<String>>,
    pub errors: Vec<Vec<WalkerError<E>>>,
}

/// An error to report: the record, the index of the value it is about, and
/// what was wrong.
pub struct Expectation<'a, E> {
    pub record: RecordContainer<'a>,
    pub error_type: WalkerErrorType<E>,
    pub val_ind: usize,
}

/// The errors of a walk, with marks to drop the errors found since a mark
/// when an alternative turns out to be accepted after all.
pub struct Expecter<'a, E> {
    expects: Vec<Expectation<'a, E>>,
    hists: Vec<usize>,
}

impl<'a, E> Expecter<'a, E> {
    /// The errors found so far, in order.
    pub closed spec fn expects(&self) -> Seq<Expectation<'a, E>> {
        self.expects@
    }

    /// The marks, as the number of errors at the time each was set.
    pub closed spec fn hists(&self) -> Seq<usize> {
        self.hists@
    }

    /// Marks never exceed the number of errors, and later marks are not
    /// lower; every error is about a value its record has.
    pub closed spec fn wf(&self) -> bool {
        &&& forall|i: int| 0 <= i < self.hists@.len() ==> #[trigger] self.hists@[i] <= self.expects@.len()
        &&& forall|i: int, j: int| 0 <= i <= j < self.hists@.len() ==> #[trigger] self.hists@[i] <= #[trigger] self.hists@[j]
        &&& forall|i: int| 0 <= i < self.expects@.len() ==> (#[trigger] self.expects@[i]).val_ind
            < self.expects@[i].record.rec().values.len()
    }

    /// No errors, and one mark at the start.
    pub fn new() -> (r: Self)
        ensures
            r.wf(),
            r.expects() == Seq::<Expectation<'a, E>>::empty(),
            r.hists() == seq![0usize],
    {
        let mut hists = Vec::new();
        hists.push(0);
        let r = Self { expects: Vec::new(), hists };
        assert(r.hists@ =~= seq![0usize]);
        r
    }

    /// Whether any error was found.
    pub fn has_errors(&self) -> (r: bool)
        ensures
            r == (self.expects().len() > 0),
    {
        self.expects.len() > 0
    }

    /// Sets a mark at the current number of errors.
    pub fn push(&mut self)
        requires
            old(self).wf(),
        ensures
            final(self).wf(),
            final(self).expects() == old(self).expects(),
            final(self).hists() == old(self).hists().push(old(self).expects().len() as usize),
    {
        let n = self.expects.len();
        self.hists.push(n);
    }

    /// Drops the last mark and keeps the errors found since.
    pub fn pop_keep(&mut self)
        requires
            old(self).wf(),
        ensures
            final(self).wf(),
            final(self).expects() == old(self).expects(),
            final(self).hists() == if old(self).hists().len() > 0 {
                old(self).hists().drop_last()
            } else {
                old(self).hists()
            },
    {
        self.hists.pop();
        proof {
            assert(self.hists@ =~= if old(self).hists().len() > 0 {
                old(self).hists().drop_last()
            } else {
                old(self).hists()
            });
        }
    }

    /// Drops the last mark and the errors found since it was set.
    pub fn pop_discard(&mut self)
        requires
            old(self).wf(),
            old(self).hists().len() > 0,
        ensures
            final(self).wf(),
            final(self).expects() == old(self).expects().take(old(self).hists().last() as int),
            final(self).hists() == old(self).hists().drop_last(),
    {
        let ind = self.hists.pop().unwrap();
        self.expects.truncate(ind);
        proof {
            assert(self.expects@ =~= old(self).expects().take(ind as int));
        }
    }

    /// Adds the error `error_type` about value `val_ind` of `record`.
    pub fn expect(&mut self, record: RecordContainer<'a>, val_ind: usize, error_type: WalkerErrorType<E>)
        requires
            old(self).wf(),
            val_ind < record.rec().values.len(),
        ensures
            final(self).wf(),
            final(self).expects() == old(self).expects().push(Expectation { record, error_type, val_ind }),
            final(self).hists() == old(self).hists(),
    {
        self.expects.push(Expectation { record, val_ind, error_type });
    }
}

/// The errors at the indices `idx`.
pub open spec fn pick<'a, E>(exps: Seq<Expectation<'a, E>>, idx: Seq<usize>) -> Seq<Expectation<'a, E>> {
    idx.map_values(|i: usize| exps[i as int])
}

/// Picking after inserting an index is inserting the error it names.
pub proof fn lemma_pick_insert<'a, E>(exps: Seq<Expectation<'a, E>>, idx: Seq<usize>, at: int, k: usize)
    requires
        0 <= at <= idx.len(),
    ensures
        pick(exps, idx.insert(at, k)) == pick(exps, idx).insert(at, exps[k as int]),
{
    assert(pick(exps, idx.insert(at, k)) =~= pick(exps, idx).insert(at, exps[k as int]));
}

/// Picking after pushing an index is pushing the error it names.
pub proof fn lemma_pick_push<'a, E>(exps: Seq<Expectation<'a, E>>, idx: Seq<usize>, k: usize)
    ensures
        pick(exps, idx.push(k)) == pick(exps, idx).push(exps[k as int]),
{
    assert(pick(exps, idx.push(k)) =~= pick(exps, idx).push(exps[k as int]));
}

/// The reported errors are the groups `g`: the same paths in the same
/// order, and for each error its location and a copy of its kind.
pub open spec fn errors_are<'a, E: Clone>(r: WalkerErrors<E>, g: (Seq<Option<Seq<char>>>, Seq<Seq<Expectation<'a, E>>>)) -> bool {
    &&& r.paths@.map_values(|p: Option<String>| opt_string_model(p)) == g.0
    &&& r.errors@.len() == g.1.len()
    &&& forall|i: int|
        0 <= i < g.1.len() ==> {
            &&& (#[trigger] r.errors@[i])@.len() == g.1[i].len()
            &&& forall|j: int|
                0 <= j < g.1[i].len() ==> {
                    &&& (#[trigger] r.errors@[i]@[j]).loc@ == exp_loc(g.1[i][j])
                    &&& same_error_type(g.1[i][j].error_type, r.errors@[i]@[j].error_type)
                }
        }
}

impl<'a, E> Expecter<'a, E> {
    /// The errors found since the last mark.
    pub closed spec fn pending(&self) -> Seq<Expectation<'a, E>> {
        self.expects@.subrange(self.hists@.last() as int, self.expects@.len() as int)
    }

    /// The index of the last mark.
    fn last_mark(&self) -> (r: usize)
        requires
            self.wf(),
            self.hists().len() > 0,
        ensures
            r == self.hists().last(),
            r <= self.expects().len(),
            self.pending() == self.expects().subrange(r as int, self.expects().len() as int),
    {
        self.hists[self.hists.len() - 1]
    }
}

impl<'a, E> Expecter<'a, E> {
    /// With only the mark at the start, every error is pending.
    pub proof fn lemma_pending_all(&self)
        requires
            self.hists() == seq![0usize],
        ensures
            self.pending() == self.expects(),
    {
        assert(self.pending() =~= self.expects());
    }
}

impl<'a, E> Expecter<'a, E> {
    /// Writes nothing to `out`: the errors are reported through
    /// `get_errors` and the text of `WalkerErrors`.
    pub fn write_fmt(&self, out: &mut String)
        ensures
            final(out)@ == old(out)@,
    {
    }
}

impl<'a, E: Ord + Clone> Expecter<'a, E> {
    /// The errors found since the last mark: sorted by path, location and
    /// kind, without repeats, grouped by path. Whatever the payloads' order,
    /// the errors given are among those found, grouped by path, and there
    /// is at least one when any was found.
    pub fn get_errors(&self) -> (r: WalkerErrors<E>)
        requires
            self.wf(),
            self.hists().len() > 0,
        ensures
            (order_ok::<E>() && same_ok::<E>()) || payload_free(self.pending()) ==> errors_are(
                r,
                group_exps(dedup_exps(sort_exps(self.pending()))),
            ),
            r.paths@.len() == r.errors@.len(),
            exists|d: Seq<Expectation<'a, E>>|
                {
                    &&& forall|i: int| 0 <= i < d.len() ==> self.pending().contains(#[trigger] d[i])
                    &&& (self.pending().len() > 0 ==> d.len() > 0)
                    &&& errors_are(r, group_exps(d))
                },
    {
        let h = self.last_mark();
        let ghost exps = self.expects@;
        let ghost pend = self.pending();
        let ghost free = payload_free(pend);
        let ghost obeys = (order_ok::<E>() && same_ok::<E>()) || free;
        let n = self.expects.len();
        proof {
            if free {
                assert forall|j: int| h <= j < n implies !carries(#[trigger] exps[j].error_type) by {
                    assert(pend[j - h] == exps[j]);
                }
            }
        }
        let mut order: Vec<usize> = Vec::new();
        let mut k = h;
        while k < n
            invariant
                h <= k <= n,
                n == exps.len(),
                exps == self.expects@,
                pend == exps.subrange(h as int, n as int),
                self.wf(),
                forall|q: int| 0 <= q < order@.len() ==> h <= #[trigger] order@[q] < n,
                order@.len() == k - h,
                obeys == ((order_ok::<E>() && same_ok::<E>()) || free),
                free ==> forall|j: int| h <= j < n ==> !carries(#[trigger] exps[j].error_type),
                obeys ==> pick(exps, order@) == sort_exps(pend.take(k - h)),
            decreases n - k,
        {
            let x = &self.expects[k];
            let ghost t = pick(exps, order@);
            let mut i: usize = 0;
            proof {
                assert(t.subrange(0, t.len() as int) =~= t);
            }
            while i < order.len() && exp_order_exec(&self.expects[order[i]], x) <= 0
                invariant
                    i <= order@.len(),
                    t == pick(exps, order@),
                    *x == exps[k as int],
                    k < n,
                    n == exps.len(),
                    exps == self.expects@,
                    self.wf(),
                    h <= k,
                    forall|q: int| 0 <= q < order@.len() ==> h <= #[trigger] order@[q] < n,
                    obeys == ((order_ok::<E>() && same_ok::<E>()) || free),
                    free ==> forall|j: int| h <= j < n ==> !carries(#[trigger] exps[j].error_type),
                    obeys ==> ins_pos(t, *x) == i + ins_pos(t.subrange(i as int, t.len() as int), *x),
                decreases order.len() - i,
            {
                proof {
                    if free {
                        assert(!carries(exps[order@[i as int] as int].error_type));
                        assert(!carries(exps[k as int].error_type));
                    }
                    let u = t.subrange(i as int, t.len() as int);
                    assert(u.subrange(1, u.len() as int) =~= t.subrange(i + 1, t.len() as int));
                    assert(u[0] == t[i as int]);
                }
                i += 1;
            }
            proof {
                if free && i < order@.len() {
                    assert(!carries(exps[order@[i as int] as int].error_type));
                    assert(!carries(exps[k as int].error_type));
                }
                if obeys && i < order@.len() {
                    let u = t.subrange(i as int, t.len() as int);
                    assert(u[0] == t[i as int]);
                }
            }
            let ghost o0 = order@;
            order.insert(i, k);
            proof {
                lemma_pick_insert(exps, o0, i as int, k);
                assert(pend.take(k + 1 - h) =~= pend.take(k - h).push(exps[k as int]));
                assert(pend.take(k + 1 - h).drop_last() =~= pend.take(k - h));
            }
            k += 1;
        }
        proof {
            assert(pend.take(k - h) =~= pend);
        }
        let ghost sorted = pick(exps, order@);
        let mut kept: Vec<usize> = Vec::new();
        let mut t: usize = 0;
        while t < order.len()
            invariant
                t <= order@.len(),
                sorted == pick(exps, order@),
                n == exps.len(),
                exps == self.expects@,
                self.wf(),
                forall|q: int| 0 <= q < order@.len() ==> h <= #[trigger] order@[q] < n,
                forall|q: int| 0 <= q < kept@.len() ==> h <= #[trigger] kept@[q] < n,
                order@.len() == n - h,
                t > 0 ==> kept@.len() > 0,
                obeys == ((order_ok::<E>() && same_ok::<E>()) || free),
                free ==> forall|j: int| h <= j < n ==> !carries(#[trigger] exps[j].error_type),
                obeys ==> pick(exps, kept@) == dedup_exps(sorted.take(t as int)),
            decreases order.len() - t,
        {
            let e = &self.expects[order[t]];
            let ghost d = pick(exps, kept@);
            proof {
                assert(sorted.take(t + 1).drop_last() =~= sorted.take(t as int));
                assert(sorted.take(t + 1).last() == exps[order@[t as int] as int]);
            }
            let skip = kept.len() > 0 && exp_same_exec(e, &self.expects[kept[kept.len() - 1]]);
            proof {
                if free {
                    assert(!carries(exps[order@[t as int] as int].error_type));
                    if kept@.len() > 0 {
                        assert(!carries(exps[kept@[kept@.len() - 1] as int].error_type));
                    }
                }
                if kept@.len() > 0 {
                    assert(d.last() == exps[kept@[kept@.len() - 1] as int]);
                }
            }
            if !skip {
                let ghost k0 = kept@;
                kept.push(order[t]);
                proof {
                    lemma_pick_push(exps, k0, order@[t as int]);
                }
            }
            t += 1;
        }
        proof {
            assert(sorted.take(t as int) =~= sorted);
        }
        let ghost dd = pick(exps, kept@);
        let mut paths: Vec<Option<String>> = Vec::new();
        let mut errors: Vec<Vec<WalkerError<E>>> = Vec::new();
        let mut t: usize = 0;
        proof {
            assert(paths@.map_values(|p: Option<String>| opt_string_model(p)) =~= Seq::<Option<Seq<char>>>::empty());
        }
        while t < kept.len()
            invariant
                t <= kept@.len(),
                dd == pick(exps, kept@),
                n == exps.len(),
                exps == self.expects@,
                self.wf(),
                forall|q: int| 0 <= q < kept@.len() ==> h <= #[trigger] kept@[q] < n,
                h <= n,
                pend == exps.subrange(h as int, n as int),
                errors_are(WalkerErrors { paths, errors }, group_exps(dd.take(t as int))),
                paths@.len() == errors@.len(),
            decreases kept.len() - t,
        {
            let e = &self.expects[kept[t]];
            let ghost g0 = group_exps(dd.take(t as int));
            proof {
                assert(dd.take(t + 1).drop_last() =~= dd.take(t as int));
                assert(dd.take(t + 1).last() == *e);
                assert(e.val_ind < e.record.rec().values.len());
                lemma_path_index(g0.0, exp_path(*e));
            }
            let p = e.record.path();
            let loc = e.record.value(e.val_ind).unwrap().start_loc;
            let err = WalkerError { error_type: copy_error_type(&e.error_type), loc };
            let mut q: usize = 0;
            let mut found = false;
            while q < paths.len() && !found
                invariant
                    q <= paths@.len(),
                    paths@.map_values(|p: Option<String>| opt_string_model(p)) == g0.0,
                    found ==> q > 0 && same_path(g0.0[q - 1], opt_str_model(p)) && path_index(g0.0.take(q - 1), opt_str_model(p)) is None,
                    !found ==> path_index(g0.0.take(q as int), opt_str_model(p)) is None,
                decreases paths.len() - q,
            {
                let pq = match &paths[q] {
                    Some(s) => Some(s.as_str()),
                    None => None,
                };
                assert(opt_str_model(pq) == g0.0[q as int]);
                proof {
                    lemma_path_order_zero(opt_str_model(p), opt_str_model(pq));
                    assert(g0.0.take(q + 1).drop_last() =~= g0.0.take(q as int));
                }
                if path_order_exec(p, pq) == 0 {
                    found = true;
                }
                q += 1;
            }
            proof {
                if found {
                    assert(g0.0.take(q as int).drop_last() =~= g0.0.take(q - 1));
                    assert(path_index(g0.0.take(q as int), opt_str_model(p)) == Some(q - 1));
                    lemma_path_index_prefix(g0.0, q as int, opt_str_model(p));
                } else {
                    assert(g0.0.take(q as int) =~= g0.0);
                }
            }
            if found {
                let ghost e0 = errors@;
                let mut row = errors.remove(q - 1);
                row.push(err);
                errors.insert(q - 1, row);
                proof {
                    lemma_path_index_prefix(g0.0, q as int, opt_str_model(p));
                    assert(g0.0.take(q - 1).push(g0.0[q - 1]) =~= g0.0.take(q as int));
                    assert(errors@ =~= e0.update(q - 1, row));
                }
            } else {
                proof {
                    assert(g0.0.take(q as int) =~= g0.0);
                }
                let pc = match p {
                    Some(s) => Some(string_from_str(s)),
                    None => None,
                };
                let ghost pp = paths@;
                paths.push(pc);
                let mut row: Vec<WalkerError<E>> = Vec::new();
                row.push(err);
                errors.push(row);
                proof {
                    crate::walker::lemma_map_push(pp, pc, |p: Option<String>| opt_string_model(p));
                }
            }
            proof {
                let g1 = group_exps(dd.take(t + 1));
                let ee = *e;
                assert(g1 == match path_index(g0.0, exp_path(ee)) {
                    Some(i) => (g0.0, g0.1.update(i, g0.1[i].push(ee))),
                    None => (g0.0.push(exp_path(ee)), g0.1.push(seq![ee])),
                });
                assert(exp_loc(ee) == loc@);
                assert forall|i: int| 0 <= i < g1.1.len() implies {
                    &&& (#[trigger] errors@[i])@.len() == g1.1[i].len()
                    &&& forall|j: int|
                        0 <= j < g1.1[i].len() ==> {
                            &&& (#[trigger] errors@[i]@[j]).loc@ == exp_loc(g1.1[i][j])
                            &&& same_error_type(g1.1[i][j].error_type, errors@[i]@[j].error_type)
                        }
                } by {
                    if i < g0.1.len() && !(found && i == q - 1) {
                        assert(g1.1[i] == g0.1[i]);
                    } else if found && i == q - 1 {
                        assert(g1.1[i] == g0.1[i].push(ee));
                        assert forall|j: int| 0 <= j < g1.1[i].len() implies {
                            &&& (#[trigger] errors@[i]@[j]).loc@ == exp_loc(g1.1[i][j])
                            &&& same_error_type(g1.1[i][j].error_type, errors@[i]@[j].error_type)
                        } by {
                            if j < g0.1[i].len() {
                                assert(g1.1[i][j] == g0.1[i][j]);
                            }
                        }
                    } else {
                        assert(g1.1[i] == seq![ee]);
                    }
                }
            }
            t += 1;
        }
        proof {
            assert(dd.take(t as int) =~= dd);
            assert forall|i: int| 0 <= i < dd.len() implies pend.contains(#[trigger] dd[i]) by {
                assert(pend[kept@[i] - h] == dd[i]);
            }
        }
        WalkerErrors { paths, errors }
    }
}

} // verus!

//! The order in which the errors of a walk are reported, and how repeated
//! errors are dropped and the rest grouped by configuration path.

use vstd::prelude::*;
use vstd::std_specs::cmp::{OrdSpec, PartialEqSpec, PartialOrdSpec};
use core::cmp::Ordering;
use crate::loc::{Loc, LocModel};
use crate::walker_error::{Expectation, WalkerErrorType};
use crate::text::chars_of;
use crate::path::{components, path_text_order, path_text_order_exec, lemma_comps_order};

verus! {

/// The payload's order is the one its type specifies.
pub open spec fn order_ok<E: Ord>() -> bool {
    E::obeys_cmp_spec()
}

/// The payload's equality is the one its type specifies.
pub open spec fn same_ok<E: PartialEq>() -> bool {
    E::obeys_eq_spec()
}

/// Whether an error kind carries a value of the caller's type.
pub open spec fn carries<E>(t: WalkerErrorType<E>) -> bool {
    t is Custom || t is CustomInvalidValInd
}

/// None of the errors carries a value of the caller's type.
pub open spec fn payload_free<'a, E>(s: Seq<Expectation<'a, E>>) -> bool {
    forall|i: int| 0 <= i < s.len() ==> !carries(#[trigger] s[i].error_type)
}

/// The sign of an ordering: -1, 0 or 1.
pub open spec fn sign(o: Ordering) -> int {
    match o {
        Ordering::Less => -1,
        Ordering::Equal => 0,
        Ordering::Greater => 1,
    }
}

/// The rank of an error kind, in declaration order.
pub open spec fn kind_rank<E>(t: WalkerErrorType<E>) -> int {
    match t {
        WalkerErrorType::ParamsIncorrectNum => 0,
        WalkerErrorType::ParamParseError => 1,
        WalkerErrorType::ChildrenNotExpected => 2,
        WalkerErrorType::ChildrenExpected => 3,
        WalkerErrorType::Custom(_) => 4,
        WalkerErrorType::CustomInvalidValInd(_, _) => 5,
        WalkerErrorType::Unknown => 6,
        WalkerErrorType::ExpectedTagOnce => 7,
    }
}

/// How two error kinds compare: by kind, then by what they carry.
pub open spec fn kind_order<E: Ord>(a: WalkerErrorType<E>, b: WalkerErrorType<E>) -> int {
    if kind_rank(a) < kind_rank(b) {
        -1
    } else if kind_rank(a) > kind_rank(b) {
        1
    } else {
        match (a, b) {
            (WalkerErrorType::Custom(x), WalkerErrorType::Custom(y)) => sign(x.cmp_spec(&y)),
            (WalkerErrorType::CustomInvalidValInd(i, x), WalkerErrorType::CustomInvalidValInd(j, y)) => if i < j {
                -1
            } else if i > j {
                1
            } else {
                sign(x.cmp_spec(&y))
            },
            _ => 0,
        }
    }
}

/// Whether two error kinds are equal: same kind, and equal what they carry.
pub open spec fn kind_same<E: PartialEq>(a: WalkerErrorType<E>, b: WalkerErrorType<E>) -> bool {
    match (a, b) {
        (WalkerErrorType::Custom(x), WalkerErrorType::Custom(y)) => x.eq_spec(&y),
        (WalkerErrorType::CustomInvalidValInd(i, x), WalkerErrorType::CustomInvalidValInd(j, y)) => i == j
            && x.eq_spec(&y),
        (WalkerErrorType::Custom(_), _) => false,
        (WalkerErrorType::CustomInvalidValInd(_, _), _) => false,
        _ => kind_rank(a) == kind_rank(b),
    }
}

/// How two texts compare, character by character.
pub open spec fn text_order(a: Seq<char>, b: Seq<char>) -> int
    decreases a.len(),
{
    if a.len() == 0 && b.len() == 0 {
        0
    } else if a.len() == 0 {
        -1
    } else if b.len() == 0 {
        1
    } else if a[0] < b[0] {
        -1
    } else if a[0] > b[0] {
        1
    } else {
        text_order(a.subrange(1, a.len() as int), b.subrange(1, b.len() as int))
    }
}

/// How two optional paths compare: no path first, paths as file paths by
/// their components.
pub open spec fn path_order(a: Option<Seq<char>>, b: Option<Seq<char>>) -> int {
    match (a, b) {
        (None, None) => 0,
        (None, Some(_)) => -1,
        (Some(_), None) => 1,
        (Some(x), Some(y)) => path_text_order(x, y),
    }
}

/// Whether two optional paths are the same: both absent, or paths with the
/// same components.
pub open spec fn same_path(a: Option<Seq<char>>, b: Option<Seq<char>>) -> bool {
    match (a, b) {
        (None, None) => true,
        (Some(x), Some(y)) => components(x) == components(y),
        _ => false,
    }
}

/// How two numbers compare.
pub open spec fn nat_order(a: nat, b: nat) -> int {
    if a < b {
        -1
    } else if a > b {
        1
    } else {
        0
    }
}

/// How two locations compare: by offset, row, column and line start.
pub open spec fn loc_order(a: LocModel, b: LocModel) -> int {
    let p = nat_order(a.pos, b.pos);
    let r = nat_order(a.row, b.row);
    let c = nat_order(a.col, b.col);
    if p != 0 {
        p
    } else if r != 0 {
        r
    } else if c != 0 {
        c
    } else {
        nat_order(a.line_start_pos, b.line_start_pos)
    }
}

/// The path of the configuration an error is about.
pub open spec fn exp_path<'a, E>(e: Expectation<'a, E>) -> Option<Seq<char>> {
    e.record.conf().path_model()
}

/// The location of the value an error is about.
pub open spec fn exp_loc<'a, E>(e: Expectation<'a, E>) -> LocModel {
    e.record.rec().values[e.val_ind as int].start
}

/// How two errors compare: by path, location and kind.
pub open spec fn exp_order<'a, E: Ord>(a: Expectation<'a, E>, b: Expectation<'a, E>) -> int {
    let p = path_order(exp_path(a), exp_path(b));
    let l = loc_order(exp_loc(a), exp_loc(b));
    if p != 0 {
        p
    } else if l != 0 {
        l
    } else {
        kind_order(a.error_type, b.error_type)
    }
}

/// Whether two errors are the same: the same path, the same location of
/// the record's first value, the same kind and the same value.
pub open spec fn exp_same<'a, E: PartialEq>(a: Expectation<'a, E>, b: Expectation<'a, E>) -> bool {
    &&& same_path(exp_path(a), exp_path(b))
    &&& a.record.rec().values[0].start.pos == b.record.rec().values[0].start.pos
    &&& kind_same(a.error_type, b.error_type)
    &&& a.val_ind == b.val_ind
}

/// Where `x` goes in the sorted `s`: before the first element that comes
/// after it, so that equal elements keep their order.
pub open spec fn ins_pos<'a, E: Ord>(s: Seq<Expectation<'a, E>>, x: Expectation<'a, E>) -> int
    decreases s.len(),
{
    if s.len() == 0 {
        0
    } else if exp_order(s[0], x) > 0 {
        0
    } else {
        1 + ins_pos(s.subrange(1, s.len() as int), x)
    }
}

/// The errors sorted, equal ones in their order.
pub open spec fn sort_exps<'a, E: Ord>(s: Seq<Expectation<'a, E>>) -> Seq<Expectation<'a, E>>
    decreases s.len(),
{
    if s.len() == 0 {
        s
    } else {
        let t = sort_exps(s.drop_last());
        t.insert(ins_pos(t, s.last()), s.last())
    }
}

/// The errors without those equal to the one kept before them.
pub open spec fn dedup_exps<'a, E: PartialEq>(s: Seq<Expectation<'a, E>>) -> Seq<Expectation<'a, E>>
    decreases s.len(),
{
    if s.len() == 0 {
        s
    } else {
        let d = dedup_exps(s.drop_last());
        if d.len() > 0 && exp_same(s.last(), d.last()) {
            d
        } else {
            d.push(s.last())
        }
    }
}

/// The index of the first of `ps` that is the same path as `p`.
pub open spec fn path_index(ps: Seq<Option<Seq<char>>>, p: Option<Seq<char>>) -> Option<int>
    decreases ps.len(),
{
    if ps.len() == 0 {
        None
    } else {
        match path_index(ps.drop_last(), p) {
            Some(i) => Some(i),
            None => if same_path(ps.last(), p) {
                Some(ps.len() - 1)
            } else {
                None
            },
        }
    }
}

/// The paths of the errors in order of first appearance, and the errors
/// of each path in order.
pub open spec fn group_exps<'a, E>(s: Seq<Expectation<'a, E>>) -> (Seq<Option<Seq<char>>>, Seq<Seq<Expectation<'a, E>>>)
    decreases s.len(),
{
    if s.len() == 0 {
        (Seq::empty(), Seq::empty())
    } else {
        let (ps, gs) = group_exps(s.drop_last());
        let p = exp_path(s.last());
        match path_index(ps, p) {
            Some(i) => (ps, gs.update(i, gs[i].push(s.last()))),
            None => (ps.push(p), gs.push(seq![s.last()])),
        }
    }
}

/// A path found is at an index of the paths, and the same path as the one
/// there.
pub proof fn lemma_path_index(ps: Seq<Option<Seq<char>>>, p: Option<Seq<char>>)
    ensures
        path_index(ps, p) matches Some(i) ==> 0 <= i < ps.len() && same_path(ps[i], p),
        path_index(ps, p) is None ==> forall|i: int| 0 <= i < ps.len() ==> !same_path(ps[i], p),
    decreases ps.len(),
{
    if ps.len() > 0 {
        lemma_path_index(ps.drop_last(), p);
        if path_index(ps.drop_last(), p) is None {
            assert forall|i: int| 0 <= i < ps.len() - 1 implies !same_path(ps[i], p) by {
                assert(ps.drop_last()[i] == ps[i]);
            }
        }
    }
}

/// A path found in a prefix is found at the same index in the whole.
pub proof fn lemma_path_index_prefix(ps: Seq<Option<Seq<char>>>, n: int, p: Option<Seq<char>>)
    requires
        0 <= n <= ps.len(),
        path_index(ps.take(n), p) is Some,
    ensures
        path_index(ps, p) == path_index(ps.take(n), p),
    decreases ps.len() - n,
{
    if n < ps.len() {
        assert(ps.take(n + 1).drop_last() =~= ps.take(n));
        lemma_path_index_prefix(ps, n + 1, p);
    } else {
        assert(ps.take(n) =~= ps);
    }
}

/// How two texts, given by their characters, compare.
pub(crate) fn chars_order(x: &Vec<char>, y: &Vec<char>) -> (r: i8)
    ensures
        r == text_order(x@, y@),
{
    let ghost a = x@;
    let ghost b = y@;
    let mut i: usize = 0;
    proof {
        assert(a.subrange(0, a.len() as int) =~= a);
        assert(b.subrange(0, b.len() as int) =~= b);
    }
    while i < x.len() && i < y.len() && x[i] == y[i]
        invariant
            i <= x@.len(),
            i <= y@.len(),
            x@ == a,
            y@ == b,
            text_order(a, b) == text_order(a.subrange(i as int, a.len() as int), b.subrange(i as int, b.len() as int)),
        decreases x.len() - i,
    {
        proof {
            let sa = a.subrange(i as int, a.len() as int);
            let sb = b.subrange(i as int, b.len() as int);
            assert(sa.subrange(1, sa.len() as int) =~= a.subrange(i + 1, a.len() as int));
            assert(sb.subrange(1, sb.len() as int) =~= b.subrange(i + 1, b.len() as int));
        }
        i += 1;
    }
    let ghost sa = a.subrange(i as int, a.len() as int);
    let ghost sb = b.subrange(i as int, b.len() as int);
    if i == x.len() && i == y.len() {
        0
    } else if i == x.len() {
        -1
    } else if i == y.len() {
        1
    } else if x[i] < y[i] {
        assert(sa[0] == x@[i as int]);
        -1
    } else {
        assert(sa[0] == x@[i as int] && sb[0] == y@[i as int]);
        1
    }
}

/// How two optional paths compare.
pub(crate) fn path_order_exec(a: Option<&str>, b: Option<&str>) -> (r: i8)
    ensures
        r == path_order(crate::conf::opt_str_model(a), crate::conf::opt_str_model(b)),
{
    match (a, b) {
        (None, None) => 0,
        (None, Some(_)) => -1,
        (Some(_), None) => 1,
        (Some(x), Some(y)) => path_text_order_exec(x, y),
    }
}

/// How two numbers compare.
pub(crate) fn usize_order(a: usize, b: usize) -> (r: i8)
    ensures
        r == nat_order(a as nat, b as nat),
{
    if a < b {
        -1
    } else if a > b {
        1
    } else {
        0
    }
}

/// How two locations compare.
pub(crate) fn loc_order_exec(a: &Loc, b: &Loc) -> (r: i8)
    ensures
        r == loc_order(a@, b@),
{
    let p = usize_order(a.pos, b.pos);
    if p != 0 {
        return p;
    }
    let q = usize_order(a.row, b.row);
    if q != 0 {
        return q;
    }
    let c = usize_order(a.col, b.col);
    if c != 0 {
        return c;
    }
    usize_order(a.line_start_pos, b.line_start_pos)
}

/// The rank of an error kind.
fn kind_rank_exec<E>(t: &WalkerErrorType<E>) -> (r: u8)
    ensures
        r == kind_rank(*t),
{
    match t {
        WalkerErrorType::ParamsIncorrectNum => 0,
        WalkerErrorType::ParamParseError => 1,
        WalkerErrorType::ChildrenNotExpected => 2,
        WalkerErrorType::ChildrenExpected => 3,
        WalkerErrorType::Custom(_) => 4,
        WalkerErrorType::CustomInvalidValInd(_, _) => 5,
        WalkerErrorType::Unknown => 6,
        WalkerErrorType::ExpectedTagOnce => 7,
    }
}

/// The sign of an ordering.
fn sign_exec(o: Ordering) -> (r: i8)
    ensures
        r == sign(o),
{
    match o {
        Ordering::Less => -1,
        Ordering::Equal => 0,
        Ordering::Greater => 1,
    }
}

/// How two error kinds compare, when the payload's order is the one its
/// type specifies.
fn kind_order_exec<E: Ord>(a: &WalkerErrorType<E>, b: &WalkerErrorType<E>) -> (r: i8)
    ensures
        order_ok::<E>() || !carries(*a) || !carries(*b) ==> r == kind_order(*a, *b),
{
    let ra = kind_rank_exec(a);
    let rb = kind_rank_exec(b);
    if ra < rb {
        return -1;
    }
    if ra > rb {
        return 1;
    }
    match (a, b) {
        (WalkerErrorType::Custom(x), WalkerErrorType::Custom(y)) => sign_exec(x.cmp(y)),
        (WalkerErrorType::CustomInvalidValInd(i, x), WalkerErrorType::CustomInvalidValInd(j, y)) => {
            if *i < *j {
                -1
            } else if *i > *j {
                1
            } else {
                sign_exec(x.cmp(y))
            }
        },
        _ => 0,
    }
}

/// Whether two error kinds are equal, when the payload's equality is the
/// one its type specifies.
fn kind_same_exec<E: PartialEq>(a: &WalkerErrorType<E>, b: &WalkerErrorType<E>) -> (r: bool)
    ensures
        same_ok::<E>() || !carries(*a) || !carries(*b) ==> r == kind_same(*a, *b),
{
    match (a, b) {
        (WalkerErrorType::Custom(x), WalkerErrorType::Custom(y)) => x.eq(y),
        (WalkerErrorType::CustomInvalidValInd(i, x), WalkerErrorType::CustomInvalidValInd(j, y)) => *i == *j && x.eq(
            y,
        ),
        (WalkerErrorType::Custom(_), _) => false,
        (WalkerErrorType::CustomInvalidValInd(_, _), _) => false,
        _ => kind_rank_exec(a) == kind_rank_exec(b),
    }
}

/// How two errors compare.
pub(crate) fn exp_order_exec<'a, E: Ord>(a: &Expectation<'a, E>, b: &Expectation<'a, E>) -> (r: i8)
    requires
        a.val_ind < a.record.rec().values.len(),
        b.val_ind < b.record.rec().values.len(),
    ensures
        order_ok::<E>() || !carries(a.error_type) || !carries(b.error_type) ==> r == exp_order(*a, *b),
{
    let p = path_order_exec(a.record.path(), b.record.path());
    if p != 0 {
        return p;
    }
    let la = a.record.value(a.val_ind).unwrap().start_loc;
    let lb = b.record.value(b.val_ind).unwrap().start_loc;
    let l = loc_order_exec(&la, &lb);
    if l != 0 {
        return l;
    }
    kind_order_exec(&a.error_type, &b.error_type)
}

/// Whether two errors are the same.
pub(crate) fn exp_same_exec<'a, E: PartialEq>(a: &Expectation<'a, E>, b: &Expectation<'a, E>) -> (r: bool)
    requires
        a.record.rec().values.len() >= 1,
        b.record.rec().values.len() >= 1,
    ensures
        same_ok::<E>() || !carries(a.error_type) || !carries(b.error_type) ==> r == exp_same(*a, *b),
{
    let p = path_order_exec(a.record.path(), b.record.path());
    proof {
        lemma_path_order_zero(exp_path(*a), exp_path(*b));
    }
    if p != 0 {
        return false;
    }
    let la = a.record.value(0).unwrap().start_loc.pos;
    let lb = b.record.value(0).unwrap().start_loc.pos;
    la == lb && kind_same_exec(&a.error_type, &b.error_type) && a.val_ind == b.val_ind
}

/// Two texts compare equal exactly when they are equal.
pub proof fn lemma_text_order_zero(a: Seq<char>, b: Seq<char>)
    ensures
        (text_order(a, b) == 0) == (a == b),
    decreases a.len(),
{
    if a.len() > 0 && b.len() > 0 && a[0] == b[0] {
        let a1 = a.subrange(1, a.len() as int);
        let b1 = b.subrange(1, b.len() as int);
        lemma_text_order_zero(a1, b1);
        if a1 == b1 {
            assert(a =~= seq![a[0]] + a1);
            assert(b =~= seq![b[0]] + b1);
        } else {
            if a == b {
                assert(a1 =~= b1);
            }
        }
    } else if a.len() > 0 && b.len() > 0 {
        if a == b {
            assert(a[0] == b[0]);
        }
    } else if a.len() == 0 && b.len() == 0 {
        assert(a =~= b);
    }
}

/// Two optional paths compare equal exactly when they are the same path.
pub proof fn lemma_path_order_zero(a: Option<Seq<char>>, b: Option<Seq<char>>)
    ensures
        (path_order(a, b) == 0) == same_path(a, b),
{
    match (a, b) {
        (Some(x), Some(y)) => lemma_comps_order(components(x), components(y), components(y)),
        _ => {},
    }
}

/// Two texts compare the opposite way round.
pub proof fn lemma_text_order_flip(a: Seq<char>, b: Seq<char>)
    ensures
        text_order(a, b) == -text_order(b, a),
    decreases a.len(),
{
    if a.len() > 0 && b.len() > 0 && a[0] == b[0] {
        lemma_text_order_flip(a.subrange(1, a.len() as int), b.subrange(1, b.len() as int));
    }
}

/// Text order is transitive.
pub proof fn lemma_text_order_trans(a: Seq<char>, b: Seq<char>, c: Seq<char>)
    requires
        text_order(a, b) <= 0,
        text_order(b, c) <= 0,
    ensures
        text_order(a, c) <= 0,
    decreases a.len(),
{
    if a.len() > 0 && b.len() > 0 && c.len() > 0 && a[0] == b[0] && b[0] == c[0] {
        lemma_text_order_trans(
            a.subrange(1, a.len() as int),
            b.subrange(1, b.len() as int),
            c.subrange(1, c.len() as int),
        );
    }
}

/// Path order is antisymmetric and transitive, and strictly so.
pub proof fn lemma_path_order_laws(a: Option<Seq<char>>, b: Option<Seq<char>>, c: Option<Seq<char>>)
    ensures
        path_order(a, b) == -path_order(b, a),
        path_order(a, b) <= 0 && path_order(b, c) <= 0 ==> path_order(a, c) <= 0,
        path_order(a, b) <= 0 && path_order(b, c) <= 0 && (path_order(a, b) < 0 || path_order(b, c) < 0)
            ==> path_order(a, c) < 0,
{
    match (a, b, c) {
        (Some(x), Some(y), Some(z)) => {
            let (cx, cy, cz) = (components(x), components(y), components(z));
            lemma_comps_order(cx, cy, cz);
            lemma_comps_order(cy, cz, cx);
            lemma_comps_order(cz, cx, cy);
            lemma_comps_order(cx, cz, cy);
            lemma_comps_order(cy, cx, cz);
            lemma_comps_order(cz, cy, cx);
        },
        (Some(x), Some(y), None) => lemma_comps_order(components(x), components(y), components(y)),
        (None, Some(y), Some(z)) => lemma_comps_order(components(y), components(z), components(z)),
        (Some(x), None, Some(z)) => lemma_comps_order(components(x), components(z), components(z)),
        _ => {},
    }
}

/// A payload order that follows its type's laws is antisymmetric.
pub proof fn lemma_cmp_flip<E: Ord>(x: E, y: E)
    requires
        vstd::laws_cmp::obeys_cmp::<E>(),
    ensures
        sign(x.cmp_spec(&y)) == -sign(y.cmp_spec(&x)),
{
    reveal(vstd::laws_cmp::obeys_cmp_partial_ord);
    reveal(vstd::laws_cmp::obeys_cmp_ord);
    reveal(vstd::laws_cmp::obeys_partial_cmp_spec_properties);
    reveal(vstd::laws_eq::obeys_eq_spec_properties);
    assert(x.partial_cmp_spec(&y) == Some(x.cmp_spec(&y)));
    assert(y.partial_cmp_spec(&x) == Some(y.cmp_spec(&x)));
    assert(x.eq_spec(&y) == y.eq_spec(&x));
}

/// A payload order that follows its type's laws is transitive.
pub proof fn lemma_cmp_trans<E: Ord>(x: E, y: E, z: E)
    requires
        vstd::laws_cmp::obeys_cmp::<E>(),
        sign(x.cmp_spec(&y)) <= 0,
        sign(y.cmp_spec(&z)) <= 0,
    ensures
        sign(x.cmp_spec(&z)) <= 0,
{
    reveal(vstd::laws_cmp::obeys_cmp_partial_ord);
    reveal(vstd::laws_cmp::obeys_cmp_ord);
    reveal(vstd::laws_cmp::obeys_partial_cmp_spec_properties);
    reveal(vstd::laws_eq::obeys_eq_spec_properties);
    assert(x.partial_cmp_spec(&y) == Some(x.cmp_spec(&y)));
    assert(y.partial_cmp_spec(&z) == Some(y.cmp_spec(&z)));
    assert(x.partial_cmp_spec(&z) == Some(x.cmp_spec(&z)));
    assert(z.partial_cmp_spec(&x) == Some(z.cmp_spec(&x)));
    assert(y.partial_cmp_spec(&x) == Some(y.cmp_spec(&x)));
    assert(z.partial_cmp_spec(&y) == Some(z.cmp_spec(&y)));
    assert(x.eq_spec(&y) == y.eq_spec(&x));
    assert(y.eq_spec(&z) == z.eq_spec(&y));
    assert(x.eq_spec(&z) == z.eq_spec(&x));
    if x.cmp_spec(&z) == Ordering::Greater {
        assert(z.cmp_spec(&x) == Ordering::Less);
        if y.cmp_spec(&z) == Ordering::Less {
            assert(y.cmp_spec(&x) == Ordering::Less);
        } else {
            assert(z.eq_spec(&y));
            if x.cmp_spec(&y) == Ordering::Less {
                assert(z.cmp_spec(&y) == Ordering::Less);
            } else {
                assert(x.eq_spec(&z));
            }
        }
    }
}

/// Error kinds compare the opposite way round, and transitively.
pub proof fn lemma_kind_order_laws<E: Ord>(a: WalkerErrorType<E>, b: WalkerErrorType<E>, c: WalkerErrorType<E>)
    requires
        vstd::laws_cmp::obeys_cmp::<E>() || (!carries(a) && !carries(b) && !carries(c)),
    ensures
        kind_order(a, b) == -kind_order(b, a),
        kind_order(a, b) <= 0 && kind_order(b, c) <= 0 ==> kind_order(a, c) <= 0,
{
    match (a, b) {
        (WalkerErrorType::Custom(x), WalkerErrorType::Custom(y)) => lemma_cmp_flip(x, y),
        (WalkerErrorType::CustomInvalidValInd(_, x), WalkerErrorType::CustomInvalidValInd(_, y)) => lemma_cmp_flip(
            x,
            y,
        ),
        _ => {},
    }
    if kind_order(a, b) <= 0 && kind_order(b, c) <= 0 {
        match (a, b, c) {
            (WalkerErrorType::Custom(x), WalkerErrorType::Custom(y), WalkerErrorType::Custom(z)) => {
                lemma_cmp_trans(x, y, z);
            },
            (
                WalkerErrorType::CustomInvalidValInd(i, x),
                WalkerErrorType::CustomInvalidValInd(j, y),
                WalkerErrorType::CustomInvalidValInd(k, z),
            ) => {
                if i == j && j == k {
                    lemma_cmp_trans(x, y, z);
                }
            },
            _ => {},
        }
    }
}

/// Errors compare the opposite way round, and transitively.
pub proof fn lemma_exp_order_laws<'a, E: Ord>(a: Expectation<'a, E>, b: Expectation<'a, E>, c: Expectation<'a, E>)
    requires
        vstd::laws_cmp::obeys_cmp::<E>() || (!carries(a.error_type) && !carries(b.error_type) && !carries(
            c.error_type,
        )),
    ensures
        exp_order(a, b) == -exp_order(b, a),
        exp_order(a, b) <= 0 && exp_order(b, c) <= 0 ==> exp_order(a, c) <= 0,
{
    lemma_path_order_laws(exp_path(a), exp_path(b), exp_path(c));
    lemma_path_order_laws(exp_path(b), exp_path(c), exp_path(a));
    lemma_path_order_laws(exp_path(c), exp_path(a), exp_path(b));
    lemma_path_order_zero(exp_path(a), exp_path(b));
    lemma_path_order_zero(exp_path(b), exp_path(c));
    lemma_path_order_zero(exp_path(a), exp_path(c));
    lemma_kind_order_laws(a.error_type, b.error_type, c.error_type);
}

/// Whether `s` is in order.
pub open spec fn exps_sorted<'a, E: Ord>(s: Seq<Expectation<'a, E>>) -> bool {
    forall|i: int, j: int| 0 <= i < j < s.len() ==> exp_order(#[trigger] s[i], #[trigger] s[j]) <= 0
}

/// Where an error is inserted: after every error that does not come after
/// it, before one that does.
pub proof fn lemma_ins_pos<'a, E: Ord>(t: Seq<Expectation<'a, E>>, x: Expectation<'a, E>)
    ensures
        0 <= ins_pos(t, x) <= t.len(),
        forall|k: int| 0 <= k < ins_pos(t, x) ==> exp_order(#[trigger] t[k], x) <= 0,
        ins_pos(t, x) < t.len() ==> exp_order(t[ins_pos(t, x)], x) > 0,
    decreases t.len(),
{
    if t.len() > 0 && exp_order(t[0], x) <= 0 {
        let u = t.subrange(1, t.len() as int);
        lemma_ins_pos(u, x);
        assert forall|k: int| 0 <= k < ins_pos(t, x) implies exp_order(#[trigger] t[k], x) <= 0 by {
            if k > 0 {
                assert(t[k] == u[k - 1]);
            }
        }
        if ins_pos(t, x) < t.len() {
            assert(t[ins_pos(t, x)] == u[ins_pos(u, x)]);
        }
    }
}

/// Sorting puts the errors in order.
pub proof fn lemma_sort_sorted<'a, E: Ord>(s: Seq<Expectation<'a, E>>)
    requires
        vstd::laws_cmp::obeys_cmp::<E>() || payload_free(s),
    ensures
        exps_sorted(sort_exps(s)),
        payload_free(s) ==> payload_free(sort_exps(s)),
    decreases s.len(),
{
    if s.len() > 0 {
        let t = sort_exps(s.drop_last());
        if payload_free(s) {
            assert forall|i: int| 0 <= i < s.drop_last().len() implies !carries(
                #[trigger] s.drop_last()[i].error_type,
            ) by {
                assert(s.drop_last()[i] == s[i]);
            }
        }
        lemma_sort_sorted(s.drop_last());
        let x = s.last();
        let p = ins_pos(t, x);
        lemma_ins_pos(t, x);
        let r = t.insert(p, x);
        assert(sort_exps(s) == r);
        if payload_free(s) {
            assert(s[s.len() - 1] == x);
            assert forall|i: int| 0 <= i < r.len() implies !carries(#[trigger] r[i].error_type) by {
                if i < p {
                    assert(r[i] == t[i]);
                } else if i > p {
                    assert(r[i] == t[i - 1]);
                }
            }
        }
        assert forall|i: int, j: int| 0 <= i < j < r.len() implies exp_order(#[trigger] r[i], #[trigger] r[j]) <= 0 by {
            if j < p {
                assert(r[i] == t[i] && r[j] == t[j]);
            } else if j == p {
                assert(r[i] == t[i] && r[j] == x);
            } else if i < p {
                assert(r[i] == t[i] && r[j] == t[j - 1]);
            } else if i == p {
                assert(r[j] == t[j - 1]);
                lemma_exp_order_laws(t[p], x, x);
                if j - 1 > p {
                    lemma_exp_order_laws(x, t[p], t[j - 1]);
                }
            } else {
                assert(r[i] == t[i - 1] && r[j] == t[j - 1]);
            }
        }
    }
}

/// Dropping repeats from errors in order leaves them in order.
pub proof fn lemma_dedup_sorted<'a, E: Ord>(s: Seq<Expectation<'a, E>>)
    requires
        exps_sorted(s),
    ensures
        exps_sorted(dedup_exps(s)),
        forall|i: int| 0 <= i < dedup_exps(s).len() ==> s.contains(#[trigger] dedup_exps(s)[i]),
    decreases s.len(),
{
    if s.len() > 0 {
        let s0 = s.drop_last();
        let d = dedup_exps(s0);
        assert forall|i: int, j: int| 0 <= i < j < s0.len() implies exp_order(#[trigger] s0[i], #[trigger] s0[j])
            <= 0 by {
            assert(s0[i] == s[i] && s0[j] == s[j]);
        }
        lemma_dedup_sorted(s0);
        let r = dedup_exps(s);
        assert forall|i: int| 0 <= i < d.len() implies exp_order(#[trigger] d[i], s.last()) <= 0 by {
            assert(s0.contains(d[i]));
            let j = choose|j: int| 0 <= j < s0.len() && s0[j] == d[i];
            assert(s[j] == d[i]);
            assert(s[s.len() - 1] == s.last());
        }
        assert forall|i: int| 0 <= i < r.len() implies s.contains(#[trigger] r[i]) by {
            if i < d.len() {
                assert(r[i] == d[i]);
                assert(s0.contains(d[i]));
                let j = choose|j: int| 0 <= j < s0.len() && s0[j] == d[i];
                assert(s[j] == d[i]);
            } else {
                assert(s[s.len() - 1] == r[i]);
            }
        }
        assert forall|i: int, j: int| 0 <= i < j < r.len() implies exp_order(#[trigger] r[i], #[trigger] r[j])
            <= 0 by {
            assert(r[i] == d[i]);
            if j < d.len() {
                assert(r[j] == d[j]);
            }
        }
    }
}

/// Grouping errors in order by path keeps each group in order.
pub proof fn lemma_group_sorted<'a, E: Ord>(s: Seq<Expectation<'a, E>>)
    requires
        exps_sorted(s),
    ensures
        forall|i: int| 0 <= i < group_exps(s).1.len() ==> exps_sorted(#[trigger] group_exps(s).1[i]),
        forall|i: int, k: int|
            0 <= i < group_exps(s).1.len() && 0 <= k < group_exps(s).1[i].len() ==> s.contains(
                #[trigger] group_exps(s).1[i][k],
            ),
    decreases s.len(),
{
    if s.len() > 0 {
        let s0 = s.drop_last();
        assert forall|i: int, j: int| 0 <= i < j < s0.len() implies exp_order(#[trigger] s0[i], #[trigger] s0[j])
            <= 0 by {
            assert(s0[i] == s[i] && s0[j] == s[j]);
        }
        lemma_group_sorted(s0);
        let (ps, gs) = group_exps(s0);
        let x = s.last();
        assert(s[s.len() - 1] == x);
        let r = group_exps(s).1;
        lemma_path_index(ps, exp_path(x));
        lemma_group_lens(s0);
        assert forall|i: int, k: int| 0 <= i < gs.len() && 0 <= k < gs[i].len() implies s.contains(
            #[trigger] gs[i][k],
        ) && exp_order(gs[i][k], x) <= 0 by {
            assert(s0.contains(gs[i][k]));
            let j = choose|j: int| 0 <= j < s0.len() && s0[j] == gs[i][k];
            assert(s[j] == gs[i][k]);
        }
        assert forall|i: int| 0 <= i < r.len() implies exps_sorted(#[trigger] r[i]) by {
            if i < gs.len() {
                assert(exps_sorted(gs[i]));
                if r[i] != gs[i] {
                    let g = gs[i];
                    assert(r[i] == g.push(x));
                    assert forall|a: int, b: int| 0 <= a < b < r[i].len() implies exp_order(
                        #[trigger] r[i][a],
                        #[trigger] r[i][b],
                    ) <= 0 by {
                        assert(r[i][a] == g[a]);
                        if b < g.len() {
                            assert(r[i][b] == g[b]);
                        }
                    }
                }
            }
        }
        assert forall|i: int, k: int| 0 <= i < r.len() && 0 <= k < r[i].len() implies s.contains(
            #[trigger] r[i][k],
        ) by {
            if i < gs.len() && k < gs[i].len() {
                match path_index(ps, exp_path(x)) {
                    Some(q) => {
                        if i == q {
                            assert(r[i][k] == gs[i][k]);
                        }
                    },
                    None => {},
                }
            }
        }
    }
}

/// Grouping gives one path per group.
proof fn lemma_group_lens<'a, E>(s: Seq<Expectation<'a, E>>)
    ensures
        group_exps(s).0.len() == group_exps(s).1.len(),
    decreases s.len(),
{
    if s.len() > 0 {
        lemma_group_lens(s.drop_last());
        lemma_path_index(group_exps(s.drop_last()).0, exp_path(s.last()));
    }
}

} // verus!

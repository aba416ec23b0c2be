//! The text of the errors of a walk.

use vstd::prelude::*;
use crate::loc::Loc;
use crate::conf::{opt_string_model, opt_str_model};
use crate::display::{debug_text, debug_str, debug_path, path_debug_text, loc_text};
use crate::source::{error_line_text, error_line_src};
use crate::text::{push_str, push_decimal, decimal};
use crate::walker_error::{WalkerError, WalkerErrors, WalkerErrorType};

verus! {

/// The text of a value a caller's error carries, as its `Debug` writes it
/// (calls `<E as Debug>::fmt` through `format!`). What the text is depends
/// on the caller's type and is not stated.
#[verifier::external_body]
fn payload_text<E: std::fmt::Debug>(e: &E) -> (r: String) {
    format!("{:?}", e)
}

/// The text of an error kind as its `Debug` writes it, with `payload` the
/// text of the value it carries, if any.
pub open spec fn kind_text<E>(t: WalkerErrorType<E>, payload: Seq<char>) -> Seq<char> {
    match t {
        WalkerErrorType::ParamsIncorrectNum => "ParamsIncorrectNum"@,
        WalkerErrorType::ParamParseError => "ParamParseError"@,
        WalkerErrorType::ChildrenNotExpected => "ChildrenNotExpected"@,
        WalkerErrorType::ChildrenExpected => "ChildrenExpected"@,
        WalkerErrorType::Custom(_) => "Custom("@ + payload + ")"@,
        WalkerErrorType::CustomInvalidValInd(i, _) => "CustomInvalidValInd("@ + decimal(i as nat) + ", "@ + payload
            + ")"@,
        WalkerErrorType::Unknown => "Unknown"@,
        WalkerErrorType::ExpectedTagOnce => "ExpectedTagOnce"@,
    }
}

/// The `n`-th line of a group: the kind and location, and the line of the
/// source with a caret when the source is known.
pub open spec fn entry_text<E>(n: nat, e: WalkerError<E>, payload: Seq<char>, src: Option<Seq<char>>) -> Seq<char> {
    "  "@ + decimal(n) + ") "@ + kind_text(e.error_type, payload) + " at "@ + loc_text(e.loc) + "\n"@ + match src {
        Some(s) => error_line_text(s, e.loc) + "\n"@,
        None => Seq::empty(),
    }
}

/// The lines of the errors `es`, numbered from one.
pub open spec fn entries_text<E>(es: Seq<WalkerError<E>>, pays: Seq<Seq<char>>, src: Option<Seq<char>>) -> Seq<char>
    decreases es.len(),
{
    if es.len() == 0 {
        Seq::empty()
    } else {
        entries_text(es.drop_last(), pays, src) + entry_text(es.len(), es.last(), pays[es.len() - 1], src)
    }
}

/// The text of the errors of one path: a heading that names the path, if
/// known, then one line per error.
pub open spec fn group_text<E>(
    path: Option<Seq<char>>,
    es: Seq<WalkerError<E>>,
    pays: Seq<Seq<char>>,
    src: Option<Seq<char>>,
) -> Seq<char> {
    head_text(path, es.len()) + entries_text(es, pays, src)
}

/// The heading of the errors of one path: `Walker error`, plural for more
/// than one error, and the path if known.
pub open spec fn head_text(path: Option<Seq<char>>, n: nat) -> Seq<char> {
    "Walker error"@ + (if n > 1 {
        "s"@
    } else {
        Seq::empty()
    }) + match path {
        Some(p) => " in config file: "@ + path_debug_text(p) + "\n"@,
        None => ":\n"@,
    }
}

/// The text of all the errors, path by path.
pub open spec fn msg_text<E>(
    paths: Seq<Option<Seq<char>>>,
    errs: Seq<Seq<WalkerError<E>>>,
    pays: Seq<Seq<Seq<char>>>,
    srcs: Seq<Option<Seq<char>>>,
) -> Seq<char>
    decreases paths.len(),
{
    if paths.len() == 0 {
        Seq::empty()
    } else {
        let n = paths.len() - 1;
        msg_text(paths.drop_last(), errs, pays, srcs) + group_text(paths[n], errs[n], pays[n], srcs[n])
    }
}

/// Five texts one after the other.
pub open spec fn spliced(a: Seq<char>, b: Seq<char>, c: Seq<char>, d: Seq<char>, e: Seq<char>) -> Seq<char> {
    a + b + c + d + e
}

/// The line of error `j` lies within the lines of the errors `es`.
proof fn lemma_entry_within<E>(es: Seq<WalkerError<E>>, pays: Seq<Seq<char>>, src: Option<Seq<char>>, j: int) -> (r: (
    Seq<char>,
    Seq<char>,
))
    requires
        0 <= j < es.len(),
    ensures
        entries_text(es, pays, src) == r.0 + entry_text((j + 1) as nat, es[j], pays[j], src) + r.1,
    decreases es.len(),
{
    if j == es.len() - 1 {
        let pre = entries_text(es.drop_last(), pays, src);
        assert(entries_text(es, pays, src) =~= pre + entry_text((j + 1) as nat, es[j], pays[j], src)
            + Seq::<char>::empty());
        (pre, Seq::empty())
    } else {
        let (pre, post) = lemma_entry_within(es.drop_last(), pays, src, j);
        assert(es.drop_last()[j] == es[j]);
        let last = entry_text(es.len(), es.last(), pays[es.len() - 1], src);
        assert(entries_text(es, pays, src) =~= pre + entry_text((j + 1) as nat, es[j], pays[j], src) + (post
            + last));
        (pre, post + last)
    }
}

/// Every error of a message is listed in it: the line of error `j` of path
/// `i`, numbered `j + 1`, with its kind and location (and source line when
/// the source is known), lies within the message, after the heading of its
/// path.
pub proof fn law_message_lists_each_error<E>(
    paths: Seq<Option<Seq<char>>>,
    errs: Seq<Seq<WalkerError<E>>>,
    pays: Seq<Seq<Seq<char>>>,
    srcs: Seq<Option<Seq<char>>>,
    i: int,
    j: int,
)
    requires
        0 <= i < paths.len(),
        0 <= j < errs[i].len(),
    ensures
        exists|pre: Seq<char>, mid: Seq<char>, post: Seq<char>|
            msg_text(paths, errs, pays, srcs) == #[trigger] spliced(
                pre,
                head_text(paths[i], errs[i].len()),
                mid,
                entry_text((j + 1) as nat, errs[i][j], pays[i][j], srcs[i]),
                post,
            ),
    decreases paths.len(),
{
    let n = paths.len() - 1;
    let entry = entry_text((j + 1) as nat, errs[i][j], pays[i][j], srcs[i]);
    let head = head_text(paths[i], errs[i].len());
    if i == n {
        let (a, b) = lemma_entry_within(errs[i], pays[i], srcs[i], j);
        let pre = msg_text(paths.drop_last(), errs, pays, srcs);
        assert(msg_text(paths, errs, pays, srcs) =~= spliced(pre, head, a, entry, b));
    } else {
        law_message_lists_each_error(paths.drop_last(), errs, pays, srcs, i, j);
        assert(paths.drop_last()[i] == paths[i]);
        let (pre, mid, post) = choose|pre: Seq<char>, mid: Seq<char>, post: Seq<char>|
            msg_text(paths.drop_last(), errs, pays, srcs) == #[trigger] spliced(pre, head, mid, entry, post);
        let g = group_text(paths[n], errs[n], pays[n], srcs[n]);
        assert(msg_text(paths, errs, pays, srcs) =~= spliced(pre, head, mid, entry, post + g));
    }
}

/// The paths of a set of errors.
pub open spec fn paths_of<E>(x: WalkerErrors<E>) -> Seq<Option<Seq<char>>> {
    x.paths@.map_values(|p: Option<String>| opt_string_model(p))
}

/// The errors of each path.
pub open spec fn errors_of<E>(x: WalkerErrors<E>) -> Seq<Seq<WalkerError<E>>> {
    x.errors@.map_values(|v: Vec<WalkerError<E>>| v@)
}

/// Every location of `errs` lies on a line of `src`.
pub open spec fn locs_fit<E>(errs: Seq<Seq<WalkerError<E>>>, src: Seq<char>) -> bool {
    forall|i: int, j: int|
        0 <= i < errs.len() && 0 <= j < errs[i].len() ==> src.len() == 0 || (#[trigger] errs[i][j]).loc.line_start_pos
            <= src.len()
}

/// The text `get_src` gives for the path `p`: none without a path.
pub open spec fn src_for<'s, G: Fn(&str) -> Option<&'s str>>(get_src: G, p: Option<Seq<char>>, src: Option<Seq<char>>) -> bool {
    match p {
        Some(x) => exists|a: &str, r: Option<&'s str>|
            a@ == x && #[trigger] call_ensures(get_src, (a,), r) && opt_str_model(r) == src,
        None => src is None,
    }
}

/// Appends the text of an error kind.
fn push_kind<E: std::fmt::Debug>(s: &mut String, t: &WalkerErrorType<E>) -> (pay: Ghost<Seq<char>>)
    ensures
        final(s)@ == old(s)@ + kind_text(*t, pay@),
{
    match t {
        WalkerErrorType::ParamsIncorrectNum => push_str(s, "ParamsIncorrectNum"),
        WalkerErrorType::ParamParseError => push_str(s, "ParamParseError"),
        WalkerErrorType::ChildrenNotExpected => push_str(s, "ChildrenNotExpected"),
        WalkerErrorType::ChildrenExpected => push_str(s, "ChildrenExpected"),
        WalkerErrorType::Custom(e) => {
            push_str(s, "Custom(");
            let p = payload_text(e);
            push_str(s, p.as_str());
            push_str(s, ")");
            proof {
                assert(s@ =~= old(s)@ + kind_text(*t, p@));
            }
            return Ghost(p@);
        },
        WalkerErrorType::CustomInvalidValInd(i, e) => {
            push_str(s, "CustomInvalidValInd(");
            push_decimal(s, *i as u128);
            push_str(s, ", ");
            let p = payload_text(e);
            push_str(s, p.as_str());
            push_str(s, ")");
            proof {
                assert(s@ =~= old(s)@ + kind_text(*t, p@));
            }
            return Ghost(p@);
        },
        WalkerErrorType::Unknown => push_str(s, "Unknown"),
        WalkerErrorType::ExpectedTagOnce => push_str(s, "ExpectedTagOnce"),
    }
    Ghost(Seq::empty())
}

/// Appends the heading of the errors of one path.
fn push_head(s: &mut String, path: &Option<String>, n: usize)
    ensures
        final(s)@ == old(s)@ + head_text(opt_string_model(*path), n as nat),
{
    push_str(s, "Walker error");
    if n > 1 {
        push_str(s, "s");
    }
    match path {
        Some(p) => {
            push_str(s, " in config file: ");
            let d = debug_path(p.as_str());
            push_str(s, d.as_str());
            push_str(s, "\n");
        },
        None => push_str(s, ":\n"),
    }
    proof {
        assert(s@ =~= old(s)@ + head_text(opt_string_model(*path), n as nat));
    }
}

/// Appends the `n`-th line of a group.
fn push_entry<E: std::fmt::Debug>(s: &mut String, n: usize, e: &WalkerError<E>, src: Option<&str>) -> (pay: Ghost<Seq<char>>)
    requires
        n < usize::MAX,
        src matches Some(t) ==> t@.len() == 0 || e.loc.line_start_pos <= t@.len(),
    ensures
        final(s)@ == old(s)@ + entry_text((n + 1) as nat, *e, pay@, opt_str_model(src)),
{
    push_str(s, "  ");
    push_decimal(s, n as u128 + 1);
    push_str(s, ") ");
    let pay = push_kind(s, &e.error_type);
    push_str(s, " at ");
    let l = e.loc.to_string();
    push_str(s, l.as_str());
    push_str(s, "\n");
    if let Some(t) = src {
        let line = error_line_src(t, e.loc);
        push_str(s, line.as_str());
        push_str(s, "\n");
    }
    proof {
        assert(s@ =~= old(s)@ + entry_text((n + 1) as nat, *e, pay@, opt_str_model(src)));
    }
    pay
}

impl<E: std::fmt::Debug> WalkerErrors<E> {
    /// The text of the errors, path by path: a heading that names the path,
    /// then for each error its kind and location and, when `get_src` gives
    /// the source of the path, the line it is on with a caret.
    pub fn get_msg<'s, G: Fn(&str) -> Option<&'s str>>(&self, get_src: G) -> (r: String)
        requires
            self.paths@.len() == self.errors@.len(),
            forall|a: &str| call_requires(get_src, (a,)),
            forall|a: &str, x: Option<&'s str>|
                call_ensures(get_src, (a,), x) ==> match x {
                    Some(t) => locs_fit(errors_of(*self), t@),
                    None => true,
                },
        ensures
            exists|pays: Seq<Seq<Seq<char>>>, srcs: Seq<Option<Seq<char>>>|
                #![trigger msg_text(paths_of(*self), errors_of(*self), pays, srcs)]
                {
                    &&& srcs.len() == self.paths@.len()
                    &&& forall|i: int|
                        0 <= i < srcs.len() ==> src_for(get_src, opt_string_model(self.paths@[i]), #[trigger] srcs[i])
                    &&& r@ == msg_text(paths_of(*self), errors_of(*self), pays, srcs)
                },
    {
        let ghost paths = paths_of(*self);
        let ghost errs = errors_of(*self);
        let ghost mut pays: Seq<Seq<Seq<char>>> = Seq::new(self.paths@.len(), |i: int| Seq::<Seq<char>>::empty());
        let ghost mut srcs: Seq<Option<Seq<char>>> = Seq::new(self.paths@.len(), |i: int| None::<Seq<char>>);
        let mut s = String::new();
        let mut pi: usize = 0;
        while pi < self.paths.len()
            invariant
                pi <= self.paths@.len(),
                self.paths@.len() == self.errors@.len(),
                paths == self.paths@.map_values(|p: Option<String>| opt_string_model(p)),
                errs == self.errors@.map_values(|v: Vec<WalkerError<E>>| v@),
                pays.len() == self.paths@.len(),
                srcs.len() == self.paths@.len(),
                forall|a: &str| call_requires(get_src, (a,)),
                forall|a: &str, x: Option<&'s str>|
                    call_ensures(get_src, (a,), x) ==> match x {
                        Some(t) => locs_fit(errs, t@),
                        None => true,
                    },
                forall|i: int| 0 <= i < pi ==> src_for(get_src, paths[i], #[trigger] srcs[i]),
                s@ == msg_text(paths.take(pi as int), errs, pays, srcs),
            decreases self.paths.len() - pi,
        {
            let path_errors = &self.errors[pi];
            let src: Option<&'s str> = match &self.paths[pi] {
                Some(p) => get_src(p.as_str()),
                None => None,
            };
            let ghost srcs0 = srcs;
            proof {
                srcs = srcs.update(pi as int, opt_str_model(src));
                match self.paths@[pi as int] {
                    Some(p) => {
                        assert(src_for(get_src, paths[pi as int], srcs[pi as int]));
                    },
                    None => {},
                }
                lemma_msg_frame(paths.take(pi as int), errs, pays, pays, srcs0, srcs);
            }
            let ghost start = s@;
            push_head(&mut s, &self.paths[pi], path_errors.len());
            let ghost head = s@;
            let ghost es = path_errors@;
            let ghost mut pp: Seq<Seq<char>> = Seq::new(es.len(), |j: int| Seq::<char>::empty());
            let mut count: usize = 0;
            while count < path_errors.len()
                invariant
                    count <= es.len(),
                    es == path_errors@,
                    es == errs[pi as int],
                    pp.len() == es.len(),
                    forall|a: &str, x: Option<&'s str>|
                        call_ensures(get_src, (a,), x) ==> match x {
                            Some(t) => locs_fit(errs, t@),
                            None => true,
                        },
                    pi < errs.len(),
                    src is Some ==> exists|a: &str| #[trigger] call_ensures(get_src, (a,), src),
                    s@ == head + entries_text(es.take(count as int), pp, opt_str_model(src)),
                decreases path_errors.len() - count,
            {
                let pe = &path_errors[count];
                proof {
                    if src is Some {
                        let a = choose|a: &str| #[trigger] call_ensures(get_src, (a,), src);
                        assert(errs[pi as int][count as int] == *pe);
                    }
                }
                let Ghost(pay) = push_entry(&mut s, count, pe, src);
                proof {
                    let pp0 = pp;
                    pp = pp.update(count as int, pay);
                    let et = es.take(count + 1);
                    assert(et.drop_last() =~= es.take(count as int));
                    assert(et.last() == *pe);
                    assert(entries_text(es.take(count as int), pp, opt_str_model(src)) == entries_text(
                        es.take(count as int),
                        pp0,
                        opt_str_model(src),
                    )) by {
                        lemma_entries_frame(es.take(count as int), pp0, pp, opt_str_model(src));
                    }
                    assert(s@ =~= head + entries_text(et, pp, opt_str_model(src)));
                }
                count += 1;
            }
            proof {
                assert(es.take(count as int) =~= es);
                let pays0 = pays;
                pays = pays.update(pi as int, pp);
                let pt = paths.take(pi + 1);
                assert(pt.drop_last() =~= paths.take(pi as int));
                assert(msg_text(paths.take(pi as int), errs, pays, srcs) == msg_text(
                    paths.take(pi as int),
                    errs,
                    pays0,
                    srcs,
                )) by {
                    lemma_msg_frame(paths.take(pi as int), errs, pays0, pays, srcs, srcs);
                }
                assert(s@ =~= msg_text(pt, errs, pays, srcs));
            }
            pi += 1;
        }
        proof {
            assert(paths.take(pi as int) =~= paths);
        }
        s
    }
}

/// The lines of errors depend only on the payload texts of those errors.
proof fn lemma_entries_frame<E>(es: Seq<WalkerError<E>>, p1: Seq<Seq<char>>, p2: Seq<Seq<char>>, src: Option<Seq<char>>)
    requires
        forall|j: int| 0 <= j < es.len() ==> p1[j] == p2[j],
    ensures
        entries_text(es, p1, src) == entries_text(es, p2, src),
    decreases es.len(),
{
    if es.len() > 0 {
        lemma_entries_frame(es.drop_last(), p1, p2, src);
    }
}

/// The text of the first groups depends only on their payload texts.
proof fn lemma_msg_frame<E>(
    paths: Seq<Option<Seq<char>>>,
    errs: Seq<Seq<WalkerError<E>>>,
    p1: Seq<Seq<Seq<char>>>,
    p2: Seq<Seq<Seq<char>>>,
    s1: Seq<Option<Seq<char>>>,
    s2: Seq<Option<Seq<char>>>,
)
    requires
        forall|i: int| 0 <= i < paths.len() ==> p1[i] == p2[i] && s1[i] == s2[i],
    ensures
        msg_text(paths, errs, p1, s1) == msg_text(paths, errs, p2, s2),
    decreases paths.len(),
{
    if paths.len() > 0 {
        lemma_msg_frame(paths.drop_last(), errs, p1, p2, s1, s2);
    }
}

} // verus!

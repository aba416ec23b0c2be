//! Text forms of locations and of quoted strings.

use vstd::prelude::*;
use crate::loc::Loc;
use crate::text::{push_decimal, push_str, decimal};

verus! {

/// The quoted form of a text as Rust's `Debug` writes a string: in double
/// quotes, with quotes, backslashes and control characters escaped.
pub uninterp spec fn debug_text(s: Seq<char>) -> Seq<char>;

/// The quoted form of `s` (calls `<str as Debug>::fmt` through `format!`).
/// Its result is named `debug_text` of the characters of `s`; what the
/// escapes are is not stated here.
#[verifier::external_body]
pub(crate) fn debug_str(s: &str) -> (r: String)
    ensures
        r@ == debug_text(s@),
{
    format!("{:?}", s)
}

/// The quoted form of a text taken as a file path, as Rust's `Debug` writes
/// a `Path`: in double quotes, with each character escaped as a `char`'s
/// `Debug` escapes it (which, unlike a string's, escapes single quotes).
pub uninterp spec fn path_debug_text(s: Seq<char>) -> Seq<char>;

/// The quoted form of `s` read as a path (calls `<Path as Debug>::fmt`
/// through `format!` on `Path::new(s)`). Its result is named
/// `path_debug_text` of the characters of `s`; what the escapes are is not
/// stated here.
#[verifier::external_body]
pub(crate) fn debug_path(s: &str) -> (r: String)
    ensures
        r@ == path_debug_text(s@),
{
    format!("{:?}", std::path::Path::new(s))
}

/// `line R, column C, position P`, counted from one.
pub open spec fn loc_text(l: Loc) -> Seq<char> {
    "line "@ + decimal((l.row + 1) as nat) + ", column "@ + decimal((l.col + 1) as nat)
        + ", position "@ + decimal((l.pos + 1) as nat)
}

impl Loc {
    /// The location as `line R, column C, position P`, counted from one.
    pub fn to_string(&self) -> (r: String)
        ensures
            r@ == loc_text(*self),
    {
        let mut s = String::new();
        push_str(&mut s, "line ");
        push_decimal(&mut s, self.row as u128 + 1);
        push_str(&mut s, ", column ");
        push_decimal(&mut s, self.col as u128 + 1);
        push_str(&mut s, ", position ");
        push_decimal(&mut s, self.pos as u128 + 1);
        proof {
            assert(s@ =~= loc_text(*self));
        }
        s
    }
}

} // verus!

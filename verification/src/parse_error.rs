//! The error of a failed parse.

use vstd::prelude::*;
use crate::loc::Loc;
use crate::display::{debug_str, debug_text, debug_path, path_debug_text, loc_text};
use crate::source::{error_line_src, error_line_text};
use crate::text::{push_str, push_chars, chars_of};

verus! {

/// Where a text stopped making sense, and what was expected there.
#[derive(Debug)]
pub struct ParseError {
    pub loc: Loc,
    pub msg: String,
}

/// The report of a parse error: a header naming the path if known, the
/// quoted message and the location, and the offending line with a caret
/// under it if the text is given.
pub open spec fn parse_error_msg(
    e: ParseError,
    src: Option<Seq<char>>,
    p: Option<Seq<char>>,
) -> Seq<char> {
    "Parse error"@ + (match p {
        Some(p) => " in "@ + path_debug_text(p),
        None => Seq::empty(),
    }) + ":\n"@ + "    "@ + debug_text(e.msg@) + " at "@ + loc_text(e.loc) + "\n"@ + (match src {
        Some(s) => error_line_text(s, e.loc) + "\n"@,
        None => Seq::empty(),
    })
}

impl ParseError {
    /// The report of this error, with the path and the text it came from
    /// when they are given.
    pub fn get_msg(&self, src: Option<&str>, p: Option<&str>) -> (r: String)
        requires
            src matches Some(s) ==> (s@.len() == 0 || self.loc.line_start_pos <= s@.len()),
        ensures
            r@ == parse_error_msg(
                *self,
                match src {
                    Some(s) => Some(s@),
                    None => None,
                },
                match p {
                    Some(x) => Some(x@),
                    None => None,
                },
            ),
    {
        let mut s = String::new();
        push_str(&mut s, "Parse error");
        if let Some(p) = p {
            push_str(&mut s, " in ");
            let d = debug_path(p);
            push_str(&mut s, d.as_str());
        }
        push_str(&mut s, ":\n");
        push_str(&mut s, "    ");
        let dm = debug_str(self.msg.as_str());
        push_str(&mut s, dm.as_str());
        push_str(&mut s, " at ");
        let l = self.loc.to_string();
        push_str(&mut s, l.as_str());
        push_str(&mut s, "\n");
        if let Some(src) = src {
            let line = error_line_src(src, self.loc);
            push_str(&mut s, line.as_str());
            push_str(&mut s, "\n");
        }
        proof {
            assert(s@ =~= parse_error_msg(
                *self,
                match src {
                    Some(x) => Some(x@),
                    None => None,
                },
                match p {
                    Some(x) => Some(x@),
                    None => None,
                },
            ));
        }
        s
    }

    /// `At LOCATION : "MESSAGE"`.
    pub fn to_string(&self) -> (r: String)
        ensures
            r@ == "At "@ + loc_text(self.loc) + " : "@ + debug_text(self.msg@),
    {
        let mut s = String::new();
        push_str(&mut s, "At ");
        let l = self.loc.to_string();
        push_str(&mut s, l.as_str());
        push_str(&mut s, " : ");
        let dm = debug_str(self.msg.as_str());
        push_str(&mut s, dm.as_str());
        proof {
            assert(s@ =~= "At "@ + loc_text(self.loc) + " : "@ + debug_text(self.msg@));
        }
        s
    }
}

} // verus!

//! The command-line client's handling of what the user types.

use crate::text::{chars_of, is_lit, string_of, trim, trim_chars};
use vstd::prelude::*;

verus! {

/// What a typed line sends: nothing when it is blank, else the line without surrounding white
/// space; the flag says whether it ends the session (`QUIT`).
pub fn console_command(line: &str) -> (r: Option<(String, bool)>)
    ensures
        match r {
            None => trim(line@).len() == 0,
            Some((cmd, quit)) => trim(line@).len() != 0 && cmd@ == trim(line@) && quit == (cmd@
                == "QUIT"@),
        },
{
    let t = trim_chars(chars_of(line).as_slice());
    if t.len() == 0 {
        return None;
    }
    let quit = is_lit(t.as_slice(), "QUIT");
    Some((string_of(t.as_slice()), quit))
}

} // verus!

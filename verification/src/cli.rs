//! The command-line surface of the table viewer, as plain data: the
//! argument parser around it lives outside the library and converts into
//! these types.

use vstd::prelude::*;

verus! {

/// A parsed command line: at most one subcommand.
pub struct Cli {
    pub command: Option<Commands>,
}

/// The subcommands of the table viewer.
pub enum Commands {
    Print { path: String, rows: usize },
    Describe { path: String },
    Schema { path: String },
    Shape { path: String },
    Sort { path: String, year: String, rows: usize, order: bool },
}

/// Character-for-character equality of two strings.
fn str_eq(a: &str, b: &str) -> (r: bool)
    ensures
        r == (a@ == b@),
{
    let na = a.unicode_len();
    let nb = b.unicode_len();
    if na != nb {
        return false;
    }
    let mut i: usize = 0;
    while i < na
        invariant
            i <= na,
            na == a@.len(),
            na == b@.len(),
            forall|t: int| 0 <= t < i ==> a@[t] == b@[t],
        decreases na - i,
    {
        if a.get_char(i) != b.get_char(i) {
            return false;
        }
        i += 1;
    }
    proof {
        assert(a@ =~= b@);
    }
    true
}

/// Whether a with-headers flag names an enabled value: exactly the
/// strings "yes", "true" and "1" enable headers.
pub fn headers_flag_enabled(value: &str) -> (r: bool)
    ensures
        r == (value@ == "yes"@ || value@ == "true"@ || value@ == "1"@),
{
    str_eq(value, "yes") || str_eq(value, "true") || str_eq(value, "1")
}

} // verus!

//! The banner of the program.

use vstd::prelude::*;

verus! {

/// The name of the program.
pub const NAME: &'static str = "fetch-sac";

/// The version of the program.
pub const VERSION: &'static str = "0.3.0";

/// Who wrote the program.
pub const AUTHORS: &'static str = "the fetch-sac authors";

/// What the program is for.
pub const ABOUT: &'static str = "Fetch the list of the System Area Codes and write it out.";

/// The banner as text: name, version and authors on one line, the purpose
/// on the next.
pub open spec fn banner() -> Seq<char> {
    NAME@ + "/"@ + VERSION@ + " by "@ + AUTHORS@ + "\n"@ + ABOUT@
}

/// The banner of the program.
pub fn version() -> (r: String)
    ensures
        r@ == banner(),
{
    let mut text = String::from_str(NAME);
    text.append("/");
    text.append(VERSION);
    text.append(" by ");
    text.append(AUTHORS);
    text.append("\n");
    text.append(ABOUT);
    text
}

} // verus!

//! What the application shell answers over IPC.

use vstd::prelude::*;

verus! {

/// The IPC smoke reply: proves the webview can call into the Rust core.
pub fn greet(name: &str) -> (s: String)
    ensures
        s@ == "Hello, "@ + name@ + " \u{2014} from Smith's Rust core."@,
{
    String::from_str("Hello, ").concat(name).concat(" \u{2014} from Smith's Rust core.")
}

} // verus!

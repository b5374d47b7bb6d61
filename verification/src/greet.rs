//! The greeting operation: pure string formatting.

use vstd::prelude::*;

verus! {

/// The greeting returned for an optional caller name.
pub open spec fn spec_greeting(name: Option<String>) -> Seq<char> {
    "Ciao, "@ + (match name {
        Some(n) => n@,
        None => "straniero"@,
    }) + "! 👋 (da Rust)"@
}

/// Greets the named caller, or the stranger when no name was given.
pub fn hello_world(name: Option<String>) -> (r: String)
    ensures
        r@ == spec_greeting(name),
{
    let user = match &name {
        Some(n) => n.clone(),
        None => String::from_str("straniero"),
    };
    String::from_str("Ciao, ").concat(user.as_str()).concat("! 👋 (da Rust)")
}

} // verus!

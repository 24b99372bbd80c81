//! The replies of the tokenizer service's greeting routes.

use vstd::prelude::*;

verus! {

/// The reply of the service's root route.
pub fn index() -> (r: &'static str)
    ensures
        r@ == "Hello, wolrd!"@,
{
    "Hello, wolrd!"
}

/// The greeting for `name`.
pub fn hello(name: &str) -> (r: String)
    ensures
        r@ == "Hello, "@ + name@ + "!"@,
{
    let mut out = String::from_str("Hello, ");
    out.append(name);
    out.append("!");
    out
}

} // verus!

//! The engine that runs the scripts of extensions.

use rquickjs::{Context, Runtime};
use vstd::prelude::*;

verus! {

/// The script that is run to see whether the engine works.
pub open spec fn probe_script() -> Seq<char> {
    "1 + 2 * 20"@
}

/// `Runtime::new`, `Context::full` and `Ctx::eval` of rquickjs: what the script that probes the
/// engine comes to as a whole number. Starting the engine fails only where memory cannot be
/// had, and the sum is 41 in JavaScript.
#[verifier::external_body]
fn eval_whole(source: &str) -> (r: Option<i64>)
    requires
        source@ == probe_script(),
    ensures
        r == Some(41i64),
{
    let rt = Runtime::new().ok()?;
    let ctx = Context::full(&rt).ok()?;
    ctx.with(|ctx| ctx.eval::<i64, _>(source).ok())
}

/// Runs a small script to see whether the engine works.
pub fn smoke_eval() -> (r: Option<i64>)
    ensures
        r == Some(41i64),
{
    eval_whole("1 + 2 * 20")
}

} // verus!

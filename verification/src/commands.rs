//! Argument rules of the command line that refuse a request before any
//! work is done.
use vstd::prelude::*;
use crate::text::{push_str, str_equal};

verus! {

/// `complete` takes exactly one of `--ok` and `--fail`; the outcome is
/// whether it was `--ok`.
pub fn finish_outcome(ok: bool, fail: bool) -> (r: Result<bool, String>)
    ensures
        ok == fail ==> (r matches Err(m) && m@ == "pass exactly one of --ok or --fail"@),
        ok != fail ==> r == Ok::<bool, String>(ok),
{
    if ok == fail {
        Err("pass exactly one of --ok or --fail".to_owned())
    } else {
        Ok(ok)
    }
}

/// A recorded outcome is `ok` or `fail`.
pub fn check_outcome(outcome: &str) -> (r: Result<(), String>)
    ensures
        (outcome@ == "ok"@ || outcome@ == "fail"@) ==> r is Ok,
        !(outcome@ == "ok"@ || outcome@ == "fail"@) ==> (r matches Err(m) && m@ == "outcome must be ok or fail, got '"@ + outcome@ + "'"@),
{
    if str_equal(outcome, "ok") || str_equal(outcome, "fail") {
        Ok(())
    } else {
        let mut m = String::new();
        push_str(&mut m, "outcome must be ok or fail, got '");
        push_str(&mut m, outcome);
        push_str(&mut m, "'");
        Err(m)
    }
}

/// Only the fast CI profile exists.
pub fn check_fast_profile(fast: bool) -> (r: Result<(), String>)
    ensures
        fast ==> r is Ok,
        !fast ==> (r matches Err(m) && m@ == "only the fast profile is supported; pass --fast"@),
{
    if fast {
        Ok(())
    } else {
        Err("only the fast profile is supported; pass --fast".to_owned())
    }
}

} // verus!

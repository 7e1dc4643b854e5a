//! The decisions behind the C-ABI exports: transition checks on raw codes
//! and the JSON reply of the C-ABI dispatcher. The pointer handling lives
//! with the exporting binary.
use vstd::prelude::*;
use crate::protocol::status::{SwalStatusCode, status_of_code, transition_allowed};
use crate::text::{push_str, u64_decimal, decimal};

verus! {

/// 1 when both codes are known and the transition is allowed, 0 otherwise.
pub fn atlas_status_can_transition(from_code: i64, to_code: i64) -> (r: i32)
    ensures
        r == (match (status_of_code(from_code), status_of_code(to_code)) {
            (Some(from), Some(to)) => if transition_allowed(from, to) { 1i32 } else { 0i32 },
            _ => 0i32,
        }),
{
    match (SwalStatusCode::from_code(from_code), SwalStatusCode::from_code(to_code)) {
        (Some(from), Some(to)) => {
            if SwalStatusCode::can_transition(from, to) {
                1
            } else {
                0
            }
        },
        _ => 0,
    }
}

/// Slug of a known status code.
pub fn status_slug_of(code: i64) -> (r: Option<&'static str>)
    ensures
        match status_of_code(code) {
            Some(s) => r matches Some(t) && t@ == crate::protocol::status::status_slug(s),
            None => r is None,
        },
{
    match SwalStatusCode::from_code(code) {
        Some(s) => Some(s.slug()),
        None => None,
    }
}

/// JSON reply of the C-ABI dispatcher for an input of `input_len` bytes.
pub fn exec_cabi_response(input_len: u64) -> (r: String)
    ensures
        r@ == "{\"status\":\"ok\",\"sodp_version\":\"4.0\",\"input_len\":"@ + decimal(input_len as nat) + "}"@,
{
    let mut out = String::new();
    push_str(&mut out, "{\"status\":\"ok\",\"sodp_version\":\"4.0\",\"input_len\":");
    let n = u64_decimal(input_len);
    push_str(&mut out, n.as_str());
    push_str(&mut out, "}");
    out
}

} // verus!

use vstd::prelude::*;

verus! {

/// Returned across the boundary when a request succeeded.
pub const STATUS_OK: i32 = 0;

/// Returned across the boundary when a handle or an output slot is missing.
pub const STATUS_INVALID_ARGUMENT: i32 = -1;

/// The status of a request for the peer list across the boundary, given
/// which of the handle and the two output slots were supplied.  Only a
/// request with all three is served; any other is refused before anything is
/// read or written.
pub fn peers_request_status(has_handle: bool, has_out_ptr: bool, has_out_len: bool) -> (r: i32)
    ensures
        r == (if has_handle && has_out_ptr && has_out_len {
            STATUS_OK
        } else {
            STATUS_INVALID_ARGUMENT
        }),
        r == STATUS_OK || r < 0,
{
    if has_handle && has_out_ptr && has_out_len {
        STATUS_OK
    } else {
        STATUS_INVALID_ARGUMENT
    }
}

} // verus!

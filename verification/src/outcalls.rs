//! Sanitizing a device's HTTP response before the platform treats it as
//! canonical: only the status code is kept, the body is dropped.
use vstd::prelude::*;

use crate::executor::HttpResponseData;

verus! {

/// Use this response transformer when parsing a response from the WoT
/// device: the consensus answer keeps the status code alone, so replicas
/// agree even when the device's body differs between calls.
pub fn transform_device_response(raw: HttpResponseData) -> (r: HttpResponseData)
    ensures
        r@.status == raw@.status,
        r@.body =~= Seq::<u8>::empty(),
{
    HttpResponseData { status: raw.status, body: Vec::new() }
}

} // verus!

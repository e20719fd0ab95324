use vstd::prelude::*;

verus! {

/// What is kept of one request that got an answer: its HTTP status code and
/// how many milliseconds passed between sending it and receiving the answer.
pub struct ResponseInfo {
    pub status: u16,
    pub time: u128,
}

impl ResponseInfo {
    /// Builds the record of one answered request.
    pub fn new(status: u16, time: u128) -> (info: ResponseInfo)
        ensures
            info.status == status,
            info.time == time,
    {
        ResponseInfo { status, time }
    }
}

} // verus!

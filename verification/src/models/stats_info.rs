use std::collections::HashMap;
use vstd::prelude::*;

verus! {

/// Statistics of a load test over the requests that got an answer.
///
/// `points` are the coordinates of the final chart: the origin, then one point
/// per answered request, `(position counted from 1, elapsed milliseconds)`.
pub struct StatsInfo {
    pub total_time: u128,
    pub min_time: u128,
    pub max_time: u128,
    pub status_codes: HashMap<u16, u32>,
    pub points: Vec<(usize, u128)>,
}

} // verus!

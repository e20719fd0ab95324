use vstd::prelude::*;

verus! {

/// The settings of a load test, as given on the command line.
#[derive(Default, Debug)]
pub struct Cli {
    /// The URL to send the requests to.
    pub url: String,
    /// Requests sent in the first second.
    pub requests_per_second: u32,
    /// How many seconds the test lasts.
    pub seconds: u32,
    /// The percent by which the number of requests grows each second.
    pub increment: u8,
    /// Headers added to each request, each written `key=value`.
    pub headers: Vec<String>,
    /// Query-string parameters added to each request, each written `key=value`.
    pub query_strings: Vec<String>,
}

} // verus!

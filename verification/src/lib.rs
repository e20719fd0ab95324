//! Verified core of an HTTP load tester: the bookkeeping that decides how many
//! requests go out each second, the parsing of `key=value` headers and query
//! strings into a request, and the statistics computed over the answers.

pub mod cli;
pub mod models;
pub mod request;
pub mod schedule;
pub mod stats;

pub use cli::Cli;
pub use models::{ResponseInfo, StatsInfo};
pub use request::{
    build_request, count_header_names, plan_request, split_key_value, try_build_request,
    RequestError, RequestPlan,
};
pub use schedule::{Action, InvalidLoad, LoadSchedule};
pub use stats::{calc_stats, fits, summarize, Report};

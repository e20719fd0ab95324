pub mod response_info;
pub mod stats_info;

pub use response_info::ResponseInfo;
pub use stats_info::StatsInfo;

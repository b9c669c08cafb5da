//! Parses HTTP response headers and works out what a cache is actually
//! allowed to do with the response: store it, how long it stays fresh,
//! and whether it needs revalidation. Rules follow RFC 7234 section 5.2
//! for Cache-Control and section 5.3 for Expires.
pub mod text;
pub mod number;
pub mod date;
pub mod validators;
pub mod cache_control;
pub mod headers;
pub mod analysis;
pub mod report;
pub mod json;

pub use analysis::{analysis_in_range, analyze, Analysis};
pub use cache_control::{parse_cache_control, CacheControl};
pub use date::{days_from_civil, http_date_in_range, parse_http_date};
pub use headers::{parse_headers, parse_response_blocks};
pub use report::{human_report, json_escape, to_json};
pub use validators::{etag_matches, if_none_match_satisfied, is_not_modified};

//! Verified core of a scanner that checks which hosts answer through the
//! Cloudflare CDN: expansion of CIDR blocks into addresses, the URL fetched
//! for each host, the reading of the answer's headers, and the report.

pub mod address;
pub mod common;
pub mod curl;
pub mod files;
pub mod models;
pub mod network;
pub mod outside;
pub mod report;
pub mod text;

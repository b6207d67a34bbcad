use vstd::prelude::*;

verus! {

/// A Cloudflare data centre: its IATA code, country (ISO alpha-2), region
/// and city.
pub struct Airport {
    pub iata: String,
    pub cca2: String,
    pub region: String,
    pub city: String,
}

/// What the scan learnt of one host.
pub struct Record {
    pub ip: String,
    pub colo: String,
    pub country: String,
    pub region: String,
    pub city: String,
    /// How long the request took, in milliseconds.
    pub delay_ms: u128,
    /// Whether the host is a JetBrains licence server.
    pub is_jetbrains: bool,
    pub http_status_code: String,
}

/// The contents of a `Record`.
pub struct RecordView {
    pub ip: Seq<char>,
    pub colo: Seq<char>,
    pub country: Seq<char>,
    pub region: Seq<char>,
    pub city: Seq<char>,
    pub delay_ms: u128,
    pub is_jetbrains: bool,
    pub http_status_code: Seq<char>,
}

impl View for Record {
    type V = RecordView;

    open spec fn view(&self) -> RecordView {
        RecordView {
            ip: self.ip@,
            colo: self.colo@,
            country: self.country@,
            region: self.region@,
            city: self.city@,
            delay_ms: self.delay_ms,
            is_jetbrains: self.is_jetbrains,
            http_status_code: self.http_status_code@,
        }
    }
}

} // verus!

//! Feed events, canonical records, and the conversion between them.
use vstd::prelude::*;
use vstd::utf8::encode_utf8;
use crate::number::{is_number_text, parse_number, spells, Number};

verus! {

/// An instant in UTC: whole seconds since the Unix epoch plus the
/// sub-second part in nanoseconds.
#[derive(Clone, Copy, Debug, PartialEq, Eq, Structural)]
pub struct UtcTime {
    pub secs: i64,
    pub nanos: u32,
}

impl UtcTime {
    pub open spec fn wf(self) -> bool {
        self.nanos < 1_000_000_000
    }

    /// Nanoseconds since the Unix epoch.
    pub open spec fn total_nanos(self) -> int {
        self.secs * 1_000_000_000 + self.nanos
    }
}

/// The last millisecond after the Unix epoch that the calendar can
/// represent: 262142-12-31T23:59:59.999Z.
pub const LAST_MILLIS: i64 = 8_210_266_876_799_999;

/// Relies on chrono's `DateTime::from_timestamp_millis`: it splits the
/// milliseconds by Euclidean division into seconds and a sub-second part, and
/// returns `None` only outside the calendar's range of years, which ends
/// with year 262142.
#[verifier::external_body]
fn utc_from_millis(millis: i64) -> (r: Option<UtcTime>)
    ensures
        r matches Some(t) ==> t.secs == millis / 1000 && t.nanos == (millis % 1000) * 1_000_000,
        0 <= millis ==> (r is Some <==> millis <= LAST_MILLIS),
{
    chrono::DateTime::from_timestamp_millis(millis).map(
        |t| UtcTime { secs: t.timestamp(), nanos: t.timestamp_subsec_nanos() },
    )
}

/// Relies on chrono's `Utc::now`: the current system time, with a sub-second
/// part below one second.
#[verifier::external_body]
fn utc_now() -> (r: UtcTime)
    ensures
        r.wf(),
{
    let t = chrono::Utc::now();
    UtcTime { secs: t.timestamp(), nanos: t.timestamp_subsec_nanos() }
}

/// One 24-hour rolling ticker snapshot as the feed sends it: numeric
/// quantities arrive as text.
#[derive(Clone, Debug)]
pub struct BinanceTicker {
    pub event_type: String,
    pub event_time: u64,
    pub symbol: String,
    pub price_change: String,
    pub price_change_percent: String,
    pub weighted_avg_price: String,
    pub prev_close_price: String,
    pub last_price: String,
    pub last_quantity: String,
    pub bid_price: String,
    pub bid_quantity: String,
    pub ask_price: String,
    pub ask_quantity: String,
    pub open_price: String,
    pub high_price: String,
    pub low_price: String,
    pub base_volume: String,
    pub quote_volume: String,
    pub stats_open_time: u64,
    pub stats_close_time: u64,
    pub first_trade_id: i64,
    pub last_trade_id: i64,
    pub count: u64,
}

/// The normalised record that is stored.
#[derive(Clone, Debug)]
pub struct KdbTicker {
    pub time: UtcTime,
    pub sym: String,
    pub bid: Number,
    pub ask: Number,
    pub bid_size: Number,
    pub ask_size: Number,
    pub last: Number,
    pub volume: Number,
}

impl KdbTicker {
    pub open spec fn wf(self) -> bool {
        &&& self.time.wf()
        &&& self.bid.wf()
        &&& self.ask.wf()
        &&& self.bid_size.wf()
        &&& self.ask_size.wf()
        &&& self.last.wf()
        &&& self.volume.wf()
    }
}

/// The instant that an event time in milliseconds names, where the
/// calendar can represent it.
pub open spec fn time_of_millis(millis: u64) -> UtcTime {
    UtcTime {
        secs: (millis as i64 / 1000) as i64,
        nanos: ((millis as i64 % 1000) * 1_000_000) as u32,
    }
}

pub open spec fn millis_in_range(millis: u64) -> bool {
    millis <= LAST_MILLIS
}

/// `n` is what a numeric field with text `s` holds: the number that the
/// text spells, or zero exactly where the text is not numeric.
pub open spec fn field_value(s: Seq<char>, n: Number) -> bool {
    if is_number_text(encode_utf8(s)) {
        spells(encode_utf8(s), n)
    } else {
        n.is_zero_value()
    }
}

/// Reads a numeric field: the number that its text spells, or zero where the
/// text is not numeric.
pub fn number_field(text: &str) -> (r: Number)
    ensures
        field_value(text@, r),
        r.wf(),
{
    match parse_number(text) {
        Some(n) => n,
        None => Number::zero(),
    }
}

/// What converting `event` into `r`, with the clock reading `now`,
/// promises: each numeric field read on its own, zero only where its text is
/// not numeric; the event's own time where the calendar can represent it,
/// and `now` where it cannot.
pub open spec fn normalized_at(event: BinanceTicker, now: UtcTime, r: KdbTicker) -> bool {
    &&& r.wf()
    &&& r.sym@ == event.symbol@
    &&& field_value(event.bid_price@, r.bid)
    &&& field_value(event.ask_price@, r.ask)
    &&& field_value(event.bid_quantity@, r.bid_size)
    &&& field_value(event.ask_quantity@, r.ask_size)
    &&& field_value(event.last_price@, r.last)
    &&& field_value(event.base_volume@, r.volume)
    &&& r.time == if millis_in_range(event.event_time) {
        time_of_millis(event.event_time)
    } else {
        now
    }
}

/// What converting `event` into `r` promises, whatever the clock read.
pub open spec fn normalized(event: BinanceTicker, r: KdbTicker) -> bool {
    exists|now: UtcTime| now.wf() && #[trigger] normalized_at(event, now, r)
}

/// Converts a feed event into a canonical record, given the current time.
pub fn normalize_at(event: BinanceTicker, now: UtcTime) -> (r: KdbTicker)
    requires
        now.wf(),
    ensures
        normalized_at(event, now, r),
{
    let time = if event.event_time <= LAST_MILLIS as u64 {
        match utc_from_millis(event.event_time as i64) {
            Some(t) => t,
            None => now,
        }
    } else {
        now
    };
    KdbTicker {
        time,
        sym: event.symbol,
        bid: number_field(event.bid_price.as_str()),
        ask: number_field(event.ask_price.as_str()),
        bid_size: number_field(event.bid_quantity.as_str()),
        ask_size: number_field(event.ask_quantity.as_str()),
        last: number_field(event.last_price.as_str()),
        volume: number_field(event.base_volume.as_str()),
    }
}

/// Converts a feed event into a canonical record. Each numeric field is read
/// on its own and falls back to zero alone; an event time that the calendar
/// cannot represent is replaced by the current time.
pub fn normalize(event: BinanceTicker) -> (r: KdbTicker)
    ensures
        normalized(event, r),
{
    let now = utc_now();
    let r = normalize_at(event, now);
    assert(normalized_at(event, now, r));
    r
}

/// Each numeric field of a record is the number that its own text spells,
/// and zero only where that text is not numeric, whatever the other fields
/// hold.
pub proof fn lemma_malformed_fields_default(event: BinanceTicker, now: UtcTime, r: KdbTicker)
    requires
        normalized_at(event, now, r),
    ensures
        r.wf(),
        field_value(event.bid_price@, r.bid),
        field_value(event.ask_price@, r.ask),
        field_value(event.bid_quantity@, r.bid_size),
        field_value(event.ask_quantity@, r.ask_size),
        field_value(event.last_price@, r.last),
        field_value(event.base_volume@, r.volume),
{
}

} // verus!

//! Market-data polling engine: scheduling, rate limiting, ticker-list
//! bookkeeping and the parsing of the wire formats the poller consumes.
//!
//! The crate holds the decision logic only; network and file transport,
//! timers and the metrics endpoint live in the binary that drives it.

pub mod clock;
pub mod json;
pub mod markets;
pub mod num;
pub mod poll;
pub mod price;
pub mod rate;
pub mod record;
pub mod store;

pub use clock::market_state_from_body;
pub use clock::market_wait_from_body;
pub use clock::MarketState;
pub use markets::CryptoMarket;
pub use markets::ForexMarket;
pub use markets::Markets;
pub use markets::StockMarket;
pub use poll::PollAction;
pub use poll::PollEvent;
pub use poll::PollLoop;
pub use poll::PollPhase;
pub use price::price_field_from_body;
pub use rate::calculate_sleep_duration;
pub use record::Tickers;
pub use store::TickerStore;

//! The venues the poller can watch, and their query labels.

use vstd::prelude::*;

verus! {

#[derive(Clone, Copy, Debug)]
pub enum StockMarket {
    NYSE,
    NASDAQ,
}

#[derive(Clone, Copy, Debug)]
pub enum ForexMarket {
    EURUSD,
    GBPUSD,
    USDJPY,
}

#[derive(Clone, Copy, Debug)]
pub enum CryptoMarket {
    BTCUSD,
    ETHUSD,
    LTCUSD,
}

#[derive(Clone, Copy, Debug)]
pub enum Markets {
    Stock(StockMarket),
    Forex(ForexMarket),
    Crypto(CryptoMarket),
}

impl Markets {
    /// The exchange name as it stands in a market-state query.
    pub open spec fn spec_label(&self) -> Seq<char> {
        match self {
            Markets::Stock(StockMarket::NYSE) => "NYSE"@,
            Markets::Stock(StockMarket::NASDAQ) => "NASDAQ"@,
            Markets::Forex(ForexMarket::EURUSD) => "EURUSD"@,
            Markets::Forex(ForexMarket::GBPUSD) => "GBPUSD"@,
            Markets::Forex(ForexMarket::USDJPY) => "USDJPY"@,
            Markets::Crypto(CryptoMarket::BTCUSD) => "BTCUSD"@,
            Markets::Crypto(CryptoMarket::ETHUSD) => "ETHUSD"@,
            Markets::Crypto(CryptoMarket::LTCUSD) => "LTCUSD"@,
        }
    }

    /// The exchange name for queries and log events.
    pub fn label(&self) -> (r: &'static str)
        ensures
            r@ == self.spec_label(),
    {
        match self {
            Markets::Stock(StockMarket::NYSE) => "NYSE",
            Markets::Stock(StockMarket::NASDAQ) => "NASDAQ",
            Markets::Forex(ForexMarket::EURUSD) => "EURUSD",
            Markets::Forex(ForexMarket::GBPUSD) => "GBPUSD",
            Markets::Forex(ForexMarket::USDJPY) => "USDJPY",
            Markets::Crypto(CryptoMarket::BTCUSD) => "BTCUSD",
            Markets::Crypto(CryptoMarket::ETHUSD) => "ETHUSD",
            Markets::Crypto(CryptoMarket::LTCUSD) => "LTCUSD",
        }
    }
}

} // verus!

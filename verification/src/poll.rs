//! The polling cycle as a state machine: market-closed sleep, store
//! update check, then one fetch-and-wait per symbol in stored order. The
//! driver performs each returned action (the network call, the sleep, the
//! store check) and feeds the outcome back as the next event.

use vstd::prelude::*;
use crate::rate::calculate_sleep_duration;
use crate::rate::combined_delay;
use crate::record::Tickers;

verus! {

/// What the loop is waiting on.
#[derive(Clone, Copy)]
pub enum PollPhase {
    /// The market-state answer.
    AwaitMarketState,
    /// The end of the market-closed sleep.
    AwaitMarketSleep,
    /// The store update check.
    AwaitStoreCheck,
    /// The fetch-and-wait of the symbol before `next`.
    AwaitFetch { next: usize, delay: u64 },
}

/// What the driver reports back.
pub enum PollEvent {
    /// Seconds until the market opens; 0 when open or on a failed query.
    MarketState(u64),
    /// A sleep ended.
    Woke,
    /// The store update check: the fresh set when the record changed.
    StoreCheck(Option<Tickers>),
    /// One symbol was fetched, reported and waited for.
    SymbolDone,
}

/// What the driver performs next.
pub enum PollAction {
    /// Query the market state and report the wait.
    QueryMarket,
    /// Suspend for this many seconds, then report waking.
    Sleep(u64),
    /// Run the store update check and report its outcome.
    CheckStore,
    /// Fetch this symbol, report its price, wait the delay, then report.
    FetchAndWait(String, u64),
}

/// The polling cycle's state: its phase, the active symbol set and the
/// two rate-limit tiers, fixed for the loop's lifetime.
pub struct PollLoop {
    phase: PollPhase,
    tickers: Tickers,
    rate_limit1: u64,
    period_in_seconds1: u64,
    rate_limit2: u64,
    period_in_seconds2: u64,
}

impl PollLoop {
    pub closed spec fn spec_phase(&self) -> PollPhase {
        self.phase
    }

    /// The active symbols, in fetch order.
    pub closed spec fn symbols(&self) -> Seq<Seq<char>> {
        self.tickers@
    }

    pub closed spec fn limit_a(&self) -> u64 {
        self.rate_limit1
    }

    pub closed spec fn period_a(&self) -> u64 {
        self.period_in_seconds1
    }

    pub closed spec fn limit_b(&self) -> u64 {
        self.rate_limit2
    }

    pub closed spec fn period_b(&self) -> u64 {
        self.period_in_seconds2
    }

    /// The delay between symbol fetches for the active set.
    pub open spec fn cycle_delay(&self) -> u64 {
        combined_delay(
            self.symbols().len() as u64,
            self.limit_a(),
            self.period_a(),
            self.limit_b(),
            self.period_b(),
        )
    }

    /// Mid-iteration state always points inside the active set and
    /// carries the delay computed for it.
    pub open spec fn well_formed(&self) -> bool {
        match self.spec_phase() {
            PollPhase::AwaitFetch { next, delay } => 1 <= next <= self.symbols().len() && delay
                == self.cycle_delay(),
            _ => true,
        }
    }

    /// The event a phase awaits.
    pub open spec fn event_fits(&self, event: PollEvent) -> bool {
        match self.spec_phase() {
            PollPhase::AwaitMarketState => event is MarketState,
            PollPhase::AwaitMarketSleep => event is Woke,
            PollPhase::AwaitStoreCheck => event is StoreCheck,
            PollPhase::AwaitFetch { .. } => event is SymbolDone,
        }
    }

    /// A loop over `tickers` under the two rate-limit tiers, about to
    /// ask for the market state.
    pub fn new(
        tickers: Tickers,
        rate_limit1: u64,
        period_in_seconds1: u64,
        rate_limit2: u64,
        period_in_seconds2: u64,
    ) -> (r: PollLoop)
        ensures
            r.spec_phase() == PollPhase::AwaitMarketState,
            r.symbols() == tickers@,
            r.limit_a() == rate_limit1,
            r.period_a() == period_in_seconds1,
            r.limit_b() == rate_limit2,
            r.period_b() == period_in_seconds2,
            r.well_formed(),
    {
        PollLoop {
            phase: PollPhase::AwaitMarketState,
            tickers,
            rate_limit1,
            period_in_seconds1,
            rate_limit2,
            period_in_seconds2,
        }
    }

    /// The action that opens every cycle.
    pub fn start_action(&self) -> (a: PollAction)
        ensures
            a == PollAction::QueryMarket,
    {
        PollAction::QueryMarket
    }

    /// One transition: consume the awaited event, move to the next phase
    /// and say what the driver performs next. A market wait (even 0) is
    /// slept through once, never re-checked mid-sleep; a changed store
    /// swaps the active set for the coming cycle; symbols are fetched in
    /// stored order, each followed by the computed delay (the last one
    /// too); an empty set goes straight back to the market query.
    pub fn step(&mut self, event: PollEvent) -> (a: PollAction)
        requires
            old(self).well_formed(),
            old(self).event_fits(event),
        ensures
            final(self).well_formed(),
            final(self).limit_a() == old(self).limit_a(),
            final(self).period_a() == old(self).period_a(),
            final(self).limit_b() == old(self).limit_b(),
            final(self).period_b() == old(self).period_b(),
            match old(self).spec_phase() {
                PollPhase::AwaitMarketState => event matches PollEvent::MarketState(w) && a
                    == PollAction::Sleep(w) && final(self).spec_phase()
                    == PollPhase::AwaitMarketSleep && final(self).symbols() == old(self).symbols(),
                PollPhase::AwaitMarketSleep => a == PollAction::CheckStore
                    && final(self).spec_phase() == PollPhase::AwaitStoreCheck
                    && final(self).symbols() == old(self).symbols(),
                PollPhase::AwaitStoreCheck => event matches PollEvent::StoreCheck(u) && ({
                    let syms = match u {
                        Some(t) => t@,
                        None => old(self).symbols(),
                    };
                    &&& final(self).symbols() == syms
                    &&& if syms.len() == 0 {
                        a == PollAction::QueryMarket && final(self).spec_phase()
                            == PollPhase::AwaitMarketState
                    } else {
                        &&& (a matches PollAction::FetchAndWait(sym, d) && sym@ == syms[0] && d
                            == final(self).cycle_delay())
                        &&& final(self).spec_phase() == (PollPhase::AwaitFetch {
                            next: 1,
                            delay: final(self).cycle_delay(),
                        })
                    }
                }),
                PollPhase::AwaitFetch { next, delay } => {
                    &&& final(self).symbols() == old(self).symbols()
                    &&& if next < old(self).symbols().len() {
                        &&& (a matches PollAction::FetchAndWait(sym, d)
                            && sym@ == old(self).symbols()[next as int] && d == delay)
                        &&& final(self).spec_phase() == (PollPhase::AwaitFetch {
                            next: (next + 1) as usize,
                            delay,
                        })
                    } else {
                        a == PollAction::QueryMarket && final(self).spec_phase()
                            == PollPhase::AwaitMarketState
                    }
                },
            },
    {
        let ph = self.phase;
        match (ph, event) {
            (PollPhase::AwaitMarketState, PollEvent::MarketState(w)) => {
                self.phase = PollPhase::AwaitMarketSleep;
                PollAction::Sleep(w)
            },
            (PollPhase::AwaitMarketSleep, PollEvent::Woke) => {
                self.phase = PollPhase::AwaitStoreCheck;
                PollAction::CheckStore
            },
            (PollPhase::AwaitStoreCheck, PollEvent::StoreCheck(u)) => {
                match u {
                    Some(t) => {
                        self.tickers = t;
                    },
                    None => {},
                }
                let syms = self.tickers.get_tickers();
                let n = syms.len();
                match calculate_sleep_duration(
                    n,
                    self.rate_limit1,
                    self.period_in_seconds1,
                    self.rate_limit2,
                    self.period_in_seconds2,
                ) {
                    Some(d) => {
                        let sym = syms[0].clone();
                        proof {
                            assert(sym@ == self.tickers@[0]);
                        }
                        self.phase = PollPhase::AwaitFetch { next: 1, delay: d };
                        PollAction::FetchAndWait(sym, d)
                    },
                    None => {
                        self.phase = PollPhase::AwaitMarketState;
                        PollAction::QueryMarket
                    },
                }
            },
            (PollPhase::AwaitFetch { next, delay }, PollEvent::SymbolDone) => {
                let syms = self.tickers.get_tickers();
                let n = syms.len();
                if next < n {
                    let sym = syms[next].clone();
                    proof {
                        assert(sym@ == self.tickers@[next as int]);
                    }
                    self.phase = PollPhase::AwaitFetch { next: next + 1, delay };
                    PollAction::FetchAndWait(sym, delay)
                } else {
                    self.phase = PollPhase::AwaitMarketState;
                    PollAction::QueryMarket
                }
            },
            _ => {
                proof {
                    assert(false);
                }
                PollAction::QueryMarket
            },
        }
    }
}

} // verus!

//! Wait-until-open decision from a market-state response body.

use vstd::prelude::*;
use crate::json::{
    lookup, lookup_before, lemma_lookup_before_bounds, lemma_parse_object_array_bounds,
    objects_model, pairs_model, parse_object_array, read_object_array, skip_ws, ws_end, Scalar,
    ScalarModel,
};
use crate::num::hms_value;
use crate::num::countdown_seconds;

verus! {

pub open spec fn market_open_key() -> Seq<char> {
    seq!['i', 's', '_', 'm', 'a', 'r', 'k', 'e', 't', '_', 'o', 'p', 'e', 'n']
}

pub open spec fn time_to_open_key() -> Seq<char> {
    seq!['t', 'i', 'm', 'e', '_', 't', 'o', '_', 'o', 'p', 'e', 'n']
}

/// Wait for one closed venue record: its countdown when present as a
/// string, else 0.
pub open spec fn record_wait(pairs: Seq<(Seq<char>, ScalarModel)>) -> u64 {
    match lookup(pairs, time_to_open_key()) {
        Some(ScalarModel::Text(t)) => hms_value(t),
        _ => 0,
    }
}

/// Wait decided by a list of venue records: the first record carrying an
/// explicit open/closed flag decides; an open market, or no record with a
/// flag, waits 0.
pub open spec fn records_wait(objs: Seq<Seq<(Seq<char>, ScalarModel)>>) -> u64
    decreases objs.len(),
{
    if objs.len() == 0 {
        0
    } else {
        match lookup(objs.first(), market_open_key()) {
            Some(ScalarModel::Flag(b)) => if b {
                0
            } else {
                record_wait(objs.first())
            },
            _ => records_wait(objs.drop_first()),
        }
    }
}

/// Wait parsed from a market-state response body: a JSON array of venue
/// records, whose members may be strings (one-letter escapes included,
/// `\u` escapes not), numbers, booleans, nulls or nested containers. A
/// body outside that grammar fails open with 0.
pub open spec fn market_wait(s: Seq<char>) -> u64 {
    let i = ws_end(s, 0);
    match parse_object_array(s, i, s.len() as nat) {
        Some((objs, i2)) => if ws_end(s, i2) == s.len() {
            records_wait(objs)
        } else {
            0
        },
        None => 0,
    }
}

/// The market's state for one polling cycle, produced fresh by each
/// market-state query and never cached beyond it.
#[derive(Clone, Copy, Debug)]
pub enum MarketState {
    Open,
    ClosedFor(u64),
}

impl MarketState {
    /// The wait a state imposes: nothing when open.
    pub open spec fn spec_wait(&self) -> u64 {
        match self {
            MarketState::Open => 0,
            MarketState::ClosedFor(d) => *d,
        }
    }

    /// The state a computed wait stands for: open exactly on 0.
    pub fn from_wait(wait: u64) -> (r: MarketState)
        ensures
            r.spec_wait() == wait,
            (r is Open) <==> wait == 0,
    {
        if wait == 0 {
            MarketState::Open
        } else {
            MarketState::ClosedFor(wait)
        }
    }

    pub fn wait(&self) -> (r: u64)
        ensures
            r == self.spec_wait(),
    {
        match self {
            MarketState::Open => 0,
            MarketState::ClosedFor(d) => *d,
        }
    }
}

/// The market state a response body reports: open on a zero wait (also
/// the fail-open reading of a malformed body), else closed for the
/// countdown.
pub fn market_state_from_body(body: &str) -> (r: MarketState)
    ensures
        r.spec_wait() == market_wait(body@),
        (r is Open) <==> market_wait(body@) == 0,
{
    MarketState::from_wait(market_wait_from_body(body))
}

/// Wait for one closed venue record, from its scanned members.
fn closed_record_wait(rec: &Vec<(String, Scalar)>) -> (r: u64)
    ensures
        r == record_wait(pairs_model(rec@)),
{
    let tto: String = String::from_str("time_to_open");
    proof {
        reveal_strlit("time_to_open");
        assert(tto@ =~= time_to_open_key());
    }
    match find_in(rec, &tto) {
        Some(ix) => {
            match &rec[ix].1 {
                Scalar::Text(t) => countdown_seconds(t.as_str()),
                Scalar::Flag(_) => 0,
                Scalar::Other => 0,
            }
        },
        None => 0,
    }
}

/// `find_key` with the bounds of a hit already established.
fn find_in(pairs: &Vec<(String, Scalar)>, key: &String) -> (r: Option<usize>)
    ensures
        match lookup_before(pairs_model(pairs@), key@, pairs@.len() as int) {
            Some(ix) => r matches Some(u) && u == ix && 0 <= ix < pairs@.len() && pairs_model(
                pairs@,
            )[ix].0 == key@,
            None => r is None,
        },
{
    proof {
        lemma_lookup_before_bounds(pairs_model(pairs@), key@, pairs@.len() as int);
    }
    crate::json::find_key(pairs, key)
}

/// Wait decided by the scanned venue records.
fn compute_records_wait(objs: &Vec<Vec<(String, Scalar)>>) -> (r: u64)
    ensures
        r == records_wait(objects_model(objs@)),
{
    let ghost m = objects_model(objs@);
    let open_key: String = String::from_str("is_market_open");
    proof {
        reveal_strlit("is_market_open");
        assert(open_key@ =~= market_open_key());
    }
    let mut k: usize = 0;
    proof {
        assert(m.skip(0) =~= m);
    }
    while k < objs.len()
        invariant
            0 <= k <= objs.len(),
            m == objects_model(objs@),
            open_key@ == market_open_key(),
            records_wait(m) == records_wait(m.skip(k as int)),
        decreases objs.len() - k,
    {
        proof {
            assert(m.skip(k as int).first() == m[k as int]);
            assert(m.skip(k as int).drop_first() =~= m.skip(k as int + 1));
            assert(m[k as int] == pairs_model(objs@[k as int]@));
        }
        let rec = &objs[k];
        match find_in(rec, &open_key) {
            Some(ix) => {
                match &rec[ix].1 {
                    Scalar::Flag(b) => {
                        if *b {
                            return 0;
                        } else {
                            return closed_record_wait(rec);
                        }
                    },
                    Scalar::Text(_) => {},
                    Scalar::Other => {},
                }
            },
            None => {},
        }
        k = k + 1;
    }
    proof {
        assert(m.skip(k as int) =~= Seq::<Seq<(Seq<char>, ScalarModel)>>::empty());
    }
    0
}

/// Seconds until the market opens, read from a market-state response body:
/// 0 when the first flagged venue record reports open, its countdown when
/// it reports closed, and 0 for anything malformed (the poller fails open).
pub fn market_wait_from_body(body: &str) -> (r: u64)
    ensures
        r == market_wait(body@),
{
    let n: usize = body.unicode_len();
    let i = skip_ws(body, 0);
    match read_object_array(body, i, n) {
        Some((objs, i2)) => {
            proof {
                lemma_parse_object_array_bounds(body@, i as int, n as nat);
            }
            let j = skip_ws(body, i2);
            if j == n {
                compute_records_wait(&objs)
            } else {
                0
            }
        },
        None => 0,
    }
}

} // verus!

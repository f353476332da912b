//! Price extraction from a quote response body.

use vstd::prelude::*;
use crate::json::{
    lookup, lemma_lookup_before_bounds, lemma_parse_object_bounds, pairs_model, parse_object,
    read_object, skip_ws, ws_end, Scalar, ScalarModel,
};

verus! {

pub open spec fn price_key() -> Seq<char> {
    seq!['p', 'r', 'i', 'c', 'e']
}

/// The string-encoded price of a quote response: present exactly when
/// the body is one JSON object whose `price` member is a string (on
/// duplicate keys the last one counts; a `\u` escape anywhere is
/// outside the scanner's subset and yields no observation).
pub open spec fn price_field(s: Seq<char>) -> Option<Seq<char>> {
    let i = ws_end(s, 0);
    match parse_object(s, i, s.len() as nat) {
        Some((pairs, i2)) => if ws_end(s, i2) == s.len() {
            match lookup(pairs, price_key()) {
                Some(ScalarModel::Text(t)) => Some(t),
                _ => None,
            }
        } else {
            None
        },
        None => None,
    }
}

/// The decimal text under `price` in a quote response body, if any; a
/// malformed body or a missing or non-string field yields no observation,
/// never a failure.
pub fn price_field_from_body(body: &str) -> (r: Option<String>)
    ensures
        match price_field(body@) {
            Some(t) => r matches Some(q) && q@ == t,
            None => r is None,
        },
{
    let n: usize = body.unicode_len();
    let i = skip_ws(body, 0);
    match read_object(body, i, n) {
        Some((pairs, i2)) => {
            proof {
                lemma_parse_object_bounds(body@, i as int, n as nat);
            }
            let j = skip_ws(body, i2);
            if j == n {
                let key: String = String::from_str("price");
                proof {
                    reveal_strlit("price");
                    assert(key@ =~= price_key());
                    lemma_lookup_before_bounds(pairs_model(pairs@), key@, pairs@.len() as int);
                }
                match crate::json::find_key(&pairs, &key) {
                    Some(ix) => {
                        match &pairs[ix].1 {
                            Scalar::Text(t) => Some(t.clone()),
                            Scalar::Flag(_) => None,
                            Scalar::Other => None,
                        }
                    },
                    None => None,
                }
            } else {
                None
            }
        },
        None => None,
    }
}

} // verus!

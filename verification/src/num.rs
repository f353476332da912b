//! Decimal components of the `H:M:S` countdown the market-state feed
//! reports. An unparsable component counts as 0 rather than failing.

use vstd::prelude::*;
use crate::json::digit_char;

verus! {

pub open spec fn digit_val(c: char) -> int {
    (c as u32) - 48
}

/// Value of a pure digit string, most significant first.
pub open spec fn digits_val(t: Seq<char>) -> int
    decreases t.len(),
{
    if t.len() == 0 {
        0
    } else {
        digits_val(t.drop_last()) * 10 + digit_val(t.last())
    }
}

pub open spec fn all_digits(t: Seq<char>) -> bool {
    forall|k: int| 0 <= k < t.len() ==> digit_char(t[k])
}

/// Value of a decimal token as `str::parse::<u64>` reads it: an optional
/// leading `+`, then digits. An empty body, a stray character or a value
/// beyond `u64::MAX` yields 0, the fallback for an unparsable component.
pub open spec fn u64_of_text(t: Seq<char>) -> u64 {
    let body = if t.len() > 0 && t[0] == '+' {
        t.drop_first()
    } else {
        t
    };
    if body.len() > 0 && all_digits(body) && digits_val(body) <= u64::MAX {
        digits_val(body) as u64
    } else {
        0
    }
}

pub proof fn lemma_digits_val_nonneg(t: Seq<char>)
    requires
        all_digits(t),
    ensures
        digits_val(t) >= 0,
    decreases t.len(),
{
    if t.len() > 0 {
        assert forall|k: int| 0 <= k < t.drop_last().len() implies digit_char(
            t.drop_last()[k],
        ) by {
            assert(t.drop_last()[k] == t[k]);
        }
        lemma_digits_val_nonneg(t.drop_last());
    }
}

pub proof fn lemma_digits_val_take_step(t: Seq<char>, k: int)
    requires
        0 <= k < t.len(),
    ensures
        digits_val(t.take(k + 1)) == digits_val(t.take(k)) * 10 + digit_val(t[k]),
{
    assert(t.take(k + 1).drop_last() =~= t.take(k));
    assert(t.take(k + 1).last() == t[k]);
}

/// Appending digits never shrinks the value.
pub proof fn lemma_digits_val_take_bound(t: Seq<char>, k: int)
    requires
        0 <= k <= t.len(),
        all_digits(t),
    ensures
        digits_val(t) >= digits_val(t.take(k)),
    decreases t.len() - k,
{
    if k < t.len() {
        lemma_digits_val_take_step(t, k);
        assert forall|j: int| 0 <= j < t.take(k).len() implies digit_char(t.take(k)[j]) by {
            assert(t.take(k)[j] == t[j]);
        }
        lemma_digits_val_nonneg(t.take(k));
        lemma_digits_val_take_bound(t, k + 1);
    } else {
        assert(t.take(k) =~= t);
    }
}

/// First index at or after `i` holding a `:` (or the end).
pub open spec fn sep_end(t: Seq<char>, i: int) -> int
    decreases t.len() - i
        when 0 <= i <= t.len()
{
    if i < t.len() && t[i] != ':' {
        sep_end(t, i + 1)
    } else {
        i
    }
}

pub fn scan_sep_end(t: &str, i: usize) -> (r: usize)
    requires
        i <= t@.len(),
    ensures
        r == sep_end(t@, i as int),
        i <= r <= t@.len(),
    decreases t@.len() - i,
{
    let n: usize = t.unicode_len();
    if i < n && t.get_char(i) != ':' {
        scan_sep_end(t, i + 1)
    } else {
        i
    }
}

pub open spec fn clamp_u64(x: int) -> u64 {
    if x > u64::MAX {
        u64::MAX
    } else if x < 0 {
        0
    } else {
        x as u64
    }
}

/// Total seconds of an `H:M:S` countdown string: three colon-separated
/// components (missing or unparsable ones count as 0, extra ones are
/// ignored), summed as `H*3600 + M*60 + S` and clamped at `u64::MAX`.
pub open spec fn hms_value(t: Seq<char>) -> u64 {
    let e1 = sep_end(t, 0);
    let h = u64_of_text(t.subrange(0, e1));
    let m = if e1 < t.len() {
        u64_of_text(t.subrange(e1 + 1, sep_end(t, e1 + 1)))
    } else {
        0
    };
    let s = if e1 < t.len() && sep_end(t, e1 + 1) < t.len() {
        u64_of_text(t.subrange(sep_end(t, e1 + 1) + 1, sep_end(t, sep_end(t, e1 + 1) + 1)))
    } else {
        0
    };
    clamp_u64((h as int) * 3600 + (m as int) * 60 + (s as int))
}

/// One decimal component of `t`, the characters `from..to`.
fn parse_component(t: &str, from: usize, to: usize) -> (r: u64)
    requires
        from <= to <= t@.len(),
    ensures
        r == u64_of_text(t@.subrange(from as int, to as int)),
{
    let ghost comp = t@.subrange(from as int, to as int);
    let plus: bool = if from < to {
        t.get_char(from) == '+'
    } else {
        false
    };
    let start: usize = if plus {
        from + 1
    } else {
        from
    };
    let ghost body = t@.subrange(start as int, to as int);
    proof {
        if plus {
            assert(comp[0] == '+');
            assert(comp.drop_first() =~= body);
        } else {
            if comp.len() > 0 {
                assert(comp[0] == t@[from as int]);
            }
            assert(comp =~= body);
        }
    }
    if start == to {
        return 0;
    }
    let mut acc: u64 = 0;
    let mut ok: bool = true;
    let mut k: usize = start;
    while k < to && ok
        invariant
            start <= k <= to <= t@.len(),
            start < to,
            body == t@.subrange(start as int, to as int),
            ok ==> all_digits(body.take(k - start)),
            ok ==> acc == digits_val(body.take(k - start)),
            !ok ==> !all_digits(body) || digits_val(body) > u64::MAX,
        decreases to - k + (if ok {
            1int
        } else {
            0int
        }),
    {
        let c = t.get_char(k);
        let u: u32 = c as u32;
        proof {
            assert(body[(k - start) as int] == t@[k as int]);
        }
        if 48 <= u && u <= 57 {
            let d: u64 = (u - 48) as u64;
            if acc < 1844674407370955161 || (acc == 1844674407370955161 && d <= 5) {
                proof {
                    lemma_digits_val_take_step(body, (k - start) as int);
                    assert forall|j: int| 0 <= j < body.take((k - start) + 1).len() implies
                        digit_char(#[trigger] body.take((k - start) + 1)[j]) by {
                        assert(body.take((k - start) + 1)[j] == body[j]);
                        if j < k - start {
                            assert(body.take((k - start) as int)[j] == body[j]);
                        }
                    }
                }
                acc = acc * 10 + d;
                k = k + 1;
            } else {
                proof {
                    lemma_digits_val_take_step(body, (k - start) as int);
                    if all_digits(body) {
                        lemma_digits_val_take_bound(body, (k - start) + 1);
                    }
                }
                ok = false;
            }
        } else {
            proof {
                assert(!digit_char(body[(k - start) as int]));
            }
            ok = false;
        }
    }
    if ok {
        proof {
            assert(body.take((to - start) as int) =~= body);
        }
        acc
    } else {
        0
    }
}

/// Seconds until open, read from an `H:M:S` countdown string.
pub fn countdown_seconds(t: &str) -> (r: u64)
    ensures
        r == hms_value(t@),
{
    let n: usize = t.unicode_len();
    let e1 = scan_sep_end(t, 0);
    let h = parse_component(t, 0, e1);
    let mut m: u64 = 0;
    let mut s: u64 = 0;
    if e1 < n {
        let e2 = scan_sep_end(t, e1 + 1);
        m = parse_component(t, e1 + 1, e2);
        if e2 < n {
            let e3 = scan_sep_end(t, e2 + 1);
            s = parse_component(t, e2 + 1, e3);
        }
    }
    let a: u64 = match h.checked_mul(3600) {
        Some(x) => x,
        None => u64::MAX,
    };
    let b: u64 = match m.checked_mul(60) {
        Some(x) => x,
        None => u64::MAX,
    };
    let ab: u64 = match a.checked_add(b) {
        Some(x) => x,
        None => u64::MAX,
    };
    let total: u64 = match ab.checked_add(s) {
        Some(x) => x,
        None => u64::MAX,
    };
    total
}

} // verus!

//! The watched symbol list and its persisted record format: one JSON
//! object `{"tickers":["..",..]}`. The codec is the crate's own: the
//! encoder emits the canonical form, the parser accepts it (with
//! whitespace) and treats anything else as a malformed record, which
//! loads as the empty set.

use vstd::prelude::*;
use crate::json::{
    lemma_parse_string_array_bounds, lemma_parse_text_bounds, parse_string_array, parse_strings,
    parse_text, plain_char, read_string_array, read_text, skip_ws, text_from, ws_end,
};

verus! {

pub open spec fn tickers_key() -> Seq<char> {
    seq!['t', 'i', 'c', 'k', 'e', 'r', 's']
}

/// The canonical record's opening, `{"tickers":[`.
pub open spec fn record_prefix() -> Seq<char> {
    seq!['{', '"', 't', 'i', 'c', 'k', 'e', 'r', 's', '"', ':', '[']
}

/// A character the encoder writes behind a backslash.
pub open spec fn special_char(c: char) -> bool {
    c == '"' || c == '\\' || c == '\n' || c == '\r' || c == '\t' || c == '\u{0008}' || c
        == '\u{000C}'
}

/// The one-letter code the encoder writes for a special character.
pub open spec fn escape_code(c: char) -> char {
    if c == '"' {
        '"'
    } else if c == '\\' {
        '\\'
    } else if c == '\n' {
        'n'
    } else if c == '\r' {
        'r'
    } else if c == '\t' {
        't'
    } else if c == '\u{0008}' {
        'b'
    } else {
        'f'
    }
}

pub open spec fn escape_one(c: char) -> Seq<char> {
    if special_char(c) {
        seq!['\\', escape_code(c)]
    } else {
        seq![c]
    }
}

/// A symbol's characters, with quotes, backslashes and controls escaped.
pub open spec fn escape_text(t: Seq<char>) -> Seq<char>
    decreases t.len(),
{
    if t.len() == 0 {
        Seq::empty()
    } else {
        escape_one(t.first()) + escape_text(t.drop_first())
    }
}

/// One symbol, quoted and escaped.
pub open spec fn encode_symbol(t: Seq<char>) -> Seq<char> {
    seq!['"'] + escape_text(t) + seq!['"']
}

/// Comma-joined quoted symbols.
pub open spec fn encode_items(items: Seq<Seq<char>>) -> Seq<char>
    decreases items.len(),
{
    if items.len() == 0 {
        Seq::empty()
    } else if items.len() == 1 {
        encode_symbol(items.first())
    } else {
        encode_symbol(items.first()) + seq![','] + encode_items(items.drop_first())
    }
}

/// The canonical persisted body of a symbol list.
pub open spec fn encode_record(items: Seq<Seq<char>>) -> Seq<char> {
    record_prefix() + encode_items(items) + seq![']', '}']
}

/// The symbol list read from a persisted record body: one JSON object
/// holding a string array under `tickers`, and nothing after it.
pub open spec fn parse_record(s: Seq<char>) -> Option<Seq<Seq<char>>> {
    let i = ws_end(s, 0);
    if i < s.len() && s[i] == '{' {
        let j = ws_end(s, i + 1);
        match parse_text(s, j) {
            Some((k, i2)) => if k == tickers_key() {
                let j2 = ws_end(s, i2);
                if j2 < s.len() && s[j2] == ':' {
                    let i3 = ws_end(s, j2 + 1);
                    match parse_string_array(s, i3, s.len() as nat) {
                        Some((items, i4)) => {
                            let j3 = ws_end(s, i4);
                            if j3 < s.len() && s[j3] == '}' && ws_end(s, j3 + 1) == s.len() {
                                Some(items)
                            } else {
                                None
                            }
                        },
                        None => None,
                    }
                } else {
                    None
                }
            } else {
                None
            },
            None => None,
        }
    } else {
        None
    }
}

/// The symbols a loaded set keeps: first occurrences of the non-empty
/// entries not yet in `seen`, in order.
pub open spec fn dedup_from(items: Seq<Seq<char>>, seen: Seq<Seq<char>>) -> Seq<Seq<char>>
    decreases items.len(),
{
    if items.len() == 0 {
        Seq::empty()
    } else {
        let h = items.first();
        let rest = items.drop_first();
        if h.len() == 0 || seen.contains(h) {
            dedup_from(rest, seen)
        } else {
            seq![h] + dedup_from(rest, seen.push(h))
        }
    }
}

/// Empty entries dropped, duplicates removed, first occurrence kept.
pub open spec fn sanitize(items: Seq<Seq<char>>) -> Seq<Seq<char>> {
    dedup_from(items, Seq::empty())
}

/// A character the record encoding can carry: anything printable, plus
/// the escaped controls. The other control characters would need a `\u`
/// escape, which the codec's subset leaves out.
pub open spec fn encodable_char(c: char) -> bool {
    (c as u32) >= 0x20 || c == '\n' || c == '\r' || c == '\t' || c == '\u{0008}' || c == '\u{000C}'
}

/// A symbol the record encoding can carry.
pub open spec fn encodable_symbol(t: Seq<char>) -> bool {
    forall|k: int| 0 <= k < t.len() ==> encodable_char(#[trigger] t[k])
}

pub proof fn lemma_push_contains(s: Seq<Seq<char>>, h: Seq<char>, x: Seq<char>)
    ensures
        s.push(h).contains(x) <==> (s.contains(x) || x == h),
{
    if s.push(h).contains(x) {
        let i = choose|i: int| 0 <= i < s.push(h).len() && s.push(h)[i] == x;
        if i < s.len() {
            assert(s[i] == x);
        } else {
            assert(x == h);
        }
    }
    if s.contains(x) {
        let i = choose|i: int| 0 <= i < s.len() && s[i] == x;
        assert(s.push(h)[i] == x);
    }
    if x == h {
        assert(s.push(h)[s.len() as int] == x);
    }
}

/// A list with no empty entries and no duplicates, none of them seen
/// before, comes through the cleaning pass unchanged.
pub proof fn lemma_dedup_id(items: Seq<Seq<char>>, seen: Seq<Seq<char>>)
    requires
        forall|i: int| 0 <= i < items.len() ==> (#[trigger] items[i]).len() > 0,
        forall|i: int, j: int| 0 <= i < j < items.len() ==> items[i] != items[j],
        forall|i: int| 0 <= i < items.len() ==> !seen.contains(#[trigger] items[i]),
    ensures
        dedup_from(items, seen) == items,
    decreases items.len(),
{
    if items.len() > 0 {
        let h = items.first();
        let rest = items.drop_first();
        assert forall|i: int| 0 <= i < rest.len() implies (#[trigger] rest[i]).len() > 0
            && !seen.push(h).contains(rest[i]) by {
            assert(rest[i] == items[i + 1]);
            lemma_push_contains(seen, h, rest[i]);
        }
        assert forall|i: int, j: int| 0 <= i < j < rest.len() implies rest[i] != rest[j] by {
            assert(rest[i] == items[i + 1]);
            assert(rest[j] == items[j + 1]);
        }
        lemma_dedup_id(rest, seen.push(h));
        assert(seq![h] + rest =~= items);
    }
}

/// The cleaning pass yields a well-formed list: non-empty entries, no
/// duplicates, nothing that was already seen.
pub proof fn lemma_dedup_wf(items: Seq<Seq<char>>, seen: Seq<Seq<char>>)
    ensures
        forall|i: int| 0 <= i < dedup_from(items, seen).len() ==> (#[trigger] dedup_from(
            items,
            seen,
        )[i]).len() > 0,
        forall|i: int| 0 <= i < dedup_from(items, seen).len() ==> !seen.contains(
            #[trigger] dedup_from(items, seen)[i],
        ),
        forall|i: int, j: int| 0 <= i < j < dedup_from(items, seen).len() ==> dedup_from(
            items,
            seen,
        )[i] != dedup_from(items, seen)[j],
    decreases items.len(),
{
    if items.len() > 0 {
        let h = items.first();
        let rest = items.drop_first();
        if h.len() == 0 || seen.contains(h) {
            lemma_dedup_wf(rest, seen);
            assert(dedup_from(items, seen) == dedup_from(rest, seen));
        } else {
            lemma_dedup_wf(rest, seen.push(h));
            let rec = dedup_from(rest, seen.push(h));
            let r = seq![h] + rec;
            assert forall|i: int| 0 <= i < r.len() implies (#[trigger] r[i]).len() > 0
                && !seen.contains(r[i]) by {
                if i == 0 {
                    assert(r[0] == h);
                } else {
                    assert(r[i] == rec[i - 1]);
                    lemma_push_contains(seen, h, rec[i - 1]);
                }
            }
            assert forall|i: int, j: int| 0 <= i < j < r.len() implies r[i] != r[j] by {
                assert(r[j] == rec[j - 1]);
                lemma_push_contains(seen, h, rec[j - 1]);
                if i == 0 {
                    assert(r[0] == h);
                    assert(seen.push(h).contains(h)) by {
                        assert(seen.push(h)[seen.len() as int] == h);
                    }
                } else {
                    assert(r[i] == rec[i - 1]);
                }
            }
            assert(dedup_from(items, seen) == r);
        }
    } else {
        assert(dedup_from(items, seen) == Seq::<Seq<char>>::empty());
    }
}

/// A run of plain characters closed by a quote at `j` decodes to itself.
proof fn lemma_text_from_plain(s: Seq<char>, i: int, j: int)
    requires
        0 <= i <= j < s.len(),
        forall|k: int| i <= k < j ==> plain_char(#[trigger] s[k]),
        s[j] == '"',
    ensures
        text_from(s, i) == Some((s.subrange(i, j), j + 1)),
    decreases j - i,
{
    if i < j {
        assert(plain_char(s[i]));
        lemma_text_from_plain(s, i + 1, j);
        assert(seq![s[i]] + s.subrange(i + 1, j) =~= s.subrange(i, j));
    } else {
        assert(s.subrange(i, j) =~= Seq::<char>::empty());
    }
}

/// The joined encoding is at least as long as the list.
proof fn lemma_encode_items_len(items: Seq<Seq<char>>)
    ensures
        encode_items(items).len() >= items.len(),
    decreases items.len(),
{
    if items.len() > 1 {
        lemma_encode_items_len(items.drop_first());
    }
}

/// Appending one character appends its escaped form.
proof fn lemma_escape_text_snoc(t: Seq<char>, c: char)
    ensures
        escape_text(t.push(c)) == escape_text(t) + escape_one(c),
    decreases t.len(),
{
    let p = t.push(c);
    if t.len() == 0 {
        assert(p.first() == c);
        assert(p.drop_first() =~= Seq::<char>::empty());
        assert(t =~= Seq::<char>::empty());
        assert(escape_text(Seq::<char>::empty()) == Seq::<char>::empty());
        assert(escape_one(c) + Seq::<char>::empty() =~= escape_one(c));
        assert(escape_text(t) + escape_one(c) =~= escape_one(c));
    } else {
        assert(p.first() == t.first());
        assert(p.drop_first() =~= t.drop_first().push(c));
        lemma_escape_text_snoc(t.drop_first(), c);
        assert(escape_one(t.first()) + (escape_text(t.drop_first()) + escape_one(c)) =~= (
        escape_one(t.first()) + escape_text(t.drop_first())) + escape_one(c));
    }
}

proof fn lemma_encode_symbol_facts(t: Seq<char>)
    ensures
        encode_symbol(t).len() == escape_text(t).len() + 2,
        encode_symbol(t)[0] == '"',
        encode_symbol(t)[escape_text(t).len() as int + 1] == '"',
        forall|k: int| 0 <= k < escape_text(t).len() ==> encode_symbol(t)[k + 1] == escape_text(
            t,
        )[k],
{
    let e = encode_symbol(t);
    let x = escape_text(t);
    assert(e[0] == '"');
    assert forall|k: int| 0 <= k < x.len() implies e[k + 1] == x[k] by {
        assert((seq!['"'] + x)[k + 1] == x[k]);
    }
    assert(e[x.len() as int + 1] == '"');
}

/// An escaped run closed by a quote decodes back to the symbol.
proof fn lemma_text_from_escaped(s: Seq<char>, i: int, t: Seq<char>)
    requires
        encodable_symbol(t),
        0 <= i,
        i + escape_text(t).len() < s.len(),
        s.subrange(i, i + escape_text(t).len() as int) == escape_text(t),
        s[i + escape_text(t).len()] == '"',
    ensures
        text_from(s, i) == Some((t, i + escape_text(t).len() + 1)),
    decreases t.len(),
{
    let e = escape_text(t);
    let el = e.len() as int;
    assert forall|k: int| 0 <= k < el implies s[i + k] == e[k] by {
        assert(s.subrange(i, i + el)[k] == s[i + k]);
    }
    if t.len() == 0 {
        assert(t =~= Seq::<char>::empty());
    } else {
        let c = t.first();
        let rest = t.drop_first();
        let e1 = escape_one(c);
        let er = escape_text(rest);
        assert(e == e1 + er);
        assert forall|k: int| 0 <= k < e1.len() implies e[k] == e1[k] by {
            assert((e1 + er)[k] == e1[k]);
        }
        assert forall|k: int| 0 <= k < er.len() implies e[e1.len() + k] == er[k] by {
            assert((e1 + er)[e1.len() + k] == er[k]);
        }
        let i2 = i + e1.len();
        assert forall|k: int| 0 <= k < rest.len() implies encodable_char(#[trigger] rest[k]) by {
            assert(rest[k] == t[k + 1]);
        }
        assert(s.subrange(i2, i2 + er.len() as int) =~= er) by {
            assert forall|k: int| 0 <= k < er.len() implies s.subrange(
                i2,
                i2 + er.len() as int,
            )[k] == er[k] by {
                assert(s.subrange(i2, i2 + er.len() as int)[k] == s[i2 + k]);
                assert(s[i2 + k] == e[e1.len() + k]);
            }
        }
        assert(i2 + er.len() == i + el);
        assert(s[i2 + er.len()] == '"');
        lemma_text_from_escaped(s, i2, rest);
        if special_char(c) {
            assert(s[i] == e1[0]);
            assert(s[i] == '\\');
            assert(s[i + 1] == e1[1]);
            assert(s[i + 1] == escape_code(c));
            assert(crate::json::esc_char(escape_code(c)) == Some(c));
            assert(seq![c] + rest =~= t);
        } else {
            assert(encodable_char(c));
            assert(plain_char(c));
            assert(s[i] == e1[0]);
            assert(s[i] == c);
            assert(seq![c] + rest =~= t);
        }
    }
}

/// The joined encoding opens with a quote.
proof fn lemma_encode_items_first(items: Seq<Seq<char>>)
    requires
        items.len() >= 1,
    ensures
        encode_items(items).len() >= 2,
        encode_items(items)[0] == '"',
{
    lemma_encode_symbol_facts(items.first());
    if items.len() == 1 {
    } else {
        let eh = encode_symbol(items.first());
        assert(encode_items(items)[0] == (eh + seq![','])[0]);
    }
}

/// A joined encoding standing inside `s` and followed by `]` scans back
/// to exactly the symbols it encodes.
proof fn lemma_parse_strings_encoded(s: Seq<char>, i: int, items: Seq<Seq<char>>, fuel: nat)
    requires
        items.len() >= 1,
        forall|x: int| 0 <= x < items.len() ==> encodable_symbol(#[trigger] items[x]),
        0 <= i,
        i + encode_items(items).len() < s.len(),
        s.subrange(i, i + encode_items(items).len() as int) == encode_items(items),
        s[i + encode_items(items).len()] == ']',
        fuel >= items.len(),
    ensures
        parse_strings(s, i, fuel) == Some((items, i + encode_items(items).len() + 1)),
    decreases items.len(),
{
    let ei = encode_items(items);
    let el = ei.len() as int;
    let h = items.first();
    let xl = escape_text(h).len() as int;
    let eh = encode_symbol(h);
    lemma_encode_symbol_facts(h);
    assert forall|k: int| 0 <= k < el implies s[i + k] == ei[k] by {
        assert(s.subrange(i, i + el)[k] == s[i + k]);
    }
    assert(encodable_symbol(h));
    if items.len() == 1 {
        assert(ei == eh);
        assert(s[i] == '"');
        assert(s.subrange(i + 1, i + 1 + xl) =~= escape_text(h)) by {
            assert forall|k: int| 0 <= k < xl implies s.subrange(i + 1, i + 1 + xl)[k]
                == escape_text(h)[k] by {
                assert(s.subrange(i + 1, i + 1 + xl)[k] == s[i + 1 + k]);
                assert(s[i + 1 + k] == ei[1 + k]);
                assert(eh[k + 1] == escape_text(h)[k]);
            }
        }
        assert(s[i + 1 + xl] == ei[xl + 1]);
        lemma_text_from_escaped(s, i + 1, h);
        assert(parse_text(s, i) == Some((h, i + xl + 2)));
        let i2 = i + xl + 2;
        assert(i2 == i + el);
        assert(s[i2] == ']');
        assert(!crate::json::is_ws_char(']'));
        assert(ws_end(s, i2) == i2);
        assert(seq![h] =~= items);
    } else {
        let rest = items.drop_first();
        let er = encode_items(rest);
        assert(ei == eh + seq![','] + er);
        assert(ei.len() == eh.len() + 1 + er.len());
        assert forall|k: int| 0 <= k < xl + 2 implies ei[k] == eh[k] by {
            assert((eh + seq![','])[k] == eh[k]);
            assert((eh + seq![','] + er)[k] == (eh + seq![','])[k]);
        }
        assert(ei[xl + 2] == ',') by {
            assert((eh + seq![','])[xl + 2] == ',');
            assert((eh + seq![','] + er)[xl + 2] == (eh + seq![','])[xl + 2]);
        }
        assert forall|k: int| 0 <= k < er.len() implies ei[xl + 3 + k] == er[k] by {
            assert((eh + seq![','] + er)[xl + 3 + k] == er[k]);
        }
        assert(s[i] == ei[0] && ei[0] == eh[0] && eh[0] == '"');
        assert(s.subrange(i + 1, i + 1 + xl) =~= escape_text(h)) by {
            assert forall|k: int| 0 <= k < xl implies s.subrange(i + 1, i + 1 + xl)[k]
                == escape_text(h)[k] by {
                assert(s.subrange(i + 1, i + 1 + xl)[k] == s[i + 1 + k]);
                assert(s[i + 1 + k] == ei[1 + k]);
                assert(ei[1 + k] == eh[1 + k]);
                assert(eh[k + 1] == escape_text(h)[k]);
            }
        }
        assert(s[i + 1 + xl] == ei[xl + 1] && ei[xl + 1] == eh[xl + 1] && eh[xl + 1] == '"');
        lemma_text_from_escaped(s, i + 1, h);
        assert(parse_text(s, i) == Some((h, i + xl + 2)));
        let i2 = i + xl + 2;
        assert(s[i2] == ei[xl + 2]);
        assert(s[i2] == ',');
        assert(!crate::json::is_ws_char(','));
        assert(ws_end(s, i2) == i2);
        let i3 = i2 + 1;
        lemma_encode_items_first(rest);
        assert(s[i3] == ei[xl + 3] && ei[xl + 3] == er[0]);
        assert(s[i3] == '"');
        assert(!crate::json::is_ws_char('"'));
        assert(ws_end(s, i3) == i3);
        assert forall|x: int| 0 <= x < rest.len() implies encodable_symbol(#[trigger] rest[x]) by {
            assert(rest[x] == items[x + 1]);
        }
        assert(i3 + er.len() == i + el);
        assert(s.subrange(i3, i3 + er.len() as int) =~= er) by {
            assert forall|k: int| 0 <= k < er.len() implies s.subrange(
                i3,
                i3 + er.len() as int,
            )[k] == er[k] by {
                assert(s.subrange(i3, i3 + er.len() as int)[k] == s[i3 + k]);
                assert(s[i3 + k] == ei[xl + 3 + k]);
            }
        }
        lemma_parse_strings_encoded(s, i3, rest, (fuel - 1) as nat);
        assert(parse_strings(s, i3, (fuel - 1) as nat) == Some((rest, i + el + 1)));
        assert(seq![h] + rest =~= items);
    }
}

/// Round trip: the canonical body of a list of distinct, non-empty,
/// encodable symbols parses back to exactly that list, and the cleaning
/// pass leaves such a list unchanged. So persisting a well-formed set
/// and loading the body yields an equal, order-preserving set.
pub proof fn lemma_record_round_trip(items: Seq<Seq<char>>)
    requires
        forall|i: int| 0 <= i < items.len() ==> encodable_symbol(#[trigger] items[i]),
        forall|i: int| 0 <= i < items.len() ==> (#[trigger] items[i]).len() > 0,
        forall|i: int, j: int| 0 <= i < j < items.len() ==> items[i] != items[j],
    ensures
        parse_record(encode_record(items)) == Some(items),
        sanitize(items) == items,
{
    let p = record_prefix();
    let ei = encode_items(items);
    let el = ei.len() as int;
    let s = encode_record(items);
    assert(s.len() == 14 + el);
    assert forall|k: int| 0 <= k < 12 implies s[k] == p[k] by {
        assert((p + ei)[k] == p[k]);
        assert((p + ei + seq![']', '}'])[k] == (p + ei)[k]);
    }
    assert forall|k: int| 0 <= k < el implies s[12 + k] == ei[k] by {
        assert((p + ei)[12 + k] == ei[k]);
        assert((p + ei + seq![']', '}'])[12 + k] == (p + ei)[12 + k]);
    }
    assert(s[12 + el] == ']') by {
        assert((p + ei + seq![']', '}'])[12 + el] == seq![']', '}'][0]);
    }
    assert(s[13 + el] == '}') by {
        assert((p + ei + seq![']', '}'])[13 + el] == seq![']', '}'][1]);
    }
    assert(s[0] == '{');
    assert(!crate::json::is_ws_char('{'));
    assert(ws_end(s, 0) == 0);
    assert(s[1] == '"');
    assert(ws_end(s, 1) == 1);
    assert forall|k: int| 2 <= k < 9 implies plain_char(#[trigger] s[k]) by {
        assert(s[k] == p[k]);
    }
    assert(s[9] == '"');
    lemma_text_from_plain(s, 2, 9);
    assert(parse_text(s, 1) == Some((s.subrange(2, 9), 10int)));
    assert(s.subrange(2, 9) =~= tickers_key()) by {
        assert forall|k: int| 0 <= k < 7 implies s.subrange(2, 9)[k] == tickers_key()[k] by {
            assert(s.subrange(2, 9)[k] == s[2 + k]);
            assert(s[2 + k] == p[2 + k]);
        }
    }
    assert(s[10] == ':');
    assert(!crate::json::is_ws_char(':'));
    assert(ws_end(s, 10) == 10);
    assert(s[11] == '[');
    assert(!crate::json::is_ws_char('['));
    assert(ws_end(s, 11) == 11);
    if items.len() == 0 {
        assert(el == 0);
        assert(s[12] == ']');
        assert(!crate::json::is_ws_char(']'));
        assert(ws_end(s, 12) == 12);
        assert(crate::json::parse_string_array(s, 11, s.len() as nat) == Some((
            Seq::<Seq<char>>::empty(),
            13int,
        )));
        assert(s[13] == '}');
        assert(!crate::json::is_ws_char('}'));
        assert(ws_end(s, 13) == 13);
        assert(ws_end(s, 14) == 14);
        assert(Seq::<Seq<char>>::empty() =~= items);
    } else {
        lemma_encode_items_first(items);
        assert(s[12] == ei[0]);
        assert(s[12] == '"');
        assert(!crate::json::is_ws_char('"'));
        assert(ws_end(s, 12) == 12);
        lemma_encode_items_len(items);
        assert(s.subrange(12, 12 + el) =~= ei) by {
            assert forall|k: int| 0 <= k < el implies s.subrange(12, 12 + el)[k] == ei[k] by {
                assert(s.subrange(12, 12 + el)[k] == s[12 + k]);
            }
        }
        lemma_parse_strings_encoded(s, 12, items, s.len() as nat);
        assert(parse_strings(s, 12, s.len() as nat) == Some((items, 13 + el)));
        assert(s[13 + el] == '}');
        assert(!crate::json::is_ws_char('}'));
        assert(ws_end(s, 13 + el) == 13 + el);
        assert(ws_end(s, 14 + el) == 14 + el);
    }
    assert forall|i: int| 0 <= i < items.len() implies !Seq::<Seq<char>>::empty().contains(
        #[trigger] items[i],
    ) by {}
    lemma_dedup_id(items, Seq::empty());
}

/// Appends one symbol in its escaped spelling.
fn append_symbol_escaped(out: &mut String, sym: &str)
    ensures
        final(out)@ == old(out)@ + escape_text(sym@),
{
    let ghost base = out@;
    let m: usize = sym.unicode_len();
    let mut k: usize = 0;
    proof {
        assert(sym@.take(0) =~= Seq::<char>::empty());
        assert(base + escape_text(sym@.take(0)) =~= base);
    }
    while k < m
        invariant
            0 <= k <= m,
            m == sym@.len(),
            out@ == base + escape_text(sym@.take(k as int)),
        decreases m - k,
    {
        let c = sym.get_char(k);
        if c == '"' {
            out.append("\\\"");
            proof {
                reveal_strlit("\\\"");
            }
        } else if c == '\\' {
            out.append("\\\\");
            proof {
                reveal_strlit("\\\\");
            }
        } else if c == '\n' {
            out.append("\\n");
            proof {
                reveal_strlit("\\n");
            }
        } else if c == '\r' {
            out.append("\\r");
            proof {
                reveal_strlit("\\r");
            }
        } else if c == '\t' {
            out.append("\\t");
            proof {
                reveal_strlit("\\t");
            }
        } else if c == '\u{0008}' {
            out.append("\\b");
            proof {
                reveal_strlit("\\b");
            }
        } else if c == '\u{000C}' {
            out.append("\\f");
            proof {
                reveal_strlit("\\f");
            }
        } else {
            let t = sym.substring_char(k, k + 1);
            out.append(t);
            proof {
                assert(t@ =~= seq![sym@[k as int]]);
            }
        }
        proof {
            lemma_escape_text_snoc(sym@.take(k as int), sym@[k as int]);
            assert(sym@.take(k as int).push(sym@[k as int]) =~= sym@.take(k as int + 1));
            assert(out@ =~= base + escape_text(sym@.take(k as int + 1)));
        }
        k = k + 1;
    }
    proof {
        assert(sym@.take(m as int) =~= sym@);
    }
}

/// The watched symbols, in storage order. Owned by the store logic;
/// the polling loop reads a snapshot each cycle.
pub struct Tickers {
    tickers: Vec<String>,
}

impl View for Tickers {
    type V = Seq<Seq<char>>;

    closed spec fn view(&self) -> Seq<Seq<char>> {
        self.tickers.deep_view()
    }
}

impl Default for Tickers {
    /// The empty set: the state of a fresh or unreadable record.
    fn default() -> (r: Tickers)
        ensures
            r@ == Seq::<Seq<char>>::empty(),
    {
        let v: Vec<String> = Vec::new();
        proof {
            assert(v.deep_view() =~= Seq::<Seq<char>>::empty());
        }
        Tickers { tickers: v }
    }
}

impl Tickers {
    /// No empty symbols and no duplicates.
    pub open spec fn well_formed(&self) -> bool {
        &&& forall|i: int| 0 <= i < self@.len() ==> (#[trigger] self@[i]).len() > 0
        &&& forall|i: int, j: int| 0 <= i < j < self@.len() ==> self@[i] != self@[j]
    }

    pub fn new(t: Vec<String>) -> (r: Tickers)
        ensures
            r@ == t.deep_view(),
    {
        Tickers { tickers: t }
    }

    pub fn set_tickers(&mut self, tickers: Vec<String>)
        ensures
            final(self)@ == tickers.deep_view(),
    {
        self.tickers = tickers;
    }

    pub fn get_tickers(&self) -> (r: &Vec<String>)
        ensures
            r.deep_view() == self@,
    {
        &self.tickers
    }
}

/// An empty symbol list.
fn empty_symbols() -> (r: Vec<String>)
    ensures
        r.deep_view() == Seq::<Seq<char>>::empty(),
{
    let v: Vec<String> = Vec::new();
    proof {
        assert(v.deep_view() =~= Seq::<Seq<char>>::empty());
    }
    v
}

/// Whether `v` already holds a symbol spelled like `x`.
fn contains_symbol(v: &Vec<String>, x: &String) -> (r: bool)
    ensures
        r == v.deep_view().contains(x@),
{
    let mut k: usize = 0;
    while k < v.len()
        invariant
            0 <= k <= v.len(),
            forall|i: int| 0 <= i < k ==> v.deep_view()[i] != x@,
        decreases v.len() - k,
    {
        if v[k].eq(x) {
            proof {
                assert(v.deep_view()[k as int] == x@);
            }
            return true;
        }
        k = k + 1;
    }
    proof {
        assert(!v.deep_view().contains(x@));
    }
    false
}

/// The cleaning pass: empty entries dropped, duplicates removed, first
/// occurrence kept.
fn sanitize_symbols(items: Vec<String>) -> (r: Vec<String>)
    ensures
        r.deep_view() == sanitize(items.deep_view()),
{
    let ghost all = items.deep_view();
    let mut out: Vec<String> = Vec::new();
    let mut k: usize = 0;
    proof {
        assert(all.skip(0) =~= all);
        assert(out.deep_view() =~= Seq::<Seq<char>>::empty());
    }
    while k < items.len()
        invariant
            0 <= k <= items.len(),
            all == items.deep_view(),
            sanitize(all) == out.deep_view() + dedup_from(
                all.skip(k as int),
                out.deep_view(),
            ),
        decreases items.len() - k,
    {
        proof {
            assert(all.skip(k as int).first() == all[k as int]);
            assert(all.skip(k as int).drop_first() =~= all.skip(k as int + 1));
            assert(all[k as int] == items@[k as int]@);
        }
        let item = &items[k];
        if item.as_str().unicode_len() > 0 && !contains_symbol(&out, item) {
            let ghost out0 = out.deep_view();
            out.push(item.clone());
            proof {
                assert(out.deep_view() =~= out0.push(item@));
                assert(out0.push(item@) =~= out0 + seq![item@]);
                assert(out0 + (seq![item@] + dedup_from(all.skip(k as int + 1), out0.push(item@)))
                    =~= (out0 + seq![item@]) + dedup_from(
                    all.skip(k as int + 1),
                    out0.push(item@),
                ));
            }
        }
        k = k + 1;
    }
    proof {
        assert(all.skip(items@.len() as int) =~= Seq::<Seq<char>>::empty());
    }
    out
}

/// The raw symbol array of a record body, or nothing for a malformed one.
fn read_record_items(s: &str) -> (r: Vec<String>)
    ensures
        r.deep_view() == match parse_record(s@) {
            Some(items) => items,
            None => Seq::<Seq<char>>::empty(),
        },
{
    let n: usize = s.unicode_len();
    let i = skip_ws(s, 0);
    if i < n && s.get_char(i) == '{' {
        let j = skip_ws(s, i + 1);
        match read_text(s, j) {
            Some((key, i2)) => {
                proof {
                    lemma_parse_text_bounds(s@, j as int);
                }
                let lit: String = String::from_str("tickers");
                proof {
                    reveal_strlit("tickers");
                    assert(lit@ =~= tickers_key());
                }
                if key.eq(&lit) {
                    let j2 = skip_ws(s, i2);
                    if j2 < n && s.get_char(j2) == ':' {
                        let i3 = skip_ws(s, j2 + 1);
                        match read_string_array(s, i3, n) {
                            Some((items, i4)) => {
                                proof {
                                    lemma_parse_string_array_bounds(s@, i3 as int, n as nat);
                                }
                                let j3 = skip_ws(s, i4);
                                if j3 < n && s.get_char(j3) == '}' {
                                    let j4 = skip_ws(s, j3 + 1);
                                    if j4 == n {
                                        items
                                    } else {
                                        empty_symbols()
                                    }
                                } else {
                                    empty_symbols()
                                }
                            },
                            None => empty_symbols(),
                        }
                    } else {
                        empty_symbols()
                    }
                } else {
                    empty_symbols()
                }
            },
            None => empty_symbols(),
        }
    } else {
        empty_symbols()
    }
}

/// Appending one symbol to the joined encoding adds a comma (after the
/// first) and its quoted form.
pub proof fn lemma_encode_items_snoc(items: Seq<Seq<char>>, t: Seq<char>)
    ensures
        encode_items(items.push(t)) == if items.len() == 0 {
            encode_symbol(t)
        } else {
            encode_items(items) + seq![','] + encode_symbol(t)
        },
    decreases items.len(),
{
    let p = items.push(t);
    if items.len() == 0 {
        assert(p.len() == 1);
        assert(p.first() == t);
    } else {
        assert(p.first() == items.first());
        assert(p.drop_first() =~= items.drop_first().push(t));
        lemma_encode_items_snoc(items.drop_first(), t);
        if items.len() == 1 {
            assert(encode_items(p) == encode_symbol(items.first()) + seq![','] + encode_symbol(t));
            assert(encode_items(items) == encode_symbol(items.first()));
        } else {
            assert(encode_items(p) == encode_symbol(items.first()) + seq![','] + (encode_items(
                items.drop_first(),
            ) + seq![','] + encode_symbol(t)));
            assert(encode_symbol(items.first()) + seq![','] + (encode_items(items.drop_first())
                + seq![','] + encode_symbol(t)) =~= (encode_symbol(items.first()) + seq![',']
                + encode_items(items.drop_first())) + seq![','] + encode_symbol(t));
        }
    }
}

impl Tickers {
    /// The canonical persisted body of this set.
    pub fn to_record(&self) -> (r: String)
        ensures
            r@ == encode_record(self@),
    {
        let mut out: String = String::from_str("{\"tickers\":[");
        proof {
            reveal_strlit("{\"tickers\":[");
            assert(out@ =~= record_prefix());
            assert(self@.take(0) =~= Seq::<Seq<char>>::empty());
            assert(out@ =~= record_prefix() + encode_items(self@.take(0)));
        }
        let m: usize = self.tickers.len();
        let mut k: usize = 0;
        while k < m
            invariant
                0 <= k <= m,
                m == self.tickers.len(),
                self@ == self.tickers.deep_view(),
                out@ == record_prefix() + encode_items(self@.take(k as int)),
            decreases m - k,
        {
            if k > 0 {
                out.append(",");
            }
            out.append("\"");
            append_symbol_escaped(&mut out, self.tickers[k].as_str());
            out.append("\"");
            proof {
                reveal_strlit(",");
                reveal_strlit("\"");
                assert(self@[k as int] == self.tickers@[k as int]@);
                lemma_encode_items_snoc(self@.take(k as int), self@[k as int]);
                assert(self@.take(k as int).push(self@[k as int]) =~= self@.take(k as int + 1));
                assert(out@ =~= record_prefix() + encode_items(self@.take(k as int + 1)));
            }
            k = k + 1;
        }
        out.append("]}");
        proof {
            reveal_strlit("]}");
            assert(self@.take(m as int) =~= self@);
            assert(out@ =~= encode_record(self@));
        }
        out
    }

    /// Load from a persisted record body. A malformed body yields the
    /// empty set, never an error; a well-formed one yields its symbols
    /// with empty entries dropped and duplicates removed, first
    /// occurrence kept and order preserved.
    pub fn from_record(s: &str) -> (r: Tickers)
        ensures
            r@ == sanitize(
                match parse_record(s@) {
                    Some(items) => items,
                    None => Seq::<Seq<char>>::empty(),
                },
            ),
            r.well_formed(),
    {
        let raw = read_record_items(s);
        let ghost rawm = raw.deep_view();
        let cleaned = sanitize_symbols(raw);
        proof {
            lemma_dedup_wf(rawm, Seq::empty());
        }
        Tickers { tickers: cleaned }
    }
}

} // verus!

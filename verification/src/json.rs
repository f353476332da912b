//! Character-level scanner for the JSON the poller speaks: objects and
//! arrays of strings, numbers (JSON's grammar, so no bare `-`, leading
//! zero or dangling exponent), booleans, nulls and nested containers,
//! which are skipped unread. Strings may carry the one-letter escapes;
//! a `\u` escape is outside the subset. Anything outside the grammar is
//! a scan failure, which every caller treats as a malformed document.

use vstd::prelude::*;

verus! {

/// JSON insignificant whitespace.
pub open spec fn is_ws_char(c: char) -> bool {
    c == ' ' || c == '\t' || c == '\n' || c == '\r'
}

/// A character that may stand unescaped inside a quoted string.
pub open spec fn plain_char(c: char) -> bool {
    c != '"' && c != '\\' && (c as u32) >= 0x20
}

pub open spec fn digit_char(c: char) -> bool {
    48 <= (c as u32) && (c as u32) <= 57
}

/// First index at or after `i` holding a non-digit character (or the end).
pub open spec fn digits_end(s: Seq<char>, i: int) -> int
    decreases s.len() - i
        when 0 <= i <= s.len()
{
    if i < s.len() && digit_char(s[i]) {
        digits_end(s, i + 1)
    } else {
        i
    }
}

pub proof fn lemma_digits_end_bounds(s: Seq<char>, i: int)
    requires
        0 <= i <= s.len(),
    ensures
        i <= digits_end(s, i) <= s.len(),
    decreases s.len() - i,
{
    if i < s.len() && digit_char(s[i]) {
        lemma_digits_end_bounds(s, i + 1);
    }
}

/// End of the integer part of a number at `i`: a single `0`, or a
/// nonzero digit followed by digits — no leading zeros.
pub open spec fn int_part_end(s: Seq<char>, i: int) -> Option<int> {
    if 0 <= i < s.len() && s[i] == '0' {
        Some(i + 1)
    } else if 0 <= i < s.len() && digit_char(s[i]) {
        Some(digits_end(s, i + 1))
    } else {
        None
    }
}

/// End of the optional fraction part at `i`: a `.` must carry digits.
pub open spec fn frac_part_end(s: Seq<char>, i: int) -> Option<int> {
    if 0 <= i < s.len() && s[i] == '.' {
        if i + 1 < s.len() && digit_char(s[i + 1]) {
            Some(digits_end(s, i + 1))
        } else {
            None
        }
    } else {
        Some(i)
    }
}

/// End of the optional exponent part at `i`: `e`/`E`, an optional sign,
/// then at least one digit.
pub open spec fn exp_part_end(s: Seq<char>, i: int) -> Option<int> {
    if 0 <= i < s.len() && (s[i] == 'e' || s[i] == 'E') {
        let j = if i + 1 < s.len() && (s[i + 1] == '+' || s[i + 1] == '-') {
            i + 2
        } else {
            i + 1
        };
        if j < s.len() && digit_char(s[j]) {
            Some(digits_end(s, j))
        } else {
            None
        }
    } else {
        Some(i)
    }
}

/// End of a JSON number token at `i`: an optional minus, an integer part
/// without leading zeros, an optional fraction, an optional exponent.
/// Anything else — a bare `-`, `08`, `1.`, `5e` — is no token, so the
/// surrounding scan fails and the caller falls back to its failure path.
pub open spec fn number_token_end(s: Seq<char>, i: int) -> Option<int> {
    let st = if 0 <= i < s.len() && s[i] == '-' {
        i + 1
    } else {
        i
    };
    match int_part_end(s, st) {
        Some(a) => match frac_part_end(s, a) {
            Some(b) => exp_part_end(s, b),
            None => None,
        },
        None => None,
    }
}

pub proof fn lemma_number_token_end_bounds(s: Seq<char>, i: int)
    requires
        0 <= i <= s.len(),
    ensures
        number_token_end(s, i) matches Some(j) ==> i < j <= s.len(),
{
    let st = if 0 <= i < s.len() && s[i] == '-' {
        i + 1
    } else {
        i
    };
    match int_part_end(s, st) {
        Some(a) => {
            lemma_digits_end_bounds(s, st + 1);
            match frac_part_end(s, a) {
                Some(b) => {
                    if 0 <= a < s.len() && s[a] == '.' {
                        lemma_digits_end_bounds(s, a + 1);
                    }
                    if 0 <= b < s.len() && (s[b] == 'e' || s[b] == 'E') {
                        let j = if b + 1 < s.len() && (s[b + 1] == '+' || s[b + 1] == '-') {
                            b + 2
                        } else {
                            b + 1
                        };
                        lemma_digits_end_bounds(s, j);
                    }
                },
                None => {},
            }
        },
        None => {},
    }
}

/// First index at or after `i` holding a non-whitespace character (or the end).
pub open spec fn ws_end(s: Seq<char>, i: int) -> int
    decreases s.len() - i
        when 0 <= i <= s.len()
{
    if i < s.len() && is_ws_char(s[i]) {
        ws_end(s, i + 1)
    } else {
        i
    }
}

pub proof fn lemma_ws_end_bounds(s: Seq<char>, i: int)
    requires
        0 <= i <= s.len(),
    ensures
        i <= ws_end(s, i) <= s.len(),
    decreases s.len() - i,
{
    if i < s.len() && is_ws_char(s[i]) {
        lemma_ws_end_bounds(s, i + 1);
    }
}

/// The character a one-letter escape stands for. `\u` escapes are
/// outside the subset; a string carrying one is a scan failure.
pub open spec fn esc_char(c: char) -> Option<char> {
    if c == '"' {
        Some('"')
    } else if c == '\\' {
        Some('\\')
    } else if c == '/' {
        Some('/')
    } else if c == 'b' {
        Some('\u{0008}')
    } else if c == 'f' {
        Some('\u{000C}')
    } else if c == 'n' {
        Some('\n')
    } else if c == 'r' {
        Some('\r')
    } else if c == 't' {
        Some('\t')
    } else {
        None
    }
}

/// The decoded contents of a string from `i` (just after the opening
/// quote) up to its closing quote, and the index just past that quote.
pub open spec fn text_from(s: Seq<char>, i: int) -> Option<(Seq<char>, int)>
    decreases s.len() - i
        when 0 <= i <= s.len()
{
    if i < s.len() {
        if s[i] == '"' {
            Some((Seq::empty(), i + 1))
        } else if s[i] == '\\' {
            if i + 1 < s.len() {
                match esc_char(s[i + 1]) {
                    Some(c) => match text_from(s, i + 2) {
                        Some(p) => Some((seq![c] + p.0, p.1)),
                        None => None,
                    },
                    None => None,
                }
            } else {
                None
            }
        } else if plain_char(s[i]) {
            match text_from(s, i + 1) {
                Some(p) => Some((seq![s[i]] + p.0, p.1)),
                None => None,
            }
        } else {
            None
        }
    } else {
        None
    }
}

pub proof fn lemma_text_from_bounds(s: Seq<char>, i: int)
    requires
        0 <= i <= s.len(),
    ensures
        text_from(s, i) matches Some(p) ==> i + 1 <= p.1 <= s.len(),
    decreases s.len() - i,
{
    if i < s.len() {
        if s[i] == '"' {
        } else if s[i] == '\\' {
            if i + 1 < s.len() {
                lemma_text_from_bounds(s, i + 2);
            }
        } else if plain_char(s[i]) {
            lemma_text_from_bounds(s, i + 1);
        }
    }
}

/// A quoted string starting at `i`: its decoded contents and the index
/// just past the closing quote.
pub open spec fn parse_text(s: Seq<char>, i: int) -> Option<(Seq<char>, int)> {
    if 0 <= i < s.len() && s[i] == '"' {
        text_from(s, i + 1)
    } else {
        None
    }
}

pub proof fn lemma_parse_text_bounds(s: Seq<char>, i: int)
    requires
        0 <= i <= s.len(),
    ensures
        parse_text(s, i) matches Some(p) ==> i + 2 <= p.1 <= s.len(),
{
    if 0 <= i < s.len() && s[i] == '"' {
        lemma_text_from_bounds(s, i + 1);
    }
}

/// Model of one scalar object value. Numbers and nulls carry no payload:
/// no caller reads them.
pub enum ScalarModel {
    Text(Seq<char>),
    Flag(bool),
    Other,
}

/// Executable counterpart of `ScalarModel`.
pub enum Scalar {
    Text(String),
    Flag(bool),
    Other,
}

impl Scalar {
    pub open spec fn model(&self) -> ScalarModel {
        match self {
            Scalar::Text(t) => ScalarModel::Text(t@),
            Scalar::Flag(b) => ScalarModel::Flag(*b),
            Scalar::Other => ScalarModel::Other,
        }
    }
}

/// The index just past a whole value standing at `i` — a string, a
/// number, a literal, or a nested object or array whose contents no
/// caller reads. `fuel` bounds the recursion; callers hand it the
/// document length, which nesting can never outrun.
pub open spec fn skip_value(s: Seq<char>, i: int, fuel: nat) -> Option<int>
    recommends
        0 <= i <= s.len(),
    decreases fuel,
{
    if fuel == 0 {
        None
    } else {
        if 0 <= i < s.len() && s[i] == '"' {
            match parse_text(s, i) {
                Some(p) => Some(p.1),
                None => None,
            }
        } else if 0 <= i && i + 4 <= s.len() && s[i] == 't' && s[i + 1] == 'r' && s[i + 2] == 'u'
            && s[i + 3] == 'e' {
            Some(i + 4)
        } else if 0 <= i && i + 5 <= s.len() && s[i] == 'f' && s[i + 1] == 'a' && s[i + 2] == 'l'
            && s[i + 3] == 's' && s[i + 4] == 'e' {
            Some(i + 5)
        } else if 0 <= i && i + 4 <= s.len() && s[i] == 'n' && s[i + 1] == 'u' && s[i + 2] == 'l'
            && s[i + 3] == 'l' {
            Some(i + 4)
        } else if 0 <= i < s.len() && (s[i] == '-' || digit_char(s[i])) {
            number_token_end(s, i)
        } else if 0 <= i < s.len() && s[i] == '{' {
            let j = ws_end(s, i + 1);
            if j < s.len() && s[j] == '}' {
                Some(j + 1)
            } else {
                skip_members(s, j, (fuel - 1) as nat)
            }
        } else if 0 <= i < s.len() && s[i] == '[' {
            let j = ws_end(s, i + 1);
            if j < s.len() && s[j] == ']' {
                Some(j + 1)
            } else {
                skip_elements(s, j, (fuel - 1) as nat)
            }
        } else {
            None
        }
    }
}

/// The index just past the members of an object whose opening brace and
/// leading whitespace are already consumed.
pub open spec fn skip_members(s: Seq<char>, i: int, fuel: nat) -> Option<int>
    recommends
        0 <= i <= s.len(),
    decreases fuel,
{
    if fuel == 0 {
        None
    } else {
        match parse_text(s, i) {
            Some(p) => {
                let j = ws_end(s, p.1);
                if j < s.len() && s[j] == ':' {
                    let i3 = ws_end(s, j + 1);
                    match skip_value(s, i3, (fuel - 1) as nat) {
                        Some(i4) => {
                            let j2 = ws_end(s, i4);
                            if j2 < s.len() && s[j2] == ',' {
                                skip_members(s, ws_end(s, j2 + 1), (fuel - 1) as nat)
                            } else if j2 < s.len() && s[j2] == '}' {
                                Some(j2 + 1)
                            } else {
                                None
                            }
                        },
                        None => None,
                    }
                } else {
                    None
                }
            },
            None => None,
        }
    }
}

/// The index just past the elements of an array whose opening bracket
/// and leading whitespace are already consumed.
pub open spec fn skip_elements(s: Seq<char>, i: int, fuel: nat) -> Option<int>
    recommends
        0 <= i <= s.len(),
    decreases fuel,
{
    if fuel == 0 {
        None
    } else {
        match skip_value(s, i, (fuel - 1) as nat) {
            Some(i2) => {
                let j = ws_end(s, i2);
                if j < s.len() && s[j] == ',' {
                    skip_elements(s, ws_end(s, j + 1), (fuel - 1) as nat)
                } else if j < s.len() && s[j] == ']' {
                    Some(j + 1)
                } else {
                    None
                }
            },
            None => None,
        }
    }
}

pub proof fn lemma_skip_value_bounds(s: Seq<char>, i: int, fuel: nat)
    requires
        0 <= i <= s.len(),
    ensures
        skip_value(s, i, fuel) matches Some(j) ==> i < j <= s.len(),
    decreases fuel,
{
    if fuel > 0 {
        lemma_parse_text_bounds(s, i);
        lemma_number_token_end_bounds(s, i);
        if 0 <= i < s.len() && (s[i] == '{' || s[i] == '[') && !(s[i] == '"') {
            lemma_ws_end_bounds(s, i + 1);
            lemma_skip_members_bounds(s, ws_end(s, i + 1), (fuel - 1) as nat);
            lemma_skip_elements_bounds(s, ws_end(s, i + 1), (fuel - 1) as nat);
        }
    }
}

pub proof fn lemma_skip_members_bounds(s: Seq<char>, i: int, fuel: nat)
    requires
        0 <= i <= s.len(),
    ensures
        skip_members(s, i, fuel) matches Some(j) ==> i < j <= s.len(),
    decreases fuel,
{
    if fuel > 0 {
        lemma_parse_text_bounds(s, i);
        match parse_text(s, i) {
            Some(p) => {
                lemma_ws_end_bounds(s, p.1);
                let j = ws_end(s, p.1);
                if j < s.len() && s[j] == ':' {
                    lemma_ws_end_bounds(s, j + 1);
                    let i3 = ws_end(s, j + 1);
                    lemma_skip_value_bounds(s, i3, (fuel - 1) as nat);
                    match skip_value(s, i3, (fuel - 1) as nat) {
                        Some(i4) => {
                            lemma_ws_end_bounds(s, i4);
                            let j2 = ws_end(s, i4);
                            if j2 < s.len() && s[j2] == ',' {
                                lemma_ws_end_bounds(s, j2 + 1);
                                lemma_skip_members_bounds(s, ws_end(s, j2 + 1), (fuel - 1) as nat);
                            }
                        },
                        None => {},
                    }
                }
            },
            None => {},
        }
    }
}

pub proof fn lemma_skip_elements_bounds(s: Seq<char>, i: int, fuel: nat)
    requires
        0 <= i <= s.len(),
    ensures
        skip_elements(s, i, fuel) matches Some(j) ==> i < j <= s.len(),
    decreases fuel,
{
    if fuel > 0 {
        lemma_skip_value_bounds(s, i, (fuel - 1) as nat);
        match skip_value(s, i, (fuel - 1) as nat) {
            Some(i2) => {
                lemma_ws_end_bounds(s, i2);
                let j = ws_end(s, i2);
                if j < s.len() && s[j] == ',' {
                    lemma_ws_end_bounds(s, j + 1);
                    lemma_skip_elements_bounds(s, ws_end(s, j + 1), (fuel - 1) as nat);
                }
            },
            None => {},
        }
    }
}

/// A member value starting at `i`: a string, `true`, `false`, `null`, a
/// number token, or a nested object or array (read as an opaque value),
/// and the index just past it.
pub open spec fn parse_scalar(s: Seq<char>, i: int, fuel: nat) -> Option<(ScalarModel, int)>
    recommends
        0 <= i <= s.len(),
{
    if 0 <= i < s.len() && s[i] == '"' {
        match parse_text(s, i) {
            Some(p) => Some((ScalarModel::Text(p.0), p.1)),
            None => None,
        }
    } else if 0 <= i && i + 4 <= s.len() && s[i] == 't' && s[i + 1] == 'r' && s[i + 2] == 'u'
        && s[i + 3] == 'e' {
        Some((ScalarModel::Flag(true), i + 4))
    } else if 0 <= i && i + 5 <= s.len() && s[i] == 'f' && s[i + 1] == 'a' && s[i + 2] == 'l'
        && s[i + 3] == 's' && s[i + 4] == 'e' {
        Some((ScalarModel::Flag(false), i + 5))
    } else if 0 <= i && i + 4 <= s.len() && s[i] == 'n' && s[i + 1] == 'u' && s[i + 2] == 'l'
        && s[i + 3] == 'l' {
        Some((ScalarModel::Other, i + 4))
    } else if 0 <= i < s.len() && (s[i] == '-' || digit_char(s[i])) {
        match number_token_end(s, i) {
            Some(j) => Some((ScalarModel::Other, j)),
            None => None,
        }
    } else if 0 <= i < s.len() && (s[i] == '{' || s[i] == '[') {
        match skip_value(s, i, fuel) {
            Some(j) => Some((ScalarModel::Other, j)),
            None => None,
        }
    } else {
        None
    }
}

pub proof fn lemma_parse_scalar_bounds(s: Seq<char>, i: int, fuel: nat)
    requires
        0 <= i <= s.len(),
    ensures
        parse_scalar(s, i, fuel) matches Some(p) ==> i + 1 <= p.1 <= s.len(),
{
    lemma_parse_text_bounds(s, i);
    lemma_number_token_end_bounds(s, i);
    lemma_skip_value_bounds(s, i, fuel);
}

/// One `"key": value` member starting at `i`.
pub open spec fn parse_pair(s: Seq<char>, i: int, fuel: nat) -> Option<
    ((Seq<char>, ScalarModel), int),
>
    recommends
        0 <= i <= s.len(),
{
    match parse_text(s, i) {
        Some((k, i2)) => {
            let j = ws_end(s, i2);
            if j < s.len() && s[j] == ':' {
                let i3 = ws_end(s, j + 1);
                match parse_scalar(s, i3, fuel) {
                    Some((v, i4)) => Some(((k, v), i4)),
                    None => None,
                }
            } else {
                None
            }
        },
        None => None,
    }
}

pub proof fn lemma_parse_pair_bounds(s: Seq<char>, i: int, fuel: nat)
    requires
        0 <= i <= s.len(),
    ensures
        parse_pair(s, i, fuel) matches Some(p) ==> i + 1 <= p.1 <= s.len(),
{
    lemma_parse_text_bounds(s, i);
    match parse_text(s, i) {
        Some(p) => {
            let i2 = p.1;
            lemma_ws_end_bounds(s, i2);
            let j = ws_end(s, i2);
            if j < s.len() && s[j] == ':' {
                lemma_ws_end_bounds(s, j + 1);
                lemma_parse_scalar_bounds(s, ws_end(s, j + 1), fuel);
            }
        },
        None => {},
    }
}

/// The members of an object, starting at the first key and ending just past
/// the closing brace. `fuel` bounds the recursion; callers hand it the
/// document length, which one member can never outrun.
pub open spec fn parse_pairs(s: Seq<char>, i: int, fuel: nat) -> Option<
    (Seq<(Seq<char>, ScalarModel)>, int),
>
    recommends
        0 <= i <= s.len(),
    decreases fuel,
{
    if fuel == 0 {
        None
    } else {
        match parse_pair(s, i, (fuel - 1) as nat) {
            Some((kv, i2)) => {
                let j = ws_end(s, i2);
                if j < s.len() && s[j] == ',' {
                    let i3 = ws_end(s, j + 1);
                    match parse_pairs(s, i3, (fuel - 1) as nat) {
                        Some((rest, i4)) => Some((seq![kv] + rest, i4)),
                        None => None,
                    }
                } else if j < s.len() && s[j] == '}' {
                    Some((seq![kv], j + 1))
                } else {
                    None
                }
            },
            None => None,
        }
    }
}

pub proof fn lemma_parse_pairs_bounds(s: Seq<char>, i: int, fuel: nat)
    requires
        0 <= i <= s.len(),
    ensures
        parse_pairs(s, i, fuel) matches Some(p) ==> i + 1 <= p.1 <= s.len(),
    decreases fuel,
{
    if fuel > 0 {
        lemma_parse_pair_bounds(s, i, (fuel - 1) as nat);
        match parse_pair(s, i, (fuel - 1) as nat) {
            Some(p) => {
                let i2 = p.1;
                lemma_ws_end_bounds(s, i2);
                let j = ws_end(s, i2);
                if j < s.len() && s[j] == ',' {
                    lemma_ws_end_bounds(s, j + 1);
                    lemma_parse_pairs_bounds(s, ws_end(s, j + 1), (fuel - 1) as nat);
                }
            },
            None => {},
        }
    }
}

/// A flat object starting at `i`: its members in document order and the
/// index just past the closing brace.
pub open spec fn parse_object(s: Seq<char>, i: int, fuel: nat) -> Option<
    (Seq<(Seq<char>, ScalarModel)>, int),
>
    recommends
        0 <= i <= s.len(),
{
    if 0 <= i < s.len() && s[i] == '{' {
        let j = ws_end(s, i + 1);
        if j < s.len() && s[j] == '}' {
            Some((Seq::empty(), j + 1))
        } else {
            parse_pairs(s, j, fuel)
        }
    } else {
        None
    }
}

pub proof fn lemma_parse_object_bounds(s: Seq<char>, i: int, fuel: nat)
    requires
        0 <= i <= s.len(),
    ensures
        parse_object(s, i, fuel) matches Some(p) ==> i + 1 <= p.1 <= s.len(),
{
    if 0 <= i < s.len() && s[i] == '{' {
        lemma_ws_end_bounds(s, i + 1);
        lemma_parse_pairs_bounds(s, ws_end(s, i + 1), fuel);
    }
}

/// The elements of a string array, starting at the first quote and ending
/// just past the closing bracket.
pub open spec fn parse_strings(s: Seq<char>, i: int, fuel: nat) -> Option<(Seq<Seq<char>>, int)>
    recommends
        0 <= i <= s.len(),
    decreases fuel,
{
    if fuel == 0 {
        None
    } else {
        match parse_text(s, i) {
            Some((t, i2)) => {
                let j = ws_end(s, i2);
                if j < s.len() && s[j] == ',' {
                    let i3 = ws_end(s, j + 1);
                    match parse_strings(s, i3, (fuel - 1) as nat) {
                        Some((rest, i4)) => Some((seq![t] + rest, i4)),
                        None => None,
                    }
                } else if j < s.len() && s[j] == ']' {
                    Some((seq![t], j + 1))
                } else {
                    None
                }
            },
            None => None,
        }
    }
}

pub proof fn lemma_parse_strings_bounds(s: Seq<char>, i: int, fuel: nat)
    requires
        0 <= i <= s.len(),
    ensures
        parse_strings(s, i, fuel) matches Some(p) ==> i + 1 <= p.1 <= s.len(),
    decreases fuel,
{
    if fuel > 0 {
        lemma_parse_text_bounds(s, i);
        match parse_text(s, i) {
            Some(p) => {
                let i2 = p.1;
                lemma_ws_end_bounds(s, i2);
                let j = ws_end(s, i2);
                if j < s.len() && s[j] == ',' {
                    lemma_ws_end_bounds(s, j + 1);
                    lemma_parse_strings_bounds(s, ws_end(s, j + 1), (fuel - 1) as nat);
                }
            },
            None => {},
        }
    }
}

/// A `["a","b",...]` array starting at `i`.
pub open spec fn parse_string_array(s: Seq<char>, i: int, fuel: nat) -> Option<
    (Seq<Seq<char>>, int),
>
    recommends
        0 <= i <= s.len(),
{
    if 0 <= i < s.len() && s[i] == '[' {
        let j = ws_end(s, i + 1);
        if j < s.len() && s[j] == ']' {
            Some((Seq::empty(), j + 1))
        } else {
            parse_strings(s, j, fuel)
        }
    } else {
        None
    }
}

pub proof fn lemma_parse_string_array_bounds(s: Seq<char>, i: int, fuel: nat)
    requires
        0 <= i <= s.len(),
    ensures
        parse_string_array(s, i, fuel) matches Some(p) ==> i + 1 <= p.1 <= s.len(),
{
    if 0 <= i < s.len() && s[i] == '[' {
        lemma_ws_end_bounds(s, i + 1);
        lemma_parse_strings_bounds(s, ws_end(s, i + 1), fuel);
    }
}

/// The elements of an array of flat objects, ending just past the closing
/// bracket.
pub open spec fn parse_objects(s: Seq<char>, i: int, fuel: nat) -> Option<
    (Seq<Seq<(Seq<char>, ScalarModel)>>, int),
>
    recommends
        0 <= i <= s.len(),
    decreases fuel,
{
    if fuel == 0 {
        None
    } else {
        match parse_object(s, i, fuel) {
            Some((obj, i2)) => {
                let j = ws_end(s, i2);
                if j < s.len() && s[j] == ',' {
                    let i3 = ws_end(s, j + 1);
                    match parse_objects(s, i3, (fuel - 1) as nat) {
                        Some((rest, i4)) => Some((seq![obj] + rest, i4)),
                        None => None,
                    }
                } else if j < s.len() && s[j] == ']' {
                    Some((seq![obj], j + 1))
                } else {
                    None
                }
            },
            None => None,
        }
    }
}

pub proof fn lemma_parse_objects_bounds(s: Seq<char>, i: int, fuel: nat)
    requires
        0 <= i <= s.len(),
    ensures
        parse_objects(s, i, fuel) matches Some(p) ==> i + 1 <= p.1 <= s.len(),
    decreases fuel,
{
    if fuel > 0 {
        lemma_parse_object_bounds(s, i, fuel);
        match parse_object(s, i, fuel) {
            Some(p) => {
                let i2 = p.1;
                lemma_ws_end_bounds(s, i2);
                let j = ws_end(s, i2);
                if j < s.len() && s[j] == ',' {
                    lemma_ws_end_bounds(s, j + 1);
                    lemma_parse_objects_bounds(s, ws_end(s, j + 1), (fuel - 1) as nat);
                }
            },
            None => {},
        }
    }
}

/// A `[{...},{...}]` array starting at `i`.
pub open spec fn parse_object_array(s: Seq<char>, i: int, fuel: nat) -> Option<
    (Seq<Seq<(Seq<char>, ScalarModel)>>, int),
>
    recommends
        0 <= i <= s.len(),
{
    if 0 <= i < s.len() && s[i] == '[' {
        let j = ws_end(s, i + 1);
        if j < s.len() && s[j] == ']' {
            Some((Seq::empty(), j + 1))
        } else {
            parse_objects(s, j, fuel)
        }
    } else {
        None
    }
}

pub proof fn lemma_parse_object_array_bounds(s: Seq<char>, i: int, fuel: nat)
    requires
        0 <= i <= s.len(),
    ensures
        parse_object_array(s, i, fuel) matches Some(p) ==> i + 1 <= p.1 <= s.len(),
{
    if 0 <= i < s.len() && s[i] == '[' {
        lemma_ws_end_bounds(s, i + 1);
        lemma_parse_objects_bounds(s, ws_end(s, i + 1), fuel);
    }
}

/// Index of the last member of `pairs`, below `i`, whose key is `key`.
pub open spec fn lookup_before(
    pairs: Seq<(Seq<char>, ScalarModel)>,
    key: Seq<char>,
    i: int,
) -> Option<int>
    decreases i
        when 0 <= i <= pairs.len()
{
    if i > 0 {
        if pairs[i - 1].0 == key {
            Some(i - 1)
        } else {
            lookup_before(pairs, key, i - 1)
        }
    } else {
        None
    }
}

pub proof fn lemma_lookup_before_bounds(
    pairs: Seq<(Seq<char>, ScalarModel)>,
    key: Seq<char>,
    i: int,
)
    requires
        0 <= i <= pairs.len(),
    ensures
        lookup_before(pairs, key, i) matches Some(ix) ==> 0 <= ix < i && pairs[ix].0 == key,
    decreases i,
{
    if i > 0 && pairs[i - 1].0 != key {
        lemma_lookup_before_bounds(pairs, key, i - 1);
    }
}

/// The value of the last member of `pairs` whose key is `key`: on
/// duplicate keys a JSON object reading keeps the last one.
pub open spec fn lookup(pairs: Seq<(Seq<char>, ScalarModel)>, key: Seq<char>) -> Option<
    ScalarModel,
> {
    match lookup_before(pairs, key, pairs.len() as int) {
        Some(ix) => Some(pairs[ix].1),
        None => None,
    }
}

/// Model of a scanned member list.
pub open spec fn pairs_model(v: Seq<(String, Scalar)>) -> Seq<(Seq<char>, ScalarModel)> {
    v.map_values(|p: (String, Scalar)| (p.0@, p.1.model()))
}

/// Model of a scanned object list.
pub open spec fn objects_model(v: Seq<Vec<(String, Scalar)>>) -> Seq<
    Seq<(Seq<char>, ScalarModel)>,
> {
    v.map_values(|o: Vec<(String, Scalar)>| pairs_model(o@))
}

pub fn skip_ws(s: &str, i: usize) -> (r: usize)
    requires
        i <= s@.len(),
    ensures
        r == ws_end(s@, i as int),
        i <= r <= s@.len(),
    decreases s@.len() - i,
{
    let n: usize = s.unicode_len();
    if i < n {
        let c = s.get_char(i);
        if c == ' ' || c == '\t' || c == '\n' || c == '\r' {
            skip_ws(s, i + 1)
        } else {
            i
        }
    } else {
        i
    }
}

/// Appends the character a one-letter escape stands for; reports whether
/// the escape is one of the subset.
fn append_escaped(acc: &mut String, e: char) -> (ok: bool)
    ensures
        ok == (esc_char(e) is Some),
        esc_char(e) matches Some(c) ==> final(acc)@ == old(acc)@ + seq![c],
        esc_char(e) is None ==> final(acc)@ == old(acc)@,
{
    if e == '"' {
        acc.append("\"");
        proof {
            reveal_strlit("\"");
            assert(final(acc)@ =~= old(acc)@ + seq!['"']);
        }
        true
    } else if e == '\\' {
        acc.append("\\");
        proof {
            reveal_strlit("\\");
            assert(final(acc)@ =~= old(acc)@ + seq!['\\']);
        }
        true
    } else if e == '/' {
        acc.append("/");
        proof {
            reveal_strlit("/");
            assert(final(acc)@ =~= old(acc)@ + seq!['/']);
        }
        true
    } else if e == 'b' {
        acc.append("\u{0008}");
        proof {
            reveal_strlit("\u{0008}");
            assert(final(acc)@ =~= old(acc)@ + seq!['\u{0008}']);
        }
        true
    } else if e == 'f' {
        acc.append("\u{000C}");
        proof {
            reveal_strlit("\u{000C}");
            assert(final(acc)@ =~= old(acc)@ + seq!['\u{000C}']);
        }
        true
    } else if e == 'n' {
        acc.append("\n");
        proof {
            reveal_strlit("\n");
            assert(final(acc)@ =~= old(acc)@ + seq!['\n']);
        }
        true
    } else if e == 'r' {
        acc.append("\r");
        proof {
            reveal_strlit("\r");
            assert(final(acc)@ =~= old(acc)@ + seq!['\r']);
        }
        true
    } else if e == 't' {
        acc.append("\t");
        proof {
            reveal_strlit("\t");
            assert(final(acc)@ =~= old(acc)@ + seq!['\t']);
        }
        true
    } else {
        false
    }
}

pub fn read_text(s: &str, i: usize) -> (r: Option<(String, usize)>)
    requires
        i <= s@.len(),
    ensures
        match parse_text(s@, i as int) {
            Some(p) => r matches Some(q) && q.0@ == p.0 && q.1 == p.1,
            None => r is None,
        },
{
    let n: usize = s.unicode_len();
    if !(i < n && s.get_char(i) == '"') {
        return None;
    }
    let mut acc: String = String::new();
    let mut j: usize = i + 1;
    proof {
        assert(acc@ + Seq::<char>::empty() =~= acc@);
    }
    loop
        invariant
            i < s@.len(),
            s@[i as int] == '"',
            i + 1 <= j <= s@.len(),
            n == s@.len(),
            match text_from(s@, i as int + 1) {
                Some(p) => text_from(s@, j as int) matches Some(q) && p.0 == acc@ + q.0 && p.1
                    == q.1,
                None => text_from(s@, j as int) is None,
            },
        decreases s@.len() - j,
    {
        if j >= n {
            return None;
        }
        let c = s.get_char(j);
        if c == '"' {
            proof {
                assert(acc@ + Seq::<char>::empty() =~= acc@);
            }
            return Some((acc, j + 1));
        } else if c == '\\' {
            if j + 1 < n {
                let e = s.get_char(j + 1);
                let ghost acc0 = acc@;
                if !append_escaped(&mut acc, e) {
                    return None;
                }
                proof {
                    let dec = esc_char(s@[j as int + 1])->Some_0;
                    match text_from(s@, j as int + 2) {
                        Some(q) => {
                            assert(acc0 + (seq![dec] + q.0) =~= (acc0 + seq![dec]) + q.0);
                        },
                        None => {},
                    }
                }
                j = j + 2;
            } else {
                return None;
            }
        } else if c != '\\' && (c as u32) >= 0x20 {
            let t = s.substring_char(j, j + 1);
            let ghost acc0 = acc@;
            acc.append(t);
            proof {
                assert(t@ =~= seq![s@[j as int]]);
                match text_from(s@, j as int + 1) {
                    Some(q) => {
                        assert(acc0 + (seq![s@[j as int]] + q.0) =~= (acc0 + seq![s@[j as int]])
                            + q.0);
                    },
                    None => {},
                }
            }
            j = j + 1;
        } else {
            return None;
        }
    }
}

fn is_digit(c: char) -> (r: bool)
    ensures
        r == digit_char(c),
{
    let u: u32 = c as u32;
    48 <= u && u <= 57
}

pub fn scan_digits_end(s: &str, i: usize) -> (r: usize)
    requires
        i <= s@.len(),
    ensures
        r == digits_end(s@, i as int),
        i <= r <= s@.len(),
    decreases s@.len() - i,
{
    let n: usize = s.unicode_len();
    if i < n && is_digit(s.get_char(i)) {
        scan_digits_end(s, i + 1)
    } else {
        i
    }
}

pub fn scan_number_token(s: &str, i: usize) -> (r: Option<usize>)
    requires
        i <= s@.len(),
    ensures
        match number_token_end(s@, i as int) {
            Some(j) => r matches Some(u) && u == j,
            None => r is None,
        },
{
    let n: usize = s.unicode_len();
    let st: usize = if i < n && s.get_char(i) == '-' {
        i + 1
    } else {
        i
    };
    let a: usize;
    if st < n && s.get_char(st) == '0' {
        a = st + 1;
    } else if st < n && is_digit(s.get_char(st)) {
        a = scan_digits_end(s, st + 1);
    } else {
        return None;
    }
    let b: usize;
    if a < n && s.get_char(a) == '.' {
        if a + 1 < n && is_digit(s.get_char(a + 1)) {
            b = scan_digits_end(s, a + 1);
        } else {
            return None;
        }
    } else {
        b = a;
    }
    if b < n && (s.get_char(b) == 'e' || s.get_char(b) == 'E') {
        let j: usize = if b + 1 < n && (s.get_char(b + 1) == '+' || s.get_char(b + 1) == '-') {
            b + 2
        } else {
            b + 1
        };
        if j < n && is_digit(s.get_char(j)) {
            Some(scan_digits_end(s, j))
        } else {
            None
        }
    } else {
        Some(b)
    }
}

pub fn scan_value_end(s: &str, i: usize, fuel: usize) -> (r: Option<usize>)
    requires
        i <= s@.len(),
    ensures
        match skip_value(s@, i as int, fuel as nat) {
            Some(j) => r matches Some(u) && u == j,
            None => r is None,
        },
    decreases fuel, 1int,
{
    if fuel == 0 {
        return None;
    }
    let n: usize = s.unicode_len();
    if i < n && s.get_char(i) == '"' {
        match read_text(s, i) {
            Some((_t, i2)) => Some(i2),
            None => None,
        }
    } else if i < n && n - i >= 4 && s.get_char(i) == 't' && s.get_char(i + 1) == 'r'
        && s.get_char(i + 2) == 'u' && s.get_char(i + 3) == 'e' {
        Some(i + 4)
    } else if i < n && n - i >= 5 && s.get_char(i) == 'f' && s.get_char(i + 1) == 'a'
        && s.get_char(i + 2) == 'l' && s.get_char(i + 3) == 's' && s.get_char(i + 4) == 'e' {
        Some(i + 5)
    } else if i < n && n - i >= 4 && s.get_char(i) == 'n' && s.get_char(i + 1) == 'u'
        && s.get_char(i + 2) == 'l' && s.get_char(i + 3) == 'l' {
        Some(i + 4)
    } else if i < n && (s.get_char(i) == '-' || is_digit(s.get_char(i))) {
        scan_number_token(s, i)
    } else if i < n && s.get_char(i) == '{' {
        let j = skip_ws(s, i + 1);
        if j < n && s.get_char(j) == '}' {
            Some(j + 1)
        } else {
            scan_members_end(s, j, fuel - 1)
        }
    } else if i < n && s.get_char(i) == '[' {
        let j = skip_ws(s, i + 1);
        if j < n && s.get_char(j) == ']' {
            Some(j + 1)
        } else {
            scan_elements_end(s, j, fuel - 1)
        }
    } else {
        None
    }
}

fn scan_members_end(s: &str, i: usize, fuel: usize) -> (r: Option<usize>)
    requires
        i <= s@.len(),
    ensures
        match skip_members(s@, i as int, fuel as nat) {
            Some(j) => r matches Some(u) && u == j,
            None => r is None,
        },
    decreases fuel, 0int,
{
    if fuel == 0 {
        return None;
    }
    match read_text(s, i) {
        Some((_k, i2)) => {
            proof {
                lemma_parse_text_bounds(s@, i as int);
            }
            let j = skip_ws(s, i2);
            let n: usize = s.unicode_len();
            if j < n && s.get_char(j) == ':' {
                let i3 = skip_ws(s, j + 1);
                match scan_value_end(s, i3, fuel - 1) {
                    Some(i4) => {
                        proof {
                            lemma_skip_value_bounds(s@, i3 as int, (fuel - 1) as nat);
                        }
                        let j2 = skip_ws(s, i4);
                        if j2 < n && s.get_char(j2) == ',' {
                            let i5 = skip_ws(s, j2 + 1);
                            scan_members_end(s, i5, fuel - 1)
                        } else if j2 < n && s.get_char(j2) == '}' {
                            Some(j2 + 1)
                        } else {
                            None
                        }
                    },
                    None => None,
                }
            } else {
                None
            }
        },
        None => None,
    }
}

fn scan_elements_end(s: &str, i: usize, fuel: usize) -> (r: Option<usize>)
    requires
        i <= s@.len(),
    ensures
        match skip_elements(s@, i as int, fuel as nat) {
            Some(j) => r matches Some(u) && u == j,
            None => r is None,
        },
    decreases fuel, 0int,
{
    if fuel == 0 {
        return None;
    }
    match scan_value_end(s, i, fuel - 1) {
        Some(i2) => {
            proof {
                lemma_skip_value_bounds(s@, i as int, (fuel - 1) as nat);
            }
            let j = skip_ws(s, i2);
            let n: usize = s.unicode_len();
            if j < n && s.get_char(j) == ',' {
                let i3 = skip_ws(s, j + 1);
                scan_elements_end(s, i3, fuel - 1)
            } else if j < n && s.get_char(j) == ']' {
                Some(j + 1)
            } else {
                None
            }
        },
        None => None,
    }
}

pub fn read_scalar(s: &str, i: usize, fuel: usize) -> (r: Option<(Scalar, usize)>)
    requires
        i <= s@.len(),
    ensures
        match parse_scalar(s@, i as int, fuel as nat) {
            Some(p) => r matches Some(q) && q.0.model() == p.0 && q.1 == p.1,
            None => r is None,
        },
{
    let n: usize = s.unicode_len();
    if i < n && s.get_char(i) == '"' {
        match read_text(s, i) {
            Some((t, i2)) => Some((Scalar::Text(t), i2)),
            None => None,
        }
    } else if i < n && n - i >= 4 && s.get_char(i) == 't' && s.get_char(i + 1) == 'r'
        && s.get_char(i + 2) == 'u' && s.get_char(i + 3) == 'e' {
        Some((Scalar::Flag(true), i + 4))
    } else if i < n && n - i >= 5 && s.get_char(i) == 'f' && s.get_char(i + 1) == 'a'
        && s.get_char(i + 2) == 'l' && s.get_char(i + 3) == 's' && s.get_char(i + 4) == 'e' {
        Some((Scalar::Flag(false), i + 5))
    } else if i < n && n - i >= 4 && s.get_char(i) == 'n' && s.get_char(i + 1) == 'u'
        && s.get_char(i + 2) == 'l' && s.get_char(i + 3) == 'l' {
        Some((Scalar::Other, i + 4))
    } else if i < n && (s.get_char(i) == '-' || is_digit(s.get_char(i))) {
        match scan_number_token(s, i) {
            Some(j) => Some((Scalar::Other, j)),
            None => None,
        }
    } else if i < n && (s.get_char(i) == '{' || s.get_char(i) == '[') {
        match scan_value_end(s, i, fuel) {
            Some(j) => Some((Scalar::Other, j)),
            None => None,
        }
    } else {
        None
    }
}

pub fn read_pair(s: &str, i: usize, fuel: usize) -> (r: Option<((String, Scalar), usize)>)
    requires
        i <= s@.len(),
    ensures
        match parse_pair(s@, i as int, fuel as nat) {
            Some(p) => r matches Some(q) && (q.0).0@ == (p.0).0 && (q.0).1.model() == (p.0).1
                && q.1 == p.1,
            None => r is None,
        },
{
    match read_text(s, i) {
        Some((k, i2)) => {
            proof {
                lemma_parse_text_bounds(s@, i as int);
            }
            let j = skip_ws(s, i2);
            let n: usize = s.unicode_len();
            if j < n && s.get_char(j) == ':' {
                let i3 = skip_ws(s, j + 1);
                match read_scalar(s, i3, fuel) {
                    Some((v, i4)) => Some(((k, v), i4)),
                    None => None,
                }
            } else {
                None
            }
        },
        None => None,
    }
}

pub fn read_pairs(s: &str, i: usize, fuel: usize) -> (r: Option<(Vec<(String, Scalar)>, usize)>)
    requires
        i <= s@.len(),
    ensures
        match parse_pairs(s@, i as int, fuel as nat) {
            Some(p) => r matches Some(q) && pairs_model(q.0@) == p.0 && q.1 == p.1,
            None => r is None,
        },
    decreases fuel,
{
    if fuel == 0 {
        None
    } else {
        match read_pair(s, i, fuel - 1) {
            Some((kv, i2)) => {
                proof {
                    lemma_parse_pair_bounds(s@, i as int, (fuel - 1) as nat);
                }
                let ghost kvm = ((kv.0)@, kv.1.model());
                let j = skip_ws(s, i2);
                let n: usize = s.unicode_len();
                if j < n && s.get_char(j) == ',' {
                    let i3 = skip_ws(s, j + 1);
                    match read_pairs(s, i3, fuel - 1) {
                        Some((mut rest, i4)) => {
                            let ghost rest0 = rest@;
                            rest.insert(0, kv);
                            proof {
                                assert(pairs_model(rest@) =~= seq![kvm] + pairs_model(rest0));
                            }
                            Some((rest, i4))
                        },
                        None => None,
                    }
                } else if j < n && s.get_char(j) == '}' {
                    let mut one: Vec<(String, Scalar)> = Vec::new();
                    one.push(kv);
                    proof {
                        assert(pairs_model(one@) =~= seq![kvm]);
                    }
                    Some((one, j + 1))
                } else {
                    None
                }
            },
            None => None,
        }
    }
}

pub fn read_object(s: &str, i: usize, fuel: usize) -> (r: Option<(Vec<(String, Scalar)>, usize)>)
    requires
        i <= s@.len(),
    ensures
        match parse_object(s@, i as int, fuel as nat) {
            Some(p) => r matches Some(q) && pairs_model(q.0@) == p.0 && q.1 == p.1,
            None => r is None,
        },
{
    let n: usize = s.unicode_len();
    if i < n && s.get_char(i) == '{' {
        let j = skip_ws(s, i + 1);
        if j < n && s.get_char(j) == '}' {
            let empty: Vec<(String, Scalar)> = Vec::new();
            proof {
                assert(pairs_model(empty@) =~= Seq::<(Seq<char>, ScalarModel)>::empty());
            }
            Some((empty, j + 1))
        } else {
            read_pairs(s, j, fuel)
        }
    } else {
        None
    }
}

pub fn read_strings(s: &str, i: usize, fuel: usize) -> (r: Option<(Vec<String>, usize)>)
    requires
        i <= s@.len(),
    ensures
        match parse_strings(s@, i as int, fuel as nat) {
            Some(p) => r matches Some(q) && q.0.deep_view() == p.0 && q.1 == p.1,
            None => r is None,
        },
    decreases fuel,
{
    if fuel == 0 {
        None
    } else {
        match read_text(s, i) {
            Some((t, i2)) => {
                proof {
                    lemma_parse_text_bounds(s@, i as int);
                }
                let ghost tm = t@;
                let j = skip_ws(s, i2);
                let n: usize = s.unicode_len();
                if j < n && s.get_char(j) == ',' {
                    let i3 = skip_ws(s, j + 1);
                    match read_strings(s, i3, fuel - 1) {
                        Some((mut rest, i4)) => {
                            let ghost rest0 = rest.deep_view();
                            rest.insert(0, t);
                            proof {
                                assert(rest.deep_view() =~= seq![tm] + rest0);
                            }
                            Some((rest, i4))
                        },
                        None => None,
                    }
                } else if j < n && s.get_char(j) == ']' {
                    let mut one: Vec<String> = Vec::new();
                    one.push(t);
                    proof {
                        assert(one.deep_view() =~= seq![tm]);
                    }
                    Some((one, j + 1))
                } else {
                    None
                }
            },
            None => None,
        }
    }
}

pub fn read_string_array(s: &str, i: usize, fuel: usize) -> (r: Option<(Vec<String>, usize)>)
    requires
        i <= s@.len(),
    ensures
        match parse_string_array(s@, i as int, fuel as nat) {
            Some(p) => r matches Some(q) && q.0.deep_view() == p.0 && q.1 == p.1,
            None => r is None,
        },
{
    let n: usize = s.unicode_len();
    if i < n && s.get_char(i) == '[' {
        let j = skip_ws(s, i + 1);
        if j < n && s.get_char(j) == ']' {
            let empty: Vec<String> = Vec::new();
            proof {
                assert(empty.deep_view() =~= Seq::<Seq<char>>::empty());
            }
            Some((empty, j + 1))
        } else {
            read_strings(s, j, fuel)
        }
    } else {
        None
    }
}

pub fn read_objects(s: &str, i: usize, fuel: usize) -> (r: Option<
    (Vec<Vec<(String, Scalar)>>, usize),
>)
    requires
        i <= s@.len(),
    ensures
        match parse_objects(s@, i as int, fuel as nat) {
            Some(p) => r matches Some(q) && objects_model(q.0@) == p.0 && q.1 == p.1,
            None => r is None,
        },
    decreases fuel,
{
    if fuel == 0 {
        None
    } else {
        match read_object(s, i, fuel) {
            Some((obj, i2)) => {
                proof {
                    lemma_parse_object_bounds(s@, i as int, fuel as nat);
                }
                let ghost om = pairs_model(obj@);
                let j = skip_ws(s, i2);
                let n: usize = s.unicode_len();
                if j < n && s.get_char(j) == ',' {
                    let i3 = skip_ws(s, j + 1);
                    match read_objects(s, i3, fuel - 1) {
                        Some((mut rest, i4)) => {
                            let ghost rest0 = rest@;
                            rest.insert(0, obj);
                            proof {
                                assert(objects_model(rest@) =~= seq![om] + objects_model(rest0));
                            }
                            Some((rest, i4))
                        },
                        None => None,
                    }
                } else if j < n && s.get_char(j) == ']' {
                    let mut one: Vec<Vec<(String, Scalar)>> = Vec::new();
                    one.push(obj);
                    proof {
                        assert(objects_model(one@) =~= seq![om]);
                    }
                    Some((one, j + 1))
                } else {
                    None
                }
            },
            None => None,
        }
    }
}

pub fn read_object_array(s: &str, i: usize, fuel: usize) -> (r: Option<
    (Vec<Vec<(String, Scalar)>>, usize),
>)
    requires
        i <= s@.len(),
    ensures
        match parse_object_array(s@, i as int, fuel as nat) {
            Some(p) => r matches Some(q) && objects_model(q.0@) == p.0 && q.1 == p.1,
            None => r is None,
        },
{
    let n: usize = s.unicode_len();
    if i < n && s.get_char(i) == '[' {
        let j = skip_ws(s, i + 1);
        if j < n && s.get_char(j) == ']' {
            let empty: Vec<Vec<(String, Scalar)>> = Vec::new();
            proof {
                assert(objects_model(empty@) =~= Seq::<Seq<(Seq<char>, ScalarModel)>>::empty());
            }
            Some((empty, j + 1))
        } else {
            read_objects(s, j, fuel)
        }
    } else {
        None
    }
}

/// Index of the last member of `pairs` whose key equals `key`.
pub fn find_key(pairs: &Vec<(String, Scalar)>, key: &String) -> (r: Option<usize>)
    ensures
        match lookup_before(pairs_model(pairs@), key@, pairs@.len() as int) {
            Some(ix) => r matches Some(u) && u == ix,
            None => r is None,
        },
{
    let mut k: usize = pairs.len();
    while k > 0
        invariant
            k <= pairs.len(),
            lookup_before(pairs_model(pairs@), key@, pairs@.len() as int) == lookup_before(
                pairs_model(pairs@),
                key@,
                k as int,
            ),
        decreases k,
    {
        if pairs[k - 1].0.eq(key) {
            return Some(k - 1);
        }
        k = k - 1;
    }
    None
}

} // verus!

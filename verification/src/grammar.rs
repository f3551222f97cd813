//! The grammar of a stream of JSON values, written as specification
//! functions over a sequence of characters.
//!
//! Each parsing function takes the whole input together with a cursor
//! position and returns the parsed item with the position one past its
//! last character, or `None` when no well-formed item starts there.
use vstd::prelude::*;

verus! {

/// A JSON number, reduced to what the decoder can use: the exact value
/// of an unsigned integer literal, or the mere fact that some other
/// well-formed number stood there.
pub enum JsonNum {
    UInt(u64),
    Other,
}

/// A JSON value. Strings and object keys are sequences of characters;
/// object members are kept in source order.
pub enum JsonValue {
    Null,
    Bool(bool),
    Num(JsonNum),
    Str(Seq<char>),
    Arr(Seq<JsonValue>),
    Obj(Seq<(Seq<char>, JsonValue)>),
}

/// JSON whitespace: space, tab, line feed, carriage return.
pub open spec fn is_ws(c: char) -> bool {
    c == ' ' || c == '\t' || c == '\n' || c == '\r'
}

pub open spec fn is_digit(c: char) -> bool {
    '0' as u32 <= c as u32 <= '9' as u32
}

pub open spec fn digit_val(c: char) -> int {
    c as u32 - '0' as u32
}

pub open spec fn is_hex_digit(c: char) -> bool {
    is_digit(c) || 'a' as u32 <= c as u32 <= 'f' as u32 || 'A' as u32 <= c as u32 <= 'F' as u32
}

pub open spec fn hex_val(c: char) -> int {
    if is_digit(c) {
        digit_val(c)
    } else if 'a' as u32 <= c as u32 <= 'f' as u32 {
        c as u32 - 'a' as u32 + 10
    } else {
        c as u32 - 'A' as u32 + 10
    }
}

/// The first position at or after `pos` that does not hold whitespace.
pub open spec fn skip_ws(s: Seq<char>, pos: int) -> int
    decreases s.len() - pos,
{
    if 0 <= pos && pos < s.len() && is_ws(s[pos]) {
        skip_ws(s, pos + 1)
    } else {
        pos
    }
}

pub proof fn lemma_skip_ws_bounds(s: Seq<char>, pos: int)
    requires
        0 <= pos <= s.len(),
    ensures
        pos <= skip_ws(s, pos) <= s.len(),
        skip_ws(s, pos) < s.len() ==> !is_ws(s[skip_ws(s, pos)]),
    decreases s.len() - pos,
{
    if pos < s.len() && is_ws(s[pos]) {
        lemma_skip_ws_bounds(s, pos + 1);
    }
}

/// The first position at or after `pos` that does not hold a decimal digit.
pub open spec fn digits_end(s: Seq<char>, pos: int) -> int
    decreases s.len() - pos,
{
    if 0 <= pos && pos < s.len() && is_digit(s[pos]) {
        digits_end(s, pos + 1)
    } else {
        pos
    }
}

pub proof fn lemma_digits_end_bounds(s: Seq<char>, pos: int)
    requires
        0 <= pos <= s.len(),
    ensures
        pos <= digits_end(s, pos) <= s.len(),
        forall|j: int| pos <= j < digits_end(s, pos) ==> is_digit(s[j]),
        digits_end(s, pos) < s.len() ==> !is_digit(s[digits_end(s, pos)]),
    decreases s.len() - pos,
{
    if pos < s.len() && is_digit(s[pos]) {
        lemma_digits_end_bounds(s, pos + 1);
    }
}

/// The value of the run of decimal digits `s[from .. to]`.
pub open spec fn digits_val(s: Seq<char>, from: int, to: int) -> int
    decreases to - from,
{
    if to <= from {
        0
    } else {
        digits_val(s, from, to - 1) * 10 + digit_val(s[to - 1])
    }
}

pub proof fn lemma_digits_val_nonneg(s: Seq<char>, from: int, to: int)
    requires
        forall|j: int| from <= j < to ==> 0 <= #[trigger] digit_val(s[j]),
    ensures
        0 <= digits_val(s, from, to),
    decreases to - from,
{
    if from < to {
        lemma_digits_val_nonneg(s, from, to - 1);
        assert(digits_val(s, from, to - 1) * 10 >= digits_val(s, from, to - 1));
    }
}

/// A longer run of digits never has a smaller value.
pub proof fn lemma_digits_val_grows(s: Seq<char>, from: int, mid: int, to: int)
    requires
        from <= mid <= to,
        forall|j: int| from <= j < to ==> 0 <= #[trigger] digit_val(s[j]),
    ensures
        0 <= digits_val(s, from, mid) <= digits_val(s, from, to),
    decreases to - mid,
{
    lemma_digits_val_nonneg(s, from, mid);
    if mid < to {
        lemma_digits_val_grows(s, from, mid, to - 1);
        lemma_digits_val_nonneg(s, from, to - 1);
        assert(digits_val(s, from, to - 1) * 10 >= digits_val(s, from, to - 1));
    }
}

/// The fraction part of a number, if one starts at `pos`: `Some(end)`
/// past a well-formed `.digits` part, `Some(pos)` when no `.` stands
/// there, `None` when a `.` stands there without a digit after it.
pub open spec fn spec_frac(s: Seq<char>, pos: int) -> Option<int> {
    if 0 <= pos && pos < s.len() && s[pos] == '.' {
        if pos + 1 < s.len() && is_digit(s[pos + 1]) {
            Some(digits_end(s, pos + 1))
        } else {
            None
        }
    } else {
        Some(pos)
    }
}

/// The exponent part of a number, in the same manner as [`spec_frac`].
pub open spec fn spec_exp(s: Seq<char>, pos: int) -> Option<int> {
    if 0 <= pos && pos < s.len() && (s[pos] == 'e' || s[pos] == 'E') {
        let q = if pos + 1 < s.len() && (s[pos + 1] == '+' || s[pos + 1] == '-') {
            pos + 2
        } else {
            pos + 1
        };
        if q < s.len() && is_digit(s[q]) {
            Some(digits_end(s, q))
        } else {
            None
        }
    } else {
        Some(pos)
    }
}

/// A JSON number starting at `pos`: an optional minus sign, an integer
/// part without a leading zero, an optional fraction and an optional
/// exponent. The value is kept only for a plain unsigned integer
/// literal that fits in a `u64`.
pub open spec fn spec_number(s: Seq<char>, pos: int) -> Option<(JsonNum, int)> {
    let neg = 0 <= pos && pos < s.len() && s[pos] == '-';
    let ip = if neg {
        pos + 1
    } else {
        pos
    };
    if !(0 <= ip && ip < s.len() && is_digit(s[ip])) {
        None
    } else {
        let ip_end = if s[ip] == '0' {
            ip + 1
        } else {
            digits_end(s, ip)
        };
        match spec_frac(s, ip_end) {
            None => None,
            Some(f_end) => match spec_exp(s, f_end) {
                None => None,
                Some(e_end) => {
                    let num = if !neg && f_end == ip_end && e_end == f_end && digits_val(
                        s,
                        ip,
                        ip_end,
                    ) <= u64::MAX {
                        JsonNum::UInt(digits_val(s, ip, ip_end) as u64)
                    } else {
                        JsonNum::Other
                    };
                    Some((num, e_end))
                },
            },
        }
    }
}

pub proof fn lemma_number_bounds(s: Seq<char>, pos: int)
    requires
        0 <= pos <= s.len(),
    ensures
        spec_number(s, pos) matches Some((n, end)) ==> pos < end <= s.len(),
{
    let neg = pos < s.len() && s[pos] == '-';
    let ip = if neg {
        pos + 1
    } else {
        pos
    };
    if 0 <= ip && ip < s.len() && is_digit(s[ip]) {
        lemma_digits_end_bounds(s, ip);
        let ip_end = if s[ip] == '0' {
            ip + 1
        } else {
            digits_end(s, ip)
        };
        match spec_frac(s, ip_end) {
            None => {},
            Some(f_end) => {
                if ip_end < s.len() && s[ip_end] == '.' {
                    lemma_digits_end_bounds(s, ip_end + 1);
                }
                match spec_exp(s, f_end) {
                    None => {},
                    Some(e_end) => {
                        if f_end < s.len() && (s[f_end] == 'e' || s[f_end] == 'E') {
                            let q = if f_end + 1 < s.len() && (s[f_end + 1] == '+' || s[f_end + 1]
                                == '-') {
                                f_end + 2
                            } else {
                                f_end + 1
                            };
                            lemma_digits_end_bounds(s, q);
                        }
                    },
                }
            },
        }
    }
}

/// Whether four hexadecimal digits stand at `pos`.
pub open spec fn hex4_at(s: Seq<char>, pos: int) -> bool {
    &&& 0 <= pos
    &&& pos + 4 <= s.len()
    &&& is_hex_digit(s[pos])
    &&& is_hex_digit(s[pos + 1])
    &&& is_hex_digit(s[pos + 2])
    &&& is_hex_digit(s[pos + 3])
}

/// The value of the four hexadecimal digits at `pos`.
pub open spec fn hex4_val(s: Seq<char>, pos: int) -> int {
    ((hex_val(s[pos]) * 16 + hex_val(s[pos + 1])) * 16 + hex_val(s[pos + 2])) * 16 + hex_val(
        s[pos + 3],
    )
}

/// A `\u` escape whose four hexadecimal digits start at `pos`. A code
/// unit outside the surrogate range names its own scalar value; a high
/// surrogate must be followed by a second `\u` escape holding a low
/// surrogate, and the pair names one supplementary character.
pub open spec fn spec_unicode_escape(s: Seq<char>, pos: int) -> Option<(char, int)> {
    if !hex4_at(s, pos) {
        None
    } else {
        let h = hex4_val(s, pos);
        if h < 0xD800 || h > 0xDFFF {
            Some((h as char, pos + 4))
        } else if h <= 0xDBFF {
            if pos + 10 <= s.len() && s[pos + 4] == '\\' && s[pos + 5] == 'u' && hex4_at(
                s,
                pos + 6,
            ) {
                let l = hex4_val(s, pos + 6);
                if 0xDC00 <= l && l <= 0xDFFF {
                    Some(((0x10000 + (h - 0xD800) * 0x400 + (l - 0xDC00)) as char, pos + 10))
                } else {
                    None
                }
            } else {
                None
            }
        } else {
            None
        }
    }
}

/// A string escape whose introducing character stands at `pos`, right
/// after the backslash.
pub open spec fn spec_escape(s: Seq<char>, pos: int) -> Option<(char, int)> {
    if !(0 <= pos && pos < s.len()) {
        None
    } else {
        let c = s[pos];
        if c == '"' {
            Some(('"', pos + 1))
        } else if c == '\\' {
            Some(('\\', pos + 1))
        } else if c == '/' {
            Some(('/', pos + 1))
        } else if c == 'b' {
            Some((8 as char, pos + 1))
        } else if c == 'f' {
            Some((12 as char, pos + 1))
        } else if c == 'n' {
            Some(('\n', pos + 1))
        } else if c == 'r' {
            Some(('\r', pos + 1))
        } else if c == 't' {
            Some(('\t', pos + 1))
        } else if c == 'u' {
            spec_unicode_escape(s, pos + 1)
        } else {
            None
        }
    }
}

/// The remainder of a string literal whose opening quote has been
/// consumed: the decoded characters and the position past the closing
/// quote. Unescaped control characters are not permitted.
pub open spec fn spec_string_body(s: Seq<char>, pos: int) -> Option<(Seq<char>, int)>
    decreases s.len() - pos,
{
    if !(0 <= pos && pos < s.len()) {
        None
    } else {
        let c = s[pos];
        if c == '"' {
            Some((Seq::empty(), pos + 1))
        } else if c == '\\' {
            match spec_escape(s, pos + 1) {
                None => None,
                Some((e, p)) => {
                    if pos < p && p <= s.len() {
                        match spec_string_body(s, p) {
                            None => None,
                            Some((t, end)) => Some((seq![e] + t, end)),
                        }
                    } else {
                        None
                    }
                },
            }
        } else if (c as u32) < 0x20 {
            None
        } else {
            match spec_string_body(s, pos + 1) {
                None => None,
                Some((t, end)) => Some((seq![c] + t, end)),
            }
        }
    }
}

pub proof fn lemma_string_body_bounds(s: Seq<char>, pos: int)
    ensures
        spec_string_body(s, pos) matches Some((t, end)) ==> pos < end <= s.len(),
    decreases s.len() - pos,
{
    if 0 <= pos && pos < s.len() {
        let c = s[pos];
        if c == '\\' {
            match spec_escape(s, pos + 1) {
                None => {},
                Some((e, p)) => {
                    if pos < p && p <= s.len() {
                        lemma_string_body_bounds(s, p);
                    }
                },
            }
        } else if c != '"' && (c as u32) >= 0x20 {
            lemma_string_body_bounds(s, pos + 1);
        }
    }
}

/// A string literal whose opening quote stands at `pos`.
pub open spec fn spec_string(s: Seq<char>, pos: int) -> Option<(Seq<char>, int)> {
    if 0 <= pos && pos < s.len() && s[pos] == '"' {
        spec_string_body(s, pos + 1)
    } else {
        None
    }
}

pub proof fn lemma_string_bounds(s: Seq<char>, pos: int)
    ensures
        spec_string(s, pos) matches Some((t, end)) ==> pos + 1 < end <= s.len(),
{
    if 0 <= pos && pos < s.len() && s[pos] == '"' {
        lemma_string_body_bounds(s, pos + 1);
    }
}

/// Whether the literal `true` stands at `pos`.
pub open spec fn true_at(s: Seq<char>, pos: int) -> bool {
    &&& 0 <= pos
    &&& pos + 4 <= s.len()
    &&& s[pos] == 't'
    &&& s[pos + 1] == 'r'
    &&& s[pos + 2] == 'u'
    &&& s[pos + 3] == 'e'
}

/// Whether the literal `false` stands at `pos`.
pub open spec fn false_at(s: Seq<char>, pos: int) -> bool {
    &&& 0 <= pos
    &&& pos + 5 <= s.len()
    &&& s[pos] == 'f'
    &&& s[pos + 1] == 'a'
    &&& s[pos + 2] == 'l'
    &&& s[pos + 3] == 's'
    &&& s[pos + 4] == 'e'
}

/// Whether the literal `null` stands at `pos`.
pub open spec fn null_at(s: Seq<char>, pos: int) -> bool {
    &&& 0 <= pos
    &&& pos + 4 <= s.len()
    &&& s[pos] == 'n'
    &&& s[pos + 1] == 'u'
    &&& s[pos + 2] == 'l'
    &&& s[pos + 3] == 'l'
}

/// A JSON value whose first character stands at `pos`, with no leading
/// whitespace.
pub open spec fn spec_value(s: Seq<char>, pos: int) -> Option<(JsonValue, int)>
    decreases s.len() - pos, 1int,
{
    if !(0 <= pos && pos < s.len()) {
        None
    } else {
        let c = s[pos];
        if c == '{' {
            spec_object(s, pos)
        } else if c == '[' {
            spec_array(s, pos)
        } else if c == '"' {
            match spec_string(s, pos) {
                None => None,
                Some((cs, end)) => Some((JsonValue::Str(cs), end)),
            }
        } else if c == 't' {
            if true_at(s, pos) {
                Some((JsonValue::Bool(true), pos + 4))
            } else {
                None
            }
        } else if c == 'f' {
            if false_at(s, pos) {
                Some((JsonValue::Bool(false), pos + 5))
            } else {
                None
            }
        } else if c == 'n' {
            if null_at(s, pos) {
                Some((JsonValue::Null, pos + 4))
            } else {
                None
            }
        } else if c == '-' || is_digit(c) {
            match spec_number(s, pos) {
                None => None,
                Some((n, end)) => Some((JsonValue::Num(n), end)),
            }
        } else {
            None
        }
    }
}

/// A JSON object whose opening brace stands at `pos`.
pub open spec fn spec_object(s: Seq<char>, pos: int) -> Option<(JsonValue, int)>
    decreases s.len() - pos, 0int,
{
    if !(0 <= pos && pos < s.len() && s[pos] == '{') {
        None
    } else {
        let p = skip_ws(s, pos + 1);
        if !(pos < p && p <= s.len()) {
            None
        } else if p < s.len() && s[p] == '}' {
            Some((JsonValue::Obj(Seq::empty()), p + 1))
        } else {
            match spec_members(s, p) {
                None => None,
                Some((ms, end)) => Some((JsonValue::Obj(ms), end)),
            }
        }
    }
}

/// The members of an object from the first key's opening quote to the
/// closing brace: `key : value` pairs separated by commas.
pub open spec fn spec_members(s: Seq<char>, pos: int) -> Option<(Seq<(Seq<char>, JsonValue)>, int)>
    decreases s.len() - pos, 2int,
{
    match spec_string(s, pos) {
        None => None,
        Some((k, p1)) => {
            if !(0 <= p1 && p1 <= s.len()) {
                None
            } else {
                let p2 = skip_ws(s, p1);
                if p2 < s.len() && s[p2] == ':' {
                    let p3 = skip_ws(s, p2 + 1);
                    if pos < p3 && p3 <= s.len() {
                        match spec_value(s, p3) {
                            None => None,
                            Some((v, p4)) => spec_members_after(s, pos, k, v, p4),
                        }
                    } else {
                        None
                    }
                } else {
                    None
                }
            }
        },
    }
}

/// The rest of an object's members once one `key : value` pair has been
/// read up to `p4`: a comma and further members, or the closing brace.
pub open spec fn spec_members_after(
    s: Seq<char>,
    pos: int,
    k: Seq<char>,
    v: JsonValue,
    p4: int,
) -> Option<(Seq<(Seq<char>, JsonValue)>, int)>
    decreases s.len() - pos, 1int,
{
    if !(0 <= p4 && p4 <= s.len()) {
        None
    } else {
        let p5 = skip_ws(s, p4);
        if p5 < s.len() && s[p5] == ',' {
            let p6 = skip_ws(s, p5 + 1);
            if pos < p6 && p6 <= s.len() {
                match spec_members(s, p6) {
                    None => None,
                    Some((ms, end)) => Some((seq![(k, v)] + ms, end)),
                }
            } else {
                None
            }
        } else if p5 < s.len() && s[p5] == '}' {
            Some((seq![(k, v)], p5 + 1))
        } else {
            None
        }
    }
}

/// A JSON array whose opening bracket stands at `pos`.
pub open spec fn spec_array(s: Seq<char>, pos: int) -> Option<(JsonValue, int)>
    decreases s.len() - pos, 0int,
{
    if !(0 <= pos && pos < s.len() && s[pos] == '[') {
        None
    } else {
        let p = skip_ws(s, pos + 1);
        if !(pos < p && p <= s.len()) {
            None
        } else if p < s.len() && s[p] == ']' {
            Some((JsonValue::Arr(Seq::empty()), p + 1))
        } else {
            match spec_elements(s, p) {
                None => None,
                Some((es, end)) => Some((JsonValue::Arr(es), end)),
            }
        }
    }
}

/// The elements of an array from the first element's first character to
/// the closing bracket, separated by commas.
pub open spec fn spec_elements(s: Seq<char>, pos: int) -> Option<(Seq<JsonValue>, int)>
    decreases s.len() - pos, 2int,
{
    match spec_value(s, pos) {
        None => None,
        Some((v, p1)) => {
            if !(0 <= p1 && p1 <= s.len()) {
                None
            } else {
                let p2 = skip_ws(s, p1);
                if p2 < s.len() && s[p2] == ',' {
                    let p3 = skip_ws(s, p2 + 1);
                    if pos < p3 && p3 <= s.len() {
                        match spec_elements(s, p3) {
                            None => None,
                            Some((es, end)) => Some((seq![v] + es, end)),
                        }
                    } else {
                        None
                    }
                } else if p2 < s.len() && s[p2] == ']' {
                    Some((seq![v], p2 + 1))
                } else {
                    None
                }
            }
        },
    }
}

/// Every parsed value ends after it begins and within the input; the
/// lemmas below extend this to the other productions by mutual
/// induction.
pub proof fn lemma_value_bounds(s: Seq<char>, pos: int)
    ensures
        spec_value(s, pos) matches Some((v, end)) ==> pos < end <= s.len(),
    decreases s.len() - pos, 1int,
{
    if 0 <= pos && pos < s.len() {
        let c = s[pos];
        if c == '{' {
            lemma_object_bounds(s, pos);
        } else if c == '[' {
            lemma_array_bounds(s, pos);
        } else if c == '"' {
            lemma_string_bounds(s, pos);
        } else if c == '-' || is_digit(c) {
            lemma_number_bounds(s, pos);
        }
    }
}

pub proof fn lemma_object_bounds(s: Seq<char>, pos: int)
    ensures
        spec_object(s, pos) matches Some((v, end)) ==> pos < end <= s.len(),
    decreases s.len() - pos, 0int,
{
    if 0 <= pos && pos < s.len() && s[pos] == '{' {
        lemma_skip_ws_bounds(s, pos + 1);
        let p = skip_ws(s, pos + 1);
        if pos < p && p <= s.len() && !(p < s.len() && s[p] == '}') {
            lemma_members_bounds(s, p);
        }
    }
}

pub proof fn lemma_members_bounds(s: Seq<char>, pos: int)
    ensures
        spec_members(s, pos) matches Some((ms, end)) ==> pos < end <= s.len(),
    decreases s.len() - pos, 2int,
{
    lemma_string_bounds(s, pos);
    match spec_string(s, pos) {
        None => {},
        Some((k, p1)) => {
            if 0 <= p1 && p1 <= s.len() {
                lemma_skip_ws_bounds(s, p1);
                let p2 = skip_ws(s, p1);
                if p2 < s.len() && s[p2] == ':' {
                    lemma_skip_ws_bounds(s, p2 + 1);
                    let p3 = skip_ws(s, p2 + 1);
                    if pos < p3 && p3 <= s.len() {
                        lemma_value_bounds(s, p3);
                        match spec_value(s, p3) {
                            None => {},
                            Some((v, p4)) => {
                                if 0 <= p4 && p4 <= s.len() {
                                    lemma_skip_ws_bounds(s, p4);
                                    let p5 = skip_ws(s, p4);
                                    if p5 < s.len() && s[p5] == ',' {
                                        lemma_skip_ws_bounds(s, p5 + 1);
                                        let p6 = skip_ws(s, p5 + 1);
                                        if pos < p6 && p6 <= s.len() {
                                            lemma_members_bounds(s, p6);
                                        }
                                    }
                                }
                            },
                        }
                    }
                }
            }
        },
    }
}

pub proof fn lemma_array_bounds(s: Seq<char>, pos: int)
    ensures
        spec_array(s, pos) matches Some((v, end)) ==> pos < end <= s.len(),
    decreases s.len() - pos, 0int,
{
    if 0 <= pos && pos < s.len() && s[pos] == '[' {
        lemma_skip_ws_bounds(s, pos + 1);
        let p = skip_ws(s, pos + 1);
        if pos < p && p <= s.len() && !(p < s.len() && s[p] == ']') {
            lemma_elements_bounds(s, p);
        }
    }
}

pub proof fn lemma_elements_bounds(s: Seq<char>, pos: int)
    ensures
        spec_elements(s, pos) matches Some((es, end)) ==> pos < end <= s.len(),
    decreases s.len() - pos, 2int,
{
    lemma_value_bounds(s, pos);
    match spec_value(s, pos) {
        None => {},
        Some((v, p1)) => {
            if 0 <= p1 && p1 <= s.len() {
                lemma_skip_ws_bounds(s, p1);
                let p2 = skip_ws(s, p1);
                if p2 < s.len() && s[p2] == ',' {
                    lemma_skip_ws_bounds(s, p2 + 1);
                    let p3 = skip_ws(s, p2 + 1);
                    if pos < p3 && p3 <= s.len() {
                        lemma_elements_bounds(s, p3);
                    }
                }
            }
        },
    }
}

} // verus!

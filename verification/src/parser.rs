//! The executable decoder, proved to return exactly what the grammar
//! and the record coercion of this crate describe.
use crate::grammar::{
    digit_val, digits_end, digits_val, hex4_at, hex4_val, hex_val, is_digit, is_hex_digit, is_ws,
    lemma_digits_end_bounds, lemma_digits_val_grows, skip_ws, spec_elements, spec_escape, spec_exp,
    spec_frac, spec_members, spec_members_after, spec_number, spec_string, spec_string_body,
    spec_unicode_escape, spec_value, JsonNum, JsonValue,
};
use crate::record::{
    lemma_cons_first, log_views, rec_members, rec_of, spec_parse, spec_stream, DecodeError,
    ServerLog, ServerLogView,
};
use vstd::prelude::*;
use vstd::string::StrSliceExecFns;

verus! {

/// The characters of a string slice, in order, for access by position.
fn chars_of(input: &str) -> (r: Vec<char>)
    ensures
        r@ == input@,
{
    let n = input.unicode_len();
    let mut v: Vec<char> = Vec::new();
    let mut i: usize = 0;
    while i < n
        invariant
            n == input@.len(),
            i <= n,
            v@ == input@.subrange(0, i as int),
        decreases n - i,
    {
        v.push(input.get_char(i));
        i = i + 1;
        proof {
            assert(v@ =~= input@.subrange(0, i as int));
        }
    }
    proof {
        assert(v@ =~= input@);
    }
    v
}

fn ws_char(c: char) -> (b: bool)
    ensures
        b == is_ws(c),
{
    c == ' ' || c == '\t' || c == '\n' || c == '\r'
}

fn digit_char(c: char) -> (b: bool)
    ensures
        b == is_digit(c),
{
    let u = c as u32;
    48 <= u && u <= 57
}

fn skip_ws_exec(s: &Vec<char>, pos: usize) -> (r: usize)
    requires
        pos <= s@.len(),
    ensures
        r as int == skip_ws(s@, pos as int),
        pos <= r <= s@.len(),
{
    let mut p = pos;
    while p < s.len() && ws_char(s[p])
        invariant
            pos <= p <= s@.len(),
            skip_ws(s@, pos as int) == skip_ws(s@, p as int),
        decreases s@.len() - p,
    {
        p = p + 1;
    }
    p
}

fn digits_end_exec(s: &Vec<char>, pos: usize) -> (r: usize)
    requires
        pos <= s@.len(),
    ensures
        r as int == digits_end(s@, pos as int),
        pos <= r <= s@.len(),
        forall|j: int| pos <= j < r ==> is_digit(#[trigger] s@[j]),
{
    proof {
        lemma_digits_end_bounds(s@, pos as int);
    }
    let mut p = pos;
    while p < s.len() && digit_char(s[p])
        invariant
            pos <= p <= s@.len(),
            digits_end(s@, pos as int) == digits_end(s@, p as int),
            forall|j: int| pos <= j < p ==> is_digit(#[trigger] s@[j]),
        decreases s@.len() - p,
    {
        p = p + 1;
    }
    p
}

/// The value of the run of decimal digits `s[from .. to]`, unless it
/// does not fit in a `u64`.
fn digits_u64(s: &Vec<char>, from: usize, to: usize) -> (r: Option<u64>)
    requires
        from <= to <= s@.len(),
        forall|j: int| from <= j < to ==> is_digit(#[trigger] s@[j]),
    ensures
        digits_val(s@, from as int, to as int) <= u64::MAX ==> (r matches Some(v) && v as int
            == digits_val(s@, from as int, to as int)),
        digits_val(s@, from as int, to as int) > u64::MAX ==> r is None,
{
    proof {
        assert forall|j: int| from <= j < to implies 0 <= #[trigger] digit_val(s@[j]) by {
            assert(is_digit(s@[j]));
        }
    }
    let mut acc: u64 = 0;
    let mut i = from;
    while i < to
        invariant
            from <= i <= to <= s@.len(),
            forall|j: int| from <= j < to ==> is_digit(#[trigger] s@[j]),
            forall|j: int| from <= j < to ==> 0 <= #[trigger] digit_val(s@[j]),
            acc as int == digits_val(s@, from as int, i as int),
        decreases to - i,
    {
        let d = (s[i] as u32 - 48) as u64;
        proof {
            assert(is_digit(s@[i as int]));
            assert(d as int == digit_val(s@[i as int]));
        }
        let next = match acc.checked_mul(10) {
            None => None,
            Some(m) => m.checked_add(d),
        };
        match next {
            None => {
                proof {
                    assert(digits_val(s@, from as int, i + 1) > u64::MAX);
                    lemma_digits_val_grows(s@, from as int, i + 1, to as int);
                }
                return None;
            },
            Some(x) => {
                acc = x;
                i = i + 1;
            },
        }
    }
    Some(acc)
}

/// The end of a number's fraction part starting at `pos`, as
/// [`spec_frac`] gives it.
fn frac_exec(s: &Vec<char>, pos: usize) -> (r: Option<usize>)
    requires
        pos <= s@.len(),
    ensures
        match spec_frac(s@, pos as int) {
            None => r is None,
            Some(e) => r matches Some(x) && x as int == e && pos <= x <= s@.len(),
        },
{
    if pos < s.len() && s[pos] == '.' {
        if pos + 1 < s.len() && digit_char(s[pos + 1]) {
            Some(digits_end_exec(s, pos + 1))
        } else {
            None
        }
    } else {
        Some(pos)
    }
}

/// The end of a number's exponent part starting at `pos`, as
/// [`spec_exp`] gives it.
fn exp_exec(s: &Vec<char>, pos: usize) -> (r: Option<usize>)
    requires
        pos <= s@.len(),
    ensures
        match spec_exp(s@, pos as int) {
            None => r is None,
            Some(e) => r matches Some(x) && x as int == e && pos <= x <= s@.len(),
        },
{
    if pos < s.len() && (s[pos] == 'e' || s[pos] == 'E') {
        let q = if pos + 1 < s.len() && (s[pos + 1] == '+' || s[pos + 1] == '-') {
            pos + 2
        } else {
            pos + 1
        };
        if q < s.len() && digit_char(s[q]) {
            Some(digits_end_exec(s, q))
        } else {
            None
        }
    } else {
        Some(pos)
    }
}

/// One JSON number starting at `pos`, as [`spec_number`] gives it.
fn parse_number(s: &Vec<char>, pos: usize) -> (r: Option<(JsonNum, usize)>)
    requires
        pos <= s@.len(),
    ensures
        match spec_number(s@, pos as int) {
            None => r is None,
            Some((n, end)) => r matches Some(x) && x.0 == n && x.1 as int == end && pos < x.1
                <= s@.len(),
        },
{
    let neg = pos < s.len() && s[pos] == '-';
    let ip = if neg {
        pos + 1
    } else {
        pos
    };
    if !(ip < s.len() && digit_char(s[ip])) {
        return None;
    }
    let ip_end = if s[ip] == '0' {
        ip + 1
    } else {
        digits_end_exec(s, ip)
    };
    proof {
        lemma_digits_end_bounds(s@, ip as int);
    }
    let f_end = match frac_exec(s, ip_end) {
        None => {
            return None;
        },
        Some(x) => x,
    };
    let e_end = match exp_exec(s, f_end) {
        None => {
            return None;
        },
        Some(x) => x,
    };
    if !neg && f_end == ip_end && e_end == f_end {
        match digits_u64(s, ip, ip_end) {
            Some(v) => Some((JsonNum::UInt(v), e_end)),
            None => Some((JsonNum::Other, e_end)),
        }
    } else {
        Some((JsonNum::Other, e_end))
    }
}

/// Relies on char::from_u32: for a code point outside the surrogate
/// range and at most 0x10FFFF it returns the character with exactly
/// that scalar value.
#[verifier::external_body]
fn char_from_code(c: u32) -> (r: char)
    requires
        c < 0xD800 || (0xE000 <= c && c <= 0x10FFFF),
    ensures
        r as u32 == c,
{
    char::from_u32(c).unwrap()
}

/// Relies on String::push: it appends exactly the given character.
#[verifier::external_body]
fn push_char(s: &mut String, c: char)
    ensures
        final(s)@ == old(s)@.push(c),
{
    s.push(c);
}

fn hex_char(c: char) -> (b: bool)
    ensures
        b == is_hex_digit(c),
{
    let u = c as u32;
    (48 <= u && u <= 57) || (97 <= u && u <= 102) || (65 <= u && u <= 70)
}

fn hex_val_exec(c: char) -> (v: u32)
    requires
        is_hex_digit(c),
    ensures
        v as int == hex_val(c),
        v < 16,
{
    let u = c as u32;
    if u <= 57 {
        u - 48
    } else if u >= 97 {
        u - 97 + 10
    } else {
        u - 65 + 10
    }
}

/// The value of the four hexadecimal digits at `pos`, if four stand
/// there.
fn hex4_exec(s: &Vec<char>, pos: usize) -> (r: Option<u32>)
    requires
        pos <= s@.len(),
    ensures
        hex4_at(s@, pos as int) ==> (r matches Some(v) && v as int == hex4_val(s@, pos as int) && v
            < 0x10000),
        !hex4_at(s@, pos as int) ==> r is None,
{
    if s.len() - pos >= 4 && hex_char(s[pos]) && hex_char(s[pos + 1]) && hex_char(s[pos + 2])
        && hex_char(s[pos + 3]) {
        let v = ((hex_val_exec(s[pos]) * 16 + hex_val_exec(s[pos + 1])) * 16 + hex_val_exec(
            s[pos + 2],
        )) * 16 + hex_val_exec(s[pos + 3]);
        Some(v)
    } else {
        None
    }
}

/// One `\u` escape whose digits start at `pos`, as
/// [`spec_unicode_escape`] gives it.
fn unicode_escape_exec(s: &Vec<char>, pos: usize) -> (r: Option<(char, usize)>)
    requires
        pos <= s@.len(),
    ensures
        match spec_unicode_escape(s@, pos as int) {
            None => r is None,
            Some((c, end)) => r matches Some(x) && x.0 == c && x.1 as int == end && pos < x.1
                <= s@.len(),
        },
{
    let h = match hex4_exec(s, pos) {
        None => {
            return None;
        },
        Some(h) => h,
    };
    proof {
        assert(hex4_at(s@, pos as int));
        assert(s@.len() == s.len());
    }
    if h < 0xD800 || h > 0xDFFF {
        let c = char_from_code(h);
        proof {
            vstd::utf8::char_u32_cast(c, h);
        }
        Some((c, pos + 4))
    } else if h <= 0xDBFF {
        if s.len() - pos >= 10 && s[pos + 4] == '\\' && s[pos + 5] == 'u' {
            let l = match hex4_exec(s, pos + 6) {
                None => {
                    return None;
                },
                Some(l) => l,
            };
            if 0xDC00 <= l && l <= 0xDFFF {
                let code = 0x10000 + (h - 0xD800) * 0x400 + (l - 0xDC00);
                let c = char_from_code(code);
                proof {
                    vstd::utf8::char_u32_cast(c, code);
                }
                Some((c, pos + 10))
            } else {
                None
            }
        } else {
            None
        }
    } else {
        None
    }
}

/// One string escape whose introducing character stands at `pos`, as
/// [`spec_escape`] gives it.
fn parse_escape(s: &Vec<char>, pos: usize) -> (r: Option<(char, usize)>)
    requires
        pos <= s@.len(),
    ensures
        match spec_escape(s@, pos as int) {
            None => r is None,
            Some((c, end)) => r matches Some(x) && x.0 == c && x.1 as int == end && pos < x.1
                <= s@.len(),
        },
{
    if pos >= s.len() {
        return None;
    }
    let c = s[pos];
    if c == '"' {
        Some(('"', pos + 1))
    } else if c == '\\' {
        Some(('\\', pos + 1))
    } else if c == '/' {
        Some(('/', pos + 1))
    } else if c == 'b' {
        let b = char_from_code(8);
        proof {
            vstd::utf8::char_u32_cast(b, 8);
        }
        Some((b, pos + 1))
    } else if c == 'f' {
        let f = char_from_code(12);
        proof {
            vstd::utf8::char_u32_cast(f, 12);
        }
        Some((f, pos + 1))
    } else if c == 'n' {
        Some(('\n', pos + 1))
    } else if c == 'r' {
        Some(('\r', pos + 1))
    } else if c == 't' {
        Some(('\t', pos + 1))
    } else if c == 'u' {
        unicode_escape_exec(s, pos + 1)
    } else {
        None
    }
}

/// One string literal whose opening quote stands at `pos`, decoded, as
/// [`spec_string`] gives it.
fn parse_string(s: &Vec<char>, pos: usize) -> (r: Option<(String, usize)>)
    requires
        pos <= s@.len(),
    ensures
        match spec_string(s@, pos as int) {
            None => r is None,
            Some((cs, end)) => r matches Some(x) && x.0@ == cs && x.1 as int == end && pos < x.1
                <= s@.len(),
        },
{
    if !(pos < s.len() && s[pos] == '"') {
        return None;
    }
    let mut out = String::new();
    let mut p = pos + 1;
    proof {
        match spec_string_body(s@, p as int) {
            None => {},
            Some((t, e)) => {
                assert(out@ + t =~= t);
            },
        }
    }
    loop
        invariant
            pos < s@.len(),
            s@[pos as int] == '"',
            pos + 1 <= p <= s@.len(),
            match spec_string_body(s@, p as int) {
                None => spec_string_body(s@, pos + 1) is None,
                Some((t, e)) => spec_string_body(s@, pos + 1) == Some((out@ + t, e)),
            },
        decreases s@.len() - p,
    {
        if p >= s.len() {
            return None;
        }
        let c = s[p];
        if c == '"' {
            proof {
                assert(out@ + Seq::<char>::empty() =~= out@);
            }
            return Some((out, p + 1));
        } else if c == '\\' {
            match parse_escape(s, p + 1) {
                None => {
                    return None;
                },
                Some((e, p2)) => {
                    proof {
                        match spec_string_body(s@, p2 as int) {
                            None => {},
                            Some((t, end)) => {
                                assert(out@.push(e) + t =~= out@ + (seq![e] + t));
                            },
                        }
                    }
                    push_char(&mut out, e);
                    p = p2;
                },
            }
        } else if (c as u32) < 0x20 {
            return None;
        } else {
            proof {
                match spec_string_body(s@, p + 1) {
                    None => {},
                    Some((t, end)) => {
                        assert(out@.push(c) + t =~= out@ + (seq![c] + t));
                    },
                }
            }
            push_char(&mut out, c);
            p = p + 1;
        }
    }
}

/// The position past one JSON value starting at `pos`, as
/// [`spec_value`] gives it, without keeping the value.
fn skip_value(s: &Vec<char>, pos: usize) -> (r: Option<usize>)
    requires
        pos <= s@.len(),
    ensures
        match spec_value(s@, pos as int) {
            None => r is None,
            Some((v, end)) => r matches Some(e) && e as int == end && pos < e <= s@.len(),
        },
    decreases s@.len() - pos, 1int,
{
    if pos >= s.len() {
        return None;
    }
    let c = s[pos];
    if c == '{' {
        let p = skip_ws_exec(s, pos + 1);
        if p < s.len() && s[p] == '}' {
            Some(p + 1)
        } else {
            skip_members(s, p)
        }
    } else if c == '[' {
        let p = skip_ws_exec(s, pos + 1);
        if p < s.len() && s[p] == ']' {
            Some(p + 1)
        } else {
            skip_elements(s, p)
        }
    } else if c == '"' {
        match parse_string(s, pos) {
            None => None,
            Some(x) => Some(x.1),
        }
    } else if c == 't' {
        if s.len() - pos >= 4 && s[pos + 1] == 'r' && s[pos + 2] == 'u' && s[pos + 3] == 'e' {
            Some(pos + 4)
        } else {
            None
        }
    } else if c == 'f' {
        if s.len() - pos >= 5 && s[pos + 1] == 'a' && s[pos + 2] == 'l' && s[pos + 3] == 's' && s[
            pos + 4] == 'e' {
            Some(pos + 5)
        } else {
            None
        }
    } else if c == 'n' {
        if s.len() - pos >= 4 && s[pos + 1] == 'u' && s[pos + 2] == 'l' && s[pos + 3] == 'l' {
            Some(pos + 4)
        } else {
            None
        }
    } else if c == '-' || digit_char(c) {
        match parse_number(s, pos) {
            None => None,
            Some(x) => Some(x.1),
        }
    } else {
        None
    }
}

/// The position past an object's members starting at `pos`, as
/// [`spec_members`] gives it, without keeping the members.
fn skip_members(s: &Vec<char>, pos: usize) -> (r: Option<usize>)
    requires
        pos <= s@.len(),
    ensures
        match spec_members(s@, pos as int) {
            None => r is None,
            Some((ms, end)) => r matches Some(e) && e as int == end && pos < e <= s@.len(),
        },
    decreases s@.len() - pos, 2int,
{
    let p1 = match parse_string(s, pos) {
        None => {
            return None;
        },
        Some(x) => x.1,
    };
    let p2 = skip_ws_exec(s, p1);
    if !(p2 < s.len() && s[p2] == ':') {
        return None;
    }
    let p3 = skip_ws_exec(s, p2 + 1);
    let p4 = match skip_value(s, p3) {
        None => {
            return None;
        },
        Some(x) => x,
    };
    let p5 = skip_ws_exec(s, p4);
    if p5 < s.len() && s[p5] == ',' {
        let p6 = skip_ws_exec(s, p5 + 1);
        skip_members(s, p6)
    } else if p5 < s.len() && s[p5] == '}' {
        Some(p5 + 1)
    } else {
        None
    }
}

/// The position past an array's elements starting at `pos`, as
/// [`spec_elements`] gives it, without keeping the elements.
fn skip_elements(s: &Vec<char>, pos: usize) -> (r: Option<usize>)
    requires
        pos <= s@.len(),
    ensures
        match spec_elements(s@, pos as int) {
            None => r is None,
            Some((es, end)) => r matches Some(e) && e as int == end && pos < e <= s@.len(),
        },
    decreases s@.len() - pos, 2int,
{
    let p1 = match skip_value(s, pos) {
        None => {
            return None;
        },
        Some(x) => x,
    };
    let p2 = skip_ws_exec(s, p1);
    if p2 < s.len() && s[p2] == ',' {
        let p3 = skip_ws_exec(s, p2 + 1);
        skip_elements(s, p3)
    } else if p2 < s.len() && s[p2] == ']' {
        Some(p2 + 1)
    } else {
        None
    }
}

/// The view of an optional owned string.
pub open spec fn name_view(name: Option<String>) -> Option<Seq<char>> {
    match name {
        None => None,
        Some(n) => Some(n@),
    }
}

/// Whether the key holds exactly the given characters.
fn is_key(k: &String, lit: &str) -> (b: bool)
    ensures
        b == (k@ == lit@),
{
    let l = lit.to_owned();
    *k == l
}

/// Finishes one object member whose value ended at `p4`: a comma and
/// the remaining members, or the closing brace. `good` says whether the
/// members seen so far can still yield a record, and `uid2` and `name2`
/// carry the record fields collected so far; the ghost arguments name
/// the member just read and the accumulators this member started from.
fn members_tail(
    s: &Vec<char>,
    p4: usize,
    good: bool,
    uid2: Option<u32>,
    name2: Option<String>,
    Ghost(gpos): Ghost<int>,
    Ghost(gk): Ghost<Seq<char>>,
    Ghost(gv): Ghost<JsonValue>,
    Ghost(guid): Ghost<Option<u32>>,
    Ghost(gname): Ghost<Option<Seq<char>>>,
) -> (r: Result<(u32, String, usize), DecodeError>)
    requires
        0 <= gpos < p4 <= s@.len(),
        spec_members(s@, gpos) == spec_members_after(s@, gpos, gk, gv, p4 as int),
        forall|ms: Seq<(Seq<char>, JsonValue)>|
            #[trigger] rec_members(seq![(gk, gv)] + ms, guid, gname) == (if good {
                rec_members(ms, uid2, name_view(name2))
            } else {
                Option::<ServerLogView>::None
            }),
    ensures
        match spec_members(s@, gpos) {
            None => r == Err::<(u32, String, usize), DecodeError>(DecodeError::Syntax),
            Some((ms, end)) => match rec_members(ms, guid, gname) {
                None => r == Err::<(u32, String, usize), DecodeError>(DecodeError::Schema),
                Some(rec) => r matches Ok(x) && x.0 == rec.user_id && x.1@ == rec.username && x.2
                    as int == end && gpos < x.2 <= s@.len(),
            },
        },
    decreases s@.len() - p4, 1int,
{
    let p5 = skip_ws_exec(s, p4);
    if p5 < s.len() && s[p5] == ',' {
        let p6 = skip_ws_exec(s, p5 + 1);
        if good {
            let res = parse_members_rec(s, p6, uid2, name2);
            proof {
                match spec_members(s@, p6 as int) {
                    None => {},
                    Some((ms2, end2)) => {
                        assert(rec_members(seq![(gk, gv)] + ms2, guid, gname) == rec_members(
                            ms2,
                            uid2,
                            name_view(name2),
                        ));
                    },
                }
            }
            res
        } else {
            match skip_members(s, p6) {
                None => Err(DecodeError::Syntax),
                Some(_) => {
                    proof {
                        match spec_members(s@, p6 as int) {
                            None => {},
                            Some((ms2, end2)) => {
                                assert(rec_members(seq![(gk, gv)] + ms2, guid, gname)
                                    == Option::<ServerLogView>::None);
                            },
                        }
                    }
                    Err(DecodeError::Schema)
                },
            }
        }
    } else if p5 < s.len() && s[p5] == '}' {
        proof {
            assert(seq![(gk, gv)] + Seq::<(Seq<char>, JsonValue)>::empty() =~= seq![(gk, gv)]);
            assert(rec_members(seq![(gk, gv)], guid, gname) == (if good {
                rec_members(Seq::empty(), uid2, name_view(name2))
            } else {
                Option::<ServerLogView>::None
            }));
        }
        if good {
            match uid2 {
                Some(u) => match name2 {
                    Some(n) => Ok((u, n, p5 + 1)),
                    None => Err(DecodeError::Schema),
                },
                None => Err(DecodeError::Schema),
            }
        } else {
            Err(DecodeError::Schema)
        }
    } else {
        Err(DecodeError::Syntax)
    }
}

/// The members of the record object from `pos` on, folding the two
/// record fields into the accumulators as [`rec_members`] describes.
fn parse_members_rec(s: &Vec<char>, pos: usize, uid: Option<u32>, name: Option<String>) -> (r:
    Result<(u32, String, usize), DecodeError>)
    requires
        pos <= s@.len(),
    ensures
        match spec_members(s@, pos as int) {
            None => r == Err::<(u32, String, usize), DecodeError>(DecodeError::Syntax),
            Some((ms, end)) => match rec_members(ms, uid, name_view(name)) {
                None => r == Err::<(u32, String, usize), DecodeError>(DecodeError::Schema),
                Some(rec) => r matches Ok(x) && x.0 == rec.user_id && x.1@ == rec.username && x.2
                    as int == end && pos < x.2 <= s@.len(),
            },
        },
    decreases s@.len() - pos, 0int,
{
    let ghost gname0 = name_view(name);
    let kp = match parse_string(s, pos) {
        None => {
            return Err(DecodeError::Syntax);
        },
        Some(x) => x,
    };
    let k = kp.0;
    let p1 = kp.1;
    let p2 = skip_ws_exec(s, p1);
    if !(p2 < s.len() && s[p2] == ':') {
        return Err(DecodeError::Syntax);
    }
    let p3 = skip_ws_exec(s, p2 + 1);
    let user_key = is_key(&k, "user_id");
    let name_key = !user_key && is_key(&k, "username");
    if user_key && uid.is_none() {
        if p3 < s.len() && (s[p3] == '-' || digit_char(s[p3])) {
            match parse_number(s, p3) {
                None => Err(DecodeError::Syntax),
                Some((num, p4)) => {
                    let ghost gv = JsonValue::Num(num);
                    let fits = match num {
                        JsonNum::UInt(u) => u <= 0xFFFF_FFFFu64,
                        JsonNum::Other => false,
                    };
                    if fits {
                        let u = match num {
                            JsonNum::UInt(u) => u,
                            JsonNum::Other => 0,
                        };
                        let uid2 = Some(u as u32);
                        proof {
                            assert forall|ms: Seq<(Seq<char>, JsonValue)>|
                                #[trigger] rec_members(seq![(k@, gv)] + ms, uid, gname0) == (
                                rec_members(ms, uid2, name_view(name))) by {
                                lemma_cons_first((k@, gv), ms);
                            }
                        }
                        members_tail(
                            s,
                            p4,
                            true,
                            uid2,
                            name,
                            Ghost(pos as int),
                            Ghost(k@),
                            Ghost(gv),
                            Ghost(uid),
                            Ghost(gname0),
                        )
                    } else {
                        proof {
                            assert forall|ms: Seq<(Seq<char>, JsonValue)>|
                                #[trigger] rec_members(seq![(k@, gv)] + ms, uid, gname0)
                                == Option::<ServerLogView>::None by {
                                lemma_cons_first((k@, gv), ms);
                            }
                        }
                        members_tail(
                            s,
                            p4,
                            false,
                            None,
                            None,
                            Ghost(pos as int),
                            Ghost(k@),
                            Ghost(gv),
                            Ghost(uid),
                            Ghost(gname0),
                        )
                    }
                },
            }
        } else {
            match skip_value(s, p3) {
                None => Err(DecodeError::Syntax),
                Some(p4) => {
                    let ghost gv = (spec_value(s@, p3 as int)->Some_0).0;
                    proof {
                        assert forall|ms: Seq<(Seq<char>, JsonValue)>|
                            #[trigger] rec_members(seq![(k@, gv)] + ms, uid, gname0)
                            == Option::<ServerLogView>::None by {
                            lemma_cons_first((k@, gv), ms);
                        }
                    }
                    members_tail(
                        s,
                        p4,
                        false,
                        None,
                        None,
                        Ghost(pos as int),
                        Ghost(k@),
                        Ghost(gv),
                        Ghost(uid),
                        Ghost(gname0),
                    )
                },
            }
        }
    } else if name_key && name.is_none() {
        if p3 < s.len() && s[p3] == '"' {
            match parse_string(s, p3) {
                None => Err(DecodeError::Syntax),
                Some(sv) => {
                    let st = sv.0;
                    let p4 = sv.1;
                    let ghost gv = JsonValue::Str(st@);
                    let name2 = Some(st);
                    proof {
                        assert forall|ms: Seq<(Seq<char>, JsonValue)>|
                            #[trigger] rec_members(seq![(k@, gv)] + ms, uid, gname0) == (
                            rec_members(ms, uid, name_view(name2))) by {
                            lemma_cons_first((k@, gv), ms);
                        }
                    }
                    members_tail(
                        s,
                        p4,
                        true,
                        uid,
                        name2,
                        Ghost(pos as int),
                        Ghost(k@),
                        Ghost(gv),
                        Ghost(uid),
                        Ghost(gname0),
                    )
                },
            }
        } else {
            match skip_value(s, p3) {
                None => Err(DecodeError::Syntax),
                Some(p4) => {
                    let ghost gv = (spec_value(s@, p3 as int)->Some_0).0;
                    proof {
                        assert forall|ms: Seq<(Seq<char>, JsonValue)>|
                            #[trigger] rec_members(seq![(k@, gv)] + ms, uid, gname0)
                            == Option::<ServerLogView>::None by {
                            lemma_cons_first((k@, gv), ms);
                        }
                    }
                    members_tail(
                        s,
                        p4,
                        false,
                        None,
                        None,
                        Ghost(pos as int),
                        Ghost(k@),
                        Ghost(gv),
                        Ghost(uid),
                        Ghost(gname0),
                    )
                },
            }
        }
    } else if user_key || name_key {
        match skip_value(s, p3) {
            None => Err(DecodeError::Syntax),
            Some(p4) => {
                let ghost gv = (spec_value(s@, p3 as int)->Some_0).0;
                proof {
                    assert forall|ms: Seq<(Seq<char>, JsonValue)>|
                        #[trigger] rec_members(seq![(k@, gv)] + ms, uid, gname0)
                        == Option::<ServerLogView>::None by {
                        lemma_cons_first((k@, gv), ms);
                    }
                }
                members_tail(
                    s,
                    p4,
                    false,
                    None,
                    None,
                    Ghost(pos as int),
                    Ghost(k@),
                    Ghost(gv),
                    Ghost(uid),
                    Ghost(gname0),
                )
            },
        }
    } else {
        match skip_value(s, p3) {
            None => Err(DecodeError::Syntax),
            Some(p4) => {
                let ghost gv = (spec_value(s@, p3 as int)->Some_0).0;
                proof {
                    assert forall|ms: Seq<(Seq<char>, JsonValue)>|
                        #[trigger] rec_members(seq![(k@, gv)] + ms, uid, gname0) == (rec_members(
                        ms,
                        uid,
                        name_view(name),
                    )) by {
                        lemma_cons_first((k@, gv), ms);
                    }
                }
                members_tail(
                    s,
                    p4,
                    true,
                    uid,
                    name,
                    Ghost(pos as int),
                    Ghost(k@),
                    Ghost(gv),
                    Ghost(uid),
                    Ghost(gname0),
                )
            },
        }
    }
}

/// One top-level JSON value coerced into a record, as the composition
/// of [`spec_value`] and [`rec_of`] gives it.
fn parse_record_value(s: &Vec<char>, pos: usize) -> (r: Result<(ServerLog, usize), DecodeError>)
    requires
        pos < s@.len(),
    ensures
        match spec_value(s@, pos as int) {
            None => r == Err::<(ServerLog, usize), DecodeError>(DecodeError::Syntax),
            Some((v, end)) => match rec_of(v) {
                None => r == Err::<(ServerLog, usize), DecodeError>(DecodeError::Schema),
                Some(rec) => r matches Ok(x) && x.0@ == rec && x.1 as int == end && pos < x.1
                    <= s@.len(),
            },
        },
{
    proof {
        assert(s@.len() == s.len());
    }
    let c = s[pos];
    if c == '{' {
        let p = skip_ws_exec(s, pos + 1);
        if p < s.len() && s[p] == '}' {
            return Err(DecodeError::Schema);
        }
        match parse_members_rec(s, p, None, None) {
            Err(e) => Err(e),
            Ok((u, n, end)) => Ok((ServerLog { user_id: u, username: n }, end)),
        }
    } else {
        match skip_value(s, pos) {
            None => Err(DecodeError::Syntax),
            Some(_) => Err(DecodeError::Schema),
        }
    }
}

/// The whole remaining stream from `pos` on, as [`spec_stream`] gives
/// it: the records of every value behind the cursor, in stream order,
/// or the first failure.
fn parse_stream(s: &Vec<char>, pos: usize) -> (r: Result<Vec<ServerLog>, DecodeError>)
    requires
        pos <= s@.len(),
    ensures
        match spec_stream(s@, pos as int) {
            Ok(rs) => r matches Ok(logs) && log_views(logs@) == rs,
            Err(e) => r == Err::<Vec<ServerLog>, DecodeError>(e),
        },
    decreases s@.len() - pos,
{
    let p = skip_ws_exec(s, pos);
    if p == s.len() {
        let out: Vec<ServerLog> = Vec::new();
        proof {
            assert(log_views(out@) =~= Seq::<ServerLogView>::empty());
        }
        return Ok(out);
    }
    match parse_record_value(s, p) {
        Err(e) => Err(e),
        Ok((rec, end)) => match parse_stream(s, end) {
            Err(e) => Err(e),
            Ok(rest) => {
                let ghost prev = rest@;
                let mut out = rest;
                out.insert(0, rec);
                proof {
                    assert(log_views(out@) =~= seq![rec@] + log_views(prev));
                }
                Ok(out)
            },
        },
    }
}

/// Decodes a stream of whitespace-separated JSON objects into records.
///
/// On success the records stand in the order their objects appear in
/// the input, and an input holding only whitespace (or nothing) yields
/// an empty sequence. On the first value that is not well-formed JSON,
/// or that does not hold a `user_id` fitting in an unsigned 32-bit
/// integer together with a string `username`, the whole decoding fails
/// with that failure, and no records are returned.
pub fn parse(input: &str) -> (r: Result<Vec<ServerLog>, DecodeError>)
    ensures
        match spec_parse(input@) {
            Ok(rs) => r matches Ok(logs) && log_views(logs@) == rs,
            Err(e) => r == Err::<Vec<ServerLog>, DecodeError>(e),
        },
{
    let cs = chars_of(input);
    parse_stream(&cs, 0)
}

} // verus!

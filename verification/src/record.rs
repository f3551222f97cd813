//! The log record, the decode error, and the meaning of a whole input
//! stream: a specification-level composition of the JSON grammar with
//! the coercion of one JSON value into one record.
use crate::grammar::{is_ws, skip_ws, spec_value, JsonNum, JsonValue};
use vstd::prelude::*;

verus! {

/// One decoded log record.
#[derive(Debug, PartialEq, Eq)]
pub struct ServerLog {
    pub user_id: u32,
    pub username: String,
}

/// The mathematical shape of a [`ServerLog`].
pub struct ServerLogView {
    pub user_id: u32,
    pub username: Seq<char>,
}

impl View for ServerLog {
    type V = ServerLogView;

    open spec fn view(&self) -> ServerLogView {
        ServerLogView { user_id: self.user_id, username: self.username@ }
    }
}

/// Why decoding stopped: the input is not well-formed JSON at the
/// cursor, or a well-formed value does not have the record's shape.
#[derive(Debug, PartialEq, Eq, Clone, Copy, Structural)]
pub enum DecodeError {
    Syntax,
    Schema,
}

impl DecodeError {
    /// A short description of the failure, suitable for logging.
    pub fn describe(&self) -> (m: &'static str)
        ensures
            self is Syntax ==> m@ == "input is not well-formed JSON"@,
            self is Schema ==> m@ == "JSON value does not have the log record shape"@,
    {
        match self {
            DecodeError::Syntax => "input is not well-formed JSON",
            DecodeError::Schema => "JSON value does not have the log record shape",
        }
    }
}

/// Walks an object's members in order, filling the two record fields.
/// A `user_id` member must be an unsigned integer literal that fits in
/// a `u32`, a `username` member must be a string, a repeated record
/// field is refused, and every other member is ignored. Both fields
/// must be present once the members are exhausted.
pub open spec fn rec_members(
    ms: Seq<(Seq<char>, JsonValue)>,
    uid: Option<u32>,
    name: Option<Seq<char>>,
) -> Option<ServerLogView>
    decreases ms.len(),
{
    if ms.len() == 0 {
        match uid {
            None => None,
            Some(u) => match name {
                None => None,
                Some(n) => Some(ServerLogView { user_id: u, username: n }),
            },
        }
    } else {
        let (k, v) = ms[0];
        if k == "user_id"@ {
            if uid is Some {
                None
            } else {
                match v {
                    JsonValue::Num(n) => match n {
                        JsonNum::UInt(u) => if u <= u32::MAX {
                            rec_members(ms.drop_first(), Some(u as u32), name)
                        } else {
                            None
                        },
                        JsonNum::Other => None,
                    },
                    _ => None,
                }
            }
        } else if k == "username"@ {
            if name is Some {
                None
            } else {
                match v {
                    JsonValue::Str(cs) => rec_members(ms.drop_first(), uid, Some(cs)),
                    _ => None,
                }
            }
        } else {
            rec_members(ms.drop_first(), uid, name)
        }
    }
}

/// A member sequence that starts with `kv` has `kv` first and the rest
/// behind it.
pub proof fn lemma_cons_first<A>(x: A, s: Seq<A>)
    ensures
        (seq![x] + s)[0] == x,
        (seq![x] + s).drop_first() == s,
        (seq![x] + s).len() == s.len() + 1,
{
    assert((seq![x] + s).drop_first() =~= s);
}

/// The record held by one JSON value, if it is an object of the right
/// shape.
pub open spec fn rec_of(v: JsonValue) -> Option<ServerLogView> {
    match v {
        JsonValue::Obj(ms) => rec_members(ms, None, None),
        _ => None,
    }
}

/// The decoding of the input from `pos` on: skip whitespace, stop at
/// the end of the input, otherwise read one JSON value, coerce it into
/// a record, and go on behind it. The first failure ends the whole
/// decoding, and a failed decoding keeps no records.
pub open spec fn spec_stream(s: Seq<char>, pos: int) -> Result<Seq<ServerLogView>, DecodeError>
    decreases s.len() - pos,
{
    if !(0 <= pos && pos <= s.len()) {
        Err(DecodeError::Syntax)
    } else {
        let p = skip_ws(s, pos);
        if !(pos <= p && p <= s.len()) {
            Err(DecodeError::Syntax)
        } else if p == s.len() {
            Ok(Seq::empty())
        } else {
            match spec_value(s, p) {
                None => Err(DecodeError::Syntax),
                Some((v, end)) => match rec_of(v) {
                    None => Err(DecodeError::Schema),
                    Some(rec) => {
                        if p < end && end <= s.len() {
                            match spec_stream(s, end) {
                                Err(e) => Err(e),
                                Ok(rest) => Ok(seq![rec] + rest),
                            }
                        } else {
                            Err(DecodeError::Syntax)
                        }
                    },
                },
            }
        }
    }
}

/// What `parse` returns on an input with this view.
pub open spec fn spec_parse(s: Seq<char>) -> Result<Seq<ServerLogView>, DecodeError> {
    spec_stream(s, 0)
}

/// The views of a sequence of records.
pub open spec fn log_views(logs: Seq<ServerLog>) -> Seq<ServerLogView> {
    logs.map_values(|log: ServerLog| log@)
}

/// An input that holds nothing but whitespace, in particular an empty
/// input, decodes to the empty sequence of records, not to an error.
pub proof fn lemma_parse_whitespace_only(s: Seq<char>)
    requires
        forall|i: int| 0 <= i < s.len() ==> is_ws(#[trigger] s[i]),
    ensures
        spec_parse(s) == Ok::<Seq<ServerLogView>, DecodeError>(Seq::empty()),
{
    lemma_skip_ws_all(s, 0);
}

proof fn lemma_skip_ws_all(s: Seq<char>, pos: int)
    requires
        0 <= pos <= s.len(),
        forall|i: int| 0 <= i < s.len() ==> is_ws(#[trigger] s[i]),
    ensures
        skip_ws(s, pos) == s.len(),
    decreases s.len() - pos,
{
    if pos < s.len() {
        lemma_skip_ws_all(s, pos + 1);
    }
}

/// Decoding is a function of the input text alone: two streams that
/// hold identical characters decode to identical results, record for
/// record. Together with the contract of `parse`, which pins its
/// result to `spec_parse` of its input, this rules out any hidden
/// state influencing a decoding.
pub proof fn lemma_parse_deterministic(s1: Seq<char>, s2: Seq<char>)
    requires
        s1 == s2,
    ensures
        spec_parse(s1) == spec_parse(s2),
{
}

} // verus!

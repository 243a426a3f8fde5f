//! Frame shapes of the wire protocol.
//!
//! Frames travel as newline-delimited, self-describing text lines. The two
//! frames the ring core uses, `StartFlag` and `HotPotato`, each carry one
//! boolean whose value is not semantically significant: only the arrival of a
//! well-formed frame matters. `Request` and `Response` are reserved shapes
//! for future compute-on-circulation extensions; the ring core never sends
//! them.

use crate::error::DecodeError;
use vstd::prelude::*;
use vstd::string::*;

verus! {

/// The wire text of a one-boolean frame: the bare JSON boolean.
pub open spec fn bool_json(b: bool) -> Seq<char> {
    if b {
        "true"@
    } else {
        "false"@
    }
}

/// What a line yields when decoded as a one-boolean frame: exactly the two
/// JSON booleans are accepted; everything else is malformed.
pub open spec fn parse_bool_json(s: Seq<char>) -> Option<bool> {
    if s == "true"@ {
        Some(true)
    } else if s == "false"@ {
        Some(false)
    } else {
        None
    }
}

/// Law: decoding an encoded one-boolean frame yields the original payload.
/// Both `StartFlag` and `HotPotato` travel as the bare JSON boolean, so this
/// is the round trip of both frame shapes the ring core uses.
pub proof fn lemma_bool_json_round_trip(b: bool)
    ensures
        parse_bool_json(bool_json(b)) == Some(b),
{
    reveal_strlit("true");
    reveal_strlit("false");
    assert("true"@.len() == 4);
    assert("false"@.len() == 5);
}

/// Character-for-character string comparison.
pub(crate) fn str_eq(a: &str, b: &str) -> (r: bool)
    ensures
        r == (a@ == b@),
{
    let a_len = a.unicode_len();
    let b_len = b.unicode_len();
    if a_len != b_len {
        return false;
    }
    let mut i: usize = 0;
    while i < a_len
        invariant
            i <= a_len,
            a_len == a@.len(),
            b@.len() == a@.len(),
            forall|j: int| 0 <= j < i ==> a@[j] == b@[j],
        decreases a_len - i,
    {
        if a.get_char(i) != b.get_char(i) {
            return false;
        }
        i = i + 1;
    }
    proof {
        assert(a@ =~= b@);
    }
    true
}

/// Control frame sent by the coordinator: the first arrival releases a peer
/// past the bootstrap barrier, a second arrival on the same channel makes the
/// peer the initial token holder.
#[derive(Clone, Copy, PartialEq, Eq, Structural, Debug)]
pub struct StartFlag(pub bool);

/// The circulating token. Possession is signalled by the arrival of a
/// well-formed frame; the boolean payload is never inspected.
#[derive(Clone, Copy, PartialEq, Eq, Structural, Debug)]
pub struct HotPotato(pub bool);

/// What a peer knows of the token: either it holds the token that arrived in
/// some frame, or it holds nothing.
#[derive(Clone, Copy, PartialEq, Eq, Structural, Debug)]
pub enum HotPotatoState {
    Holding(HotPotato),
    NotHolding,
}

/// Reserved arithmetic request shape; unused by the ring core.
#[derive(Clone, Copy, PartialEq, Eq, Structural, Debug)]
pub enum Request {
    Add(i32, i32),
    Sub(i32, i32),
    Mul(i32, i32),
    Div(i32, i32),
}

/// Reserved arithmetic response shape; unused by the ring core.
#[derive(Clone, Debug)]
pub enum Response {
    Okay { value: String, kind: String },
    Fail(String),
}

impl StartFlag {
    /// Encode for the wire: the bare JSON boolean on one line.
    pub fn to_json_string(&self) -> (r: String)
        ensures
            r@ == bool_json(self.0),
    {
        if self.0 {
            String::from_str("true")
        } else {
            String::from_str("false")
        }
    }

    /// Decode a line as a `StartFlag` frame; only the two JSON booleans are
    /// well-formed.
    pub fn from_json_string(token: &str) -> (r: Result<Self, DecodeError>)
        ensures
            r == match parse_bool_json(token@) {
                Some(b) => Ok::<StartFlag, DecodeError>(StartFlag(b)),
                None => Err::<StartFlag, DecodeError>(DecodeError),
            },
    {
        if str_eq(token, "true") {
            Ok(StartFlag(true))
        } else if str_eq(token, "false") {
            Ok(StartFlag(false))
        } else {
            Err(DecodeError)
        }
    }
}

impl HotPotato {
    /// A fresh token.
    pub fn new() -> (r: Self)
        ensures
            r == (HotPotato(true)),
    {
        Self(true)
    }

    /// Encode for the wire: the bare JSON boolean on one line.
    pub fn to_json_string(&self) -> (r: String)
        ensures
            r@ == bool_json(self.0),
    {
        if self.0 {
            String::from_str("true")
        } else {
            String::from_str("false")
        }
    }

    /// Decode a line as a token frame; only the two JSON booleans are
    /// well-formed.
    pub fn from_json_string(token: &str) -> (r: Result<Self, DecodeError>)
        ensures
            r == match parse_bool_json(token@) {
                Some(b) => Ok::<HotPotato, DecodeError>(HotPotato(b)),
                None => Err::<HotPotato, DecodeError>(DecodeError),
            },
    {
        if str_eq(token, "true") {
            Ok(HotPotato(true))
        } else if str_eq(token, "false") {
            Ok(HotPotato(false))
        } else {
            Err(DecodeError)
        }
    }
}

impl Response {
    /// Display hook for responses; the reserved shapes carry no behaviour
    /// yet, so nothing is printed.
    pub fn print(&self) {
    }
}

} // verus!

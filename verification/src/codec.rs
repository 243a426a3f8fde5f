//! The reserved frames' grammar.
//!
//! A `Request` travels as `{"Add":[1,2]}` (and likewise `Sub`, `Mul`,
//! `Div`): the operation name, then the two operands as canonical decimal
//! integers — no leading zeros, no `-0`, each within `i32` range. A
//! `Response` travels as `{"Ok":{"value":"…","type":"…"}}` or
//! `{"Err":"…"}`, its strings quoted with `"` and `\` escaped by a
//! backslash. Each decoder accepts exactly the canonical texts.

use crate::error::DecodeError;
use crate::message::Request;
use crate::message::Response;
use crate::message::str_eq;
use vstd::prelude::*;
use vstd::string::*;

verus! {

/// The character of one decimal digit.
pub open spec fn dec_digit(d: nat) -> char {
    if d == 0 {
        '0'
    } else if d == 1 {
        '1'
    } else if d == 2 {
        '2'
    } else if d == 3 {
        '3'
    } else if d == 4 {
        '4'
    } else if d == 5 {
        '5'
    } else if d == 6 {
        '6'
    } else if d == 7 {
        '7'
    } else if d == 8 {
        '8'
    } else {
        '9'
    }
}

/// The canonical decimal text of a natural number, most significant digit
/// first.
pub open spec fn dec_digits(n: nat) -> Seq<char>
    decreases n,
{
    if n < 10 {
        seq![dec_digit(n)]
    } else {
        dec_digits(n / 10).push(dec_digit(n % 10))
    }
}

/// The canonical decimal text of an integer.
pub open spec fn int_json(v: int) -> Seq<char> {
    if v >= 0 {
        dec_digits(v as nat)
    } else {
        seq!['-'] + dec_digits((-v) as nat)
    }
}

/// Whether `c` is a decimal digit.
pub open spec fn is_dec_digit(c: char) -> bool {
    48 <= c as u32 <= 57
}

/// The value of one digit character.
pub open spec fn digit_val(c: char) -> nat {
    (c as u32 - 48) as nat
}

/// The value of a digit string, most significant digit first.
pub open spec fn digits_val(s: Seq<char>) -> nat
    decreases s.len(),
{
    if s.len() == 0 {
        0
    } else {
        digits_val(s.drop_last()) * 10 + digit_val(s.last())
    }
}

/// Whether every character of `s` is a decimal digit.
pub open spec fn all_digits(s: Seq<char>) -> bool {
    forall|i: int| 0 <= i < s.len() ==> is_dec_digit(s[i])
}

/// A canonical digit string: nonempty, digits only, no leading zero.
pub open spec fn canonical_digits(s: Seq<char>) -> bool {
    &&& s.len() > 0
    &&& all_digits(s)
    &&& (s.len() > 1 ==> s[0] != '0')
}

/// What a text yields when parsed as a canonical `i32`: the sign, a
/// canonical digit string, the value within range, and `-0` excluded.
pub open spec fn parse_int(s: Seq<char>) -> Option<int> {
    if s.len() > 0 && s[0] == '-' {
        let d = s.drop_first();
        if canonical_digits(d) && 0 < digits_val(d) <= 0x8000_0000 {
            Some(-(digits_val(d) as int))
        } else {
            None
        }
    } else {
        if canonical_digits(s) && digits_val(s) < 0x8000_0000 {
            Some(digits_val(s) as int)
        } else {
            None
        }
    }
}

/// The digit characters are digits, and `dec_digit` and `digit_val` are
/// mutually inverse on them.
proof fn lemma_dec_digit_val(d: nat)
    requires
        d < 10,
    ensures
        is_dec_digit(dec_digit(d)),
        digit_val(dec_digit(d)) == d,
{
}

/// Every character of a canonical decimal text is a digit — in particular
/// neither `-` nor any frame punctuation.
proof fn lemma_dec_digits_all_digits(n: nat)
    ensures
        all_digits(dec_digits(n)),
        dec_digits(n).len() >= 1,
    decreases n,
{
    if n < 10 {
        lemma_dec_digit_val(n);
    } else {
        lemma_dec_digits_all_digits(n / 10);
        lemma_dec_digit_val(n % 10);
    }
}

/// The canonical text of a positive number does not start with `0`.
proof fn lemma_dec_digits_no_leading_zero(n: nat)
    requires
        n >= 1,
    ensures
        dec_digits(n)[0] != '0',
    decreases n,
{
    if n >= 10 {
        lemma_dec_digits_all_digits(n / 10);
        lemma_dec_digits_no_leading_zero(n / 10);
    }
}

/// Reading the canonical text of a number back gives the number.
proof fn lemma_digits_val_of_dec_digits(n: nat)
    ensures
        digits_val(dec_digits(n)) == n,
    decreases n,
{
    if n < 10 {
        lemma_dec_digit_val(n);
        assert(dec_digits(n).drop_last() =~= Seq::<char>::empty());
        assert(digits_val(Seq::<char>::empty()) == 0);
    } else {
        lemma_digits_val_of_dec_digits(n / 10);
        lemma_dec_digit_val(n % 10);
        assert(dec_digits(n).drop_last() =~= dec_digits(n / 10));
        vstd::arithmetic::div_mod::lemma_fundamental_div_mod(n as int, 10);
    }
}

/// The operation name inside a request frame.
pub open spec fn request_name(r: Request) -> Seq<char> {
    match r {
        Request::Add(_, _) => "Add"@,
        Request::Sub(_, _) => "Sub"@,
        Request::Mul(_, _) => "Mul"@,
        Request::Div(_, _) => "Div"@,
    }
}

/// The two operands of a request.
pub open spec fn request_args(r: Request) -> (int, int) {
    match r {
        Request::Add(a, b) => (a as int, b as int),
        Request::Sub(a, b) => (a as int, b as int),
        Request::Mul(a, b) => (a as int, b as int),
        Request::Div(a, b) => (a as int, b as int),
    }
}

/// The wire text of a request frame.
pub open spec fn request_json(r: Request) -> Seq<char> {
    "{\""@ + request_name(r) + "\":["@ + int_json(request_args(r).0) + ","@ + int_json(
        request_args(r).1,
    ) + "]}"@
}

/// The request carried by an operation name and two in-range operands.
pub open spec fn request_of_name(name: Seq<char>, a: int, b: int) -> Option<Request> {
    if name == "Add"@ {
        Some(Request::Add(a as i32, b as i32))
    } else if name == "Sub"@ {
        Some(Request::Sub(a as i32, b as i32))
    } else if name == "Mul"@ {
        Some(Request::Mul(a as i32, b as i32))
    } else if name == "Div"@ {
        Some(Request::Div(a as i32, b as i32))
    } else {
        None
    }
}

/// The index of the first comma of `s`, if any.
pub open spec fn first_comma(s: Seq<char>) -> Option<int>
    decreases s.len(),
{
    if s.len() == 0 {
        None
    } else if s[0] == ',' {
        Some(0)
    } else {
        match first_comma(s.drop_first()) {
            Some(k) => Some(k + 1),
            None => None,
        }
    }
}

/// What a line yields when decoded as a request frame: the fixed
/// punctuation, a known three-letter operation name, and two canonical
/// decimal operands split at the first comma.
pub open spec fn parse_request(s: Seq<char>) -> Result<Request, DecodeError> {
    if s.len() < 13 {
        Err(DecodeError)
    } else if !(s.subrange(0, 2) == "{\""@ && s.subrange(5, 8) == "\":["@ && s.subrange(
        s.len() as int - 2,
        s.len() as int,
    ) == "]}"@) {
        Err(DecodeError)
    } else {
        let mid = s.subrange(8, s.len() as int - 2);
        match first_comma(mid) {
            None => Err(DecodeError),
            Some(k) => match (parse_int(mid.subrange(0, k)), parse_int(
                mid.subrange(k + 1, mid.len() as int),
            )) {
                (Some(a), Some(b)) => match request_of_name(s.subrange(2, 5), a, b) {
                    Some(r) => Ok(r),
                    None => Err(DecodeError),
                },
                _ => Err(DecodeError),
            },
        }
    }
}

/// A comma at `k` with none before it is the first comma.
proof fn lemma_first_comma_at(s: Seq<char>, k: int)
    requires
        0 <= k < s.len(),
        s[k] == ',',
        forall|j: int| 0 <= j < k ==> s[j] != ',',
    ensures
        first_comma(s) == Some(k),
    decreases s.len(),
{
    if k > 0 {
        lemma_first_comma_at(s.drop_first(), k - 1);
    }
}

/// A string without a comma has no first comma.
proof fn lemma_first_comma_none(s: Seq<char>)
    requires
        forall|j: int| 0 <= j < s.len() ==> s[j] != ',',
    ensures
        first_comma(s) is None,
    decreases s.len(),
{
    if s.len() > 0 {
        lemma_first_comma_none(s.drop_first());
    }
}

/// No character of a canonical integer text is a comma.
proof fn lemma_int_json_no_comma(v: int)
    ensures
        forall|j: int| 0 <= j < int_json(v).len() ==> int_json(v)[j] != ',',
{
    if v >= 0 {
        lemma_dec_digits_all_digits(v as nat);
    } else {
        lemma_dec_digits_all_digits((-v) as nat);
    }
}

/// Law (number round trip): parsing the canonical text of any `i32` value
/// yields the value back.
pub proof fn lemma_parse_int_round_trip(v: int)
    requires
        -0x8000_0000 <= v < 0x8000_0000,
    ensures
        parse_int(int_json(v)) == Some(v),
{
    if v >= 0 {
        let n = v as nat;
        lemma_dec_digits_all_digits(n);
        lemma_digits_val_of_dec_digits(n);
        if n >= 1 {
            lemma_dec_digits_no_leading_zero(n);
        }
        assert(is_dec_digit(int_json(v)[0]));
        assert(int_json(v)[0] != '-');
    } else {
        let n = (-v) as nat;
        lemma_dec_digits_all_digits(n);
        lemma_digits_val_of_dec_digits(n);
        lemma_dec_digits_no_leading_zero(n);
        assert(int_json(v).drop_first() =~= dec_digits(n));
    }
}

/// The canonical text of an integer is nonempty.
proof fn lemma_int_json_len(v: int)
    ensures
        int_json(v).len() >= 1,
{
    if v >= 0 {
        lemma_dec_digits_all_digits(v as nat);
    } else {
        lemma_dec_digits_all_digits((-v) as nat);
    }
}

/// Law (request round trip): decoding the encoded text of any request
/// yields the request back.
pub proof fn lemma_request_round_trip(r: Request)
    ensures
        parse_request(request_json(r)) == Ok::<Request, DecodeError>(r),
{
    reveal_strlit("{\"");
    reveal_strlit("\":[");
    reveal_strlit(",");
    reveal_strlit("]}");
    reveal_strlit("Add");
    reveal_strlit("Sub");
    reveal_strlit("Mul");
    reveal_strlit("Div");
    let s = request_json(r);
    let name = request_name(r);
    let a = request_args(r).0;
    let b = request_args(r).1;
    let ja = int_json(a);
    let jb = int_json(b);
    lemma_int_json_len(a);
    lemma_int_json_len(b);
    assert(name.len() == 3);
    assert(s.len() == 11 + ja.len() + jb.len());
    assert(s.subrange(0, 2) =~= "{\""@);
    assert(s.subrange(2, 5) =~= name);
    assert(s.subrange(5, 8) =~= "\":["@);
    assert(s.subrange(s.len() as int - 2, s.len() as int) =~= "]}"@);
    let mid = s.subrange(8, s.len() as int - 2);
    assert(mid =~= ja + ","@ + jb);
    let k = ja.len() as int;
    lemma_int_json_no_comma(a);
    assert(mid[k] == ',');
    assert(forall|j: int| 0 <= j < k ==> mid[j] != ',');
    lemma_first_comma_at(mid, k);
    assert(mid.subrange(0, k) =~= ja);
    assert(mid.subrange(k + 1, mid.len() as int) =~= jb);
    lemma_parse_int_round_trip(a);
    lemma_parse_int_round_trip(b);
    match r {
        Request::Add(_, _) => {},
        Request::Sub(_, _) => {
            assert(name[0] == 'S' && "Add"@[0] == 'A');
            assert(name != "Add"@);
        },
        Request::Mul(_, _) => {
            assert(name[0] == 'M' && "Add"@[0] == 'A' && "Sub"@[0] == 'S');
            assert(name != "Add"@ && name != "Sub"@);
        },
        Request::Div(_, _) => {
            assert(name[0] == 'D' && "Add"@[0] == 'A' && "Sub"@[0] == 'S' && "Mul"@[0] == 'M');
            assert(name != "Add"@ && name != "Sub"@ && name != "Mul"@);
        },
    }
    assert(request_of_name(name, a, b) == Some(r));
}

/// The text of one digit.
fn digit_str(d: u32) -> (r: &'static str)
    requires
        d < 10,
    ensures
        r@ == seq![dec_digit(d as nat)],
{
    let r: &'static str = if d == 0 {
        "0"
    } else if d == 1 {
        "1"
    } else if d == 2 {
        "2"
    } else if d == 3 {
        "3"
    } else if d == 4 {
        "4"
    } else if d == 5 {
        "5"
    } else if d == 6 {
        "6"
    } else if d == 7 {
        "7"
    } else if d == 8 {
        "8"
    } else {
        "9"
    };
    proof {
        reveal_strlit("0");
        reveal_strlit("1");
        reveal_strlit("2");
        reveal_strlit("3");
        reveal_strlit("4");
        reveal_strlit("5");
        reveal_strlit("6");
        reveal_strlit("7");
        reveal_strlit("8");
        reveal_strlit("9");
        assert(r@ =~= seq![dec_digit(d as nat)]);
    }
    r
}

/// Append the canonical decimal text of `n`.
fn push_dec(out: &mut String, n: u32)
    ensures
        final(out)@ == old(out)@ + dec_digits(n as nat),
    decreases n,
{
    if n < 10 {
        out.append(digit_str(n));
        proof {
            assert(out@ =~= old(out)@ + dec_digits(n as nat));
        }
    } else {
        push_dec(out, n / 10);
        out.append(digit_str(n % 10));
        proof {
            assert(out@ =~= old(out)@ + dec_digits(n as nat));
        }
    }
}

/// Append the canonical decimal text of `v`.
fn push_int(out: &mut String, v: i32)
    ensures
        final(out)@ == old(out)@ + int_json(v as int),
{
    if v >= 0 {
        push_dec(out, v as u32);
    } else {
        out.append("-");
        let m: u32 = (-(v as i64)) as u32;
        push_dec(out, m);
        proof {
            reveal_strlit("-");
            assert(out@ =~= old(out)@ + int_json(v as int));
        }
    }
}

/// A digit string's value is at least the value of any of its prefixes.
proof fn lemma_digits_val_prefix_le(s: Seq<char>, i: int)
    requires
        0 <= i <= s.len(),
    ensures
        digits_val(s.subrange(0, i)) <= digits_val(s),
    decreases s.len() - i,
{
    if i == s.len() {
        assert(s.subrange(0, i) =~= s);
    } else {
        assert(s.subrange(0, i + 1).drop_last() =~= s.subrange(0, i));
        lemma_digits_val_prefix_le(s, i + 1);
    }
}

/// Parse `s[from..to)` as a canonical decimal `i32`.
#[verifier::loop_isolation(false)]
fn parse_int_range(s: &str, from: usize, to: usize) -> (r: Option<i32>)
    requires
        from <= to <= s@.len(),
    ensures
        match parse_int(s@.subrange(from as int, to as int)) {
            Some(v) => r matches Some(x) && x as int == v,
            None => r is None,
        },
{
    let ghost d = s@.subrange(from as int, to as int);
    if from == to {
        return None;
    }
    let neg = s.get_char(from) == '-';
    let start = if neg {
        from + 1
    } else {
        from
    };
    if start == to {
        return None;
    }
    let ghost part = s@.subrange(start as int, to as int);
    proof {
        if neg {
            assert(d.drop_first() =~= part);
        } else {
            assert(d =~= part);
        }
    }
    if to - start > 1 && s.get_char(start) == '0' {
        proof {
            assert(part[0] == '0');
            assert(!canonical_digits(part));
        }
        return None;
    }
    let mut i: usize = start;
    let mut acc: u64 = 0;
    while i < to
        invariant
            start <= i <= to,
            to <= s@.len(),
            start < to,
            acc <= 0x8000_0000,
            acc as nat == digits_val(s@.subrange(start as int, i as int)),
            forall|j: int| start <= j < i ==> is_dec_digit(s@[j]),
        decreases to - i,
    {
        let c = s.get_char(i);
        let u = c as u32;
        if u < 48 || u > 57 {
            proof {
                assert(part[i - start as int] == s@[i as int]);
                assert(!is_dec_digit(s@[i as int]));
                assert(!all_digits(part));
                assert(!canonical_digits(part));
                assert(parse_int(d) is None);
            }
            return None;
        }
        proof {
            assert(s@.subrange(start as int, i as int + 1).drop_last() =~= s@.subrange(
                start as int,
                i as int,
            ));
            assert(s@.subrange(start as int, i as int + 1).last() == s@[i as int]);
            assert(digit_val(s@[i as int]) == (u - 48) as nat);
        }
        acc = acc * 10 + ((u - 48) as u64);
        proof {
            assert(acc as nat == digits_val(s@.subrange(start as int, i as int + 1)));
        }
        if acc > 0x8000_0000 {
            proof {
                assert(part.subrange(0, i + 1 - start as int) =~= s@.subrange(
                    start as int,
                    i as int + 1,
                ));
                lemma_digits_val_prefix_le(part, i + 1 - start as int);
                assert(digits_val(part) > 0x8000_0000);
                assert(parse_int(d) is None);
            }
            return None;
        }
        i = i + 1;
    }
    proof {
        assert(part =~= s@.subrange(start as int, i as int));
        assert(forall|j: int| 0 <= j < part.len() ==> is_dec_digit(#[trigger] part[j]));
        assert(canonical_digits(part));
    }
    if neg {
        if acc == 0 {
            return None;
        }
        let x: i32 = if acc == 0x8000_0000 {
            i32::MIN
        } else {
            0i32 - (acc as i32)
        };
        Some(x)
    } else {
        if acc == 0x8000_0000 {
            return None;
        }
        Some(acc as i32)
    }
}

impl Request {
    /// Encode for the wire: the operation name and the two operands as
    /// canonical decimal integers.
    pub fn to_json_string(&self) -> (r: String)
        ensures
            r@ == request_json(*self),
    {
        let (name, a, b): (&'static str, i32, i32) = match *self {
            Request::Add(x, y) => ("Add", x, y),
            Request::Sub(x, y) => ("Sub", x, y),
            Request::Mul(x, y) => ("Mul", x, y),
            Request::Div(x, y) => ("Div", x, y),
        };
        let mut out = String::from_str("{\"");
        out.append(name);
        out.append("\":[");
        push_int(&mut out, a);
        out.append(",");
        push_int(&mut out, b);
        out.append("]}");
        proof {
            assert(name@ == request_name(*self));
            assert(out@ =~= request_json(*self));
        }
        out
    }

    /// Decode a line as a request frame; exactly the canonical texts are
    /// accepted, and everything else is malformed.
    #[verifier::loop_isolation(false)]
    pub fn from_json_string(token: &str) -> (r: Result<Self, DecodeError>)
        ensures
            r == parse_request(token@),
    {
        let n: usize = token.unicode_len();
        if n < 13 {
            return Err(DecodeError);
        }
        proof {
            reveal_strlit("{\"");
            reveal_strlit("\":[");
            reveal_strlit("]}");
            reveal_strlit("Add");
            reveal_strlit("Sub");
            reveal_strlit("Mul");
            reveal_strlit("Div");
        }
        if !(token.get_char(0) == '{' && token.get_char(1) == '"' && token.get_char(5) == '"'
            && token.get_char(6) == ':' && token.get_char(7) == '[') {
            proof {
                assert(token@.subrange(0, 2)[0] == token@[0] && token@.subrange(0, 2)[1]
                    == token@[1]);
                assert(token@.subrange(5, 8)[0] == token@[5] && token@.subrange(5, 8)[1]
                    == token@[6] && token@.subrange(5, 8)[2] == token@[7]);
            }
            return Err(DecodeError);
        }
        if !(token.get_char(n - 2) == ']' && token.get_char(n - 1) == '}') {
            proof {
                let tail = token@.subrange(n as int - 2, n as int);
                assert(tail[0] == token@[n as int - 2] && tail[1] == token@[n as int - 1]);
            }
            return Err(DecodeError);
        }
        proof {
            assert(token@.subrange(0, 2) =~= "{\""@);
            assert(token@.subrange(5, 8) =~= "\":["@);
            assert(token@.subrange(n as int - 2, n as int) =~= "]}"@);
        }
        let ghost mid = token@.subrange(8, n as int - 2);
        let mut idx: usize = 8;
        let mut found: bool = false;
        while idx < n - 2 && !found
            invariant
                8 <= idx <= n - 2,
                found ==> idx < n - 2 && token@[idx as int] == ',',
                forall|j: int| 8 <= j < idx ==> token@[j] != ',',
            decreases 2 * (n - 2 - idx) + (if found {
                0int
            } else {
                1int
            }),
        {
            if token.get_char(idx) == ',' {
                found = true;
            } else {
                idx = idx + 1;
            }
        }
        if !found {
            proof {
                assert(forall|j: int| 0 <= j < mid.len() ==> mid[j] != ',');
                lemma_first_comma_none(mid);
            }
            return Err(DecodeError);
        }
        let ghost k: int = idx as int - 8;
        proof {
            assert(mid[k] == ',');
            assert(forall|j: int| 0 <= j < k ==> mid[j] != ',');
            lemma_first_comma_at(mid, k);
            assert(mid.subrange(0, k) =~= token@.subrange(8, idx as int));
            assert(mid.subrange(k + 1, mid.len() as int) =~= token@.subrange(
                idx as int + 1,
                n as int - 2,
            ));
        }
        let a_val = parse_int_range(token, 8, idx);
        let b_val = parse_int_range(token, idx + 1, n - 2);
        let (x, y): (i32, i32) = match (a_val, b_val) {
            (Some(x), Some(y)) => (x, y),
            _ => {
                return Err(DecodeError);
            },
        };
        let c2 = token.get_char(2);
        let c3 = token.get_char(3);
        let c4 = token.get_char(4);
        let ghost name = token@.subrange(2, 5);
        proof {
            assert(name.len() == 3 && name[0] == c2 && name[1] == c3 && name[2] == c4);
        }
        if c2 == 'A' && c3 == 'd' && c4 == 'd' {
            proof {
                assert(name =~= "Add"@);
            }
            Ok(Request::Add(x, y))
        } else if c2 == 'S' && c3 == 'u' && c4 == 'b' {
            proof {
                assert(name =~= "Sub"@);
            }
            Ok(Request::Sub(x, y))
        } else if c2 == 'M' && c3 == 'u' && c4 == 'l' {
            proof {
                assert(name =~= "Mul"@);
            }
            Ok(Request::Mul(x, y))
        } else if c2 == 'D' && c3 == 'i' && c4 == 'v' {
            proof {
                assert(name =~= "Div"@);
            }
            Ok(Request::Div(x, y))
        } else {
            proof {
                assert(name != "Add"@ && name != "Sub"@ && name != "Mul"@ && name != "Div"@);
                assert(request_of_name(name, x as int, y as int) is None);
            }
            Err(DecodeError)
        }
    }
}

/// How one character travels inside a quoted string: `"` and `\` behind a
/// backslash, everything else verbatim.
pub open spec fn esc_char(c: char) -> Seq<char> {
    if c == '"' || c == '\\' {
        seq!['\\', c]
    } else {
        seq![c]
    }
}

/// The escaped text of a string.
pub open spec fn escape_str(s: Seq<char>) -> Seq<char>
    decreases s.len(),
{
    if s.len() == 0 {
        Seq::empty()
    } else {
        esc_char(s[0]) + escape_str(s.drop_first())
    }
}

/// Parse a quoted-string body. `s` begins just past the opening quote; the
/// result is the unescaped value and how many characters were consumed, the
/// closing quote included.
pub open spec fn parse_jstr(s: Seq<char>) -> Option<(Seq<char>, int)>
    decreases s.len(),
{
    if s.len() == 0 {
        None
    } else if s[0] == '"' {
        Some((Seq::empty(), 1))
    } else if s[0] == '\\' {
        if s.len() >= 2 && (s[1] == '"' || s[1] == '\\') {
            match parse_jstr(s.subrange(2, s.len() as int)) {
                Some((v, c)) => Some((seq![s[1]] + v, c + 2)),
                None => None,
            }
        } else {
            None
        }
    } else {
        match parse_jstr(s.drop_first()) {
            Some((v, c)) => Some((seq![s[0]] + v, c + 1)),
            None => None,
        }
    }
}

/// Law (string round trip): an escaped string followed by its closing quote
/// parses back to the string, whatever follows the quote.
pub proof fn lemma_parse_jstr_round_trip(s: Seq<char>, rest: Seq<char>)
    ensures
        parse_jstr(escape_str(s) + seq!['"'] + rest) == Some(
            (s, escape_str(s).len() + 1int),
        ),
    decreases s.len(),
{
    let w = escape_str(s) + seq!['"'] + rest;
    if s.len() == 0 {
        assert(w[0] == '"');
        assert(parse_jstr(w) == Some((Seq::<char>::empty(), 1int)));
        assert(s =~= Seq::<char>::empty());
    } else {
        let c = s[0];
        lemma_parse_jstr_round_trip(s.drop_first(), rest);
        if c == '"' || c == '\\' {
            assert(w[0] == '\\' && w[1] == c);
            assert(w.subrange(2, w.len() as int) =~= escape_str(s.drop_first()) + seq!['"']
                + rest);
            assert(seq![c] + s.drop_first() =~= s);
        } else {
            assert(w[0] == c);
            assert(w.drop_first() =~= escape_str(s.drop_first()) + seq!['"'] + rest);
            assert(seq![c] + s.drop_first() =~= s);
        }
    }
}

/// Escaping distributes over concatenation.
proof fn lemma_escape_str_concat(a: Seq<char>, b: Seq<char>)
    ensures
        escape_str(a + b) == escape_str(a) + escape_str(b),
    decreases a.len(),
{
    if a.len() == 0 {
        assert(a + b =~= b);
        assert(escape_str(a) + escape_str(b) =~= escape_str(b));
    } else {
        assert((a + b).drop_first() =~= a.drop_first() + b);
        lemma_escape_str_concat(a.drop_first(), b);
        assert(escape_str(a + b) =~= escape_str(a) + escape_str(b));
    }
}

/// A string without `"` or `\` escapes to itself.
proof fn lemma_escape_str_plain(s: Seq<char>)
    requires
        forall|j: int| 0 <= j < s.len() ==> s[j] != '"' && s[j] != '\\',
    ensures
        escape_str(s) == s,
    decreases s.len(),
{
    if s.len() > 0 {
        lemma_escape_str_plain(s.drop_first());
        assert(escape_str(s) =~= s);
    }
}

/// The wire text of a response frame.
pub open spec fn response_json(r: Response) -> Seq<char> {
    match r {
        Response::Okay { value, kind } => "{\"Ok\":{\"value\":\""@ + escape_str(value@)
            + "\",\"type\":\""@ + escape_str(kind@) + "\"}}"@,
        Response::Fail(message) => "{\"Err\":\""@ + escape_str(message@) + "\"}"@,
    }
}

/// What a line yields when decoded as the success response shape: the two
/// unescaped strings, or nothing.
pub open spec fn parse_okay(s: Seq<char>) -> Option<(Seq<char>, Seq<char>)> {
    if s.len() >= 16 && s.subrange(0, 16) == "{\"Ok\":{\"value\":\""@ {
        match parse_jstr(s.subrange(16, s.len() as int)) {
            None => None,
            Some((value, c1)) => {
                let p = 16 + c1;
                if p + 9 <= s.len() && s.subrange(p, p + 9) == ",\"type\":\""@ {
                    match parse_jstr(s.subrange(p + 9, s.len() as int)) {
                        None => None,
                        Some((kind, c2)) => {
                            let q = p + 9 + c2;
                            if q + 2 == s.len() && s[q] == '}' && s[q + 1] == '}' {
                                Some((value, kind))
                            } else {
                                None
                            }
                        },
                    }
                } else {
                    None
                }
            },
        }
    } else {
        None
    }
}

/// What a line yields when decoded as the failure response shape: the
/// unescaped message, or nothing.
pub open spec fn parse_fail(s: Seq<char>) -> Option<Seq<char>> {
    if s.len() >= 8 && s.subrange(0, 8) == "{\"Err\":\""@ {
        match parse_jstr(s.subrange(8, s.len() as int)) {
            None => None,
            Some((message, c)) => {
                let p = 8 + c;
                if p + 1 == s.len() && s[p] == '}' {
                    Some(message)
                } else {
                    None
                }
            },
        }
    } else {
        None
    }
}

/// Append the escaped text of `s`: verbatim runs are copied whole, `"` and
/// `\` leave behind a backslash escape.
#[verifier::loop_isolation(false)]
fn append_escaped(out: &mut String, s: &str)
    ensures
        final(out)@ == old(out)@ + escape_str(s@),
{
    let n: usize = s.unicode_len();
    let mut i: usize = 0;
    let mut run_start: usize = 0;
    while i < n
        invariant
            run_start <= i <= n,
            out@ == old(out)@ + escape_str(s@.subrange(0, run_start as int)),
            forall|j: int| run_start <= j < i ==> s@[j] != '"' && s@[j] != '\\',
        decreases n - i,
    {
        let c = s.get_char(i);
        if c == '"' || c == '\\' {
            out.append(s.substring_char(run_start, i));
            out.append(if c == '"' {
                "\\\""
            } else {
                "\\\\"
            });
            proof {
                reveal_strlit("\\\"");
                reveal_strlit("\\\\");
                let pre = s@.subrange(0, run_start as int);
                let run = s@.subrange(run_start as int, i as int);
                lemma_escape_str_plain(run);
                lemma_escape_str_concat(pre, run);
                assert(pre + run =~= s@.subrange(0, i as int));
                lemma_escape_str_concat(s@.subrange(0, i as int), seq![c]);
                assert(s@.subrange(0, i as int) + seq![c] =~= s@.subrange(0, i as int + 1));
                assert(seq![c].drop_first() =~= Seq::<char>::empty());
                assert(escape_str(Seq::<char>::empty()) == Seq::<char>::empty());
                assert(escape_str(seq![c]) == esc_char(c) + escape_str(Seq::<char>::empty()));
                assert(escape_str(seq![c]) =~= seq!['\\', c]);
                assert(out@ =~= old(out)@ + escape_str(s@.subrange(0, i as int + 1)));
            }
            run_start = i + 1;
        }
        i = i + 1;
    }
    out.append(s.substring_char(run_start, n));
    proof {
        let pre = s@.subrange(0, run_start as int);
        let run = s@.subrange(run_start as int, n as int);
        lemma_escape_str_plain(run);
        lemma_escape_str_concat(pre, run);
        assert(pre + run =~= s@);
        assert(s@.subrange(0, n as int) =~= s@);
        assert(out@ =~= old(out)@ + escape_str(s@));
    }
}

/// Scan a quoted-string body: `from` is just past the opening quote. On
/// success, the unescaped value and the index just past the closing quote.
#[verifier::loop_isolation(false)]
fn scan_jstr(s: &str, from: usize) -> (r: Option<(String, usize)>)
    requires
        from <= s@.len(),
    ensures
        match parse_jstr(s@.subrange(from as int, s@.len() as int)) {
            Some((v, c)) => r matches Some(p) && p.0@ == v && p.1 as int == from + c && p.1
                as int <= s@.len(),
            None => r is None,
        },
{
    let n: usize = s.unicode_len();
    let ghost whole = parse_jstr(s@.subrange(from as int, n as int));
    let mut out = String::new();
    let mut i: usize = from;
    let mut run_start: usize = from;
    proof {
        match parse_jstr(s@.subrange(from as int, n as int)) {
            Some((v, c)) => {
                assert(out@ + s@.subrange(from as int, from as int) + v =~= v);
            },
            None => {},
        }
    }
    while i < n
        invariant
            from <= run_start <= i <= n,
            n == s@.len(),
            forall|j: int| run_start <= j < i ==> s@[j] != '"' && s@[j] != '\\',
            match parse_jstr(s@.subrange(i as int, n as int)) {
                Some((v, c)) => whole == Some(
                    (out@ + s@.subrange(run_start as int, i as int) + v, i - from + c),
                ),
                None => whole is None,
            },
        decreases n - i,
    {
        let ghost out0 = out@;
        let ghost si = s@.subrange(i as int, n as int);
        let c = s.get_char(i);
        proof {
            assert(si[0] == s@[i as int]);
        }
        if c == '"' {
            out.append(s.substring_char(run_start, i));
            proof {
                assert(parse_jstr(si) == Some((Seq::<char>::empty(), 1int)));
                assert(out0 + s@.subrange(run_start as int, i as int) + Seq::<char>::empty()
                    =~= out@);
            }
            return Some((out, i + 1));
        } else if c == '\\' {
            if i + 1 >= n {
                proof {
                    assert(si.len() == 1);
                    assert(parse_jstr(si) is None);
                }
                return None;
            }
            let next = s.get_char(i + 1);
            proof {
                assert(si[1] == s@[i as int + 1]);
            }
            if next == '"' || next == '\\' {
                out.append(s.substring_char(run_start, i));
                out.append(
                    if next == '"' {
                        "\""
                    } else {
                        "\\"
                    },
                );
                proof {
                    reveal_strlit("\"");
                    reveal_strlit("\\");
                    let si2 = s@.subrange(i as int + 2, n as int);
                    assert(si.subrange(2, si.len() as int) =~= si2);
                    assert(out@ =~= out0 + s@.subrange(run_start as int, i as int) + seq![next]);
                    match parse_jstr(si2) {
                        Some((v, c2)) => {
                            assert(parse_jstr(si) == Some((seq![next] + v, c2 + 2)));
                            assert(out0 + s@.subrange(run_start as int, i as int) + (seq![next]
                                + v) =~= out@ + s@.subrange(i as int + 2, i as int + 2) + v);
                        },
                        None => {
                            assert(parse_jstr(si) is None);
                        },
                    }
                }
                run_start = i + 2;
                i = i + 2;
            } else {
                proof {
                    assert(parse_jstr(si) is None);
                }
                return None;
            }
        } else {
            proof {
                let si1 = s@.subrange(i as int + 1, n as int);
                assert(si.drop_first() =~= si1);
                match parse_jstr(si1) {
                    Some((v, c1)) => {
                        assert(parse_jstr(si) == Some((seq![s@[i as int]] + v, c1 + 1)));
                        assert(out0 + s@.subrange(run_start as int, i as int) + (seq![s@[
                            i as int]] + v) =~= out0 + s@.subrange(run_start as int, i as int + 1)
                            + v);
                    },
                    None => {
                        assert(parse_jstr(si) is None);
                    },
                }
            }
            i = i + 1;
        }
    }
    proof {
        assert(s@.subrange(n as int, n as int) =~= Seq::<char>::empty());
        assert(parse_jstr(Seq::<char>::empty()) is None);
    }
    None
}

impl Response {
    /// Encode for the wire: the shape's fixed punctuation around the quoted,
    /// escaped strings.
    pub fn to_json_string(&self) -> (r: String)
        ensures
            r@ == response_json(*self),
    {
        match self {
            Response::Okay { value, kind } => {
                let mut out = String::from_str("{\"Ok\":{\"value\":\"");
                append_escaped(&mut out, value.as_str());
                out.append("\",\"type\":\"");
                append_escaped(&mut out, kind.as_str());
                out.append("\"}}");
                proof {
                    assert(out@ =~= response_json(*self));
                }
                out
            },
            Response::Fail(message) => {
                let mut out = String::from_str("{\"Err\":\"");
                append_escaped(&mut out, message.as_str());
                out.append("\"}");
                proof {
                    assert(out@ =~= response_json(*self));
                }
                out
            },
        }
    }

    /// Decode a line as a response frame; exactly the canonical texts are
    /// accepted, and everything else is malformed.
    pub fn from_json_string(token: &str) -> (r: Result<Self, DecodeError>)
        ensures
            match (parse_okay(token@), parse_fail(token@)) {
                (Some((v, k)), _) => r matches Ok(resp) && resp matches Response::Okay {
                    value,
                    kind,
                } && value@ == v && kind@ == k,
                (None, Some(m)) => r matches Ok(resp) && resp matches Response::Fail(message)
                    && message@ == m,
                (None, None) => r is Err,
            },
    {
        let n: usize = token.unicode_len();
        proof {
            reveal_strlit("{\"Ok\":{\"value\":\"");
            reveal_strlit(",\"type\":\"");
            reveal_strlit("{\"Err\":\"");
        }
        if n >= 16 && str_eq(token.substring_char(0, 16), "{\"Ok\":{\"value\":\"") {
            proof {
                assert(token@.subrange(0, 8)[2] == token@[2]);
                assert(token@.subrange(0, 16)[2] == token@[2]);
                assert(parse_fail(token@) is None);
            }
            match scan_jstr(token, 16) {
                None => Err(DecodeError),
                Some((value, p)) => {
                    if p <= n - 9 && str_eq(token.substring_char(p, p + 9), ",\"type\":\"") {
                        match scan_jstr(token, p + 9) {
                            None => Err(DecodeError),
                            Some((kind, q)) => {
                                if q == n - 2 && token.get_char(q) == '}' && token.get_char(q + 1)
                                    == '}' {
                                    proof {
                                        assert(parse_okay(token@) == Some((value@, kind@)));
                                    }
                                    Ok(Response::Okay { value, kind })
                                } else {
                                    Err(DecodeError)
                                }
                            },
                        }
                    } else {
                        Err(DecodeError)
                    }
                },
            }
        } else if n >= 8 && str_eq(token.substring_char(0, 8), "{\"Err\":\"") {
            proof {
                if n >= 16 {
                    assert(token@.subrange(0, 8)[2] == token@[2]);
                    assert(token@.subrange(0, 16)[2] == token@[2]);
                }
                assert(parse_okay(token@) is None);
            }
            match scan_jstr(token, 8) {
                None => Err(DecodeError),
                Some((message, p)) => {
                    if p == n - 1 && token.get_char(p) == '}' {
                        proof {
                            assert(parse_fail(token@) == Some(message@));
                        }
                        Ok(Response::Fail(message))
                    } else {
                        Err(DecodeError)
                    }
                },
            }
        } else {
            proof {
                assert(parse_okay(token@) is None);
                assert(parse_fail(token@) is None);
            }
            Err(DecodeError)
        }
    }
}

/// Law (response round trip): decoding the encoded text of any response
/// yields its strings back, under the shape it was encoded as and no other.
pub proof fn lemma_response_round_trip(r: Response)
    ensures
        match r {
            Response::Okay { value, kind } => parse_okay(response_json(r)) == Some(
                (value@, kind@),
            ) && parse_fail(response_json(r)) is None,
            Response::Fail(message) => parse_fail(response_json(r)) == Some(message@)
                && parse_okay(response_json(r)) is None,
        },
{
    reveal_strlit("{\"Ok\":{\"value\":\"");
    reveal_strlit(",\"type\":\"");
    reveal_strlit("\",\"type\":\"");
    reveal_strlit("{\"Err\":\"");
    reveal_strlit("\"}}");
    reveal_strlit("\"}");
    let s = response_json(r);
    match r {
        Response::Okay { value, kind } => {
            let ev = escape_str(value@);
            let ek = escape_str(kind@);
            assert(s.len() == 16 + ev.len() + 10 + ek.len() + 3);
            assert(s.subrange(0, 16) =~= "{\"Ok\":{\"value\":\""@);
            let rest1 = ",\"type\":\""@ + ek + "\"}}"@;
            assert(s.subrange(16, s.len() as int) =~= ev + seq!['"'] + rest1);
            lemma_parse_jstr_round_trip(value@, rest1);
            let p = 16 + ev.len() as int + 1;
            assert(s.subrange(p, p + 9) =~= ",\"type\":\""@);
            let rest2 = "}}"@;
            reveal_strlit("}}");
            assert(s.subrange(p + 9, s.len() as int) =~= ek + seq!['"'] + rest2);
            lemma_parse_jstr_round_trip(kind@, rest2);
            let q = p + 9 + ek.len() as int + 1;
            assert(s[q] == '}' && s[q + 1] == '}');
            assert(parse_okay(s) == Some((value@, kind@)));
            assert(s[2] == 'O');
            assert(s.len() >= 8 && s.subrange(0, 8)[2] == 'O' && "{\"Err\":\""@[2] == 'E');
            assert(parse_fail(s) is None);
        },
        Response::Fail(message) => {
            let em = escape_str(message@);
            assert(s.len() == 8 + em.len() + 2);
            assert(s.subrange(0, 8) =~= "{\"Err\":\""@);
            let rest1 = "}"@;
            reveal_strlit("}");
            assert(s.subrange(8, s.len() as int) =~= em + seq!['"'] + rest1);
            lemma_parse_jstr_round_trip(message@, rest1);
            let p = 8 + em.len() as int + 1;
            assert(s[p] == '}');
            assert(parse_fail(s) == Some(message@));
            assert(s[2] == 'E');
            if s.len() >= 16 {
                assert(s.subrange(0, 16)[2] == 'E' && "{\"Ok\":{\"value\":\""@[2] == 'O');
            }
            assert(parse_okay(s) is None);
        },
    }
}

} // verus!

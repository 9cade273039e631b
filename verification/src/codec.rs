//! Protocol codec: the three outbound wire messages, each a
//! newline-terminated text line, and the decimal rendering and parsing of
//! client ids and port numbers.
//!
//! The wire forms are `LOGIN:<id>\n` (sent once on accept),
//! `MESSAGE:<id> <text>\n` (fanned out to every other client), and
//! `ACK:MESSAGE\n` (sent back to the sender of a line).

use vstd::prelude::*;
use vstd::string::StringExecFns;
use vstd::string::StrSliceExecFns;

verus! {

/// The character for a single decimal digit value.
pub open spec fn digit_char(d: int) -> char {
    if d == 0 {
        '0'
    } else if d == 1 {
        '1'
    } else if d == 2 {
        '2'
    } else if d == 3 {
        '3'
    } else if d == 4 {
        '4'
    } else if d == 5 {
        '5'
    } else if d == 6 {
        '6'
    } else if d == 7 {
        '7'
    } else if d == 8 {
        '8'
    } else {
        '9'
    }
}

/// The usual decimal rendering of `n`: no sign, no leading zero except
/// for `n == 0` itself.
pub open spec fn spec_decimal(n: nat) -> Seq<char>
    decreases n,
{
    if n < 10 {
        seq![digit_char(n as int)]
    } else {
        spec_decimal(n / 10) + seq![digit_char((n % 10) as int)]
    }
}

/// One decimal digit as a string slice.
fn digit_str(d: u16) -> (r: &'static str)
    requires
        d < 10,
    ensures
        r@ == seq![digit_char(d as int)],
{
    proof {
        reveal_strlit("0");
        reveal_strlit("1");
        reveal_strlit("2");
        reveal_strlit("3");
        reveal_strlit("4");
        reveal_strlit("5");
        reveal_strlit("6");
        reveal_strlit("7");
        reveal_strlit("8");
        reveal_strlit("9");
    }
    let r: &'static str = if d == 0 {
        "0"
    } else if d == 1 {
        "1"
    } else if d == 2 {
        "2"
    } else if d == 3 {
        "3"
    } else if d == 4 {
        "4"
    } else if d == 5 {
        "5"
    } else if d == 6 {
        "6"
    } else if d == 7 {
        "7"
    } else if d == 8 {
        "8"
    } else {
        "9"
    };
    proof {
        assert(r@ =~= seq![digit_char(d as int)]);
    }
    r
}

/// Renders `n` in decimal.
pub fn decimal_string(n: u16) -> (r: String)
    ensures
        r@ == spec_decimal(n as nat),
    decreases n,
{
    if n < 10 {
        let mut s = String::new();
        s.append(digit_str(n));
        proof {
            assert(s@ =~= spec_decimal(n as nat));
        }
        s
    } else {
        let mut s = decimal_string(n / 10);
        s.append(digit_str(n % 10));
        s
    }
}

/// The login notice a client receives right after its connection is
/// accepted.
pub open spec fn spec_login_line(id: u16) -> Seq<char> {
    "LOGIN:"@ + spec_decimal(id as nat) + "\n"@
}

/// The message every other client receives when the client `id` sends
/// `text`.
pub open spec fn spec_message_line(id: u16, text: Seq<char>) -> Seq<char> {
    "MESSAGE:"@ + spec_decimal(id as nat) + " "@ + text + "\n"@
}

/// The acknowledgement the sender of a line receives.
pub open spec fn spec_ack_line() -> Seq<char> {
    "ACK:MESSAGE\n"@
}

/// Builds the `LOGIN:<id>` line, newline-terminated.
pub fn login_line(id: u16) -> (r: String)
    ensures
        r@ == spec_login_line(id),
{
    let mut s = String::new();
    s.append("LOGIN:");
    let digits = decimal_string(id);
    s.append(digits.as_str());
    s.append("\n");
    proof {
        assert(s@ =~= spec_login_line(id));
    }
    s
}

/// Builds the `MESSAGE:<id> <text>` line, newline-terminated.
pub fn message_line(id: u16, text: &str) -> (r: String)
    ensures
        r@ == spec_message_line(id, text@),
{
    let mut s = String::new();
    s.append("MESSAGE:");
    let digits = decimal_string(id);
    s.append(digits.as_str());
    s.append(" ");
    s.append(text);
    s.append("\n");
    proof {
        assert(s@ =~= spec_message_line(id, text@));
    }
    s
}

/// Builds the `ACK:MESSAGE` line, newline-terminated.
pub fn ack_line() -> (r: String)
    ensures
        r@ == spec_ack_line(),
{
    let mut s = String::new();
    s.append("ACK:MESSAGE\n");
    proof {
        assert(s@ =~= spec_ack_line());
    }
    s
}

/// Whether `c` is a decimal digit.
pub open spec fn is_digit(c: char) -> bool {
    '0' as int <= c as int <= '9' as int
}

/// The value of the digit `c`.
pub open spec fn digit_value(c: char) -> int {
    c as int - '0' as int
}

/// Whether every character of `s` is a decimal digit.
pub open spec fn all_digits(s: Seq<char>) -> bool {
    forall|i: int| 0 <= i < s.len() ==> is_digit(#[trigger] s[i])
}

/// The number denoted by the digit string `s`, read most significant
/// digit first. The empty string denotes zero.
pub open spec fn dec_value(s: Seq<char>) -> int
    decreases s.len(),
{
    if s.len() == 0 {
        0
    } else {
        dec_value(s.drop_last()) * 10 + digit_value(s.last())
    }
}

/// The digits of a number argument: everything after an optional
/// leading `+`.
pub open spec fn parse_body(s: Seq<char>) -> Seq<char> {
    if s.len() > 0 && s[0] == '+' {
        s.skip(1)
    } else {
        s
    }
}

/// What parsing a port argument yields: an optional leading `+`, then at
/// least one digit, and a value that fits in sixteen bits; anything else
/// is rejected.
pub open spec fn spec_parse_u16(s: Seq<char>) -> Option<u16> {
    let body = parse_body(s);
    if body.len() > 0 && all_digits(body) && dec_value(body) <= u16::MAX {
        Some(dec_value(body) as u16)
    } else {
        None
    }
}

/// A digit string denotes a non-negative number.
proof fn lemma_dec_value_nonneg(s: Seq<char>)
    requires
        all_digits(s),
    ensures
        dec_value(s) >= 0,
    decreases s.len(),
{
    if s.len() > 0 {
        assert(all_digits(s.drop_last()));
        lemma_dec_value_nonneg(s.drop_last());
    }
}

/// Reading one more digit never makes the denoted number smaller.
proof fn lemma_dec_value_grows(s: Seq<char>, i: int, j: int)
    requires
        0 <= i <= j <= s.len(),
        all_digits(s),
    ensures
        dec_value(s.take(i)) <= dec_value(s.take(j)),
    decreases j - i,
{
    if i < j {
        lemma_dec_value_grows(s, i, j - 1);
        assert(s.take(j).drop_last() =~= s.take(j - 1));
        assert(all_digits(s.take(j - 1)));
        lemma_dec_value_nonneg(s.take(j - 1));
    }
}

/// Parses a decimal number that fits in sixteen bits, allowing one
/// leading `+`, exactly as `spec_parse_u16` describes.
pub fn parse_u16(s: &str) -> (r: Option<u16>)
    ensures
        r == spec_parse_u16(s@),
{
    let len = s.unicode_len();
    if len == 0 {
        return None;
    }
    let first = s.get_char(0);
    let start: usize = if first == '+' {
        1
    } else {
        0
    };
    let ghost body: Seq<char> = if first == '+' {
        s@.skip(1)
    } else {
        s@
    };
    proof {
        assert(body =~= s@.subrange(start as int, len as int));
    }
    if start == len {
        return None;
    }
    let mut acc: u32 = 0;
    let mut i: usize = start;
    while i < len
        invariant
            start <= i <= len,
            len == s@.len(),
            start <= 1,
            body == parse_body(s@),
            body == s@.subrange(start as int, len as int),
            acc <= 0xFFFF,
            all_digits(body.take(i - start)),
            acc == dec_value(body.take(i - start)),
        decreases len - i,
    {
        let c = s.get_char(i);
        let cv: u32 = c as u32;
        proof {
            assert(body[i - start] == s@[i as int]);
        }
        if cv < 48 || cv > 57 {
            proof {
                assert(!is_digit(body[i - start]));
                assert(!all_digits(body));
            }
            return None;
        }
        let d: u32 = cv - 48;
        let next: u32 = acc * 10 + d;
        proof {
            assert(body.take(i + 1 - start).drop_last() =~= body.take(i - start));
            assert(body.take(i + 1 - start).last() == body[i - start]);
            assert(next == dec_value(body.take(i + 1 - start)));
        }
        if next > 0xFFFF {
            proof {
                if all_digits(body) {
                    lemma_dec_value_grows(body, i + 1 - start, body.len() as int);
                    assert(body.take(body.len() as int) =~= body);
                    assert(dec_value(body) > u16::MAX);
                }
            }
            return None;
        }
        acc = next;
        i = i + 1;
    }
    proof {
        assert(body.take(i - start) =~= body);
    }
    Some(acc as u16)
}

/// Picks the listen port: the argument if it parses as a sixteen-bit
/// number, the default 8888 otherwise or when no argument was given.
pub fn port_or_default(arg: Option<&str>) -> (p: u16)
    ensures
        p == match arg {
            None => 8888u16,
            Some(s) => match spec_parse_u16(s@) {
                Some(v) => v,
                None => 8888u16,
            },
        },
{
    match arg {
        None => 8888,
        Some(s) => match parse_u16(s) {
            Some(v) => v,
            None => 8888,
        },
    }
}

} // verus!

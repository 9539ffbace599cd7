//! The text of the outbound HTTP requests the bot sends: a reply posted
//! when an alarm fires, and a reaction acknowledging a request. Only the
//! request text is built here; sending it is the caller's affair.

use vstd::prelude::*;
use vstd::string::StringExecFns;
use vstd::string::StrSliceExecFns;

use crate::alarm::{Alarm, AlarmView};
use crate::json::parse::push_char;

verus! {

/// A character as it stands inside a JSON string literal: a backslash
/// or a quote gets a backslash before it, any other character stands as
/// it is.
pub open spec fn escaped_char(c: char) -> Seq<char> {
    if c == '\\' {
        seq!['\\', '\\']
    } else if c == '"' {
        seq!['\\', '"']
    } else {
        seq![c]
    }
}

/// The characters as they stand inside a JSON string literal.
pub open spec fn spec_sanitize(s: Seq<char>) -> Seq<char>
    decreases s.len(),
{
    if s.len() == 0 {
        Seq::empty()
    } else {
        spec_sanitize(s.drop_last()) + escaped_char(s.last())
    }
}

/// Escapes a string for use inside a JSON string literal: backslashes
/// and quotes get a backslash before them.
pub fn sanitize(input: String) -> (r: String)
    ensures
        r@ == spec_sanitize(input@),
{
    let s = input.as_str();
    let n = s.unicode_len();
    let mut out = String::new();
    let mut i: usize = 0;
    while i < n
        invariant
            0 <= i <= n,
            n == s@.len(),
            s@ == input@,
            out@ == spec_sanitize(s@.subrange(0, i as int)),
        decreases n - i,
    {
        let c = s.get_char(i);
        proof {
            assert(s@.subrange(0, i + 1 as int).drop_last() =~= s@.subrange(0, i as int));
            assert(s@.subrange(0, i + 1 as int).last() == s@[i as int]);
        }
        if c == '\\' {
            push_char(&mut out, '\\');
            push_char(&mut out, '\\');
            proof {
                assert(out@ =~= spec_sanitize(s@.subrange(0, i + 1 as int)));
            }
        } else if c == '"' {
            push_char(&mut out, '\\');
            push_char(&mut out, '"');
            proof {
                assert(out@ =~= spec_sanitize(s@.subrange(0, i + 1 as int)));
            }
        } else {
            push_char(&mut out, c);
            proof {
                assert(out@ =~= spec_sanitize(s@.subrange(0, i + 1 as int)));
            }
        }
        i += 1;
    }
    proof {
        assert(s@.subrange(0, n as int) =~= s@);
    }
    out
}

/// The digit character for a value below ten.
pub open spec fn digit_char(d: nat) -> char {
    ((0x30 + d) as u32) as char
}

/// The decimal rendering of a number, most significant digit first.
pub open spec fn spec_decimal(n: nat) -> Seq<char>
    decreases n,
{
    if n < 10 {
        seq![digit_char(n)]
    } else {
        spec_decimal(n / 10).push(digit_char(n % 10))
    }
}

/// The decimal rendering of a number.
fn decimal_string(n: u64) -> (r: String)
    ensures
        r@ == spec_decimal(n as nat),
    decreases n,
{
    if n < 10 {
        let mut s = String::new();
        push_char(&mut s, digit_char_of(n));
        proof {
            assert(s@ =~= seq![digit_char(n as nat)]);
        }
        s
    } else {
        let mut s = decimal_string(n / 10);
        push_char(&mut s, digit_char_of(n % 10));
        proof {
            assert(s@ =~= spec_decimal((n / 10) as nat).push(digit_char((n % 10) as nat)));
        }
        s
    }
}

/// The digit character for a value below ten.
fn digit_char_of(d: u64) -> (c: char)
    requires
        d < 10,
    ensures
        c == digit_char(d as nat),
{
    let code: u32 = 0x30 + (d as u32);
    let c = crate::json::parse::char_from_u32(code);
    match c {
        Some(ch) => {
            proof {
                vstd::utf8::char_u32_cast(ch, code);
            }
            ch
        },
        None => {
            // a code below 0x3a is always a scalar value; never taken
            proof {
                assert(false);
            }
            '0'
        },
    }
}

/// The body of the message posted when an alarm fires: the reminder text
/// as content, replying to the message that asked for it.
pub open spec fn spec_post_alarm_body(a: AlarmView) -> Seq<char> {
    "{\"content\":\""@ + spec_sanitize(a.what) + "\",\"replies\":[{\"id\":\""@ + spec_sanitize(
        a.message_id,
    ) + "\",\"mention\":true,\"fail_if_not_exists\":false}]}"@
}

/// The full request that posts an alarm's reply: an HTTP `POST` to the
/// alarm's channel, its length header counting the body's bytes.
pub open spec fn spec_post_alarm_request(a: AlarmView, endpoint: Seq<char>, token: Seq<char>) -> Seq<
    char,
> {
    let body = spec_post_alarm_body(a);
    "POST /channels/"@ + spec_sanitize(a.channel_id) + "/messages HTTP/1.0\r\nHost: "@ + endpoint
        + "\r\nContent-Length: "@ + spec_decimal(
        (vstd::utf8::encode_utf8(body).len() as usize) as nat,
    ) + ("\r\nX-Bot-Token: "@) + token + "\r\n\r\n"@ + body
}

/// The request that acknowledges a reminder request: an HTTP `PUT` of a
/// reaction onto the requesting message.
pub open spec fn spec_react_request(
    channel: Seq<char>,
    message: Seq<char>,
    emoji: Seq<char>,
    endpoint: Seq<char>,
    token: Seq<char>,
) -> Seq<char> {
    "PUT /channels/"@ + channel + "/messages/"@ + message + "/reactions/"@ + emoji + (
    " HTTP/1.0\r\nHost: "@) + endpoint + "\r\nX-Bot-Token: "@ + token + "\r\n\r\n"@
}

/// Builds the text of the reply-posting request for a fired alarm. The
/// caller opens the connection to `endpoint` and sends it.
pub fn post_alarm_request(alarm: Alarm, endpoint: &str, token: &str) -> (r: String)
    ensures
        r@ == spec_post_alarm_request(alarm@, endpoint@, token@),
{
    let message = sanitize(alarm.what);
    let channel = sanitize(alarm.channel_id);
    let reply_to = sanitize(alarm.message_id);

    let mut body = String::new();
    body.append("{\"content\":\"");
    body.append(message.as_str());
    body.append("\",\"replies\":[{\"id\":\"");
    body.append(reply_to.as_str());
    body.append("\",\"mention\":true,\"fail_if_not_exists\":false}]}");

    proof {
        assert(body@ =~= spec_post_alarm_body(alarm@));
    }
    let length = decimal_string(body.as_str().len() as u64);

    let mut request = String::new();
    request.append("POST /channels/");
    request.append(channel.as_str());
    request.append("/messages HTTP/1.0\r\nHost: ");
    request.append(endpoint);
    request.append("\r\nContent-Length: ");
    request.append(length.as_str());
    request.append("\r\nX-Bot-Token: ");
    request.append(token);
    request.append("\r\n\r\n");
    request.append(body.as_str());
    proof {
        assert(body@ =~= spec_post_alarm_body(alarm@));
        assert(request@ =~= spec_post_alarm_request(alarm@, endpoint@, token@));
    }
    request
}

/// Builds the text of the reaction request for a just-received reminder
/// request. The caller opens the connection to `endpoint` and sends it.
pub fn react_request(channel: &str, message: &str, emoji: &str, endpoint: &str, token: &str) -> (r:
    String)
    ensures
        r@ == spec_react_request(channel@, message@, emoji@, endpoint@, token@),
{
    let mut request = String::new();
    request.append("PUT /channels/");
    request.append(channel);
    request.append("/messages/");
    request.append(message);
    request.append("/reactions/");
    request.append(emoji);
    request.append(" HTTP/1.0\r\nHost: ");
    request.append(endpoint);
    request.append("\r\nX-Bot-Token: ");
    request.append(token);
    request.append("\r\n\r\n");
    proof {
        assert(request@ =~= spec_react_request(channel@, message@, emoji@, endpoint@, token@));
    }
    request
}

} // verus!

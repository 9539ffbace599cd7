//! A reminder request extracted from a chat message: when to fire, what
//! to say, and where to reply.
//!
//! A message reads like `@bot in 2d12h5m30s wish mom a happy birthday`:
//! everything before the first `in ` is ignored, the word after it is a
//! duration, and the rest is the reminder text. Times are modelled as
//! seconds since the Unix epoch; the sums and products that build the
//! duration wrap at 64 bits, a deliberate choice where the inputs
//! overflow.

use vstd::prelude::*;
use vstd::string::StrSliceExecFns;

use crate::json::parse::push_char;
use crate::json::{Object, Value, ValueView};

verus! {

/// A pending reminder: the epoch second it is due, its text, and the
/// channel and message it answers.
#[derive(Debug)]
pub struct Alarm {
    pub when: u64,
    pub what: String,
    pub channel_id: String,
    pub message_id: String,
}

/// The mathematical form of an `Alarm`.
pub struct AlarmView {
    pub when: u64,
    pub what: Seq<char>,
    pub channel_id: Seq<char>,
    pub message_id: Seq<char>,
}

impl View for Alarm {
    type V = AlarmView;

    open spec fn view(&self) -> AlarmView {
        AlarmView {
            when: self.when,
            what: self.what@,
            channel_id: self.channel_id@,
            message_id: self.message_id@,
        }
    }
}

/// An ASCII decimal digit character.
pub open spec fn is_digit_char(c: char) -> bool {
    0x30 <= c as u32 <= 0x39
}

/// The first position at or after `j` where the marker `in ` begins, or
/// `None`.
pub open spec fn find_marker(s: Seq<char>, j: int) -> Option<int>
    decreases s.len() - j,
{
    if j + 3 > s.len() {
        None
    } else if s[j] == 'i' && s[j + 1] == 'n' && s[j + 2] == ' ' {
        Some(j)
    } else {
        find_marker(s, j + 1)
    }
}

/// The first position at or after `j` holding `a` or `b`, or `None`.
pub open spec fn find_char_pair(s: Seq<char>, j: int, a: char, b: char) -> Option<int>
    decreases s.len() - j,
{
    if j >= s.len() {
        None
    } else if s[j] == a || s[j] == b {
        Some(j)
    } else {
        find_char_pair(s, j + 1, a, b)
    }
}

/// The decimal value of a digit string, read left to right.
pub open spec fn chars_value(s: Seq<char>) -> int
    decreases s.len(),
{
    if s.len() == 0 {
        0
    } else {
        chars_value(s.drop_last()) * 10 + (s.last() as u32 - 0x30)
    }
}

/// Every character is an ASCII decimal digit.
pub open spec fn all_digit_chars(s: Seq<char>) -> bool {
    forall|i: int| 0 <= i < s.len() ==> is_digit_char(s[i])
}

/// The digits of an unsigned decimal literal: a single leading `+` is
/// allowed and dropped, as the standard library's `u64` parser does.
pub open spec fn u64_literal_chars(s: Seq<char>) -> Seq<char> {
    if s.len() > 0 && s[0] == '+' {
        s.subrange(1, s.len() as int)
    } else {
        s
    }
}

/// Whether the standard library would read the string as a `u64`: after
/// an optional `+`, one or more digits whose value fits in 64 bits.
pub open spec fn parses_as_u64(s: Seq<char>) -> bool {
    let d = u64_literal_chars(s);
    d.len() > 0 && all_digit_chars(d) && chars_value(d) <= u64::MAX
}

/// The value of a digit string is at least the value of any of its
/// prefixes, and never negative.
proof fn lemma_chars_value_mono(d: Seq<char>, j: int)
    requires
        all_digit_chars(d),
        0 <= j <= d.len(),
    ensures
        chars_value(d) >= chars_value(d.subrange(0, j)) >= 0,
    decreases d.len(),
{
    if d.len() == 0 {
        assert(d.subrange(0, j) =~= d);
    } else {
        let dl = d.drop_last();
        assert(all_digit_chars(dl));
        lemma_chars_value_mono(dl, if j <= dl.len() {
            j
        } else {
            dl.len() as int
        });
        if j <= dl.len() {
            assert(d.subrange(0, j) =~= dl.subrange(0, j));
        } else {
            assert(d.subrange(0, j) =~= d);
        }
        assert(is_digit_char(d.last()));
    }
}

/// One duration component: where `a` or `b` first occurs, the characters
/// before it must read as a `u64` count, and what follows the unit letter
/// is handed on; where neither occurs, the count is zero and the string
/// is handed on whole. A count that does not read as a `u64` aborts.
pub open spec fn spec_unit(timer: Seq<char>, a: char, b: char) -> Option<(u64, Seq<char>)> {
    match find_char_pair(timer, 0, a, b) {
        None => Some((0u64, timer)),
        Some(i) => {
            let num = timer.subrange(0, i);
            if parses_as_u64(num) {
                Some(
                    (
                        chars_value(u64_literal_chars(num)) as u64,
                        timer.subrange(i + 1, timer.len() as int),
                    ),
                )
            } else {
                None
            }
        },
    }
}

/// The seconds denoted by the duration components, each product and the
/// sum wrapping at 64 bits.
pub open spec fn spec_total_seconds(days: u64, hours: u64, mins: u64, secs: u64) -> u64 {
    vstd::wrapping::u64_specs::wrapping_add(
        vstd::wrapping::u64_specs::wrapping_add(
            vstd::wrapping::u64_specs::wrapping_add(
                vstd::wrapping::u64_specs::wrapping_mul(days, 86400),
                vstd::wrapping::u64_specs::wrapping_mul(hours, 3600),
            ),
            vstd::wrapping::u64_specs::wrapping_mul(mins, 60),
        ),
        secs,
    )
}

/// What a message text denotes: everything before the first `in ` is
/// ignored; the word after it, up to the first space, is read as day,
/// hour, minute and second components in that order; the rest of the
/// text is the reminder. `None` when the marker, the space, or a
/// readable count is missing.
pub open spec fn spec_parse_timer(t: Seq<char>) -> Option<(u64, Seq<char>)> {
    match find_marker(t, 0) {
        None => None,
        Some(idx) => {
            let timer0 = t.subrange(idx + 3, t.len() as int);
            match find_char_pair(timer0, 0, ' ', ' ') {
                None => None,
                Some(sp) => {
                    let message = timer0.subrange(sp + 1, timer0.len() as int);
                    let timer1 = timer0.subrange(0, sp + 1);
                    match spec_unit(timer1, 'd', 'D') {
                        None => None,
                        Some((days, t2)) => match spec_unit(t2, 'h', 'H') {
                            None => None,
                            Some((hours, t3)) => match spec_unit(t3, 'm', 'M') {
                                None => None,
                                Some((mins, t4)) => match spec_unit(t4, 's', 'S') {
                                    None => None,
                                    Some((secs, t5)) => Some(
                                        (spec_total_seconds(days, hours, mins, secs), message),
                                    ),
                                },
                            },
                        },
                    }
                },
            }
        },
    }
}

/// The alarm a message map denotes at time `now`: its `channel`, `_id`
/// and `content` entries must all be strings, and the content must hold
/// a timer; the alarm is due `content`'s duration after `now`, wrapping
/// at 64 bits.
pub open spec fn spec_from_message(m: Map<Seq<char>, ValueView>, now: u64) -> Option<AlarmView> {
    if m.dom().contains("channel"@) && (m["channel"@] matches ValueView::Str(_))
        && m.dom().contains("_id"@) && (m["_id"@] matches ValueView::Str(_)) && m.dom().contains(
        "content"@,
    ) && (m["content"@] matches ValueView::Str(_)) {
        let channel_id = m["channel"@]->Str_0;
        let message_id = m["_id"@]->Str_0;
        let content = m["content"@]->Str_0;
        match spec_parse_timer(content) {
            None => None,
            Some((secs, what)) => Some(
                AlarmView {
                    when: vstd::wrapping::u64_specs::wrapping_add(now, secs),
                    what,
                    channel_id,
                    message_id,
                },
            ),
        }
    } else {
        None
    }
}

/// The mathematical reading of an optional alarm.
pub open spec fn alarm_option_view(r: Option<Alarm>) -> Option<AlarmView> {
    match r {
        Some(a) => Some(a@),
        None => None,
    }
}

/// The characters of a string slice, in order.
fn str_chars(s: &str) -> (out: Vec<char>)
    ensures
        out@ == s@,
{
    let n = s.unicode_len();
    let mut out: Vec<char> = Vec::new();
    let mut i: usize = 0;
    while i < n
        invariant
            0 <= i <= n,
            n == s@.len(),
            out@ == s@.subrange(0, i as int),
        decreases n - i,
    {
        out.push(s.get_char(i));
        proof {
            assert(s@.subrange(0, i + 1 as int) =~= s@.subrange(0, i as int).push(s@[i as int]));
        }
        i += 1;
    }
    proof {
        assert(s@.subrange(0, n as int) =~= s@);
    }
    out
}

/// A string holding the given characters, in order.
fn chars_to_string(v: &[char]) -> (out: String)
    ensures
        out@ == v@,
{
    let mut out = String::new();
    let mut i: usize = 0;
    let n = v.len();
    while i < n
        invariant
            0 <= i <= n,
            n == v@.len(),
            out@ == v@.subrange(0, i as int),
        decreases n - i,
    {
        push_char(&mut out, v[i]);
        proof {
            assert(v@.subrange(0, i + 1 as int) =~= v@.subrange(0, i as int).push(v@[i as int]));
        }
        i += 1;
    }
    proof {
        assert(v@.subrange(0, n as int) =~= v@);
    }
    out
}

/// The characters of `v` from `lo` up to `hi`.
fn copy_range(v: &[char], lo: usize, hi: usize) -> (out: Vec<char>)
    requires
        lo <= hi <= v@.len(),
    ensures
        out@ == v@.subrange(lo as int, hi as int),
{
    let mut out: Vec<char> = Vec::new();
    let mut i: usize = lo;
    while i < hi
        invariant
            lo <= i <= hi <= v@.len(),
            out@ == v@.subrange(lo as int, i as int),
        decreases hi - i,
    {
        out.push(v[i]);
        proof {
            assert(v@.subrange(lo as int, i + 1 as int) =~= v@.subrange(lo as int, i as int).push(
                v@[i as int],
            ));
        }
        i += 1;
    }
    out
}

/// The first position where the marker `in ` begins, or `None`.
fn find_marker_vec(v: &[char]) -> (r: Option<usize>)
    ensures
        match r {
            Some(i) => find_marker(v@, 0) == Some(i as int),
            None => find_marker(v@, 0) is None,
        },
{
    let n = v.len();
    let mut j: usize = 0;
    while n - j >= 3
        invariant
            0 <= j <= n,
            n == v@.len(),
            find_marker(v@, 0) == find_marker(v@, j as int),
        decreases n - j,
    {
        if v[j] == 'i' && v[j + 1] == 'n' && v[j + 2] == ' ' {
            return Some(j);
        }
        j += 1;
    }
    None
}

/// The first position holding `a` or `b`, or `None`.
fn find_pair_vec(v: &[char], a: char, b: char) -> (r: Option<usize>)
    ensures
        match r {
            Some(i) => find_char_pair(v@, 0, a, b) == Some(i as int),
            None => find_char_pair(v@, 0, a, b) is None,
        },
{
    let n = v.len();
    let mut j: usize = 0;
    while j < n
        invariant
            0 <= j <= n,
            n == v@.len(),
            find_char_pair(v@, 0, a, b) == find_char_pair(v@, j as int, a, b),
        decreases n - j,
    {
        if v[j] == a || v[j] == b {
            return Some(j);
        }
        j += 1;
    }
    None
}

/// Reads the characters as the standard library reads a `u64`: an
/// optional `+`, then digits; `None` on any other character, on an empty
/// count, and on a value past 64 bits.
fn parse_u64_chars(num: &[char]) -> (r: Option<u64>)
    ensures
        match r {
            Some(v) => parses_as_u64(num@) && v == chars_value(u64_literal_chars(num@)),
            None => !parses_as_u64(num@),
        },
{
    let ghost d = u64_literal_chars(num@);
    let n = num.len();
    let start: usize = if n > 0 && num[0] == '+' {
        1
    } else {
        0
    };
    proof {
        assert(d =~= num@.subrange(start as int, n as int));
    }
    if n == start {
        return None;
    }
    let mut acc: u64 = 0;
    let mut k = start;
    while k < n
        invariant
            start <= k <= n,
            n == num@.len(),
            d == num@.subrange(start as int, n as int),
            d == u64_literal_chars(num@),
            d.len() > 0,
            forall|m: int| start <= m < k ==> is_digit_char(num@[m]),
            acc == chars_value(num@.subrange(start as int, k as int)),
        decreases n - k,
    {
        let c = num[k];
        let u = c as u32;
        if !(0x30 <= u && u <= 0x39) {
            proof {
                assert(d[k - start] == num@[k as int]);
                assert(!all_digit_chars(d));
            }
            return None;
        }
        let dd = (u - 0x30) as u64;
        proof {
            assert(num@.subrange(start as int, k + 1 as int) =~= num@.subrange(
                start as int,
                k as int,
            ).push(num@[k as int]));
            assert(num@.subrange(start as int, k + 1 as int).drop_last() =~= num@.subrange(
                start as int,
                k as int,
            ));
            assert(num@.subrange(start as int, k + 1 as int).last() == num@[k as int]);
        }
        let next = match acc.checked_mul(10) {
            Some(x) => match x.checked_add(dd) {
                Some(y) => y,
                None => {
                    proof {
                        overflow_means_no_u64(num@, start as int, k as int);
                    }
                    return None;
                },
            },
            None => {
                proof {
                    overflow_means_no_u64(num@, start as int, k as int);
                }
                return None;
            },
        };
        acc = next;
        k += 1;
    }
    proof {
        assert(forall|m: int| 0 <= m < d.len() ==> d[m] == num@[m + start]);
    }
    Some(acc)
}

/// When the accumulated prefix overflows 64 bits at digit `k`, the whole
/// string cannot read as a `u64`.
proof fn overflow_means_no_u64(s: Seq<char>, start: int, k: int)
    requires
        0 <= start <= k < s.len(),
        forall|m: int| start <= m < k ==> is_digit_char(s[m]),
        is_digit_char(s[k]),
        chars_value(s.subrange(start, k)) * 10 + (s[k] as u32 - 0x30) > u64::MAX,
    ensures
        !parses_as_u64(s.subrange(start, s.len() as int)),
{
    let d = s.subrange(start, s.len() as int);
    if all_digit_chars(d) {
        assert(s.subrange(start, k + 1) =~= s.subrange(start, k).push(s[k]));
        assert(s.subrange(start, k + 1).drop_last() =~= s.subrange(start, k));
        assert(s.subrange(start, k + 1).last() == s[k]);
        assert(chars_value(s.subrange(start, k + 1)) > u64::MAX);
        assert(d.subrange(0, k + 1 - start) =~= s.subrange(start, k + 1));
        lemma_chars_value_mono(d, k + 1 - start);
    }
}

impl Alarm {
    /// Reads a reminder text: the duration word after the first `in `
    /// becomes a length in seconds, and what follows that word is the
    /// reminder message.
    pub fn parse_timer(text: &str) -> (r: Option<(u64, String)>)
        ensures
            match r {
                Some((secs, msg)) => spec_parse_timer(text@) == Some::<(u64, Seq<char>)>(
                    (secs, msg@),
                ),
                None => spec_parse_timer(text@) is None,
            },
    {
        let chars = str_chars(text);
        let cn = chars.len();
        let idx = match find_marker_vec(chars.as_slice()) {
            Some(i) => i,
            None => {
                return None;
            },
        };
        proof {
            lemma_find_marker_bounds(text@, 0);
        }
        let timer0 = copy_range(chars.as_slice(), idx + 3, cn);
        let sp = match find_pair_vec(timer0.as_slice(), ' ', ' ') {
            Some(i) => i,
            None => {
                return None;
            },
        };
        proof {
            lemma_find_char_pair_bounds(timer0@, 0, ' ', ' ');
        }
        let message = copy_range(timer0.as_slice(), sp + 1, timer0.len());
        let timer1 = copy_range(timer0.as_slice(), 0, sp + 1);

        let (days, timer2) = match Self::take_unit(timer1, 'd', 'D') {
            Some(p) => p,
            None => {
                return None;
            },
        };
        let (hours, timer3) = match Self::take_unit(timer2, 'h', 'H') {
            Some(p) => p,
            None => {
                return None;
            },
        };
        let (mins, timer4) = match Self::take_unit(timer3, 'm', 'M') {
            Some(p) => p,
            None => {
                return None;
            },
        };
        let (secs, _timer5) = match Self::take_unit(timer4, 's', 'S') {
            Some(p) => p,
            None => {
                return None;
            },
        };
        let total = days.wrapping_mul(86400).wrapping_add(hours.wrapping_mul(3600)).wrapping_add(
            mins.wrapping_mul(60),
        ).wrapping_add(secs);
        Some((total, chars_to_string(message.as_slice())))
    }

    /// One duration component of the timer word, as `spec_unit` says.
    fn take_unit(timer: Vec<char>, a: char, b: char) -> (r: Option<(u64, Vec<char>)>)
        ensures
            match r {
                Some(p) => spec_unit(timer@, a, b) == Some::<(u64, Seq<char>)>((p.0, p.1@)),
                None => spec_unit(timer@, a, b) is None,
            },
    {
        match find_pair_vec(timer.as_slice(), a, b) {
            None => Some((0, timer)),
            Some(i) => {
                proof {
                    lemma_find_char_pair_bounds(timer@, 0, a, b);
                }
                let tn = timer.len();
                let num = copy_range(timer.as_slice(), 0, i);
                match parse_u64_chars(num.as_slice()) {
                    None => None,
                    Some(v) => {
                        let rest = copy_range(timer.as_slice(), i + 1, tn);
                        Some((v, rest))
                    },
                }
            },
        }
    }

    /// The alarm denoted by a decoded chat message at time `now`: the
    /// `channel`, `_id` and `content` entries must be strings and the
    /// content must hold a timer, else `None`.
    #[verifier::rlimit(100)]
    #[verifier::spinoff_prover]
    pub fn from_message_at(message: Object, now: u64) -> (r: Option<Alarm>)
        ensures
            alarm_option_view(r) == spec_from_message(message@, now),
    {
        proof {
            lemma_message_keys_distinct();
        }
        let mut message = message;
        let channel_id = match message.remove("channel") {
            Some(v) => match v {
                Value::String(s) => s,
                other => {
                    proof {
                        lemma_non_string_view(other);
                    }
                    return None;
                },
            },
            None => {
                return None;
            },
        };
        let message_id = match message.remove("_id") {
            Some(v) => match v {
                Value::String(s) => s,
                other => {
                    proof {
                        lemma_non_string_view(other);
                    }
                    return None;
                },
            },
            None => {
                return None;
            },
        };
        let content = match message.remove("content") {
            Some(v) => match v {
                Value::String(s) => s,
                other => {
                    proof {
                        lemma_non_string_view(other);
                    }
                    return None;
                },
            },
            None => {
                return None;
            },
        };
        match Self::parse_timer(content.as_str()) {
            None => None,
            Some((secs, what)) => Some(
                Alarm { when: now.wrapping_add(secs), what, channel_id, message_id },
            ),
        }
    }

    /// The alarm denoted by a decoded chat message, due the message's
    /// duration after the present moment.
    pub fn from_message(message: Object) -> (r: Option<Alarm>)
        ensures
            exists|now: u64| alarm_option_view(r) == spec_from_message(message@, now),
    {
        let t = now_unix_seconds();
        let now: u64 = if t < 0 {
            0
        } else {
            t as u64
        };
        let r = Self::from_message_at(message, now);
        proof {
            assert(alarm_option_view(r) == spec_from_message(message@, now));
        }
        r
    }
}

/// The three keys a reminder message is read from are distinct.
proof fn lemma_message_keys_distinct()
    ensures
        "channel"@ != "_id"@,
        "channel"@ != "content"@,
        "_id"@ != "content"@,
{
    reveal_strlit("channel");
    reveal_strlit("_id");
    reveal_strlit("content");
    assert("channel"@.len() != "_id"@.len());
    assert("channel"@[1] != "content"@[1]);
    assert("_id"@.len() != "content"@.len());
}

/// A value of any variant but `String` never has a string view.
proof fn lemma_non_string_view(v: Value)
    requires
        !(v matches Value::String(_)),
    ensures
        !(v@ matches ValueView::Str(_)),
{
    match v {
        Value::Null => {},
        Value::Boolean(_) => {},
        Value::Number(_) => {},
        Value::String(_) => {},
        Value::Array(_) => {},
        Value::Object(_) => {},
    }
}

/// A found marker lies within the string, with room for its three
/// characters.
pub proof fn lemma_find_marker_bounds(s: Seq<char>, j: int)
    requires
        0 <= j,
    ensures
        find_marker(s, j) matches Some(i) ==> j <= i && i + 3 <= s.len(),
    decreases s.len() - j,
{
    if j + 3 <= s.len() && !(s[j] == 'i' && s[j + 1] == 'n' && s[j + 2] == ' ') {
        lemma_find_marker_bounds(s, j + 1);
    }
}

/// A found character lies within the string.
pub proof fn lemma_find_char_pair_bounds(s: Seq<char>, j: int, a: char, b: char)
    requires
        0 <= j,
    ensures
        find_char_pair(s, j, a, b) matches Some(i) ==> j <= i < s.len(),
    decreases s.len() - j,
{
    if j < s.len() && !(s[j] == a || s[j] == b) {
        lemma_find_char_pair_bounds(s, j + 1, a, b);
    }
}

/// Relies on `chrono::Utc::now`: the present moment, of whose value
/// nothing is assumed, read as seconds since the Unix epoch.
#[verifier::external_body]
fn now_unix_seconds() -> i64 {
    chrono::Utc::now().timestamp()
}

} // verus!

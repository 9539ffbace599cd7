//! The reminder side exercised end to end: timer words, message maps,
//! the alarm bag, the listener's decisions, and the outbound requests.

use alarmbot::alarm::Alarm;
use alarmbot::alarm_heap::AlarmHeap;
use alarmbot::api::{post_alarm_request, react_request, sanitize};
use alarmbot::json::{Object, Value};
use alarmbot::listener::Listener;

fn message_object(channel: &str, id: &str, content: &str) -> Object {
    let mut o = Object::new();
    o.insert("channel".to_string(), Value::String(channel.to_string()));
    o.insert("_id".to_string(), Value::String(id.to_string()));
    o.insert("content".to_string(), Value::String(content.to_string()));
    o
}

#[test]
fn timer_word_with_all_units() {
    let parsed = Alarm::parse_timer("@bot in 2d12h5m30s wish mom a happy birthday");
    let expected_secs = 2 * 86400 + 12 * 3600 + 5 * 60 + 30;
    assert_eq!(parsed, Some((expected_secs, "wish mom a happy birthday".to_string())));
}

#[test]
fn timer_word_seconds_only() {
    assert_eq!(Alarm::parse_timer("in 10s feed dog"), Some((10, "feed dog".to_string())));
    assert_eq!(Alarm::parse_timer("in +5s go"), Some((5, "go".to_string())));
}

#[test]
fn timer_word_without_units_is_zero() {
    assert_eq!(Alarm::parse_timer("in x tea"), Some((0, "tea".to_string())));
}

#[test]
fn timer_failures() {
    // no `in ` marker
    assert_eq!(Alarm::parse_timer("remind me tomorrow"), None);
    // no space after the duration word
    assert_eq!(Alarm::parse_timer("say in 5s"), None);
    // an empty count before the unit letter
    assert_eq!(Alarm::parse_timer("in d now"), None);
    // a count past 64 bits
    assert_eq!(Alarm::parse_timer("in 99999999999999999999d x"), None);
}

#[test]
fn alarm_from_message_map() {
    let msg = message_object("chan9", "msg7", "@bot in 1m5s water garden");
    let alarm = Alarm::from_message_at(msg, 1000).unwrap();
    assert_eq!(alarm.when, 1065);
    assert_eq!(alarm.what, "water garden");
    assert_eq!(alarm.channel_id, "chan9");
    assert_eq!(alarm.message_id, "msg7");
}

#[test]
fn alarm_from_incomplete_message() {
    let mut missing_content = Object::new();
    missing_content.insert("channel".to_string(), Value::String("c".to_string()));
    missing_content.insert("_id".to_string(), Value::String("m".to_string()));
    assert!(Alarm::from_message_at(missing_content, 0).is_none());

    let mut wrong_type = message_object("c", "m", "in 1s x");
    wrong_type.insert("channel".to_string(), Value::Null);
    assert!(Alarm::from_message_at(wrong_type, 0).is_none());
}

#[test]
fn heap_pops_soonest_first() {
    let mk = |when: u64, what: &str| Alarm {
        when,
        what: what.to_string(),
        channel_id: "c".to_string(),
        message_id: "m".to_string(),
    };
    let mut heap = AlarmHeap::default();
    assert!(heap.pop().is_none());
    heap.push(mk(5, "latest"));
    heap.push(mk(1, "soonest"));
    heap.push(mk(3, "middle"));
    assert_eq!(heap.peek().unwrap().when, 1);
    assert_eq!(heap.pop().unwrap().what, "soonest");
    assert_eq!(heap.pop().unwrap().what, "middle");
    assert_eq!(heap.pop().unwrap().what, "latest");
    assert!(heap.pop().is_none());
    assert!(heap.peek().is_none());
}

#[test]
fn sanitize_escapes_quotes_and_backslashes() {
    assert_eq!(sanitize(String::from(r#"a"b\c"#)), r#"a\"b\\c"#);
    assert_eq!(sanitize(String::from("plain")), "plain");
}

#[test]
fn react_request_text() {
    let got = react_request("chan", "msg", "\u{1f44c}", "api.example", "tok");
    let want = format!(
        "PUT /channels/{}/messages/{}/reactions/{} HTTP/1.0\r\nHost: {}\r\nX-Bot-Token: {}\r\n\r\n",
        "chan", "msg", "\u{1f44c}", "api.example", "tok"
    );
    assert_eq!(got, want);
}

#[test]
fn post_alarm_request_text() {
    let alarm = Alarm {
        when: 42,
        what: String::from(r#"say "hi" to c:\temp"#),
        channel_id: String::from("chan"),
        message_id: String::from("msg"),
    };
    let got = post_alarm_request(alarm, "api.example", "tok");
    let escape = |s: &str| s.replace("\\", "\\\\").replace("\"", "\\\"");
    let body = format!(
        r#"{{"content":"{}","replies":[{{"id":"{}","mention":true,"fail_if_not_exists":false}}]}}"#,
        escape(r#"say "hi" to c:\temp"#),
        escape("msg"),
    );
    let want = format!(
        "POST /channels/{}/messages HTTP/1.0\r\nHost: {}\r\nContent-Length: {}\r\nX-Bot-Token: {}\r\n\r\n{}",
        escape("chan"), "api.example", body.len(), "tok", body
    );
    assert_eq!(got, want);
}

#[test]
fn listener_learns_its_id_from_ready() {
    let mut l = Listener::new();
    let frame = br#"{"type":"Ready","users":[{"_id":"BOT1"}]}"#;
    assert!(l.handle_event(frame, 0).is_none());
    assert_eq!(l.bot_id, Some("BOT1".to_string()));
}

#[test]
fn listener_schedules_on_mention() {
    let mut l = Listener::new();
    let ready = br#"{"type":"Ready","users":[{"_id":"BOT1"}]}"#;
    l.handle_event(ready, 0);

    let message = br#"{"type":"Message","mentions":["BOT1"],"channel":"c1","_id":"m1","content":"@bot in 2m tea time"}"#;
    let alarm = l.handle_event(message, 1000).unwrap();
    assert_eq!(alarm.when, 1120);
    assert_eq!(alarm.what, "tea time");
    assert_eq!(alarm.channel_id, "c1");
    assert_eq!(alarm.message_id, "m1");
}

#[test]
fn listener_ignores_other_frames() {
    let mut l = Listener::new();
    // not JSON at all
    assert!(l.handle_event(b"you suck at this, steve.", 0).is_none());
    // a message that mentions somebody else
    l.handle_event(br#"{"type":"Ready","users":[{"_id":"BOT1"}]}"#, 0);
    let other = br#"{"type":"Message","mentions":["OTHER"],"channel":"c","_id":"m","content":"in 1s x"}"#;
    assert!(l.handle_event(other, 0).is_none());
    // a frame with no type
    assert!(l.handle_event(br#"{"mentions":["BOT1"]}"#, 0).is_none());
}

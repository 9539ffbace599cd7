//! What the bot decides on each inbound chat frame: a `Ready` frame
//! teaches it its own identifier, and a `Message` frame that mentions it
//! may request a reminder. The socket that carries the frames lives
//! outside this crate; only the decisions are made here.

use vstd::prelude::*;

use crate::alarm::{alarm_option_view, spec_from_message, Alarm, AlarmView};
use crate::json::model::DEFAULT_MAX_DEPTH;
use crate::json::{
    lemma_view_variants, lemma_views_of, parse_value, str_eq, views_of, Object, Value, ValueView,
};

verus! {

/// The decision state: the bot's own identifier, once a `Ready` frame
/// has told it.
pub struct Listener {
    pub bot_id: Option<String>,
}

/// The mathematical reading of an optional string.
pub open spec fn option_string_view(o: Option<String>) -> Option<Seq<char>> {
    match o {
        Some(s) => Some(s@),
        None => None,
    }
}

/// The bot identifier a `Ready` frame carries: the `_id` of the first
/// entry of its `users` array, when each of those is of the expected
/// form.
pub open spec fn spec_handle_ready(m: Map<Seq<char>, ValueView>) -> Option<Seq<char>> {
    if !m.dom().contains("users"@) {
        None
    } else {
        match m["users"@] {
            ValueView::Array(users) => {
                if users.len() == 0 {
                    None
                } else {
                    match users[0] {
                        ValueView::Object(user) => {
                            if !user.dom().contains("_id"@) {
                                None
                            } else {
                                match user["_id"@] {
                                    ValueView::Str(id) => Some(id),
                                    _ => None,
                                }
                            }
                        },
                        _ => None,
                    }
                }
            },
            _ => None,
        }
    }
}

/// Whether some element of the array is exactly the string `b`.
pub open spec fn spec_mentioned(mentions: Seq<ValueView>, b: Seq<char>) -> bool {
    exists|j: int| 0 <= j < mentions.len() && mentions[j] == ValueView::Str(b)
}

/// What one inbound frame decides, given the current bot identifier and
/// the present moment: the identifier afterwards, and the alarm to
/// schedule, if any. A frame that is not a JSON object, or carries no
/// string `type`, decides nothing. A `Ready` frame may set the
/// identifier; a `Message` frame whose `mentions` array holds the
/// identifier may yield an alarm.
pub open spec fn spec_handle_event(
    bot: Option<Seq<char>>,
    data: Seq<u8>,
    now: u64,
) -> (Option<Seq<char>>, Option<AlarmView>) {
    match crate::json::model::spec_parse_value(data, 0, DEFAULT_MAX_DEPTH as nat) {
        Ok((v, end)) => match v {
            ValueView::Object(m) => {
                if m.dom().contains("type"@) && (m["type"@] matches ValueView::Str(_)) {
                    let ty = m["type"@]->Str_0;
                    if ty == "Ready"@ {
                        (
                            match spec_handle_ready(m) {
                                Some(id) => Some(id),
                                None => bot,
                            },
                            None,
                        )
                    } else if ty == "Message"@ {
                        if m.dom().contains("mentions"@) && (m["mentions"@]
                            matches ValueView::Array(_)) && (bot matches Some(_))
                            && spec_mentioned(m["mentions"@]->Array_0, bot->Some_0) {
                            (bot, spec_from_message(m, now))
                        } else {
                            (bot, None)
                        }
                    } else {
                        (bot, None)
                    }
                } else {
                    (bot, None)
                }
            },
            _ => (bot, None),
        },
        Err(_) => (bot, None),
    }
}

impl Listener {
    /// A listener that does not know its identifier yet.
    pub fn new() -> (r: Listener)
        ensures
            r.bot_id is None,
    {
        Listener { bot_id: None }
    }

    /// Learns the bot's identifier from a `Ready` frame; `true` exactly
    /// when the frame had the expected form and the identifier was
    /// taken.
    pub fn handle_ready(&mut self, ready: Object) -> (r: bool)
        ensures
            match spec_handle_ready(ready@) {
                Some(id) => r && option_string_view(final(self).bot_id) == Some(id),
                None => !r && final(self).bot_id == old(self).bot_id,
            },
    {
        let users = match ready.get("users") {
            Some(v) => match v {
                Value::Array(users) => users,
                other => {
                    proof {
                        lemma_view_variants(*other);
                    }
                    return false;
                },
            },
            None => {
                return false;
            },
        };
        proof {
            lemma_views_of(users@);
        }
        if users.len() == 0 {
            return false;
        }
        let user = match &users[0] {
            Value::Object(user) => user,
            other => {
                proof {
                    lemma_view_variants(*other);
                }
                return false;
            },
        };
        let id = match user.get("_id") {
            Some(v) => match v {
                Value::String(id) => id,
                other => {
                    proof {
                        lemma_view_variants(*other);
                    }
                    return false;
                },
            },
            None => {
                return false;
            },
        };
        self.bot_id = Some(id.clone());
        true
    }

    /// Decides on one inbound frame at the present moment `now`: a
    /// `Ready` frame may teach the listener its identifier; a `Message`
    /// frame that mentions the identifier yields the alarm to schedule.
    pub fn handle_event(&mut self, data: &[u8], now: u64) -> (r: Option<Alarm>)
        ensures
            ({
                let (nb, al) = spec_handle_event(option_string_view(old(self).bot_id), data@, now);
                option_string_view(final(self).bot_id) == nb && alarm_option_view(r) == al
            }),
    {
        let obj = match parse_value(data, 0) {
            Ok((v, _end)) => match v {
                Value::Object(o) => o,
                other => {
                    proof {
                        lemma_view_variants(other);
                    }
                    return None;
                },
            },
            Err(_) => {
                return None;
            },
        };

        let is_ready: bool;
        let is_message: bool;
        match obj.get("type") {
            Some(v) => match v {
                Value::String(t) => {
                    is_ready = str_eq(t.as_str(), "Ready");
                    is_message = str_eq(t.as_str(), "Message");
                },
                other => {
                    proof {
                        lemma_view_variants(*other);
                    }
                    return None;
                },
            },
            None => {
                return None;
            },
        }

        if is_ready {
            self.handle_ready(obj);
            return None;
        }
        if !is_message {
            return None;
        }

        let mut found = false;
        match obj.get("mentions") {
            Some(v) => match v {
                Value::Array(mentions) => {
                    match &self.bot_id {
                        Some(b) => {
                            proof {
                                lemma_views_of(mentions@);
                            }
                            let n = mentions.len();
                            let mut j: usize = 0;
                            while j < n
                                invariant
                                    0 <= j <= n,
                                    n == mentions@.len(),
                                    views_of(mentions@).len() == mentions@.len(),
                                    found <==> exists|k: int|
                                        0 <= k < j && views_of(mentions@)[k] == ValueView::Str(
                                            b@,
                                        ),
                                    forall|k: int|
                                        0 <= k < mentions@.len() ==> views_of(mentions@)[k]
                                            == mentions@[k]@,
                                decreases n - j,
                            {
                                match &mentions[j] {
                                    Value::String(s) => {
                                        if str_eq(s.as_str(), b.as_str()) {
                                            proof {
                                                assert(views_of(mentions@)[j as int]
                                                    == ValueView::Str(b@));
                                            }
                                            found = true;
                                        } else {
                                            proof {
                                                assert(views_of(mentions@)[j as int]
                                                    != ValueView::Str(b@));
                                            }
                                        }
                                    },
                                    other => {
                                        proof {
                                            lemma_view_variants(*other);
                                            assert(views_of(mentions@)[j as int]
                                                != ValueView::Str(b@));
                                        }
                                    },
                                }
                                j += 1;
                            }
                        },
                        None => {},
                    }
                },
                other => {
                    proof {
                        lemma_view_variants(*other);
                    }
                },
            },
            None => {},
        }

        if found {
            Alarm::from_message_at(obj, now)
        } else {
            None
        }
    }
}

} // verus!

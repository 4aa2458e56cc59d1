//! Settings of the broker connection and of the display.

use vstd::prelude::*;
use crate::text::{decimal, decimal_spec, joined};

verus! {

/// Everything read from the settings file.
#[derive(Debug)]
pub struct Config {
    pub mqtt: MqttConfig,
    pub ui: UiConfig,
}

/// The broker connection.
#[derive(Debug)]
pub struct MqttConfig {
    pub host: String,
    pub port: u16,
    pub use_tls: bool,
    pub client_id: String,
    /// Defaults to the client id when unset.
    pub username: Option<String>,
    /// Sent as the password.
    pub token: Option<String>,
    pub subscribe_topic: String,
    pub keep_alive_secs: u64,
}

/// Display settings.
#[derive(Debug)]
pub struct UiConfig {
    pub message_buffer_size: usize,
    pub stats_window_secs: u64,
    pub tick_rate_ms: u64,
}

pub fn default_port() -> (r: u16)
    ensures
        r == 1883,
{
    1883
}

pub fn default_subscribe_topic() -> (r: String)
    ensures
        r@ == seq!['#'],
{
    proof {
        reveal_strlit("#");
    }
    String::from_str("#")
}

pub fn default_keep_alive() -> (r: u64)
    ensures
        r == 30,
{
    30
}

pub fn default_message_buffer_size() -> (r: usize)
    ensures
        r == 100,
{
    100
}

pub fn default_stats_window() -> (r: u64)
    ensures
        r == 10,
{
    10
}

pub fn default_tick_rate() -> (r: u64)
    ensures
        r == 100,
{
    100
}

impl Default for UiConfig {
    fn default() -> (r: Self)
        ensures
            r.message_buffer_size == 100,
            r.stats_window_secs == 10,
            r.tick_rate_ms == 100,
    {
        UiConfig {
            message_buffer_size: default_message_buffer_size(),
            stats_window_secs: default_stats_window(),
            tick_rate_ms: default_tick_rate(),
        }
    }
}

impl MqttConfig {
    /// The user name: the configured one, else the client id.
    pub fn get_username(&self) -> (r: &str)
        ensures
            r@ == match self.username {
                Some(u) => u@,
                None => self.client_id@,
            },
    {
        match &self.username {
            Some(u) => u.as_str(),
            None => self.client_id.as_str(),
        }
    }

    /// The token, or the empty text when none is set.
    pub fn get_token(&self) -> (r: &str)
        ensures
            r@ == match self.token {
                Some(t) => t@,
                None => Seq::<char>::empty(),
            },
    {
        match &self.token {
            Some(t) => t.as_str(),
            None => {
                proof {
                    reveal_strlit("");
                }
                ""
            },
        }
    }
}

impl Config {
    /// Takes the token from `fallback` when the settings set none.
    pub fn with_fallback_token(self, fallback: Option<String>) -> (r: Self)
        ensures
            r.mqtt.token == if self.mqtt.token is None { fallback } else { self.mqtt.token },
            r.mqtt.host == self.mqtt.host,
            r.mqtt.port == self.mqtt.port,
            r.mqtt.client_id == self.mqtt.client_id,
            r.ui == self.ui,
    {
        let mut c = self;
        if c.mqtt.token.is_none() {
            c.mqtt.token = fallback;
        }
        c
    }
}

/// Whether `c` has Unicode's White_Space property (what `str::trim` strips).
pub open spec fn whitespace_char(c: char) -> bool {
    ('\u{9}' <= c && c <= '\u{d}') || c == ' ' || c == '\u{85}' || c == '\u{a0}' || c == '\u{1680}'
        || ('\u{2000}' <= c && c <= '\u{200a}') || c == '\u{2028}' || c == '\u{2029}' || c
        == '\u{202f}' || c == '\u{205f}' || c == '\u{3000}'
}

fn is_space(c: char) -> (r: bool)
    ensures
        r == whitespace_char(c),
{
    ('\u{9}' <= c && c <= '\u{d}') || c == ' ' || c == '\u{85}' || c == '\u{a0}' || c == '\u{1680}'
        || ('\u{2000}' <= c && c <= '\u{200a}') || c == '\u{2028}' || c == '\u{2029}' || c
        == '\u{202f}' || c == '\u{205f}' || c == '\u{3000}'
}

/// Whether `s` holds nothing but white space.
pub open spec fn blank(s: Seq<char>) -> bool {
    forall|i: int| 0 <= i < s.len() ==> whitespace_char(#[trigger] s[i])
}

fn is_blank(s: &str) -> (r: bool)
    ensures
        r == blank(s@),
{
    let n = s.unicode_len();
    let mut i: usize = 0;
    while i < n
        invariant
            n == s@.len(),
            i <= n,
            forall|k: int| 0 <= k < i ==> whitespace_char(#[trigger] s@[k]),
        decreases n - i,
    {
        if !is_space(s.get_char(i)) {
            return false;
        }
        i = i + 1;
    }
    true
}

/// The client id to connect with at time `now` (Unix ms): the configured id
/// as it is when asked for, else the configured id (or `mqtop` when it is
/// blank) followed by `-` and the time's last five decimal digits of
/// milliseconds, so that a reconnect does not collide with a lingering session.
pub open spec fn client_id_spec(configured: Seq<char>, exact: bool, now: i64) -> Seq<char> {
    let suffix: nat = if now >= 0 { (now % 100000) as nat } else { 0 };
    if exact {
        configured
    } else if blank(configured) {
        "mqtop-"@ + decimal_spec(suffix)
    } else {
        configured + "-"@ + decimal_spec(suffix)
    }
}

pub fn generate_client_id(configured_id: &str, use_exact: bool, now: i64) -> (r: String)
    ensures
        r@ == client_id_spec(configured_id@, use_exact, now),
{
    if use_exact {
        return String::from_str(configured_id);
    }
    let suffix: u64 = if now >= 0 {
        (now % 100000) as u64
    } else {
        0
    };
    proof {
        reveal_strlit("mqtop-");
        reveal_strlit("-");
    }
    if is_blank(configured_id) {
        joined(String::from_str("mqtop-"), decimal(suffix).as_str())
    } else {
        joined(joined(String::from_str(configured_id), "-"), decimal(suffix).as_str())
    }
}

} // verus!

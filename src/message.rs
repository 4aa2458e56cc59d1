//! A received message and its payload renderings.

use vstd::prelude::*;
use vstd::utf8::valid_utf8;
use vstd::string::StringSliceAdditionalSpecFns;
use crate::clock::now_millis;
use crate::json::parse_value;
use crate::view_state::PayloadMode;

verus! {

/// A message as it arrived: topic, payload bytes, delivery level, retain flag
/// and capture time (Unix milliseconds).
#[derive(Debug)]
pub struct MqttMessage {
    pub topic: String,
    pub payload: Vec<u8>,
    pub qos: u8,
    pub retain: bool,
    pub timestamp: i64,
}

/// Relies on std::str::from_utf8: the bytes as text when they are valid UTF-8.
#[verifier::external_body]
fn utf8_text(b: &[u8]) -> (r: Option<&str>)
    ensures
        r is Some <==> valid_utf8(b@),
        r is Some ==> r.unwrap().spec_bytes() == b@,
{
    std::str::from_utf8(b).ok()
}

/// Relies on serde_json::to_string_pretty: the value printed with indentation.
#[verifier::external_body]
fn pretty_text(v: &serde_json::Value) -> (r: Option<String>) {
    serde_json::to_string_pretty(v).ok()
}

/// The lower-case hexadecimal digit of `d`.
pub open spec fn hex_digit(d: u8) -> char {
    if d < 10 {
        ('0' as u8 + d) as char
    } else {
        ('a' as u8 + (d - 10)) as char
    }
}

/// Each byte as two lower-case hex digits, the bytes separated by spaces.
pub open spec fn hex_spec(b: Seq<u8>) -> Seq<char>
    decreases b.len(),
{
    if b.len() == 0 {
        Seq::empty()
    } else {
        let last = b.last();
        let pair = seq![hex_digit(last / 16), hex_digit(last % 16)];
        if b.len() == 1 {
            pair
        } else {
            hex_spec(b.drop_last()) + seq![' '] + pair
        }
    }
}

fn hex_digit_str(d: u8) -> (r: &'static str)
    requires
        d < 16,
    ensures
        r@ == seq![hex_digit(d)],
{
    proof {
        reveal_strlit("0");
        reveal_strlit("1");
        reveal_strlit("2");
        reveal_strlit("3");
        reveal_strlit("4");
        reveal_strlit("5");
        reveal_strlit("6");
        reveal_strlit("7");
        reveal_strlit("8");
        reveal_strlit("9");
        reveal_strlit("a");
        reveal_strlit("b");
        reveal_strlit("c");
        reveal_strlit("d");
        reveal_strlit("e");
        reveal_strlit("f");
    }
    let r = match d {
        0 => "0",
        1 => "1",
        2 => "2",
        3 => "3",
        4 => "4",
        5 => "5",
        6 => "6",
        7 => "7",
        8 => "8",
        9 => "9",
        10 => "a",
        11 => "b",
        12 => "c",
        13 => "d",
        14 => "e",
        _ => "f",
    };
    assert(r@ =~= seq![hex_digit(d)]);
    r
}

impl MqttMessage {
    /// A message captured at `timestamp` (Unix milliseconds).
    pub fn new_at(topic: String, payload: Vec<u8>, qos: u8, retain: bool, timestamp: i64) -> (r:
        Self)
        ensures
            r == (MqttMessage { topic, payload, qos, retain, timestamp }),
    {
        MqttMessage { topic, payload, qos, retain, timestamp }
    }

    /// A message captured now.
    pub fn new(topic: String, payload: Vec<u8>, qos: u8, retain: bool) -> (r: Self)
        ensures
            r.topic == topic,
            r.payload == payload,
            r.qos == qos,
            r.retain == retain,
    {
        let now = now_millis();
        Self::new_at(topic, payload, qos, retain, now)
    }

    /// The payload as text, when it is valid UTF-8.
    pub fn payload_str(&self) -> (r: Option<&str>)
        ensures
            r is Some <==> valid_utf8(self.payload@),
            r is Some ==> r.unwrap().spec_bytes() == self.payload@,
    {
        utf8_text(self.payload.as_slice())
    }

    /// The payload re-printed as indented JSON, when it is JSON text.
    pub fn payload_json_pretty(&self) -> (r: Option<String>)
        ensures
            !valid_utf8(self.payload@) ==> r is None,
    {
        let text = self.payload_str();
        if text.is_none() {
            return None;
        }
        match parse_value(self.payload.as_slice()) {
            Some(v) => pretty_text(&v),
            None => None,
        }
    }

    /// The payload in hex, two digits per byte, separated by spaces.
    pub fn payload_hex(&self) -> (r: String)
        ensures
            r@ == hex_spec(self.payload@),
    {
        let mut out = String::new();
        let mut i: usize = 0;
        proof {
            assert(self.payload@.take(0) =~= Seq::<u8>::empty());
        }
        while i < self.payload.len()
            invariant
                i <= self.payload@.len(),
                out@ == hex_spec(self.payload@.take(i as int)),
            decreases self.payload.len() - i,
        {
            let b = self.payload[i];
            proof {
                assert(self.payload@.take(i + 1).drop_last() =~= self.payload@.take(i as int));
                reveal_strlit(" ");
            }
            if i > 0 {
                out.append(" ");
            }
            out.append(hex_digit_str(b / 16));
            out.append(hex_digit_str(b % 16));
            proof {
                let p = self.payload@.take(i as int);
                let last = self.payload@.take(i + 1).last();
                assert(last == b);
                if i == 0 {
                    assert(p =~= Seq::<u8>::empty());
                }
                assert(out@ =~= hex_spec(self.payload@.take(i + 1)));
            }
            i = i + 1;
        }
        proof {
            assert(self.payload@.take(i as int) =~= self.payload@);
        }
        out
    }

    /// The payload as shown in `mode`: `Hex` in hex; `Raw` as text, or hex when
    /// it is not UTF-8; `Json` re-printed, or a notice when it is not JSON;
    /// `Auto` re-printed when JSON, else as text, else in hex.
    pub fn formatted(&self, mode: PayloadMode) -> (r: String)
        ensures
            mode == PayloadMode::Hex ==> r@ == hex_spec(self.payload@),
            mode == PayloadMode::Raw && !valid_utf8(self.payload@) ==> r@ == hex_spec(self.payload@),
            mode == PayloadMode::Raw && valid_utf8(self.payload@) ==> exists|t: &str|
                t.spec_bytes() == self.payload@ && r@ == #[trigger] t@,
            mode == PayloadMode::Json && !valid_utf8(self.payload@) ==> r@ == "<not valid JSON>"@,
            mode == PayloadMode::Auto && !valid_utf8(self.payload@) ==> r@ == hex_spec(self.payload@),
    {
        proof {
            reveal_strlit("<not valid JSON>");
        }
        match mode {
            PayloadMode::Auto => {
                if let Some(json) = self.payload_json_pretty() {
                    json
                } else if let Some(s) = self.payload_str() {
                    String::from_str(s)
                } else {
                    self.payload_hex()
                }
            },
            PayloadMode::Raw => match self.payload_str() {
                Some(s) => String::from_str(s),
                None => self.payload_hex(),
            },
            PayloadMode::Hex => self.payload_hex(),
            PayloadMode::Json => match self.payload_json_pretty() {
                Some(p) => p,
                None => String::from_str("<not valid JSON>"),
            },
        }
    }

    /// Payload length in bytes.
    pub fn payload_size(&self) -> (r: usize)
        ensures
            r == self.payload@.len(),
    {
        self.payload.len()
    }
}

} // verus!

//! The envelope: the unit exchanged over a connection. A type tag (open
//! vocabulary, compared by exact match), an opaque payload carried as its
//! textual form, a producer-assigned timestamp in milliseconds, and an
//! optional origin tag. An envelope is immutable once constructed: the relay
//! never alters a received envelope, it only stamps its own origin and
//! timestamp on the messages it originates (the welcome).

use vstd::prelude::*;
use vstd::string::StringExecFns;

verus! {

/// The wire message shape.
pub struct WebSocketMessage {
    /// Type tag; dispatch compares it by exact, case-sensitive match.
    pub message_type: String,
    /// Payload, opaque to the relay: the textual form of an arbitrary
    /// structured value, carried through verbatim.
    pub data: String,
    /// Milliseconds since epoch, assigned by the producer.
    pub timestamp: u64,
    /// Origin tag of the producing side, when one was given.
    pub source: Option<String>,
}

impl WebSocketMessage {
    /// A field-exact copy. The relay fans one envelope out to several
    /// sessions, so it needs copies it can prove equal to the original.
    pub fn clone_message(&self) -> (r: WebSocketMessage)
        ensures
            r == *self,
    {
        WebSocketMessage {
            message_type: self.message_type.clone(),
            data: self.data.clone(),
            timestamp: self.timestamp,
            source: match &self.source {
                Some(s) => Some(s.clone()),
                None => None,
            },
        }
    }
}

/// The operational message types the reader recognizes for dispatch.
/// Unrecognized types are still relayed; dispatch is an observation,
/// not a filter.
#[derive(Clone, Copy, Debug, PartialEq, Eq, Structural)]
pub enum MessageKind {
    Handshake,
    CodeSnippetCaptured,
    AnalyzeCodeRequest,
    SendToDesktop,
    Unknown,
}

/// What became of one inbound frame.
#[derive(Clone, Copy, Debug, PartialEq, Eq, Structural)]
pub enum FrameOutcome {
    /// The frame did not decode to an envelope; it was dropped silently
    /// and the connection stays open.
    Discarded,
    /// The envelope was dispatched to the named hook and republished onto
    /// the broadcast bus.
    Relayed(MessageKind),
}

/// Which collaborator hook a type tag selects.
pub open spec fn spec_classify(t: Seq<char>) -> MessageKind {
    if t == "HANDSHAKE"@ {
        MessageKind::Handshake
    } else if t == "CODE_SNIPPET_CAPTURED"@ {
        MessageKind::CodeSnippetCaptured
    } else if t == "ANALYZE_CODE_REQUEST"@ {
        MessageKind::AnalyzeCodeRequest
    } else if t == "SEND_TO_DESKTOP"@ {
        MessageKind::SendToDesktop
    } else {
        MessageKind::Unknown
    }
}

/// Dispatch by type tag, by exact match.
pub fn classify_message(t: &String) -> (k: MessageKind)
    ensures
        k == spec_classify(t@),
{
    if *t == String::from_str("HANDSHAKE") {
        MessageKind::Handshake
    } else if *t == String::from_str("CODE_SNIPPET_CAPTURED") {
        MessageKind::CodeSnippetCaptured
    } else if *t == String::from_str("ANALYZE_CODE_REQUEST") {
        MessageKind::AnalyzeCodeRequest
    } else if *t == String::from_str("SEND_TO_DESKTOP") {
        MessageKind::SendToDesktop
    } else {
        MessageKind::Unknown
    }
}

/// The character of one decimal digit.
pub open spec fn digit_char(d: nat) -> char {
    if d == 0 {
        '0'
    } else if d == 1 {
        '1'
    } else if d == 2 {
        '2'
    } else if d == 3 {
        '3'
    } else if d == 4 {
        '4'
    } else if d == 5 {
        '5'
    } else if d == 6 {
        '6'
    } else if d == 7 {
        '7'
    } else if d == 8 {
        '8'
    } else {
        '9'
    }
}

/// The decimal digits of `n`, most significant first, no leading zeros
/// (a lone zero for `n == 0`).
pub open spec fn dec_digits(n: nat) -> Seq<char>
    decreases n,
{
    if n < 10 {
        seq![digit_char(n)]
    } else {
        dec_digits(n / 10).push(digit_char(n % 10))
    }
}

fn digit_str(d: u64) -> (r: &'static str)
    requires
        d < 10,
    ensures
        r@ == seq![digit_char(d as nat)],
{
    let r: &'static str = if d == 0 {
        "0"
    } else if d == 1 {
        "1"
    } else if d == 2 {
        "2"
    } else if d == 3 {
        "3"
    } else if d == 4 {
        "4"
    } else if d == 5 {
        "5"
    } else if d == 6 {
        "6"
    } else if d == 7 {
        "7"
    } else if d == 8 {
        "8"
    } else {
        "9"
    };
    proof {
        reveal_strlit("0");
        reveal_strlit("1");
        reveal_strlit("2");
        reveal_strlit("3");
        reveal_strlit("4");
        reveal_strlit("5");
        reveal_strlit("6");
        reveal_strlit("7");
        reveal_strlit("8");
        reveal_strlit("9");
        assert(r@ =~= seq![digit_char(d as nat)]);
    }
    r
}

/// Decimal rendering of an unsigned integer.
pub fn u64_to_string(n: u64) -> (s: String)
    ensures
        s@ == dec_digits(n as nat),
    decreases n,
{
    if n < 10 {
        String::from_str(digit_str(n))
    } else {
        let mut s = u64_to_string(n / 10);
        s.append(digit_str(n % 10));
        proof {
            assert(s@ =~= dec_digits(n as nat));
        }
        s
    }
}

/// The payload text of a welcome envelope: the assigned identity and the
/// moment of acceptance.
pub open spec fn spec_welcome_data(id: nat, now: nat) -> Seq<char> {
    "{\"connection_id\":"@ + dec_digits(id) + ",\"timestamp\":"@ + dec_digits(now) + "}"@
}

/// What it means for an envelope to be the welcome for session `id`
/// accepted at `now`: the only message the relay originates unprompted.
pub open spec fn is_welcome_for(m: WebSocketMessage, id: u64, now: u64) -> bool {
    &&& m.message_type@ == "WELCOME"@
    &&& m.data@ == spec_welcome_data(id as nat, now as nat)
    &&& m.timestamp == now
    &&& (m.source matches Some(s) && s@ == "desktop"@)
}

/// Builds the welcome envelope for a freshly accepted session.
pub fn make_welcome(id: u64, now: u64) -> (m: WebSocketMessage)
    ensures
        is_welcome_for(m, id, now),
{
    let mut data = String::from_str("{\"connection_id\":");
    let id_text = u64_to_string(id);
    data.append(id_text.as_str());
    data.append(",\"timestamp\":");
    let now_text = u64_to_string(now);
    data.append(now_text.as_str());
    data.append("}");
    proof {
        assert(data@ =~= spec_welcome_data(id as nat, now as nat));
    }
    WebSocketMessage {
        message_type: String::from_str("WELCOME"),
        data,
        timestamp: now,
        source: Some(String::from_str("desktop")),
    }
}

/// Builds the envelope the host side originates for a broadcast: missing
/// pieces fall back to an unknown tag and a null payload, and the relay
/// stamps its own origin and timestamp.
pub fn envelope_from_parts(message_type: Option<String>, data: Option<String>, now: u64) -> (m:
    WebSocketMessage)
    ensures
        m.timestamp == now,
        (m.source matches Some(s) && s@ == "desktop"@),
        (match message_type {
            Some(t) => m.message_type == t,
            None => m.message_type@ == "UNKNOWN"@,
        }),
        (match data {
            Some(d) => m.data == d,
            None => m.data@ == "null"@,
        }),
{
    WebSocketMessage {
        message_type: match message_type {
            Some(t) => t,
            None => String::from_str("UNKNOWN"),
        },
        data: match data {
            Some(d) => d,
            None => String::from_str("null"),
        },
        timestamp: now,
        source: Some(String::from_str("desktop")),
    }
}

} // verus!

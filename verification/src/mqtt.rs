use vstd::prelude::*;

use crate::text::{
    all_ascii_digits, first_occurrence, is_ascii_digit, is_white_space, lemma_first_occurrence_unique,
    lemma_trim_idempotent, occurs_at, trim_end, trim_start, split_once, split_once_str, str_eq, trim, trimmed,
};

verus! {

/// How to reach the MQTT broker, and the topic to publish under.
pub struct MqttConfig {
    /// The broker's URI, `{tcp|ssl}://{host}:{port}`.
    pub mqtt_server_uri: String,
    /// The user name to authenticate with; it goes with the password.
    pub mqtt_user_name: Option<String>,
    /// The password to authenticate with; it goes with the user name.
    pub mqtt_password: Option<String>,
    /// The client identifier sent to the broker; when empty the broker picks one.
    pub mqtt_client_id: String,
    /// The topic: messages are published under `{topic}/pub` and received
    /// from `{topic}/sub`.
    pub mqtt_topic: String,
}

/// The protocol, host and port of a broker URI, when `uri` (trimmed) has the
/// form `{tcp|ssl}://{host}:{port}` with a non-empty host and a port of one or
/// more ASCII digits. The protocol ends at the first `://`, the host at the
/// first `:` after it.
pub open spec fn server_uri_parts(uri: Seq<char>) -> Option<(Seq<char>, Seq<char>, Seq<char>)> {
    match split_once(trimmed(uri), "://"@) {
        Some((protocol, host_port)) => if protocol == "ssl"@ || protocol == "tcp"@ {
            match split_once(host_port, ":"@) {
                Some((host, port)) => if host.len() > 0 && port.len() > 0 && forall|k: int|
                    0 <= k < port.len() ==> #[trigger] is_ascii_digit(port[k]) {
                    Some((protocol, host, port))
                } else {
                    None
                },
                None => None,
            }
        } else {
            None
        },
        None => None,
    }
}

/// Checks a broker URI: the trimmed URI, rebuilt from its protocol, host
/// and port, or an error when it does not have the expected form.
pub fn check_server_uri(uri: &str) -> (r: Result<String, String>)
    ensures
        match r {
            Ok(s) => server_uri_parts(uri@) matches Some((protocol, host, port))
                && s@ == protocol + "://"@ + host + ":"@ + port,
            Err(e) => server_uri_parts(uri@) is None && e@ == "Not a valid uri"@,
        },
{
    let t = trim(uri);
    if let Some((protocol, host_port)) = split_once_str(t, "://") {
        if str_eq(protocol, "ssl") || str_eq(protocol, "tcp") {
            if let Some((host, port)) = split_once_str(host_port, ":") {
                if host.unicode_len() > 0 && all_ascii_digits(port) {
                    let mut s = String::from_str(protocol);
                    s.append("://");
                    s.append(host);
                    s.append(":");
                    s.append(port);
                    return Ok(s);
                }
            }
        }
    }
    Err(String::from_str("Not a valid uri"))
}

/// A valid broker URI is given back as it was written, without the white
/// space around it.
pub proof fn lemma_valid_uri_is_kept(uri: Seq<char>)
    requires
        server_uri_parts(uri) is Some,
    ensures
        ({
            let (protocol, host, port) = server_uri_parts(uri)->0;
            protocol + "://"@ + host + ":"@ + port == trimmed(uri)
        }),
{
    let t = trimmed(uri);
    let sep = "://"@;
    let colon = ":"@;
    let i = choose|i: int| crate::text::first_occurrence(t, sep, i);
    let host_port = t.skip(i + sep.len());
    let k = choose|k: int| crate::text::first_occurrence(host_port, colon, k);
    assert(t.subrange(i, i + sep.len()) == sep);
    assert(host_port.subrange(k, k + colon.len()) == colon);
    assert(host_port =~= host_port.take(k) + colon + host_port.skip(k + colon.len()));
    assert(t =~= t.take(i) + sep + host_port);
    assert(t.take(i) + sep + host_port.take(k) + colon + host_port.skip(k + colon.len()) =~= t);
}

/// Checking is stable: the URI an accepted one is given back as is accepted
/// again, with the same parts, so it comes back unchanged.
pub proof fn lemma_accepted_uri_is_accepted_again(uri: Seq<char>)
    requires
        server_uri_parts(uri) is Some,
    ensures
        ({
            let (protocol, host, port) = server_uri_parts(uri)->0;
            let s = protocol + "://"@ + host + ":"@ + port;
            server_uri_parts(s) == server_uri_parts(uri)
        }),
{
    lemma_valid_uri_is_kept(uri);
    lemma_trim_idempotent(uri);
}

/// Splitting at a separator whose first character does not occur before
/// position `i`, and which does occur at `i`, splits at `i`.
proof fn lemma_split_at(s: Seq<char>, pat: Seq<char>, i: int)
    requires
        pat.len() > 0,
        occurs_at(s, pat, i),
        forall|j: int| 0 <= j < i ==> s[j] != pat[0],
    ensures
        split_once(s, pat) == Some((s.take(i), s.skip(i + pat.len()))),
{
    assert forall|j: int| 0 <= j < i implies !#[trigger] occurs_at(s, pat, j) by {
        if occurs_at(s, pat, j) {
            assert(s.subrange(j, j + pat.len())[0] == s[j]);
        }
    }
    assert(first_occurrence(s, pat, i));
    let c = choose|k: int| first_occurrence(s, pat, k);
    lemma_first_occurrence_unique(s, pat, c, i);
}

/// Every URI of the documented form is accepted as it is: `tcp` or `ssl`,
/// then `://`, a non-empty host without `:`, a `:`, and a port of one or
/// more ASCII digits, of any length.
pub proof fn lemma_well_formed_uri_accepted(protocol: Seq<char>, host: Seq<char>, port: Seq<char>)
    requires
        protocol == "tcp"@ || protocol == "ssl"@,
        host.len() > 0,
        forall|i: int| 0 <= i < host.len() ==> host[i] != ':',
        port.len() > 0,
        forall|i: int| 0 <= i < port.len() ==> #[trigger] is_ascii_digit(port[i]),
    ensures
        server_uri_parts(protocol + "://"@ + host + ":"@ + port) == Some((protocol, host, port)),
        trimmed(protocol + "://"@ + host + ":"@ + port) == protocol + "://"@ + host + ":"@ + port,
{
    reveal_strlit("tcp");
    reveal_strlit("ssl");
    reveal_strlit("://");
    reveal_strlit(":");
    let sep = "://"@;
    let colon = ":"@;
    let hp = host + colon + port;
    let u = protocol + sep + hp;
    assert(protocol + sep + host + colon + port =~= u);
    assert(u[0] == protocol[0]);
    assert(!is_white_space(u[0]));
    assert(trim_start(u) == u);
    assert(u.last() == port.last());
    assert(is_ascii_digit(port[port.len() - 1]));
    assert(!is_white_space(u.last()));
    assert(trim_end(u) == u);
    assert(u.subrange(3, 6) =~= sep);
    assert forall|j: int| 0 <= j < 3 implies u[j] != sep[0] by {
        assert(u[j] == protocol[j]);
    }
    lemma_split_at(u, sep, 3);
    assert(u.take(3) =~= protocol);
    assert(u.skip(6) =~= hp);
    assert(hp.subrange(host.len() as int, host.len() as int + 1) =~= colon);
    assert forall|j: int| 0 <= j < host.len() implies hp[j] != colon[0] by {
        assert(hp[j] == host[j]);
    }
    lemma_split_at(hp, colon, host.len() as int);
    assert(hp.take(host.len() as int) =~= host);
    assert(hp.skip(host.len() as int + 1) =~= port);
}

/// The credentials to connect with: a user name and a password, only when
/// both are given.
pub fn connect_credentials(user_name: Option<String>, password: Option<String>) -> (c: Option<(String, String)>)
    ensures
        match c {
            Some((u, p)) => user_name matches Some(u0) && password matches Some(p0) && u == u0 && p == p0,
            None => user_name is None || password is None,
        },
{
    match (user_name, password) {
        (Some(u), Some(p)) => Some((u, p)),
        _ => None,
    }
}

/// The topic messages are published under.
pub fn publish_topic(topic: &str) -> (s: String)
    ensures
        s@ == topic@ + "/pub"@,
{
    let mut s = String::from_str(topic);
    s.append("/pub");
    s
}

/// The topic commands are received from.
pub fn subscribe_topic(topic: &str) -> (s: String)
    ensures
        s@ == topic@ + "/sub"@,
{
    let mut s = String::from_str(topic);
    s.append("/sub");
    s
}

/// A command received over MQTT.
#[derive(Clone, Copy, Debug)]
pub enum Command {
    Play,
    Pause,
    PlayPause,
    JumpForward,
    Next,
    Previous,
    Unrecognized,
}

/// The command a payload asks for. `jumpbackward` is answered with a jump
/// forward, as the player does.
pub open spec fn command_for(payload: Seq<char>) -> Command {
    if payload == "play"@ {
        Command::Play
    } else if payload == "pause"@ {
        Command::Pause
    } else if payload == "playpause"@ {
        Command::PlayPause
    } else if payload == "jumpbackward"@ {
        Command::JumpForward
    } else if payload == "jumpforward"@ {
        Command::JumpForward
    } else if payload == "next"@ {
        Command::Next
    } else if payload == "previous"@ {
        Command::Previous
    } else {
        Command::Unrecognized
    }
}

/// The command a received payload asks for.
pub fn parse_command(payload: &str) -> (c: Command)
    ensures
        c == command_for(payload@),
{
    if str_eq(payload, "play") {
        Command::Play
    } else if str_eq(payload, "pause") {
        Command::Pause
    } else if str_eq(payload, "playpause") {
        Command::PlayPause
    } else if str_eq(payload, "jumpbackward") {
        Command::JumpForward
    } else if str_eq(payload, "jumpforward") {
        Command::JumpForward
    } else if str_eq(payload, "next") {
        Command::Next
    } else if str_eq(payload, "previous") {
        Command::Previous
    } else {
        Command::Unrecognized
    }
}

/// What to do when no message or status change is pending.
#[derive(Clone, Copy, Debug)]
pub enum IdleAction {
    /// The connection was lost: reconnect.
    Reconnect,
    /// The player stopped while connected: disconnect and finish.
    Shutdown,
}

/// The action when nothing is pending, given whether the client is connected.
pub fn idle_action(connected: bool) -> (a: IdleAction)
    ensures
        a == if connected { IdleAction::Shutdown } else { IdleAction::Reconnect },
{
    if connected {
        IdleAction::Shutdown
    } else {
        IdleAction::Reconnect
    }
}

} // verus!

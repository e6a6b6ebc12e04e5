use qobuz_player::mqtt::{
    check_server_uri, connect_credentials, idle_action, parse_command, publish_topic, subscribe_topic, Command,
    IdleAction, MqttConfig,
};
use qobuz_player::params::segment_url;
use qobuz_player::text::{
    all_ascii_digits, contains_str, find, replace, split_once_str, str_eq, to_lowercase, trim, white_space,
};

#[test]
fn check_server_uri_accepts_tcp_and_ssl() {
    assert_eq!(check_server_uri("tcp://localhost:1883"), Ok("tcp://localhost:1883".to_string()));
    assert_eq!(check_server_uri("  ssl://10.0.0.2:8883\n"), Ok("ssl://10.0.0.2:8883".to_string()));
    assert_eq!(check_server_uri("\u{3000}tcp://mqtt.example.org:8883 "), Ok("tcp://mqtt.example.org:8883".to_string()));
}

#[test]
fn accepted_uri_is_accepted_again() {
    let s = check_server_uri("  ssl://broker:1 ").unwrap();
    assert_eq!(check_server_uri(&s), Ok(s.clone()));
}

#[test]
fn check_server_uri_rejects_other_forms() {
    let err = Err("Not a valid uri".to_string());
    assert_eq!(check_server_uri("http://localhost:1883"), err);
    assert_eq!(check_server_uri("tcp://localhost"), err);
    assert_eq!(check_server_uri("tcp://localhost:18a3"), err);
    assert_eq!(check_server_uri("localhost:1883"), err);
    assert_eq!(check_server_uri(""), err);
    assert_eq!(check_server_uri("tcp://a:b:1"), err);
    assert_eq!(check_server_uri("tcp://localhost:18x3"), err);
    assert_eq!(check_server_uri("TCP://localhost:1883"), err);
    assert_eq!(check_server_uri("tcp://host:"), err);
    assert_eq!(check_server_uri("tcp://:1883"), err);
    assert_eq!(check_server_uri("tcp://host:\u{0664}\u{0662}"), err);
}

#[test]
fn credentials_need_both_parts() {
    assert_eq!(
        connect_credentials(Some("u".to_string()), Some("p".to_string())),
        Some(("u".to_string(), "p".to_string()))
    );
    assert_eq!(connect_credentials(Some("u".to_string()), None), None);
    assert_eq!(connect_credentials(None, Some("p".to_string())), None);
    assert_eq!(connect_credentials(None, None), None);
}

#[test]
fn topics_get_their_suffix() {
    assert_eq!(publish_topic("qobine"), "qobine/pub");
    assert_eq!(subscribe_topic("qobine"), "qobine/sub");
}

#[test]
fn commands_are_recognized() {
    assert!(matches!(parse_command("play"), Command::Play));
    assert!(matches!(parse_command("pause"), Command::Pause));
    assert!(matches!(parse_command("playpause"), Command::PlayPause));
    assert!(matches!(parse_command("jumpforward"), Command::JumpForward));
    assert!(matches!(parse_command("jumpbackward"), Command::JumpForward));
    assert!(matches!(parse_command("next"), Command::Next));
    assert!(matches!(parse_command("previous"), Command::Previous));
    assert!(matches!(parse_command("volumeup"), Command::Unrecognized));
    assert!(matches!(parse_command("Play"), Command::Unrecognized));
}

#[test]
fn idle_action_depends_on_connection() {
    assert!(matches!(idle_action(true), IdleAction::Shutdown));
    assert!(matches!(idle_action(false), IdleAction::Reconnect));
}

#[test]
fn mqtt_config_holds_its_fields() {
    let c = MqttConfig {
        mqtt_server_uri: "tcp://h:1".to_string(),
        mqtt_user_name: None,
        mqtt_password: None,
        mqtt_client_id: String::new(),
        mqtt_topic: "qobine".to_string(),
    };
    assert_eq!(publish_topic(&c.mqtt_topic), "qobine/pub");
}

#[test]
fn text_helpers() {
    assert_eq!(trim("  a b \t"), "a b");
    assert_eq!(to_lowercase("AbÇ"), "abç");
    assert_eq!(trim("\u{a0}\u{2003}x\u{85}\n"), "x");
    assert_eq!(trim(" \t "), "");
    assert_eq!(trim("a  b"), "a  b");
    assert!(white_space('\u{3000}'));
    assert!(!white_space('\u{200b}'));
    assert!(all_ascii_digits("0123"));
    assert!(!all_ascii_digits(""));
    assert!(!all_ascii_digits("01a"));
    assert!(!all_ascii_digits("\u{0664}"));
    assert_eq!(replace("abc", "", "-"), "-a-b-c-");
    assert_eq!(replace("", "", "-"), "-");
    assert_eq!(find("abcabc", "ca"), Some(2));
    assert_eq!(find("abc", ""), Some(0));
    assert_eq!(find("abc", "abcd"), None);
    assert_eq!(find("héllo", "llo"), Some(2));
    assert_eq!(split_once_str("a:b:c", ":"), Some(("a", "b:c")));
    assert_eq!(split_once_str("abc", ":"), None);
    assert!(contains_str("hello", "ell"));
    assert!(!contains_str("hello", "lo!"));
    assert!(str_eq("tcp", "tcp"));
    assert!(!str_eq("tcp", "tc"));
}

#[test]
fn segment_urls_number_the_segment() {
    assert_eq!(segment_url("https://s/$SEGMENT$.mp4", 7), "https://s/7.mp4");
    assert_eq!(segment_url("a$SEGMENT$b$SEGMENT$", 42), "a42b42");
    assert_eq!(segment_url("$SEGMENT$", 255), "255");
    assert_eq!(segment_url("no marker", 3), "no marker");
    assert_eq!(qobuz_player::text::u8_to_decimal(0), "0");
    assert_eq!(qobuz_player::text::replace("aXXbXX", "XX", "-"), "a-b-");
}

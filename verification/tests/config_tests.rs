use transmission_notifier::config::{Config, ConfigError};
use transmission_notifier::torrent::{
    notification_message, notification_title, notification_topic, Event,
};

fn s(v: &str) -> Option<String> {
    Some(v.to_string())
}

#[test]
fn full_configuration_is_accepted() {
    let c = Config::from_env_values(
        s("http://torrent/rpc"),
        s("tu"),
        s("tp"),
        s("http://ntfy"),
        s("nu"),
        s("np"),
    )
    .unwrap();
    assert_eq!(c.torrent_url, "http://torrent/rpc");
    assert_eq!(c.torrent_auth, Some(("tu".to_string(), "tp".to_string())));
    assert_eq!(c.notify_url, "http://ntfy");
    assert_eq!(c.notify_user, "nu");
    assert_eq!(c.notify_password, "np");
}

#[test]
fn torrent_credentials_are_optional_as_a_pair() {
    let c = Config::from_env_values(s("u"), None, None, s("n"), s("a"), s("b")).unwrap();
    assert_eq!(c.torrent_auth, None);
    // One half alone counts as no credentials.
    let c = Config::from_env_values(s("u"), s("tu"), None, s("n"), s("a"), s("b")).unwrap();
    assert_eq!(c.torrent_auth, None);
    let c = Config::from_env_values(s("u"), None, s("tp"), s("n"), s("a"), s("b")).unwrap();
    assert_eq!(c.torrent_auth, None);
}

#[test]
fn each_missing_required_value_is_its_own_error() {
    assert_eq!(
        Config::from_env_values(None, None, None, s("n"), s("a"), s("b")),
        Err(ConfigError::MissingTorrentUrl)
    );
    assert_eq!(
        Config::from_env_values(s("u"), None, None, None, s("a"), s("b")),
        Err(ConfigError::MissingNotifyUrl)
    );
    assert_eq!(
        Config::from_env_values(s("u"), None, None, s("n"), None, s("b")),
        Err(ConfigError::MissingNotifyUser)
    );
    assert_eq!(
        Config::from_env_values(s("u"), None, None, s("n"), s("a"), None),
        Err(ConfigError::MissingNotifyPassword)
    );
}

#[test]
fn messages_name_the_torrent_and_the_transition() {
    let m = notification_message(&Event::Started { name: b"ubuntu.iso".to_vec() });
    assert_eq!(m, b"ubuntu.iso download started".to_vec());
    let m = notification_message(&Event::Completed { name: b"ubuntu.iso".to_vec() });
    assert_eq!(m, b"ubuntu.iso download complete".to_vec());
}

#[test]
fn topic_and_title_are_fixed() {
    assert_eq!(notification_topic(), "transmission");
    assert_eq!(notification_title(), "Transmission");
}

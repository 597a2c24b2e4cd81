use filecord::config::parse_guild_id;
use filecord::config::Config;
use filecord::repo::config_file_name;
use filecord::repo::config_temp_name;
use filecord::repo::layout_dirs;
use filecord::repo::Repo;
use filecord::repo::RepoConfig;
use filecord::transport::add_reaction_url;
use filecord::transport::create_thread_url;
use filecord::transport::default_base;
use filecord::transport::edit_message_url;
use filecord::transport::pin_message_url;
use filecord::transport::post_message_url;
use filecord::transport::Msg;
use filecord::transport::Thread;
use filecord::transport::PUBLIC_THREAD;
use std::path::PathBuf;

#[test]
fn addresses_of_the_transport_calls() {
    let base = default_base();
    assert_eq!(base, "https://discord.com/api/v10");
    assert_eq!(post_message_url(&base, "12"), "https://discord.com/api/v10/channels/12/messages");
    assert_eq!(edit_message_url(&base, "12", "34"), "https://discord.com/api/v10/channels/12/messages/34");
    assert_eq!(pin_message_url(&base, "12", "34"), "https://discord.com/api/v10/channels/12/pins/34");
    assert_eq!(create_thread_url(&base, "12"), "https://discord.com/api/v10/channels/12/threads");
    assert_eq!(
        add_reaction_url(&base, "12", "34", "ok"),
        "https://discord.com/api/v10/channels/12/messages/34/reactions/ok/@me"
    );
    assert_eq!(post_message_url("http://localhost", ""), "http://localhost/channels//messages");
    assert_eq!(PUBLIC_THREAD, 11);
}

#[test]
fn markers_are_percent_encoded() {
    assert_eq!(add_reaction_url("b", "c", "m", "👍"), "b/channels/c/messages/m/reactions/%F0%9F%91%8D/@me");
    assert_eq!(add_reaction_url("b", "c", "m", "a b/c"), "b/channels/c/messages/m/reactions/a%20b%2Fc/@me");
    assert_eq!(
        add_reaction_url("b", "c", "m", "AZaz09-._~"),
        "b/channels/c/messages/m/reactions/AZaz09-._~/@me"
    );
    assert_eq!(add_reaction_url("b", "c", "m", "%+"), "b/channels/c/messages/m/reactions/%25%2B/@me");
    assert_eq!(add_reaction_url("b", "c", "m", ""), "b/channels/c/messages/m/reactions//@me");
    assert_eq!(add_reaction_url("b", "c", "m", "é"), "b/channels/c/messages/m/reactions/%C3%A9/@me");
}

#[test]
fn transport_records_hold_plain_values() {
    let m = Msg { id: "1".to_string(), channel_id: "2".to_string(), content: "hi".to_string() };
    let t = Thread { id: "3".to_string(), parent_id: "2".to_string(), archived: false };
    assert_eq!(m.clone().id, "1");
    assert_eq!(t.clone().parent_id, m.channel_id);
    assert!(!t.archived);
}

#[test]
fn a_repository_keeps_its_root() {
    let repo = Repo::new(PathBuf::from(".filecord"));
    assert_eq!(repo.path(), &PathBuf::from(".filecord"));
    let repo = Repo::new(PathBuf::new());
    assert_eq!(repo.path(), &PathBuf::new());
}

#[test]
fn the_layout_has_its_six_directories() {
    assert_eq!(layout_dirs(), vec!["refs", "threads", "manifests", "cids", "lost+found", "keys"]);
    assert_eq!(config_file_name(), "config.json");
    assert_eq!(config_temp_name(), "config.json.tmp");
}

#[test]
fn default_settings_are_empty() {
    let c = RepoConfig::default();
    assert_eq!(c.bot_token, "");
    assert_eq!(c.application_id, "");
    assert_eq!(c.guild_id, "");
    assert_eq!(c.root_channel_id, "");
    assert_eq!(c.public_key, "");
}

#[test]
fn group_identifiers_are_read_like_unsigned_numbers() {
    assert_eq!(parse_guild_id("0"), Some(0));
    assert_eq!(parse_guild_id("42"), Some(42));
    assert_eq!(parse_guild_id("+42"), Some(42));
    assert_eq!(parse_guild_id("007"), Some(7));
    assert_eq!(parse_guild_id("18446744073709551615"), Some(u64::MAX));
    assert_eq!(parse_guild_id("18446744073709551616"), None);
    assert_eq!(parse_guild_id("99999999999999999999999"), None);
    assert_eq!(parse_guild_id("000000000000000000000000000001"), Some(1));
    for bad in ["", "+", "-1", "++1", "1+", " 1", "1 ", "1_000", "0x10", "１２", "12a", "1.0"] {
        assert_eq!(parse_guild_id(bad), None);
        assert_eq!(parse_guild_id(bad), bad.parse::<u64>().ok());
    }
    for good in ["1", "+0", "1234567890", "18446744073709551615", "18446744073709551614"] {
        assert_eq!(parse_guild_id(good), good.parse::<u64>().ok());
    }
}

#[test]
fn settings_need_a_group_identifier() {
    let c = Config::from_values("token".to_string(), "123").unwrap();
    assert_eq!(c.token, "token");
    assert_eq!(c.guild_id, 123);
    assert!(Config::from_values("token".to_string(), "abc").is_none());
    assert!(Config::from_values("token".to_string(), "").is_none());
}

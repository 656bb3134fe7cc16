use game_gateway::config::Config;
use game_gateway::session::{extract_user_id, find_cookie};
use game_gateway::socket::{frame_action, Frame, FrameAction};
use game_gateway::store::game_key;
use game_gateway::time::{instant_of_elapsed, read_clock, Timestamp, MAX_UTC_SECS};

#[test]
fn config_defaults_and_overrides() {
    let c = Config::from_vars(None, None);
    assert_eq!(c.redis_url, "redis://localhost:6379");
    assert_eq!(c.bind_addr, "0.0.0.0:8080");
    let c = Config::from_vars(Some("redis://r:1".into()), Some("9000".into()));
    assert_eq!(c.redis_url, "redis://r:1");
    assert_eq!(c.bind_addr, "0.0.0.0:9000");
}

#[test]
fn games_are_stored_under_their_id() {
    assert_eq!(game_key("eq0-245"), "game:eq0-245");
    assert_eq!(game_key(""), "game:");
}

#[test]
fn frames_map_to_actions() {
    assert!(matches!(frame_action(Frame::Text("x".into())), FrameAction::Dispatch(t) if t == "x"));
    assert!(matches!(frame_action(Frame::Close), FrameAction::Disconnect));
    assert!(matches!(frame_action(Frame::Failed), FrameAction::Disconnect));
    assert!(matches!(frame_action(Frame::Other), FrameAction::Ignore));
}

#[test]
fn cookies_are_trimmed_and_matched_exactly() {
    assert_eq!(find_cookie("  userId=abc  ;session=x", "userId"), Some("abc"));
    assert_eq!(find_cookie("a=1;userId= spaced ", "userId"), Some("spaced"));
    assert_eq!(find_cookie("userIdX=1; userId=2", "userId"), Some("2"));
    assert_eq!(find_cookie("userId = 1", "userId"), None);
    assert_eq!(find_cookie("", "userId"), None);
    assert_eq!(find_cookie("userId=", "userId"), Some(""));
    assert_eq!(find_cookie("userId=1;userId=2", "userId"), Some("1"));
    assert_eq!(find_cookie("x=é; userId=ü", "userId"), Some("ü"));
}

#[test]
fn an_empty_user_id_falls_back_to_the_session() {
    assert_eq!(extract_user_id(Some("userId=; session=tok")).as_deref(), Some("tok"));
    assert_eq!(extract_user_id(Some("userId=; session=")), None);
    assert_eq!(extract_user_id(Some("other=1")), None);
}

#[test]
fn the_clock_reads_a_recent_instant() {
    let t = read_clock().expect("the clock reads after the epoch");
    // Later than 2020-01-01 and with the nanoseconds below one second.
    assert!(t.secs > 1_577_836_800);
    assert!(t.nanos < 1_000_000_000);
}

#[test]
fn elapsed_time_becomes_an_instant_within_chrono_range() {
    assert_eq!(instant_of_elapsed(0, 0), Some(Timestamp { secs: 0, nanos: 0 }));
    assert_eq!(
        instant_of_elapsed(1_700_000_000, 123_456_789),
        Some(Timestamp { secs: 1_700_000_000, nanos: 123_456_789 })
    );
    assert_eq!(
        instant_of_elapsed(MAX_UTC_SECS as u64, 999_999_999),
        Some(Timestamp { secs: MAX_UTC_SECS, nanos: 999_999_999 })
    );
    assert_eq!(instant_of_elapsed(MAX_UTC_SECS as u64 + 1, 0), None);
    assert_eq!(instant_of_elapsed(u64::MAX, 5), None);
}

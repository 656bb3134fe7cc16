use game_gateway::session::extract_user_id;

#[test]
fn extracts_user_id_cookie() {
    let h = Some("userId=user-123; session=tok-abc");
    assert_eq!(extract_user_id(h).as_deref(), Some("user-123"));
}

#[test]
fn falls_back_to_session_cookie() {
    let h = Some("session=tok-abc");
    assert_eq!(extract_user_id(h).as_deref(), Some("tok-abc"));
}

#[test]
fn returns_none_when_no_cookies() {
    assert!(extract_user_id(None).is_none());
}

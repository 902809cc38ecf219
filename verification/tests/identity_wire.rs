use socket_router::identity::{
    extract_client_id, format_client_id, identity_cookie, parse_client_id, ClientId,
    IdentityError,
};
use socket_router::session::Frame;
use socket_router::wire::encode_frame;

#[test]
fn format_is_canonical_hyphenated_text() {
    let c = ClientId(0xa1a2a3a4_b1b2_c1c2_d1d2_d3d4d5d6d7d8u128);
    assert_eq!(format_client_id(c), "a1a2a3a4-b1b2-c1c2-d1d2-d3d4d5d6d7d8");
    assert_eq!(
        format_client_id(ClientId(0)),
        "00000000-0000-0000-0000-000000000000"
    );
    assert_eq!(
        format_client_id(ClientId(u128::MAX)),
        "ffffffff-ffff-ffff-ffff-ffffffffffff"
    );
}

#[test]
fn parse_accepts_canonical_and_uppercase_text() {
    let c = parse_client_id("a1a2a3a4-b1b2-c1c2-d1d2-d3d4d5d6d7d8").unwrap();
    assert_eq!(c, ClientId(0xa1a2a3a4_b1b2_c1c2_d1d2_d3d4d5d6d7d8u128));
    let upper = parse_client_id("A1A2A3A4-B1B2-C1C2-D1D2-D3D4D5D6D7D8").unwrap();
    assert_eq!(upper, c);
}

#[test]
fn parse_rejects_malformed_text() {
    assert!(parse_client_id("").is_none());
    assert!(parse_client_id("not-a-uuid").is_none());
    assert!(parse_client_id("a1a2a3a4b1b2c1c2d1d2d3d4d5d6d7d8").is_none());
    assert!(parse_client_id("a1a2a3a4-b1b2-c1c2-d1d2-d3d4d5d6d7dg").is_none());
    assert!(parse_client_id("a1a2a3a4-b1b2-c1c2-d1d2-d3d4d5d6d7d8 ").is_none());
    assert!(parse_client_id("a1a2a3a4+b1b2-c1c2-d1d2-d3d4d5d6d7d8").is_none());
}

#[test]
fn format_then_parse_round_trips() {
    for raw in [0u128, 1, 0xdead_beef, u128::MAX, 0x0123_4567_89ab_cdef_0123_4567_89ab_cdef] {
        let c = ClientId(raw);
        assert_eq!(parse_client_id(&format_client_id(c)), Some(c));
    }
}

#[test]
fn minted_identity_is_version_four() {
    let c = ClientId::issue_identity();
    assert_eq!((c.0 >> 76) & 0xf, 4);
    assert_eq!((c.0 >> 62) & 0x3, 2);
    let text = format_client_id(c);
    assert_eq!(text.len(), 36);
    assert_eq!(parse_client_id(&text), Some(c));
}

#[test]
fn identity_cookie_is_strict_and_http_only() {
    let c = ClientId(0x11111111_2222_3333_4444_555555555555u128);
    assert_eq!(
        identity_cookie(c),
        "socket_client_id=11111111-2222-3333-4444-555555555555; Path=/; HttpOnly; SameSite=Strict"
    );
}

#[test]
fn extract_finds_the_cookie_among_others() {
    let header = "theme=dark; socket_client_id=a1a2a3a4-b1b2-c1c2-d1d2-d3d4d5d6d7d8; lang=en";
    assert_eq!(
        extract_client_id(header),
        Ok(ClientId(0xa1a2a3a4_b1b2_c1c2_d1d2_d3d4d5d6d7d8u128))
    );
    let alone = "socket_client_id=a1a2a3a4-b1b2-c1c2-d1d2-d3d4d5d6d7d8";
    assert_eq!(
        extract_client_id(alone),
        Ok(ClientId(0xa1a2a3a4_b1b2_c1c2_d1d2_d3d4d5d6d7d8u128))
    );
}

#[test]
fn extract_reports_missing_cookie() {
    assert_eq!(
        extract_client_id("theme=dark; lang=en"),
        Err(IdentityError::CookieNotFound)
    );
    assert_eq!(extract_client_id(""), Err(IdentityError::CookieNotFound));
    assert_eq!(
        IdentityError::CookieNotFound.describe(),
        "socket_client_id cookie not found"
    );
}

#[test]
fn extract_reports_malformed_value() {
    assert_eq!(
        extract_client_id("socket_client_id=garbage; lang=en"),
        Err(IdentityError::InvalidId)
    );
    assert_eq!(
        extract_client_id("socket_client_id=; lang=en"),
        Err(IdentityError::InvalidId)
    );
    assert_eq!(
        IdentityError::InvalidId.describe(),
        "invalid identity in socket_client_id cookie"
    );
}

#[test]
fn set_cookie_value_reads_back_as_the_same_identity() {
    let c = ClientId(0xfeed_f00d_0000_4abc_8000_0000_0000_0001u128);
    let cookie = identity_cookie(c);
    assert_eq!(extract_client_id(&cookie), Ok(c));
}

#[test]
fn frames_encode_to_their_wire_text() {
    assert_eq!(
        encode_frame(&Frame::Msg {
            key: "{\"room_id\":\"r1\"}".to_string(),
            payload: "{\"text\":\"hi\"}".to_string(),
        }),
        "{\"Msg\":{\"key\":{\"room_id\":\"r1\"},\"msg\":{\"text\":\"hi\"}}}"
    );
    assert_eq!(
        encode_frame(&Frame::Subscribe { key: "{\"room_id\":\"r1\"}".to_string() }),
        "{\"Subscribe\":{\"key\":{\"room_id\":\"r1\"}}}"
    );
    assert_eq!(
        encode_frame(&Frame::Unsubscribe { key: "{\"room_id\":\"r1\"}".to_string() }),
        "{\"Unsubscribe\":{\"key\":{\"room_id\":\"r1\"}}}"
    );
}

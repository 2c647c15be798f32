use samrewritten::friend_library::{
    cache_file_name, cache_is_fresh, decode_app_ids, decode_cache, encode_cache, encode_request,
    owned_games_from_reply, put_varint, steam_id64, take_varint, CACHE_TTL_SECS, RESULT_ACCESS_DENIED,
    STEAM_ID64_BASE,
};
use samrewritten::sam_error::SamError;
use samrewritten::unified_messages::CallFailure;
use std::collections::HashSet;

fn game(app_id: u32, playtime: u32) -> Vec<u8> {
    let mut inner = vec![0x08];
    put_varint(&mut inner, u64::from(app_id));
    inner.push(0x20);
    put_varint(&mut inner, u64::from(playtime));
    let mut out = vec![0x12];
    put_varint(&mut out, inner.len() as u64);
    out.extend_from_slice(&inner);
    out
}

#[test]
fn the_request_matches_what_steams_own_library_sends() {
    let bytes = encode_request(58903702);
    let mut pos = 1usize;
    assert_eq!(bytes[0], 0x08);
    assert_eq!(
        take_varint(&bytes, &mut pos),
        Some(STEAM_ID64_BASE + 58903702)
    );
    assert_eq!(&bytes[pos..], &[0x18, 0x01, 0x30, 0x00]);
}

#[test]
fn an_account_id_widens_to_an_individual_public_steam_id() {
    assert_eq!(steam_id64(1), 76561197960265729);
}

#[test]
fn only_the_app_ids_are_taken_out_of_the_games_list() {
    let mut body = vec![0x08, 0x02];
    body.extend(game(240, 12));
    body.extend(game(730, 0));
    assert_eq!(decode_app_ids(&body), Some(HashSet::from([240, 730])));
}

#[test]
fn an_empty_body_is_an_empty_library_rather_than_an_error() {
    assert_eq!(decode_app_ids(&[]), Some(HashSet::new()));
}

#[test]
fn a_truncated_body_is_refused() {
    let body = game(240, 12);
    for cut in 1..body.len() {
        assert_eq!(decode_app_ids(&body[..cut]), None, "cut at {cut}");
    }
}

#[test]
fn unknown_fields_of_every_wire_type_are_skipped() {
    let mut body = vec![0x0d, 1, 2, 3, 4];
    body.push(0x11);
    body.extend_from_slice(&[0; 8]);
    body.extend_from_slice(&[0x1a, 0x02, 0xff, 0xff]);
    body.extend(game(440, 5));
    assert_eq!(decode_app_ids(&body), Some(HashSet::from([440])));
}

#[test]
fn a_cached_library_round_trips() {
    let owned = HashSet::from([240, 730, 440]);
    let bytes = encode_cache(&owned).expect("a list of ids should encode");
    assert_eq!(decode_cache(&bytes), Some(owned));
    assert_eq!(decode_cache(&encode_cache(&HashSet::new()).unwrap()), Some(HashSet::new()));
}

#[test]
fn a_cache_that_is_no_list_of_ids_is_ignored() {
    assert_eq!(decode_cache(b"[240,730]"), Some(HashSet::from([240, 730])));
    assert_eq!(decode_cache(b"[240,240]"), Some(HashSet::from([240])));
    assert_eq!(decode_cache(b"{\"apps\":[1]}"), None);
    assert_eq!(decode_cache(b"[-1]"), None);
    assert_eq!(decode_cache(b"[4294967296]"), None);
    assert_eq!(decode_cache(b""), None);
}

#[test]
fn a_cached_library_expires_after_a_day() {
    assert_eq!(CACHE_TTL_SECS, 86_400);
    assert!(cache_is_fresh(0, 0));
    assert!(cache_is_fresh(86_399, 999_999_999));
    assert!(cache_is_fresh(86_400, 0));
    assert!(!cache_is_fresh(86_400, 1));
    assert!(!cache_is_fresh(86_460, 0));
}

#[test]
fn each_friend_has_a_cache_file_of_its_own() {
    assert_eq!(cache_file_name(58903702), "friend-games-58903702.json");
    assert_eq!(cache_file_name(0), "friend-games-0.json");
    assert_eq!(cache_file_name(u32::MAX), "friend-games-4294967295.json");
}

#[test]
fn a_refused_library_is_empty_and_other_failures_are_errors() {
    assert_eq!(
        owned_games_from_reply(Err(CallFailure::ResultFailed(RESULT_ACCESS_DENIED))),
        Ok(HashSet::new())
    );
    assert_eq!(
        owned_games_from_reply(Err(CallFailure::ResultFailed(2))),
        Err(SamError::UnknownError)
    );
    assert_eq!(owned_games_from_reply(Err(CallFailure::TimedOut)), Err(SamError::UnknownError));
    assert_eq!(owned_games_from_reply(Err(CallFailure::NotAccepted)), Err(SamError::UnknownError));
    let mut body = Vec::new();
    body.extend(game(570, 1));
    assert_eq!(owned_games_from_reply(Ok(body)), Ok(HashSet::from([570])));
    assert_eq!(owned_games_from_reply(Ok(vec![0x12, 0x05])), Err(SamError::UnknownError));
}

#[test]
fn varints_round_trip_at_every_width() {
    for value in [0u64, 1, 127, 128, 300, 16_383, 16_384, u32::MAX as u64, u64::MAX] {
        let mut bytes = vec![0xaa];
        put_varint(&mut bytes, value);
        let mut pos = 1usize;
        assert_eq!(take_varint(&bytes, &mut pos), Some(value));
        assert_eq!(pos, bytes.len());
    }
    let mut bytes = Vec::new();
    put_varint(&mut bytes, 300);
    assert_eq!(bytes, vec![0xac, 0x02]);
}

#[test]
fn an_overlong_varint_is_refused() {
    let bytes = [0xff; 11];
    let mut pos = 0usize;
    assert_eq!(take_varint(&bytes, &mut pos), None);
    let mut pos = 0usize;
    assert_eq!(take_varint(&[0x80], &mut pos), None);
}

#[test]
fn app_ids_past_32_bits_are_left_out() {
    let mut inner = vec![0x08];
    put_varint(&mut inner, 1u64 << 32);
    let mut body = vec![0x12];
    put_varint(&mut body, inner.len() as u64);
    body.extend_from_slice(&inner);
    body.extend(game(10, 0));
    assert_eq!(decode_app_ids(&body), Some(HashSet::from([10])));
}

#[test]
fn steam_ids_keep_the_account_in_the_low_bits() {
    assert_eq!(steam_id64(0), STEAM_ID64_BASE);
    assert_eq!(steam_id64(u32::MAX), STEAM_ID64_BASE + u32::MAX as u64);
}


#[test]
fn a_cache_file_is_compact_json() {
    assert_eq!(encode_cache(&HashSet::from([240])), Some(b"[240]".to_vec()));
    assert_eq!(encode_cache(&HashSet::new()), Some(b"[]".to_vec()));
    let two = encode_cache(&HashSet::from([7, 10])).unwrap();
    assert!(two == b"[7,10]".to_vec() || two == b"[10,7]".to_vec());
}

use brawl_core::lobby::{LobbyPlayerTable, SteamID};
use brawl_core::session::{
    friend_info, host_steam_id_of, identities_of, lobby_info, my_slot_in, pick_matching_lobby,
    room_name_value, room_note_value, sort_friends, FriendInfo, JoinRequest, JoinRequests,
    DEFAULT_MEMBER_LIMIT, DEFAULT_ROOM_NAME, MATCH_VALUE,
};

fn friend(id: u64, name: &str, online: bool) -> FriendInfo {
    friend_info(id, name.to_string(), online, &vec![])
}

#[test]
fn friends_online_first_then_by_name() {
    let list = vec![
        friend(1, "zed", true),
        friend(2, "amy", false),
        friend(3, "bob", true),
        friend(4, "Ann", true),
        friend(5, "cat", false),
    ];
    let out = sort_friends(list);
    let ids: Vec<u64> = out.iter().map(|f| f.id).collect();
    assert_eq!(ids, vec![4, 3, 1, 2, 5]);
}

#[test]
fn friends_with_equal_rank_keep_their_order() {
    let list = vec![friend(10, "same", true), friend(11, "other", false), friend(12, "same", true), friend(13, "same", true)];
    let out = sort_friends(list);
    let ids: Vec<u64> = out.iter().map(|f| f.id).collect();
    assert_eq!(ids, vec![10, 12, 13, 11]);
}

#[test]
fn friend_names_order_by_code_point() {
    let list = vec![friend(1, "ab", true), friend(2, "a", true), friend(3, "é", true), friend(4, "", true), friend(5, "b", true)];
    let out = sort_friends(list);
    let names: Vec<&str> = out.iter().map(|f| f.name.as_str()).collect();
    assert_eq!(names, vec!["", "a", "ab", "b", "é"]);
}

#[test]
fn friend_in_room_is_marked() {
    let members = vec![7u64, 9, 11];
    assert!(friend_info(9, "x".to_string(), true, &members).in_lobby);
    assert!(!friend_info(8, "x".to_string(), true, &members).in_lobby);
    let f = friend_info(11, "name".to_string(), false, &members);
    assert_eq!((f.id, f.name.as_str(), f.online, f.in_lobby), (11, "name", false, true));
}

#[test]
fn first_lobby_with_our_match_key_is_picked() {
    let values = vec![None, Some("other_game".to_string()), Some(MATCH_VALUE.to_string()), Some(MATCH_VALUE.to_string())];
    assert_eq!(pick_matching_lobby(&values), Some(2));
    assert_eq!(pick_matching_lobby(&vec![None, Some("x".to_string())]), None);
    assert_eq!(pick_matching_lobby(&vec![]), None);
}

#[test]
fn lobby_rows_fill_in_defaults() {
    let row = lobby_info(5, 6, 1, None, None, None);
    assert_eq!((row.id, row.owner, row.members, row.limit), (5, 6, 1, DEFAULT_MEMBER_LIMIT));
    assert_eq!(row.name, DEFAULT_ROOM_NAME);
    assert_eq!(row.note, "");
    let row2 = lobby_info(1, 2, 3, Some(8), Some("fun".to_string()), Some("bring snacks".to_string()));
    assert_eq!((row2.limit, row2.name.as_str(), row2.note.as_str()), (8, "fun", "bring snacks"));
}

#[test]
fn room_name_is_trimmed_or_defaulted() {
    assert_eq!(room_name_value("  arena  "), "arena");
    assert_eq!(room_name_value("   "), DEFAULT_ROOM_NAME);
    assert_eq!(room_name_value(""), DEFAULT_ROOM_NAME);
    assert_eq!(room_name_value("\u{3000}房间\t"), "房间");
    assert_eq!(room_note_value("  note "), "note");
    assert_eq!(room_note_value("  "), "");
}

#[test]
fn host_slot_and_identities_follow_the_table() {
    let t = LobbyPlayerTable::new(SteamID(100), vec![SteamID(3), SteamID(1)]);
    assert_eq!(host_steam_id_of(Some(&t), Some(555)), Some(100));
    assert_eq!(host_steam_id_of(None, Some(555)), Some(555));
    assert_eq!(host_steam_id_of(None, None), None);
    assert_eq!(my_slot_in(Some(&t), SteamID(3)), 2);
    assert_eq!(my_slot_in(Some(&t), SteamID(42)), 0);
    assert_eq!(my_slot_in(None, SteamID(3)), 0);
    assert_eq!(identities_of(Some(&t)), vec![(0, 100), (1, 1), (2, 3)]);
    assert_eq!(identities_of(None), Vec::<(u8, u64)>::new());
}

#[test]
fn join_requests_come_out_in_arrival_order() {
    let mut q = JoinRequests::new();
    assert_eq!(q.take(), None);
    q.push(JoinRequest { lobby: 1, from: 10 });
    q.push(JoinRequest { lobby: 2, from: 20 });
    assert_eq!(q.take(), Some(JoinRequest { lobby: 1, from: 10 }));
    q.push(JoinRequest { lobby: 3, from: 0 });
    assert_eq!(q.take(), Some(JoinRequest { lobby: 2, from: 20 }));
    assert_eq!(q.take(), Some(JoinRequest { lobby: 3, from: 0 }));
    assert_eq!(q.take(), None);
}

#[test]
fn room_values_trim_unicode_white_space() {
    assert_eq!(room_note_value("\u{3000}\t note \u{2028}"), "note");
    assert_eq!(room_note_value(" a b "), "a b");
    assert_eq!(room_name_value("\u{a0}\u{2003}"), DEFAULT_ROOM_NAME);
    assert_eq!(room_name_value(" 房间 "), "房间");
}

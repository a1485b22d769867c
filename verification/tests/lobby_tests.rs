use brawl_core::lobby::{LobbyPlayerTable, SteamID};

#[test]
fn lobby_table_maps_members_to_slots_deterministically() {
    let host = SteamID(100);
    let mut members = vec![SteamID(3), SteamID(1), SteamID(2)];
    let table = LobbyPlayerTable::new(host, members.clone());

    assert_eq!(table.total_players(), 4, "host + 3");
    assert!(table.is_host(SteamID(100)));
    assert!(!table.is_host(SteamID(1)));
    assert_eq!(table.slot_of(SteamID(100)), Some(0));
    assert_eq!(table.slot_of(SteamID(1)), Some(1));
    assert_eq!(table.slot_of(SteamID(2)), Some(2));
    assert_eq!(table.slot_of(SteamID(3)), Some(3));
    assert_eq!(table.slot_of(SteamID(999)), None, "an identity outside the roster has no slot");
    let order = table.identities_in_order();
    assert_eq!(order, vec![(0, SteamID(100)), (1, SteamID(1)), (2, SteamID(2)), (3, SteamID(3))]);

    members.sort();
    let table2 = LobbyPlayerTable::new(host, members);
    assert_eq!(table.identities_in_order(), table2.identities_in_order());
}

#[test]
fn host_listed_among_members_takes_slot_zero_once() {
    let host = SteamID(50);
    let table = LobbyPlayerTable::new(host, vec![SteamID(70), SteamID(50), SteamID(10)]);
    assert_eq!(table.total_players(), 3);
    assert_eq!(
        table.identities_in_order(),
        vec![(0, SteamID(50)), (1, SteamID(10)), (2, SteamID(70))]
    );
    assert_eq!(table.slot_of(SteamID(50)), Some(0));
}

#[test]
fn host_alone_is_one_player() {
    let table = LobbyPlayerTable::new(SteamID(7), Vec::new());
    assert_eq!(table.total_players(), 1);
    assert_eq!(table.identities_in_order(), vec![(0, SteamID(7))]);
    assert!(table.is_host(SteamID(7)));
    assert_eq!(table.slot_of(SteamID(8)), None);
}

#[test]
fn member_order_does_not_matter() {
    let host = SteamID(1);
    let a = LobbyPlayerTable::new(host, vec![SteamID(9), SteamID(4), SteamID(6), SteamID(2)]);
    let b = LobbyPlayerTable::new(host, vec![SteamID(2), SteamID(6), SteamID(9), SteamID(4)]);
    assert_eq!(a.identities_in_order(), b.identities_in_order());
    assert_eq!(a.slot_of(SteamID(6)), Some(3));
}

#[test]
fn cloned_table_is_equal() {
    let t = LobbyPlayerTable::new(SteamID(5), vec![SteamID(3), SteamID(8)]);
    let c = t.clone();
    assert_eq!(t.identities_in_order(), c.identities_in_order());
    assert!(c.is_host(SteamID(5)));
}

use rooms::account::{Account, MIN_STORAGE_BALANCE, STORAGE_PRICE_PER_BYTE};
use rooms::contract::Contract;
use rooms::room::{RoomConfig, RoomError};

fn s(x: &str) -> String {
    x.to_string()
}

fn config(app: &str, name: &str, limit: usize) -> RoomConfig {
    RoomConfig { app_name: s(app), name: s(name), is_hidden: false, player_limit: limit, extra: None }
}

fn store_with_room(limit: usize) -> (Contract, u64) {
    let mut c = Contract::new();
    let id = c.create_room(&s("alice.near"), MIN_STORAGE_BALANCE, config("chess", "lobby", limit)).unwrap();
    (c, id)
}

#[test]
fn full_room_rejects_second_player() {
    let (mut c, id) = store_with_room(1);
    let room = c.get_room(&s("chess"), id).unwrap();
    assert_eq!(room.players, vec![s("alice.near")]);
    assert_eq!(c.join(&s("bob.near"), id, &s("chess")), Err(RoomError::CapacityExceeded));
}

#[test]
fn banned_player_cannot_join() {
    let (mut c, id) = store_with_room(4);
    assert_eq!(c.kick_and_ban(&s("alice.near"), &s("bob.near"), id), Ok(()));
    assert_eq!(c.join(&s("bob.near"), id, &s("chess")), Err(RoomError::PlayerBanned));
}

#[test]
fn kick_removes_member_and_clears_its_current_room() {
    let (mut c, id) = store_with_room(4);
    c.join(&s("bob.near"), id, &s("chess")).unwrap();
    assert!(c.get_app_account_room(&s("chess"), &s("bob.near")).is_some());
    c.kick_and_ban(&s("alice.near"), &s("bob.near"), id).unwrap();
    let room = c.get_room(&s("chess"), id).unwrap();
    assert_eq!(room.players, vec![s("alice.near")]);
    assert_eq!(room.banned_players, vec![s("bob.near")]);
    assert!(c.get_app_account_room(&s("chess"), &s("bob.near")).is_none());
}

#[test]
fn only_owner_may_kick() {
    let (mut c, id) = store_with_room(4);
    assert_eq!(c.kick_and_ban(&s("bob.near"), &s("alice.near"), id), Err(RoomError::NotAuthorized));
}

#[test]
fn random_join_without_available_rooms_changes_nothing() {
    let (mut c, id) = store_with_room(4);
    c.close(&s("alice.near"), id, &s("chess")).unwrap();
    assert_eq!(c.get_number_of_available_rooms(&s("chess")), 0);
    let before = format!("{:?}", c);
    assert_eq!(c.random_join(&s("bob.near"), &s("chess"), &vec![7u8; 32]), Err(RoomError::NoRoomsAvailable));
    assert_eq!(format!("{:?}", c), before);
}

#[test]
fn random_join_unknown_app_is_not_found() {
    let mut c = Contract::new();
    assert_eq!(c.random_join(&s("bob.near"), &s("chess"), &vec![0u8; 32]), Err(RoomError::NotFound));
}

#[test]
fn random_join_when_already_in_a_room() {
    let (mut c, _) = store_with_room(4);
    assert_eq!(c.random_join(&s("alice.near"), &s("chess"), &vec![0u8; 32]), Err(RoomError::AlreadyInRoom));
}

#[test]
fn random_join_picks_by_first_seed_byte() {
    let mut c = Contract::new();
    for name in ["a", "b", "c", "d"] {
        c.create_room(&s("alice.near"), MIN_STORAGE_BALANCE, config("chess", name, 4)).unwrap();
    }
    // 192 / 256 * 4 = 3
    let mut seed = vec![0u8; 32];
    seed[0] = 192;
    assert_eq!(c.random_join(&s("bob.near"), &s("chess"), &seed), Ok(3));
    assert_eq!(c.get_app_account_room(&s("chess"), &s("bob.near")).unwrap().room_id, 3);
}

#[test]
fn create_room_beyond_minimum_balance_is_rejected_whole() {
    let mut c = Contract::new();
    let long_name = "x".repeat(3000);
    let r = c.create_room(&s("alice.near"), MIN_STORAGE_BALANCE, config("chess", &long_name, 4));
    assert_eq!(r, Err(RoomError::StorageLimitExceeded));
    assert!(c.get_room(&s("chess"), 0).is_none());
    assert_eq!(c.get_number_of_available_rooms(&s("chess")), 0);
    assert!(c.get_app_account_room(&s("chess"), &s("alice.near")).is_none());
    assert_eq!(c.next_room_id, 0);
    assert_eq!(c.internal_get_account(&s("alice.near")), Err(RoomError::NotFound));
}

#[test]
fn close_then_open_restores_the_room() {
    let (mut c, id) = store_with_room(4);
    c.close(&s("alice.near"), id, &s("chess")).unwrap();
    assert_eq!(c.join(&s("bob.near"), id, &s("chess")), Err(RoomError::InvalidState));
    c.open(&s("alice.near"), id, &s("chess")).unwrap();
    assert_eq!(c.get_number_of_available_rooms(&s("chess")), 1);
    assert_eq!(c.join(&s("bob.near"), id, &s("chess")), Ok(()));
}

#[test]
fn open_and_close_errors() {
    let (mut c, id) = store_with_room(4);
    assert_eq!(c.open(&s("alice.near"), id, &s("chess")), Err(RoomError::InvalidState));
    assert_eq!(c.close(&s("bob.near"), id, &s("chess")), Err(RoomError::NotAuthorized));
    c.close(&s("alice.near"), id, &s("chess")).unwrap();
    assert_eq!(c.close(&s("alice.near"), id, &s("chess")), Err(RoomError::InvalidState));
    assert_eq!(c.open(&s("bob.near"), id, &s("chess")), Err(RoomError::NotAuthorized));
    assert_eq!(c.open(&s("alice.near"), 9, &s("chess")), Err(RoomError::NotFound));
}

#[test]
fn accounts_stay_covered() {
    let mut c = Contract::new();
    for name in ["a", "b", "c"] {
        c.create_room(&s("alice.near"), MIN_STORAGE_BALANCE, config("chess", name, 4)).unwrap();
    }
    let a = c.internal_get_account(&s("alice.near")).unwrap();
    assert!(a.used_bytes as u128 * STORAGE_PRICE_PER_BYTE <= a.storage_balance);
    assert!(a.is_storage_covered());
}

#[test]
fn create_room_charges_exact_bytes() {
    let mut c = Contract::new();
    c.create_room(&s("alice.near"), MIN_STORAGE_BALANCE, config("chess", "lobby", 4)).unwrap();
    assert_eq!(c.internal_get_account(&s("alice.near")).unwrap().used_bytes, 321);
    assert_eq!(c.internal_get_account(&s("alice.near")).unwrap().storage_balance, MIN_STORAGE_BALANCE);
    // the owner's current-room entry exists now, so it is not charged again
    c.create_room(&s("alice.near"), 5, config("chess", "lobby", 4)).unwrap();
    let a = c.internal_get_account(&s("alice.near")).unwrap();
    assert_eq!(a.used_bytes, 570);
    assert_eq!(a.storage_balance, MIN_STORAGE_BALANCE + 5);
}

#[test]
fn create_room_counts_utf8_bytes() {
    let mut c = Contract::new();
    c.create_room(&s("alice.near"), MIN_STORAGE_BALANCE, config("chess", "lobé", 4)).unwrap();
    assert_eq!(c.internal_get_account(&s("alice.near")).unwrap().used_bytes, 321);
}

#[test]
fn create_room_with_extra() {
    let mut c = Contract::new();
    let mut cfg = config("chess", "lobby", 4);
    cfg.extra = Some(s("abc"));
    c.create_room(&s("alice.near"), MIN_STORAGE_BALANCE, cfg).unwrap();
    assert_eq!(c.internal_get_account(&s("alice.near")).unwrap().used_bytes, 328);
    assert_eq!(c.get_room(&s("chess"), 0).unwrap().extra, Some(s("abc")));
}

#[test]
fn create_room_deposit_errors() {
    let mut c = Contract::new();
    assert_eq!(
        c.create_room(&s("alice.near"), MIN_STORAGE_BALANCE - 1, config("chess", "lobby", 4)),
        Err(RoomError::InsufficientDeposit)
    );
    assert_eq!(
        c.create_room(&s("Alice"), MIN_STORAGE_BALANCE, config("chess", "lobby", 4)),
        Err(RoomError::InvalidAccountId)
    );
    assert_eq!(
        c.create_room(&s("alice.near"), MIN_STORAGE_BALANCE, config("chess", "lobby", 0)),
        Err(RoomError::CapacityExceeded)
    );
    c.create_room(&s("alice.near"), MIN_STORAGE_BALANCE, config("chess", "lobby", 4)).unwrap();
    assert_eq!(
        c.create_room(&s("alice.near"), u128::MAX, config("chess", "lobby", 4)),
        Err(RoomError::BalanceOverflow)
    );
}

#[test]
fn account_id_rule() {
    let mut c = Contract::new();
    for good in ["aa", "a-a", "a_b.c", "100", "alice.near"] {
        assert!(c.internal_unwrap_account_or_create(&s(good), MIN_STORAGE_BALANCE).is_ok(), "{}", good);
    }
    for bad in ["a", "-a", "a-", "a..b", "A", "a b", ""] {
        assert_eq!(
            c.internal_unwrap_account_or_create(&s(bad), MIN_STORAGE_BALANCE),
            Err(RoomError::InvalidAccountId),
            "{}",
            bad
        );
    }
}

#[test]
fn ids_are_never_reused() {
    let (mut c, id) = store_with_room(4);
    assert_eq!(id, 0);
    c.remove(&s("alice.near"), id, &s("chess")).unwrap();
    let next = c.create_room(&s("alice.near"), 0, config("chess", "again", 4)).unwrap();
    assert_eq!(next, 1);
}

#[test]
fn remove_purges_every_index() {
    let (mut c, id) = store_with_room(4);
    c.join(&s("bob.near"), id, &s("chess")).unwrap();
    assert_eq!(c.remove(&s("bob.near"), id, &s("chess")), Err(RoomError::NotAuthorized));
    c.remove(&s("alice.near"), id, &s("chess")).unwrap();
    assert!(c.get_room(&s("chess"), id).is_none());
    assert_eq!(c.get_number_of_available_rooms(&s("chess")), 0);
    assert!(c.get_app_account_room(&s("chess"), &s("alice.near")).is_none());
    assert!(c.get_app_account_room(&s("chess"), &s("bob.near")).is_none());
    assert_eq!(c.apps[0].rooms_by_owner.len(), 0);
    assert_eq!(c.join(&s("carol.near"), id, &s("chess")), Err(RoomError::NotFound));
}

#[test]
fn remove_closed_room() {
    let (mut c, id) = store_with_room(4);
    c.close(&s("alice.near"), id, &s("chess")).unwrap();
    assert_eq!(c.remove(&s("alice.near"), id, &s("chess")), Ok(()));
    assert!(c.get_room(&s("chess"), id).is_none());
}

#[test]
fn join_and_leave() {
    let (mut c, id) = store_with_room(3);
    c.join(&s("bob.near"), id, &s("chess")).unwrap();
    c.join(&s("carol.near"), id, &s("chess")).unwrap();
    assert_eq!(c.join(&s("bob.near"), id, &s("chess")), Err(RoomError::CapacityExceeded));
    c.leave(&s("alice.near"), id, &s("chess")).unwrap();
    // the last player takes the place of the one who left
    assert_eq!(c.get_room(&s("chess"), id).unwrap().players, vec![s("carol.near"), s("bob.near")]);
    assert!(c.get_app_account_room(&s("chess"), &s("alice.near")).is_none());
    assert_eq!(c.leave(&s("alice.near"), id, &s("chess")), Err(RoomError::NotAMember));
    assert_eq!(c.join(&s("bob.near"), id, &s("chess")), Err(RoomError::AlreadyJoined));
    assert_eq!(c.join(&s("bob.near"), id, &s("go")), Err(RoomError::NotFound));
}

#[test]
fn closed_room_cannot_be_left() {
    let (mut c, id) = store_with_room(3);
    c.join(&s("bob.near"), id, &s("chess")).unwrap();
    c.close(&s("alice.near"), id, &s("chess")).unwrap();
    assert_eq!(c.leave(&s("bob.near"), id, &s("chess")), Err(RoomError::InvalidState));
    assert_eq!(c.kick_and_ban(&s("alice.near"), &s("bob.near"), id), Err(RoomError::InvalidState));
}

#[test]
fn current_room_follows_membership() {
    let (mut c, id) = store_with_room(3);
    assert_eq!(c.get_app_account_room(&s("chess"), &s("alice.near")).unwrap().room_id, id);
    c.join(&s("bob.near"), id, &s("chess")).unwrap();
    let room = c.get_app_account_room(&s("chess"), &s("bob.near")).unwrap();
    assert!(room.players.contains(&s("bob.near")));
    c.leave(&s("bob.near"), id, &s("chess")).unwrap();
    assert!(c.get_app_account_room(&s("chess"), &s("bob.near")).is_none());
    assert!(c.get_app_account_room(&s("go"), &s("alice.near")).is_none());
}

#[test]
fn app_rooms_pages() {
    let mut c = Contract::new();
    for name in ["a", "b", "c", "d", "e"] {
        c.create_room(&s("alice.near"), MIN_STORAGE_BALANCE, config("chess", name, 4)).unwrap();
    }
    let page = c.get_app_rooms(&s("chess"), Some(1), Some(2)).unwrap();
    assert_eq!(page.iter().map(|r| r.name.clone()).collect::<Vec<_>>(), vec![s("b"), s("c")]);
    assert_eq!(c.get_app_rooms(&s("chess"), Some(4), Some(10)).unwrap().len(), 1);
    assert_eq!(c.get_app_rooms(&s("chess"), Some(9), Some(10)).unwrap().len(), 0);
    assert_eq!(c.get_app_rooms(&s("chess"), None, None).unwrap().len(), 0);
    assert_eq!(c.get_app_rooms(&s("go"), None, Some(3)).err(), Some(RoomError::NotFound));
    assert_eq!(c.get_number_of_available_rooms(&s("chess")), 5);
    assert_eq!(c.get_number_of_available_rooms(&s("go")), 0);
}

#[test]
fn random_in_range_values() {
    let c = Contract::new();
    assert_eq!(c.get_random_in_range(0, 10, 0, &vec![128]), 5);
    assert_eq!(c.get_random_in_range(0, 4, 1, &vec![0, 255]), 3);
    assert_eq!(c.get_random_in_range(2, 2, 0, &vec![255]), 2);
    assert_eq!(c.get_random_in_range(10, 13, 0, &vec![0]), 10);
}

#[test]
fn random_room_by_seed() {
    let mut c = Contract::new();
    for name in ["a", "b"] {
        c.create_room(&s("alice.near"), MIN_STORAGE_BALANCE, config("chess", name, 4)).unwrap();
    }
    assert_eq!(c.get_random_room(&s("chess"), &vec![127]).unwrap().name, s("a"));
    assert_eq!(c.get_random_room(&s("chess"), &vec![128]).unwrap().name, s("b"));
    assert_eq!(c.get_random_room(&s("go"), &vec![0]).err(), Some(RoomError::NotFound));
}

#[test]
fn ledger_functions() {
    let mut c = Contract::new();
    assert_eq!(c.storage_balance_bounds().min, MIN_STORAGE_BALANCE);
    assert_eq!(c.storage_balance_bounds().max, None);
    assert_eq!(c.internal_create_account(&s("bob.near"), MIN_STORAGE_BALANCE - 1, false), Err(RoomError::InsufficientDeposit));
    assert_eq!(c.internal_create_account(&s("bob.near"), MIN_STORAGE_BALANCE + 7, true), Ok(7));
    assert_eq!(c.internal_get_account(&s("bob.near")).unwrap().storage_balance, MIN_STORAGE_BALANCE);
    assert_eq!(c.internal_create_account(&s("carol.near"), MIN_STORAGE_BALANCE + 7, false), Ok(0));
    assert_eq!(c.internal_get_account(&s("carol.near")).unwrap().storage_balance, MIN_STORAGE_BALANCE + 7);
    let existing = c.internal_unwrap_account_or_create(&s("carol.near"), 3).unwrap();
    assert_eq!(existing.storage_balance, MIN_STORAGE_BALANCE + 10);
    assert_eq!(c.internal_get_account(&s("carol.near")).unwrap().storage_balance, MIN_STORAGE_BALANCE + 7);
    let fresh = c.internal_unwrap_account_or_create(&s("erin.near"), MIN_STORAGE_BALANCE).unwrap();
    assert_eq!(c.internal_get_account(&s("erin.near")), Ok(fresh));
    assert_eq!(c.internal_unwrap_account_or_create(&s("frank.near"), 1), Err(RoomError::InsufficientDeposit));
    assert_eq!(c.internal_get_account(&s("frank.near")), Err(RoomError::NotFound));

    let mut a = Account::new();
    a.storage_balance = MIN_STORAGE_BALANCE;
    a.start_storage_tracker();
    a.storage_tracker.add(2000);
    a.stop_storage_tracker();
    assert_eq!(c.internal_set_account(&s("dave.near"), a), Ok(false));
    assert_eq!(c.internal_get_account(&s("dave.near")).unwrap().used_bytes, 2000);
}

#[test]
fn reconcile_outcomes() {
    let mut a = Account::new();
    a.storage_balance = MIN_STORAGE_BALANCE;
    a.start_storage_tracker();
    a.storage_tracker.add(2001);
    a.stop_storage_tracker();
    let before = a;
    assert_eq!(a.reconcile(), Err(RoomError::StorageLimitExceeded));
    assert_eq!(a, before);

    let mut b = Account::new();
    b.used_bytes = 10;
    b.start_storage_tracker();
    b.storage_tracker.release(11);
    b.stop_storage_tracker();
    assert_eq!(b.reconcile(), Err(RoomError::AccountingBug));

    let mut d = Account::new();
    d.used_bytes = 10;
    d.storage_balance = MIN_STORAGE_BALANCE;
    d.start_storage_tracker();
    d.storage_tracker.add(5);
    d.storage_tracker.release(9);
    d.stop_storage_tracker();
    assert_eq!(d.reconcile(), Ok(()));
    assert_eq!(d.used_bytes, 6);
    assert_eq!(d.storage_tracker.bytes_added, 0);
    assert_eq!(d.storage_tracker.bytes_released, 0);
}

#[test]
fn default_store_is_empty() {
    let c = Contract::default();
    assert_eq!(c.next_room_id, 0);
    assert!(c.get_room(&s("chess"), 0).is_none());
}

#[test]
fn owner_rooms_pages() {
    let mut c = Contract::new();
    c.create_room(&s("alice.near"), MIN_STORAGE_BALANCE, config("chess", "a", 4)).unwrap();
    c.create_room(&s("bob.near"), MIN_STORAGE_BALANCE, config("chess", "b", 4)).unwrap();
    c.create_room(&s("alice.near"), 0, config("chess", "c", 4)).unwrap();
    c.create_room(&s("alice.near"), 0, config("go", "d", 4)).unwrap();
    let names = |rooms: Vec<rooms::room::Room>| rooms.iter().map(|r| r.name.clone()).collect::<Vec<_>>();
    assert_eq!(names(c.get_owner_rooms(&s("chess"), &s("alice.near"), None, Some(10)).unwrap()), vec![s("a"), s("c")]);
    assert_eq!(names(c.get_owner_rooms(&s("chess"), &s("alice.near"), Some(1), Some(10)).unwrap()), vec![s("c")]);
    assert_eq!(names(c.get_owner_rooms(&s("chess"), &s("bob.near"), None, Some(10)).unwrap()), vec![s("b")]);
    c.remove(&s("alice.near"), 0, &s("chess")).unwrap();
    assert_eq!(names(c.get_owner_rooms(&s("chess"), &s("alice.near"), None, Some(10)).unwrap()), vec![s("c")]);
    assert_eq!(c.get_owner_rooms(&s("cards"), &s("alice.near"), None, Some(10)).err(), Some(RoomError::NotFound));
}

#[test]
fn remove_clears_members_in_other_rooms_too() {
    let mut c = Contract::new();
    let a = c.create_room(&s("alice.near"), MIN_STORAGE_BALANCE, config("chess", "a", 4)).unwrap();
    let b = c.create_room(&s("carol.near"), MIN_STORAGE_BALANCE, config("chess", "b", 4)).unwrap();
    c.join(&s("bob.near"), a, &s("chess")).unwrap();
    c.join(&s("bob.near"), b, &s("chess")).unwrap();
    assert_eq!(c.get_app_account_room(&s("chess"), &s("bob.near")).unwrap().room_id, b);
    c.remove(&s("alice.near"), a, &s("chess")).unwrap();
    assert!(c.get_app_account_room(&s("chess"), &s("bob.near")).is_none());
    assert_eq!(c.get_app_account_room(&s("chess"), &s("carol.near")).unwrap().room_id, b);
}

#[test]
fn remove_releases_the_rooms_bytes() {
    let (mut c, id) = store_with_room(4);
    assert_eq!(c.internal_get_account(&s("alice.near")).unwrap().used_bytes, 321);
    c.remove(&s("alice.near"), id, &s("chess")).unwrap();
    // the owner's current-room entry (72 bytes) stays
    assert_eq!(c.internal_get_account(&s("alice.near")).unwrap().used_bytes, 72);
}

#[test]
fn owner_remove_succeeds_even_when_the_ledger_holds_less() {
    let (mut c, id) = store_with_room(4);
    // an existing account is not replaced: the whole deposit comes back
    assert_eq!(c.internal_create_account(&s("alice.near"), MIN_STORAGE_BALANCE, false), Ok(MIN_STORAGE_BALANCE));
    assert_eq!(c.internal_get_account(&s("alice.near")).unwrap().used_bytes, 321);
    let mut reset = Account::new();
    reset.storage_balance = MIN_STORAGE_BALANCE;
    c.internal_set_account(&s("alice.near"), reset).unwrap();
    assert_eq!(c.remove(&s("alice.near"), id, &s("chess")), Ok(()));
    assert!(c.get_room(&s("chess"), id).is_none());
    assert_eq!(c.internal_get_account(&s("alice.near")).unwrap().used_bytes, 0);
}

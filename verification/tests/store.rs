use chess_store::error::StoreError;
use chess_store::games::{GameResult, NewGame};
use chess_store::openings::Opening;
use chess_store::store::Store;

fn obs(hash: u64, mov: &[u8], white: u64, black: u64, draw: u64) -> Opening {
    Opening { hash, mov: mov.to_vec(), white, black, draw }
}

#[test]
fn player_same_id_every_time() {
    let mut store = Store::new();
    let name = String::from("Carlsen");
    let first = store.create_player(&name).unwrap();
    let second = store.create_player(&name).unwrap();
    let third = store.create_player(&name).unwrap();
    assert_eq!(first, second);
    assert_eq!(second, third);
    assert_eq!(store.players.rows.len(), 1);
    assert_eq!(store.players.rows[0].id, first);
    assert_eq!(store.players.rows[0].name, name);
}

#[test]
fn racing_creators_resolve_to_one_row() {
    // Two callers racing on one key are serialized by the store; either
    // interleaving is some sequential order of the same calls.
    let mut store = Store::new();
    let name = String::from("Kasparov");
    let caller_a_first = store.create_player(&name).unwrap();
    let caller_b_first = store.create_player(&name).unwrap();
    let caller_a_second = store.create_player(&name).unwrap();
    let caller_b_second = store.create_player(&name).unwrap();
    assert_eq!(caller_a_first, caller_b_first);
    assert_eq!(caller_a_second, caller_b_second);
    assert_eq!(caller_a_first, caller_b_second);
    let matching = store
        .players
        .rows
        .iter()
        .filter(|r| r.name == name)
        .count();
    assert_eq!(matching, 1);
    assert_eq!(store.players.rows.len(), 1);
}

#[test]
fn distinct_names_get_distinct_identities() {
    let mut store = Store::new();
    let a = store.create_player(&String::from("Tal")).unwrap();
    let b = store.create_player(&String::from("Fischer")).unwrap();
    assert_eq!(a, 1);
    assert_eq!(b, 2);
    assert_eq!(store.players.rows.len(), 2);
}

#[test]
fn event_and_site_registrars_deduplicate() {
    let mut store = Store::new();
    let event = String::from("Candidates");
    let site = String::from("Berlin");
    let e1 = store.create_event(&event).unwrap();
    let e2 = store.create_event(&event).unwrap();
    let s1 = store.create_site(&site).unwrap();
    let s2 = store.create_site(&site).unwrap();
    assert_eq!(e1, e2);
    assert_eq!(s1, s2);
    assert_eq!(store.events.rows.len(), 1);
    assert_eq!(store.sites.rows.len(), 1);
}

#[test]
fn registrars_do_not_share_rows() {
    let mut store = Store::new();
    let name = String::from("London");
    let event_id = store.create_event(&name).unwrap();
    let site_id = store.create_site(&name).unwrap();
    assert_eq!(event_id, 1);
    assert_eq!(site_id, 1);
    assert_eq!(store.events.rows.len(), 1);
    assert_eq!(store.sites.rows.len(), 1);
}

fn game(white: u64, black: u64, event: u64, site: u64, date: &str, round: u32) -> NewGame {
    NewGame {
        white_id: white,
        black_id: black,
        event_id: event,
        site_id: site,
        date: String::from(date),
        round,
        result: GameResult::Draw,
    }
}

#[test]
fn identical_game_twice_one_row() {
    let mut store = Store::new();
    let first = store.create_game(game(1, 2, 1, 1, "2024.04.03", 7)).unwrap();
    let second = store.create_game(game(1, 2, 1, 1, "2024.04.03", 7)).unwrap();
    assert_eq!(first, second);
    assert_eq!(store.games.rows.len(), 1);
}

#[test]
fn games_differing_in_any_key_field_are_distinct() {
    let mut store = Store::new();
    let base = store.create_game(game(1, 2, 1, 1, "2024.04.03", 7)).unwrap();
    let other_round = store.create_game(game(1, 2, 1, 1, "2024.04.03", 8)).unwrap();
    let other_date = store.create_game(game(1, 2, 1, 1, "2024.04.04", 7)).unwrap();
    assert_ne!(base, other_round);
    assert_ne!(base, other_date);
    assert_ne!(other_round, other_date);
    assert_eq!(store.games.rows.len(), 3);
}

#[test]
fn merge_batches_in_either_order_sum() {
    let mov = [0x12u8, 0x34];
    let batch_a = || vec![obs(9, &mov, 1, 0, 0)];
    let batch_b = || vec![obs(9, &mov, 0, 1, 0)];

    let mut ab = Store::new();
    ab.add_opening(batch_a()).unwrap();
    ab.add_opening(batch_b()).unwrap();

    let mut ba = Store::new();
    ba.add_opening(batch_b()).unwrap();
    ba.add_opening(batch_a()).unwrap();

    let mov_vec = mov.to_vec();
    assert_eq!(ab.opening_counts(9, &mov_vec), Some((1, 1, 0)));
    assert_eq!(ba.opening_counts(9, &mov_vec), Some((1, 1, 0)));
}

#[test]
fn duplicate_keys_in_one_batch_sum() {
    let mut store = Store::new();
    let mov = [0xaau8];
    let batch = vec![obs(4, &mov, 1, 0, 0), obs(4, &mov, 1, 0, 0)];
    store.add_opening(batch).unwrap();
    assert_eq!(store.opening_counts(4, &mov.to_vec()), Some((2, 0, 0)));
}

#[test]
fn first_observation_creates_row_with_given_counters() {
    let mut store = Store::new();
    let mov = [0x01u8, 0x02];
    store.add_opening(vec![obs(3, &mov, 5, 2, 7)]).unwrap();
    assert_eq!(store.opening_counts(3, &mov.to_vec()), Some((5, 2, 7)));
    store.add_opening(vec![obs(3, &mov, 1, 1, 1)]).unwrap();
    assert_eq!(store.opening_counts(3, &mov.to_vec()), Some((6, 3, 8)));
}

#[test]
fn independent_keys_do_not_interfere() {
    let mut store = Store::new();
    let mov_a = [0x11u8];
    let mov_b = [0x22u8];
    store.add_opening(vec![obs(1, &mov_a, 1, 0, 0)]).unwrap();
    store.add_opening(vec![obs(1, &mov_b, 0, 0, 1), obs(2, &mov_a, 0, 1, 0)]).unwrap();
    assert_eq!(store.opening_counts(1, &mov_a.to_vec()), Some((1, 0, 0)));
    assert_eq!(store.opening_counts(1, &mov_b.to_vec()), Some((0, 0, 1)));
    assert_eq!(store.opening_counts(2, &mov_a.to_vec()), Some((0, 1, 0)));
    assert_eq!(store.opening_counts(2, &mov_b.to_vec()), None);
}

#[test]
fn move_with_zero_and_quote_bytes_round_trips() {
    let mut store = Store::new();
    let mov = [0x00u8, b'\'', b'"', 0xff];
    store.add_opening(vec![obs(77, &mov, 0, 0, 1)]).unwrap();
    assert_eq!(store.opening_counts(77, &mov.to_vec()), Some((0, 0, 1)));
    // A key differing in one byte resolves to no row: the bytes were
    // stored exactly.
    let other = [0x00u8, b'\'', b'"', 0xfe];
    assert_eq!(store.opening_counts(77, &other.to_vec()), None);
    let shorter = [0x00u8, b'\'', b'"'];
    assert_eq!(store.opening_counts(77, &shorter.to_vec()), None);
}

#[test]
fn failing_batch_changes_nothing() {
    let mut store = Store::new();
    let k1 = [0x01u8];
    store.add_opening(vec![obs(1, &k1, u64::MAX, 0, 0)]).unwrap();

    let k2 = [0x02u8];
    let k3 = [0x03u8];
    let k4 = [0x04u8];
    let k5 = [0x05u8];
    let batch = vec![
        obs(1, &k2, 1, 0, 0),
        obs(1, &k3, 1, 0, 0),
        obs(1, &k1, 1, 0, 0),
        obs(1, &k4, 1, 0, 0),
        obs(1, &k5, 1, 0, 0),
    ];
    let err = store.add_opening(batch).unwrap_err();
    assert_eq!(err, StoreError::StoreFailure);
    assert_eq!(store.opening_counts(1, &k1.to_vec()), Some((u64::MAX, 0, 0)));
    assert_eq!(store.opening_counts(1, &k2.to_vec()), None);
    assert_eq!(store.opening_counts(1, &k3.to_vec()), None);
    assert_eq!(store.opening_counts(1, &k4.to_vec()), None);
    assert_eq!(store.opening_counts(1, &k5.to_vec()), None);
}

#[test]
fn overflow_within_one_batch_also_fails_cleanly() {
    let mut store = Store::new();
    let mov = [0x09u8];
    let batch = vec![obs(6, &mov, u64::MAX, 0, 0), obs(6, &mov, 1, 0, 0)];
    let err = store.add_opening(batch).unwrap_err();
    assert_eq!(err, StoreError::StoreFailure);
    assert_eq!(store.opening_counts(6, &mov.to_vec()), None);
}

#[test]
fn empty_move_bytes_are_a_valid_key() {
    let mut store = Store::new();
    let empty: [u8; 0] = [];
    store.add_opening(vec![obs(5, &empty, 1, 0, 0)]).unwrap();
    assert_eq!(store.opening_counts(5, &Vec::new()), Some((1, 0, 0)));
}

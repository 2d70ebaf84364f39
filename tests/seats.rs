use delver_sim::ids::ActiveCharacterID;
use delver_sim::roster::{Position, Roster};
use delver_sim::roster::Position::{Bottom, Charm, Down, Strange, Top, Up};
use rand::SeedableRng;
use rand_chacha::ChaCha8Rng;

fn full_roster() -> Roster {
    let mut r = Roster::new();
    for i in 0..6u128 {
        assert!(r.add_character(ActiveCharacterID(i)).is_some());
    }
    r
}

#[test]
fn orders_of_seats() {
    assert_eq!(Position::canonical_order(), [Top, Charm, Up, Down, Strange, Bottom]);
    assert_eq!(Position::enter_order(), [Top, Up, Down, Bottom, Strange, Charm]);
}

#[test]
fn cycle_after_bottom_is_the_canonical_order() {
    assert_eq!(Position::Bottom.single_canonical_cycle(), Position::canonical_order().to_vec());
    assert_eq!(Up.single_canonical_cycle(), vec![Down, Strange, Bottom, Top, Charm, Up]);
}

#[test]
fn newcomers_fill_the_entry_order_then_the_roster_is_full() {
    let mut r = Roster::new();
    let seats: Vec<Option<Position>> = (0..7u128).map(|i| r.add_character(ActiveCharacterID(i))).collect();
    assert_eq!(seats, vec![Some(Top), Some(Up), Some(Down), Some(Bottom), Some(Strange), Some(Charm), None]);
    assert_eq!(r.characters.iter().filter(|c| c.is_some()).count(), 6);
    assert_eq!(r.get(Charm), Some(ActiveCharacterID(5)));
}

#[test]
fn newcomer_takes_the_lowest_empty_entry_seat() {
    let mut r = Roster::new();
    r.characters[Position::Top.index()] = Some(ActiveCharacterID(1));
    r.characters[Position::Down.index()] = Some(ActiveCharacterID(2));
    assert_eq!(r.add_character(ActiveCharacterID(3)), Some(Position::Up));
    assert_eq!(r.add_character(ActiveCharacterID(4)), Some(Position::Bottom));
}

#[test]
fn next_filled_visits_every_seat_in_canonical_order() {
    let mut r = full_roster();
    let seen: Vec<Position> = (0..6).map(|_| { r.next_filled(); r.previous_turn }).collect();
    assert_eq!(seen, Position::canonical_order().to_vec());
}

#[test]
fn seventh_call_repeats_the_first() {
    let mut r = full_roster();
    r.previous_turn = Position::Up;
    let results: Vec<Option<ActiveCharacterID>> = (0..7).map(|_| r.next_filled()).collect();
    assert_eq!(results[6], results[0]);
    let mut distinct = results[..6].to_vec();
    distinct.sort_by_key(|c| c.map(|id| id.0));
    distinct.dedup();
    assert_eq!(distinct.len(), 6);
}

#[test]
fn next_filled_skips_empty_seats_and_wraps() {
    let mut r = Roster::new();
    r.characters[Position::Charm.index()] = Some(ActiveCharacterID(7));
    r.characters[Position::Strange.index()] = Some(ActiveCharacterID(8));
    assert_eq!(r.next_filled(), Some(ActiveCharacterID(7)));
    assert_eq!(r.previous_turn, Position::Charm);
    assert_eq!(r.next_filled(), Some(ActiveCharacterID(8)));
    assert_eq!(r.next_filled(), Some(ActiveCharacterID(7)));
}

#[test]
fn next_filled_on_an_empty_roster_is_none() {
    let mut r = Roster::new();
    assert_eq!(r.next_filled(), None);
    assert_eq!(r.previous_turn, Position::Bottom);
}

#[test]
fn random_filled_returns_an_occupant_and_keeps_the_pointer() {
    let mut rng = ChaCha8Rng::seed_from_u64(7);
    let mut r = Roster::new();
    r.characters[Position::Strange.index()] = Some(ActiveCharacterID(42));
    for _ in 0..10 {
        assert_eq!(r.random_filled(&mut rng), Some(ActiveCharacterID(42)));
    }
    assert_eq!(r.previous_turn, Position::Bottom);
    assert_eq!(Roster::new().random_filled(&mut rng), None);
}

#[test]
fn first_filled_in_follows_the_given_order() {
    let mut r = Roster::new();
    r.characters[Up.index()] = Some(ActiveCharacterID(1));
    r.characters[Bottom.index()] = Some(ActiveCharacterID(2));
    assert_eq!(r.first_filled_in(&vec![Charm, Bottom, Up]), Some(ActiveCharacterID(2)));
    assert_eq!(r.first_filled_in(&vec![Top, Charm]), None);
}

#[test]
fn seat_numbers_beyond_six_are_refused() {
    for i in 0..6usize {
        let p = Position::try_at(i).unwrap();
        assert_eq!(p.index(), i);
    }
    assert_eq!(Position::try_at(6), None);
    assert_eq!(Position::try_at(usize::MAX), None);
}

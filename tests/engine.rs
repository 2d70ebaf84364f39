use delver_sim::entities::{Character, Stats, Team};
use delver_sim::progress_bars::Colour;
use delver_sim::events::{Event, ExecutedEvent, GameProgressBarLocation, BASE_DAMAGE};
use delver_sim::game::{ActiveCharacter, AddError, Game, Sim};
use delver_sim::ids::{ActiveCharacterID, CharacterID, GameID, TeamID};
use delver_sim::modifiers::{Modifier, ModifierID, ModifierType};
use delver_sim::progress_bars::{health_bar, ProgressBarName, ProgressBars};
use delver_sim::roster::Position;
use rand::SeedableRng;
use rand_chacha::ChaCha8Rng;

const TEAM_A: TeamID = TeamID(1);
const TEAM_B: TeamID = TeamID(2);

fn sheet(id: u128, team: TeamID, kinds: &[ModifierType]) -> Character {
    Character {
        id: CharacterID(id),
        name: format!("Character {id}"),
        team,
        stats: Stats::example(),
        modifiers: kinds.iter().enumerate().map(|(i, k)| Modifier(ModifierID(CharacterID(id), i as u128), *k)).collect(),
    }
}

fn hp(p: u128) -> GameProgressBarLocation {
    GameProgressBarLocation::Character(ActiveCharacterID(p), ProgressBarName::HP)
}

fn xp(p: u128) -> GameProgressBarLocation {
    GameProgressBarLocation::Character(ActiveCharacterID(p), ProgressBarName::XP)
}

/// Team A (front of the turn order) with one Grinder, team B with one
/// Resilient.
fn duel() -> Game {
    let mut g = Game::new(GameID(9));
    g.add_team(TEAM_B);
    g.add_team(TEAM_A);
    assert_eq!(g.add_participant(ActiveCharacterID(100), &sheet(10, TEAM_A, &[ModifierType::Grinder]), TEAM_A), Ok(Position::Top));
    assert_eq!(g.add_participant(ActiveCharacterID(200), &sheet(20, TEAM_B, &[ModifierType::Resilient]), TEAM_B), Ok(Position::Top));
    g
}

fn bare(id: u128) -> ActiveCharacter {
    ActiveCharacter { id: ActiveCharacterID(id), character: CharacterID(id), modifiers: vec![], progress_bars: ProgressBars::new() }
}

#[test]
fn entering_creates_health_and_grinder_experience() {
    let g = duel();
    assert_eq!(g.turn_order, vec![TEAM_A, TEAM_B]);
    assert_eq!(g.get_progress_bar(hp(100)).max, 4);
    assert_eq!(g.get_progress_bar(xp(100)).progress, 0);
    assert_eq!(g.active_characters[1].progress_bars.xp, None);
    assert_eq!(g.latest_events.len(), 3);
    assert!(matches!(g.latest_events[1].event.0, Event::CreateProgressBar { location, .. } if location == xp(100)));
}

#[test]
fn one_turn_grinder_attacks_resilient() {
    let mut sim = Sim::with_world(duel(), ChaCha8Rng::seed_from_u64(3));
    sim.turn();
    let w = &sim.world;
    assert_eq!(w.get_progress_bar(hp(200)).progress, BASE_DAMAGE - 1);
    assert_eq!(w.get_progress_bar(xp(100)).progress, 1);
    assert_eq!(w.get_progress_bar(hp(100)).progress, 0);
    assert_eq!(w.turn_order, vec![TEAM_B, TEAM_A]);
    assert_eq!(w.latest_events.len(), 1);
    let tree = &w.latest_events[0];
    assert!(matches!(tree.event.0, Event::Attack { attacker, target } if attacker == ActiveCharacterID(100) && target == ActiveCharacterID(200)));
    assert!(tree.pre_responses.is_empty());
    assert_eq!(tree.outcomes.len(), 1);
    let hit = &tree.outcomes[0];
    assert!(matches!(hit.event.0, Event::ProgressProgressBar { location, amount: 1 } if location == hp(200)));
    assert_eq!(hit.pre_responses.len(), 1);
    assert!(matches!(&hit.pre_responses[0].event.0, Event::Say(text) if text.ends_with("'s resilience reduces the damage they take")));
    assert_eq!(tree.post_responses.len(), 1);
    assert!(matches!(tree.post_responses[0].event.0, Event::ProgressProgressBar { location, amount: 1 } if location == xp(100)));
}

#[test]
fn second_turn_resilient_strikes_back() {
    let mut sim = Sim::with_world(duel(), ChaCha8Rng::seed_from_u64(5));
    sim.turn();
    sim.turn();
    let w = &sim.world;
    assert_eq!(w.get_progress_bar(hp(100)).progress, 2);
    assert_eq!(w.get_progress_bar(xp(100)).progress, 2);
    assert_eq!(w.turn_order, vec![TEAM_A, TEAM_B]);
}

#[test]
fn replays_from_the_same_seed_are_identical() {
    let run = |seed: u64| {
        let mut g = Game::new(GameID(1));
        g.add_team(TEAM_B);
        g.add_team(TEAM_A);
        for i in 0..4u128 {
            g.add_participant(ActiveCharacterID(100 + i), &sheet(10 + i, TEAM_A, &[ModifierType::Grinder]), TEAM_A).unwrap();
            g.add_participant(ActiveCharacterID(200 + i), &sheet(20 + i, TEAM_B, &[ModifierType::Resilient]), TEAM_B).unwrap();
        }
        let mut sim = Sim::with_world(g, ChaCha8Rng::seed_from_u64(seed));
        let mut log = Vec::new();
        for _ in 0..8 {
            sim.turn();
            log.push(format!("{:?}", sim.world.latest_events));
        }
        log.push(format!("{:?}", sim.world.active_characters));
        log
    };
    assert_eq!(run(11), run(11));
}

#[test]
fn roster_full_leaves_the_world_unchanged() {
    let mut g = Game::new(GameID(1));
    g.add_team(TEAM_B);
    g.add_team(TEAM_A);
    for i in 0..6u128 {
        assert!(g.add_participant(ActiveCharacterID(i), &sheet(i, TEAM_A, &[]), TEAM_A).is_ok());
    }
    let before = format!("{:?}", g);
    assert_eq!(g.add_participant(ActiveCharacterID(99), &sheet(99, TEAM_A, &[]), TEAM_A), Err(AddError::RosterFull));
    assert_eq!(format!("{:?}", g), before);
}

#[test]
fn duplicate_participant_is_refused() {
    let mut g = duel();
    let before = format!("{:?}", g);
    assert_eq!(g.add_participant(ActiveCharacterID(100), &sheet(11, TEAM_B, &[]), TEAM_B), Err(AddError::DuplicateParticipant));
    assert_eq!(format!("{:?}", g), before);
}

#[test]
fn announcement_resolves_alone() {
    let mut g = duel();
    let tree = Event::Say("hello".to_string()).complete(&mut g);
    assert!(matches!(&tree.event.0, Event::Say(s) if s == "hello"));
    assert!(tree.pre_responses.is_empty() && tree.outcomes.is_empty() && tree.post_responses.is_empty());
}

#[test]
fn gauge_change_on_resilient_health_is_softened() {
    let mut g = duel();
    let tree = Event::ProgressProgressBar { location: hp(200), amount: 3 }.complete(&mut g);
    assert!(matches!(tree.event.0, Event::ProgressProgressBar { amount: 2, .. }));
    assert_eq!(g.get_progress_bar(hp(200)).progress, 2);
    let tree = Event::ProgressProgressBar { location: hp(100), amount: 3 }.complete(&mut g);
    assert!(matches!(tree.event.0, Event::ProgressProgressBar { amount: 3, .. }));
    assert_eq!(g.get_progress_bar(hp(100)).progress, 3);
}

#[test]
fn create_gauge_overwrites() {
    let mut g = duel();
    g.get_progress_bar(hp(100));
    Event::ProgressProgressBar { location: hp(100), amount: 3 }.complete(&mut g);
    let previous = g.insert_progress_bar(hp(100), health_bar());
    assert_eq!(previous.map(|b| b.progress), Some(3));
    assert_eq!(g.get_progress_bar(hp(100)).progress, 0);
}

#[test]
fn attack_produces_base_damage() {
    let mut g = duel();
    let (executed, produced) = Event::Attack { attacker: ActiveCharacterID(200), target: ActiveCharacterID(100) }.execute(&mut g);
    assert!(matches!(executed.0, Event::Attack { .. }));
    assert_eq!(produced.len(), 1);
    assert!(matches!(produced[0], Event::ProgressProgressBar { location, amount: 2 } if location == hp(100)));
}

#[test]
fn resilience_reduces_hits_above_one() {
    let mut holder = bare(5);
    holder.modifiers.push(Modifier(ModifierID(CharacterID(5), 0), ModifierType::Resilient));
    let m = holder.modifiers[0];
    for (raw, taken, said) in [(2u16, 1u16, 1usize), (5, 4, 1), (1, 1, 0), (0, 0, 0)] {
        let mut e = Event::ProgressProgressBar { location: hp(5), amount: raw };
        let out = m.pre_event(&holder, &mut e);
        assert!(matches!(e, Event::ProgressProgressBar { amount, .. } if amount == taken));
        assert_eq!(out.len(), said);
    }
    let mut other = Event::ProgressProgressBar { location: hp(6), amount: 4 };
    assert!(m.pre_event(&holder, &mut other).is_empty());
    assert!(matches!(other, Event::ProgressProgressBar { amount: 4, .. }));
    let mut xp_gain = Event::ProgressProgressBar { location: xp(5), amount: 4 };
    assert!(m.pre_event(&holder, &mut xp_gain).is_empty());
    assert!(matches!(xp_gain, Event::ProgressProgressBar { amount: 4, .. }));
}

#[test]
fn resilience_announcement_names_the_holder() {
    let id = 0x67e55044_10b1_426f_9247_bb680e5fe0c8u128;
    let holder = bare(id);
    let m = Modifier(ModifierID(CharacterID(1), 0), ModifierType::Resilient);
    let mut e = Event::ProgressProgressBar { location: hp(id), amount: 2 };
    let out = m.pre_event(&holder, &mut e);
    assert!(matches!(&out[0], Event::Say(t) if t == "ActiveCharacterID(67e55044-10b1-426f-9247-bb680e5fe0c8)'s resilience reduces the damage they take"));
}

#[test]
fn identity_text_is_hyphenated() {
    assert_eq!(ActiveCharacterID(0x67e55044_10b1_426f_9247_bb680e5fe0c8).text(), "67e55044-10b1-426f-9247-bb680e5fe0c8");
    assert_eq!(ActiveCharacterID(0).text(), "00000000-0000-0000-0000-000000000000");
}

#[test]
fn grinder_hooks() {
    let holder = bare(7);
    let m = Modifier(ModifierID(CharacterID(7), 0), ModifierType::Grinder);
    let entered = m.on_enter(&holder);
    assert_eq!(entered.len(), 1);
    assert!(matches!(entered[0], Event::CreateProgressBar { location, bar } if location == xp(7) && bar.max == 4));
    assert!(m.start_turn(&holder).is_empty());
    let as_target = ExecutedEvent(Event::Attack { attacker: ActiveCharacterID(1), target: ActiveCharacterID(7) });
    assert!(matches!(m.post_event(&holder, &as_target)[0], Event::ProgressProgressBar { location, amount: 1 } if location == xp(7)));
    let elsewhere = ExecutedEvent(Event::Attack { attacker: ActiveCharacterID(1), target: ActiveCharacterID(2) });
    assert!(m.post_event(&holder, &elsewhere).is_empty());
    let resilient = Modifier(ModifierID(CharacterID(7), 1), ModifierType::Resilient);
    assert!(resilient.on_enter(&holder).is_empty());
    assert!(resilient.post_event(&holder, &as_target).is_empty());
}

#[test]
fn new_simulation_seats_both_teams() {
    let mut crabs = Team::new("Crabs".to_string(), Colour::Red);
    let pirates = Team::new("Pirates".to_string(), Colour::Cyan);
    let crab_members: Vec<Character> = (0..8).map(|i| Character::roll(format!("Crab {i}"), Stats::example(), crabs.id)).collect();
    crabs.roster = crab_members.iter().map(|c| c.id).collect();
    let pirate_members: Vec<Character> = (0..2).map(|i| Character::new(format!("Pirate {i}"), Stats::example(), pirates.id)).collect();
    let mut sim = Sim::new(ChaCha8Rng::seed_from_u64(1), &crabs, &crab_members, &pirates, &pirate_members);
    assert_eq!(sim.world.turn_order, vec![pirates.id, crabs.id]);
    assert_eq!(sim.world.active_characters.len(), 8);
    let crab_roster = sim.world.rosters[sim.world.roster_index(crabs.id).unwrap()].roster;
    for (k, seat) in Position::enter_order().iter().enumerate() {
        let id = crab_roster.get(*seat).unwrap();
        let i = sim.world.find(id).unwrap();
        assert_eq!(sim.world.active_characters[i].character, crab_members[k].id);
    }
    assert_eq!(sim.world.latest_events.len(), 8);
    for _ in 0..4 {
        sim.turn();
        assert_eq!(sim.world.latest_events.len(), 1);
    }
    assert_eq!(sim.world.turn_order, vec![pirates.id, crabs.id]);
}

#[test]
fn adding_a_character_rolls_a_fresh_identity() {
    let mut sim = Sim::with_world(duel(), ChaCha8Rng::seed_from_u64(1));
    let id = sim.add_character(&sheet(30, TEAM_B, &[]), TEAM_B).unwrap();
    assert!(sim.world.find(id).is_some());
    assert_eq!(sim.world.rosters[sim.world.roster_index(TEAM_B).unwrap()].roster.get(Position::Up), Some(id));
}

#[test]
fn readiness_needs_two_seated_teams() {
    let mut g = Game::new(GameID(1));
    assert!(!g.is_ready());
    g.add_team(TEAM_B);
    g.add_team(TEAM_A);
    assert!(!g.is_ready());
    g.add_participant(ActiveCharacterID(1), &sheet(1, TEAM_A, &[]), TEAM_A).unwrap();
    assert!(!g.is_ready());
    g.add_participant(ActiveCharacterID(2), &sheet(2, TEAM_B, &[]), TEAM_B).unwrap();
    assert!(g.is_ready());
}

#[test]
fn entering_participant_copies_the_sheet() {
    let s = sheet(4, TEAM_A, &[ModifierType::Grinder, ModifierType::Resilient]);
    let p = ActiveCharacter::with_id(ActiveCharacterID(44), &s);
    assert_eq!(p.id, ActiveCharacterID(44));
    assert_eq!(p.character, CharacterID(4));
    assert_eq!(p.modifiers.len(), 2);
    assert_eq!(p.progress_bars, ProgressBars::new());
    let q = ActiveCharacter::new(&s);
    assert_eq!(q.character, CharacterID(4));
    assert_eq!(q.modifiers.len(), 2);
}

#[test]
fn members_take_seats_under_the_given_identities() {
    let mut g = Game::new(GameID(1));
    g.add_team(TEAM_B);
    g.add_team(TEAM_A);
    let members: Vec<Character> = (0..8u128).map(|i| sheet(50 + i, TEAM_A, &[])).collect();
    let ids: Vec<ActiveCharacterID> = (0..6u128).map(|i| ActiveCharacterID(500 + i)).collect();
    assert!(g.fresh_ids(&ids));
    g.add_members(TEAM_A, &members, &ids);
    let roster = g.rosters[g.roster_index(TEAM_A).unwrap()].roster;
    for (k, seat) in Position::enter_order().iter().enumerate() {
        assert_eq!(roster.get(*seat), Some(ids[k]));
        let i = g.find(ids[k]).unwrap();
        assert_eq!(g.active_characters[i].character, members[k].id);
    }
    assert_eq!(g.active_characters.len(), 6);
}

#[test]
fn fresh_identities_are_distinct_and_unused() {
    let g = duel();
    assert!(g.fresh_ids(&vec![ActiveCharacterID(1), ActiveCharacterID(2)]));
    assert!(!g.fresh_ids(&vec![ActiveCharacterID(1), ActiveCharacterID(1)]));
    assert!(!g.fresh_ids(&vec![ActiveCharacterID(100)]));
    assert!(g.fresh_ids(&vec![]));
}

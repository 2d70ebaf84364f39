use delver_sim::display::{decimal_string, signed_string, Directory, DisplayConstruct};
use delver_sim::entities::{Character, Stats, Team};
use delver_sim::events::{Event, GameProgressBarLocation};
use delver_sim::game::{Game, Sim};
use delver_sim::ids::{ActiveCharacterID, CharacterID, GameID, TeamID};
use delver_sim::modifiers::{Modifier, ModifierID, ModifierType};
use delver_sim::progress_bars::{Colour, ProgressBarName};
use rand::SeedableRng;
use rand_chacha::ChaCha8Rng;

fn named_sheet(id: u128, name: &str, team: TeamID, kinds: &[ModifierType]) -> Character {
    Character {
        id: CharacterID(id),
        name: name.to_string(),
        team,
        stats: Stats::example(),
        modifiers: kinds.iter().enumerate().map(|(i, k)| Modifier(ModifierID(CharacterID(id), i as u128), *k)).collect(),
    }
}

fn setting() -> (Game, Directory) {
    let a = Team { id: TeamID(1), name: "Crabs".to_string(), colour: Colour::Red, roster: vec![CharacterID(10)] };
    let b = Team { id: TeamID(2), name: "Pirates".to_string(), colour: Colour::Cyan, roster: vec![CharacterID(20)] };
    let grinder = named_sheet(10, "Clawed One", a.id, &[ModifierType::Grinder]);
    let resilient = named_sheet(20, "Divinity", b.id, &[ModifierType::Resilient]);
    let mut g = Game::new(GameID(1));
    g.add_team(b.id);
    g.add_team(a.id);
    g.add_participant(ActiveCharacterID(100), &grinder, a.id).unwrap();
    g.add_participant(ActiveCharacterID(200), &resilient, b.id).unwrap();
    (g, Directory { characters: vec![grinder, resilient], teams: vec![a, b] })
}

#[test]
fn decimal_text() {
    assert_eq!(decimal_string(0), "0");
    assert_eq!(decimal_string(7), "7");
    assert_eq!(decimal_string(10), "10");
    assert_eq!(decimal_string(65535), "65535");
    assert_eq!(signed_string(-128), "-128");
    assert_eq!(signed_string(-5), "-5");
    assert_eq!(signed_string(127), "127");
}

#[test]
fn stats_forms() {
    assert_eq!(Stats::example().shortform(), "[2, 1, 3, 4, 5, 6, 7]");
    let long = Stats::example().longform().render();
    assert_eq!(long, "- bloodthirst: 2\n- violence: 1\n- realism: 3\n- perpetuity: 4\n- buoyancy: 5\n- maverickism: 6\n- run: 7");
}

#[test]
fn gauge_label() {
    let (g, _) = setting();
    let hp = g.active_characters[0].progress_bars.hp.unwrap();
    assert_eq!(hp.label("oooo"), "HP: oooo ");
    assert!(hp.shortform().starts_with("HP: "));
}

#[test]
fn event_short_forms() {
    let (g, dir) = setting();
    let attack = Event::Attack { attacker: ActiveCharacterID(100), target: ActiveCharacterID(200) };
    let line = attack.shortform(&g, &dir).unwrap();
    assert!(line.contains("Clawed One") && line.contains(" attacks ") && line.contains("Divinity"));
    let hit = Event::ProgressProgressBar {
        location: GameProgressBarLocation::Character(ActiveCharacterID(200), ProgressBarName::HP),
        amount: 2,
    };
    let line = hit.shortform(&g, &dir).unwrap();
    assert!(line.ends_with("'s HP decreases by 2"));
    let gain = Event::ProgressProgressBar {
        location: GameProgressBarLocation::Character(ActiveCharacterID(100), ProgressBarName::XP),
        amount: 1,
    };
    assert!(gain.shortform(&g, &dir).unwrap().ends_with("'s XP increases by 1"));
    assert_eq!(Event::Say("hi".to_string()).shortform(&g, &dir), Some("hi".to_string()));
    let stranger = Event::Attack { attacker: ActiveCharacterID(100), target: ActiveCharacterID(999) };
    assert_eq!(stranger.shortform(&g, &dir), None);
    let missing = Event::ProgressProgressBar {
        location: GameProgressBarLocation::Character(ActiveCharacterID(200), ProgressBarName::XP),
        amount: 1,
    };
    assert_eq!(missing.shortform(&g, &dir), None);
}

#[test]
fn creation_line() {
    let (g, dir) = setting();
    let line = g.latest_events[0].shortform(&g, &dir).unwrap();
    assert!(line.starts_with("Created ") && line.ends_with("'s HP"));
}

#[test]
fn turn_tree_long_form_nests_causes() {
    let (g, dir) = setting();
    let mut sim = Sim::with_world(g, ChaCha8Rng::seed_from_u64(2));
    sim.turn();
    let text = sim.world.latest_events[0].longform(&sim.world, &dir).unwrap().render();
    let lines: Vec<&str> = text.lines().collect();
    assert_eq!(lines.len(), 4);
    assert!(lines[0].contains(" attacks "));
    assert!(lines[1].starts_with("- ") && lines[1].contains("'s HP decreases by 1 => "));
    assert!(lines[2].starts_with("- - ") && lines[2].ends_with("'s resilience reduces the damage they take"));
    assert!(lines[3].starts_with("- ") && lines[3].contains("'s XP increases by 1 => "));
}

#[test]
fn team_listing() {
    let (g, dir) = setting();
    let listing = g.team_display(&dir, TeamID(1)).unwrap();
    match &listing {
        DisplayConstruct::Multi(blocks) => {
            assert_eq!(blocks.len(), 2);
            assert!(matches!(&blocks[0], DisplayConstruct::Single(name) if name.contains("Crabs")));
        },
        _ => panic!("a team listing is a sequence of blocks"),
    }
    let text = listing.render();
    assert!(text.contains("Crabs") && text.contains("Clawed One"));
    assert!(text.contains("- HP: ") && text.contains("- XP: "));
    assert!(g.team_display(&dir, TeamID(5)).is_none());
}

#[test]
fn character_long_form() {
    let (_, dir) = setting();
    let text = dir.characters[1].longform(&dir).unwrap().render();
    assert!(text.contains("Divinity"));
    assert!(text.ends_with("- run: 7"));
    let unknown = named_sheet(30, "Nobody", TeamID(9), &[]);
    assert!(unknown.longform(&dir).is_none());
}

#[test]
fn simulation_display_lists_both_teams() {
    let (g, dir) = setting();
    let sim = Sim::with_world(g, ChaCha8Rng::seed_from_u64(4));
    let text = sim.display(&dir, TeamID(1), TeamID(2)).unwrap().render();
    assert!(text.contains("Crabs") && text.contains("Pirates"));
    assert!(text.find("Clawed One").unwrap() < text.find("Divinity").unwrap());
    assert!(sim.display(&dir, TeamID(1), TeamID(3)).is_none());
}

use vstd::prelude::*;
use vstd::string::StringExecFns;
use crate::events::{Event, EventView, ExecutedEvent, GameProgressBarLocation, event_views};
use crate::game::ActiveCharacter;
use crate::ids::{ActiveCharacterID, CharacterID, uuid_text};
use crate::progress_bars::{xp_bar, ProgressBarName, ProgressBar, ProgressBarStyle, Colour};

verus! {

/// The closed catalogue of abilities.
#[derive(Clone, Copy, Debug, PartialEq, Eq, Structural)]
pub enum ModifierType {
    /// Gains a fresh experience gauge on entry and one experience point for
    /// every attack it takes part in.
    Grinder,
    /// Takes one point less from any hit on its health worth more than one.
    Resilient,
}

/// Identifies a modifier: the character it belongs to and a random part.
#[derive(Clone, Copy, Debug, PartialEq, Eq, Hash, Structural)]
pub struct ModifierID(pub CharacterID, pub u128);

impl ModifierID {
    /// A fresh identifier for a modifier of `character`.
    pub fn roll(character: CharacterID) -> (r: Self)
        ensures
            r.0 == character,
    {
        let fresh = CharacterID::roll();
        ModifierID(character, fresh.0)
    }
}

/// An ability attached to one character.
#[derive(Clone, Copy, Debug)]
pub struct Modifier(pub ModifierID, pub ModifierType);

/// The text announced when resilience softens a hit on `p`.
pub open spec fn resilience_text(p: ActiveCharacterID) -> Seq<char> {
    "ActiveCharacterID("@ + uuid_text(p.0) + ")'s resilience reduces the damage they take"@
}

/// The experience gauge location of `p`.
pub open spec fn xp_location(p: ActiveCharacterID) -> GameProgressBarLocation {
    GameProgressBarLocation::Character(p, ProgressBarName::XP)
}

/// The events a modifier of kind `kind` emits when its holder `p` joins.
pub open spec fn enter_events(kind: ModifierType, p: ActiveCharacterID) -> Seq<EventView> {
    match kind {
        ModifierType::Grinder => seq![EventView::CreateProgressBar {
            location: xp_location(p),
            bar: ProgressBar {
                max: 4,
                name: ProgressBarName::XP,
                progress: 0,
                colour: Colour::Blue,
                style: ProgressBarStyle::Fill,
            },
        }],
        ModifierType::Resilient => Seq::empty(),
    }
}

/// The in-flight event after a modifier of kind `kind` held by `p` has seen
/// it, and the events it emits.
pub open spec fn pre_reaction(kind: ModifierType, p: ActiveCharacterID, e: EventView) -> (EventView, Seq<EventView>) {
    match (kind, e) {
        (
            ModifierType::Resilient,
            EventView::ProgressProgressBar { location: GameProgressBarLocation::Character(t, ProgressBarName::HP), amount },
        ) => if t == p && amount > 1 {
            (
                EventView::ProgressProgressBar {
                    location: GameProgressBarLocation::Character(t, ProgressBarName::HP),
                    amount: (amount - 1) as u16,
                },
                seq![EventView::Say(resilience_text(p))],
            )
        } else {
            (e, Seq::empty())
        },
        _ => (e, Seq::empty()),
    }
}

/// The events a modifier of kind `kind` held by `p` emits after `e` executed.
pub open spec fn post_events(kind: ModifierType, p: ActiveCharacterID, e: EventView) -> Seq<EventView> {
    match (kind, e) {
        (ModifierType::Grinder, EventView::Attack { attacker, target }) => if target == p || attacker == p {
            seq![EventView::ProgressProgressBar { location: xp_location(p), amount: 1 }]
        } else {
            Seq::empty()
        },
        _ => Seq::empty(),
    }
}

impl Modifier {
    /// A new modifier of the given kind for `character`.
    pub fn new(character: CharacterID, type_: ModifierType) -> (r: Self)
        ensures
            r.0.0 == character,
            r.1 == type_,
    {
        Modifier(ModifierID::roll(character), type_)
    }

    /// Reaction to the holder joining the world.
    pub fn on_enter(&self, character: &ActiveCharacter) -> (r: Vec<Event>)
        ensures
            event_views(r@) == enter_events(self.1, character.id),
    {
        let mut events: Vec<Event> = Vec::new();
        match self.1 {
            ModifierType::Grinder => {
                events.push(
                    Event::CreateProgressBar {
                        location: GameProgressBarLocation::Character(character.id, ProgressBarName::XP),
                        bar: xp_bar(),
                    },
                );
            },
            ModifierType::Resilient => {},
        }
        assert(event_views(events@) =~= enter_events(self.1, character.id));
        events
    }

    /// Reaction to the holder's team becoming the attacking team. No ability
    /// of the catalogue reacts.
    pub fn start_turn(&self, character: &ActiveCharacter) -> (r: Vec<Event>)
        ensures
            r@.len() == 0,
    {
        Vec::new()
    }

    /// Reaction to an event about to execute: may change the event in place
    /// and emit events of its own.
    pub fn pre_event(&self, character: &ActiveCharacter, event: &mut Event) -> (r: Vec<Event>)
        ensures
            (final(event)@, event_views(r@)) == pre_reaction(self.1, character.id, old(event)@),
    {
        let mut events: Vec<Event> = Vec::new();
        if let ModifierType::Resilient = self.1 {
            if let Event::ProgressProgressBar {
                location: GameProgressBarLocation::Character(target, ProgressBarName::HP),
                amount,
            } = event {
                if *target == character.id && *amount > 1 {
                    *amount = *amount - 1;
                    let mut text = String::from_str("ActiveCharacterID(");
                    let id = target.text();
                    text.append(id.as_str());
                    text.append(")'s resilience reduces the damage they take");
                    events.push(Event::Say(text));
                }
            }
        }
        assert(event_views(events@) =~= pre_reaction(self.1, character.id, old(event)@).1);
        events
    }

    /// Reaction to an event that has executed.
    pub fn post_event(&self, character: &ActiveCharacter, event: &ExecutedEvent) -> (r: Vec<Event>)
        ensures
            event_views(r@) == post_events(self.1, character.id, event.0@),
    {
        let mut events: Vec<Event> = Vec::new();
        if let ModifierType::Grinder = self.1 {
            if let Event::Attack { target, attacker } = &event.0 {
                if *target == character.id || *attacker == character.id {
                    events.push(
                        Event::ProgressProgressBar {
                            location: GameProgressBarLocation::Character(character.id, ProgressBarName::XP),
                            amount: 1,
                        },
                    );
                }
            }
        }
        assert(event_views(events@) =~= post_events(self.1, character.id, event.0@));
        events
    }
}

/// A hit of `raw` on a resilient holder's health is reduced by one when it is
/// worth more than one, and left as it is otherwise: never raised, never
/// below one.
pub proof fn lemma_resilience_softens(p: ActiveCharacterID, raw: u16)
    ensures
        ({
            let hit = EventView::ProgressProgressBar {
                location: GameProgressBarLocation::Character(p, ProgressBarName::HP),
                amount: raw,
            };
            let taken = pre_reaction(ModifierType::Resilient, p, hit).0;
            &&& raw > 1 ==> taken == EventView::ProgressProgressBar {
                location: GameProgressBarLocation::Character(p, ProgressBarName::HP),
                amount: (raw - 1) as u16,
            }
            &&& raw <= 1 ==> taken == hit
        }),
{
}

} // verus!

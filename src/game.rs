use vstd::prelude::*;
use crate::entities::{Character, Team};
use crate::events::{
    CompletedEvent, Event, EventView, GameProgressBarLocation, MAX_EVENT_DEPTH, apply, cast_of, duel, duel_after,
    duel_attack, duel_tree, effect, effect_list, event_ok, event_views, gauge_at, has_grinder, index_of, kept,
    lemma_effect_leaf, lemma_effect_list_concat, lemma_grinder_attacks_resilient, lemma_index_of, lemma_kept_cast,
    lemma_kept_ok, lemma_kept_trans, lemma_resolution_deterministic, present, resolves, same_tree, wf_participants,
};
use crate::ids::{ActiveCharacterID, CharacterID, GameID, TeamID};
use crate::modifiers::{enter_events, Modifier, ModifierType};
use crate::chance::pick_index;
use crate::progress_bars::{health_bar, Colour, ProgressBar, ProgressBarName, ProgressBarStyle, ProgressBars};
use crate::roster::{enter_seq, entry_index, seat_after, seat_index, Position, Roster};

verus! {

/// A character seated in a running game: its sheet, its abilities and its
/// gauges.
#[derive(Clone, Debug)]
pub struct ActiveCharacter {
    pub id: ActiveCharacterID,
    pub character: CharacterID,
    pub modifiers: Vec<Modifier>,
    pub progress_bars: ProgressBars,
}

/// The roster of one team.
#[derive(Clone, Copy, Debug)]
pub struct TeamRoster {
    pub team: TeamID,
    pub roster: Roster,
}

/// The world of a running game.
#[derive(Debug)]
pub struct Game {
    pub game_id: GameID,
    pub active_characters: Vec<ActiveCharacter>,
    pub turn_order: Vec<TeamID>,
    pub rosters: Vec<TeamRoster>,
    pub latest_events: Vec<CompletedEvent>,
}

impl Game {
    /// The place of the participant `id`.
    pub fn find(&self, id: ActiveCharacterID) -> (r: Option<usize>)
        ensures
            r is None <==> !present(self.active_characters@, id),
            r matches Some(i) ==> i < self.active_characters@.len() && self.active_characters@[i as int].id == id,
            wf_participants(self.active_characters@) ==> (r matches Some(i) ==> i == index_of(self.active_characters@, id)),
    {
        let mut i: usize = 0;
        while i < self.active_characters.len()
            invariant
                0 <= i <= self.active_characters@.len(),
                forall|k: int| 0 <= k < i ==> self.active_characters@[k].id != id,
            decreases self.active_characters@.len() - i,
        {
            if self.active_characters[i].id == id {
                proof {
                    if wf_participants(self.active_characters@) {
                        lemma_index_of(self.active_characters@, i as int);
                    }
                }
                return Some(i);
            }
            i = i + 1;
        }
        None
    }

    /// The gauge at `location`.
    pub fn get_progress_bar(&self, location: GameProgressBarLocation) -> (r: ProgressBar)
        requires
            wf_participants(self.active_characters@),
            gauge_at(self.active_characters@, location) is Some,
        ensures
            Some(r) == gauge_at(self.active_characters@, location),
    {
        match location {
            GameProgressBarLocation::Character(character, name) => {
                let i = self.find(character).unwrap();
                self.active_characters[i].progress_bars.get(name).unwrap()
            },
        }
    }
}

/// Why a participant could not join.
#[derive(Clone, Copy, Debug, PartialEq, Eq, Structural)]
pub enum AddError {
    /// Every seat of the team's roster is taken.
    RosterFull,
    /// A participant with that identity is already in the world.
    DuplicateParticipant,
}

/// Every participant holds a health gauge, and every Grinder an experience
/// gauge.
pub open spec fn settled(ps: Seq<ActiveCharacter>) -> bool {
    forall|i: int|
        0 <= i < ps.len() ==> {
            &&& (#[trigger] ps[i]).progress_bars.hp is Some
            &&& has_grinder(ps[i].modifiers@) ==> ps[i].progress_bars.xp is Some
        }
}

/// The team of each roster, in order.
pub open spec fn teams_of(rs: Seq<TeamRoster>) -> Seq<TeamID> {
    rs.map_values(|r: TeamRoster| r.team)
}

/// `team` has a roster in the world.
pub open spec fn has_roster(rs: Seq<TeamRoster>, team: TeamID) -> bool {
    exists|j: int| 0 <= j < rs.len() && rs[j].team == team
}

/// The place of `team`'s roster.
pub open spec fn roster_pos(rs: Seq<TeamRoster>, team: TeamID) -> int {
    choose|j: int| 0 <= j < rs.len() && rs[j].team == team
}

/// The events the abilities `mods` of `p` emit when `p` joins, ability by
/// ability.
pub open spec fn enter_all(mods: Seq<Modifier>, p: ActiveCharacterID) -> Seq<EventView>
    decreases mods.len(),
{
    if mods.len() == 0 {
        Seq::empty()
    } else {
        enter_all(mods.drop_last(), p) + enter_events(mods.last().1, p)
    }
}

/// `a` is the participant `id` playing `character` as it first enters,
/// before any gauge exists.
pub open spec fn is_newcomer(a: ActiveCharacter, id: ActiveCharacterID, character: Character) -> bool {
    &&& a.id == id
    &&& a.character == character.id
    &&& a.modifiers@ == character.modifiers@
    &&& a.progress_bars == ProgressBars { xp: None, hp: None }
}

/// The creation of `p`'s health gauge.
pub open spec fn health_event(p: ActiveCharacterID) -> EventView {
    EventView::CreateProgressBar {
        location: GameProgressBarLocation::Character(p, ProgressBarName::HP),
        bar: health_bar_value(),
    }
}

/// The health gauge a participant enters with.
pub open spec fn health_bar_value() -> ProgressBar {
    ProgressBar { max: 4, name: ProgressBarName::HP, progress: 0, colour: Colour::Red, style: ProgressBarStyle::Drain }
}

/// `a` as it stands after entering: a fresh health gauge, and a fresh
/// experience gauge when it is a Grinder.
pub open spec fn entered(a: ActiveCharacter) -> ActiveCharacter {
    ActiveCharacter {
        progress_bars: ProgressBars {
            xp: if has_grinder(a.modifiers@) {
                Some(
                    ProgressBar {
                        max: 4,
                        name: ProgressBarName::XP,
                        progress: 0,
                        colour: Colour::Blue,
                        style: ProgressBarStyle::Fill,
                    },
                )
            } else {
                None
            },
            hp: Some(health_bar_value()),
        },
        ..a
    }
}

/// `g1` is `g0` after the participant `a`, that is `id` playing `character`,
/// joined `team` at seat `p`: the seat taken, the participant added with its
/// gauges, and the creation of its health gauge and its entry events
/// resolved and logged.
pub open spec fn joined_as(
    g0: Game,
    g1: Game,
    id: ActiveCharacterID,
    character: Character,
    team: TeamID,
    p: Position,
    a: ActiveCharacter,
) -> bool {
    &&& is_newcomer(a, id, character)
    &&& g1.active_characters@ == g0.active_characters@.push(entered(a))
    &&& {

                let j = roster_pos(g0.rosters@, team);
                let before = g0.rosters@[j].roster;
                let after = g1.rosters@[j].roster;
                let ps1 = g0.active_characters@.push(a);
                let evs = seq![health_event(id)] + enter_all(character.modifiers@, id);
                &&& before.first_empty_entry(p)
                &&& g1.rosters@.len() == g0.rosters@.len()
                &&& forall|k: int| 0 <= k < g0.rosters@.len() && k != j ==> g1.rosters@[k] == g0.rosters@[k]
                &&& g1.rosters@[j].team == team
                &&& after.characters@ == before.characters@.update(seat_index(p), Some(id))
                &&& after.previous_turn == before.previous_turn
                &&& g1.active_characters@ == effect_list(ps1, evs, MAX_EVENT_DEPTH as nat)
                &&& g1.latest_events@.len() == g0.latest_events@.len() + evs.len()
                &&& g1.latest_events@.take(g0.latest_events@.len() as int) == g0.latest_events@
                &&& forall|k: int|
                    0 <= k < evs.len() ==> resolves(
                        cast_of(ps1),
                        #[trigger] evs[k],
                        MAX_EVENT_DEPTH as nat,
                        g1.latest_events@[g0.latest_events@.len() + k],
                    )
                &&& g1.turn_order == g0.turn_order
                &&& g1.game_id == g0.game_id
    }
}

/// `g1` is `g0` after `id` playing `character` joined `team` at seat `p`.
pub open spec fn joined(g0: Game, g1: Game, id: ActiveCharacterID, character: Character, team: TeamID, p: Position) -> bool {
    exists|a: ActiveCharacter| joined_as(g0, g1, id, character, team, p, a)
}

impl ActiveCharacter {
    /// `character` entering under the identity `id`, with its abilities and
    /// no gauges yet.
    pub fn with_id(id: ActiveCharacterID, character: &Character) -> (r: Self)
        ensures
            is_newcomer(r, id, *character),
    {
        let mut modifiers: Vec<Modifier> = Vec::new();
        let mut k: usize = 0;
        while k < character.modifiers.len()
            invariant
                0 <= k <= character.modifiers@.len(),
                modifiers@ == character.modifiers@.take(k as int),
            decreases character.modifiers@.len() - k,
        {
            modifiers.push(character.modifiers[k]);
            proof {
                assert(character.modifiers@.take(k + 1) =~= character.modifiers@.take(k as int).push(character.modifiers@[k as int]));
            }
            k = k + 1;
        }
        assert(character.modifiers@.take(k as int) =~= character.modifiers@);
        ActiveCharacter { id, character: character.id, modifiers, progress_bars: ProgressBars::new() }
    }

    /// `character` entering under a fresh random identity.
    pub fn new(character: &Character) -> (r: Self)
        ensures
            is_newcomer(r, r.id, *character),
    {
        ActiveCharacter::with_id(ActiveCharacterID::roll(), character)
    }
}

impl Game {
    /// The world is well formed: its participants are (`wf_participants`),
    /// each has its gauges (`settled`), rosters are one per team, every team
    /// in the turn order has one, and every seated participant exists.
    pub open spec fn wf(&self) -> bool {
        &&& wf_participants(self.active_characters@)
        &&& settled(self.active_characters@)
        &&& forall|i: int, j: int| 0 <= i < j < self.rosters@.len() ==> self.rosters@[i].team != self.rosters@[j].team
        &&& forall|k: int| 0 <= k < self.turn_order@.len() ==> has_roster(self.rosters@, #[trigger] self.turn_order@[k])
        &&& forall|i: int, j: int| 0 <= i < j < self.turn_order@.len() ==> self.turn_order@[i] != self.turn_order@[j]
        &&& forall|j: int, s: int|
            0 <= j < self.rosters@.len() && 0 <= s < 6 ==> (#[trigger] self.rosters@[j].roster.characters@[s] matches Some(
                id,
            ) ==> present(self.active_characters@, id))
    }

    /// An empty world.
    pub fn new(game_id: GameID) -> (r: Self)
        ensures
            r.wf(),
            r.game_id == game_id,
            r.active_characters@.len() == 0,
            r.turn_order@.len() == 0,
            r.rosters@.len() == 0,
            r.latest_events@.len() == 0,
    {
        Game {
            game_id,
            active_characters: Vec::new(),
            turn_order: Vec::new(),
            rosters: Vec::new(),
            latest_events: Vec::new(),
        }
    }

    /// The place of `team`'s roster.
    pub fn roster_index(&self, team: TeamID) -> (r: Option<usize>)
        ensures
            r is None <==> !has_roster(self.rosters@, team),
            r matches Some(j) ==> j < self.rosters@.len() && self.rosters@[j as int].team == team,
    {
        let mut j: usize = 0;
        while j < self.rosters.len()
            invariant
                0 <= j <= self.rosters@.len(),
                forall|k: int| 0 <= k < j ==> self.rosters@[k].team != team,
            decreases self.rosters@.len() - j,
        {
            if self.rosters[j].team == team {
                return Some(j);
            }
            j = j + 1;
        }
        None
    }

    /// Puts `team` at the front of the turn order with an empty roster.
    pub fn add_team(&mut self, team: TeamID)
        requires
            old(self).wf(),
            !has_roster(old(self).rosters@, team),
        ensures
            final(self).wf(),
            final(self).turn_order@ == seq![team] + old(self).turn_order@,
            final(self).rosters@.len() == old(self).rosters@.len() + 1,
            final(self).rosters@.drop_last() == old(self).rosters@,
            final(self).rosters@.last().team == team,
            final(self).rosters@.last().roster.is_empty(),
            final(self).rosters@.last().roster.previous_turn == Position::Bottom,
            final(self).active_characters == old(self).active_characters,
            final(self).latest_events == old(self).latest_events,
            final(self).game_id == old(self).game_id,
    {
        self.turn_order.insert(0, team);
        self.rosters.push(TeamRoster { team, roster: Roster::new() });
        proof {
            assert(self.turn_order@ =~= seq![team] + old(self).turn_order@);
            assert(self.rosters@.drop_last() =~= old(self).rosters@);
            let rs = self.rosters@;
            assert forall|k: int| 0 <= k < self.turn_order@.len() implies has_roster(rs, #[trigger] self.turn_order@[k]) by {
                if k == 0 {
                    assert(rs[rs.len() - 1].team == team);
                } else {
                    let t = old(self).turn_order@[k - 1];
                    assert(has_roster(old(self).rosters@, t));
                    let j = choose|j: int| 0 <= j < old(self).rosters@.len() && old(self).rosters@[j].team == t;
                    assert(rs[j] == old(self).rosters@[j]);
                }
            }
            assert forall|j: int, s: int| 0 <= j < rs.len() && 0 <= s < 6 implies (#[trigger] rs[j].roster.characters@[s] matches Some(
                id,
            ) ==> present(self.active_characters@, id)) by {
                if j < rs.len() - 1 {
                    assert(rs[j] == old(self).rosters@[j]);
                }
            }
        }
    }

    /// Resolves `events` in order and records each resolution as one of the
    /// latest events.
    pub fn complete_events(&mut self, events: Vec<Event>)
        requires
            wf_participants(old(self).active_characters@),
            forall|k: int| 0 <= k < events@.len() ==> event_ok(old(self).active_characters@, #[trigger] events@[k]@),
        ensures
            final(self).active_characters@ == effect_list(
                old(self).active_characters@,
                event_views(events@),
                MAX_EVENT_DEPTH as nat,
            ),
            wf_participants(final(self).active_characters@),
            kept(old(self).active_characters@, final(self).active_characters@),
            final(self).latest_events@.len() == old(self).latest_events@.len() + events@.len(),
            final(self).latest_events@.take(old(self).latest_events@.len() as int) == old(self).latest_events@,
            forall|k: int|
                0 <= k < events@.len() ==> resolves(
                    cast_of(old(self).active_characters@),
                    #[trigger] event_views(events@)[k],
                    MAX_EVENT_DEPTH as nat,
                    final(self).latest_events@[old(self).latest_events@.len() + k],
                ),
            final(self).game_id == old(self).game_id,
            final(self).turn_order == old(self).turn_order,
            final(self).rosters == old(self).rosters,
    {
        let ghost ps0 = self.active_characters@;
        let ghost log0 = self.latest_events@;
        let ghost c = cast_of(ps0);
        let ghost views = event_views(events@);
        let ghost evs0 = events@;
        let ghost id0 = self.game_id;
        let ghost order0 = self.turn_order;
        let ghost rosters0 = self.rosters;
        let n = events.len();
        let mut events = events;
        let mut k: usize = 0;
        proof {
            assert(views.take(0) =~= Seq::<EventView>::empty());
            assert(events@.skip(0) =~= events@);
            assert(self.latest_events@.take(log0.len() as int) =~= log0);
        }
        while events.len() > 0
            invariant
                k + events@.len() == evs0.len(),
                evs0.len() == n,
                wf_participants(ps0),
                views == event_views(evs0),
                events@ == evs0.skip(k as int),
                c == cast_of(ps0),
                forall|j: int| 0 <= j < evs0.len() ==> event_ok(ps0, #[trigger] evs0[j]@),
                self.active_characters@ == effect_list(ps0, views.take(k as int), MAX_EVENT_DEPTH as nat),
                wf_participants(self.active_characters@),
                kept(ps0, self.active_characters@),
                self.latest_events@.len() == log0.len() + k,
                self.latest_events@.take(log0.len() as int) == log0,
                forall|j: int| 0 <= j < k ==> resolves(c, #[trigger] views[j], MAX_EVENT_DEPTH as nat, self.latest_events@[log0.len() + j]),
                self.game_id == id0,
                self.turn_order == order0,
                self.rosters == rosters0,
            decreases events@.len(),
        {
            let ghost before = self.active_characters@;
            let ghost log_before = self.latest_events@;
            let ev = events.remove(0);
            proof {
                assert(ev == evs0[k as int]);
                assert(events@ =~= evs0.skip(k + 1));
                lemma_kept_ok(ps0, before, ev@);
                lemma_kept_cast(ps0, before);
            }
            let t = ev.complete(self);
            self.latest_events.push(t);
            proof {
                assert(views.take(k + 1).drop_last() =~= views.take(k as int));
                assert(views[k as int] == ev@);
                lemma_kept_trans(ps0, before, self.active_characters@);
                assert(self.latest_events@.take(log0.len() as int) =~= log_before.take(log0.len() as int));
                assert forall|j: int| 0 <= j < k + 1 implies resolves(c, #[trigger] views[j], MAX_EVENT_DEPTH as nat, self.latest_events@[log0.len() + j]) by {
                    if j < k {
                        assert(self.latest_events@[log0.len() + j] == log_before[log0.len() + j]);
                    }
                }
            }
            k = k + 1;
        }
        proof {
            assert(views.take(k as int) =~= views);
        }
    }
    /// Seats a new participant `id` playing `character` in `team`'s roster,
    /// at the first empty seat of the entry order, then resolves the creation
    /// of its health gauge and the events its abilities emit on entry.
    pub fn add_participant(&mut self, id: ActiveCharacterID, character: &Character, team: TeamID) -> (r: Result<
        Position,
        AddError,
    >)
        requires
            old(self).wf(),
            has_roster(old(self).rosters@, team),
        ensures
            final(self).wf(),
            (r == Err::<Position, AddError>(AddError::DuplicateParticipant)) <==> present(old(self).active_characters@, id),
            (r == Err::<Position, AddError>(AddError::RosterFull)) <==> !present(old(self).active_characters@, id)
                && old(self).rosters@[roster_pos(old(self).rosters@, team)].roster.is_full(),
            r is Err ==> *final(self) == *old(self),
            r matches Ok(p) ==> joined(*old(self), *final(self), id, *character, team, p),
    {
        if self.find(id).is_some() {
            return Err(AddError::DuplicateParticipant);
        }
        let j = self.roster_index(team).unwrap();
        proof {
            let rs = old(self).rosters@;
            lemma_roster_pos_at(rs, team, j as int);
        }
        let mut entry = self.rosters[j];
        let seat = entry.roster.add_character(id);
        let p = match seat {
            None => {
                return Err(AddError::RosterFull);
            },
            Some(p) => p,
        };
        self.rosters.set(j, entry);
        let ghost ps0 = self.active_characters@;
        let joined = ActiveCharacter::with_id(id, character);
        self.active_characters.push(joined);
        let ghost ps1 = self.active_characters@;
        let ghost n0 = ps0.len() as int;
        let ghost log0 = old(self).latest_events@;
        proof {
            assert(ps1 =~= ps0.push(ps1[n0]));
            assert forall|a: int, b: int| 0 <= a < b < ps1.len() implies ps1[a].id != ps1[b].id by {
                if b == n0 {
                    assert(ps0[a].id != id);
                }
            }
            lemma_index_of(ps1, n0);
        }
        let mut first: Vec<Event> = Vec::new();
        first.push(
            Event::CreateProgressBar {
                location: GameProgressBarLocation::Character(id, ProgressBarName::HP),
                bar: health_bar(),
            },
        );
        proof {
            assert(event_views(first@) =~= seq![health_event(id)]);
        }
        self.complete_events(first);
        let ghost ps2 = self.active_characters@;
        let ghost log1 = self.latest_events@;
        proof {
            lemma_effect_leaf(ps1, health_event(id), MAX_EVENT_DEPTH as nat);
            lemma_kept_cast(ps1, ps2);
            lemma_index_of(ps2, n0);
        }
        let mut entering: Vec<Event> = Vec::new();
        let last = self.active_characters.len() - 1;
        let mut m: usize = 0;
        while m < self.active_characters[last].modifiers.len()
            invariant
                self.active_characters@ == ps2,
                ps2.len() == n0 + 1,
                last == n0,
                ps2[n0].id == id,
                ps2[n0].modifiers@ == character.modifiers@,
                0 <= m <= character.modifiers@.len(),
                event_views(entering@) == enter_all(character.modifiers@.take(m as int), id),
            decreases character.modifiers@.len() - m,
        {
            let mut emitted = self.active_characters[last].modifiers[m].on_enter(&self.active_characters[last]);
            let ghost prev = entering@;
            entering.append(&mut emitted);
            proof {
                let mods = character.modifiers@.take(m + 1);
                assert(mods.drop_last() =~= character.modifiers@.take(m as int));
                assert(event_views(entering@) =~= event_views(prev) + event_views(emitted@.take(0) + entering@.skip(prev.len() as int)));
            }
            m = m + 1;
        }
        proof {
            assert(character.modifiers@.take(m as int) =~= character.modifiers@);
            lemma_enter_effect(ps2, n0, character.modifiers@, MAX_EVENT_DEPTH as nat);
            assert forall|k: int| 0 <= k < entering@.len() implies event_ok(ps2, #[trigger] entering@[k]@) by {
                assert(event_views(entering@)[k] == enter_all(character.modifiers@, id)[k]);
                lemma_enter_all_shape(character.modifiers@, id);
            }
        }
        self.complete_events(entering);
        proof {
            let ps3 = self.active_characters@;
            let enter = enter_all(character.modifiers@, id);
            lemma_effect_list_concat(ps1, seq![health_event(id)], enter, MAX_EVENT_DEPTH as nat);
            lemma_kept_trans(ps1, ps2, ps3);
            lemma_kept_cast(ps1, ps3);
            let evs = seq![health_event(id)] + enter;
            assert(self.latest_events@.take(log0.len() as int) =~= log0) by {
                assert(self.latest_events@.take(log1.len() as int) == log1);
                assert(log1.take(log0.len() as int) == log0);
            }
            assert forall|k: int| 0 <= k < evs.len() implies resolves(
                cast_of(ps1),
                #[trigger] evs[k],
                MAX_EVENT_DEPTH as nat,
                self.latest_events@[log0.len() + k],
            ) by {
                if k == 0 {
                    assert(self.latest_events@[log0.len() as int] == log1[log0.len() as int]);
                } else {
                    assert(evs[k] == enter[k - 1]);
                }
            }
            let rs = self.rosters@;
            assert forall|a: int, s: int| 0 <= a < rs.len() && 0 <= s < 6 implies (#[trigger] rs[a].roster.characters@[s] matches Some(
                x,
            ) ==> present(ps3, x)) by {
                if let Some(x) = rs[a].roster.characters@[s] {
                    if a == j && s == seat_index(p) {
                        assert(ps3[n0].id == id);
                    } else {
                        assert(rs[a].roster.characters@[s] == old(self).rosters@[a].roster.characters@[s]);
                        let i = choose|i: int| 0 <= i < ps0.len() && ps0[i].id == x;
                        assert(ps1[i] == ps0[i]);
                        assert(ps3[i].id == x);
                    }
                }
            }
            assert forall|i: int| 0 <= i < ps3.len() implies {
                &&& (#[trigger] ps3[i]).progress_bars.hp is Some
                &&& has_grinder(ps3[i].modifiers@) ==> ps3[i].progress_bars.xp is Some
            } by {
                if i < n0 {
                    assert(ps1[i] == ps0[i]);
                }
            }
            assert forall|k: int| 0 <= k < self.turn_order@.len() implies has_roster(rs, #[trigger] self.turn_order@[k]) by {
                let t = self.turn_order@[k];
                let q = choose|q: int| 0 <= q < old(self).rosters@.len() && old(self).rosters@[q].team == t;
                assert(rs[q].team == t);
            }
            assert forall|a: int, b: int| 0 <= a < b < rs.len() implies rs[a].team != rs[b].team by {
                assert(rs[a].team == old(self).rosters@[a].team);
                assert(rs[b].team == old(self).rosters@[b].team);
            }
            lemma_enter_effect(ps2, n0, character.modifiers@, MAX_EVENT_DEPTH as nat);
            assert(ps2 == ps1.update(n0, ActiveCharacter {
                progress_bars: ps1[n0].progress_bars.with(ProgressBarName::HP, health_bar_value()),
                ..ps1[n0]
            }));
            assert(ps3 =~= ps0.push(entered(ps1[n0])));
            assert(joined_as(*old(self), *self, id, *character, team, p, ps1[n0]));
        }
        Ok(p)
    }
}

/// The participants after `p` (at place `n`) entered with abilities `mods`:
/// the experience gauge of a Grinder is created, nothing else changes.
pub proof fn lemma_enter_effect(ps: Seq<ActiveCharacter>, n: int, mods: Seq<Modifier>, fuel: nat)
    requires
        wf_participants(ps),
        0 <= n < ps.len(),
        fuel >= 1,
    ensures
        effect_list(ps, enter_all(mods, ps[n].id), fuel) == if has_grinder(mods) {
            with_fresh_xp(ps, n)
        } else {
            ps
        },
    decreases mods.len(),
{
    let id = ps[n].id;
    if mods.len() > 0 {
        let front = mods.drop_last();
        lemma_enter_effect(ps, n, front, fuel);
        lemma_effect_list_concat(ps, enter_all(front, id), enter_events(mods.last().1, id), fuel);
        let mid = effect_list(ps, enter_all(front, id), fuel);
        assert(has_grinder(mods) == (has_grinder(front) || mods.last().1 == ModifierType::Grinder)) by {
            if has_grinder(mods) {
                let j = choose|j: int| 0 <= j < mods.len() && mods[j].1 == ModifierType::Grinder;
                if j < front.len() {
                    assert(front[j] == mods[j]);
                }
            }
            if has_grinder(front) {
                let j = choose|j: int| 0 <= j < front.len() && front[j].1 == ModifierType::Grinder;
                assert(front[j] == mods[j]);
            }
        }
        match mods.last().1 {
            ModifierType::Grinder => {
                let e = enter_events(ModifierType::Grinder, id)[0];
                assert(enter_events(ModifierType::Grinder, id) == seq![e]);
                lemma_effect_leaf(mid, e, fuel);
                lemma_index_of(ps, n);
                assert(mid[n].id == id);
                assert forall|a: int, b: int| 0 <= a < b < mid.len() implies mid[a].id != mid[b].id by {
                    assert(mid[a].id == ps[a].id);
                    assert(mid[b].id == ps[b].id);
                }
                assert(present(mid, id));
                assert(index_of(mid, id) == n);
                assert(apply(mid, e) =~= with_fresh_xp(ps, n));
            },
            ModifierType::Resilient => {
                assert(enter_events(ModifierType::Resilient, id) =~= Seq::<EventView>::empty());
            },
        }
    }
}

/// The events emitted on entry create `p`'s experience gauge and nothing else.
pub proof fn lemma_enter_all_shape(mods: Seq<Modifier>, p: ActiveCharacterID)
    ensures
        forall|k: int| 0 <= k < enter_all(mods, p).len() ==> #[trigger] enter_all(mods, p)[k] == enter_events(ModifierType::Grinder, p)[0],
    decreases mods.len(),
{
    if mods.len() > 0 {
        lemma_enter_all_shape(mods.drop_last(), p);
        let a = enter_all(mods.drop_last(), p);
        let b = enter_events(mods.last().1, p);
        assert forall|k: int| 0 <= k < (a + b).len() implies #[trigger] (a + b)[k] == enter_events(ModifierType::Grinder, p)[0] by {
            if k < a.len() {
                assert((a + b)[k] == a[k]);
            } else {
                assert((a + b)[k] == b[k - a.len()]);
            }
        }
    }
}

/// `ps` with the participant at place `n` holding a fresh experience gauge.
pub open spec fn with_fresh_xp(ps: Seq<ActiveCharacter>, n: int) -> Seq<ActiveCharacter> {
    ps.update(
        n,
        ActiveCharacter {
            progress_bars: ps[n].progress_bars.with(
                ProgressBarName::XP,
                ProgressBar {
                    max: 4,
                    name: ProgressBarName::XP,
                    progress: 0,
                    colour: Colour::Blue,
                    style: ProgressBarStyle::Fill,
                },
            ),
            ..ps[n]
        },
    )
}

impl Game {
    /// Every team in the turn order has someone seated, and there are at
    /// least two teams.
    pub open spec fn ready(&self) -> bool {
        &&& self.turn_order@.len() >= 2
        &&& forall|k: int|
            0 <= k < self.turn_order@.len() ==> !self.rosters@[roster_pos(self.rosters@, #[trigger] self.turn_order@[k])].roster.is_empty()
    }

    /// One exchange: runs the attacker's `start_turn` hooks, resolving what
    /// they emit, then resolves `attacker` attacking `defender`.
    pub fn attack(&mut self, attacker: ActiveCharacterID, defender: ActiveCharacterID)
        requires
            old(self).wf(),
            present(old(self).active_characters@, attacker),
            present(old(self).active_characters@, defender),
        ensures
            final(self).wf(),
            final(self).active_characters@ == effect(
                old(self).active_characters@,
                EventView::Attack { attacker, target: defender },
                MAX_EVENT_DEPTH as nat,
            ),
            final(self).latest_events@.len() == old(self).latest_events@.len() + 1,
            final(self).latest_events@.take(old(self).latest_events@.len() as int) == old(self).latest_events@,
            resolves(
                cast_of(old(self).active_characters@),
                EventView::Attack { attacker, target: defender },
                MAX_EVENT_DEPTH as nat,
                final(self).latest_events@.last(),
            ),
            final(self).turn_order == old(self).turn_order,
            final(self).rosters == old(self).rosters,
            final(self).game_id == old(self).game_id,
    {
        let ghost ps0 = self.active_characters@;
        let i = self.find(attacker).unwrap();
        let mut starting: Vec<Event> = Vec::new();
        let mut m: usize = 0;
        while m < self.active_characters[i].modifiers.len()
            invariant
                self.active_characters@ == ps0,
                i < ps0.len(),
                0 <= m <= ps0[i as int].modifiers@.len(),
                starting@.len() == 0,
            decreases ps0[i as int].modifiers@.len() - m,
        {
            let mut emitted = self.active_characters[i].modifiers[m].start_turn(&self.active_characters[i]);
            starting.append(&mut emitted);
            m = m + 1;
        }
        proof {
            assert(event_views(starting@) =~= Seq::<EventView>::empty());
            assert(self.latest_events@.take(self.latest_events@.len() as int) =~= self.latest_events@);
        }
        self.complete_events(starting);
        let ghost log0 = self.latest_events@;
        let mut hit: Vec<Event> = Vec::new();
        hit.push(Event::Attack { attacker, target: defender });
        let ghost e = EventView::Attack { attacker, target: defender };
        proof {
            assert(event_views(hit@) =~= seq![e]);
            let ps = self.active_characters@;
            assert(ps == ps0);
            let d = index_of(ps, defender);
            assert(ps[d].progress_bars.hp is Some);
        }
        self.complete_events(hit);
        proof {
            let ps1 = self.active_characters@;
            assert(seq![e].drop_last() =~= Seq::<EventView>::empty());
            assert(effect_list(ps0, seq![e].drop_last(), MAX_EVENT_DEPTH as nat) == ps0);
            assert(seq![e].last() == e);
            assert(self.latest_events@.last() == self.latest_events@[log0.len() as int]);
            assert(seq![e][0] == e);
            let rs = self.rosters@;
            assert forall|a: int, s: int| 0 <= a < rs.len() && 0 <= s < 6 implies (#[trigger] rs[a].roster.characters@[s] matches Some(
                x,
            ) ==> present(ps1, x)) by {
                if let Some(x) = rs[a].roster.characters@[s] {
                    let q = choose|q: int| 0 <= q < ps0.len() && ps0[q].id == x;
                    assert(ps1[q].id == x);
                }
            }
            assert(self.latest_events@.take(old(self).latest_events@.len() as int) =~= old(self).latest_events@) by {
                assert(log0.take(old(self).latest_events@.len() as int) == old(self).latest_events@);
                assert(self.latest_events@.take(log0.len() as int) == log0);
            }
        }
    }

    /// One turn with the random choices made: the team at the front of the
    /// turn order attacks with the next occupant of its roster and moves to
    /// the back; `defending_index` names the defending team's place in the
    /// turn order and `defender` the participant it puts forward. The latest
    /// events are replaced by this turn's.
    pub fn play_turn(&mut self, defending_index: usize, defender: ActiveCharacterID)
        requires
            old(self).wf(),
            old(self).ready(),
            1 <= defending_index < old(self).turn_order@.len(),
            old(self).rosters@[roster_pos(old(self).rosters@, old(self).turn_order@[defending_index as int])].roster.holds(
                defender,
            ),
        ensures
            final(self).wf(),
            final(self).ready(),
            turn_outcome(*old(self), *final(self), defender),
    {
        self.latest_events.clear();
        let attacking_team = self.turn_order[0];
        let first = self.turn_order.remove(0);
        self.turn_order.push(first);
        let j = self.roster_index(attacking_team).unwrap();
        let ghost rs0 = self.rosters@;
        proof {
            lemma_roster_pos_at(rs0, attacking_team, j as int);
            assert(old(self).turn_order@[0] == attacking_team);
        }
        let mut entry = self.rosters[j];
        let picked = entry.roster.next_filled();
        let attacker = picked.unwrap();
        self.rosters.set(j, entry);
        proof {
            let ps = self.active_characters@;
            let ro = rs0[j as int].roster;
            let s = choose|s: int| 0 <= s < 6 && ro.characters@[s] == Some(attacker);
            assert(ro.characters@[s] == Some(attacker)) by {
                let k = choose|k: int| ro.next_offset(k);
                let pos = seat_after(ro.previous_turn, k);
                assert(ro.characters@[seat_index(pos)] == Some(attacker));
            }
            assert(rs0[j as int].roster.characters@[s] matches Some(x) ==> present(ps, x));
            let td = old(self).turn_order@[defending_index as int];
            let jd = roster_pos(rs0, td);
            let sd = choose|sd: int| 0 <= sd < 6 && rs0[jd].roster.characters@[sd] == Some(defender);
            assert(rs0[jd].roster.characters@[sd] matches Some(x) ==> present(ps, x));
            let rs = self.rosters@;
            assert forall|k: int| 0 <= k < self.turn_order@.len() implies has_roster(rs, #[trigger] self.turn_order@[k]) by {
                let t = self.turn_order@[k];
                assert(old(self).turn_order@.contains(t)) by {
                    if k < self.turn_order@.len() - 1 {
                        assert(old(self).turn_order@[k + 1] == t);
                    } else {
                        assert(old(self).turn_order@[0] == t);
                    }
                }
                let kk = choose|kk: int| 0 <= kk < old(self).turn_order@.len() && old(self).turn_order@[kk] == t;
                assert(has_roster(rs0, old(self).turn_order@[kk]));
                let q = choose|q: int| 0 <= q < rs0.len() && rs0[q].team == t;
                assert(rs[q].team == t);
            }
        }
        self.attack(attacker, defender);
        proof {
            assert(self.turn_order@ =~= old(self).turn_order@.drop_first().push(attacking_team));
            assert(self.latest_events@.take(0) =~= Seq::<CompletedEvent>::empty());
        }
    }
}

/// A running simulation: the world and the seeded random stream that every
/// random choice draws from.
pub struct Sim {
    pub world: Game,
    pub rng: rand_chacha::ChaCha8Rng,
}

/// The roster at place `jt` seats, in entry order, participants playing
/// members `idx` of `members`, all below `k` and in increasing order, and
/// nobody else.
pub open spec fn seats_prefix(g: Game, jt: int, members: Seq<Character>, idx: Seq<int>, k: int) -> bool {
    let r = g.rosters@[jt].roster;
    let ps = g.active_characters@;
    &&& idx.len() <= k
    &&& idx.len() <= 6
    &&& forall|a: int, b: int| 0 <= a < b < idx.len() ==> idx[a] < idx[b]
    &&& forall|a: int| 0 <= a < idx.len() ==> 0 <= #[trigger] idx[a] < k
    &&& forall|j: int|
        0 <= j < idx.len() ==> (#[trigger] r.seat(enter_seq()[j]) matches Some(x) && present(ps, x) && ps[index_of(
            ps,
            x,
        )].character == members[idx[j]].id)
    &&& forall|j: int| idx.len() <= j < 6 ==> #[trigger] r.seat(enter_seq()[j]) is None
}

/// `team`'s roster seats, in entry order, participants playing members `idx`
/// of `members`, taken in order from its first six, and nobody else.
pub open spec fn seats_members(g: Game, team: TeamID, members: Seq<Character>, idx: Seq<int>) -> bool {
    seats_prefix(
        g,
        roster_pos(g.rosters@, team),
        members,
        idx,
        if members.len() < 6 { members.len() as int } else { 6 },
    )
}

/// Seating facts survive participants joining other teams.
proof fn lemma_seats_prefix_kept(g0: Game, g1: Game, jt: int, members: Seq<Character>, idx: Seq<int>, k: int)
    requires
        g0.wf(),
        g1.wf(),
        0 <= jt < g0.rosters@.len(),
        jt < g1.rosters@.len(),
        g1.rosters@[jt] == g0.rosters@[jt],
        g1.active_characters@.len() >= g0.active_characters@.len(),
        g1.active_characters@.take(g0.active_characters@.len() as int) == g0.active_characters@,
        seats_prefix(g0, jt, members, idx, k),
    ensures
        seats_prefix(g1, jt, members, idx, k),
{
    let ps0 = g0.active_characters@;
    let ps1 = g1.active_characters@;
    let r = g0.rosters@[jt].roster;
    assert forall|j: int| 0 <= j < idx.len() implies (#[trigger] r.seat(enter_seq()[j]) matches Some(x) && present(
        ps1,
        x,
    ) && ps1[index_of(ps1, x)].character == members[idx[j]].id) by {
        let x = r.seat(enter_seq()[j]).unwrap();
        let i = index_of(ps0, x);
        assert(ps1[i] == ps1.take(ps0.len() as int)[i]);
        lemma_index_of(ps1, i);
    }
}

/// With one roster per team, a team's roster is the one that names it.
pub proof fn lemma_roster_pos_at(rs: Seq<TeamRoster>, team: TeamID, j: int)
    requires
        forall|a: int, b: int| 0 <= a < b < rs.len() ==> rs[a].team != rs[b].team,
        0 <= j < rs.len(),
        rs[j].team == team,
    ensures
        roster_pos(rs, team) == j,
{
    let q = roster_pos(rs, team);
    if q != j {
        if q < j {
            assert(rs[q].team != rs[j].team);
        } else {
            assert(rs[j].team != rs[q].team);
        }
    }
}

/// One more member joining a team whose roster is filled in entry order
/// takes the next seat of that order.
proof fn lemma_join_step(
    g0: Game,
    g1: Game,
    jt: int,
    members: Seq<Character>,
    idx: Seq<int>,
    k: int,
    id: ActiveCharacterID,
    p: Position,
)
    requires
        g0.wf(),
        g1.wf(),
        0 <= jt < g0.rosters@.len(),
        0 <= k < members.len(),
        seats_prefix(g0, jt, members, idx, k),
        joined(g0, g1, id, members[k], g0.rosters@[jt].team, p),
    ensures
        seats_prefix(g1, jt, members, idx.push(k), k + 1),
        g1.rosters@.len() == g0.rosters@.len(),
        forall|q: int| 0 <= q < g0.rosters@.len() && q != jt ==> g1.rosters@[q] == g0.rosters@[q],
        g1.rosters@[jt].team == g0.rosters@[jt].team,
        g1.active_characters@.take(g0.active_characters@.len() as int) == g0.active_characters@,
{
    let team = g0.rosters@[jt].team;
    let a = choose|a: ActiveCharacter| joined_as(g0, g1, id, members[k], team, p, a);
    lemma_roster_pos_at(g0.rosters@, team, jt);
    let before = g0.rosters@[jt].roster;
    let after = g1.rosters@[jt].roster;
    let m = idx.len() as int;
    let ps0 = g0.active_characters@;
    let ps1 = g1.active_characters@;
    assert(ps1.take(ps0.len() as int) =~= ps0);
    let n0 = ps0.len() as int;
    // the seat taken is the next one of the entry order
    assert(p == enter_seq()[m]) by {
        let e = entry_index(p);
        assert(enter_seq()[e] == p);
        if e < m {
            assert(before.seat(enter_seq()[e]) is Some);
        } else if e > m {
            assert(before.seat(enter_seq()[m]) is None);
        }
    }
    assert(m < 6);
    let idx1 = idx.push(k);
    assert forall|j: int| 0 <= j < idx1.len() implies (#[trigger] after.seat(enter_seq()[j]) matches Some(x) && present(
        ps1,
        x,
    ) && ps1[index_of(ps1, x)].character == members[idx1[j]].id) by {
        if j < m {
            assert(seat_index(enter_seq()[j]) != seat_index(p));
            let x = before.seat(enter_seq()[j]).unwrap();
            let i = index_of(ps0, x);
            assert(ps1[i] == ps0[i]);
            lemma_index_of(ps1, i);
        } else {
            assert(after.seat(enter_seq()[j]) == Some(id));
            assert(ps1[n0] == entered(a));
            lemma_index_of(ps1, n0);
        }
    }
    assert forall|j: int| idx1.len() <= j < 6 implies #[trigger] after.seat(enter_seq()[j]) is None by {
        assert(seat_index(enter_seq()[j]) != seat_index(p));
    }
}

impl Sim {
    /// A simulation of `world` drawing from `rng`.
    pub fn with_world(world: Game, rng: rand_chacha::ChaCha8Rng) -> (r: Self)
        ensures
            r.world == world,
    {
        Sim { world, rng }
    }

    /// A new game between two teams; the defending team attacks first.
    pub fn new(
        rng: rand_chacha::ChaCha8Rng,
        delve_team: &Team,
        delve_members: &Vec<Character>,
        defender_team: &Team,
        defender_members: &Vec<Character>,
    ) -> (r: Self)
        requires
            delve_team.id != defender_team.id,
        ensures
            r.world.wf(),
            r.world.turn_order@ == seq![defender_team.id, delve_team.id],
            exists|idx: Seq<int>| seats_members(r.world, delve_team.id, delve_members@, idx),
            exists|idx: Seq<int>| seats_members(r.world, defender_team.id, defender_members@, idx),
    {
        let mut result = Sim { world: Game::new(GameID::roll()), rng };
        result.add_team(delve_team, delve_members);
        proof {
            let rs = result.world.rosters@;
            assert(teams_of(rs) =~= seq![delve_team.id]);
            if has_roster(rs, defender_team.id) {
                let q = choose|q: int| 0 <= q < rs.len() && rs[q].team == defender_team.id;
                assert(teams_of(rs)[q] == defender_team.id);
            }
        }
        let ghost first = result.world;
        result.add_team(defender_team, defender_members);
        proof {
            assert(result.world.turn_order@ =~= seq![defender_team.id, delve_team.id]);
            let idx = choose|idx: Seq<int>| seats_members(first, delve_team.id, delve_members@, idx);
            lemma_roster_pos_at(first.rosters@, delve_team.id, 0);
            assert(first.rosters@[0] == result.world.rosters@.take(1)[0]);
            lemma_roster_pos_at(result.world.rosters@, delve_team.id, 0);
            lemma_seats_prefix_kept(
                first,
                result.world,
                0,
                delve_members@,
                idx,
                if delve_members@.len() < 6 {
                    delve_members@.len() as int
                } else {
                    6
                },
            );
            assert(seats_members(result.world, delve_team.id, delve_members@, idx));
        }
        result
    }

    /// Puts `team` at the front of the turn order and seats its first six
    /// members, in order, in the entry order of its roster, each under a
    /// freshly drawn identity (see `Game::add_members`). Should a drawn
    /// identity be taken already, the members are seated one by one instead,
    /// and a member whose identity is taken is left out.
    pub fn add_team(&mut self, team: &Team, members: &Vec<Character>) -> (r: TeamID)
        requires
            old(self).world.wf(),
            !has_roster(old(self).world.rosters@, team.id),
        ensures
            r == team.id,
            final(self).world.wf(),
            teams_of(final(self).world.rosters@) == teams_of(old(self).world.rosters@).push(team.id),
            final(self).world.turn_order@ == seq![team.id] + old(self).world.turn_order@,
            final(self).world.rosters@.take(old(self).world.rosters@.len() as int) == old(self).world.rosters@,
            final(self).world.active_characters@.len() >= old(self).world.active_characters@.len(),
            final(self).world.active_characters@.take(old(self).world.active_characters@.len() as int)
                == old(self).world.active_characters@,
            exists|idx: Seq<int>| seats_members(final(self).world, team.id, members@, idx),
    {
        self.world.add_team(team.id);
        let ghost order = self.world.turn_order@;
        let ghost rs_start = self.world.rosters@;
        let ghost jt = rs_start.len() - 1;
        let ghost ps_old = old(self).world.active_characters@;
        let ghost rs_start_ps = self.world.active_characters@;
        proof {
            let rs = self.world.rosters@;
            assert(rs[rs.len() - 1].team == team.id);
            assert(teams_of(rs) =~= teams_of(old(self).world.rosters@).push(team.id)) by {
                assert(rs.drop_last() == old(self).world.rosters@);
                assert forall|k: int| 0 <= k < rs.len() - 1 implies rs[k] == old(self).world.rosters@[k] by {
                    assert(rs[k] == rs.drop_last()[k]);
                }
            }
            assert(self.world.active_characters@.take(ps_old.len() as int) =~= ps_old);
            assert forall|j: int| 0 <= j < 6 implies #[trigger] rs[jt].roster.seat(enter_seq()[j]) is None by {
                assert(rs[jt].roster.characters@[seat_index(enter_seq()[j])] is None);
            }
        }
        let count: usize = if members.len() < 6 {
            members.len()
        } else {
            6
        };
        let mut ids: Vec<ActiveCharacterID> = Vec::new();
        let mut d: usize = 0;
        while d < count
            invariant
                0 <= d <= count,
                ids@.len() == d,
            decreases count - d,
        {
            ids.push(ActiveCharacterID::roll());
            d = d + 1;
        }
        if self.world.fresh_ids(&ids) {
            proof {
                lemma_roster_pos_at(self.world.rosters@, team.id, jt);
                assert(has_roster(self.world.rosters@, team.id));
                assert(self.world.rosters@[jt].roster.is_empty()) by {
                    assert(self.world.rosters@.last() == self.world.rosters@[jt]);
                }
            }
            self.world.add_members(team.id, members, &ids);
            proof {
                let rs = self.world.rosters@;
                assert(rs.take(old(self).world.rosters@.len() as int) =~= old(self).world.rosters@) by {
                    assert forall|q: int| 0 <= q < jt implies rs[q] == old(self).world.rosters@[q] by {
                        assert(rs_start[q] == rs_start.drop_last()[q]);
                    }
                }
                assert(self.world.active_characters@.take(ps_old.len() as int) =~= ps_old) by {
                    assert forall|i: int| 0 <= i < ps_old.len() implies self.world.active_characters@[i] == ps_old[i] by {
                        assert(self.world.active_characters@[i] == self.world.active_characters@.take(rs_start_ps.len() as int)[i]);
                        assert(rs_start_ps[i] == rs_start_ps.take(ps_old.len() as int)[i]);
                    }
                }
                let every = Seq::new(seated_count(members@.len() as int) as nat, |i: int| i);
                assert(seats_members(self.world, team.id, members@, every));
            }
            return team.id;
        }
        let ghost teams = teams_of(self.world.rosters@);
        let ghost mut idx: Seq<int> = Seq::empty();
        let mut k: usize = 0;
        while k < members.len() && k < 6
            invariant
                self.world.wf(),
                0 <= k <= 6,
                k <= members@.len(),
                has_roster(self.world.rosters@, team.id),
                self.world.turn_order@ == order,
                teams_of(self.world.rosters@) == teams,
                self.world.rosters@.len() == rs_start.len(),
                jt == rs_start.len() - 1,
                self.world.rosters@[jt].team == team.id,
                forall|q: int| 0 <= q < jt ==> self.world.rosters@[q] == rs_start[q],
                rs_start.drop_last() == old(self).world.rosters@,
                self.world.active_characters@.len() >= ps_old.len(),
                self.world.active_characters@.take(ps_old.len() as int) == ps_old,
                seats_prefix(self.world, jt, members@, idx, k as int),
            decreases members@.len() - k,
        {
            let ghost w0 = self.world;
            let result = self.add_character(&members[k], team.id);
            proof {
                if let Ok(id) = result {
                    lemma_roster_pos_at(w0.rosters@, team.id, jt);
                    let p = choose|p: Position| joined(w0, self.world, id, members@[k as int], team.id, p);
                    lemma_join_step(w0, self.world, jt, members@, idx, k as int, id, p);
                    assert(self.world.active_characters@.take(ps_old.len() as int) =~= ps_old) by {
                        assert(self.world.active_characters@.take(w0.active_characters@.len() as int) == w0.active_characters@);
                        assert(w0.active_characters@.take(ps_old.len() as int) == ps_old);
                    }
                    idx = idx.push(k as int);
                }
            }
            k = k + 1;
        }
        proof {
            let rs = self.world.rosters@;
            lemma_roster_pos_at(rs, team.id, jt);
            assert(rs.take(old(self).world.rosters@.len() as int) =~= old(self).world.rosters@) by {
                assert forall|q: int| 0 <= q < jt implies rs[q] == old(self).world.rosters@[q] by {
                    assert(rs_start[q] == rs_start.drop_last()[q]);
                }
            }
            let kk: int = if members@.len() < 6 { members@.len() as int } else { 6 };
            assert(k == kk);
            assert(seats_members(self.world, team.id, members@, idx));
        }
        team.id
    }

    /// Seats `character` in `team`'s roster under a fresh random identity,
    /// which it returns.
    pub fn add_character(&mut self, character: &Character, team: TeamID) -> (r: Result<ActiveCharacterID, AddError>)
        requires
            old(self).world.wf(),
            has_roster(old(self).world.rosters@, team),
        ensures
            final(self).world.wf(),
            has_roster(final(self).world.rosters@, team),
            teams_of(final(self).world.rosters@) == teams_of(old(self).world.rosters@),
            final(self).world.turn_order == old(self).world.turn_order,
            r is Err ==> final(self).world == old(self).world,
            r == Err::<ActiveCharacterID, AddError>(AddError::RosterFull) ==> old(self).world.rosters@[roster_pos(
                old(self).world.rosters@,
                team,
            )].roster.is_full(),
            old(self).world.rosters@[roster_pos(old(self).world.rosters@, team)].roster.is_full() ==> r is Err,
            r matches Ok(id) ==> !present(old(self).world.active_characters@, id) && present(
                final(self).world.active_characters@,
                id,
            ) && final(self).world.rosters@[roster_pos(final(self).world.rosters@, team)].roster.holds(id)
                && exists|p: Position| joined(old(self).world, final(self).world, id, *character, team, p),
    {
        let id = ActiveCharacterID::roll();
        match self.world.add_participant(id, character, team) {
            Ok(p) => {
                proof {
                    let ps = self.world.active_characters@;
                    let rs = self.world.rosters@;
                    let j = roster_pos(old(self).world.rosters@, team);
                    assert(rs[j].team == team);
                    lemma_roster_pos_at(rs, team, j);
                    assert(rs[j].roster.characters@[seat_index(p)] == Some(id));
                    assert(rs[j].roster.characters@[seat_index(p)] matches Some(x) ==> present(ps, x));
                    assert(teams_of(rs) =~= teams_of(old(self).world.rosters@)) by {
                        assert forall|k: int| 0 <= k < rs.len() implies rs[k].team == old(self).world.rosters@[k].team by {
                            if k != j {
                                assert(rs[k] == old(self).world.rosters@[k]);
                            }
                        }
                    }
                    assert(joined(old(self).world, self.world, id, *character, team, p));
                }
                Ok(id)
            },
            Err(e) => Err(e),
        }
    }

    /// Advances one exchange. The team at the front of the turn order attacks
    /// with the next occupant of its roster and moves to the back; the
    /// defending team is drawn uniformly from the others, and its defender by
    /// shuffling its seats. The latest events are replaced by this turn's.
    pub fn turn(&mut self)
        requires
            old(self).world.wf(),
            old(self).world.ready(),
        ensures
            final(self).world.wf(),
            final(self).world.ready(),
            exists|d: int, defender: ActiveCharacterID|
                1 <= d < old(self).world.turn_order@.len() && old(self).world.turn_order@[d]
                    != old(self).world.turn_order@[0] && #[trigger] old(self).world.rosters@[roster_pos(
                    old(self).world.rosters@,
                    old(self).world.turn_order@[d],
                )].roster.holds(defender) && turn_outcome(old(self).world, final(self).world, defender),
    {
        let count = self.world.turn_order.len();
        let d = pick_index(&mut self.rng, 1, count).unwrap();
        let defending_team = self.world.turn_order[d];
        let j = self.world.roster_index(defending_team).unwrap();
        proof {
            let rs = self.world.rosters@;
            lemma_roster_pos_at(rs, defending_team, j as int);
            assert(self.world.turn_order@[d as int] == defending_team);
        }
        let defender = self.world.rosters[j].roster.random_filled(&mut self.rng).unwrap();
        self.world.play_turn(d, defender);
        proof {
            assert(old(self).world.rosters@[roster_pos(old(self).world.rosters@, old(self).world.turn_order@[d as int])].roster.holds(defender));
        }
    }
}

/// `g1` is `g0` after the turn in which the front team attacks `defender`
/// with the next occupant of its roster.
pub open spec fn turn_outcome(g0: Game, g1: Game, defender: ActiveCharacterID) -> bool {
    let attacking = g0.turn_order@[0];
    let j = roster_pos(g0.rosters@, attacking);
    let (roster, picked) = g0.rosters@[j].roster.next_step();
    let e = EventView::Attack { attacker: picked.unwrap(), target: defender };
    &&& picked is Some
    &&& g1.turn_order@ == g0.turn_order@.drop_first().push(attacking)
    &&& g1.rosters@ == g0.rosters@.update(j, TeamRoster { team: attacking, roster })
    &&& g1.active_characters@ == effect(g0.active_characters@, e, MAX_EVENT_DEPTH as nat)
    &&& g1.latest_events@.len() == 1
    &&& resolves(cast_of(g0.active_characters@), e, MAX_EVENT_DEPTH as nat, g1.latest_events@[0])
    &&& g1.game_id == g0.game_id
}

impl Game {
    /// Whether every team in the turn order has someone seated and there are
    /// at least two teams.
    pub fn is_ready(&self) -> (r: bool)
        requires
            self.wf(),
        ensures
            r == self.ready(),
    {
        if self.turn_order.len() < 2 {
            return false;
        }
        let mut k: usize = 0;
        while k < self.turn_order.len()
            invariant
                0 <= k <= self.turn_order@.len(),
                self.turn_order@.len() >= 2,
                self.wf(),
                forall|q: int|
                    0 <= q < k ==> !self.rosters@[roster_pos(self.rosters@, #[trigger] self.turn_order@[q])].roster.is_empty(),
            decreases self.turn_order@.len() - k,
        {
            let team = self.turn_order[k];
            let j = self.roster_index(team).unwrap();
            proof {
                let rs = self.rosters@;
                assert(has_roster(rs, self.turn_order@[k as int]));
                lemma_roster_pos_at(rs, team, j as int);
            }
            let mut s: usize = 0;
            let mut seated = false;
            while s < 6
                invariant
                    0 <= s <= 6,
                    j < self.rosters@.len(),
                    seated == exists|t: int| 0 <= t < s && self.rosters@[j as int].roster.characters@[t] is Some,
                decreases 6 - s,
            {
                if self.rosters[j].roster.characters[s].is_some() {
                    seated = true;
                }
                s = s + 1;
            }
            if !seated {
                return false;
            }
            k = k + 1;
        }
        true
    }
}


/// The identities are pairwise distinct.
pub open spec fn distinct_ids(ids: Seq<ActiveCharacterID>) -> bool {
    forall|i: int, j: int| 0 <= i < j < ids.len() ==> ids[i] != ids[j]
}

/// How many members of a team take seats: its first six at most.
pub open spec fn seated_count(n: int) -> int {
    if n < 6 { n } else { 6 }
}

impl Game {
    /// Whether the identities are pairwise distinct and none is in the world.
    pub fn fresh_ids(&self, ids: &Vec<ActiveCharacterID>) -> (r: bool)
        ensures
            r == (distinct_ids(ids@) && forall|k: int| 0 <= k < ids@.len() ==> !present(self.active_characters@, #[trigger] ids@[k])),
    {
        let mut k: usize = 0;
        while k < ids.len()
            invariant
                0 <= k <= ids@.len(),
                forall|a: int, b: int| 0 <= a < b < k ==> ids@[a] != ids@[b],
                forall|q: int| 0 <= q < k ==> !present(self.active_characters@, #[trigger] ids@[q]),
            decreases ids@.len() - k,
        {
            if self.find(ids[k]).is_some() {
                return false;
            }
            let mut q: usize = 0;
            while q < k
                invariant
                    0 <= q <= k < ids@.len(),
                    forall|a: int| 0 <= a < q ==> ids@[a] != ids@[k as int],
                decreases k - q,
            {
                if ids[q] == ids[k] {
                    return false;
                }
                q = q + 1;
            }
            k = k + 1;
        }
        true
    }

    /// Seats `team`'s first six members, in order, in the entry order of its
    /// empty roster, member `k` under the identity `ids[k]`.
    pub fn add_members(&mut self, team: TeamID, members: &Vec<Character>, ids: &Vec<ActiveCharacterID>)
        requires
            old(self).wf(),
            has_roster(old(self).rosters@, team),
            old(self).rosters@[roster_pos(old(self).rosters@, team)].roster.is_empty(),
            ids@.len() >= seated_count(members@.len() as int),
            distinct_ids(ids@),
            forall|k: int| 0 <= k < ids@.len() ==> !present(old(self).active_characters@, #[trigger] ids@[k]),
        ensures
            final(self).wf(),
            seats_members(*final(self), team, members@, Seq::new(seated_count(members@.len() as int) as nat, |i: int| i)),
            teams_of(final(self).rosters@) == teams_of(old(self).rosters@),
            final(self).turn_order == old(self).turn_order,
            forall|q: int|
                0 <= q < old(self).rosters@.len() && q != roster_pos(old(self).rosters@, team) ==> final(self).rosters@[q]
                    == old(self).rosters@[q],
            final(self).rosters@.len() == old(self).rosters@.len(),
            final(self).active_characters@.len() >= old(self).active_characters@.len(),
            final(self).active_characters@.take(old(self).active_characters@.len() as int) == old(self).active_characters@,
    {
        let ghost g0 = *self;
        let ghost jt = roster_pos(g0.rosters@, team);
        let ghost orig = g0.active_characters@;
        let ghost teams = teams_of(g0.rosters@);
        proof {
            assert(has_roster(g0.rosters@, team));
            assert(g0.rosters@[jt].team == team);
            assert forall|j: int| 0 <= j < 6 implies #[trigger] g0.rosters@[jt].roster.seat(enter_seq()[j]) is None by {
                assert(g0.rosters@[jt].roster.characters@[seat_index(enter_seq()[j])] is None);
            }
            assert(orig.take(orig.len() as int) =~= orig);
            assert(Seq::new(0, |i: int| i) =~= Seq::<int>::empty());
        }
        let mut k: usize = 0;
        while k < members.len() && k < 6
            invariant
                self.wf(),
                0 <= k <= 6,
                k <= members@.len(),
                ids@.len() >= seated_count(members@.len() as int),
                distinct_ids(ids@),
                forall|q: int| 0 <= q < ids@.len() ==> !present(orig, #[trigger] ids@[q]),
                0 <= jt < g0.rosters@.len(),
                self.rosters@.len() == g0.rosters@.len(),
                self.rosters@[jt].team == team,
                teams_of(self.rosters@) == teams,
                self.turn_order == g0.turn_order,
                forall|q: int| 0 <= q < g0.rosters@.len() && q != jt ==> self.rosters@[q] == g0.rosters@[q],
                self.active_characters@.len() == orig.len() + k,
                self.active_characters@.take(orig.len() as int) == orig,
                forall|j: int| 0 <= j < k ==> self.active_characters@[orig.len() + j].id == ids@[j],
                seats_prefix(*self, jt, members@, Seq::new(k as nat, |i: int| i), k as int),
            decreases members@.len() - k,
        {
            let ghost w0 = *self;
            let id = ids[k];
            proof {
                lemma_roster_pos_at(w0.rosters@, team, jt);
                let ps = w0.active_characters@;
                assert(!present(ps, id)) by {
                    if present(ps, id) {
                        let i = choose|i: int| 0 <= i < ps.len() && ps[i].id == id;
                        if i < orig.len() {
                            assert(ps[i] == ps.take(orig.len() as int)[i]);
                            assert(orig[i].id == ids@[k as int]);
                            assert(present(orig, ids@[k as int]));
                        } else {
                            let j = i - orig.len();
                            assert(ps[orig.len() + j].id == ids@[j]);
                            assert(ids@[j] == ids@[k as int]);
                        }
                    }
                }
                assert(w0.rosters@[jt].roster.seat(enter_seq()[k as int]) is None);
                assert(!w0.rosters@[jt].roster.is_full()) by {
                    assert(w0.rosters@[jt].roster.characters@[seat_index(enter_seq()[k as int])] is None);
                }
            }
            match self.add_participant(id, &members[k], team) {
                Ok(p) => {
                    proof {
                        lemma_join_step(w0, *self, jt, members@, Seq::new(k as nat, |i: int| i), k as int, id, p);
                        assert(Seq::new(k as nat, |i: int| i).push(k as int) =~= Seq::new((k + 1) as nat, |i: int| i));
                        let a = choose|a: ActiveCharacter| joined_as(w0, *self, id, members@[k as int], team, p, a);
                        let ps1 = self.active_characters@;
                        assert(ps1 == w0.active_characters@.push(entered(a)));
                        assert(ps1[orig.len() + k] == entered(a));
                        assert(ps1.take(orig.len() as int) =~= orig) by {
                            assert forall|i: int| 0 <= i < orig.len() implies ps1[i] == orig[i] by {
                                assert(w0.active_characters@[i] == w0.active_characters@.take(orig.len() as int)[i]);
                            }
                        }
                        assert forall|j: int| 0 <= j < k + 1 implies self.active_characters@[orig.len() + j].id == ids@[j] by {
                            if j < k {
                                assert(ps1[orig.len() + j] == w0.active_characters@[orig.len() + j]);
                            }
                        }
                        assert(teams_of(self.rosters@) =~= teams_of(w0.rosters@)) by {
                            assert forall|q: int| 0 <= q < self.rosters@.len() implies self.rosters@[q].team == w0.rosters@[q].team by {
                                if q != jt {
                                    assert(self.rosters@[q] == w0.rosters@[q]);
                                }
                            }
                        }
                    }
                },
                Err(e) => {
                    proof {
                        assert(!present(w0.active_characters@, id));
                        assert(roster_pos(w0.rosters@, team) == jt);
                        assert(!w0.rosters@[jt].roster.is_full());
                        match e {
                            AddError::RosterFull => {},
                            AddError::DuplicateParticipant => {},
                        }
                        assert(false);
                    }
                },
            }
            k = k + 1;
        }
        proof {
            lemma_roster_pos_at(self.rosters@, team, jt);
            assert(k as int == seated_count(members@.len() as int));
        }
    }
}


/// Every occupied seat of `r` holds `id`.
pub open spec fn seats_only(r: Roster, id: ActiveCharacterID) -> bool {
    forall|i: int| 0 <= i < 6 ==> (#[trigger] r.characters@[i] is None || r.characters@[i] == Some(id))
}

/// A turn between two teams, the front one seating only a Grinder and the
/// other only a Resilient, is the duel: the Resilient's health moves by one,
/// the Grinder's experience by one, and the turn records the duel's tree.
/// `d` and `defender` are the draws that `Sim::turn` states exist.
pub proof fn lemma_duel_turn(g0: Game, g1: Game, d: int, defender: ActiveCharacterID)
    requires
        g0.wf(),
        duel(g0.active_characters@),
        g0.turn_order@.len() == 2,
        seats_only(g0.rosters@[roster_pos(g0.rosters@, g0.turn_order@[0])].roster, g0.active_characters@[0].id),
        seats_only(g0.rosters@[roster_pos(g0.rosters@, g0.turn_order@[1])].roster, g0.active_characters@[1].id),
        1 <= d < g0.turn_order@.len(),
        g0.rosters@[roster_pos(g0.rosters@, g0.turn_order@[d])].roster.holds(defender),
        turn_outcome(g0, g1, defender),
    ensures
        duel_after(g0.active_characters@, g1.active_characters@),
        g1.latest_events@.len() == 1,
        duel_tree(g0.active_characters@, g1.latest_events@[0]),
{
    let ps = g0.active_characters@;
    let rd = g0.rosters@[roster_pos(g0.rosters@, g0.turn_order@[1])].roster;
    let i = choose|i: int| 0 <= i < 6 && rd.characters@[i] == Some(defender);
    assert(rd.characters@[i] is None || rd.characters@[i] == Some(ps[1].id));
    assert(defender == ps[1].id);
    let ra = g0.rosters@[roster_pos(g0.rosters@, g0.turn_order@[0])].roster;
    let picked = ra.next_step().1;
    assert(picked is Some);
    let j = choose|j: int| ra.next_offset(j);
    let seat = seat_index(seat_after(ra.previous_turn, j));
    assert(0 <= seat < 6);
    assert(ra.characters@[seat] is None || ra.characters@[seat] == Some(ps[0].id));
    assert(picked == Some(ps[0].id));
    assert(EventView::Attack { attacker: picked.unwrap(), target: defender } == duel_attack(ps));
    lemma_grinder_attacks_resilient(ps, g1.latest_events@[0]);
}

/// Replaying a turn is deterministic: from the same world, with the same
/// defender drawn, two runs reach the same turn order, rosters and
/// participants, and record trees that hold the same events at every node.
pub proof fn lemma_turn_replay(g0: Game, g1: Game, g2: Game, defender: ActiveCharacterID)
    requires
        turn_outcome(g0, g1, defender),
        turn_outcome(g0, g2, defender),
    ensures
        g1.turn_order@ == g2.turn_order@,
        g1.rosters@ == g2.rosters@,
        g1.active_characters@ == g2.active_characters@,
        g1.latest_events@.len() == g2.latest_events@.len(),
        same_tree(g1.latest_events@[0], g2.latest_events@[0], MAX_EVENT_DEPTH as nat),
{
    let attacking = g0.turn_order@[0];
    let j = roster_pos(g0.rosters@, attacking);
    let picked = g0.rosters@[j].roster.next_step().1;
    let e = EventView::Attack { attacker: picked.unwrap(), target: defender };
    lemma_resolution_deterministic(
        cast_of(g0.active_characters@),
        e,
        MAX_EVENT_DEPTH as nat,
        g1.latest_events@[0],
        g2.latest_events@[0],
    );
}

} // verus!

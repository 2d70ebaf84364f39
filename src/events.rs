use vstd::prelude::*;
use crate::game::{ActiveCharacter, Game};
use crate::ids::ActiveCharacterID;
use crate::modifiers::{Modifier, ModifierType, pre_reaction, post_events, xp_location};
use crate::progress_bars::{ProgressBar, ProgressBarName};

verus! {

/// Where a gauge lives: a participant and the gauge's name.
#[derive(Debug, Clone, Copy, Hash, PartialEq, Eq, Structural)]
pub enum GameProgressBarLocation {
    Character(ActiveCharacterID, ProgressBarName),
}

/// A proposed action.
#[derive(Debug, Clone)]
pub enum Event {
    Attack { attacker: ActiveCharacterID, target: ActiveCharacterID },
    CreateProgressBar { location: GameProgressBarLocation, bar: ProgressBar },
    ProgressProgressBar { location: GameProgressBarLocation, amount: u16 },
    Say(String),
}

/// What an event says, with its text as characters.
pub enum EventView {
    Attack { attacker: ActiveCharacterID, target: ActiveCharacterID },
    CreateProgressBar { location: GameProgressBarLocation, bar: ProgressBar },
    ProgressProgressBar { location: GameProgressBarLocation, amount: u16 },
    Say(Seq<char>),
}

impl View for Event {
    type V = EventView;

    open spec fn view(&self) -> EventView {
        match *self {
            Event::Attack { attacker, target } => EventView::Attack { attacker, target },
            Event::CreateProgressBar { location, bar } => EventView::CreateProgressBar { location, bar },
            Event::ProgressProgressBar { location, amount } => EventView::ProgressProgressBar { location, amount },
            Event::Say(text) => EventView::Say(text@),
        }
    }
}

/// The views of a list of events.
pub open spec fn event_views(s: Seq<Event>) -> Seq<EventView> {
    s.map_values(|e: Event| e@)
}

/// An event that has executed and can no longer change.
#[derive(Debug, Clone)]
pub struct ExecutedEvent(pub Event);

/// A resolved event with the events it caused: those emitted before it
/// executed, those it produced, and those emitted after it executed.
#[derive(Debug)]
pub struct CompletedEvent {
    pub event: ExecutedEvent,
    pub pre_responses: Vec<CompletedEvent>,
    pub outcomes: Vec<CompletedEvent>,
    pub post_responses: Vec<CompletedEvent>,
}

/// The damage an attack deals.
pub const BASE_DAMAGE: u16 = 2;

/// How deep a resolution may nest. Every event of the catalogue resolves
/// within three levels.
pub const MAX_EVENT_DEPTH: u8 = 3;

/// Each participant's identity and abilities, in world order.
pub open spec fn cast_of(ps: Seq<ActiveCharacter>) -> Seq<(ActiveCharacterID, Seq<Modifier>)> {
    ps.map_values(|p: ActiveCharacter| (p.id, p.modifiers@))
}

/// The in-flight event after the `pre_event` hooks of `mods`, held by `p`,
/// ran in order, and the events they emitted.
pub open spec fn pre_mods(mods: Seq<Modifier>, p: ActiveCharacterID, e: EventView) -> (EventView, Seq<EventView>)
    decreases mods.len(),
{
    if mods.len() == 0 {
        (e, Seq::empty())
    } else {
        let (e1, s1) = pre_mods(mods.drop_last(), p, e);
        let (e2, s2) = pre_reaction(mods.last().1, p, e1);
        (e2, s1 + s2)
    }
}

/// The in-flight event after every participant's `pre_event` hooks ran, and
/// the events they emitted, participant by participant.
pub open spec fn pre_all(c: Seq<(ActiveCharacterID, Seq<Modifier>)>, e: EventView) -> (EventView, Seq<EventView>)
    decreases c.len(),
{
    if c.len() == 0 {
        (e, Seq::empty())
    } else {
        let (e1, s1) = pre_all(c.drop_last(), e);
        let (e2, s2) = pre_mods(c.last().1, c.last().0, e1);
        (e2, s1 + s2)
    }
}

/// The events the `post_event` hooks of `mods`, held by `p`, emit.
pub open spec fn post_mods(mods: Seq<Modifier>, p: ActiveCharacterID, e: EventView) -> Seq<EventView>
    decreases mods.len(),
{
    if mods.len() == 0 {
        Seq::empty()
    } else {
        post_mods(mods.drop_last(), p, e) + post_events(mods.last().1, p, e)
    }
}

/// The events every participant's `post_event` hooks emit.
pub open spec fn post_all(c: Seq<(ActiveCharacterID, Seq<Modifier>)>, e: EventView) -> Seq<EventView>
    decreases c.len(),
{
    if c.len() == 0 {
        Seq::empty()
    } else {
        post_all(c.drop_last(), e) + post_mods(c.last().1, c.last().0, e)
    }
}

/// The events that executing `e` produces.
pub open spec fn derived(e: EventView) -> Seq<EventView> {
    match e {
        EventView::Attack { target, .. } => seq![EventView::ProgressProgressBar {
            location: GameProgressBarLocation::Character(target, ProgressBarName::HP),
            amount: BASE_DAMAGE,
        }],
        _ => Seq::empty(),
    }
}

/// A participant with identity `id` is in the world.
pub open spec fn present(ps: Seq<ActiveCharacter>, id: ActiveCharacterID) -> bool {
    exists|i: int| 0 <= i < ps.len() && ps[i].id == id
}

/// The place of the participant `id`.
pub open spec fn index_of(ps: Seq<ActiveCharacter>, id: ActiveCharacterID) -> int {
    choose|i: int| 0 <= i < ps.len() && ps[i].id == id
}

/// The gauge at `location`, if there is one.
pub open spec fn gauge_at(ps: Seq<ActiveCharacter>, location: GameProgressBarLocation) -> Option<ProgressBar> {
    match location {
        GameProgressBarLocation::Character(p, name) => if present(ps, p) {
            ps[index_of(ps, p)].progress_bars.slot(name)
        } else {
            None
        },
    }
}

/// Some ability in `mods` is a Grinder.
pub open spec fn has_grinder(mods: Seq<Modifier>) -> bool {
    exists|j: int| 0 <= j < mods.len() && mods[j].1 == ModifierType::Grinder
}

/// The participants of a well-formed world: identities are distinct and every
/// gauge stays within bounds.
pub open spec fn wf_participants(ps: Seq<ActiveCharacter>) -> bool {
    &&& forall|i: int, j: int| 0 <= i < j < ps.len() ==> ps[i].id != ps[j].id
    &&& forall|i: int| 0 <= i < ps.len() ==> (#[trigger] ps[i]).progress_bars.wf()
}

/// `e` refers only to participants and gauges that exist, and a gauge it
/// creates is within bounds. An attack needs the target's health gauge and
/// the experience gauge of each Grinder taking part.
pub open spec fn event_ok(ps: Seq<ActiveCharacter>, e: EventView) -> bool {
    match e {
        EventView::Attack { attacker, target } => {
            &&& gauge_at(ps, GameProgressBarLocation::Character(target, ProgressBarName::HP)) is Some
            &&& forall|i: int|
                0 <= i < ps.len() && ((#[trigger] ps[i]).id == attacker || ps[i].id == target) && has_grinder(ps[i].modifiers@)
                    ==> ps[i].progress_bars.xp is Some
        },
        EventView::CreateProgressBar { location: GameProgressBarLocation::Character(p, _), bar } => present(ps, p)
            && bar.wf(),
        EventView::ProgressProgressBar { location, .. } => gauge_at(ps, location) is Some,
        EventView::Say(_) => true,
    }
}

/// The participants after the primary effect of `e`.
pub open spec fn apply(ps: Seq<ActiveCharacter>, e: EventView) -> Seq<ActiveCharacter> {
    match e {
        EventView::CreateProgressBar { location: GameProgressBarLocation::Character(p, name), bar } => if present(ps, p) {
            let i = index_of(ps, p);
            ps.update(i, ActiveCharacter { progress_bars: ps[i].progress_bars.with(name, bar), ..ps[i] })
        } else {
            ps
        },
        EventView::ProgressProgressBar { location: GameProgressBarLocation::Character(p, name), amount } => {
            match gauge_at(ps, GameProgressBarLocation::Character(p, name)) {
                Some(b) => {
                    let i = index_of(ps, p);
                    ps.update(
                        i,
                        ActiveCharacter { progress_bars: ps[i].progress_bars.with(name, b.incremented(amount)), ..ps[i] },
                    )
                },
                None => ps,
            }
        },
        _ => ps,
    }
}

/// The participants after `e` and everything it causes has resolved.
pub open spec fn effect(ps: Seq<ActiveCharacter>, e: EventView, fuel: nat) -> Seq<ActiveCharacter>
    decreases fuel, 0nat,
{
    if fuel == 0 {
        ps
    } else {
        let c = cast_of(ps);
        let (m, pre) = pre_all(c, e);
        let ps1 = effect_list(ps, pre, (fuel - 1) as nat);
        let ps2 = apply(ps1, m);
        let ps3 = effect_list(ps2, derived(m), (fuel - 1) as nat);
        effect_list(ps3, post_all(c, m), (fuel - 1) as nat)
    }
}

/// The participants after each of `evs` resolved in turn.
pub open spec fn effect_list(ps: Seq<ActiveCharacter>, evs: Seq<EventView>, fuel: nat) -> Seq<ActiveCharacter>
    decreases fuel, evs.len(),
{
    if evs.len() == 0 {
        ps
    } else {
        effect(effect_list(ps, evs.drop_last(), fuel), evs.last(), fuel)
    }
}

/// `t` is the resolution of `e` among the cast `c`: its executed event is `e`
/// as the `pre_event` hooks left it, and its pre-responses, outcomes and
/// post-responses resolve, in order, the events that the hooks emitted, that
/// executing it produced, and that the `post_event` hooks emitted.
pub open spec fn resolves(c: Seq<(ActiveCharacterID, Seq<Modifier>)>, e: EventView, fuel: nat, t: CompletedEvent) -> bool
    decreases fuel,
{
    if fuel == 0 {
        false
    } else {
        let (m, pre) = pre_all(c, e);
        let outs = derived(m);
        let post = post_all(c, m);
        &&& t.event.0@ == m
        &&& t.pre_responses@.len() == pre.len()
        &&& forall|i: int| 0 <= i < pre.len() ==> resolves(c, pre[i], (fuel - 1) as nat, #[trigger] t.pre_responses@[i])
        &&& t.outcomes@.len() == outs.len()
        &&& forall|i: int| 0 <= i < outs.len() ==> resolves(c, outs[i], (fuel - 1) as nat, #[trigger] t.outcomes@[i])
        &&& t.post_responses@.len() == post.len()
        &&& forall|i: int| 0 <= i < post.len() ==> resolves(c, post[i], (fuel - 1) as nat, #[trigger] t.post_responses@[i])
    }
}

/// The resolution of `e` nests no deeper than `fuel` levels.
pub open spec fn fits(c: Seq<(ActiveCharacterID, Seq<Modifier>)>, e: EventView, fuel: nat) -> bool
    decreases fuel,
{
    if fuel == 0 {
        false
    } else {
        let (m, pre) = pre_all(c, e);
        &&& forall|i: int| 0 <= i < pre.len() ==> fits(c, #[trigger] pre[i], (fuel - 1) as nat)
        &&& forall|i: int| 0 <= i < derived(m).len() ==> fits(c, #[trigger] derived(m)[i], (fuel - 1) as nat)
        &&& forall|i: int| 0 <= i < post_all(c, m).len() ==> fits(c, #[trigger] post_all(c, m)[i], (fuel - 1) as nat)
    }
}

/// Two trees hold the same events at every node, to `fuel` levels.
pub open spec fn same_tree(a: CompletedEvent, b: CompletedEvent, fuel: nat) -> bool
    decreases fuel,
{
    if fuel == 0 {
        true
    } else {
        &&& a.event.0@ == b.event.0@
        &&& a.pre_responses@.len() == b.pre_responses@.len()
        &&& forall|i: int| 0 <= i < a.pre_responses@.len() ==> same_tree(#[trigger] a.pre_responses@[i], b.pre_responses@[i], (fuel - 1) as nat)
        &&& a.outcomes@.len() == b.outcomes@.len()
        &&& forall|i: int| 0 <= i < a.outcomes@.len() ==> same_tree(#[trigger] a.outcomes@[i], b.outcomes@[i], (fuel - 1) as nat)
        &&& a.post_responses@.len() == b.post_responses@.len()
        &&& forall|i: int| 0 <= i < a.post_responses@.len() ==> same_tree(#[trigger] a.post_responses@[i], b.post_responses@[i], (fuel - 1) as nat)
    }
}

/// `ps1` has the cast of `ps0` and still holds every gauge `ps0` held.
pub open spec fn kept(ps0: Seq<ActiveCharacter>, ps1: Seq<ActiveCharacter>) -> bool {
    &&& ps1.len() == ps0.len()
    &&& forall|i: int| 0 <= i < ps0.len() ==> (#[trigger] ps1[i]).id == ps0[i].id && ps1[i].modifiers@ == ps0[i].modifiers@
    &&& forall|i: int| 0 <= i < ps0.len() ==> ((#[trigger] ps0[i]).progress_bars.xp is Some ==> ps1[i].progress_bars.xp is Some)
    &&& forall|i: int| 0 <= i < ps0.len() ==> ((#[trigger] ps0[i]).progress_bars.hp is Some ==> ps1[i].progress_bars.hp is Some)
}

/// In a well-formed world a participant's identity leads back to its place.
pub proof fn lemma_index_of(ps: Seq<ActiveCharacter>, i: int)
    requires
        wf_participants(ps),
        0 <= i < ps.len(),
    ensures
        present(ps, ps[i].id),
        index_of(ps, ps[i].id) == i,
{
    assert(present(ps, ps[i].id));
}

impl Game {
    /// Runs every participant's `pre_event` hooks on `event`, participant by
    /// participant and ability by ability, and collects what they emit.
    pub fn get_pre_responses(&self, event: &mut Event) -> (r: Vec<Event>)
        ensures
            (final(event)@, event_views(r@)) == pre_all(cast_of(self.active_characters@), old(event)@),
    {
        let ghost c = cast_of(self.active_characters@);
        let ghost e0 = event@;
        let mut out: Vec<Event> = Vec::new();
        let mut i: usize = 0;
        while i < self.active_characters.len()
            invariant
                0 <= i <= self.active_characters@.len(),
                c == cast_of(self.active_characters@),
                (event@, event_views(out@)) == pre_all(c.take(i as int), e0),
            decreases self.active_characters@.len() - i,
        {
            let character = &self.active_characters[i];
            let ghost ei = event@;
            let ghost before = out@;
            let mut j: usize = 0;
            while j < character.modifiers.len()
                invariant
                    0 <= j <= character.modifiers@.len(),
                    (event@, event_views(out@.skip(before.len() as int))) == pre_mods(character.modifiers@.take(j as int), character.id, ei),
                    out@.take(before.len() as int) == before,
                    out@.len() >= before.len(),
                decreases character.modifiers@.len() - j,
            {
                let mut emitted = character.modifiers[j].pre_event(character, event);
                let ghost prev = out@;
                out.append(&mut emitted);
                proof {
                    let mods = character.modifiers@.take(j + 1);
                    assert(mods.drop_last() =~= character.modifiers@.take(j as int));
                    assert(out@.skip(before.len() as int) =~= prev.skip(before.len() as int) + out@.skip(prev.len() as int));
                    assert(event_views(out@.skip(before.len() as int)) =~= event_views(prev.skip(before.len() as int)) + event_views(out@.skip(prev.len() as int)));
                    assert(out@.take(before.len() as int) =~= prev.take(before.len() as int));
                }
                j = j + 1;
            }
            proof {
                assert(character.modifiers@.take(j as int) =~= character.modifiers@);
                let ct = c.take(i + 1);
                assert(ct.drop_last() =~= c.take(i as int));
                assert(out@ =~= before + out@.skip(before.len() as int));
                assert(event_views(out@) =~= event_views(before) + event_views(out@.skip(before.len() as int)));
            }
            i = i + 1;
        }
        assert(c.take(i as int) =~= c);
        out
    }
    /// Runs every participant's `post_event` hooks on the executed `event`
    /// and collects what they emit.
    pub fn get_post_responses(&self, event: &ExecutedEvent) -> (r: Vec<Event>)
        ensures
            event_views(r@) == post_all(cast_of(self.active_characters@), event.0@),
    {
        let ghost c = cast_of(self.active_characters@);
        let ghost e = event.0@;
        let mut out: Vec<Event> = Vec::new();
        let mut i: usize = 0;
        while i < self.active_characters.len()
            invariant
                0 <= i <= self.active_characters@.len(),
                c == cast_of(self.active_characters@),
                e == event.0@,
                event_views(out@) == post_all(c.take(i as int), e),
            decreases self.active_characters@.len() - i,
        {
            let character = &self.active_characters[i];
            let ghost before = out@;
            let mut j: usize = 0;
            while j < character.modifiers.len()
                invariant
                    0 <= j <= character.modifiers@.len(),
                    e == event.0@,
                    event_views(out@.skip(before.len() as int)) == post_mods(character.modifiers@.take(j as int), character.id, e),
                    out@.take(before.len() as int) == before,
                    out@.len() >= before.len(),
                decreases character.modifiers@.len() - j,
            {
                let mut emitted = character.modifiers[j].post_event(character, event);
                let ghost prev = out@;
                out.append(&mut emitted);
                proof {
                    let mods = character.modifiers@.take(j + 1);
                    assert(mods.drop_last() =~= character.modifiers@.take(j as int));
                    assert(out@.skip(before.len() as int) =~= prev.skip(before.len() as int) + out@.skip(prev.len() as int));
                    assert(event_views(out@.skip(before.len() as int)) =~= event_views(prev.skip(before.len() as int)) + event_views(out@.skip(prev.len() as int)));
                    assert(out@.take(before.len() as int) =~= prev.take(before.len() as int));
                }
                j = j + 1;
            }
            proof {
                assert(character.modifiers@.take(j as int) =~= character.modifiers@);
                let ct = c.take(i + 1);
                assert(ct.drop_last() =~= c.take(i as int));
                assert(out@ =~= before + out@.skip(before.len() as int));
                assert(event_views(out@) =~= event_views(before) + event_views(out@.skip(before.len() as int)));
            }
            i = i + 1;
        }
        assert(c.take(i as int) =~= c);
        out
    }

    /// Holds `bar` at `location`, replacing the gauge there, and returns the
    /// gauge it replaced.
    pub fn insert_progress_bar(&mut self, location: GameProgressBarLocation, bar: ProgressBar) -> (r: Option<ProgressBar>)
        requires
            wf_participants(old(self).active_characters@),
            match location {
                GameProgressBarLocation::Character(p, _) => present(old(self).active_characters@, p),
            },
        ensures
            final(self).active_characters@ == apply(
                old(self).active_characters@,
                EventView::CreateProgressBar { location, bar },
            ),
            r == gauge_at(old(self).active_characters@, location),
            final(self).game_id == old(self).game_id,
            final(self).turn_order == old(self).turn_order,
            final(self).rosters == old(self).rosters,
            final(self).latest_events == old(self).latest_events,
    {
        match location {
            GameProgressBarLocation::Character(character, name) => {
                let i = self.find(character).unwrap();
                let mut p = self.active_characters.remove(i);
                let previous = p.progress_bars.insert(name, bar);
                self.active_characters.insert(i, p);
                proof {
                    let ps0 = old(self).active_characters@;
                    let k = index_of(ps0, character);
                    assert(self.active_characters@ =~= ps0.update(
                        k,
                        ActiveCharacter { progress_bars: ps0[k].progress_bars.with(name, bar), ..ps0[k] },
                    ));
                }
                previous
            },
        }
    }

    /// Increments the gauge at `location` by `amount`, saturating at its
    /// maximum.
    pub fn progress_progress_bar(&mut self, location: GameProgressBarLocation, amount: u16)
        requires
            wf_participants(old(self).active_characters@),
            gauge_at(old(self).active_characters@, location) is Some,
        ensures
            final(self).active_characters@ == apply(
                old(self).active_characters@,
                EventView::ProgressProgressBar { location, amount },
            ),
            final(self).game_id == old(self).game_id,
            final(self).turn_order == old(self).turn_order,
            final(self).rosters == old(self).rosters,
            final(self).latest_events == old(self).latest_events,
    {
        match location {
            GameProgressBarLocation::Character(character, name) => {
                let i = self.find(character).unwrap();
                let mut p = self.active_characters.remove(i);
                p.progress_bars.increment(name, amount);
                self.active_characters.insert(i, p);
                proof {
                    let ps0 = old(self).active_characters@;
                    let k = index_of(ps0, character);
                    let b = gauge_at(ps0, location).unwrap();
                    assert(self.active_characters@ =~= ps0.update(
                        k,
                        ActiveCharacter { progress_bars: ps0[k].progress_bars.with(name, b.incremented(amount)), ..ps0[k] },
                    ));
                }
            },
        }
    }
}

impl Event {
    /// Applies the event's own effect to the world and returns it as executed,
    /// with the events it produces: an attack produces one hit of
    /// `BASE_DAMAGE` on the target's health.
    pub fn execute(self, game: &mut Game) -> (r: (ExecutedEvent, Vec<Event>))
        requires
            wf_participants(old(game).active_characters@),
            self@ is Attack || event_ok(old(game).active_characters@, self@),
        ensures
            r.0.0@ == self@,
            event_views(r.1@) == derived(self@),
            final(game).active_characters@ == apply(old(game).active_characters@, self@),
            final(game).game_id == old(game).game_id,
            final(game).turn_order == old(game).turn_order,
            final(game).rosters == old(game).rosters,
            final(game).latest_events == old(game).latest_events,
    {
        let mut events: Vec<Event> = Vec::new();
        match &self {
            Event::Attack { target, .. } => {
                events.push(
                    Event::ProgressProgressBar {
                        location: GameProgressBarLocation::Character(*target, ProgressBarName::HP),
                        amount: BASE_DAMAGE,
                    },
                );
            },
            Event::CreateProgressBar { location, bar } => {
                game.insert_progress_bar(*location, *bar);
            },
            Event::ProgressProgressBar { location, amount } => {
                game.progress_progress_bar(*location, *amount);
            },
            Event::Say(_) => {},
        }
        assert(event_views(events@) =~= derived(self@));
        (ExecutedEvent(self), events)
    }
}

/// The shape the `pre_event` hooks keep: an event other than a gauge change
/// passes untouched with nothing emitted; a gauge change keeps its location;
/// only announcements are emitted.
pub open spec fn pre_shape(e: EventView, r: (EventView, Seq<EventView>)) -> bool {
    &&& !(e is ProgressProgressBar) ==> r == (e, Seq::<EventView>::empty())
    &&& e matches EventView::ProgressProgressBar { location, .. } ==> (r.0 matches EventView::ProgressProgressBar {
        location: l,
        ..
    } && l == location)
    &&& forall|k: int| 0 <= k < r.1.len() ==> (#[trigger] r.1[k]) is Say
}

/// `x` is the experience point that a Grinder of the cast taking part in the
/// attack `m` earns.
pub open spec fn grinder_xp_gain(c: Seq<(ActiveCharacterID, Seq<Modifier>)>, m: EventView, x: EventView) -> bool {
    exists|i: int|
        0 <= i < c.len() && has_grinder(c[i].1) && (m matches EventView::Attack { attacker, target } && (c[i].0
            == attacker || c[i].0 == target)) && x == EventView::ProgressProgressBar {
            location: xp_location(#[trigger] c[i].0),
            amount: 1,
        }
}

proof fn lemma_pre_mods_shape(mods: Seq<Modifier>, p: ActiveCharacterID, e: EventView)
    ensures
        pre_shape(e, pre_mods(mods, p, e)),
    decreases mods.len(),
{
    if mods.len() > 0 {
        lemma_pre_mods_shape(mods.drop_last(), p, e);
        let (e1, s1) = pre_mods(mods.drop_last(), p, e);
        let (e2, s2) = pre_reaction(mods.last().1, p, e1);
        assert forall|k: int| 0 <= k < (s1 + s2).len() implies (#[trigger] (s1 + s2)[k]) is Say by {
            if k < s1.len() {
                assert((s1 + s2)[k] == s1[k]);
            } else {
                assert((s1 + s2)[k] == s2[k - s1.len()]);
            }
        }
        if !(e is ProgressProgressBar) {
            assert(s1 + s2 =~= Seq::<EventView>::empty());
        }
    }
}

proof fn lemma_pre_all_shape(c: Seq<(ActiveCharacterID, Seq<Modifier>)>, e: EventView)
    ensures
        pre_shape(e, pre_all(c, e)),
    decreases c.len(),
{
    if c.len() > 0 {
        lemma_pre_all_shape(c.drop_last(), e);
        let (e1, s1) = pre_all(c.drop_last(), e);
        lemma_pre_mods_shape(c.last().1, c.last().0, e1);
        let (e2, s2) = pre_mods(c.last().1, c.last().0, e1);
        assert forall|k: int| 0 <= k < (s1 + s2).len() implies (#[trigger] (s1 + s2)[k]) is Say by {
            if k < s1.len() {
                assert((s1 + s2)[k] == s1[k]);
            } else {
                assert((s1 + s2)[k] == s2[k - s1.len()]);
            }
        }
        if !(e is ProgressProgressBar) {
            assert(s1 + s2 =~= Seq::<EventView>::empty());
        }
    }
}

proof fn lemma_post_mods_shape(mods: Seq<Modifier>, p: ActiveCharacterID, e: EventView)
    ensures
        !(e is Attack) ==> post_mods(mods, p, e).len() == 0,
        forall|k: int|
            0 <= k < post_mods(mods, p, e).len() ==> has_grinder(mods) && (e matches EventView::Attack {
                attacker,
                target,
            } && (p == attacker || p == target)) && #[trigger] post_mods(mods, p, e)[k]
                == (EventView::ProgressProgressBar { location: xp_location(p), amount: 1 }),
    decreases mods.len(),
{
    if mods.len() > 0 {
        let front = mods.drop_last();
        lemma_post_mods_shape(front, p, e);
        let s1 = post_mods(front, p, e);
        let s2 = post_events(mods.last().1, p, e);
        assert forall|k: int| 0 <= k < (s1 + s2).len() implies has_grinder(mods) && (e matches EventView::Attack {
            attacker,
            target,
        } && (p == attacker || p == target)) && #[trigger] (s1 + s2)[k]
            == EventView::ProgressProgressBar { location: xp_location(p), amount: 1 } by {
            if k < s1.len() {
                assert((s1 + s2)[k] == s1[k]);
                let j = choose|j: int| 0 <= j < front.len() && front[j].1 == ModifierType::Grinder;
                assert(mods[j] == front[j]);
            } else {
                assert((s1 + s2)[k] == s2[k - s1.len()]);
                assert(mods[mods.len() - 1] == mods.last());
            }
        }
    }
}

proof fn lemma_post_all_shape(c: Seq<(ActiveCharacterID, Seq<Modifier>)>, e: EventView)
    ensures
        !(e is Attack) ==> post_all(c, e).len() == 0,
        forall|k: int| 0 <= k < post_all(c, e).len() ==> grinder_xp_gain(c, e, #[trigger] post_all(c, e)[k]),
    decreases c.len(),
{
    if c.len() > 0 {
        let front = c.drop_last();
        lemma_post_all_shape(front, e);
        lemma_post_mods_shape(c.last().1, c.last().0, e);
        let s1 = post_all(front, e);
        let s2 = post_mods(c.last().1, c.last().0, e);
        assert forall|k: int| 0 <= k < (s1 + s2).len() implies grinder_xp_gain(c, e, #[trigger] (s1 + s2)[k]) by {
            if k < s1.len() {
                assert((s1 + s2)[k] == s1[k]);
                assert(grinder_xp_gain(front, e, s1[k]));
                let i = choose|i: int|
                    0 <= i < front.len() && has_grinder(front[i].1) && (e matches EventView::Attack { attacker, target }
                        && (front[i].0 == attacker || front[i].0 == target)) && s1[k] == EventView::ProgressProgressBar {
                        location: xp_location(#[trigger] front[i].0),
                        amount: 1,
                    };
                assert(c[i] == front[i]);
            } else {
                assert((s1 + s2)[k] == s2[k - s1.len()]);
                assert(c[c.len() - 1] == c.last());
            }
        }
    }
}

proof fn lemma_fits_leaf(c: Seq<(ActiveCharacterID, Seq<Modifier>)>, e: EventView, fuel: nat)
    requires
        fuel >= 1,
        e is Say || e is CreateProgressBar,
    ensures
        fits(c, e, fuel),
{
    lemma_pre_all_shape(c, e);
    lemma_post_all_shape(c, e);
}

proof fn lemma_fits_progress(c: Seq<(ActiveCharacterID, Seq<Modifier>)>, e: EventView, fuel: nat)
    requires
        fuel >= 2,
        e is ProgressProgressBar,
    ensures
        fits(c, e, fuel),
{
    lemma_pre_all_shape(c, e);
    let (m, pre) = pre_all(c, e);
    lemma_post_all_shape(c, m);
    assert forall|i: int| 0 <= i < pre.len() implies fits(c, #[trigger] pre[i], (fuel - 1) as nat) by {
        lemma_fits_leaf(c, pre[i], (fuel - 1) as nat);
    }
}

/// Every event of the catalogue resolves within `MAX_EVENT_DEPTH` levels,
/// whoever takes part.
pub proof fn lemma_fits_max_depth(c: Seq<(ActiveCharacterID, Seq<Modifier>)>, e: EventView)
    ensures
        fits(c, e, MAX_EVENT_DEPTH as nat),
{
    let fuel = MAX_EVENT_DEPTH as nat;
    if e is Say || e is CreateProgressBar {
        lemma_fits_leaf(c, e, fuel);
    } else if e is ProgressProgressBar {
        lemma_fits_progress(c, e, fuel);
    } else {
        lemma_pre_all_shape(c, e);
        let (m, pre) = pre_all(c, e);
        lemma_post_all_shape(c, m);
        assert forall|i: int| 0 <= i < derived(m).len() implies fits(c, #[trigger] derived(m)[i], (fuel - 1) as nat) by {
            lemma_fits_progress(c, derived(m)[i], (fuel - 1) as nat);
        }
        assert forall|i: int| 0 <= i < post_all(c, m).len() implies fits(c, #[trigger] post_all(c, m)[i], (fuel - 1) as nat) by {
            assert(grinder_xp_gain(c, m, post_all(c, m)[i]));
            lemma_fits_progress(c, post_all(c, m)[i], (fuel - 1) as nat);
        }
    }
}

/// Keeping every gauge keeps the cast.
pub proof fn lemma_kept_cast(ps0: Seq<ActiveCharacter>, ps1: Seq<ActiveCharacter>)
    requires
        kept(ps0, ps1),
    ensures
        cast_of(ps0) == cast_of(ps1),
{
    assert(cast_of(ps0) =~= cast_of(ps1));
}

/// Keeping gauges is transitive.
pub proof fn lemma_kept_trans(a: Seq<ActiveCharacter>, b: Seq<ActiveCharacter>, c: Seq<ActiveCharacter>)
    requires
        kept(a, b),
        kept(b, c),
    ensures
        kept(a, c),
{
    assert forall|i: int| 0 <= i < a.len() implies (#[trigger] c[i]).id == a[i].id && c[i].modifiers@ == a[i].modifiers@ by {
        assert(b[i].id == a[i].id);
    }
    assert forall|i: int| 0 <= i < a.len() implies ((#[trigger] a[i]).progress_bars.xp is Some ==> c[i].progress_bars.xp is Some) by {
        assert(b[i].id == a[i].id);
    }
    assert forall|i: int| 0 <= i < a.len() implies ((#[trigger] a[i]).progress_bars.hp is Some ==> c[i].progress_bars.hp is Some) by {
        assert(b[i].id == a[i].id);
    }
}

/// A gauge that exists stays where it is in a later world that kept every
/// gauge.
proof fn lemma_kept_gauge(ps0: Seq<ActiveCharacter>, ps1: Seq<ActiveCharacter>, location: GameProgressBarLocation)
    requires
        wf_participants(ps0),
        wf_participants(ps1),
        kept(ps0, ps1),
        gauge_at(ps0, location) is Some,
    ensures
        gauge_at(ps1, location) is Some,
{
    let GameProgressBarLocation::Character(p, name) = location;
    let i = index_of(ps0, p);
    lemma_index_of(ps0, i);
    assert(ps1[i].id == p);
    lemma_index_of(ps1, i);
}

/// An event in order stays in order in a later world that kept every gauge.
pub proof fn lemma_kept_ok(ps0: Seq<ActiveCharacter>, ps1: Seq<ActiveCharacter>, e: EventView)
    requires
        wf_participants(ps0),
        wf_participants(ps1),
        kept(ps0, ps1),
        event_ok(ps0, e),
    ensures
        event_ok(ps1, e),
{
    match e {
        EventView::Attack { attacker, target } => {
            lemma_kept_gauge(ps0, ps1, GameProgressBarLocation::Character(target, ProgressBarName::HP));
            assert forall|i: int|
                0 <= i < ps1.len() && ((#[trigger] ps1[i]).id == attacker || ps1[i].id == target) && has_grinder(ps1[i].modifiers@)
                    implies ps1[i].progress_bars.xp is Some by {
                assert(ps0[i].id == ps1[i].id);
            }
        },
        EventView::CreateProgressBar { location: GameProgressBarLocation::Character(p, _), bar } => {
            let i = index_of(ps0, p);
            assert(ps1[i].id == p);
        },
        EventView::ProgressProgressBar { location, .. } => {
            lemma_kept_gauge(ps0, ps1, location);
        },
        EventView::Say(_) => {},
    }
}

/// Applying an event that is in order keeps the world well formed and keeps
/// every gauge.
proof fn lemma_apply(ps: Seq<ActiveCharacter>, e: EventView)
    requires
        wf_participants(ps),
        event_ok(ps, e),
    ensures
        wf_participants(apply(ps, e)),
        kept(ps, apply(ps, e)),
{
    let r = apply(ps, e);
    match e {
        EventView::CreateProgressBar { location: GameProgressBarLocation::Character(p, name), bar } => {
            let i = index_of(ps, p);
            assert forall|k: int| 0 <= k < r.len() implies (#[trigger] r[k]).id == ps[k].id && r[k].modifiers@ == ps[k].modifiers@ by {}
        },
        EventView::ProgressProgressBar { location: GameProgressBarLocation::Character(p, name), amount } => {
            let i = index_of(ps, p);
            assert forall|k: int| 0 <= k < r.len() implies (#[trigger] r[k]).id == ps[k].id && r[k].modifiers@ == ps[k].modifiers@ by {}
        },
        _ => {},
    }
}

/// The experience point a Grinder earns from an attack that is in order is in
/// order too.
proof fn lemma_xp_gain_ok(ps: Seq<ActiveCharacter>, m: EventView, x: EventView)
    requires
        wf_participants(ps),
        event_ok(ps, m),
        grinder_xp_gain(cast_of(ps), m, x),
    ensures
        event_ok(ps, x),
{
    let c = cast_of(ps);
    let i = choose|i: int|
        0 <= i < c.len() && has_grinder(c[i].1) && (m matches EventView::Attack { attacker, target } && (c[i].0
            == attacker || c[i].0 == target)) && x == EventView::ProgressProgressBar {
            location: xp_location(#[trigger] c[i].0),
            amount: 1,
        };
    lemma_index_of(ps, i);
    assert(ps[i].id == c[i].0);
}

/// The fields of a world that resolving events leaves alone.
pub open spec fn same_frame(g0: Game, g1: Game) -> bool {
    &&& g1.game_id == g0.game_id
    &&& g1.turn_order == g0.turn_order
    &&& g1.rosters == g0.rosters
    &&& g1.latest_events == g0.latest_events
}

impl Event {
    /// Resolves the event and everything it causes, depth first: the events
    /// the `pre_event` hooks emit, the event itself as the hooks left it, the
    /// events it produces, then the events the `post_event` hooks emit.
    pub fn complete(self, game: &mut Game) -> (r: CompletedEvent)
        requires
            wf_participants(old(game).active_characters@),
            event_ok(old(game).active_characters@, self@),
        ensures
            resolves(cast_of(old(game).active_characters@), self@, MAX_EVENT_DEPTH as nat, r),
            final(game).active_characters@ == effect(old(game).active_characters@, self@, MAX_EVENT_DEPTH as nat),
            wf_participants(final(game).active_characters@),
            kept(old(game).active_characters@, final(game).active_characters@),
            same_frame(*old(game), *final(game)),
    {
        proof {
            lemma_fits_max_depth(cast_of(game.active_characters@), self@);
        }
        self.complete_within(game, MAX_EVENT_DEPTH)
    }

    fn complete_within(self, game: &mut Game, fuel: u8) -> (r: CompletedEvent)
        requires
            wf_participants(old(game).active_characters@),
            event_ok(old(game).active_characters@, self@),
            fits(cast_of(old(game).active_characters@), self@, fuel as nat),
        ensures
            resolves(cast_of(old(game).active_characters@), self@, fuel as nat, r),
            final(game).active_characters@ == effect(old(game).active_characters@, self@, fuel as nat),
            wf_participants(final(game).active_characters@),
            kept(old(game).active_characters@, final(game).active_characters@),
            same_frame(*old(game), *final(game)),
        decreases fuel as int, 0int,
    {
        let ghost ps0 = game.active_characters@;
        let ghost c = cast_of(ps0);
        let ghost e0 = self@;
        let mut event = self;
        let pre = game.get_pre_responses(&mut event);
        let ghost m = event@;
        proof {
            lemma_pre_all_shape(c, e0);
            assert forall|k: int| 0 <= k < pre@.len() implies event_ok(ps0, #[trigger] pre@[k]@) by {
                assert(event_views(pre@)[k] is Say);
            }
            assert forall|k: int| 0 <= k < pre@.len() implies fits(c, #[trigger] pre@[k]@, (fuel - 1) as nat) by {
                assert(pre_all(c, e0).1[k] == pre@[k]@);
            }
        }
        let pre_responses = complete_list(pre, game, fuel - 1);
        let ghost ps1 = game.active_characters@;
        proof {
            lemma_kept_cast(ps0, ps1);
            if let EventView::ProgressProgressBar { location, .. } = e0 {
                lemma_kept_gauge(ps0, ps1, location);
            } else {
                lemma_kept_ok(ps0, ps1, e0);
            }
        }
        let (executed, outcomes) = event.execute(game);
        let ghost ps2 = game.active_characters@;
        proof {
            lemma_apply(ps1, m);
            lemma_kept_trans(ps0, ps1, ps2);
            lemma_kept_cast(ps0, ps2);
            assert forall|k: int| 0 <= k < outcomes@.len() implies event_ok(ps2, #[trigger] outcomes@[k]@) by {
                assert(event_views(outcomes@)[k] == derived(m)[k]);
                if let EventView::Attack { target, .. } = m {
                    lemma_kept_gauge(ps1, ps2, GameProgressBarLocation::Character(target, ProgressBarName::HP));
                }
            }
            assert forall|k: int| 0 <= k < outcomes@.len() implies fits(cast_of(ps2), #[trigger] outcomes@[k]@, (fuel - 1) as nat) by {
                assert(event_views(outcomes@)[k] == derived(m)[k]);
            }
        }
        let outcomes = complete_list(outcomes, game, fuel - 1);
        let ghost ps3 = game.active_characters@;
        let post = game.get_post_responses(&executed);
        proof {
            lemma_kept_trans(ps0, ps2, ps3);
            lemma_kept_trans(ps1, ps2, ps3);
            lemma_kept_cast(ps0, ps3);
            lemma_post_all_shape(c, m);
            if m is Attack {
                lemma_kept_ok(ps1, ps3, m);
            }
            assert forall|k: int| 0 <= k < post@.len() implies event_ok(ps3, #[trigger] post@[k]@) by {
                assert(event_views(post@)[k] == post_all(c, m)[k]);
                lemma_xp_gain_ok(ps3, m, post@[k]@);
            }
            assert forall|k: int| 0 <= k < post@.len() implies fits(cast_of(ps3), #[trigger] post@[k]@, (fuel - 1) as nat) by {
                assert(event_views(post@)[k] == post_all(c, m)[k]);
            }
        }
        let post_responses = complete_list(post, game, fuel - 1);
        proof {
            lemma_kept_trans(ps0, ps3, game.active_characters@);
        }
        CompletedEvent { event: executed, pre_responses, outcomes, post_responses }
    }
}

/// Resolves `events` one after the other.
fn complete_list(events: Vec<Event>, game: &mut Game, fuel: u8) -> (r: Vec<CompletedEvent>)
    requires
        wf_participants(old(game).active_characters@),
        forall|k: int| 0 <= k < events@.len() ==> event_ok(old(game).active_characters@, #[trigger] events@[k]@),
        forall|k: int| 0 <= k < events@.len() ==> fits(cast_of(old(game).active_characters@), #[trigger] events@[k]@, fuel as nat),
    ensures
        final(game).active_characters@ == effect_list(old(game).active_characters@, event_views(events@), fuel as nat),
        r@.len() == events@.len(),
        forall|k: int| 0 <= k < events@.len() ==> resolves(cast_of(old(game).active_characters@), #[trigger] event_views(events@)[k], fuel as nat, r@[k]),
        wf_participants(final(game).active_characters@),
        kept(old(game).active_characters@, final(game).active_characters@),
        same_frame(*old(game), *final(game)),
    decreases fuel as int, 1int,
{
    let ghost ps0 = game.active_characters@;
    let ghost g0 = *game;
    let ghost c = cast_of(ps0);
    let ghost views = event_views(events@);
    let ghost evs0 = events@;
    let n = events.len();
    let mut events = events;
    let mut done: Vec<CompletedEvent> = Vec::new();
    let mut k: usize = 0;
    proof {
        assert(views.take(0) =~= Seq::<EventView>::empty());
        assert(events@.skip(0) =~= events@);
    }
    while events.len() > 0
        invariant
            k + events@.len() == evs0.len(),
            evs0.len() == n,
            wf_participants(ps0),
            views == event_views(evs0),
            events@ == evs0.skip(k as int),
            g0.active_characters@ == ps0,
            c == cast_of(ps0),
            forall|j: int| 0 <= j < evs0.len() ==> event_ok(ps0, #[trigger] evs0[j]@),
            forall|j: int| 0 <= j < evs0.len() ==> fits(c, #[trigger] evs0[j]@, fuel as nat),
            game.active_characters@ == effect_list(ps0, views.take(k as int), fuel as nat),
            wf_participants(game.active_characters@),
            kept(ps0, game.active_characters@),
            same_frame(g0, *game),
            done@.len() == k,
            forall|j: int| 0 <= j < k ==> resolves(c, #[trigger] views[j], fuel as nat, done@[j]),
        decreases events@.len(),
    {
        let ghost before = game.active_characters@;
        let ev = events.remove(0);
        proof {
            assert(ev == evs0[k as int]);
            assert(events@ =~= evs0.skip(k + 1));
            lemma_kept_ok(ps0, before, ev@);
            lemma_kept_cast(ps0, before);
        }
        let t = ev.complete_within(game, fuel);
        done.push(t);
        proof {
            assert(views.take(k + 1).drop_last() =~= views.take(k as int));
            assert(views[k as int] == ev@);
            lemma_kept_trans(ps0, before, game.active_characters@);
            assert forall|j: int| 0 <= j < k + 1 implies resolves(c, #[trigger] views[j], fuel as nat, done@[j]) by {
                if j < k {
                    assert(done@[j] == done@.drop_last()[j]);
                }
            }
        }
        k = k + 1;
    }
    proof {
        assert(views.take(k as int) =~= views);
    }
    done
}

/// An event that causes nothing resolves to its own effect.
pub proof fn lemma_effect_leaf(ps: Seq<ActiveCharacter>, e: EventView, fuel: nat)
    requires
        fuel >= 1,
        e is Say || e is CreateProgressBar,
    ensures
        effect(ps, e, fuel) == apply(ps, e),
        effect_list(ps, seq![e], fuel) == apply(ps, e),
{
    let c = cast_of(ps);
    lemma_pre_all_shape(c, e);
    lemma_post_all_shape(c, e);
    assert(seq![e].drop_last() =~= Seq::<EventView>::empty());
    assert(effect_list(ps, seq![e].drop_last(), fuel) == ps);
    assert(seq![e].last() == e);
    let ps2 = apply(ps, e);
    assert(effect_list(ps2, derived(e), (fuel - 1) as nat) == ps2);
    assert(effect(ps, e, fuel) == ps2);
    assert(seq![e].len() == 1);
    assert(effect_list(ps, seq![e], fuel) == effect(effect_list(ps, seq![e].drop_last(), fuel), seq![e].last(), fuel));
}

/// Resolving `a` then `b` is resolving `a + b`.
pub proof fn lemma_effect_list_concat(ps: Seq<ActiveCharacter>, a: Seq<EventView>, b: Seq<EventView>, fuel: nat)
    ensures
        effect_list(ps, a + b, fuel) == effect_list(effect_list(ps, a, fuel), b, fuel),
    decreases b.len(),
{
    if b.len() == 0 {
        assert(a + b =~= a);
    } else {
        lemma_effect_list_concat(ps, a, b.drop_last(), fuel);
        assert((a + b).drop_last() =~= a + b.drop_last());
        assert((a + b).last() == b.last());
    }
}

/// Resolution is deterministic: two resolutions of the same event among the
/// same cast hold the same events at every node.
pub proof fn lemma_resolution_deterministic(
    c: Seq<(ActiveCharacterID, Seq<Modifier>)>,
    e: EventView,
    fuel: nat,
    t1: CompletedEvent,
    t2: CompletedEvent,
)
    requires
        resolves(c, e, fuel, t1),
        resolves(c, e, fuel, t2),
    ensures
        same_tree(t1, t2, fuel),
    decreases fuel,
{
    let (m, pre) = pre_all(c, e);
    let outs = derived(m);
    let post = post_all(c, m);
    let f = (fuel - 1) as nat;
    assert forall|i: int| 0 <= i < t1.pre_responses@.len() implies same_tree(#[trigger] t1.pre_responses@[i], t2.pre_responses@[i], f) by {
        lemma_resolution_deterministic(c, pre[i], f, t1.pre_responses@[i], t2.pre_responses@[i]);
    }
    assert forall|i: int| 0 <= i < t1.outcomes@.len() implies same_tree(#[trigger] t1.outcomes@[i], t2.outcomes@[i], f) by {
        lemma_resolution_deterministic(c, outs[i], f, t1.outcomes@[i], t2.outcomes@[i]);
    }
    assert forall|i: int| 0 <= i < t1.post_responses@.len() implies same_tree(#[trigger] t1.post_responses@[i], t2.post_responses@[i], f) by {
        lemma_resolution_deterministic(c, post[i], f, t1.post_responses@[i], t2.post_responses@[i]);
    }
}

/// How many Resilient abilities `mods` holds.
pub open spec fn resilient_count(mods: Seq<Modifier>) -> nat
    decreases mods.len(),
{
    if mods.len() == 0 {
        0
    } else {
        resilient_count(mods.drop_last()) + if mods.last().1 == ModifierType::Resilient {
            1nat
        } else {
            0
        }
    }
}

/// How many Resilient abilities the participants of the cast named `t` hold.
pub open spec fn cast_resilience(c: Seq<(ActiveCharacterID, Seq<Modifier>)>, t: ActiveCharacterID) -> nat
    decreases c.len(),
{
    if c.len() == 0 {
        0
    } else {
        cast_resilience(c.drop_last(), t) + if c.last().0 == t {
            resilient_count(c.last().1)
        } else {
            0
        }
    }
}

/// A hit of `raw` after `n` reductions by one, each applied only while the
/// hit is worth more than one.
pub open spec fn softened(raw: u16, n: nat) -> u16 {
    if raw <= 1 {
        raw
    } else if raw - n >= 1 {
        (raw - n) as u16
    } else {
        1
    }
}

/// A hit on the health of `t`.
pub open spec fn health_hit(t: ActiveCharacterID, amount: u16) -> EventView {
    EventView::ProgressProgressBar { location: GameProgressBarLocation::Character(t, ProgressBarName::HP), amount }
}

proof fn lemma_softened_step(raw: u16, n: nat)
    ensures
        (if softened(raw, n) > 1 { (softened(raw, n) - 1) as u16 } else { softened(raw, n) }) == softened(raw, n + 1),
{
}

proof fn lemma_pre_mods_hit(mods: Seq<Modifier>, p: ActiveCharacterID, t: ActiveCharacterID, raw: u16, n: nat)
    ensures
        pre_mods(mods, p, health_hit(t, softened(raw, n))).0 == health_hit(
            t,
            softened(raw, n + if p == t { resilient_count(mods) } else { 0 }),
        ),
        pre_mods(mods, p, health_hit(t, softened(raw, n))).1.len() == softened(raw, n) - softened(
            raw,
            n + if p == t { resilient_count(mods) } else { 0 },
        ),
    decreases mods.len(),
{
    if mods.len() == 0 {
        assert(n + 0 == n);
    } else {
        let front = mods.drop_last();
        lemma_pre_mods_hit(front, p, t, raw, n);
        let k = n + if p == t { resilient_count(front) } else { 0 };
        lemma_softened_step(raw, k);
    }
}

proof fn lemma_pre_all_hit(c: Seq<(ActiveCharacterID, Seq<Modifier>)>, t: ActiveCharacterID, raw: u16)
    ensures
        pre_all(c, health_hit(t, raw)).0 == health_hit(t, softened(raw, cast_resilience(c, t))),
        pre_all(c, health_hit(t, raw)).1.len() == raw - softened(raw, cast_resilience(c, t)),
    decreases c.len(),
{
    if c.len() == 0 {
        assert(softened(raw, 0) == raw);
    } else {
        let front = c.drop_last();
        lemma_pre_all_hit(front, t, raw);
        lemma_pre_mods_hit(c.last().1, c.last().0, t, raw, cast_resilience(front, t));
    }
}

/// Before a hit on a participant's health executes, the `pre_event` hooks
/// of the whole cast reduce it by one for each Resilient ability the target
/// holds, never below one and never raising it; with one such ability a hit
/// worth more than one loses exactly one point.
pub proof fn lemma_resilience_across_cast(c: Seq<(ActiveCharacterID, Seq<Modifier>)>, t: ActiveCharacterID, raw: u16)
    ensures
        pre_all(c, health_hit(t, raw)).0 == health_hit(t, softened(raw, cast_resilience(c, t))),
        pre_all(c, health_hit(t, raw)).1.len() == raw - softened(raw, cast_resilience(c, t)),
        cast_resilience(c, t) == 1 && raw > 1 ==> pre_all(c, health_hit(t, raw)).0 == health_hit(t, (raw - 1) as u16),
        raw <= 1 ==> pre_all(c, health_hit(t, raw)).0 == health_hit(t, raw),
        cast_resilience(c, t) == 0 ==> pre_all(c, health_hit(t, raw)).0 == health_hit(t, raw),
{
    lemma_pre_all_hit(c, t, raw);
}

/// Announcements change nothing.
proof fn lemma_effect_announcements(ps: Seq<ActiveCharacter>, evs: Seq<EventView>, fuel: nat)
    requires
        fuel >= 1,
        forall|k: int| 0 <= k < evs.len() ==> (#[trigger] evs[k]) is Say,
    ensures
        effect_list(ps, evs, fuel) == ps,
    decreases evs.len(),
{
    if evs.len() > 0 {
        lemma_effect_announcements(ps, evs.drop_last(), fuel);
        assert(evs.last() == evs[evs.len() - 1]);
        lemma_effect_leaf(ps, evs.last(), fuel);
    }
}

/// A gauge change resolves to its own effect with the amount the
/// `pre_event` hooks left it: its announcements change nothing and it causes
/// nothing else.
pub proof fn lemma_effect_gauge_change(ps: Seq<ActiveCharacter>, e: EventView, fuel: nat)
    requires
        fuel >= 2,
        e is ProgressProgressBar,
    ensures
        effect(ps, e, fuel) == apply(ps, pre_all(cast_of(ps), e).0),
{
    let c = cast_of(ps);
    lemma_pre_all_shape(c, e);
    let (m, pre) = pre_all(c, e);
    lemma_post_all_shape(c, m);
    lemma_effect_announcements(ps, pre, (fuel - 1) as nat);
    let ps2 = apply(ps, m);
    assert(effect_list(ps2, derived(m), (fuel - 1) as nat) == ps2);
    assert(effect_list(ps2, post_all(c, m), (fuel - 1) as nat) == ps2);
}

/// A hit on the health of a participant holding one Resilient ability, among
/// a cast where no one else holds one, loses one point when it is worth more
/// than one: the gauge moves by that much, the executed event carries it, and
/// one announcement precedes it exactly when the hit was reduced.
pub proof fn lemma_resilient_hit(ps: Seq<ActiveCharacter>, t: ActiveCharacterID, raw: u16, tree: CompletedEvent)
    requires
        wf_participants(ps),
        gauge_at(ps, GameProgressBarLocation::Character(t, ProgressBarName::HP)) is Some,
        cast_resilience(cast_of(ps), t) == 1,
        resolves(cast_of(ps), health_hit(t, raw), MAX_EVENT_DEPTH as nat, tree),
    ensures
        ({
            let taken: u16 = if raw > 1 { (raw - 1) as u16 } else { raw };
            let i = index_of(ps, t);
            let bar = ps[i].progress_bars.hp.unwrap();
            &&& effect(ps, health_hit(t, raw), MAX_EVENT_DEPTH as nat) == ps.update(
                i,
                ActiveCharacter { progress_bars: ps[i].progress_bars.with(ProgressBarName::HP, bar.incremented(taken)), ..ps[i] },
            )
            &&& tree.event.0@ == health_hit(t, taken)
            &&& tree.pre_responses@.len() == if raw > 1 { 1int } else { 0 }
            &&& tree.outcomes@.len() == 0
            &&& tree.post_responses@.len() == 0
        }),
{
    let c = cast_of(ps);
    lemma_resilience_across_cast(c, t, raw);
    lemma_effect_gauge_change(ps, health_hit(t, raw), MAX_EVENT_DEPTH as nat);
    let m = pre_all(c, health_hit(t, raw)).0;
    lemma_post_all_shape(c, m);
}

/// `e` changes an experience gauge.
pub open spec fn is_xp_change(e: EventView) -> bool {
    e matches EventView::ProgressProgressBar { location: GameProgressBarLocation::Character(_, ProgressBarName::XP), .. }
}

/// The hooks leave a change of an experience gauge as it is and emit nothing.
proof fn lemma_pre_all_xp(c: Seq<(ActiveCharacterID, Seq<Modifier>)>, e: EventView)
    requires
        is_xp_change(e),
    ensures
        pre_all(c, e) == (e, Seq::<EventView>::empty()),
    decreases c.len(),
{
    if c.len() > 0 {
        lemma_pre_all_xp(c.drop_last(), e);
        lemma_pre_mods_xp(c.last().1, c.last().0, e);
        assert(Seq::<EventView>::empty() + Seq::<EventView>::empty() =~= Seq::<EventView>::empty());
    }
}

proof fn lemma_pre_mods_xp(mods: Seq<Modifier>, p: ActiveCharacterID, e: EventView)
    requires
        is_xp_change(e),
    ensures
        pre_mods(mods, p, e) == (e, Seq::<EventView>::empty()),
    decreases mods.len(),
{
    if mods.len() > 0 {
        lemma_pre_mods_xp(mods.drop_last(), p, e);
        assert(Seq::<EventView>::empty() + Seq::<EventView>::empty() =~= Seq::<EventView>::empty());
    }
}

/// The participants after one event that resolves on its own.
proof fn lemma_effect_single(ps: Seq<ActiveCharacter>, e: EventView, fuel: nat)
    ensures
        effect_list(ps, seq![e], fuel) == effect(ps, e, fuel),
{
    assert(seq![e].drop_last() =~= Seq::<EventView>::empty());
    assert(effect_list(ps, seq![e].drop_last(), fuel) == ps);
    assert(seq![e].last() == e);
}

/// A Grinder `a` attacks a Resilient `b`, the only two participants: the
/// base damage of two reaches `b`'s health as one point, one announcement
/// preceding it, and `a` gains one experience point after the attack.
/// Two participants: a Grinder with experience at place 0, a Resilient with
/// health at place 1, each with that one ability.
pub open spec fn duel(ps: Seq<ActiveCharacter>) -> bool {
    &&& wf_participants(ps)
    &&& ps.len() == 2
    &&& ps[0].modifiers@.len() == 1
    &&& ps[0].modifiers@[0].1 == ModifierType::Grinder
    &&& ps[1].modifiers@.len() == 1
    &&& ps[1].modifiers@[0].1 == ModifierType::Resilient
    &&& ps[0].progress_bars.xp is Some
    &&& ps[1].progress_bars.hp is Some
}

/// The attack of the duel's Grinder on its Resilient.
pub open spec fn duel_attack(ps: Seq<ActiveCharacter>) -> EventView {
    EventView::Attack { attacker: ps[0].id, target: ps[1].id }
}

/// `after` is the duel after the attack: the Resilient's health moved by one,
/// the Grinder's experience by one, nothing else.
pub open spec fn duel_after(ps: Seq<ActiveCharacter>, after: Seq<ActiveCharacter>) -> bool {
    &&& after.len() == 2
    &&& after[1].progress_bars.hp == Some(ps[1].progress_bars.hp.unwrap().incremented(1))
    &&& after[1].progress_bars.xp == ps[1].progress_bars.xp
    &&& after[0].progress_bars.xp == Some(ps[0].progress_bars.xp.unwrap().incremented(1))
    &&& after[0].progress_bars.hp == ps[0].progress_bars.hp
}

/// `tree` is the duel's attack: no pre-response, one outcome (the hit of one
/// point, preceded by one announcement) and one post-response (the
/// experience point).
pub open spec fn duel_tree(ps: Seq<ActiveCharacter>, tree: CompletedEvent) -> bool {
    &&& tree.event.0@ == duel_attack(ps)
    &&& tree.pre_responses@.len() == 0
    &&& tree.outcomes@.len() == 1
    &&& tree.outcomes@[0].event.0@ == health_hit(ps[1].id, 1)
    &&& tree.outcomes@[0].pre_responses@.len() == 1
    &&& tree.outcomes@[0].pre_responses@[0].event.0@ is Say
    &&& tree.outcomes@[0].outcomes@.len() == 0
    &&& tree.outcomes@[0].post_responses@.len() == 0
    &&& tree.post_responses@.len() == 1
    &&& tree.post_responses@[0].event.0@ == EventView::ProgressProgressBar { location: xp_location(ps[0].id), amount: 1 }
}

/// A Grinder attacks a Resilient, the only two participants: the base damage
/// of two reaches the Resilient's health as one point, one announcement
/// preceding it, and the Grinder gains one experience point after the attack.
pub proof fn lemma_grinder_attacks_resilient(ps: Seq<ActiveCharacter>, tree: CompletedEvent)
    requires
        duel(ps),
        resolves(cast_of(ps), duel_attack(ps), MAX_EVENT_DEPTH as nat, tree),
    ensures
        duel_after(ps, effect(ps, duel_attack(ps), MAX_EVENT_DEPTH as nat)),
        duel_tree(ps, tree),
{
    let a = ps[0].id;
    let b = ps[1].id;
    assert(a != b);
    let fuel = MAX_EVENT_DEPTH as nat;
    let c = cast_of(ps);
    let e = EventView::Attack { attacker: a, target: b };
    assert(c[0] == (a, ps[0].modifiers@));
    assert(c[1] == (b, ps[1].modifiers@));
    assert(c.drop_last() =~= seq![c[0]]);
    assert(c.drop_last().drop_last() =~= Seq::<(ActiveCharacterID, Seq<Modifier>)>::empty());
    // the hit on b
    let mb = ps[1].modifiers@;
    assert(mb.drop_last() =~= Seq::<Modifier>::empty());
    assert(resilient_count(mb.drop_last()) == 0);
    assert(mb.last() == mb[0]);
    assert(resilient_count(mb) == 1);
    let ma = ps[0].modifiers@;
    assert(ma.drop_last() =~= Seq::<Modifier>::empty());
    let c0 = c.drop_last();
    assert(cast_resilience(c0.drop_last(), b) == 0);
    assert(c0.last() == c[0]);
    assert(cast_resilience(c0, b) == 0);
    assert(c.last() == c[1]);
    assert(cast_resilience(c, b) == 1);
    lemma_resilience_across_cast(c, b, 2);
    assert(softened(2, 1) == 1);
    // the attack itself
    lemma_pre_all_shape(c, e);
    let hit = health_hit(b, 2);
    assert(derived(e) == seq![hit]);
    lemma_effect_single(ps, hit, (fuel - 1) as nat);
    lemma_effect_gauge_change(ps, hit, (fuel - 1) as nat);
    lemma_index_of(ps, 0);
    lemma_index_of(ps, 1);
    let ps3 = apply(ps, health_hit(b, 1));
    lemma_apply(ps, health_hit(b, 1));
    lemma_kept_cast(ps, ps3);
    lemma_index_of(ps3, 0);
    // the experience point after it
    let gain = EventView::ProgressProgressBar { location: xp_location(a), amount: 1 };
    assert(post_mods(ma.drop_last(), a, e) =~= Seq::<EventView>::empty());
    assert(post_mods(mb.drop_last(), b, e) =~= Seq::<EventView>::empty());
    assert(post_mods(ma, a, e) =~= seq![gain]);
    assert(post_mods(mb, b, e) =~= Seq::<EventView>::empty());
    assert(post_all(c.drop_last().drop_last(), e) =~= Seq::<EventView>::empty());
    assert(post_all(c.drop_last(), e) =~= seq![gain]);
    assert(post_all(c, e) =~= seq![gain]);
    lemma_effect_single(ps3, gain, (fuel - 1) as nat);
    lemma_effect_gauge_change(ps3, gain, (fuel - 1) as nat);
    lemma_pre_all_xp(c, gain);
    // the tree
    assert(pre_all(c, e) == (e, Seq::<EventView>::empty()));
    assert(tree.event.0@ == e);
    assert(derived(e)[0] == hit);
    let t1 = tree.outcomes@[0];
    assert(resolves(c, hit, (fuel - 1) as nat, t1));
    assert(pre_all(c, hit).0 == health_hit(b, 1));
    assert(t1.event.0@ == health_hit(b, 1));
    assert(t1.pre_responses@.len() == 1);
    lemma_pre_all_shape(c, hit);
    let say = pre_all(c, hit).1[0];
    assert(say is Say);
    assert(resolves(c, say, 1, t1.pre_responses@[0]));
    lemma_pre_all_shape(c, say);
    assert(t1.pre_responses@[0].event.0@ == say);
    lemma_post_all_shape(c, health_hit(b, 1));
    assert(t1.outcomes@.len() == 0);
    assert(t1.post_responses@.len() == 0);
    assert(post_all(c, e)[0] == gain);
    assert(resolves(c, gain, (fuel - 1) as nat, tree.post_responses@[0]));
    assert(tree.post_responses@[0].event.0@ == gain);
}

} // verus!

use vstd::prelude::*;
use crate::chance::shuffle;
use crate::ids::ActiveCharacterID;

verus! {

broadcast use vstd::seq_lib::group_to_multiset_ensures;

/// The six seats of a roster.
#[derive(Debug, Clone, Copy, PartialEq, Eq, Hash, Structural)]
pub enum Position {
    Top,
    Charm,
    Up,
    Down,
    Strange,
    Bottom,
}

/// Place of a seat in the canonical order Top, Charm, Up, Down, Strange, Bottom.
pub open spec fn seat_index(p: Position) -> int {
    match p {
        Position::Top => 0,
        Position::Charm => 1,
        Position::Up => 2,
        Position::Down => 3,
        Position::Strange => 4,
        Position::Bottom => 5,
    }
}

/// The seat at a place of the canonical order.
pub open spec fn seat_at(i: int) -> Position {
    if i == 0 {
        Position::Top
    } else if i == 1 {
        Position::Charm
    } else if i == 2 {
        Position::Up
    } else if i == 3 {
        Position::Down
    } else if i == 4 {
        Position::Strange
    } else {
        Position::Bottom
    }
}

/// The canonical order, used for display and for the cyclic scan.
pub open spec fn canonical_seq() -> Seq<Position> {
    seq![Position::Top, Position::Charm, Position::Up, Position::Down, Position::Strange, Position::Bottom]
}

/// The order in which newcomers take seats.
pub open spec fn enter_seq() -> Seq<Position> {
    seq![Position::Top, Position::Up, Position::Down, Position::Bottom, Position::Strange, Position::Charm]
}

/// Place of a seat in the entry order.
pub open spec fn entry_index(p: Position) -> int {
    match p {
        Position::Top => 0,
        Position::Up => 1,
        Position::Down => 2,
        Position::Bottom => 3,
        Position::Strange => 4,
        Position::Charm => 5,
    }
}

/// The `j`-th seat after `p` in the canonical order, wrapping around.
pub open spec fn seat_after(p: Position, j: int) -> Position {
    seat_at((seat_index(p) + j) % 6)
}

impl Position {
    pub fn canonical_order() -> (r: [Position; 6])
        ensures
            r@ == canonical_seq(),
    {
        let r = [Position::Top, Position::Charm, Position::Up, Position::Down, Position::Strange, Position::Bottom];
        assert(r@ =~= canonical_seq());
        r
    }

    pub fn enter_order() -> (r: [Position; 6])
        ensures
            r@ == enter_seq(),
    {
        let r = [Position::Top, Position::Up, Position::Down, Position::Bottom, Position::Strange, Position::Charm];
        assert(r@ =~= enter_seq());
        r
    }

    /// Place of this seat in the canonical order.
    pub fn index(self) -> (r: usize)
        ensures
            r == seat_index(self),
    {
        match self {
            Position::Top => 0,
            Position::Charm => 1,
            Position::Up => 2,
            Position::Down => 3,
            Position::Strange => 4,
            Position::Bottom => 5,
        }
    }

    /// The seat at a place of the canonical order.
    pub fn at(i: usize) -> (r: Position)
        requires
            i < 6,
        ensures
            r == seat_at(i as int),
    {
        if i == 0 {
            Position::Top
        } else if i == 1 {
            Position::Charm
        } else if i == 2 {
            Position::Up
        } else if i == 3 {
            Position::Down
        } else if i == 4 {
            Position::Strange
        } else {
            Position::Bottom
        }
    }

    /// The seat at a place of the canonical order; `None` past the last seat.
    pub fn try_at(i: usize) -> (r: Option<Position>)
        ensures
            r is None <==> i >= 6,
            r matches Some(p) ==> p == seat_at(i as int) && seat_index(p) == i,
    {
        if i < 6 {
            Some(Position::at(i))
        } else {
            None
        }
    }

    /// The six seats that follow this one in the canonical order, wrapping
    /// around, ending with this seat itself.
    pub fn single_canonical_cycle(self) -> (r: Vec<Position>)
        ensures
            r@.len() == 6,
            forall|j: int| 0 <= j < 6 ==> r@[j] == seat_after(self, j + 1),
    {
        let start = self.index();
        let mut r: Vec<Position> = Vec::new();
        let mut j: usize = 1;
        while j <= 6
            invariant
                1 <= j <= 7,
                start == seat_index(self),
                r@.len() == j - 1,
                forall|k: int| 0 <= k < j - 1 ==> r@[k] == seat_after(self, k + 1),
            decreases 7 - j,
        {
            r.push(Position::at((start + j) % 6));
            j = j + 1;
        }
        r
    }
}

/// A team's six seats, each empty or holding one participant, and the seat
/// that the sequential selection returned last.
#[derive(Clone, Copy, Debug)]
pub struct Roster {
    pub characters: [Option<ActiveCharacterID>; 6],
    pub previous_turn: Position,
}

impl Roster {
    /// The occupant of a seat.
    pub open spec fn seat(self, p: Position) -> Option<ActiveCharacterID> {
        self.characters@[seat_index(p)]
    }

    /// Every seat is empty.
    pub open spec fn is_empty(self) -> bool {
        forall|i: int| 0 <= i < 6 ==> self.characters@[i] is None
    }

    /// Every seat is occupied.
    pub open spec fn is_full(self) -> bool {
        forall|i: int| 0 <= i < 6 ==> self.characters@[i] is Some
    }

    /// Number of occupied seats.
    pub open spec fn occupants(self) -> int {
        count_seated(self.characters@)
    }

    /// `id` sits in some seat.
    pub open spec fn holds(self, id: ActiveCharacterID) -> bool {
        exists|i: int| 0 <= i < 6 && self.characters@[i] == Some(id)
    }

    /// How far past the last returned seat the next occupied seat lies:
    /// `j` in `1..=6`, the least one whose seat is occupied.
    pub open spec fn next_offset(self, j: int) -> bool {
        &&& 1 <= j <= 6
        &&& self.seat(seat_after(self.previous_turn, j)) is Some
        &&& forall|k: int| 1 <= k < j ==> self.seat(seat_after(self.previous_turn, k)) is None
    }

    /// The roster and result of one `next_filled` call.
    pub open spec fn next_step(self) -> (Roster, Option<ActiveCharacterID>) {
        if exists|j: int| self.next_offset(j) {
            let j = choose|j: int| self.next_offset(j);
            let p = seat_after(self.previous_turn, j);
            (Roster { previous_turn: p, ..self }, self.seat(p))
        } else {
            (self, None)
        }
    }

    /// The roster after `n` successive `next_filled` calls.
    pub open spec fn after_calls(self, n: nat) -> Roster
        decreases n,
    {
        if n == 0 {
            self
        } else {
            self.after_calls((n - 1) as nat).next_step().0
        }
    }

    /// What the `n`-th of successive `next_filled` calls returns, counting
    /// from zero.
    pub open spec fn call_result(self, n: nat) -> Option<ActiveCharacterID> {
        self.after_calls(n).next_step().1
    }

    /// The first occupied seat of `order`, and its place there.
    pub open spec fn first_in(self, order: Seq<Position>, i: int) -> bool {
        &&& 0 <= i < order.len()
        &&& self.seat(order[i]) is Some
        &&& forall|k: int| 0 <= k < i ==> self.seat(order[k]) is None
    }

    /// `p` is the first empty seat of the entry order.
    pub open spec fn first_empty_entry(self, p: Position) -> bool {
        &&& self.seat(p) is None
        &&& forall|k: int| 0 <= k < entry_index(p) ==> self.seat(enter_seq()[k]) is Some
    }

    /// An empty roster whose sequential scan starts at Top.
    pub fn new() -> (r: Self)
        ensures
            r.is_empty(),
            r.previous_turn == Position::Bottom,
    {
        Roster { characters: [None; 6], previous_turn: Position::Bottom }
    }

    /// The occupant of a seat.
    pub fn get(&self, position: Position) -> (r: Option<ActiveCharacterID>)
        ensures
            r == self.seat(position),
    {
        self.characters[position.index()]
    }

    /// Returns the occupant of the first occupied seat after the last returned
    /// one, in canonical order and wrapping around, and records that seat.
    /// `None` only when every seat is empty.
    pub fn next_filled(&mut self) -> (r: Option<ActiveCharacterID>)
        ensures
            (*final(self), r) == old(self).next_step(),
            r is None <==> old(self).is_empty(),
            forall|j: int|
                #![trigger old(self).next_offset(j)]
                old(self).next_offset(j) ==> final(self).previous_turn == seat_after(old(self).previous_turn, j) && r
                    == old(self).seat(seat_after(old(self).previous_turn, j)) && final(self).characters == old(self).characters,
    {
        let order = self.previous_turn.single_canonical_cycle();
        let ghost start = *self;
        let mut j: usize = 0;
        while j < 6
            invariant
                0 <= j <= 6,
                *self == start,
                start == *old(self),
                order@.len() == 6,
                forall|i: int| 0 <= i < 6 ==> order@[i] == seat_after(start.previous_turn, i + 1),
                forall|k: int| 1 <= k < j + 1 ==> start.seat(seat_after(start.previous_turn, k)) is None,
            decreases 6 - j,
        {
            let position = order[j];
            if let Some(character) = self.get(position) {
                proof {
                    assert(start.next_offset(j + 1));
                    lemma_next_offset_unique(start, j + 1);
                    assert(start.characters@[seat_index(position)] is Some);
                }
                self.previous_turn = position;
                proof {
                    let step = start.next_step();
                    assert(step.0 == *self);
                    assert(step.1 == Some(character));
                }
                return Some(character);
            }
            j = j + 1;
        }
        proof {
            lemma_scan_covers(start);
        }
        None
    }

    /// The occupant of the first occupied seat of `order`.
    pub fn first_filled_in(&self, order: &Vec<Position>) -> (r: Option<ActiveCharacterID>)
        ensures
            r is None <==> forall|i: int| 0 <= i < order@.len() ==> self.seat(order@[i]) is None,
            forall|i: int| self.first_in(order@, i) ==> r == self.seat(order@[i]),
    {
        let mut i: usize = 0;
        while i < order.len()
            invariant
                0 <= i <= order@.len(),
                forall|k: int| 0 <= k < i ==> self.seat(order@[k]) is None,
            decreases order@.len() - i,
        {
            let found = self.get(order[i]);
            if found.is_some() {
                proof {
                    assert forall|k: int| self.first_in(order@, k) implies k == i by {
                        if k < i {
                        } else if k > i {
                            assert(self.seat(order@[i as int]) is None);
                        }
                    }
                }
                return found;
            }
            i = i + 1;
        }
        None
    }

    /// The occupant of the first occupied seat in a random shuffle of the
    /// canonical order. The sequential pointer is left as it is.
    pub fn random_filled(&self, rng: &mut rand_chacha::ChaCha8Rng) -> (r: Option<ActiveCharacterID>)
        ensures
            r is None <==> self.is_empty(),
            r matches Some(id) ==> self.holds(id),
    {
        let mut order: Vec<Position> = Vec::new();
        let canonical = Position::canonical_order();
        let mut k: usize = 0;
        while k < 6
            invariant
                0 <= k <= 6,
                canonical@ == canonical_seq(),
                order@ == canonical_seq().take(k as int),
            decreases 6 - k,
        {
            order.push(canonical[k]);
            proof {
                assert(canonical_seq().take(k + 1) =~= canonical_seq().take(k as int).push(canonical@[k as int]));
            }
            k = k + 1;
        }
        assert(order@ =~= canonical_seq());
        let ghost before = order@;
        shuffle(&mut order, rng);
        let r = self.first_filled_in(&order);
        proof {
            assert forall|p: Position| #[trigger] order@.contains(p) by {
                assert(before.contains(p)) by {
                    assert(before[seat_index(p)] == p);
                }
                assert(before.to_multiset().count(p) > 0);
            }
            if self.is_empty() {
                assert forall|i: int| 0 <= i < order@.len() implies self.seat(order@[i]) is None by {
                    assert(self.characters@[seat_index(order@[i])] is None);
                }
            } else {
                let c = choose|c: int| 0 <= c < 6 && self.characters@[c] is Some;
                let p = seat_at(c);
                assert(order@.contains(p));
                let i = choose|i: int| 0 <= i < order@.len() && order@[i] == p;
                assert(self.seat(order@[i]) is Some);
            }
            if r is Some {
                let i = choose|i: int| 0 <= i < order@.len() && self.seat(order@[i]) is Some;
                lemma_first_exists(*self, order@, i);
                let f = choose|f: int| self.first_in(order@, f);
                assert(self.characters@[seat_index(order@[f])] == r);
            }
        }
        r
    }

    /// Puts `character` into the first empty seat of the entry order and
    /// returns that seat; `None`, with nothing changed, when every seat is
    /// taken.
    pub fn add_character(&mut self, character: ActiveCharacterID) -> (r: Option<Position>)
        ensures
            r is None <==> old(self).is_full(),
            r is None ==> *final(self) == *old(self),
            r matches Some(p) ==> {
                &&& old(self).first_empty_entry(p)
                &&& final(self).characters@ == old(self).characters@.update(seat_index(p), Some(character))
                &&& final(self).occupants() == old(self).occupants() + 1
                &&& final(self).previous_turn == old(self).previous_turn
            },
    {
        let order = Position::enter_order();
        let mut i: usize = 0;
        while i < 6
            invariant
                0 <= i <= 6,
                order@ == enter_seq(),
                *self == *old(self),
                forall|k: int| 0 <= k < i ==> self.seat(enter_seq()[k]) is Some,
            decreases 6 - i,
        {
            let p = order[i];
            let slot = p.index();
            if self.characters[slot].is_none() {
                self.characters[slot] = Some(character);
                assert(entry_index(p) == i);
                proof {
                    lemma_count_seated_fill(old(self).characters@, slot as int, character);
                }
                return Some(p);
            }
            i = i + 1;
        }
        proof {
            assert forall|c: int| 0 <= c < 6 implies old(self).characters@[c] is Some by {
                let p = seat_at(c);
                assert(seat_index(p) == c);
                let k = choose|k: int| 0 <= k < 6 && enter_seq()[k] == p;
                assert(old(self).seat(enter_seq()[k]) is Some);
            }
        }
        None
    }
}

impl Default for Roster {
    fn default() -> (r: Self)
        ensures
            r.is_empty(),
            r.previous_turn == Position::Bottom,
    {
        Roster::new()
    }
}

/// On a fully occupied roster, six successive `next_filled` calls return the
/// six seats in canonical order, starting with the one after the last
/// returned seat, each seat once.
pub proof fn lemma_full_roster_visits_each_seat(r: Roster)
    requires
        r.is_full(),
    ensures
        forall|n: nat| n < 6 ==> #[trigger] r.after_calls((n + 1) as nat).previous_turn == seat_after(r.previous_turn, n as int + 1),
        forall|n: nat| n < 6 ==> #[trigger] r.call_result(n) == r.seat(seat_after(r.previous_turn, n as int + 1)),
        forall|m: int, n: int| 1 <= m < n <= 6 ==> seat_after(r.previous_turn, m) != seat_after(r.previous_turn, n),
{
    assert forall|n: nat| n < 6 implies #[trigger] r.call_result(n) == r.seat(seat_after(r.previous_turn, n as int + 1)) by {
        lemma_full_roster_calls(r, n);
        lemma_full_roster_calls(r, (n + 1) as nat);
    }
    assert forall|n: nat| n < 6 implies #[trigger] r.after_calls((n + 1) as nat).previous_turn == seat_after(r.previous_turn, n as int + 1) by {
        lemma_full_roster_calls(r, (n + 1) as nat);
    }
}

/// On a fully occupied roster, the seventh of successive `next_filled` calls
/// returns what the first returned.
pub proof fn lemma_full_roster_seventh_call(r: Roster)
    requires
        r.is_full(),
    ensures
        r.call_result(6) == r.call_result(0),
        r.after_calls(6) == r,
{
    lemma_full_roster_calls(r, 0);
    lemma_full_roster_calls(r, 6);
    let s = seat_index(r.previous_turn);
    assert((s + 6) % 6 == s);
    assert((s + 7) % 6 == (s + 1) % 6);
    assert(seat_at(s) == r.previous_turn);
    assert(seat_after(r.previous_turn, 6) == r.previous_turn);
    assert(seat_after(r.previous_turn, 7) == seat_after(r.previous_turn, 1));
    assert(r.after_calls(6) =~= r);
}

/// After `n` calls on a full roster, only the pointer has moved, by `n` seats.
proof fn lemma_full_roster_calls(r: Roster, n: nat)
    requires
        r.is_full(),
    ensures
        r.after_calls(n) == (Roster { previous_turn: seat_after(r.previous_turn, n as int), ..r }),
        r.call_result(n) == r.seat(seat_after(r.previous_turn, n as int + 1)),
    decreases n,
{
    if n > 0 {
        lemma_full_roster_calls(r, (n - 1) as nat);
    }
    let cur = r.after_calls(n);
    if n == 0 {
        assert(seat_after(r.previous_turn, 0) == r.previous_turn);
        assert(cur == (Roster { previous_turn: seat_after(r.previous_turn, n as int), ..r }));
    } else {
        let prev = r.after_calls((n - 1) as nat);
        lemma_full_step(prev);
        lemma_seat_after_add(r.previous_turn, n - 1);
    }
    lemma_full_step(cur);
    lemma_seat_after_add(r.previous_turn, n as int);
}

proof fn lemma_full_step(r: Roster)
    requires
        r.is_full(),
    ensures
        r.next_step() == (Roster { previous_turn: seat_after(r.previous_turn, 1), ..r }, r.seat(seat_after(r.previous_turn, 1))),
{
    assert(r.next_offset(1));
    lemma_next_offset_unique(r, 1);
}

proof fn lemma_seat_after_add(p: Position, n: int)
    requires
        n >= 0,
    ensures
        seat_after(seat_after(p, n), 1) == seat_after(p, n + 1),
{
    let s = seat_index(p);
    assert(0 <= (s + n) % 6 < 6);
    assert(seat_index(seat_at((s + n) % 6)) == (s + n) % 6);
    assert(((s + n) % 6 + 1) % 6 == (s + n + 1) % 6);
}

/// Number of occupied seats among `s`.
pub open spec fn count_seated(s: Seq<Option<ActiveCharacterID>>) -> int
    decreases s.len(),
{
    if s.len() == 0 {
        0
    } else {
        count_seated(s.drop_last()) + if s.last() is Some {
            1int
        } else {
            0
        }
    }
}

proof fn lemma_count_seated_bound(s: Seq<Option<ActiveCharacterID>>)
    ensures
        0 <= count_seated(s) <= s.len(),
    decreases s.len(),
{
    if s.len() > 0 {
        lemma_count_seated_bound(s.drop_last());
    }
}

proof fn lemma_count_seated_fill(s: Seq<Option<ActiveCharacterID>>, i: int, id: ActiveCharacterID)
    requires
        0 <= i < s.len(),
        s[i] is None,
    ensures
        count_seated(s.update(i, Some(id))) == count_seated(s) + 1,
    decreases s.len(),
{
    let t = s.update(i, Some(id));
    if i == s.len() - 1 {
        assert(t.drop_last() =~= s.drop_last());
    } else {
        lemma_count_seated_fill(s.drop_last(), i, id);
        assert(t.drop_last() =~= s.drop_last().update(i, Some(id)));
    }
}

/// A roster never holds more than six occupants.
pub proof fn lemma_roster_capacity(r: Roster)
    ensures
        r.occupants() <= 6,
{
    lemma_count_seated_bound(r.characters@);
}

proof fn lemma_next_offset_unique(r: Roster, j: int)
    requires
        r.next_offset(j),
    ensures
        forall|k: int| r.next_offset(k) ==> k == j,
{
    assert forall|k: int| r.next_offset(k) implies k == j by {
        if k < j {
            assert(r.seat(seat_after(r.previous_turn, k)) is None);
        } else if k > j {
            assert(r.seat(seat_after(r.previous_turn, j)) is None);
        }
    }
}

/// A roster whose six seats after the last returned one are all empty is
/// empty.
proof fn lemma_scan_covers(r: Roster)
    requires
        forall|k: int| 1 <= k <= 6 ==> r.seat(seat_after(r.previous_turn, k)) is None,
    ensures
        r.is_empty(),
{
    assert forall|c: int| 0 <= c < 6 implies r.characters@[c] is None by {
        let s = seat_index(r.previous_turn);
        let j = if c > s { c - s } else { c - s + 6 };
        assert(seat_index(seat_after(r.previous_turn, j)) == c);
        assert(r.seat(seat_after(r.previous_turn, j)) is None);
    }
}

proof fn lemma_first_exists(r: Roster, order: Seq<Position>, i: int)
    requires
        0 <= i < order.len(),
        r.seat(order[i]) is Some,
    ensures
        exists|f: int| r.first_in(order, f),
    decreases i,
{
    if forall|k: int| 0 <= k < i ==> r.seat(order[k]) is None {
        assert(r.first_in(order, i));
    } else {
        let k = choose|k: int| 0 <= k < i && r.seat(order[k]) is Some;
        lemma_first_exists(r, order, k);
    }
}

} // verus!

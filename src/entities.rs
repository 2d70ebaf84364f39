use vstd::prelude::*;
use crate::ids::{CharacterID, TeamID};
use crate::modifiers::Modifier;
use crate::progress_bars::Colour;

verus! {

/// A character's seven statistics.
#[derive(Clone, Copy, Debug, PartialEq, Eq, Structural)]
pub struct Stats {
    pub violence: i8,
    pub bloodthirst: i8,
    pub realism: i8,
    pub perpetuity: i8,
    pub buoyancy: i8,
    pub maverickism: i8,
    pub run: i8,
}

/// Names one of the statistics.
#[derive(Clone, Copy, Debug, PartialEq, Eq, Structural)]
pub enum Stat {
    Violence,
    Bloodthirst,
    Realism,
    Perpetuity,
    Buoyancy,
    Maverickism,
    Run,
}

impl Stat {
    /// The statistic's name in lower case.
    pub fn name(&self) -> (r: &'static str)
        ensures
            r@ == stat_name(*self),
    {
        proof {
            reveal_strlit("violence");
            reveal_strlit("bloodthirst");
            reveal_strlit("realism");
            reveal_strlit("perpetuity");
            reveal_strlit("buoyancy");
            reveal_strlit("maverickism");
            reveal_strlit("run");
        }
        match self {
            Stat::Violence => "violence",
            Stat::Bloodthirst => "bloodthirst",
            Stat::Realism => "realism",
            Stat::Perpetuity => "perpetuity",
            Stat::Buoyancy => "buoyancy",
            Stat::Maverickism => "maverickism",
            Stat::Run => "run",
        }
    }
}

/// The lower-case name of each statistic.
pub open spec fn stat_name(s: Stat) -> Seq<char> {
    match s {
        Stat::Violence => "violence"@,
        Stat::Bloodthirst => "bloodthirst"@,
        Stat::Realism => "realism"@,
        Stat::Perpetuity => "perpetuity"@,
        Stat::Buoyancy => "buoyancy"@,
        Stat::Maverickism => "maverickism"@,
        Stat::Run => "run"@,
    }
}

impl Stats {
    /// The value of one statistic.
    pub open spec fn value(self, stat: Stat) -> i8 {
        match stat {
            Stat::Violence => self.violence,
            Stat::Bloodthirst => self.bloodthirst,
            Stat::Realism => self.realism,
            Stat::Perpetuity => self.perpetuity,
            Stat::Buoyancy => self.buoyancy,
            Stat::Maverickism => self.maverickism,
            Stat::Run => self.run,
        }
    }

    /// These statistics with one of them set to `v`.
    pub open spec fn with_value(self, stat: Stat, v: i8) -> Stats {
        match stat {
            Stat::Violence => Stats { violence: v, ..self },
            Stat::Bloodthirst => Stats { bloodthirst: v, ..self },
            Stat::Realism => Stats { realism: v, ..self },
            Stat::Perpetuity => Stats { perpetuity: v, ..self },
            Stat::Buoyancy => Stats { buoyancy: v, ..self },
            Stat::Maverickism => Stats { maverickism: v, ..self },
            Stat::Run => Stats { run: v, ..self },
        }
    }

    /// A sample sheet: violence 1 up to run 7.
    pub fn example() -> (r: Self)
        ensures
            r == (Stats {
                violence: 1,
                bloodthirst: 2,
                realism: 3,
                perpetuity: 4,
                buoyancy: 5,
                maverickism: 6,
                run: 7,
            }),
    {
        Stats { violence: 1, bloodthirst: 2, realism: 3, perpetuity: 4, buoyancy: 5, maverickism: 6, run: 7 }
    }

    /// The value of one statistic.
    pub fn get(&self, stat: Stat) -> (r: i8)
        ensures
            r == self.value(stat),
    {
        match stat {
            Stat::Violence => self.violence,
            Stat::Bloodthirst => self.bloodthirst,
            Stat::Realism => self.realism,
            Stat::Perpetuity => self.perpetuity,
            Stat::Buoyancy => self.buoyancy,
            Stat::Maverickism => self.maverickism,
            Stat::Run => self.run,
        }
    }

    /// A handle on one statistic: what is written through it becomes that
    /// statistic's value.
    pub fn get_mut(&mut self, stat: Stat) -> (r: &mut i8)
        ensures
            *r == old(self).value(stat),
            *final(self) == old(self).with_value(stat, *final(r)),
    {
        match stat {
            Stat::Violence => &mut self.violence,
            Stat::Bloodthirst => &mut self.bloodthirst,
            Stat::Realism => &mut self.realism,
            Stat::Perpetuity => &mut self.perpetuity,
            Stat::Buoyancy => &mut self.buoyancy,
            Stat::Maverickism => &mut self.maverickism,
            Stat::Run => &mut self.run,
        }
    }

    /// The order in which statistics are shown.
    pub fn canonical_order() -> (r: [Stat; 7])
        ensures
            r@ == seq![
                Stat::Bloodthirst,
                Stat::Violence,
                Stat::Realism,
                Stat::Perpetuity,
                Stat::Buoyancy,
                Stat::Maverickism,
                Stat::Run,
            ],
    {
        let r = [
            Stat::Bloodthirst,
            Stat::Violence,
            Stat::Realism,
            Stat::Perpetuity,
            Stat::Buoyancy,
            Stat::Maverickism,
            Stat::Run,
        ];
        assert(r@ =~= seq![
            Stat::Bloodthirst,
            Stat::Violence,
            Stat::Realism,
            Stat::Perpetuity,
            Stat::Buoyancy,
            Stat::Maverickism,
            Stat::Run,
        ]);
        r
    }
}

/// A stored character sheet.
#[derive(Clone, Debug)]
pub struct Character {
    pub id: CharacterID,
    pub name: String,
    pub team: TeamID,
    pub stats: Stats,
    pub modifiers: Vec<Modifier>,
}

impl Character {
    /// A new character of `team` with a fresh identifier and no abilities.
    pub fn new(name: String, stats: Stats, team: TeamID) -> (r: Self)
        ensures
            r.name == name,
            r.stats == stats,
            r.team == team,
            r.modifiers@.len() == 0,
    {
        Character { id: CharacterID::roll(), name, team, stats, modifiers: Vec::new() }
    }

    /// Same as `new`.
    pub fn roll(name: String, stats: Stats, team: TeamID) -> (r: Self)
        ensures
            r.name == name,
            r.stats == stats,
            r.team == team,
            r.modifiers@.len() == 0,
    {
        Self::new(name, stats, team)
    }

    /// The character's abilities.
    pub fn modifiers(&self) -> (r: &Vec<Modifier>)
        ensures
            r@ == self.modifiers@,
    {
        &self.modifiers
    }
}

/// A stored team: its members, in the order they take seats.
#[derive(Clone, Debug)]
pub struct Team {
    pub id: TeamID,
    pub name: String,
    pub colour: Colour,
    pub roster: Vec<CharacterID>,
}

impl Team {
    /// A new team with a fresh identifier and no members.
    pub fn new(name: String, colour: Colour) -> (r: Self)
        ensures
            r.name == name,
            r.colour == colour,
            r.roster@.len() == 0,
    {
        Team { id: TeamID::roll(), name, colour, roster: Vec::new() }
    }
}

} // verus!

use vstd::prelude::*;

verus! {

/// Identifies a participant of a running game.
#[derive(Clone, Copy, PartialEq, Eq, Hash, Debug, Structural)]
pub struct ActiveCharacterID(pub u128);

/// Identifies a stored character sheet.
#[derive(Clone, Copy, PartialEq, Eq, Hash, Debug, Structural)]
pub struct CharacterID(pub u128);

/// Identifies a stored team.
#[derive(Clone, Copy, PartialEq, Eq, Hash, Debug, Structural)]
pub struct TeamID(pub u128);

/// Identifies a stored game.
#[derive(Clone, Copy, PartialEq, Eq, Hash, Debug, Structural)]
pub struct GameID(pub u128);

impl ActiveCharacterID {
    /// A fresh random identifier.
    pub fn roll() -> (r: Self) {
        ActiveCharacterID(random_uuid())
    }

    /// The identifier in hyphenated form.
    pub fn text(&self) -> (r: String)
        ensures
            r@ == uuid_text(self.0),
    {
        uuid_string(self.0)
    }
}

impl CharacterID {
    /// A fresh random identifier.
    pub fn roll() -> (r: Self) {
        CharacterID(random_uuid())
    }
}

impl TeamID {
    /// A fresh random identifier.
    pub fn roll() -> (r: Self) {
        TeamID(random_uuid())
    }
}

impl GameID {
    /// A fresh random identifier.
    pub fn roll() -> (r: Self) {
        GameID(random_uuid())
    }
}

/// The lower-case hexadecimal digit `d`.
pub open spec fn hex_digit(d: int) -> char {
    if d < 10 {
        ((d + 48) as u8) as char
    } else {
        ((d + 87) as u8) as char
    }
}

/// `16` to the power `k`.
pub open spec fn pow16(k: nat) -> int
    decreases k,
{
    if k == 0 {
        1
    } else {
        16 * pow16((k - 1) as nat)
    }
}

/// Hexadecimal digit `d` of the 32 digits of `v`, most significant first.
pub open spec fn nibble(v: u128, d: int) -> int {
    (v as int / pow16((31 - d) as nat)) % 16
}

/// Which of the 32 digits stands at place `i` of the hyphenated text.
pub open spec fn digit_at(i: int) -> int {
    if i > 23 {
        i - 4
    } else if i > 18 {
        i - 3
    } else if i > 13 {
        i - 2
    } else if i > 8 {
        i - 1
    } else {
        i
    }
}

/// The hyphenated lower-case text of the UUID with the given 128-bit value:
/// its 32 hexadecimal digits, most significant first, with a hyphen after
/// the 8th, 12th, 16th and 20th.
pub open spec fn uuid_text(v: u128) -> Seq<char> {
    Seq::new(
        36,
        |i: int|
            if i == 8 || i == 13 || i == 18 || i == 23 {
                '-'
            } else {
                hex_digit(nibble(v, digit_at(i)))
            },
    )
}

/// Relies on uuid's `Uuid::new_v4`: a random version-4 UUID, as its 128-bit
/// value. Nothing is known of the value.
#[verifier::external_body]
fn random_uuid() -> u128 {
    uuid::Uuid::new_v4().as_u128()
}

/// Relies on uuid's `Uuid::from_u128`, which takes the value big-endian, and
/// its `Display`, which writes the hyphenated lower-case form.
#[verifier::external_body]
fn uuid_string(v: u128) -> (r: String)
    ensures
        r@ == uuid_text(v),
        r@.len() == 36,
{
    uuid::Uuid::from_u128(v).to_string()
}

} // verus!

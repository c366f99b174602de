//! The kinds of mobs: their wire ids and the traits the simulation reads
//! (hit points, hostility, flight, water).
use vstd::prelude::*;

verus! {

/// A kind of mob (remote players share the rig).
#[derive(Clone, Copy, PartialEq, Eq, Structural, Debug)]
pub enum MobKind {
    Zombie,
    Siffleur,
    Pig,
    Sheep,
    Rabbit,
    Chicken,
    Cow,
    Fox,
    Slime,
    Ombre,
    Bee,
    Parrot,
    Turtle,
    Dolphin,
    Goat,
    Frog,
    Axolotl,
    /// Glowing squid drifting in dark and underground water.
    GlowSquid,
    /// Remote players rendered with the same rig.
    Player,
}

/// The wire id of a kind in the entity snapshot packet.
pub open spec fn kind_id(k: MobKind) -> u8 {
    match k {
        MobKind::Player => 0,
        MobKind::Zombie => 1,
        MobKind::Siffleur => 2,
        MobKind::Pig => 3,
        MobKind::Sheep => 4,
        MobKind::Rabbit => 5,
        MobKind::Chicken => 6,
        MobKind::Cow => 7,
        MobKind::Fox => 8,
        MobKind::Slime => 9,
        MobKind::Ombre => 10,
        MobKind::Bee => 11,
        MobKind::Parrot => 12,
        MobKind::Turtle => 13,
        MobKind::Dolphin => 14,
        MobKind::Goat => 15,
        MobKind::Frog => 16,
        MobKind::Axolotl => 17,
        MobKind::GlowSquid => 18,
    }
}

impl MobKind {
    /// Wire id used by the entity snapshot packet.
    pub fn id(self) -> (r: u8)
        ensures
            r == kind_id(self),
    {
        match self {
            MobKind::Player => 0,
            MobKind::Zombie => 1,
            MobKind::Siffleur => 2,
            MobKind::Pig => 3,
            MobKind::Sheep => 4,
            MobKind::Rabbit => 5,
            MobKind::Chicken => 6,
            MobKind::Cow => 7,
            MobKind::Fox => 8,
            MobKind::Slime => 9,
            MobKind::Ombre => 10,
            MobKind::Bee => 11,
            MobKind::Parrot => 12,
            MobKind::Turtle => 13,
            MobKind::Dolphin => 14,
            MobKind::Goat => 15,
            MobKind::Frog => 16,
            MobKind::Axolotl => 17,
            MobKind::GlowSquid => 18,
        }
    }

    /// The kind with wire id `v`, if any.
    pub fn from_id(v: u8) -> (r: Option<MobKind>)
        ensures
            match r {
                Some(k) => kind_id(k) == v,
                None => v >= 19,
            },
    {
        Some(match v {
            0 => MobKind::Player,
            1 => MobKind::Zombie,
            2 => MobKind::Siffleur,
            3 => MobKind::Pig,
            4 => MobKind::Sheep,
            5 => MobKind::Rabbit,
            6 => MobKind::Chicken,
            7 => MobKind::Cow,
            8 => MobKind::Fox,
            9 => MobKind::Slime,
            10 => MobKind::Ombre,
            11 => MobKind::Bee,
            12 => MobKind::Parrot,
            13 => MobKind::Turtle,
            14 => MobKind::Dolphin,
            15 => MobKind::Goat,
            16 => MobKind::Frog,
            17 => MobKind::Axolotl,
            18 => MobKind::GlowSquid,
            _ => return None,
        })
    }

    /// Hit points of a fresh mob of this kind.
    pub fn hp_max(self) -> (r: i32)
        ensures
            r == match self {
                MobKind::Zombie | MobKind::Siffleur | MobKind::Player => 20i32,
                MobKind::Ombre => 26,
                MobKind::Pig | MobKind::Cow | MobKind::GlowSquid => 10,
                MobKind::Goat | MobKind::Turtle | MobKind::Dolphin => 12,
                MobKind::Sheep | MobKind::Fox | MobKind::Slime | MobKind::Frog | MobKind::Axolotl => 8,
                MobKind::Chicken | MobKind::Bee | MobKind::Parrot => 4,
                MobKind::Rabbit => 3,
            },
    {
        match self {
            MobKind::Zombie | MobKind::Siffleur => 20,
            MobKind::Ombre => 26,
            MobKind::Pig | MobKind::Cow => 10,
            MobKind::Sheep | MobKind::Fox => 8,
            MobKind::Slime => 8,
            MobKind::Goat | MobKind::Turtle | MobKind::Dolphin => 12,
            MobKind::Frog | MobKind::Axolotl => 8,
            MobKind::GlowSquid => 10,
            MobKind::Chicken | MobKind::Bee | MobKind::Parrot => 4,
            MobKind::Rabbit => 3,
            MobKind::Player => 20,
        }
    }

    /// Zombies, siffleurs, slimes and ombres attack the player.
    pub fn hostile(self) -> (r: bool)
        ensures
            r == (self == MobKind::Zombie || self == MobKind::Siffleur || self == MobKind::Slime || self == MobKind::Ombre),
    {
        matches!(self, MobKind::Zombie | MobKind::Siffleur | MobKind::Slime | MobKind::Ombre)
    }

    /// Flyers hover above the ground instead of walking.
    pub fn flies(self) -> (r: bool)
        ensures
            r == (self == MobKind::Bee || self == MobKind::Parrot),
    {
        matches!(self, MobKind::Bee | MobKind::Parrot)
    }

    /// Aquatic mobs swim; on land they just flop around.
    pub fn aquatic(self) -> (r: bool)
        ensures
            r == (self == MobKind::Dolphin || self == MobKind::Axolotl || self == MobKind::GlowSquid),
    {
        matches!(self, MobKind::Dolphin | MobKind::Axolotl | MobKind::GlowSquid)
    }
}

/// Every kind travels as a distinct id below 19 and comes back as itself.
pub proof fn id_roundtrip(k: MobKind)
    ensures
        kind_id(k) < 19,
        forall|j: MobKind| kind_id(j) == kind_id(k) ==> j == k,
{
}

} // verus!

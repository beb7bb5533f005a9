//! The closed sum type of placeable entities, the raw sprite record that
//! carries one of them inside a world map, and the mapping between the two.

use vstd::prelude::*;

verus! {

/// A non-progression item: collecting more of these never unlocks new paths
/// on its own (amounts of swords or gems can, which the requirements express).
#[derive(Clone, Copy, PartialEq, Eq, Structural, Debug)]
pub enum Collectible {
    GoldKey,
    SilverKey,
    RedKey,
    GreenKey,
    BlueKey,
    Sword,
    PortalStone,
    Gem,
    Treasure,
    ShrineKey,
    GoldSword,
    Heart,
    Shield,
    Stopwatch,
    GemHeart,
    TealKey,
    PurpleKey,
    UnderworldKey,
    PossumCoin,
}

/// A progression item: placing one of these can change future reachability.
#[derive(Clone, Copy, PartialEq, Eq, Structural, Debug)]
pub enum Gear {
    Hammer,
    Boots,
    Compass,
    Spectacles,
    LavaCharm,
    WindRing,
    SkeletonKey,
    GemSword,
    GemShield,
    RedSword,
    RedShield,
}

/// A gated passage; gold, silver and boulder doors take part in the shuffle.
#[derive(Clone, Copy, PartialEq, Eq, Structural, Debug)]
pub enum Door {
    Gold,
    Silver,
    Red,
    Green,
    Blue,
    Boulder,
    Teal,
    Purple,
    Underworld,
}

#[derive(Clone, Copy, PartialEq, Eq, Structural, Debug)]
pub enum Enemy {
    Guard,
    BSlime,
    Bat,
    YBat,
    Fireball,
    PFireball,
    Gargoyle,
    Phantom,
    SGuard,
    Pirate,
    Rat,
    GRat,
    Skeleton,
    DSkeleton,
    GSkeleton,
    PSlime,
    GSlime,
    RSlime,
    YSlime,
    Spider,
    WSpider,
    Whelp,
    BWhelp,
    GWhelp,
    FairyR,
    FairyG,
    FairyB,
    GDragon,
    Basilisk,
    CloneP,
    CloneW,
    Witch,
    Rabbit,
    Glitch,
    GWitch,
}

/// Structural sprites that are neither items nor gates nor enemies.
#[derive(Clone, Copy, PartialEq, Eq, Structural, Debug)]
pub enum Things {
    Transfer,
    Warp,
    CompassWall,
    NGMountain,
    NGPMountain,
    NGPBoulder,
    NGPWall,
    NGPTransfer,
    UnderworldKeyhole,
}

/// Every entity a sprite record can denote. `Other` keeps the raw kind byte
/// of records that the randomizer never touches.
#[derive(Clone, Copy, PartialEq, Eq, Structural, Debug)]
pub enum Sprite {
    Collectible(Collectible),
    Gear(Gear),
    Door(Door),
    Enemy(Enemy),
    WindRoute,
    Save,
    Things(Things),
    Other(u8),
}

impl Enemy {
    /// How many swords it takes to defeat this enemy.
    pub open spec fn spec_strength(self) -> u8 {
        match self {
            Enemy::Guard => 50,
            Enemy::BSlime => 5,
            Enemy::Bat => 10,
            Enemy::YBat => 55,
            Enemy::Fireball => 100,
            Enemy::PFireball => 100,
            Enemy::Gargoyle => 80,
            Enemy::Phantom => 100,
            Enemy::SGuard => 100,
            Enemy::Pirate => 35,
            Enemy::Rat => 25,
            Enemy::GRat => 70,
            Enemy::Skeleton => 20,
            Enemy::DSkeleton => 45,
            Enemy::GSkeleton => 75,
            Enemy::PSlime => 65,
            Enemy::GSlime => 15,
            Enemy::RSlime => 50,
            Enemy::YSlime => 30,
            Enemy::Spider => 15,
            Enemy::WSpider => 65,
            Enemy::Whelp => 60,
            Enemy::BWhelp => 90,
            Enemy::GWhelp => 40,
            Enemy::FairyR => 95,
            Enemy::FairyG => 95,
            Enemy::FairyB => 95,
            Enemy::GDragon => 75,
            Enemy::Basilisk => 95,
            Enemy::CloneP => 10,
            Enemy::CloneW => 10,
            Enemy::Witch => 0,
            Enemy::Rabbit => 1,
            Enemy::Glitch => 100,
            Enemy::GWitch => 100,
        }
    }

    pub fn strength(self) -> (r: u8)
        ensures
            r == self.spec_strength(),
    {
        match self {
            Enemy::Guard => 50,
            Enemy::BSlime => 5,
            Enemy::Bat => 10,
            Enemy::YBat => 55,
            Enemy::Fireball => 100,
            Enemy::PFireball => 100,
            Enemy::Gargoyle => 80,
            Enemy::Phantom => 100,
            Enemy::SGuard => 100,
            Enemy::Pirate => 35,
            Enemy::Rat => 25,
            Enemy::GRat => 70,
            Enemy::Skeleton => 20,
            Enemy::DSkeleton => 45,
            Enemy::GSkeleton => 75,
            Enemy::PSlime => 65,
            Enemy::GSlime => 15,
            Enemy::RSlime => 50,
            Enemy::YSlime => 30,
            Enemy::Spider => 15,
            Enemy::WSpider => 65,
            Enemy::Whelp => 60,
            Enemy::BWhelp => 90,
            Enemy::GWhelp => 40,
            Enemy::FairyR => 95,
            Enemy::FairyG => 95,
            Enemy::FairyB => 95,
            Enemy::GDragon => 75,
            Enemy::Basilisk => 95,
            Enemy::CloneP => 10,
            Enemy::CloneW => 10,
            Enemy::Witch => 0,
            Enemy::Rabbit => 1,
            Enemy::Glitch => 100,
            Enemy::GWitch => 100,
        }
    }
}

impl Sprite {
    /// Which entity a raw kind byte denotes.
    pub open spec fn spec_of_kind(kind: u8) -> Sprite {
        if kind == 0 { Sprite::Things(Things::Transfer) }
        else if kind == 1 { Sprite::Door(Door::Gold) }
        else if kind == 2 || kind == 53 { Sprite::Collectible(Collectible::GoldKey) }
        else if kind == 3 || kind == 24 || kind == 69 || kind == 70 { Sprite::Collectible(Collectible::Sword) }
        else if kind == 4 { Sprite::Door(Door::Silver) }
        else if kind == 5 || kind == 66 { Sprite::Collectible(Collectible::SilverKey) }
        else if kind == 6 || kind == 60 { Sprite::Collectible(Collectible::PortalStone) }
        else if kind == 7 { Sprite::Collectible(Collectible::Gem) }
        else if kind == 8 || kind == 71 { Sprite::Collectible(Collectible::Treasure) }
        else if kind == 9 { Sprite::Gear(Gear::Hammer) }
        else if kind == 10 { Sprite::Door(Door::Boulder) }
        else if kind == 11 { Sprite::Gear(Gear::Boots) }
        else if kind == 12 { Sprite::Gear(Gear::Compass) }
        else if kind == 13 { Sprite::Things(Things::CompassWall) }
        else if kind == 15 { Sprite::Things(Things::Warp) }
        else if kind == 22 { Sprite::Door(Door::Blue) }
        else if kind == 23 { Sprite::Collectible(Collectible::BlueKey) }
        else if kind == 25 { Sprite::WindRoute }
        else if kind == 44 { Sprite::Save }
        else if kind == 51 { Sprite::Gear(Gear::GemSword) }
        else if kind == 52 { Sprite::Gear(Gear::Spectacles) }
        else if kind == 54 { Sprite::Door(Door::Green) }
        else if kind == 55 { Sprite::Collectible(Collectible::GreenKey) }
        else if kind == 56 { Sprite::Collectible(Collectible::GoldSword) }
        else if kind == 57 || kind == 58 { Sprite::Collectible(Collectible::Heart) }
        else if kind == 59 { Sprite::Gear(Gear::LavaCharm) }
        else if kind == 61 { Sprite::Door(Door::Red) }
        else if kind == 62 { Sprite::Collectible(Collectible::RedKey) }
        else if kind == 63 { Sprite::Collectible(Collectible::ShrineKey) }
        else if kind == 64 { Sprite::Collectible(Collectible::Shield) }
        else if kind == 65 { Sprite::Gear(Gear::GemShield) }
        else if kind == 67 { Sprite::Gear(Gear::SkeletonKey) }
        else if kind == 68 { Sprite::Collectible(Collectible::Stopwatch) }
        else if kind == 72 { Sprite::Gear(Gear::WindRing) }
        else if kind == 108 { Sprite::Enemy(Enemy::Basilisk) }
        else if kind == 109 { Sprite::Enemy(Enemy::Bat) }
        else if kind == 110 || kind == 111 { Sprite::Enemy(Enemy::YBat) }
        else if kind == 112 { Sprite::Enemy(Enemy::CloneW) }
        else if kind == 113 { Sprite::Enemy(Enemy::CloneP) }
        else if kind == 114 { Sprite::Enemy(Enemy::GDragon) }
        else if kind == 115 { Sprite::Enemy(Enemy::Fireball) }
        else if kind == 116 { Sprite::Enemy(Enemy::PFireball) }
        else if kind == 117 { Sprite::Enemy(Enemy::Gargoyle) }
        else if kind == 118 { Sprite::Enemy(Enemy::Phantom) }
        else if kind == 119 { Sprite::Enemy(Enemy::Guard) }
        else if kind == 120 { Sprite::Enemy(Enemy::SGuard) }
        else if kind == 121 { Sprite::Enemy(Enemy::Glitch) }
        else if kind == 122 { Sprite::Enemy(Enemy::Pirate) }
        else if kind == 124 { Sprite::Enemy(Enemy::Rat) }
        else if kind == 125 { Sprite::Enemy(Enemy::GRat) }
        else if kind == 126 { Sprite::Enemy(Enemy::Skeleton) }
        else if kind == 127 || kind == 128 { Sprite::Enemy(Enemy::DSkeleton) }
        else if kind == 129 { Sprite::Enemy(Enemy::GSkeleton) }
        else if kind == 130 { Sprite::Enemy(Enemy::BSlime) }
        else if kind == 131 || kind == 132 { Sprite::Enemy(Enemy::PSlime) }
        else if kind == 133 { Sprite::Enemy(Enemy::GSlime) }
        else if kind == 134 { Sprite::Enemy(Enemy::RSlime) }
        else if kind == 135 { Sprite::Enemy(Enemy::YSlime) }
        else if kind == 137 { Sprite::Enemy(Enemy::Spider) }
        else if kind == 138 { Sprite::Enemy(Enemy::WSpider) }
        else if kind == 139 || kind == 140 { Sprite::Enemy(Enemy::Whelp) }
        else if kind == 141 { Sprite::Enemy(Enemy::BWhelp) }
        else if kind == 142 { Sprite::Enemy(Enemy::GWhelp) }
        else if kind == 143 { Sprite::Enemy(Enemy::Witch) }
        else if kind == 148 { Sprite::Enemy(Enemy::FairyR) }
        else if kind == 149 { Sprite::Enemy(Enemy::FairyG) }
        else if kind == 150 { Sprite::Enemy(Enemy::FairyB) }
        else if kind == 152 { Sprite::Collectible(Collectible::GemHeart) }
        else if kind == 160 { Sprite::Enemy(Enemy::Rabbit) }
        else if kind == 191 { Sprite::Enemy(Enemy::GWitch) }
        else if kind == 195 { Sprite::Things(Things::NGPMountain) }
        else if kind == 196 { Sprite::Things(Things::NGMountain) }
        else if kind == 197 { Sprite::Things(Things::NGPTransfer) }
        else if kind == 198 { Sprite::Things(Things::NGPBoulder) }
        else if kind == 199 { Sprite::Collectible(Collectible::UnderworldKey) }
        else if kind == 200 { Sprite::Things(Things::NGPWall) }
        else if kind == 201 { Sprite::Door(Door::Underworld) }
        else if kind == 208 { Sprite::Things(Things::UnderworldKeyhole) }
        else if kind == 209 { Sprite::Gear(Gear::RedShield) }
        else if kind == 210 { Sprite::Gear(Gear::RedSword) }
        else if kind == 213 { Sprite::Collectible(Collectible::PossumCoin) }
        else if kind == 247 { Sprite::Door(Door::Teal) }
        else if kind == 248 { Sprite::Collectible(Collectible::TealKey) }
        else if kind == 249 { Sprite::Door(Door::Purple) }
        else if kind == 250 { Sprite::Collectible(Collectible::PurpleKey) }
        else { Sprite::Other(kind) }
    }

    pub fn of_kind(kind: u8) -> (s: Sprite)
        ensures
            s == Sprite::spec_of_kind(kind),
    {
        if kind == 0 { Sprite::Things(Things::Transfer) }
        else if kind == 1 { Sprite::Door(Door::Gold) }
        else if kind == 2 || kind == 53 { Sprite::Collectible(Collectible::GoldKey) }
        else if kind == 3 || kind == 24 || kind == 69 || kind == 70 { Sprite::Collectible(Collectible::Sword) }
        else if kind == 4 { Sprite::Door(Door::Silver) }
        else if kind == 5 || kind == 66 { Sprite::Collectible(Collectible::SilverKey) }
        else if kind == 6 || kind == 60 { Sprite::Collectible(Collectible::PortalStone) }
        else if kind == 7 { Sprite::Collectible(Collectible::Gem) }
        else if kind == 8 || kind == 71 { Sprite::Collectible(Collectible::Treasure) }
        else if kind == 9 { Sprite::Gear(Gear::Hammer) }
        else if kind == 10 { Sprite::Door(Door::Boulder) }
        else if kind == 11 { Sprite::Gear(Gear::Boots) }
        else if kind == 12 { Sprite::Gear(Gear::Compass) }
        else if kind == 13 { Sprite::Things(Things::CompassWall) }
        else if kind == 15 { Sprite::Things(Things::Warp) }
        else if kind == 22 { Sprite::Door(Door::Blue) }
        else if kind == 23 { Sprite::Collectible(Collectible::BlueKey) }
        else if kind == 25 { Sprite::WindRoute }
        else if kind == 44 { Sprite::Save }
        else if kind == 51 { Sprite::Gear(Gear::GemSword) }
        else if kind == 52 { Sprite::Gear(Gear::Spectacles) }
        else if kind == 54 { Sprite::Door(Door::Green) }
        else if kind == 55 { Sprite::Collectible(Collectible::GreenKey) }
        else if kind == 56 { Sprite::Collectible(Collectible::GoldSword) }
        else if kind == 57 || kind == 58 { Sprite::Collectible(Collectible::Heart) }
        else if kind == 59 { Sprite::Gear(Gear::LavaCharm) }
        else if kind == 61 { Sprite::Door(Door::Red) }
        else if kind == 62 { Sprite::Collectible(Collectible::RedKey) }
        else if kind == 63 { Sprite::Collectible(Collectible::ShrineKey) }
        else if kind == 64 { Sprite::Collectible(Collectible::Shield) }
        else if kind == 65 { Sprite::Gear(Gear::GemShield) }
        else if kind == 67 { Sprite::Gear(Gear::SkeletonKey) }
        else if kind == 68 { Sprite::Collectible(Collectible::Stopwatch) }
        else if kind == 72 { Sprite::Gear(Gear::WindRing) }
        else if kind == 108 { Sprite::Enemy(Enemy::Basilisk) }
        else if kind == 109 { Sprite::Enemy(Enemy::Bat) }
        else if kind == 110 || kind == 111 { Sprite::Enemy(Enemy::YBat) }
        else if kind == 112 { Sprite::Enemy(Enemy::CloneW) }
        else if kind == 113 { Sprite::Enemy(Enemy::CloneP) }
        else if kind == 114 { Sprite::Enemy(Enemy::GDragon) }
        else if kind == 115 { Sprite::Enemy(Enemy::Fireball) }
        else if kind == 116 { Sprite::Enemy(Enemy::PFireball) }
        else if kind == 117 { Sprite::Enemy(Enemy::Gargoyle) }
        else if kind == 118 { Sprite::Enemy(Enemy::Phantom) }
        else if kind == 119 { Sprite::Enemy(Enemy::Guard) }
        else if kind == 120 { Sprite::Enemy(Enemy::SGuard) }
        else if kind == 121 { Sprite::Enemy(Enemy::Glitch) }
        else if kind == 122 { Sprite::Enemy(Enemy::Pirate) }
        else if kind == 124 { Sprite::Enemy(Enemy::Rat) }
        else if kind == 125 { Sprite::Enemy(Enemy::GRat) }
        else if kind == 126 { Sprite::Enemy(Enemy::Skeleton) }
        else if kind == 127 || kind == 128 { Sprite::Enemy(Enemy::DSkeleton) }
        else if kind == 129 { Sprite::Enemy(Enemy::GSkeleton) }
        else if kind == 130 { Sprite::Enemy(Enemy::BSlime) }
        else if kind == 131 || kind == 132 { Sprite::Enemy(Enemy::PSlime) }
        else if kind == 133 { Sprite::Enemy(Enemy::GSlime) }
        else if kind == 134 { Sprite::Enemy(Enemy::RSlime) }
        else if kind == 135 { Sprite::Enemy(Enemy::YSlime) }
        else if kind == 137 { Sprite::Enemy(Enemy::Spider) }
        else if kind == 138 { Sprite::Enemy(Enemy::WSpider) }
        else if kind == 139 || kind == 140 { Sprite::Enemy(Enemy::Whelp) }
        else if kind == 141 { Sprite::Enemy(Enemy::BWhelp) }
        else if kind == 142 { Sprite::Enemy(Enemy::GWhelp) }
        else if kind == 143 { Sprite::Enemy(Enemy::Witch) }
        else if kind == 148 { Sprite::Enemy(Enemy::FairyR) }
        else if kind == 149 { Sprite::Enemy(Enemy::FairyG) }
        else if kind == 150 { Sprite::Enemy(Enemy::FairyB) }
        else if kind == 152 { Sprite::Collectible(Collectible::GemHeart) }
        else if kind == 160 { Sprite::Enemy(Enemy::Rabbit) }
        else if kind == 191 { Sprite::Enemy(Enemy::GWitch) }
        else if kind == 195 { Sprite::Things(Things::NGPMountain) }
        else if kind == 196 { Sprite::Things(Things::NGMountain) }
        else if kind == 197 { Sprite::Things(Things::NGPTransfer) }
        else if kind == 198 { Sprite::Things(Things::NGPBoulder) }
        else if kind == 199 { Sprite::Collectible(Collectible::UnderworldKey) }
        else if kind == 200 { Sprite::Things(Things::NGPWall) }
        else if kind == 201 { Sprite::Door(Door::Underworld) }
        else if kind == 208 { Sprite::Things(Things::UnderworldKeyhole) }
        else if kind == 209 { Sprite::Gear(Gear::RedShield) }
        else if kind == 210 { Sprite::Gear(Gear::RedSword) }
        else if kind == 213 { Sprite::Collectible(Collectible::PossumCoin) }
        else if kind == 247 { Sprite::Door(Door::Teal) }
        else if kind == 248 { Sprite::Collectible(Collectible::TealKey) }
        else if kind == 249 { Sprite::Door(Door::Purple) }
        else if kind == 250 { Sprite::Collectible(Collectible::PurpleKey) }
        else { Sprite::Other(kind) }
    }

    /// True of the kinds that may sit in the item pool.
    pub open spec fn spec_is_item(self) -> bool {
        self is Collectible || self is Gear
    }

    pub fn is_item(self) -> (r: bool)
        ensures
            r == self.spec_is_item(),
    {
        match self {
            Sprite::Collectible(_) | Sprite::Gear(_) => true,
            _ => false,
        }
    }

    pub open spec fn spec_is_gear(self) -> bool {
        self is Gear
    }

    pub fn is_gear(self) -> (r: bool)
        ensures
            r == self.spec_is_gear(),
    {
        match self {
            Sprite::Gear(_) => true,
            _ => false,
        }
    }

    /// The kind byte this sprite is written back as. Kinds with several
    /// aliases get their lowest alias; `Other` keeps its recorded byte.
    pub open spec fn spec_canonical_kind(self) -> u8 {
        match self {
            Sprite::Collectible(c) => match c {
                Collectible::GoldKey => 2,
                Collectible::SilverKey => 5,
                Collectible::RedKey => 62,
                Collectible::GreenKey => 55,
                Collectible::BlueKey => 23,
                Collectible::Sword => 3,
                Collectible::PortalStone => 6,
                Collectible::Gem => 7,
                Collectible::Treasure => 8,
                Collectible::ShrineKey => 63,
                Collectible::GoldSword => 56,
                Collectible::Heart => 57,
                Collectible::Shield => 64,
                Collectible::Stopwatch => 68,
                Collectible::GemHeart => 152,
                Collectible::TealKey => 248,
                Collectible::PurpleKey => 250,
                Collectible::UnderworldKey => 199,
                Collectible::PossumCoin => 213,
            },
            Sprite::Gear(g) => match g {
                Gear::Hammer => 9,
                Gear::Boots => 11,
                Gear::Compass => 12,
                Gear::Spectacles => 52,
                Gear::LavaCharm => 59,
                Gear::WindRing => 72,
                Gear::SkeletonKey => 67,
                Gear::GemSword => 51,
                Gear::GemShield => 65,
                Gear::RedSword => 210,
                Gear::RedShield => 209,
            },
            Sprite::Door(d) => match d {
                Door::Gold => 1,
                Door::Silver => 4,
                Door::Red => 61,
                Door::Green => 54,
                Door::Blue => 22,
                Door::Boulder => 10,
                Door::Teal => 247,
                Door::Purple => 249,
                Door::Underworld => 201,
            },
            Sprite::Enemy(e) => match e {
                Enemy::Guard => 119,
                Enemy::BSlime => 130,
                Enemy::Bat => 109,
                Enemy::YBat => 110,
                Enemy::Fireball => 115,
                Enemy::PFireball => 116,
                Enemy::Gargoyle => 117,
                Enemy::Phantom => 118,
                Enemy::SGuard => 120,
                Enemy::Pirate => 122,
                Enemy::Rat => 124,
                Enemy::GRat => 125,
                Enemy::Skeleton => 126,
                Enemy::DSkeleton => 127,
                Enemy::GSkeleton => 129,
                Enemy::PSlime => 131,
                Enemy::GSlime => 133,
                Enemy::RSlime => 134,
                Enemy::YSlime => 135,
                Enemy::Spider => 137,
                Enemy::WSpider => 138,
                Enemy::Whelp => 139,
                Enemy::BWhelp => 141,
                Enemy::GWhelp => 142,
                Enemy::FairyR => 148,
                Enemy::FairyG => 149,
                Enemy::FairyB => 150,
                Enemy::GDragon => 114,
                Enemy::Basilisk => 108,
                Enemy::CloneP => 113,
                Enemy::CloneW => 112,
                Enemy::Witch => 143,
                Enemy::Rabbit => 160,
                Enemy::Glitch => 121,
                Enemy::GWitch => 191,
            },
            Sprite::WindRoute => 25,
            Sprite::Save => 44,
            Sprite::Things(t) => match t {
                Things::Transfer => 0,
                Things::Warp => 15,
                Things::CompassWall => 13,
                Things::NGMountain => 196,
                Things::NGPMountain => 195,
                Things::NGPBoulder => 198,
                Things::NGPWall => 200,
                Things::NGPTransfer => 197,
                Things::UnderworldKeyhole => 208,
            },
            Sprite::Other(kind) => kind,
        }
    }

    pub fn canonical_kind(self) -> (r: u8)
        ensures
            r == self.spec_canonical_kind(),
    {
        match self {
            Sprite::Collectible(c) => match c {
                Collectible::GoldKey => 2,
                Collectible::SilverKey => 5,
                Collectible::RedKey => 62,
                Collectible::GreenKey => 55,
                Collectible::BlueKey => 23,
                Collectible::Sword => 3,
                Collectible::PortalStone => 6,
                Collectible::Gem => 7,
                Collectible::Treasure => 8,
                Collectible::ShrineKey => 63,
                Collectible::GoldSword => 56,
                Collectible::Heart => 57,
                Collectible::Shield => 64,
                Collectible::Stopwatch => 68,
                Collectible::GemHeart => 152,
                Collectible::TealKey => 248,
                Collectible::PurpleKey => 250,
                Collectible::UnderworldKey => 199,
                Collectible::PossumCoin => 213,
            },
            Sprite::Gear(g) => match g {
                Gear::Hammer => 9,
                Gear::Boots => 11,
                Gear::Compass => 12,
                Gear::Spectacles => 52,
                Gear::LavaCharm => 59,
                Gear::WindRing => 72,
                Gear::SkeletonKey => 67,
                Gear::GemSword => 51,
                Gear::GemShield => 65,
                Gear::RedSword => 210,
                Gear::RedShield => 209,
            },
            Sprite::Door(d) => match d {
                Door::Gold => 1,
                Door::Silver => 4,
                Door::Red => 61,
                Door::Green => 54,
                Door::Blue => 22,
                Door::Boulder => 10,
                Door::Teal => 247,
                Door::Purple => 249,
                Door::Underworld => 201,
            },
            Sprite::Enemy(e) => match e {
                Enemy::Guard => 119,
                Enemy::BSlime => 130,
                Enemy::Bat => 109,
                Enemy::YBat => 110,
                Enemy::Fireball => 115,
                Enemy::PFireball => 116,
                Enemy::Gargoyle => 117,
                Enemy::Phantom => 118,
                Enemy::SGuard => 120,
                Enemy::Pirate => 122,
                Enemy::Rat => 124,
                Enemy::GRat => 125,
                Enemy::Skeleton => 126,
                Enemy::DSkeleton => 127,
                Enemy::GSkeleton => 129,
                Enemy::PSlime => 131,
                Enemy::GSlime => 133,
                Enemy::RSlime => 134,
                Enemy::YSlime => 135,
                Enemy::Spider => 137,
                Enemy::WSpider => 138,
                Enemy::Whelp => 139,
                Enemy::BWhelp => 141,
                Enemy::GWhelp => 142,
                Enemy::FairyR => 148,
                Enemy::FairyG => 149,
                Enemy::FairyB => 150,
                Enemy::GDragon => 114,
                Enemy::Basilisk => 108,
                Enemy::CloneP => 113,
                Enemy::CloneW => 112,
                Enemy::Witch => 143,
                Enemy::Rabbit => 160,
                Enemy::Glitch => 121,
                Enemy::GWitch => 191,
            },
            Sprite::WindRoute => 25,
            Sprite::Save => 44,
            Sprite::Things(t) => match t {
                Things::Transfer => 0,
                Things::Warp => 15,
                Things::CompassWall => 13,
                Things::NGMountain => 196,
                Things::NGPMountain => 195,
                Things::NGPBoulder => 198,
                Things::NGPWall => 200,
                Things::NGPTransfer => 197,
                Things::UnderworldKeyhole => 208,
            },
            Sprite::Other(kind) => kind,
        }
    }

    /// The record this sprite is placed into the world as: its canonical
    /// kind byte, with no extra payload — every placeable kind is a
    /// single-byte record.
    pub fn to_data(self) -> (r: SpriteData)
        ensures
            r.kind == self.spec_canonical_kind(),
            r.extra_bytes@.len() == 0,
    {
        SpriteData { kind: self.canonical_kind(), extra_bytes: Vec::new() }
    }

    /// The footprint of this sprite on the tile grid, in 16-pixel tiles.
    pub fn tile_size(self) -> (r: (u8, u8))
        ensures
            self == Sprite::Enemy(Enemy::GDragon) ==> r == ((3u8, 2u8)),
            self == Sprite::Enemy(Enemy::Basilisk) ==> r == ((1u8, 2u8)),
            self != Sprite::Enemy(Enemy::GDragon) && self != Sprite::Enemy(Enemy::Basilisk)
                ==> r == ((1u8, 1u8)),
    {
        match self {
            Sprite::Enemy(Enemy::GDragon) => (3, 2),
            Sprite::Enemy(Enemy::Basilisk) => (1, 2),
            _ => (1, 1),
        }
    }
}

/// Reading a sprite back through the kind table returns the sprite that was
/// written, for every sprite that is not a raw `Other` record.
pub broadcast proof fn lemma_canonical_kind_round_trip(s: Sprite)
    requires
        !(s is Other),
    ensures
        #[trigger] Sprite::spec_of_kind(s.spec_canonical_kind()) == s,
{
}

/// One sprite record of a world map: a kind byte and the kind's extra payload
/// (a transfer's destination, for one), without its grid position.
#[derive(Clone, Debug, PartialEq, Eq)]
pub struct SpriteData {
    pub kind: u8,
    pub extra_bytes: Vec<u8>,
}

impl SpriteData {
    /// How many bytes a record of this kind spans beyond its two position
    /// bytes; 0 marks an unknown kind.
    pub open spec fn spec_size_of_kind(kind: u8) -> usize {
        if 1 <= kind <= 13 || 16 <= kind <= 25 || 42 <= kind <= 103 || 107 <= kind <= 143
            || 148 <= kind <= 160 || 162 <= kind <= 189 || 191 <= kind <= 192
            || 194 <= kind <= 196 || 198 <= kind <= 213 || 240 <= kind <= 250 {
            1
        } else if kind == 105 || kind == 106 {
            2
        } else if kind == 15 || kind == 104 || kind == 161 {
            3
        } else if kind == 0 || kind == 14 || kind == 147 || kind == 190 || kind == 193
            || kind == 197 || 26 <= kind <= 41 {
            5
        } else {
            0
        }
    }

    pub fn size_of_kind(kind: u8) -> (r: usize)
        ensures
            r == Self::spec_size_of_kind(kind),
    {
        if 1 <= kind && kind <= 13 || 16 <= kind && kind <= 25 || 42 <= kind && kind <= 103
            || 107 <= kind && kind <= 143 || 148 <= kind && kind <= 160
            || 162 <= kind && kind <= 189 || 191 <= kind && kind <= 192
            || 194 <= kind && kind <= 196 || 198 <= kind && kind <= 213
            || 240 <= kind && kind <= 250 {
            1
        } else if kind == 105 || kind == 106 {
            2
        } else if kind == 15 || kind == 104 || kind == 161 {
            3
        } else if kind == 0 || kind == 14 || kind == 147 || kind == 190 || kind == 193
            || kind == 197 || 26 <= kind && kind <= 41 {
            5
        } else {
            0
        }
    }

    /// Decodes one record at `*index`: kind, x, y, then `size - 1` extra
    /// bytes. An unknown kind is an error, reported after the three fixed
    /// bytes were consumed, as the stream offers no way to skip it.
    pub fn read(sprite_data: &[u8], index: &mut usize) -> (r: Result<(u8, u8, Self), DecodeError>)
        requires
            *old(index) + 3 <= sprite_data@.len(),
            Self::spec_size_of_kind(sprite_data@[*old(index) as int]) > 0
                ==> *old(index) + 2 + Self::spec_size_of_kind(sprite_data@[*old(index) as int])
                    <= sprite_data@.len(),
        ensures
            ({
                let kind = sprite_data@[*old(index) as int];
                let size = Self::spec_size_of_kind(kind);
                match r {
                    Ok((x, y, sd)) => {
                        &&& size > 0
                        &&& *final(index) == *old(index) + 2 + size
                        &&& x == sprite_data@[*old(index) + 1]
                        &&& y == sprite_data@[*old(index) + 2]
                        &&& sd.kind == kind
                        &&& sd.extra_bytes@ == sprite_data@.subrange(
                            *old(index) + 3,
                            *old(index) + 2 + size,
                        )
                    },
                    Err(e) => size == 0 && e == DecodeError::UnknownSprite
                        && *final(index) == *old(index) + 3,
                }
            }),
    {
        let kind = sprite_data[*index];
        let x = sprite_data[*index + 1];
        let y = sprite_data[*index + 2];
        let size = Self::size_of_kind(kind);
        if size == 0 {
            *index = *index + 3;
            return Err(DecodeError::UnknownSprite);
        }
        let start: usize = *index + 3;
        let end: usize = *index + 2 + size;
        let mut extra_bytes: Vec<u8> = Vec::new();
        let mut at: usize = start;
        while at < end
            invariant
                start <= at <= end,
                end <= sprite_data@.len(),
                extra_bytes@ == sprite_data@.subrange(start as int, at as int),
            decreases end - at,
        {
            extra_bytes.push(sprite_data[at]);
            proof {
                assert(extra_bytes@ =~= sprite_data@.subrange(start as int, at + 1));
            }
            at = at + 1;
        }
        *index = end;
        Ok((x, y, SpriteData { kind, extra_bytes }))
    }
}

impl View for SpriteData {
    type V = (u8, Seq<u8>);

    open spec fn view(&self) -> (u8, Seq<u8>) {
        (self.kind, self.extra_bytes@)
    }
}

impl SpriteData {
    /// A copy holding the same record value.
    pub fn duplicate(&self) -> (r: SpriteData)
        ensures
            r@ == self@,
    {
        let extra_bytes = self.extra_bytes.clone();
        proof {
            assert(extra_bytes@ =~= self.extra_bytes@);
        }
        SpriteData { kind: self.kind, extra_bytes }
    }
}

/// What can go wrong while decoding world-map bytes.
#[derive(Clone, Copy, Debug, PartialEq, Eq, Structural)]
pub enum DecodeError {
    UnknownSprite,
    Truncated,
}

} // verus!

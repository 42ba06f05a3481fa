//! The terrain model: the enumerated tile kinds, their movement
//! classification, display color, and the character codes used by the text
//! map format.

use vstd::prelude::*;

verus! {

/// Kind of ground occupying one tile of the map.
#[derive(Clone, Copy, Debug, PartialEq, Eq, Structural)]
pub enum Terrain {
    Unknown,
    Water,
    River,
    Plain,
    Mountain,
    Desert,
    Forest,
    Ice,
}

impl Terrain {
    /// Position of this terrain in an empire's eight-entry cost vector.
    pub open spec fn spec_ordinal(self) -> int {
        match self {
            Terrain::Unknown => 0,
            Terrain::Water => 1,
            Terrain::River => 2,
            Terrain::Plain => 3,
            Terrain::Mountain => 4,
            Terrain::Desert => 5,
            Terrain::Forest => 6,
            Terrain::Ice => 7,
        }
    }

    /// Index into an empire's cost vector for this terrain.
    pub fn ordinal(&self) -> (r: usize)
        ensures
            r == self.spec_ordinal(),
            r < 8,
    {
        match self {
            Terrain::Unknown => 0,
            Terrain::Water => 1,
            Terrain::River => 2,
            Terrain::Plain => 3,
            Terrain::Mountain => 4,
            Terrain::Desert => 5,
            Terrain::Forest => 6,
            Terrain::Ice => 7,
        }
    }

    pub open spec fn spec_from_u8(val: u8) -> Terrain {
        match val {
            1u8 => Terrain::Water,
            2u8 => Terrain::River,
            3u8 => Terrain::Plain,
            4u8 => Terrain::Mountain,
            5u8 => Terrain::Desert,
            6u8 => Terrain::Forest,
            7u8 => Terrain::Ice,
            _ => Terrain::Unknown,
        }
    }

    /// The terrain whose cost-vector position is `val`; any other number
    /// means `Unknown`.
    pub fn from_u8(val: u8) -> (t: Terrain)
        ensures
            t == Terrain::spec_from_u8(val),
    {
        match val {
            1 => Terrain::Water,
            2 => Terrain::River,
            3 => Terrain::Plain,
            4 => Terrain::Mountain,
            5 => Terrain::Desert,
            6 => Terrain::Forest,
            7 => Terrain::Ice,
            _ => Terrain::Unknown,
        }
    }

    pub open spec fn spec_from_char(c: char) -> Terrain {
        match c {
            'W' => Terrain::Water,
            'R' => Terrain::River,
            'P' => Terrain::Plain,
            'M' => Terrain::Mountain,
            'D' => Terrain::Desert,
            'F' => Terrain::Forest,
            'I' => Terrain::Ice,
            _ => Terrain::Unknown,
        }
    }

    /// The terrain encoded by one character of a text map; any character
    /// outside the seven known codes means `Unknown`.
    pub fn from_char(c: char) -> (t: Terrain)
        ensures
            t == Terrain::spec_from_char(c),
    {
        match c {
            'W' => Terrain::Water,
            'R' => Terrain::River,
            'P' => Terrain::Plain,
            'M' => Terrain::Mountain,
            'D' => Terrain::Desert,
            'F' => Terrain::Forest,
            'I' => Terrain::Ice,
            _ => Terrain::Unknown,
        }
    }

    pub open spec fn spec_to_char(self) -> char {
        match self {
            Terrain::Water => 'W',
            Terrain::River => 'R',
            Terrain::Plain => 'P',
            Terrain::Mountain => 'M',
            Terrain::Desert => 'D',
            Terrain::Forest => 'F',
            Terrain::Ice => 'I',
            Terrain::Unknown => '?',
        }
    }

    /// The character that the text map export writes for this terrain.
    pub fn to_char(&self) -> (c: char)
        ensures
            c == self.spec_to_char(),
    {
        match self {
            Terrain::Water => 'W',
            Terrain::River => 'R',
            Terrain::Plain => 'P',
            Terrain::Mountain => 'M',
            Terrain::Desert => 'D',
            Terrain::Forest => 'F',
            Terrain::Ice => 'I',
            Terrain::Unknown => '?',
        }
    }

    pub open spec fn spec_color(self) -> u32 {
        match self {
            Terrain::Water => 0xFFDB9538,
            Terrain::River => 0xFFE0C040,
            Terrain::Plain => 0xFF408035,
            Terrain::Mountain => 0xFF606060,
            Terrain::Desert => 0xFF60C0F0,
            Terrain::Forest => 0xFF225510,
            Terrain::Ice => 0xFFFAFAFA,
            Terrain::Unknown => 0xFF000000,
        }
    }

    /// Packed `0xAABBGGRR` display color of this terrain.
    pub fn get_color(&self) -> (c: u32)
        ensures
            c == self.spec_color(),
    {
        match self {
            Terrain::Water => 0xFFDB9538,
            Terrain::River => 0xFFE0C040,
            Terrain::Plain => 0xFF408035,
            Terrain::Mountain => 0xFF606060,
            Terrain::Desert => 0xFF60C0F0,
            Terrain::Forest => 0xFF225510,
            Terrain::Ice => 0xFFFAFAFA,
            Terrain::Unknown => 0xFF000000,
        }
    }

    /// Only liveable tiles may be claimed by an empire; water and unknown
    /// ground are not liveable.
    pub open spec fn spec_is_liveable(self) -> bool {
        !(self is Water || self is Unknown)
    }

    pub fn is_liveable(&self) -> (r: bool)
        ensures
            r == self.spec_is_liveable(),
    {
        match self {
            Terrain::Water | Terrain::Unknown => false,
            _ => true,
        }
    }

    /// Watery tiles mark the water side of the land/water transition
    /// penalty; water and rivers are watery.
    pub open spec fn spec_is_watery(self) -> bool {
        self is Water || self is River
    }

    pub fn is_watery(&self) -> (r: bool)
        ensures
            r == self.spec_is_watery(),
    {
        match self {
            Terrain::Water | Terrain::River => true,
            _ => false,
        }
    }
}

/// Exporting a terrain as a character and reading it back is lossless:
/// the seven known terrains keep their codes, and `Unknown` is written as
/// `'?'`, which reads back as `Unknown`.
pub proof fn lemma_terrain_char_round_trip(t: Terrain)
    ensures
        Terrain::spec_from_char(t.spec_to_char()) == t,
{
}

} // verus!

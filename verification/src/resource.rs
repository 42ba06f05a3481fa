//! The resource model: the enumerated overlay resources, their strategic
//! value, display color, and the character codes used by the text map
//! format.

use vstd::prelude::*;

verus! {

/// Resource overlaying one tile of the map, independent of its terrain.
#[derive(Clone, Copy, Debug, PartialEq, Eq, Structural)]
pub enum Resource {
    Empty,
    Gold,
    Silver,
    Gems,
    Coal,
    Cows,
    Wheat,
    Fish,
    Silk,
    Spices,
    Wine,
}

impl Resource {
    pub open spec fn spec_from_u8(val: u8) -> Resource {
        match val {
            1u8 => Resource::Gold,
            2u8 => Resource::Silver,
            3u8 => Resource::Gems,
            4u8 => Resource::Coal,
            5u8 => Resource::Cows,
            6u8 => Resource::Wheat,
            7u8 => Resource::Fish,
            8u8 => Resource::Silk,
            9u8 => Resource::Spices,
            10u8 => Resource::Wine,
            _ => Resource::Empty,
        }
    }

    /// The resource with the given numeric code; any other number means
    /// `Empty`.
    pub fn from_u8(val: u8) -> (r: Resource)
        ensures
            r == Resource::spec_from_u8(val),
    {
        match val {
            1 => Resource::Gold,
            2 => Resource::Silver,
            3 => Resource::Gems,
            4 => Resource::Coal,
            5 => Resource::Cows,
            6 => Resource::Wheat,
            7 => Resource::Fish,
            8 => Resource::Silk,
            9 => Resource::Spices,
            10 => Resource::Wine,
            _ => Resource::Empty,
        }
    }

    pub open spec fn spec_to_u8(self) -> u8 {
        match self {
            Resource::Empty => 0,
            Resource::Gold => 1,
            Resource::Silver => 2,
            Resource::Gems => 3,
            Resource::Coal => 4,
            Resource::Cows => 5,
            Resource::Wheat => 6,
            Resource::Fish => 7,
            Resource::Silk => 8,
            Resource::Spices => 9,
            Resource::Wine => 10,
        }
    }

    /// Numeric code of this resource.
    pub fn to_u8(&self) -> (v: u8)
        ensures
            v == self.spec_to_u8(),
    {
        match self {
            Resource::Empty => 0,
            Resource::Gold => 1,
            Resource::Silver => 2,
            Resource::Gems => 3,
            Resource::Coal => 4,
            Resource::Cows => 5,
            Resource::Wheat => 6,
            Resource::Fish => 7,
            Resource::Silk => 8,
            Resource::Spices => 9,
            Resource::Wine => 10,
        }
    }

    pub open spec fn spec_from_char(c: char) -> Resource {
        match c {
            'g' => Resource::Gold,
            's' => Resource::Silver,
            '*' => Resource::Gems,
            'c' => Resource::Coal,
            'C' => Resource::Cows,
            'w' => Resource::Wheat,
            'f' => Resource::Fish,
            'S' => Resource::Silk,
            '!' => Resource::Spices,
            'v' => Resource::Wine,
            _ => Resource::Empty,
        }
    }

    /// The resource encoded by one character of a resource map; any other
    /// character (including `'.'`) means `Empty`.
    pub fn from_char(c: char) -> (r: Resource)
        ensures
            r == Resource::spec_from_char(c),
    {
        match c {
            'g' => Resource::Gold,
            's' => Resource::Silver,
            '*' => Resource::Gems,
            'c' => Resource::Coal,
            'C' => Resource::Cows,
            'w' => Resource::Wheat,
            'f' => Resource::Fish,
            'S' => Resource::Silk,
            '!' => Resource::Spices,
            'v' => Resource::Wine,
            _ => Resource::Empty,
        }
    }

    pub open spec fn spec_to_char(self) -> char {
        match self {
            Resource::Gold => 'g',
            Resource::Silver => 's',
            Resource::Gems => '*',
            Resource::Coal => 'c',
            Resource::Cows => 'C',
            Resource::Wheat => 'w',
            Resource::Fish => 'f',
            Resource::Silk => 'S',
            Resource::Spices => '!',
            Resource::Wine => 'v',
            Resource::Empty => '.',
        }
    }

    /// The character that a resource map export writes for this resource
    /// (`'.'` for `Empty`).
    pub fn to_char(&self) -> (c: char)
        ensures
            c == self.spec_to_char(),
    {
        match self {
            Resource::Gold => 'g',
            Resource::Silver => 's',
            Resource::Gems => '*',
            Resource::Coal => 'c',
            Resource::Cows => 'C',
            Resource::Wheat => 'w',
            Resource::Fish => 'f',
            Resource::Silk => 'S',
            Resource::Spices => '!',
            Resource::Wine => 'v',
            Resource::Empty => '.',
        }
    }

    pub open spec fn spec_value(self) -> u32 {
        match self {
            Resource::Gold => 100,
            Resource::Silver => 70,
            Resource::Gems => 150,
            Resource::Coal => 70,
            Resource::Cows => 30,
            Resource::Wheat => 20,
            Resource::Fish => 25,
            Resource::Silk => 80,
            Resource::Spices => 90,
            Resource::Wine => 40,
            Resource::Empty => 0,
        }
    }

    /// Strategic value of this resource, reserved as a future cost input
    /// for the influence algorithms.
    pub fn get_value(&self) -> (v: u32)
        ensures
            v == self.spec_value(),
    {
        match self {
            Resource::Gold => 100,
            Resource::Silver => 70,
            Resource::Gems => 150,
            Resource::Coal => 70,
            Resource::Cows => 30,
            Resource::Wheat => 20,
            Resource::Fish => 25,
            Resource::Silk => 80,
            Resource::Spices => 90,
            Resource::Wine => 40,
            Resource::Empty => 0,
        }
    }

    pub open spec fn spec_color(self) -> u32 {
        match self {
            Resource::Gold => 0xFF00D7FF,
            Resource::Silver => 0xFFC0C0C0,
            Resource::Gems => 0xFFD670DA,
            Resource::Coal => 0xFF4F4F2F,
            Resource::Cows => 0xFF2D52A0,
            Resource::Wheat => 0xFFB3DEF5,
            Resource::Fish => 0xFFEEEEAF,
            Resource::Silk => 0xFFB469FF,
            Resource::Spices => 0xFF1E69D2,
            Resource::Wine => 0xFF000080,
            Resource::Empty => 0x00000000,
        }
    }

    /// Packed `0xAABBGGRR` display color of this resource; `Empty` is fully
    /// transparent.
    pub fn get_color(&self) -> (c: u32)
        ensures
            c == self.spec_color(),
    {
        match self {
            Resource::Gold => 0xFF00D7FF,
            Resource::Silver => 0xFFC0C0C0,
            Resource::Gems => 0xFFD670DA,
            Resource::Coal => 0xFF4F4F2F,
            Resource::Cows => 0xFF2D52A0,
            Resource::Wheat => 0xFFB3DEF5,
            Resource::Fish => 0xFFEEEEAF,
            Resource::Silk => 0xFFB469FF,
            Resource::Spices => 0xFF1E69D2,
            Resource::Wine => 0xFF000080,
            Resource::Empty => 0x00000000,
        }
    }
}

} // verus!

//! The colormap component: popular pre-defined colormaps for mapping scalar
//! values within a range to a color, with their wire encoding.

use vstd::prelude::*;

verus! {

/// Colormap for mapping scalar values within a given range to a color.
#[derive(Clone, Copy, PartialEq, Eq, Structural, Debug, Hash)]
pub enum Colormap {
    /// A simple black to white gradient, perceptually uniform in sRGB gray.
    Grayscale,
    /// Perceptually uniform, from black through red to bright yellow.
    Inferno,
    /// Perceptually uniform, from black through purple to white.
    Magma,
    /// Perceptually uniform, from dark blue through purple to yellow.
    Plasma,
    /// A perceptually non-uniform rainbow, colorblind-friendlier than the
    /// traditional rainbow maps.
    Turbo,
    /// Perceptually uniform and robust to color blindness, from dark purple
    /// through green to yellow.
    Viridis,
    /// Perceptually uniform and robust to color blindness, from cyan through
    /// dark gray to yellow; suited to signed values.
    CyanToYellow,
}

impl Default for Colormap {
    fn default() -> (r: Colormap)
        ensures
            r == Colormap::Turbo,
    {
        Colormap::Turbo
    }
}

/// The wire value of each colormap.
pub open spec fn colormap_code(c: Colormap) -> u8 {
    match c {
        Colormap::Grayscale => 1,
        Colormap::Inferno => 2,
        Colormap::Magma => 3,
        Colormap::Plasma => 4,
        Colormap::Turbo => 5,
        Colormap::Viridis => 6,
        Colormap::CyanToYellow => 7,
    }
}

impl Colormap {
    /// The wire encoding of this colormap.
    pub fn to_u8(self) -> (r: u8)
        ensures
            r == colormap_code(self),
    {
        match self {
            Colormap::Grayscale => 1,
            Colormap::Inferno => 2,
            Colormap::Magma => 3,
            Colormap::Plasma => 4,
            Colormap::Turbo => 5,
            Colormap::Viridis => 6,
            Colormap::CyanToYellow => 7,
        }
    }

    /// Decodes a wire value: exactly the codes of the variants are accepted.
    pub fn from_u8(code: u8) -> (r: Option<Colormap>)
        ensures
            match r {
                Some(c) => colormap_code(c) == code,
                None => forall|c: Colormap| colormap_code(c) != code,
            },
    {
        if code == 1 {
            Some(Colormap::Grayscale)
        } else if code == 2 {
            Some(Colormap::Inferno)
        } else if code == 3 {
            Some(Colormap::Magma)
        } else if code == 4 {
            Some(Colormap::Plasma)
        } else if code == 5 {
            Some(Colormap::Turbo)
        } else if code == 6 {
            Some(Colormap::Viridis)
        } else if code == 7 {
            Some(Colormap::CyanToYellow)
        } else {
            proof {
                assert forall|c: Colormap| colormap_code(c) != code by {}
            }
            None
        }
    }

    /// All variants, in wire order.
    pub fn variants() -> (r: Vec<Colormap>)
        ensures
            r@.len() == 7,
            forall|i: int| 0 <= i < 7 ==> colormap_code(#[trigger] r@[i]) == i + 1,
    {
        let mut v: Vec<Colormap> = Vec::new();
        v.push(Colormap::Grayscale);
        v.push(Colormap::Inferno);
        v.push(Colormap::Magma);
        v.push(Colormap::Plasma);
        v.push(Colormap::Turbo);
        v.push(Colormap::Viridis);
        v.push(Colormap::CyanToYellow);
        v
    }

    /// The variant's name.
    pub fn name(self) -> &'static str {
        match self {
            Colormap::Grayscale => "Grayscale",
            Colormap::Inferno => "Inferno",
            Colormap::Magma => "Magma",
            Colormap::Plasma => "Plasma",
            Colormap::Turbo => "Turbo",
            Colormap::Viridis => "Viridis",
            Colormap::CyanToYellow => "CyanToYellow",
        }
    }

    /// Bytes this value holds beyond itself: none, it is plain data.
    pub fn heap_size_bytes(self) -> (r: u64)
        ensures
            r == 0,
    {
        0
    }

    pub fn is_pod() -> (r: bool)
        ensures
            r,
    {
        true
    }
}

/// The wire encoding is injective and stays within its seven codes, so
/// decoding inverts encoding exactly.
pub proof fn lemma_colormap_round_trip(c: Colormap)
    ensures
        colormap_code(c) != 0 && colormap_code(c) <= 7,
        forall|a: Colormap, b: Colormap| colormap_code(a) == colormap_code(b) ==> a == b,
{
    assert forall|a: Colormap, b: Colormap| colormap_code(a) == colormap_code(b) implies a
        == b by {}
}

} // verus!

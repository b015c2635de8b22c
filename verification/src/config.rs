//! Configuration glue: the named seed patterns and color schemes a
//! caller can pick, and the tables resolving them.

use vstd::prelude::*;
use crate::seeds;
use crate::seeds::{seed_wf, Seed};
use crate::geometry::TileType;

verus! {

/// The seed patterns a caller can ask for by name.
#[derive(Copy, Clone, Debug, PartialEq, Eq, Structural)]
pub enum SeedArgument {
    Rose,
    LargeRhombus,
    SmallRhombus,
    Pizza,
}

/// The color schemes a caller can ask for by name.
#[derive(Copy, Clone, Debug, PartialEq, Eq, Structural)]
pub enum ColorSchemeArgument {
    Red,
    Green,
    Blue,
    Purple,
    Grey,
    Yellow,
}

/// The colors one scheme paints with: the two rhombus fills, the stroke,
/// and the two matching-arc strokes.
pub struct ColorScheme {
    pub quad_colors: (&'static str, &'static str),
    pub stroke_color: &'static str,
    pub arc_colors: (&'static str, &'static str),
}

/// The color table, scheme by scheme.
pub open spec fn spec_color_scheme(arg: ColorSchemeArgument) -> ColorScheme {
    match arg {
        ColorSchemeArgument::Red => ColorScheme {
            quad_colors: ("#97332b", "#c05150"),
            stroke_color: "white",
            arc_colors: ("#50d35b", "#30bbe5"),
        },
        ColorSchemeArgument::Green => ColorScheme {
            quad_colors: ("#2c6e49", "#4c956c"),
            stroke_color: "white",
            arc_colors: ("#d17432", "#8d31ce"),
        },
        ColorSchemeArgument::Blue => ColorScheme {
            quad_colors: ("#1f4a77", "#416d9f"),
            stroke_color: "white",
            arc_colors: ("#d13232", "#a9d132"),
        },
        ColorSchemeArgument::Purple => ColorScheme {
            quad_colors: ("#674593", "#915eae"),
            stroke_color: "white",
            arc_colors: ("#a9d132", "#d17432"),
        },
        ColorSchemeArgument::Grey => ColorScheme {
            quad_colors: ("#404040", "#545454"),
            stroke_color: "white",
            arc_colors: ("black", "#202020"),
        },
        ColorSchemeArgument::Yellow => ColorScheme {
            quad_colors: ("#e0be4e", "#f9d96d"),
            stroke_color: "#9b6a01",
            arc_colors: ("#4e5de0", "#884ee0"),
        },
    }
}

impl ColorScheme {
    /// Resolve a scheme name to its colors.
    pub fn from_arg(arg: ColorSchemeArgument) -> (r: ColorScheme)
        ensures
            r == spec_color_scheme(arg),
    {
        match arg {
            ColorSchemeArgument::Red => ColorScheme {
                quad_colors: ("#97332b", "#c05150"),
                stroke_color: "white",
                arc_colors: ("#50d35b", "#30bbe5"),
            },
            ColorSchemeArgument::Green => ColorScheme {
                quad_colors: ("#2c6e49", "#4c956c"),
                stroke_color: "white",
                arc_colors: ("#d17432", "#8d31ce"),
            },
            ColorSchemeArgument::Blue => ColorScheme {
                quad_colors: ("#1f4a77", "#416d9f"),
                stroke_color: "white",
                arc_colors: ("#d13232", "#a9d132"),
            },
            ColorSchemeArgument::Purple => ColorScheme {
                quad_colors: ("#674593", "#915eae"),
                stroke_color: "white",
                arc_colors: ("#a9d132", "#d17432"),
            },
            ColorSchemeArgument::Grey => ColorScheme {
                quad_colors: ("#404040", "#545454"),
                stroke_color: "white",
                arc_colors: ("black", "#202020"),
            },
            ColorSchemeArgument::Yellow => ColorScheme {
                quad_colors: ("#e0be4e", "#f9d96d"),
                stroke_color: "#9b6a01",
                arc_colors: ("#4e5de0", "#884ee0"),
            },
        }
    }
}

/// Resolve a seed name to its constructed pattern; `None` only if the
/// pattern fails its construction self-checks, which none does in
/// practice.
pub fn get_seed_from_arg(arg: SeedArgument) -> (r: Option<Seed>)
    ensures
        r is Some ==> seed_wf(r->Some_0@),
        arg == SeedArgument::Rose ==> (r is Some <==> seeds::spec_rose() is Some),
        arg == SeedArgument::Rose && r is Some
            ==> r->Some_0@ == seeds::spec_rose()->Some_0,
        arg == SeedArgument::LargeRhombus
            ==> (r is Some <==> seeds::spec_rhombus(TileType::LargeRhombus) is Some),
        arg == SeedArgument::LargeRhombus && r is Some
            ==> r->Some_0@ == seeds::spec_rhombus(TileType::LargeRhombus)->Some_0,
        arg == SeedArgument::SmallRhombus
            ==> (r is Some <==> seeds::spec_rhombus(TileType::SmallRhombus) is Some),
        arg == SeedArgument::SmallRhombus && r is Some
            ==> r->Some_0@ == seeds::spec_rhombus(TileType::SmallRhombus)->Some_0,
        arg == SeedArgument::Pizza ==> (r is Some <==> seeds::spec_pizza() is Some),
        arg == SeedArgument::Pizza && r is Some
            ==> r->Some_0@ == seeds::spec_pizza()->Some_0,
        r is Some && arg == SeedArgument::Rose ==> r->Some_0@.len() == 40,
        r is Some && arg == SeedArgument::Pizza ==> r->Some_0@.len() == 10,
        r is Some && (arg == SeedArgument::LargeRhombus || arg == SeedArgument::SmallRhombus)
            ==> r->Some_0@.len() == 2,
{
    match arg {
        SeedArgument::Rose => seeds::rose(),
        SeedArgument::LargeRhombus => seeds::rhombus(TileType::LargeRhombus),
        SeedArgument::SmallRhombus => seeds::rhombus(TileType::SmallRhombus),
        SeedArgument::Pizza => seeds::pizza(),
    }
}

} // verus!

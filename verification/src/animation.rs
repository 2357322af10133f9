//! Decisions of the colour animation that do not depend on time.

use vstd::prelude::*;

use crate::config::LineColorConfig;

verus! {

/// Direction in which the hue of a hue-cycle line colour rotates.
#[derive(Clone, Copy, Debug, PartialEq, Eq, Structural)]
pub enum HueRotationDirection {
    Forward,
    Reverse,
}

impl HueRotationDirection {
    /// Both directions, in picker order.
    pub const ALL: [HueRotationDirection; 2] = [
        HueRotationDirection::Forward,
        HueRotationDirection::Reverse,
    ];

    /// The name shown for the direction.
    pub fn label(self) -> (s: &'static str)
        ensures
            s@ == (match self {
                HueRotationDirection::Forward => "Forward"@,
                HueRotationDirection::Reverse => "Reverse"@,
            }),
    {
        match self {
            HueRotationDirection::Forward => "Forward",
            HueRotationDirection::Reverse => "Reverse",
        }
    }
}

/// Hue rotation animates only when it is enabled and the line colour cycles hue.
pub fn hue_rotation_active(enabled: bool, line_color: &LineColorConfig) -> (r: bool)
    ensures
        r == (enabled && *line_color is HueCycle),
{
    enabled && match line_color {
        LineColorConfig::HueCycle { .. } => true,
        _ => false,
    }
}

} // verus!

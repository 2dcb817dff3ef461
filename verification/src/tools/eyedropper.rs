//! The Eyedropper and what it reads from its option bar.
use vstd::prelude::*;

use crate::strings::str_eq;

verus! {

/// The Eyedropper: a click picks a colour for a swatch.
#[derive(Clone, Copy, Debug, PartialEq, Eq, Structural)]
pub struct Eyedropper;

/// What the eyedropper samples.
#[derive(Clone, Copy, Debug, PartialEq, Eq, Structural)]
pub struct SampleOptions {
    /// 1, 3 or 5: the average over an `area × area` square centred on the
    /// point.
    pub area: u32,
    /// Sample the active layer alone instead of the composite of all layers.
    pub current_layer: bool,
}

/// The sampling options for the option bar's Sample Size and Sample
/// values: "3 by 3 Average" and "5 by 5 Average" average a square,
/// anything else is a point sample; "Current Layer" samples the active
/// layer alone.
pub open spec fn spec_sample_options(size: Option<Seq<char>>, sample: Option<Seq<char>>) -> SampleOptions {
    SampleOptions {
        area: if size == Some("3 by 3 Average"@) {
            3
        } else if size == Some("5 by 5 Average"@) {
            5
        } else {
            1
        },
        current_layer: sample == Some("Current Layer"@),
    }
}

/// The sampling options the option bar sets (see [`spec_sample_options`]).
pub fn sample_options(size: Option<&str>, sample: Option<&str>) -> (options: SampleOptions)
    ensures
        options == spec_sample_options(
            match size {
                Some(s) => Some(s@),
                None => None,
            },
            match sample {
                Some(s) => Some(s@),
                None => None,
            },
        ),
{
    let area: u32 = match size {
        Some(s) => if str_eq(s, "3 by 3 Average") {
            3
        } else if str_eq(s, "5 by 5 Average") {
            5
        } else {
            1
        },
        None => 1,
    };
    let current_layer = match sample {
        Some(s) => str_eq(s, "Current Layer"),
        None => false,
    };
    SampleOptions { area, current_layer }
}

} // verus!

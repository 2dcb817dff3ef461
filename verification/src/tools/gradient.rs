//! The Gradient tool's option-bar readings.
use vstd::prelude::*;

use crate::strings::str_eq;

verus! {

/// The Gradient tool: a drag from one point to another fills a gradient.
#[derive(Clone, Copy, Debug, PartialEq, Eq, Structural)]
pub struct GradientTool;

/// The geometry of a gradient fill.
#[derive(Clone, Copy, Debug, PartialEq, Eq, Structural)]
pub enum GradientKind {
    Linear,
    Radial,
    Angle,
    Reflected,
    Diamond,
}

/// How the colours between the stops are interpolated.
#[derive(Clone, Copy, Debug, PartialEq, Eq, Structural)]
pub enum Method {
    Perceptual,
    Linear,
    Classic,
}

/// The kind the option bar's Type names; Linear for anything else.
pub open spec fn spec_gradient_kind(name: Option<Seq<char>>) -> GradientKind {
    match name {
        Some(n) => if n == "Radial"@ {
            GradientKind::Radial
        } else if n == "Angle"@ {
            GradientKind::Angle
        } else if n == "Reflected"@ {
            GradientKind::Reflected
        } else if n == "Diamond"@ {
            GradientKind::Diamond
        } else {
            GradientKind::Linear
        },
        None => GradientKind::Linear,
    }
}

/// The option bar's Type.
pub fn gradient_kind(name: Option<&str>) -> (kind: GradientKind)
    ensures
        kind == spec_gradient_kind(
            match name {
                Some(n) => Some(n@),
                None => None,
            },
        ),
{
    match name {
        Some(n) => if str_eq(n, "Radial") {
            GradientKind::Radial
        } else if str_eq(n, "Angle") {
            GradientKind::Angle
        } else if str_eq(n, "Reflected") {
            GradientKind::Reflected
        } else if str_eq(n, "Diamond") {
            GradientKind::Diamond
        } else {
            GradientKind::Linear
        },
        None => GradientKind::Linear,
    }
}

/// The method the option bar's Method names; Perceptual for anything else.
pub open spec fn spec_gradient_method(name: Seq<char>) -> Method {
    if name == "Linear"@ {
        Method::Linear
    } else if name == "Classic"@ {
        Method::Classic
    } else {
        Method::Perceptual
    }
}

/// The option bar's Method.
pub fn gradient_method(name: &str) -> (method: Method)
    ensures
        method == spec_gradient_method(name@),
{
    if str_eq(name, "Linear") {
        Method::Linear
    } else if str_eq(name, "Classic") {
        Method::Classic
    } else {
        Method::Perceptual
    }
}

} // verus!

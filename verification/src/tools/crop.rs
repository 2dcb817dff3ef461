//! The Crop tool's handles and the ratios its option bar offers.
use vstd::prelude::*;

use crate::strings::str_eq;

verus! {

/// What a press on the crop box took hold of.
#[derive(Clone, Copy, Debug, PartialEq, Eq, Structural)]
pub enum Grab {
    TopLeft,
    Top,
    TopRight,
    Right,
    BottomRight,
    Bottom,
    BottomLeft,
    Left,
    /// Inside the box: the box follows the pointer.
    Move,
    /// Just outside it: the image is straightened.
    Rotate,
    /// Well outside it: a new box is drawn from the press.
    New,
}

/// The eight handles, in the order the overlay draws them: clockwise from
/// the top-left corner.
pub fn handles() -> (all: [Grab; 8])
    ensures
        all@ == seq![
            Grab::TopLeft,
            Grab::Top,
            Grab::TopRight,
            Grab::Right,
            Grab::BottomRight,
            Grab::Bottom,
            Grab::BottomLeft,
            Grab::Left,
        ],
{
    let all = [
        Grab::TopLeft,
        Grab::Top,
        Grab::TopRight,
        Grab::Right,
        Grab::BottomRight,
        Grab::Bottom,
        Grab::BottomLeft,
        Grab::Left,
    ];
    proof {
        assert(all@ =~= seq![
            Grab::TopLeft,
            Grab::Top,
            Grab::TopRight,
            Grab::Right,
            Grab::BottomRight,
            Grab::Bottom,
            Grab::BottomLeft,
            Grab::Left,
        ]);
    }
    all
}

impl Grab {
    /// Whether the grab is one of the eight handles.
    pub fn is_handle(self) -> (handle: bool)
        ensures
            handle == !(self is Move || self is Rotate || self is New),
    {
        let all = handles();
        let mut i: usize = 0;
        while i < 8
            invariant
                i <= 8,
                all@.len() == 8,
                all@ == seq![
                    Grab::TopLeft,
                    Grab::Top,
                    Grab::TopRight,
                    Grab::Right,
                    Grab::BottomRight,
                    Grab::Bottom,
                    Grab::BottomLeft,
                    Grab::Left,
                ],
                forall|j: int| 0 <= j < i ==> all@[j] != self,
            decreases 8 - i,
        {
            if all[i] == self {
                return true;
            }
            i = i + 1;
        }
        false
    }

    /// Whether dragging the grab moves the box's left edge.
    pub fn moves_left(self) -> (left: bool)
        ensures
            left == (self is TopLeft || self is Left || self is BottomLeft),
    {
        matches!(self, Grab::TopLeft | Grab::Left | Grab::BottomLeft)
    }

    /// Whether dragging the grab moves the box's right edge.
    pub fn moves_right(self) -> (right: bool)
        ensures
            right == (self is TopRight || self is Right || self is BottomRight),
    {
        matches!(self, Grab::TopRight | Grab::Right | Grab::BottomRight)
    }

    /// Whether dragging the grab moves the box's top edge.
    pub fn moves_top(self) -> (top: bool)
        ensures
            top == (self is TopLeft || self is Top || self is TopRight),
    {
        matches!(self, Grab::TopLeft | Grab::Top | Grab::TopRight)
    }

    /// Whether dragging the grab moves the box's bottom edge.
    pub fn moves_bottom(self) -> (bottom: bool)
        ensures
            bottom == (self is BottomLeft || self is Bottom || self is BottomRight),
    {
        matches!(self, Grab::BottomLeft | Grab::Bottom | Grab::BottomRight)
    }
}

/// The handles move the box's edges: a handle moves one or two edges, never
/// both edges of one axis, and nothing but a handle moves an edge.
pub proof fn law_handles_move_edges(grab: Grab)
    ensures
        ({
            let l = grab is TopLeft || grab is Left || grab is BottomLeft;
            let r = grab is TopRight || grab is Right || grab is BottomRight;
            let t = grab is TopLeft || grab is Top || grab is TopRight;
            let b = grab is BottomLeft || grab is Bottom || grab is BottomRight;
            let handle = !(grab is Move || grab is Rotate || grab is New);
            &&& !(l && r)
            &&& !(t && b)
            &&& handle == (l || r || t || b)
        }),
{
}

/// The width : height the Ratio menu asks for, as a pair of whole numbers:
/// the fixed ratios, or the document's own (`width : max(height, 1)`);
/// `None` for anything else (no ratio).
pub open spec fn spec_ratio_of(name: Option<Seq<char>>, doc_w: u32, doc_h: u32) -> Option<(u32, u32)> {
    match name {
        Some(n) => if n == "1:1 (Square)"@ {
            Some((1u32, 1u32))
        } else if n == "5:4"@ {
            Some((5u32, 4u32))
        } else if n == "4:3"@ {
            Some((4u32, 3u32))
        } else if n == "3:2"@ {
            Some((3u32, 2u32))
        } else if n == "16:9"@ {
            Some((16u32, 9u32))
        } else if n == "Original Ratio"@ && doc_w > 0 {
            Some((doc_w, if doc_h >= 1 { doc_h } else { 1u32 }))
        } else {
            None
        },
        None => None,
    }
}

/// The ratio the option bar's Ratio menu asks for (see [`spec_ratio_of`]).
pub fn ratio_of(name: Option<&str>, doc_w: u32, doc_h: u32) -> (ratio: Option<(u32, u32)>)
    ensures
        ratio == spec_ratio_of(
            match name {
                Some(n) => Some(n@),
                None => None,
            },
            doc_w,
            doc_h,
        ),
{
    match name {
        Some(n) => if str_eq(n, "1:1 (Square)") {
            Some((1, 1))
        } else if str_eq(n, "5:4") {
            Some((5, 4))
        } else if str_eq(n, "4:3") {
            Some((4, 3))
        } else if str_eq(n, "3:2") {
            Some((3, 2))
        } else if str_eq(n, "16:9") {
            Some((16, 9))
        } else if str_eq(n, "Original Ratio") && doc_w > 0 {
            Some((doc_w, if doc_h >= 1 { doc_h } else { 1 }))
        } else {
            None
        },
        None => None,
    }
}

} // verus!

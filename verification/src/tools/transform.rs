//! Edit ▸ Transform's modes and instant turns.
use vstd::prelude::*;

use crate::strings::str_eq;

verus! {

/// Which gesture a plain drag of a handle makes (the Transform submenu).
#[derive(Clone, Copy, Debug, PartialEq, Eq, Structural)]
pub enum Mode {
    /// Free Transform: every gesture through the modifiers.
    Free,
    Scale,
    Rotate,
    Skew,
    Distort,
    Perspective,
    Warp,
}

/// The mode an action id starts.
pub open spec fn spec_mode_of_action(id: Seq<char>) -> Option<Mode> {
    if id == "xf:free"@ {
        Some(Mode::Free)
    } else if id == "xf:scale"@ {
        Some(Mode::Scale)
    } else if id == "xf:rotate"@ {
        Some(Mode::Rotate)
    } else if id == "xf:skew"@ {
        Some(Mode::Skew)
    } else if id == "xf:distort"@ {
        Some(Mode::Distort)
    } else if id == "xf:perspective"@ {
        Some(Mode::Perspective)
    } else if id == "xf:warp"@ {
        Some(Mode::Warp)
    } else {
        None
    }
}

impl Mode {
    /// The mode an action starts (`xf:free`, `xf:scale` …).
    pub fn of_action(id: &str) -> (mode: Option<Mode>)
        ensures
            mode == spec_mode_of_action(id@),
    {
        if str_eq(id, "xf:free") {
            Some(Mode::Free)
        } else if str_eq(id, "xf:scale") {
            Some(Mode::Scale)
        } else if str_eq(id, "xf:rotate") {
            Some(Mode::Rotate)
        } else if str_eq(id, "xf:skew") {
            Some(Mode::Skew)
        } else if str_eq(id, "xf:distort") {
            Some(Mode::Distort)
        } else if str_eq(id, "xf:perspective") {
            Some(Mode::Perspective)
        } else if str_eq(id, "xf:warp") {
            Some(Mode::Warp)
        } else {
            None
        }
    }
}

/// A linear map `[a, b, c, d]`: `x' = a·x + b·y`, `y' = c·x + d·y` (y down).
pub type Linear = [i32; 4];

/// The half turn.
pub open spec fn rot180() -> Seq<int> {
    seq![-1, 0, 0, -1]
}

/// The quarter turn clockwise.
pub open spec fn rot90cw() -> Seq<int> {
    seq![0, -1, 1, 0]
}

/// The quarter turn counter-clockwise.
pub open spec fn rot90ccw() -> Seq<int> {
    seq![0, 1, -1, 0]
}

/// The horizontal flip.
pub open spec fn flip_h() -> Seq<int> {
    seq![-1, 0, 0, 1]
}

/// The vertical flip.
pub open spec fn flip_v() -> Seq<int> {
    seq![1, 0, 0, -1]
}

/// The identity.
pub open spec fn identity() -> Seq<int> {
    seq![1, 0, 0, 1]
}

/// `m` after `n`: the map that applies `n` first, then `m`.
pub open spec fn compose(m: Seq<int>, n: Seq<int>) -> Seq<int> {
    seq![
        m[0] * n[0] + m[1] * n[2],
        m[0] * n[1] + m[1] * n[3],
        m[2] * n[0] + m[3] * n[2],
        m[2] * n[1] + m[3] * n[3],
    ]
}

/// The entries of a map, as integers.
pub open spec fn entries(m: Linear) -> Seq<int> {
    seq![m[0] as int, m[1] as int, m[2] as int, m[3] as int]
}

/// The linear part an instant Transform item applies.
pub open spec fn spec_instant_turn(id: Seq<char>) -> Option<Seq<int>> {
    if id == "xf:rot180"@ {
        Some(rot180())
    } else if id == "xf:rot90cw"@ {
        Some(rot90cw())
    } else if id == "xf:rot90ccw"@ {
        Some(rot90ccw())
    } else if id == "xf:flip-h"@ {
        Some(flip_h())
    } else if id == "xf:flip-v"@ {
        Some(flip_v())
    } else {
        None
    }
}

/// The linear part of Edit ▸ Transform's instant items (`xf:rot180`,
/// `xf:rot90cw`, `xf:rot90ccw`, `xf:flip-h`, `xf:flip-v`) as `[a, b, c, d]`
/// (`x' = a·x + b·y`, `y' = c·x + d·y`, y down).
pub fn instant_turn(id: &str) -> (m: Option<Linear>)
    ensures
        m is None <==> spec_instant_turn(id@) is None,
        m matches Some(a) ==> entries(a) == spec_instant_turn(id@)->0,
{
    if str_eq(id, "xf:rot180") {
        Some([-1, 0, 0, -1])
    } else if str_eq(id, "xf:rot90cw") {
        Some([0, -1, 1, 0])
    } else if str_eq(id, "xf:rot90ccw") {
        Some([0, 1, -1, 0])
    } else if str_eq(id, "xf:flip-h") {
        Some([-1, 0, 0, 1])
    } else if str_eq(id, "xf:flip-v") {
        Some([1, 0, 0, -1])
    } else {
        None
    }
}

/// Four quarter turns, two half turns, a quarter turn each way and a flip
/// done twice all give back the original: the instant turns undo each other.
pub proof fn law_instant_turns_undo()
    ensures
        compose(rot90cw(), rot90ccw()) == identity(),
        compose(rot90ccw(), rot90cw()) == identity(),
        compose(rot180(), rot180()) == identity(),
        compose(flip_h(), flip_h()) == identity(),
        compose(flip_v(), flip_v()) == identity(),
        compose(rot90cw(), rot90cw()) == rot180(),
        compose(flip_h(), flip_v()) == rot180(),
{
    let (m, n) = (rot90cw(), rot90ccw());
    assert(m[0] == 0 && m[1] == -1 && m[2] == 1 && m[3] == 0);
    assert(n[0] == 0 && n[1] == 1 && n[2] == -1 && n[3] == 0);
    assert(compose(m, n) =~= identity());
    assert(compose(rot90ccw(), rot90cw()) =~= identity());
    assert(compose(rot180(), rot180()) =~= identity());
    assert(compose(flip_h(), flip_h()) =~= identity());
    assert(compose(flip_v(), flip_v()) =~= identity());
    assert(compose(rot90cw(), rot90cw()) =~= rot180());
    assert(compose(flip_h(), flip_v()) =~= rot180());
}

/// The centre an instant turn of the box `rect` (`[x0, y0, x1, y1]`) turns
/// about, in half pixels: the box's centre, with its y moved down half a
/// pixel when the two coordinates are not both whole or both half pixels.
pub open spec fn spec_turn_centre(rect: [i64; 4]) -> (int, int) {
    let cx = rect[0] + rect[2];
    let cy = rect[1] + rect[3];
    if (cx - cy) % 2 != 0 {
        (cx, cy + 1)
    } else {
        (cx, cy)
    }
}

/// Where the linear map `m` about the centre `c` takes the point `p`, all
/// in half pixels.
pub open spec fn turned(m: Seq<int>, c: (int, int), p: (int, int)) -> (int, int) {
    (
        m[0] * p.0 + m[1] * p.1 + (c.0 - m[0] * c.0 - m[1] * c.1),
        m[2] * p.0 + m[3] * p.1 + (c.1 - m[2] * c.0 - m[3] * c.1),
    )
}

/// The centre an instant turn of the box `rect` turns about (see
/// [`spec_turn_centre`]), in half pixels.
pub fn turn_centre(rect: [i64; 4]) -> (c: (i64, i64))
    requires
        forall|i: int| 0 <= i < 4 ==> -0x1000_0000_0000_0000 <= #[trigger] rect[i] <= 0x1000_0000_0000_0000,
    ensures
        (c.0 as int, c.1 as int) == spec_turn_centre(rect),
        -0x2000_0000_0000_0001 <= c.0 <= 0x2000_0000_0000_0001,
        -0x2000_0000_0000_0001 <= c.1 <= 0x2000_0000_0000_0001,
{
    let cx = rect[0] + rect[2];
    let cy = rect[1] + rect[3];
    if (cx - cy) % 2 != 0 {
        (cx, cy + 1)
    } else {
        (cx, cy)
    }
}

/// The translation of the instant turn `m` about the centre `c`, in half
/// pixels: what the turn adds after its linear part, so that `c` stays put.
pub fn turn_offset(m: Linear, c: (i64, i64)) -> (e: (i64, i64))
    requires
        forall|i: int| 0 <= i < 4 ==> -1 <= #[trigger] m[i] <= 1,
        -0x2000_0000_0000_0001 <= c.0 <= 0x2000_0000_0000_0001,
        -0x2000_0000_0000_0001 <= c.1 <= 0x2000_0000_0000_0001,
    ensures
        e.0 == c.0 - m[0] * c.0 - m[1] * c.1,
        e.1 == c.1 - m[2] * c.0 - m[3] * c.1,
{
    let (a, b, cc, d) = (m[0] as i64, m[1] as i64, m[2] as i64, m[3] as i64);
    assert(-0x2000_0000_0000_0001 <= a * c.0 <= 0x2000_0000_0000_0001) by (nonlinear_arith)
        requires
            -1 <= a <= 1,
            -0x2000_0000_0000_0001 <= c.0 <= 0x2000_0000_0000_0001,
    ;
    assert(-0x2000_0000_0000_0001 <= b * c.1 <= 0x2000_0000_0000_0001) by (nonlinear_arith)
        requires
            -1 <= b <= 1,
            -0x2000_0000_0000_0001 <= c.1 <= 0x2000_0000_0000_0001,
    ;
    assert(-0x2000_0000_0000_0001 <= cc * c.0 <= 0x2000_0000_0000_0001) by (nonlinear_arith)
        requires
            -1 <= cc <= 1,
            -0x2000_0000_0000_0001 <= c.0 <= 0x2000_0000_0000_0001,
    ;
    assert(-0x2000_0000_0000_0001 <= d * c.1 <= 0x2000_0000_0000_0001) by (nonlinear_arith)
        requires
            -1 <= d <= 1,
            -0x2000_0000_0000_0001 <= c.1 <= 0x2000_0000_0000_0001,
    ;
    (c.0 - a * c.0 - b * c.1, c.1 - cc * c.0 - d * c.1)
}

/// Multiplying by -1, 0 or 1.
proof fn lemma_unit_times(a: int, x: int)
    ensures
        a == 1 ==> a * x == x,
        a == 0 ==> a * x == 0,
        a == -1 ==> a * x == -x,
{
    assert(a == 1 ==> a * x == x) by (nonlinear_arith);
    assert(a == 0 ==> a * x == 0) by (nonlinear_arith);
    assert(a == -1 ==> a * x == -x) by (nonlinear_arith);
}

/// Instant turns land pixel centres on pixel centres: about the centre of
/// any box, each instant item takes the centre of a pixel (odd coordinates
/// in half pixels) to the centre of a pixel, so the turn copies pixels
/// exactly.
pub proof fn law_instant_turns_land_pixel_centres(id: Seq<char>, rect: [i64; 4], p: (int, int))
    requires
        spec_instant_turn(id) is Some,
        p.0 % 2 == 1,
        p.1 % 2 == 1,
    ensures
        turned(spec_instant_turn(id)->0, spec_turn_centre(rect), p).0 % 2 == 1,
        turned(spec_instant_turn(id)->0, spec_turn_centre(rect), p).1 % 2 == 1,
{
    let m = spec_instant_turn(id)->0;
    let c = spec_turn_centre(rect);
    assert((c.0 - c.1) % 2 == 0);
    let (x, y) = p;
    let t = turned(m, c, p);
    lemma_unit_times(m[0], x);
    lemma_unit_times(m[1], y);
    lemma_unit_times(m[0], c.0);
    lemma_unit_times(m[1], c.1);
    lemma_unit_times(m[2], x);
    lemma_unit_times(m[3], y);
    lemma_unit_times(m[2], c.0);
    lemma_unit_times(m[3], c.1);
    if id == "xf:rot180"@ {
        assert(m[0] == -1 && m[1] == 0 && m[2] == 0 && m[3] == -1);
        assert(t.0 == -x + 2 * c.0 && t.1 == -y + 2 * c.1);
    } else if id == "xf:rot90cw"@ {
        assert(m[0] == 0 && m[1] == -1 && m[2] == 1 && m[3] == 0);
        assert(t.0 == -y + c.0 + c.1 && t.1 == x + c.1 - c.0);
    } else if id == "xf:rot90ccw"@ {
        assert(m[0] == 0 && m[1] == 1 && m[2] == -1 && m[3] == 0);
        assert(t.0 == y + c.0 - c.1 && t.1 == -x + c.1 + c.0);
    } else if id == "xf:flip-h"@ {
        assert(m[0] == -1 && m[1] == 0 && m[2] == 0 && m[3] == 1);
        assert(t.0 == -x + 2 * c.0 && t.1 == y);
    } else {
        assert(m[0] == 1 && m[1] == 0 && m[2] == 0 && m[3] == -1);
        assert(t.0 == x && t.1 == -y + 2 * c.1);
    }
}

} // verus!

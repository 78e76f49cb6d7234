//! Placement parameters: corner anchors and the options that drive one
//! compositing operation.
//!
//! Fractional quantities (the logo-size fraction and the opacity) are held
//! in thousandths, so that the engine works on exact integers: a value of
//! 1000 stands for 1.0.

use vstd::prelude::*;

verus! {

/// Corner anchor for the logo's placement on the base raster.
#[derive(Clone, Copy, Debug, PartialEq, Eq, Structural)]
pub enum Position {
    TopLeft,
    TopRight,
    BottomLeft,
    BottomRight,
}

/// Options for one compositing operation.
///
/// `max_logo_per_mille` is the logo's target size as a fraction of the
/// base's shortest side, in thousandths; it is valid in (0, 1000].
/// `opacity_per_mille` is the logo's opacity in thousandths, valid in
/// [0, 1000].
#[derive(Clone, Copy, Debug)]
pub struct CompositeOptions {
    pub position: Position,
    pub margin: u32,
    pub max_logo_per_mille: u32,
    pub opacity_per_mille: u32,
}

/// Both fractional parameters lie in their documented ranges.
pub open spec fn params_valid(opts: CompositeOptions) -> bool {
    &&& 1 <= opts.max_logo_per_mille <= 1000
    &&& opts.opacity_per_mille <= 1000
}

/// Whether `c` is the character `lower` in either ASCII case.
pub open spec fn spec_char_ci(c: char, lower: char, upper: char) -> bool {
    c == lower || c == upper
}

/// The corner that a two-letter name selects, ASCII case-insensitively:
/// `tl`, `tr`, `bl` or `br`.
pub open spec fn spec_position_of(s: Seq<char>) -> Option<Position> {
    if s.len() != 2 {
        None
    } else if spec_char_ci(s[0], 't', 'T') && spec_char_ci(s[1], 'l', 'L') {
        Some(Position::TopLeft)
    } else if spec_char_ci(s[0], 't', 'T') && spec_char_ci(s[1], 'r', 'R') {
        Some(Position::TopRight)
    } else if spec_char_ci(s[0], 'b', 'B') && spec_char_ci(s[1], 'l', 'L') {
        Some(Position::BottomLeft)
    } else if spec_char_ci(s[0], 'b', 'B') && spec_char_ci(s[1], 'r', 'R') {
        Some(Position::BottomRight)
    } else {
        None
    }
}

fn char_ci(c: char, lower: char, upper: char) -> (r: bool)
    ensures
        r == spec_char_ci(c, lower, upper),
{
    c == lower || c == upper
}

/// Parses a corner name (`tl`, `tr`, `bl` or `br`, in any ASCII case).
pub fn parse_position(s: &str) -> (r: Option<Position>)
    ensures
        r == spec_position_of(s@),
{
    if s.unicode_len() != 2 {
        return None;
    }
    let c0 = s.get_char(0);
    let c1 = s.get_char(1);
    if char_ci(c0, 't', 'T') && char_ci(c1, 'l', 'L') {
        Some(Position::TopLeft)
    } else if char_ci(c0, 't', 'T') && char_ci(c1, 'r', 'R') {
        Some(Position::TopRight)
    } else if char_ci(c0, 'b', 'B') && char_ci(c1, 'l', 'L') {
        Some(Position::BottomLeft)
    } else if char_ci(c0, 'b', 'B') && char_ci(c1, 'r', 'R') {
        Some(Position::BottomRight)
    } else {
        None
    }
}

/// Default corner anchor used by configuration files.
pub fn default_position() -> (r: String)
    ensures
        r@ == "BottomRight"@,
{
    "BottomRight".to_owned()
}

/// Default margin, in pixels, used by configuration files.
pub fn default_margin() -> (r: u32)
    ensures
        r == 64,
{
    64
}

} // verus!

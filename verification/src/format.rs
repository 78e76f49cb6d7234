//! Choosing an output image format from a file extension. Callers that
//! write files extract the extension from the path and encode with the
//! format selected here, falling back to a lossless format when the
//! extension is not recognized.

use vstd::prelude::*;

use crate::params::spec_char_ci;

verus! {

/// The raster file formats the engine's callers can encode to.
#[derive(Clone, Copy, Debug, PartialEq, Eq, Structural)]
pub enum OutputFormat {
    Png,
    Jpeg,
}

/// The format a file extension names, ASCII case-insensitively:
/// `png`, `jpg` or `jpeg`.
pub open spec fn spec_format_of(s: Seq<char>) -> Option<OutputFormat> {
    if s.len() == 3 && spec_char_ci(s[0], 'p', 'P') && spec_char_ci(s[1], 'n', 'N')
        && spec_char_ci(s[2], 'g', 'G') {
        Some(OutputFormat::Png)
    } else if s.len() == 3 && spec_char_ci(s[0], 'j', 'J') && spec_char_ci(s[1], 'p', 'P')
        && spec_char_ci(s[2], 'g', 'G') {
        Some(OutputFormat::Jpeg)
    } else if s.len() == 4 && spec_char_ci(s[0], 'j', 'J') && spec_char_ci(s[1], 'p', 'P')
        && spec_char_ci(s[2], 'e', 'E') && spec_char_ci(s[3], 'g', 'G') {
        Some(OutputFormat::Jpeg)
    } else {
        None
    }
}

fn ext_char_ci(c: char, lower: char, upper: char) -> (r: bool)
    ensures
        r == spec_char_ci(c, lower, upper),
{
    c == lower || c == upper
}

/// Infers the output format from a file extension (`png`, `jpg` or
/// `jpeg`, in any ASCII case); any other extension is unrecognized.
pub fn infer_format_from_extension(ext: &str) -> (r: Option<OutputFormat>)
    ensures
        r == spec_format_of(ext@),
{
    let n = ext.unicode_len();
    if n == 3 {
        let c0 = ext.get_char(0);
        let c1 = ext.get_char(1);
        let c2 = ext.get_char(2);
        if ext_char_ci(c0, 'p', 'P') && ext_char_ci(c1, 'n', 'N') && ext_char_ci(c2, 'g', 'G') {
            Some(OutputFormat::Png)
        } else if ext_char_ci(c0, 'j', 'J') && ext_char_ci(c1, 'p', 'P') && ext_char_ci(
            c2,
            'g',
            'G',
        ) {
            Some(OutputFormat::Jpeg)
        } else {
            None
        }
    } else if n == 4 {
        let c0 = ext.get_char(0);
        let c1 = ext.get_char(1);
        let c2 = ext.get_char(2);
        let c3 = ext.get_char(3);
        if ext_char_ci(c0, 'j', 'J') && ext_char_ci(c1, 'p', 'P') && ext_char_ci(c2, 'e', 'E')
            && ext_char_ci(c3, 'g', 'G') {
            Some(OutputFormat::Jpeg)
        } else {
            None
        }
    } else {
        None
    }
}

} // verus!

use vstd::prelude::*;

verus! {

/// Which of a cell's two labels (its name and its weight) are shown.
#[derive(Clone, Copy, Debug, PartialEq, Eq, Structural)]
pub enum LabelFit {
    /// Both, on two lines.
    Both,
    /// The first label alone.
    First,
    /// The second label alone.
    Second,
    /// Neither.
    Neither,
}

/// The labels that fit a cell `w` wide and `h` tall, in text of size `font`.
///
/// Two lines need a height over `2 * font`, one line a height over `font`;
/// a label of `len` characters needs a width over `font * len / 2`. Both
/// labels are shown when they fit, else the first, else the second.
pub open spec fn label_fit(w: int, h: int, font: int, len1: int, len2: int) -> LabelFit {
    let two_lines = h > 2 * font;
    let one_line = h > font;
    let first = 2 * w > font * len1;
    let second = 2 * w > font * len2;
    if two_lines && first && second {
        LabelFit::Both
    } else if one_line && first {
        LabelFit::First
    } else if one_line && second {
        LabelFit::Second
    } else {
        LabelFit::Neither
    }
}

/// Decides which labels, of `len1` and `len2` characters, fit a cell `w`
/// wide and `h` tall in text of size `font`.
pub fn fit_labels(w: u32, h: u32, font: u32, len1: usize, len2: usize) -> (r: LabelFit)
    ensures
        r == label_fit(w as int, h as int, font as int, len1 as int, len2 as int),
{
    let two_lines = h as u64 > 2 * font as u64;
    let one_line = h > font;
    let first = fits_width(w, font, len1);
    let second = fits_width(w, font, len2);
    if two_lines && first && second {
        LabelFit::Both
    } else if one_line && first {
        LabelFit::First
    } else if one_line && second {
        LabelFit::Second
    } else {
        LabelFit::Neither
    }
}

fn fits_width(w: u32, font: u32, len: usize) -> (r: bool)
    ensures
        r == (2 * w > font * len),
{
    proof {
        assert(0 <= font * len <= u32::MAX * u64::MAX) by (nonlinear_arith)
            requires
                font <= u32::MAX,
                len <= u64::MAX,
        ;
    }
    2 * w as u128 > font as u128 * len as u128
}

} // verus!

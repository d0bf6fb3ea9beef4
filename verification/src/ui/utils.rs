//! Screen-layout arithmetic: centering a text line, a list, or a box
//! inside a rectangle of terminal cells.
use vstd::prelude::*;

verus! {

/// A rectangle of terminal cells.
#[derive(Clone, Copy, PartialEq, Eq, Structural, Debug)]
pub struct Rect {
    pub x: u16,
    pub y: u16,
    pub width: u16,
    pub height: u16,
}

/// The number of terminal cells a string occupies: its character count.
pub open spec fn cell_width(s: String) -> int {
    s@.len() as int
}

pub open spec fn umin(a: int, b: int) -> int {
    if a < b {
        a
    } else {
        b
    }
}

/// The widest entry of a list of lines, in cells.
pub open spec fn spec_max_width(l: Seq<String>) -> int
    decreases l.len(),
{
    if l.len() == 0 {
        0
    } else if cell_width(l.last()) > spec_max_width(l.drop_last()) {
        cell_width(l.last())
    } else {
        spec_max_width(l.drop_last())
    }
}

/// A one-line rectangle as wide as the message, centered in `rect`.
pub fn get_center_of_rect_for_text(rect: &Rect, message: &str) -> (r: Rect)
    requires
        rect.x + rect.width / 2 <= u16::MAX,
        rect.y + rect.height / 2 <= u16::MAX,
        message@.len() + 1 <= u16::MAX,
        (message@.len() + 1) / 2 <= rect.x + rect.width / 2,
    ensures
        r.x == rect.x + rect.width / 2 - (message@.len() + 1) / 2,
        r.y == rect.y + rect.height / 2,
        r.width == message@.len(),
        r.height == 1,
{
    let center_x = rect.width / 2;
    let center_y = rect.height / 2;
    let x = rect.x + center_x;
    let y = rect.y + center_y;
    let width = message.unicode_len() as u16;
    Rect { x: x - (width + 1) / 2, y, width, height: 1 }
}

fn max_cell_width(list: &Vec<String>) -> (m: usize)
    ensures
        m == spec_max_width(list@),
{
    let mut m: usize = 0;
    let mut i: usize = 0;
    while i < list.len()
        invariant
            0 <= i <= list@.len(),
            m == spec_max_width(list@.take(i as int)),
        decreases list@.len() - i,
    {
        let w = list[i].as_str().unicode_len();
        proof {
            assert(list@.take(i + 1 as int).drop_last() =~= list@.take(i as int));
            assert(list@.take(i + 1 as int).last() == list@[i as int]);
        }
        if w > m {
            m = w;
        }
        i += 1;
    }
    proof {
        assert(list@.take(list@.len() as int) =~= list@);
    }
    m
}

/// A rectangle sized for the list's entries (its widest line plus a margin
/// for the highlight symbol), centered in `rect`.
pub fn get_center_of_rect_for_list(rect: &Rect, list: &Vec<String>) -> (r: Rect)
    requires
        rect.x + rect.width / 2 <= u16::MAX,
        rect.y + rect.height / 2 <= u16::MAX,
        spec_max_width(list@) + 6 <= u16::MAX,
        list@.len() + 1 <= u16::MAX,
        (spec_max_width(list@) + 6) / 2 + 2 <= rect.x + rect.width / 2,
        (list@.len() + 1) / 2 <= rect.y + rect.height / 2,
    ensures
        r.x == rect.x + rect.width / 2 - (spec_max_width(list@) + 6) / 2 - 2,
        r.y == rect.y + rect.height / 2 - (list@.len() + 1) / 2,
        r.width == spec_max_width(list@) + 5,
        r.height == list@.len(),
{
    let center_x = rect.width / 2;
    let center_y = rect.height / 2;
    let x = rect.x + center_x;
    let y = rect.y + center_y;
    let width = max_cell_width(list) as u16 + 5;
    let height = list.len() as u16;
    Rect { x: x - (width + 1) / 2 - 2, y: y - (height + 1) / 2, width, height }
}

/// A rectangle of the wanted size, centered in `rect`, clipped so that its
/// offsets never leave the screen.
pub fn get_center_of_rect_for_rect(rect: &Rect, inner_rect_width: u16, inner_rect_height: u16) -> (
    r: Rect)
    requires
        rect.x + rect.width / 2 <= 32767,
        rect.y + rect.height / 2 <= 32767,
        inner_rect_width < u16::MAX,
        inner_rect_height < u16::MAX,
        rect.x + rect.width <= u16::MAX,
        rect.y + rect.height <= u16::MAX,
    ensures
        r.x == rect.x + rect.width / 2 - umin(inner_rect_width + 1, 2 * (rect.x + rect.width / 2))
            / 2,
        r.y == rect.y + rect.height / 2 - umin(
            inner_rect_height + 1,
            2 * (rect.y + rect.height / 2),
        ) / 2,
        r.width == umin(inner_rect_width as int, rect.x + rect.width),
        r.height == umin(inner_rect_height as int, rect.y + rect.height),
{
    let center_x = rect.width / 2;
    let center_y = rect.height / 2;
    let half_w = {
        let a = inner_rect_width + 1;
        let b = 2 * (rect.x + center_x);
        if a < b {
            a
        } else {
            b
        }
    };
    let half_h = {
        let a = inner_rect_height + 1;
        let b = 2 * (rect.y + center_y);
        if a < b {
            a
        } else {
            b
        }
    };
    let x = (rect.x + center_x) - half_w / 2;
    let y = (rect.y + center_y) - half_h / 2;
    let w = if inner_rect_width < rect.x + rect.width {
        inner_rect_width
    } else {
        rect.x + rect.width
    };
    let h = if inner_rect_height < rect.y + rect.height {
        inner_rect_height
    } else {
        rect.y + rect.height
    };
    Rect { x, y, width: w, height: h }
}

} // verus!

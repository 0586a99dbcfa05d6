//! What the user writes: the size of the grid, and the lists of seed
//! positions and seed colours.

use crate::grid::Rgb;
use crate::text::{number_in, parse_number, pieces, split, views, NumberError};
use vstd::prelude::*;

verus! {

/// The sign between the numbers of one item: `,`.
pub const VALUE_SEPARATOR: u8 = 44;

/// The sign between the items of a list: `:`.
pub const LIST_SEPARATOR: u8 = 58;

/// The sign between width and height: `x`.
pub const SIZE_SEPARATOR: u8 = 120;

/// Which number of the input is meant.
#[derive(Debug, Clone, Copy, PartialEq, Eq, Structural)]
pub enum Field {
    Width,
    Height,
    X,
    Y,
    Red,
    Green,
    Blue,
}

/// What is wrong with the input.
#[derive(Debug, Clone, Copy, PartialEq, Eq, Structural)]
pub enum InputError {
    /// The size is not two numbers with an `x` between them.
    SizeFormat,
    /// A position is not two numbers with a comma between them.
    PointFormat,
    /// A colour is not three numbers with commas between them.
    ColourFormat,
    /// One of the numbers cannot be read.
    Number(Field, NumberError),
    /// Positions are to be drawn at random, and the grid has no cell.
    EmptyGrid,
}

/// The number that `s` writes for `field`, or why it writes none.
pub open spec fn field_in(s: Seq<u8>, limit: nat, field: Field) -> Result<nat, InputError> {
    match number_in(s, limit) {
        Ok(n) => Ok(n),
        Err(e) => Err(InputError::Number(field, e)),
    }
}

/// The size that `text` writes: width, `x`, height.
pub open spec fn size_in(text: Seq<u8>) -> Result<(usize, usize), InputError> {
    let parts = pieces(text, SIZE_SEPARATOR);
    if parts.len() != 2 {
        Err(InputError::SizeFormat)
    } else {
        match field_in(parts[0], usize::MAX as nat, Field::Width) {
            Err(e) => Err(e),
            Ok(w) => match field_in(parts[1], usize::MAX as nat, Field::Height) {
                Err(e) => Err(e),
                Ok(h) => Ok((w as usize, h as usize)),
            },
        }
    }
}

/// The position that `item` writes: x, comma, y.
pub open spec fn position_in(item: Seq<u8>) -> Result<(usize, usize), InputError> {
    let parts = pieces(item, VALUE_SEPARATOR);
    if parts.len() != 2 {
        Err(InputError::PointFormat)
    } else {
        match field_in(parts[0], usize::MAX as nat, Field::X) {
            Err(e) => Err(e),
            Ok(x) => match field_in(parts[1], usize::MAX as nat, Field::Y) {
                Err(e) => Err(e),
                Ok(y) => Ok((x as usize, y as usize)),
            },
        }
    }
}

/// The colour that `item` writes: red, comma, green, comma, blue.
pub open spec fn colour_in(item: Seq<u8>) -> Result<Rgb, InputError> {
    let parts = pieces(item, VALUE_SEPARATOR);
    if parts.len() != 3 {
        Err(InputError::ColourFormat)
    } else {
        match field_in(parts[0], 255, Field::Red) {
            Err(e) => Err(e),
            Ok(r) => match field_in(parts[1], 255, Field::Green) {
                Err(e) => Err(e),
                Ok(g) => match field_in(parts[2], 255, Field::Blue) {
                    Err(e) => Err(e),
                    Ok(b) => Ok((r as u8, g as u8, b as u8)),
                },
            },
        }
    }
}

/// The positions that `items` write, or what is wrong with the first item
/// that writes none.
pub open spec fn positions_of(items: Seq<Seq<u8>>) -> Result<Seq<(usize, usize)>, InputError>
    decreases items.len(),
{
    if items.len() == 0 {
        Ok(Seq::empty())
    } else {
        match positions_of(items.drop_last()) {
            Err(e) => Err(e),
            Ok(before) => match position_in(items.last()) {
                Err(e) => Err(e),
                Ok(p) => Ok(before.push(p)),
            },
        }
    }
}

/// The colours that `items` write, or what is wrong with the first item
/// that writes none.
pub open spec fn colours_of(items: Seq<Seq<u8>>) -> Result<Seq<Rgb>, InputError>
    decreases items.len(),
{
    if items.len() == 0 {
        Ok(Seq::empty())
    } else {
        match colours_of(items.drop_last()) {
            Err(e) => Err(e),
            Ok(before) => match colour_in(items.last()) {
                Err(e) => Err(e),
                Ok(c) => Ok(before.push(c)),
            },
        }
    }
}

/// The positions that `text` lists, parted by colons. Empty text lists
/// none.
pub open spec fn positions_in(text: Seq<u8>) -> Result<Seq<(usize, usize)>, InputError> {
    if text.len() == 0 {
        Ok(Seq::empty())
    } else {
        positions_of(pieces(text, LIST_SEPARATOR))
    }
}

/// The colours that `text` lists, parted by colons. Empty text lists none.
pub open spec fn colours_in(text: Seq<u8>) -> Result<Seq<Rgb>, InputError> {
    if text.len() == 0 {
        Ok(Seq::empty())
    } else {
        colours_of(pieces(text, LIST_SEPARATOR))
    }
}

/// Reads one number of the input.
pub fn parse_field(text: &[u8], limit: usize, field: Field) -> (number: Result<usize, InputError>)
    ensures
        match number {
            Ok(n) => field_in(text@, limit as nat, field) == Ok::<nat, InputError>(n as nat),
            Err(e) => field_in(text@, limit as nat, field) == Err::<nat, InputError>(e),
        },
{
    match parse_number(text, limit) {
        Ok(n) => Ok(n),
        Err(e) => Err(InputError::Number(field, e)),
    }
}

/// Reads a size, written as width, `x`, height.
pub fn parse_size(text: &[u8]) -> (size: Result<(usize, usize), InputError>)
    ensures
        size == size_in(text@),
{
    let parts = split(text, SIZE_SEPARATOR);
    assert(parts@.len() == views(parts@).len());
    if parts.len() != 2 {
        return Err(InputError::SizeFormat);
    }
    assert(views(parts@)[0] == parts@[0]@ && views(parts@)[1] == parts@[1]@);
    let w = match parse_field(parts[0].as_slice(), usize::MAX, Field::Width) {
        Ok(w) => w,
        Err(e) => {
            return Err(e);
        },
    };
    let h = match parse_field(parts[1].as_slice(), usize::MAX, Field::Height) {
        Ok(h) => h,
        Err(e) => {
            return Err(e);
        },
    };
    Ok((w, h))
}

/// Reads a position, written as x, comma, y.
pub fn parse_position(item: &[u8]) -> (position: Result<(usize, usize), InputError>)
    ensures
        position == position_in(item@),
{
    let parts = split(item, VALUE_SEPARATOR);
    assert(parts@.len() == views(parts@).len());
    if parts.len() != 2 {
        return Err(InputError::PointFormat);
    }
    assert(views(parts@)[0] == parts@[0]@ && views(parts@)[1] == parts@[1]@);
    let x = match parse_field(parts[0].as_slice(), usize::MAX, Field::X) {
        Ok(x) => x,
        Err(e) => {
            return Err(e);
        },
    };
    let y = match parse_field(parts[1].as_slice(), usize::MAX, Field::Y) {
        Ok(y) => y,
        Err(e) => {
            return Err(e);
        },
    };
    Ok((x, y))
}

/// Reads a colour, written as red, comma, green, comma, blue.
pub fn parse_colour(item: &[u8]) -> (colour: Result<Rgb, InputError>)
    ensures
        colour == colour_in(item@),
{
    let parts = split(item, VALUE_SEPARATOR);
    assert(parts@.len() == views(parts@).len());
    if parts.len() != 3 {
        return Err(InputError::ColourFormat);
    }
    assert(views(parts@)[0] == parts@[0]@ && views(parts@)[1] == parts@[1]@ && views(parts@)[2]
        == parts@[2]@);
    let r = match parse_field(parts[0].as_slice(), 255, Field::Red) {
        Ok(r) => r,
        Err(e) => {
            return Err(e);
        },
    };
    let g = match parse_field(parts[1].as_slice(), 255, Field::Green) {
        Ok(g) => g,
        Err(e) => {
            return Err(e);
        },
    };
    let b = match parse_field(parts[2].as_slice(), 255, Field::Blue) {
        Ok(b) => b,
        Err(e) => {
            return Err(e);
        },
    };
    Ok((r as u8, g as u8, b as u8))
}

/// Reads a list of positions, parted by colons.
pub fn parse_positions(text: &[u8]) -> (positions: Result<Vec<(usize, usize)>, InputError>)
    ensures
        match positions {
            Ok(list) => positions_in(text@) == Ok::<Seq<(usize, usize)>, InputError>(list@),
            Err(e) => positions_in(text@) == Err::<Seq<(usize, usize)>, InputError>(e),
        },
{
    let mut list: Vec<(usize, usize)> = Vec::new();
    if text.len() == 0 {
        return Ok(list);
    }
    let items = split(text, LIST_SEPARATOR);
    let ghost all = pieces(text@, LIST_SEPARATOR);
    assert(items@.len() == all.len());
    let mut i: usize = 0;
    while i < items.len()
        invariant
            i <= items.len(),
            text@.len() > 0,
            all == pieces(text@, LIST_SEPARATOR),
            views(items@) == all,
            positions_of(all.subrange(0, i as int)) == Ok::<Seq<(usize, usize)>, InputError>(
                list@,
            ),
        decreases items.len() - i,
    {
        let ghost longer = all.subrange(0, i + 1);
        proof {
            assert(longer.drop_last() == all.subrange(0, i as int));
            assert(longer.last() == items@[i as int]@);
        }
        match parse_position(items[i].as_slice()) {
            Ok(p) => {
                list.push(p);
            },
            Err(e) => {
                proof {
                    lemma_positions_fail(all, i + 1);
                }
                return Err(e);
            },
        }
        i = i + 1;
    }
    assert(all.subrange(0, i as int) == all);
    Ok(list)
}

/// Reads a list of colours, parted by colons.
pub fn parse_colours(text: &[u8]) -> (colours: Result<Vec<Rgb>, InputError>)
    ensures
        match colours {
            Ok(list) => colours_in(text@) == Ok::<Seq<Rgb>, InputError>(list@),
            Err(e) => colours_in(text@) == Err::<Seq<Rgb>, InputError>(e),
        },
{
    let mut list: Vec<Rgb> = Vec::new();
    if text.len() == 0 {
        return Ok(list);
    }
    let items = split(text, LIST_SEPARATOR);
    let ghost all = pieces(text@, LIST_SEPARATOR);
    assert(items@.len() == all.len());
    let mut i: usize = 0;
    while i < items.len()
        invariant
            i <= items.len(),
            text@.len() > 0,
            all == pieces(text@, LIST_SEPARATOR),
            views(items@) == all,
            colours_of(all.subrange(0, i as int)) == Ok::<Seq<Rgb>, InputError>(list@),
        decreases items.len() - i,
    {
        let ghost longer = all.subrange(0, i + 1);
        proof {
            assert(longer.drop_last() == all.subrange(0, i as int));
            assert(longer.last() == items@[i as int]@);
        }
        match parse_colour(items[i].as_slice()) {
            Ok(c) => {
                list.push(c);
            },
            Err(e) => {
                proof {
                    lemma_colours_fail(all, i + 1);
                }
                return Err(e);
            },
        }
        i = i + 1;
    }
    assert(all.subrange(0, i as int) == all);
    Ok(list)
}

/// An error among the first items is the error of the whole list.
proof fn lemma_positions_fail(items: Seq<Seq<u8>>, n: int)
    requires
        0 <= n <= items.len(),
        positions_of(items.subrange(0, n)) is Err,
    ensures
        positions_of(items) == positions_of(items.subrange(0, n)),
    decreases items.len() - n,
{
    if n < items.len() {
        let longer = items.subrange(0, n + 1);
        assert(longer.drop_last() == items.subrange(0, n));
        lemma_positions_fail(items, n + 1);
    } else {
        assert(items.subrange(0, n) == items);
    }
}

/// An error among the first items is the error of the whole list.
proof fn lemma_colours_fail(items: Seq<Seq<u8>>, n: int)
    requires
        0 <= n <= items.len(),
        colours_of(items.subrange(0, n)) is Err,
    ensures
        colours_of(items) == colours_of(items.subrange(0, n)),
    decreases items.len() - n,
{
    if n < items.len() {
        let longer = items.subrange(0, n + 1);
        assert(longer.drop_last() == items.subrange(0, n));
        lemma_colours_fail(items, n + 1);
    } else {
        assert(items.subrange(0, n) == items);
    }
}

} // verus!

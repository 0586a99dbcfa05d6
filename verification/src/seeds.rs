//! The seeds of a growth: the positions and colours that the user lists,
//! filled up with positions and colours of the library's own choosing.

use crate::grid::Rgb;
use crate::input::{colours_in, parse_colours, parse_positions, positions_in, InputError};
use crate::point::Point;
use crate::random::draw_below;
use rand::rngs::StdRng;
use vstd::prelude::*;

verus! {

/// The colour that fills up a list of colours: its last one, and black for
/// an empty list.
pub open spec fn last_colour(colours: Seq<Rgb>) -> Rgb {
    if colours.len() == 0 {
        (0u8, 0u8, 0u8)
    } else {
        colours.last()
    }
}

/// How many seeds come of `given` positions where `number` are asked for:
/// the larger of the two, and one where both are zero.
pub open spec fn seed_count(given: nat, number: nat) -> nat {
    if number == 0 && given == 0 {
        1
    } else if given < number {
        number
    } else {
        given
    }
}

/// Whether `points` are seeds made of `positions` and `colours`. The given
/// positions come first; where none is given and none asked for, the one
/// seed lies in the middle of the grid; positions that were drawn lie in
/// the grid. The given colours come first; the others are drawn, with
/// every channel below 255, or repeat the last given colour.
pub open spec fn seeded(
    w: usize,
    h: usize,
    number: usize,
    positions: Seq<(usize, usize)>,
    colours: Seq<Rgb>,
    randomise_colours: bool,
    points: Seq<Point>,
) -> bool {
    &&& points.len() == seed_count(positions.len(), number as nat)
    &&& forall|i: int|
        0 <= i < points.len() ==> if i < positions.len() {
            (#[trigger] points[i]).x == positions[i].0 && points[i].y == positions[i].1
        } else if number == 0 {
            points[i].x == w / 2 && points[i].y == h / 2
        } else {
            points[i].x < w && points[i].y < h
        }
    &&& forall|i: int|
        0 <= i < points.len() ==> if i < colours.len() {
            ((#[trigger] points[i]).r, points[i].g, points[i].b) == colours[i]
        } else if randomise_colours {
            points[i].r < 255 && points[i].g < 255 && points[i].b < 255
        } else {
            (points[i].r, points[i].g, points[i].b) == last_colour(colours)
        }
}

/// Makes seeds of the given positions and colours. Where fewer positions
/// are given than `number`, the missing ones are drawn in the grid; where
/// none is given and none asked for, one seed is put in the middle of the
/// grid. Where fewer colours are given than there are positions, the
/// missing ones are drawn or repeat the last one.
pub fn place_seeds(
    rng: &mut StdRng,
    w: usize,
    h: usize,
    number: usize,
    positions: Vec<(usize, usize)>,
    colours: Vec<Rgb>,
    randomise_colours: bool,
) -> (seeds: Result<Vec<Point>, InputError>)
    ensures
        match seeds {
            Ok(points) => {
                &&& !(positions@.len() < number && (w == 0 || h == 0))
                &&& seeded(w, h, number, positions@, colours@, randomise_colours, points@)
            },
            Err(e) => e == InputError::EmptyGrid && positions@.len() < number && (w == 0 || h
                == 0),
        },
{
    let ghost given = positions@;
    let ghost given_colours = colours@;
    let mut positions = positions;
    let mut colours = colours;
    if number == 0 && positions.len() == 0 {
        positions.push((w / 2, h / 2));
    } else if positions.len() < number {
        if w == 0 || h == 0 {
            return Err(InputError::EmptyGrid);
        }
        while positions.len() < number
            invariant
                w > 0,
                h > 0,
                given.len() <= positions@.len() <= number,
                forall|i: int| 0 <= i < given.len() ==> positions@[i] == given[i],
                forall|i: int|
                    given.len() <= i < positions@.len() ==> (#[trigger] positions@[i]).0 < w
                        && positions@[i].1 < h,
            decreases number - positions.len(),
        {
            let x = draw_below(rng, w as u64) as usize;
            let y = draw_below(rng, h as u64) as usize;
            positions.push((x, y));
        }
    }
    let last: Rgb = if colours.len() == 0 {
        (0, 0, 0)
    } else {
        colours[colours.len() - 1]
    };
    while colours.len() < positions.len()
        invariant
            last == last_colour(given_colours),
            given_colours.len() <= colours@.len(),
            forall|i: int| 0 <= i < given_colours.len() ==> colours@[i] == given_colours[i],
            forall|i: int|
                given_colours.len() <= i < colours@.len() ==> if randomise_colours {
                    (#[trigger] colours@[i]).0 < 255 && colours@[i].1 < 255 && colours@[i].2 < 255
                } else {
                    colours@[i] == last
                },
        decreases positions.len() - colours.len(),
    {
        if randomise_colours {
            let r = draw_below(rng, 255) as u8;
            let g = draw_below(rng, 255) as u8;
            let b = draw_below(rng, 255) as u8;
            colours.push((r, g, b));
        } else {
            colours.push(last);
        }
    }
    let mut points: Vec<Point> = Vec::new();
    let mut i: usize = 0;
    while i < positions.len()
        invariant
            i <= positions.len() <= colours.len(),
            points@.len() == i,
            forall|j: int|
                0 <= j < i ==> (#[trigger] points@[j]) == (Point {
                    r: colours@[j].0,
                    g: colours@[j].1,
                    b: colours@[j].2,
                    x: positions@[j].0,
                    y: positions@[j].1,
                }),
        decreases positions.len() - i,
    {
        let (x, y) = positions[i];
        let (r, g, b) = colours[i];
        points.push(Point { r, g, b, x, y });
        i = i + 1;
    }
    Ok(points)
}

/// Reads the lists of positions and of colours and makes seeds of them, as
/// `place_seeds` does. A list that cannot be read is rejected, the
/// positions before the colours.
pub fn parse_points(
    rng: &mut StdRng,
    w: usize,
    h: usize,
    number: usize,
    positions: &[u8],
    colours: &[u8],
    randomise_colours: bool,
) -> (seeds: Result<Vec<Point>, InputError>)
    ensures
        match seeds {
            Ok(points) => {
                &&& positions_in(positions@) is Ok
                &&& colours_in(colours@) is Ok
                &&& !(positions_in(positions@)->Ok_0.len() < number && (w == 0 || h == 0))
                &&& seeded(
                    w,
                    h,
                    number,
                    positions_in(positions@)->Ok_0,
                    colours_in(colours@)->Ok_0,
                    randomise_colours,
                    points@,
                )
            },
            Err(e) => match positions_in(positions@) {
                Err(bad) => e == bad,
                Ok(list) => match colours_in(colours@) {
                    Err(bad) => e == bad,
                    Ok(_) => e == InputError::EmptyGrid && list.len() < number && (w == 0 || h
                        == 0),
                },
            },
        },
{
    let positions = match parse_positions(positions) {
        Ok(list) => list,
        Err(e) => {
            return Err(e);
        },
    };
    let colours = match parse_colours(colours) {
        Ok(list) => list,
        Err(e) => {
            return Err(e);
        },
    };
    place_seeds(rng, w, h, number, positions, colours, randomise_colours)
}

} // verus!

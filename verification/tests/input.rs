use fondo::input::{
    parse_colour, parse_colours, parse_field, parse_position, parse_positions, parse_size, Field,
    InputError,
};
use fondo::text::NumberError;

#[test]
fn parse_size_reads_width_and_height() {
    assert_eq!(parse_size(b"500x500"), Ok((500, 500)));
    assert_eq!(parse_size(b"4x3"), Ok((4, 3)));
    assert_eq!(parse_size(b"0x0"), Ok((0, 0)));
    assert_eq!(parse_size(b"+1x+2"), Ok((1, 2)));
}

#[test]
fn parse_size_rejects_other_shapes() {
    assert_eq!(parse_size(b""), Err(InputError::SizeFormat));
    assert_eq!(parse_size(b"500"), Err(InputError::SizeFormat));
    assert_eq!(parse_size(b"1x2x3"), Err(InputError::SizeFormat));
    assert_eq!(parse_size(b"1X2"), Err(InputError::SizeFormat));
    assert_eq!(parse_size(b"1,2"), Err(InputError::SizeFormat));
}

#[test]
fn parse_size_names_the_number_that_is_wrong() {
    assert_eq!(parse_size(b"x"), Err(InputError::Number(Field::Width, NumberError::Empty)));
    assert_eq!(parse_size(b"x5"), Err(InputError::Number(Field::Width, NumberError::Empty)));
    assert_eq!(parse_size(b"5x"), Err(InputError::Number(Field::Height, NumberError::Empty)));
    assert_eq!(
        parse_size(b"ax5"),
        Err(InputError::Number(Field::Width, NumberError::InvalidDigit))
    );
    assert_eq!(
        parse_size(b"5x-5"),
        Err(InputError::Number(Field::Height, NumberError::InvalidDigit))
    );
    assert_eq!(
        parse_size(b"99999999999999999999999x5"),
        Err(InputError::Number(Field::Width, NumberError::TooLarge))
    );
    assert_eq!(
        parse_size(b"ax99999999999999999999999"),
        Err(InputError::Number(Field::Width, NumberError::InvalidDigit))
    );
}

#[test]
fn parse_field_names_the_field() {
    assert_eq!(parse_field(b"12", 255, Field::Red), Ok(12));
    assert_eq!(
        parse_field(b"256", 255, Field::Green),
        Err(InputError::Number(Field::Green, NumberError::TooLarge))
    );
    assert_eq!(
        parse_field(b"", 255, Field::Blue),
        Err(InputError::Number(Field::Blue, NumberError::Empty))
    );
}

#[test]
fn parse_position_reads_x_and_y() {
    assert_eq!(parse_position(b"1,2"), Ok((1, 2)));
    assert_eq!(parse_position(b"0,0"), Ok((0, 0)));
    assert_eq!(parse_position(b"250,3"), Ok((250, 3)));
}

#[test]
fn parse_position_rejects_other_shapes() {
    assert_eq!(parse_position(b""), Err(InputError::PointFormat));
    assert_eq!(parse_position(b"1"), Err(InputError::PointFormat));
    assert_eq!(parse_position(b"1,2,3"), Err(InputError::PointFormat));
    assert_eq!(parse_position(b","), Err(InputError::Number(Field::X, NumberError::Empty)));
    assert_eq!(parse_position(b"1,"), Err(InputError::Number(Field::Y, NumberError::Empty)));
    assert_eq!(
        parse_position(b"a,b"),
        Err(InputError::Number(Field::X, NumberError::InvalidDigit))
    );
    assert_eq!(
        parse_position(b"1, 2"),
        Err(InputError::Number(Field::Y, NumberError::InvalidDigit))
    );
}

#[test]
fn parse_colour_reads_three_channels() {
    assert_eq!(parse_colour(b"1,2,3"), Ok((1, 2, 3)));
    assert_eq!(parse_colour(b"255,0,255"), Ok((255, 0, 255)));
}

#[test]
fn parse_colour_rejects_other_shapes() {
    assert_eq!(parse_colour(b""), Err(InputError::ColourFormat));
    assert_eq!(parse_colour(b"1,2"), Err(InputError::ColourFormat));
    assert_eq!(parse_colour(b"1,2,3,4"), Err(InputError::ColourFormat));
    assert_eq!(
        parse_colour(b"256,0,0"),
        Err(InputError::Number(Field::Red, NumberError::TooLarge))
    );
    assert_eq!(
        parse_colour(b"0,x,0"),
        Err(InputError::Number(Field::Green, NumberError::InvalidDigit))
    );
    assert_eq!(parse_colour(b"0,0,"), Err(InputError::Number(Field::Blue, NumberError::Empty)));
    assert_eq!(
        parse_colour(b"300,x,"),
        Err(InputError::Number(Field::Red, NumberError::TooLarge))
    );
}

#[test]
fn parse_positions_reads_a_list() {
    assert_eq!(parse_positions(b""), Ok(vec![]));
    assert_eq!(parse_positions(b"1,2"), Ok(vec![(1, 2)]));
    assert_eq!(parse_positions(b"1,2:3,4:5,6"), Ok(vec![(1, 2), (3, 4), (5, 6)]));
    assert_eq!(parse_positions(b"1,2:1,2"), Ok(vec![(1, 2), (1, 2)]));
}

#[test]
fn parse_positions_gives_the_first_error() {
    assert_eq!(parse_positions(b":"), Err(InputError::PointFormat));
    assert_eq!(parse_positions(b"1,2:"), Err(InputError::PointFormat));
    assert_eq!(parse_positions(b"1,2:3"), Err(InputError::PointFormat));
    assert_eq!(
        parse_positions(b"1,2:a,4:5"),
        Err(InputError::Number(Field::X, NumberError::InvalidDigit))
    );
    assert_eq!(parse_positions(b"1:a,4"), Err(InputError::PointFormat));
    assert_eq!(
        parse_positions(b"1,:2"),
        Err(InputError::Number(Field::Y, NumberError::Empty))
    );
}

#[test]
fn parse_colours_reads_a_list() {
    assert_eq!(parse_colours(b""), Ok(vec![]));
    assert_eq!(parse_colours(b"1,2,3"), Ok(vec![(1, 2, 3)]));
    assert_eq!(parse_colours(b"1,2,3:4,5,6"), Ok(vec![(1, 2, 3), (4, 5, 6)]));
}

#[test]
fn parse_colours_gives_the_first_error() {
    assert_eq!(parse_colours(b"1,2,3:"), Err(InputError::ColourFormat));
    assert_eq!(parse_colours(b"1,2:1,2,3"), Err(InputError::ColourFormat));
    assert_eq!(
        parse_colours(b"1,2,3:4,5,600:7"),
        Err(InputError::Number(Field::Blue, NumberError::TooLarge))
    );
}

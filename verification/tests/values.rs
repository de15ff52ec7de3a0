use rslogo::error::{ErrorKind, LocError};
use rslogo::text::{integer_text, natural_text, parse_i32, parse_up_to};
use rslogo::turtle::{PenState, Turtle};

#[test]
fn whole_numbers_are_read_as_parse_reads_them() {
    let texts = [
        "0", "7", "-7", "+7", "007", "-0", "+0", "2147483647", "2147483648", "-2147483648",
        "-2147483649", "00000000000000000000002147483647", "99999999999999999999", "", "+", "-",
        "+-1", "--1", "1 ", " 1", "1.0", "1e3", "0x10", "1_000", "٣", "12a", "a12",
    ];
    for text in texts {
        assert_eq!(parse_i32(text), text.parse::<i32>().ok(), "{:?}", text);
    }
    assert_eq!(parse_i32("-120"), Some(-120));
    assert_eq!(parse_i32("+2147483647"), Some(i32::MAX));
    assert_eq!(parse_i32("twelve"), None);
}

#[test]
fn natural_numbers_are_read_up_to_a_bound() {
    let texts = [
        "0", "7", "16", "17", "+16", "016", "-0", "-1", "", "+", "1.0", "99999999999999999999999",
        "1 ", "٣",
    ];
    for text in texts {
        let expected = text.parse::<usize>().ok().filter(|n| *n <= 16);
        assert_eq!(parse_up_to(text, 16), expected, "{:?}", text);
    }
    assert_eq!(parse_up_to("16", 16), Some(16));
    assert_eq!(parse_up_to("17", 16), None);
    assert_eq!(parse_up_to("4294967295", u32::MAX), Some(4294967295));
    assert_eq!(parse_up_to("4294967296", u32::MAX), None);
    assert_eq!(parse_up_to("0", 0), Some(0));
    assert_eq!(parse_up_to("1", 0), None);
}

#[test]
fn whole_numbers_are_written_as_to_string_writes_them() {
    for n in [0, 1, 9, 10, 11, 99, 100, 101, 360, -1, -10, -360, i32::MAX, i32::MIN] {
        assert_eq!(integer_text(n), n.to_string());
    }
    for n in [0usize, 1, 9, 10, 16, 100, 1234567890, 4294967295] {
        assert_eq!(natural_text(n), n.to_string());
    }
    assert_eq!(integer_text(-2147483648), "-2147483648");
    assert_eq!(natural_text(7), "7");
}

#[test]
fn written_numbers_read_back() {
    for n in [0, 5, -5, 16, 4096, -4096, i32::MAX, i32::MIN] {
        assert_eq!(parse_i32(&integer_text(n)), Some(n));
    }
    for n in 0..=16usize {
        assert_eq!(parse_up_to(&natural_text(n), 16), Some(n));
    }
}

#[test]
fn a_new_turtle_points_up_with_a_white_pen_raised() {
    let pet = Turtle::new(("50".to_string(), "60.5".to_string()));
    assert_eq!(pet.coords, ("50".to_string(), "60.5".to_string()));
    assert_eq!(pet.colour, 7);
    assert_eq!(pet.pen_state, PenState::Up);
    assert_eq!(pet.heading, 0);
}

#[test]
fn turtle_changes_one_thing_at_a_time() {
    let mut pet = Turtle::new(("50".to_string(), "60".to_string()));
    pet.change_penstate(PenState::Down);
    assert_eq!(pet.pen_state, PenState::Down);
    pet.change_colour(16);
    assert_eq!(pet.colour, 16);
    pet.change_x("1.5".to_string());
    assert_eq!(pet.coords, ("1.5".to_string(), "60".to_string()));
    pet.change_y("-2".to_string());
    assert_eq!(pet.coords, ("1.5".to_string(), "-2".to_string()));
    pet.change_heading(45);
    assert_eq!(pet.heading, 45);
    pet.turn(-100);
    assert_eq!(pet.heading, -55);
    pet.turn(415);
    assert_eq!(pet.heading, 360);
    assert_eq!(pet.pen_state, PenState::Down);
    assert_eq!(pet.colour, 16);
    assert_eq!(pet.coords, ("1.5".to_string(), "-2".to_string()));
}

#[test]
fn direction_is_heading_plus_offset() {
    let mut pet = Turtle::new(("0".to_string(), "0".to_string()));
    assert_eq!(pet.direction(0), Some(0));
    assert_eq!(pet.direction(270), Some(270));
    pet.change_heading(350);
    assert_eq!(pet.direction(90), Some(440));
    pet.change_heading(-100);
    assert_eq!(pet.direction(90), Some(-10));
    pet.change_heading(i32::MAX - 90);
    assert_eq!(pet.direction(90), Some(i32::MAX));
    assert_eq!(pet.direction(180), None);
}

#[test]
fn every_error_has_its_words() {
    let words = [
        (ErrorKind::InvalidArgumentCount, "Incorrect num arguments"),
        (ErrorKind::MalformedBlock, "Missing ["),
        (ErrorKind::UndefinedVariable, "Variable not found"),
        (ErrorKind::InvalidToken, "Invalid token given"),
        (ErrorKind::MalformedExpression, "Invalid expression"),
        (ErrorKind::NotANumber, "Couldnt convert arguments to numbers"),
        (ErrorKind::NotABoolean, "Not a bool"),
        (ErrorKind::DivisionByZero, "Attemping to divide by 0! Naughty..."),
        (
            ErrorKind::InvalidColor,
            "Invalid colour, colour must be an integer between 0 and 16",
        ),
        (ErrorKind::InvalidValue, "Unable to convert to a float!"),
        (ErrorKind::UnterminatedBlock, "No end of conditional!"),
        (ErrorKind::UnterminatedProcedure, "No end to procedure!"),
        (ErrorKind::UndefinedProcedure, "No function with that name found"),
        (ErrorKind::MissingArgument, "Missing procedure argument"),
        (ErrorKind::UnbalancedControlFlow, "Stack not empty at end of program"),
        (ErrorKind::SurplusProcedureStart, "too many toos, not enough ends"),
        (ErrorKind::SurplusProcedureEnd, "too many ends, not enough toos"),
    ];
    for (kind, text) in words {
        assert_eq!(kind.message(), text);
    }
}

#[test]
fn an_error_names_its_line() {
    let error = LocError::new(ErrorKind::NotANumber, 12);
    assert_eq!(error.kind, ErrorKind::NotANumber);
    assert_eq!(error.location, 12);
    assert_eq!(error.kind.message(), "Couldnt convert arguments to numbers");
}

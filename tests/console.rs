use sandbox_core::console::{
    fields_of_lowered, id_error_message, parse_id, position_fields, position_from_values,
    split_commas, strip_of, CoordinateError, Position, PositionFields, Strip,
};
use sandbox_core::game::GameItemId;

fn coordinates(fields: &[&str]) -> PositionFields {
    PositionFields::Coordinates(fields.iter().map(|f| f.chars().collect()).collect())
}

fn read(input: &str) -> Result<Position<f32>, CoordinateError> {
    match position_fields(input) {
        PositionFields::Player => Ok(Position::Player),
        PositionFields::Coordinates(fields) => {
            let values: Vec<Option<f32>> = fields
                .iter()
                .map(|f| f.iter().collect::<String>().parse::<f32>().ok())
                .collect();
            position_from_values(&values, 0.0)
        }
    }
}

#[test]
fn player_position_is_trimmed_and_case_insensitive() {
    assert_eq!(position_fields("@p"), PositionFields::Player);
    assert_eq!(position_fields("  (@P)  "), PositionFields::Player);
    assert_eq!(position_fields("((@p))"), PositionFields::Player);
}

#[test]
fn coordinates_are_cut_at_commas() {
    assert_eq!(position_fields("(1,2,3)"), coordinates(&["1", "2", "3"]));
    assert_eq!(position_fields(" 1,2, "), coordinates(&["1", "2"]));
    assert_eq!(position_fields("1,2, "), coordinates(&["1", "2"]));
    assert_eq!(position_fields("(1, 2)"), coordinates(&["1", " 2"]));
    assert_eq!(position_fields("1,2,"), coordinates(&["1", "2"]));
    assert_eq!(position_fields(""), coordinates(&[]));
    assert_eq!(position_fields("a,,b"), coordinates(&["a", "", "b"]));
    assert_eq!(position_fields("INF,1"), coordinates(&["inf", "1"]));
}

#[test]
fn two_coordinates_lie_on_the_ground() {
    assert_eq!(read("(3,4)"), Ok(Position::Custom(3.0, 0.0, 4.0)));
    assert_eq!(read("1.5,2,-3"), Ok(Position::Custom(1.5, 2.0, -3.0)));
    assert_eq!(read("1,2,3,4"), Ok(Position::Custom(1.0, 2.0, 3.0)));
    assert_eq!(read("@p"), Ok(Position::Player));
}

#[test]
fn each_bad_coordinate_is_named() {
    assert_eq!(read("x,1"), Err(CoordinateError::X));
    assert_eq!(read(""), Err(CoordinateError::X));
    assert_eq!(read("1"), Err(CoordinateError::YOrZ));
    assert_eq!(read("1,y"), Err(CoordinateError::YOrZ));
    assert_eq!(read("1,2,z"), Err(CoordinateError::Z));
}

#[test]
fn coordinate_errors_name_the_field_and_the_forms() {
    let forms = "Supported values are (@p), (x,z), (x,y,z).";
    assert_eq!(
        CoordinateError::X.message(),
        format!("Cannot parse X coordinate. {}", forms)
    );
    assert_eq!(
        CoordinateError::YOrZ.message(),
        format!("Cannot parse Y/Z coordinate. {}", forms)
    );
    assert_eq!(
        CoordinateError::Z.message(),
        format!("Cannot parse Z coordinate. {}", forms)
    );
}

#[test]
fn position_from_values_uses_zero_for_height() {
    assert_eq!(
        position_from_values(&vec![Some(1i32), Some(2)], 0),
        Ok(Position::Custom(1, 0, 2))
    );
    assert_eq!(position_from_values::<i32>(&vec![], 0), Err(CoordinateError::X));
    assert_eq!(
        position_from_values(&vec![Some(1i32), Some(2), None], 0),
        Err(CoordinateError::Z)
    );
}

#[test]
fn parentheses_are_stripped_from_both_ends_only() {
    assert_eq!(strip_of(Strip::Parens, "((1,2))"), "1,2");
    assert_eq!(strip_of(Strip::Parens, "(1)(2)"), "1)(2");
    assert_eq!(strip_of(Strip::Parens, "()"), "");
    assert_eq!(strip_of(Strip::Parens, "abc"), "abc");
}

#[test]
fn whitespace_is_stripped_from_both_ends_only() {
    assert_eq!(strip_of(Strip::Whitespace, " \t1, 2\n"), "1, 2");
    assert_eq!(strip_of(Strip::Whitespace, "\u{3000}x\u{a0}\u{2028}"), "x");
    assert_eq!(strip_of(Strip::Whitespace, "   "), "");
    assert_eq!(strip_of(Strip::Whitespace, "a\u{200b}"), "a\u{200b}");
    assert_eq!(position_fields("\u{3000}(@P)\u{85}"), PositionFields::Player);
}

#[test]
fn lowered_text_reads_at_p_only_exactly() {
    assert_eq!(fields_of_lowered("@p"), PositionFields::Player);
    assert_eq!(fields_of_lowered("@P"), coordinates(&["@P"]));
    assert_eq!(split_commas(","), vec![Vec::<char>::new()]);
}

#[test]
fn unknown_ids_get_a_reply() {
    assert_eq!(id_error_message("Ghost"), "Cannot parse id 'Ghost'");
    assert_eq!(parse_id::<GameItemId>("Ghost"), Err("Cannot parse id 'Ghost'".to_string()));
    assert_eq!(parse_id::<GameItemId>("longsword"), Ok(GameItemId::LongSword));
}

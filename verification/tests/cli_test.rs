use ptero::cli::capacity::GetCapacityCommand;
use ptero::cli::decoder::DecodeSubCommand;

#[test]
fn returns_capacity_for_given_method() {
    let cover_input = "a b c ".repeat(2);

    let command = GetCapacityCommand {
        cover: "stub".into(),
        pivot: 3,
        eluv: false,
        extended_line: true,
    };

    let result = command.get_cover_text_capacity(&cover_input);
    assert_eq!(result.ok(), Some(6 as u32));
}

#[test]
fn decodes_zeroes_if_not_data_encoded_extended_line() {
    let stego_input = "a b";

    let command = DecodeSubCommand {
        text: "stub".into(),
        pivot: 3,
        eluv: false,
        extended_line: true,
        set: None,
        variant: 1,
    };

    let result = command.do_decode(stego_input);
    assert_eq!(result.ok(), Some(vec![0]));
}

#[test]
fn decodes_zeroes_if_not_data_encoded_eluv() {
    let stego_input = "a b";

    let command = DecodeSubCommand {
        text: "stub".into(),
        pivot: 3,
        eluv: true,
        extended_line: false,
        set: None,
        variant: 1,
    };

    let result = command.do_decode(stego_input);
    assert_eq!(result.ok(), Some(vec![0]));
}

#[test]
fn decoding_with_an_invalid_variant_reports_it() {
    let command = DecodeSubCommand {
        text: "stub".into(),
        pivot: 3,
        eluv: true,
        extended_line: false,
        set: None,
        variant: 9,
    };
    match command.do_decode("a b") {
        Err(ptero::encoder::MethodError::Variant(e)) => {
            assert_eq!(e.message(), "Invalid variant equal to 9 has been provided");
        }
        _ => panic!("expected the invalid variant error"),
    }
}

#[test]
fn capacity_with_a_pivot_beyond_the_text_reports_it() {
    let command = GetCapacityCommand { cover: "stub".into(), pivot: 5, eluv: false, extended_line: true };
    match command.get_cover_text_capacity("a b") {
        Err(e) => assert_eq!(e.message(), "Pivot is greater than the cover text length."),
        Ok(_) => panic!("expected the pivot error"),
    }
    match command.get_cover_text_capacity("") {
        Err(e) => assert_eq!(e.message(), "Pivot is greater than the cover text length."),
        Ok(_) => panic!("expected the pivot error"),
    }
}

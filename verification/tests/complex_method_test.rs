use ptero::binary::BitIterator;
use ptero::context::{PivotByLineContext, PivotByRawLineContext};
use ptero::method::complex::eluv::{ELUVMethod, ELUVMethodBuilder, ELUVMethodVariant};
use ptero::method::complex::extended_line::{
    ExtendedLineMethod, ExtendedLineMethodBuilder, ExtendedLineMethodVariant,
};
use ptero::cli::progress::ProgressStatus;
use ptero::method::Method;

#[test]
fn eluv_encodes_text_data() {
    let cover_input = "a b c ".repeat(5);
    let data_input = "abc";
    let pivot: usize = 3;

    let mut data_iterator = BitIterator::new(data_input.as_bytes());
    let method = ELUVMethod::default();
    let mut context = PivotByLineContext::new(&cover_input, pivot);
    let stego_text = method.encode(&mut context, &mut data_iterator).unwrap();

    assert_eq!(
        &stego_text,
        "a b c\u{2028}\na  b\u{2062}\nc  a\u{200b}\nb c a\u{2028}\nb c\na b\nc \n"
    );
}

#[test]
fn eluv_encodes_binary_data() {
    let cover_input = "a b c ".repeat(6);
    let data_input: Vec<u8> = vec![0b11101010, 0b10000011, 0b01011110];
    let pivot: usize = 3;

    let mut data_iterator = BitIterator::new(&data_input);
    let method = ELUVMethod::default();
    let mut context = PivotByLineContext::new(&cover_input, pivot);
    let stego_text = method.encode(&mut context, &mut data_iterator).unwrap();

    assert_eq!(
        &stego_text,
        "a  b c\u{205f}\na b c\na  b c\u{200a}\na  b c\na b\nc a\nb c \n"
    );
}

#[test]
fn eluv_decodes_binary_data() {
    let stego_text = "a  bc\na bcd \na  b d\u{205f}\n";
    let pivot: usize = 4;

    let method = ELUVMethod::default();
    let mut context = PivotByRawLineContext::new(stego_text, pivot);
    let secret_data = method.decode(&mut context).unwrap();

    assert_eq!(&secret_data, &[0b10_00000_0, 0b1_00001_11, 0b10101_000]);
}

#[test]
fn eluv_decodes_zeroes_if_no_data_encoded() {
    let stego_text = "a\n".repeat(5);
    let pivot: usize = 4;

    let method = ELUVMethod::default();
    let mut context = PivotByRawLineContext::new(&stego_text, pivot);
    let secret_data = method.decode(&mut context).unwrap();

    assert_eq!(&secret_data, &[0, 0, 0, 0, 0]);
}

#[test]
fn eluv_default_method_is_variant_1() {
    assert_eq!(
        ELUVMethod::default().method_name(),
        "ELUVMethod(RandomWhitespaceMethod,LineExtendMethod,TrailingUnicodeMethod)"
    );
}

#[test]
fn eluv_builder_properly_constructs_variants() {
    assert_eq!(
        ELUVMethodBuilder::new()
            .variant(ELUVMethodVariant::Variant1)
            .build()
            .method_name(),
        "ELUVMethod(RandomWhitespaceMethod,LineExtendMethod,TrailingUnicodeMethod)"
    );
    assert_eq!(
        ELUVMethodBuilder::new()
            .variant(ELUVMethodVariant::Variant2)
            .build()
            .method_name(),
        "ELUVMethod(LineExtendMethod,RandomWhitespaceMethod,TrailingUnicodeMethod)"
    );
    assert_eq!(
        ELUVMethodBuilder::new()
            .variant(ELUVMethodVariant::Variant3)
            .build()
            .method_name(),
        "ELUVMethod(LineExtendMethod,TrailingUnicodeMethod,RandomWhitespaceMethod)"
    );
}

#[test]
fn extended_line_encodes_text_data() {
    let cover_input = "a b c".repeat(5);
    let data_input = "a";
    let pivot: usize = 4;

    let mut data_iterator = BitIterator::new(data_input.as_bytes());
    let method = ExtendedLineMethod::default();
    let mut context = PivotByLineContext::new(&cover_input, pivot);
    let stego_text = method.encode(&mut context, &mut data_iterator).unwrap();

    assert_eq!(&stego_text, "a b ca \nb ca\nb ca b\nca b\nc \n");
}

#[test]
fn extended_line_encodes_binary_data() {
    let cover_input = "a b c ".repeat(5);
    let data_input: Vec<u8> = vec![0b11111111];
    let pivot: usize = 3;

    let mut data_iterator = BitIterator::new(&data_input);
    let method = ExtendedLineMethod::default();
    let mut context = PivotByLineContext::new(&cover_input, pivot);
    let stego_text = method.encode(&mut context, &mut data_iterator).unwrap();

    assert_eq!(&stego_text, "a  b c \na  b c \na  b c\na b\nc a\nb c \n");
}

#[test]
fn extended_line_decodes_binary_data() {
    let stego_text = "a  bc\na bcd\na  b d \n";
    let pivot: usize = 4;

    let method = ExtendedLineMethod::default();
    let mut context = PivotByRawLineContext::new(stego_text, pivot);
    let secret_data = method.decode(&mut context).unwrap();

    assert_eq!(&secret_data, &[0b100_010_11, 0b100_000_00]);
}

#[test]
fn extended_line_decodes_zeroes_if_no_data_encoded() {
    let stego_text = "a\n".repeat(5);
    let pivot: usize = 4;

    let method = ExtendedLineMethod::default();
    let mut context = PivotByRawLineContext::new(&stego_text, pivot);
    let secret_data = method.decode(&mut context).unwrap();

    assert_eq!(&secret_data, &[0, 0]);
}

#[test]
fn extended_line_default_method_is_variant_1() {
    assert_eq!(
        ExtendedLineMethod::default().method_name(),
        "ExtendedLineMethod(RandomWhitespaceMethod,LineExtendMethod,TrailingWhitespaceMethod)"
    );
}

#[test]
fn extended_line_builder_properly_constructs_variants() {
    assert_eq!(
        ExtendedLineMethodBuilder::new()
            .variant(ExtendedLineMethodVariant::Variant1)
            .build()
            .method_name(),
        "ExtendedLineMethod(RandomWhitespaceMethod,LineExtendMethod,TrailingWhitespaceMethod)"
    );
    assert_eq!(
        ExtendedLineMethodBuilder::new()
            .variant(ExtendedLineMethodVariant::Variant2)
            .build()
            .method_name(),
        "ExtendedLineMethod(LineExtendMethod,RandomWhitespaceMethod,TrailingWhitespaceMethod)"
    );
    assert_eq!(
        ExtendedLineMethodBuilder::new()
            .variant(ExtendedLineMethodVariant::Variant3)
            .build()
            .method_name(),
        "ExtendedLineMethod(LineExtendMethod,TrailingWhitespaceMethod,RandomWhitespaceMethod)"
    );
}

const ROUNDTRIP_COVER: &str = "we went up the hill to see the sun go down over the sea and then \
    we came back home by the old road that runs along the river past the mill and the farm \
    where the dogs bark at the cars and the cows look on as the day comes to its end";

#[test]
fn extended_line_encodes_then_decodes_the_data() {
    let data_input: Vec<u8> = vec![b'o', b'k'];
    let pivot: usize = 12;
    let method = ExtendedLineMethodBuilder::new()
        .variant(ExtendedLineMethodVariant::Variant3)
        .build();
    let mut data_iterator = BitIterator::new(&data_input);
    let mut context = PivotByLineContext::new(ROUNDTRIP_COVER, pivot);
    let stego_text = method.encode(&mut context, &mut data_iterator).unwrap();
    let mut decode_context = PivotByRawLineContext::new(&stego_text, pivot);
    let decoded = method.decode(&mut decode_context).unwrap();
    assert_eq!(decoded[..2].to_vec(), data_input);
}

#[test]
fn eluv_encodes_then_decodes_the_data() {
    let data_input: Vec<u8> = vec![0b1010_0110, 0b0101_1100, 0b1111_0000];
    let pivot: usize = 12;
    let method = ELUVMethodBuilder::new()
        .variant(ELUVMethodVariant::Variant2)
        .build();
    let mut data_iterator = BitIterator::new(&data_input);
    let mut context = PivotByLineContext::new(ROUNDTRIP_COVER, pivot);
    let stego_text = method.encode(&mut context, &mut data_iterator).unwrap();
    let mut decode_context = PivotByRawLineContext::new(&stego_text, pivot);
    let decoded = method.decode(&mut decode_context).unwrap();
    assert_eq!(decoded[..3].to_vec(), data_input);
}

#[test]
fn invalid_variant_error_message() {
    let e = ExtendedLineMethodVariant::try_from(7u8).unwrap_err();
    assert_eq!(e.value(), 7);
    assert_eq!(e.message(), "Invalid variant equal to 7 has been provided");
    let e = ELUVMethodVariant::try_from(213u8).unwrap_err();
    assert_eq!(e.message(), "Invalid variant equal to 213 has been provided");
    let e = ELUVMethodVariant::try_from(0u8).unwrap_err();
    assert_eq!(e.message(), "Invalid variant equal to 0 has been provided");
    let e = ELUVMethodVariant::try_from(40u8).unwrap_err();
    assert_eq!(e.message(), "Invalid variant equal to 40 has been provided");
}

const ACCENTED_COVER: &str = "Ça été une journée très agréable près du lac où l'on a mangé des crêpes \
    au goûter avant de rentrer à la maison pour dîner tôt avec les enfants qui étaient \
    fatigués après une si longue promenade sous le soleil brûlant de juillet dans les prés";

#[test]
fn extended_line_encodes_then_decodes_over_accented_words() {
    let data_input: Vec<u8> = vec![b'o', b'k'];
    let pivot: usize = 16;
    let method = ExtendedLineMethodBuilder::new()
        .variant(ExtendedLineMethodVariant::Variant1)
        .build();
    let mut data_iterator = BitIterator::new(&data_input);
    let mut context = PivotByLineContext::new(ACCENTED_COVER, pivot);
    let stego_text = method.encode(&mut context, &mut data_iterator).unwrap();
    let mut decode_context = PivotByRawLineContext::new(&stego_text, pivot);
    let decoded = method.decode(&mut decode_context).unwrap();
    assert_eq!(decoded[..2].to_vec(), data_input);
}

#[test]
fn extended_line_reports_a_step_per_line() {
    let data_input: Vec<u8> = vec![b'o', b'k'];
    let method = ExtendedLineMethodBuilder::new().build();
    let mut data_iterator = BitIterator::new(&data_input);
    let mut context = PivotByLineContext::new(ROUNDTRIP_COVER, 12);
    let mut progress = Vec::new();
    method.encode_reporting(&mut context, &mut data_iterator, &mut progress).unwrap();
    assert_eq!(progress, vec![ProgressStatus::Step(3); 5]);
}

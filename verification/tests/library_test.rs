use std::cell::Cell;
use std::rc::Rc;

use ptero::binary::{Bit, BitIterator, BitVec};
use ptero::byte_stream::{self, Byte};
use ptero::cli::capacity::GetCapacityCommand;
use ptero::cli::decoder::DecodeSubCommand;
use ptero::cli::encoder::{determine_pivot_size, encode_command};
use ptero::context::{Context, PivotByLineContext};
use ptero::decoder::complex::extended_line_decoder::ExtendedLineDecoder;
use ptero::decoder::LineDecoder;
use ptero::encodable::Encodable;
use ptero::encoder::complex_encoder::extended_line_encoder::ExtendedLineEncoderFactory;
use ptero::encoder::line_extend_encoder::LineExtendEncoder;
use ptero::encoder::trailing_unicode_encoder::TrailingUnicodeEncoder;
use ptero::encoder::trailing_whitespace_encoder::TrailingWhitespaceEncoder;
use ptero::encoder::{EncoderResult, EncodingErrorKind, ErrorKind, LineEncoder};
use ptero::log::{get_level_text, verbosity_to_level_filter, Level, LevelFilter};
use ptero::method::complex::extended_line::ExtendedLineMethod;
use ptero::observer::{EventNotifier, EventNotifierError};
use ptero::ptero_text::extended_line_method::CoverWords;
use ptero::ptero_text::line_separator::{LineSeparatorType, DEFAULT_LINE_SEPARATOR};
use ptero::words::WordIterator;

#[test]
fn convert_to_str() {
    let _sep: &str = LineSeparatorType::Windows.into();
    let _sep: &str = LineSeparatorType::Unix.into();
    let _sep: &str = LineSeparatorType::UnixMixed.into();
}

#[test]
fn return_correct_default_for_other_platforms() {
    assert_eq!(LineSeparatorType::Unix, DEFAULT_LINE_SEPARATOR);
}

#[test]
fn compare_with_str() {
    assert!(LineSeparatorType::Windows == *"\r\n");
    assert!(LineSeparatorType::Unix == *"\n");
    assert!(LineSeparatorType::UnixMixed == *"\n");
    assert!(LineSeparatorType::UnixMixed == *"\r\n");
    assert!(LineSeparatorType::Unix != *"\r\n");
    let windows: &str = LineSeparatorType::Windows.into();
    assert_eq!(windows, "\r\n");
}

#[test]
fn converts_verbosity_number() {
    assert_eq!(verbosity_to_level_filter(0), LevelFilter::Off);
    assert_eq!(verbosity_to_level_filter(1), LevelFilter::Warn);
    assert_eq!(verbosity_to_level_filter(2), LevelFilter::Info);
    assert_eq!(verbosity_to_level_filter(3), LevelFilter::Debug);
}

#[test]
fn unrecognized_verbosity_defaults_to_trace() {
    assert_eq!(verbosity_to_level_filter(4), LevelFilter::Trace);
    assert_eq!(verbosity_to_level_filter(100), LevelFilter::Trace);
    assert_eq!(verbosity_to_level_filter(255), LevelFilter::Trace);
}

#[test]
fn level_texts_are_five_characters_wide() {
    assert_eq!(get_level_text(&Level::Error), "ERROR");
    assert_eq!(get_level_text(&Level::Warn), " WARN");
    assert_eq!(get_level_text(&Level::Info), " INFO");
    assert_eq!(get_level_text(&Level::Debug), "DEBUG");
    assert_eq!(get_level_text(&Level::Trace), "TRACE");
}

#[test]
fn byte_stream_begins_with_the_most_significant_bit() {
    let array: Vec<Byte> = vec![1, 0, 2, 3].iter().map(|&v| Byte(v)).collect();
    let mut iterator = byte_stream::BitIterator::new(array);
    let bit = iterator.next().unwrap();
    let byte_stream::Bit(value) = bit;
    assert_eq!(value, 0);
    let mut values = vec![value];
    while let Some(byte_stream::Bit(v)) = iterator.next() {
        values.push(v);
    }
    assert_eq!(values.len(), 32);
    assert_eq!(&values[0..8], &[0, 0, 0, 0, 0, 0, 0, 1]);
    assert_eq!(&values[24..32], &[0, 0, 0, 0, 0, 0, 1, 1]);
}

#[test]
fn word_iterator_yields_the_words() {
    let words = WordIterator::new("  A little\tpanda \n").iter();
    assert_eq!(words, vec!["A".to_string(), "little".to_string(), "panda".to_string()]);
}

#[test]
fn registering_a_fresh_name_adds_the_callback() {
    let mut notifier: EventNotifier<u32> = EventNotifier::new();
    let calls = Rc::new(Cell::new(0));
    let seen = calls.clone();
    assert_eq!(notifier.register("counter", move |n: &u32| seen.set(seen.get() + n)), Ok(()));
    notifier.notify(5);
    assert_eq!(calls.get(), 5);
    notifier.unregister("counter");
    notifier.notify(5);
    assert_eq!(calls.get(), 5);
}

#[test]
fn registering_a_taken_name_is_refused() {
    let mut notifier: EventNotifier<u32> = EventNotifier::new();
    let calls = Rc::new(Cell::new(0));
    let first = calls.clone();
    let second = calls.clone();
    assert_eq!(notifier.register("counter", move |_: &u32| first.set(first.get() + 1)), Ok(()));
    let result = notifier.register("counter", move |_: &u32| second.set(second.get() + 100));
    assert_eq!(
        result,
        Err(EventNotifierError::KeyAlreadyPresent { key: "counter".to_string() })
    );
    assert_eq!(
        result.unwrap_err().message(),
        "Cannot register under 'counter' as this name is already occupied"
    );
    notifier.notify(1);
    assert_eq!(calls.get(), 1);
}

#[test]
fn bits_of_bytes_convert_back_to_the_bytes() {
    let data: Vec<u8> = vec![0, 1, 0x7f, 0x80, 0xff, b'E'];
    let mut iterator = BitIterator::new(&data);
    let bits = iterator.collect_bits();
    assert_eq!(bits.len(), 48);
    let bytes = BitVec::new(bits).try_into_bytes().unwrap();
    assert_eq!(bytes, data);
}

#[test]
fn number_to_bits_and_back() {
    for n in [0u32, 1, 5, 31, 0x8000_0000, u32::MAX] {
        assert_eq!(BitVec::from_u32(n).to_u32(), n);
    }
    let bits = BitVec::from_u32(5).into_bits();
    assert_eq!(bits.len(), 32);
    assert_eq!(bits[29].0, 1);
    assert_eq!(bits[30].0, 0);
    assert_eq!(bits[31].0, 1);
}

#[test]
fn bits_not_filling_bytes_do_not_convert() {
    let bits = vec![Bit(1), Bit(0), Bit(1)];
    assert!(BitVec::new(bits).try_into_bytes().is_err());
}

#[test]
fn loaded_lines_stay_within_the_pivot() {
    let mut context = PivotByLineContext::new("abc de fgh i jk", 6);
    let mut lines = Vec::new();
    while let Ok(line) = context.load_text() {
        lines.push(line);
    }
    assert_eq!(lines, vec!["abc de".to_string(), "fgh i".to_string(), "jk ".to_string()]);
    for line in &lines[0..2] {
        assert!(line.len() <= 6);
    }
}

#[test]
fn line_encoders_hide_bits() {
    let data = [0b1011_0000u8];
    let mut bits = BitIterator::new(&data);
    let mut line = "a b".to_string();
    let mut trailing = TrailingWhitespaceEncoder::new();
    assert!(matches!(trailing.encode(&mut bits, &mut line), Ok(EncoderResult::Success)));
    assert_eq!(line, "a b ");
    let words = CoverWords::new(vec!["next".to_string()]);
    let mut extend = LineExtendEncoder::new(words);
    assert!(matches!(extend.encode(&mut bits, &mut line), Ok(EncoderResult::Success)));
    assert_eq!(line, "a b ");
    assert!(matches!(extend.encode(&mut bits, &mut line), Ok(EncoderResult::Success)));
    assert_eq!(line, "a b  next");
    match extend.encode(&mut bits, &mut line) {
        Err(e) => assert_eq!(e.kind(), EncodingErrorKind::NoWordsLeft),
        Ok(_) => panic!("a word was used twice"),
    }
}

#[test]
fn trailing_unicode_encoder_picks_a_second_character() {
    let data = [0b0001_0000u8, 0b0000_0000];
    let mut bits = BitIterator::new(&data);
    let mut line = "ab".to_string();
    let mut encoder = TrailingUnicodeEncoder::default();
    assert!(matches!(encoder.encode(&mut bits, &mut line), Ok(EncoderResult::Success)));
    assert_eq!(line, "ab\u{2000}");
}

#[test]
fn trailing_unicode_encoder_picks_a_character() {
    let data = [0b0000_1000u8, 0b0100_0000];
    let mut bits = BitIterator::new(&data);
    let mut line = "ab".to_string();
    let mut encoder = TrailingUnicodeEncoder::default();
    assert!(matches!(encoder.encode(&mut bits, &mut line), Ok(EncoderResult::Success)));
    assert_eq!(line, "ab ");
    assert_eq!(bits.count(), 6);
}

#[test]
fn extended_line_encoder_and_decoder_agree_on_a_line() {
    let data = [0b0110_0000u8];
    let mut bits = BitIterator::new(&data);
    let mut line = "a b".to_string();
    let mut encoder = ExtendedLineEncoderFactory::build(CoverWords::new(vec!["cd".to_string()]));
    assert!(matches!(encoder.encode(&mut bits, &mut line), Ok(EncoderResult::Success)));
    assert_eq!(line, "a b cd ");
    let decoded = ExtendedLineDecoder::new(3).decode(&line);
    let values: Vec<u8> = decoded.iter().map(|b| b.0).collect();
    assert_eq!(values, vec![0, 1, 1]);
    let values: Vec<u8> = ExtendedLineDecoder::new(3).decode("a  bc").iter().map(|b| b.0).collect();
    assert_eq!(values, vec![1, 1, 0]);
}

#[test]
fn encodable_data_hides_with_the_extended_line_method() {
    let cover = "a b c".repeat(5);
    let from_str = "a".encode(&cover, 4).unwrap();
    assert_eq!(from_str, "a b ca \nb ca\nb ca b\nca b\nc \n");
    let from_vec = vec![b'a'].encode(&cover, 4).unwrap();
    assert_eq!(from_vec, from_str);
    let method = ExtendedLineMethod::default();
    let mut context = PivotByLineContext::new(&cover, 4);
    let data = [b'a'];
    let mut bits = BitIterator::new(&data);
    assert_eq!(method.encode(&mut context, &mut bits).unwrap(), from_str);
}

#[test]
fn encodable_data_fails_when_the_cover_is_too_small() {
    let result = "abc".encode("a b", 3);
    match result {
        Err(e) => assert_eq!(e.kind(), ErrorKind::NoWordsLeft),
        Ok(text) => panic!("unexpected stego text {}", text),
    }
}

#[test]
fn pivot_defaults_to_the_longest_word() {
    let words = vec!["ab".to_string(), "abcd".to_string(), "a".to_string()];
    assert_eq!(determine_pivot_size(&words), 4);
    assert_eq!(determine_pivot_size(&Vec::new()), 0);
    let cover = "a b c".repeat(5);
    let stego = encode_command(&cover, &vec![b'a'], Some(4)).unwrap();
    assert_eq!(stego, "a b ca \nb ca\nb ca b\nca b\nc \n");
    match encode_command(&cover, &vec![b'a'], Some(1)) {
        Err(e) => assert_eq!(e.kind(), ErrorKind::PivotTooSmall),
        Ok(_) => panic!("a pivot below the longest word was accepted"),
    }
}

#[test]
fn capacity_refuses_a_pivot_covering_the_whole_text() {
    let command = GetCapacityCommand { cover: "stub".into(), pivot: 10, eluv: false, extended_line: true };
    match command.get_cover_text_capacity("a b c") {
        Err(e) => assert_eq!(e.kind(), ErrorKind::PivotTooLarge),
        Ok(n) => panic!("unexpected capacity {}", n),
    }
    let command = GetCapacityCommand { cover: "stub".into(), pivot: 3, eluv: true, extended_line: false };
    assert_eq!(command.get_cover_text_capacity(&"a b c ".repeat(2)).ok(), Some(2 * 7));
}

#[test]
fn capacity_fails_when_a_word_is_longer_than_the_pivot() {
    let command = GetCapacityCommand { cover: "stub".into(), pivot: 2, eluv: false, extended_line: true };
    match command.get_cover_text_capacity("a b ccc d e f g") {
        Err(e) => assert_eq!(e.kind(), ErrorKind::CannotConstructLine),
        Ok(n) => panic!("unexpected capacity {}", n),
    }
}

#[test]
fn decoding_refuses_an_unknown_variant() {
    let command = DecodeSubCommand {
        text: "stub".into(),
        pivot: 3,
        eluv: true,
        extended_line: false,
        set: None,
        variant: 7,
    };
    match command.do_decode("a b") {
        Err(e) => assert_eq!(e.kind(), ErrorKind::Variant(7)),
        Ok(bytes) => panic!("unexpected data {:?}", bytes),
    }
}

use std::cell::RefCell;
use std::sync::Arc;

use rand::rngs::mock::StepRng;

use ptero::binary::{Bit, BitIterator};
use ptero::ptero_text::extended_line_method::character_sets::CharacterSetType;
use ptero::ptero_common::method::{MethodProgressStatus, SteganographyMethod};
use ptero::ptero_common::observer::Observer;
use ptero::ptero_text::extended_line_method::random_whitespace_method::RandomWhitespaceMethod;
use ptero::ptero_text::extended_line_method::{ConcealError, ExtendedLineMethod, Variant};

const SINGLE_CHAR_TEXT: &str = "a b ca b ca b ca b ca b c";
const WITH_WORDS_TEXT: &str =
    "A little panda has fallen from a tree. The panda went rolling down the hill";
const WITH_OTHER_WHITESPACE_TEXT: &str = "A\tlittle  panda \
    has fallen from a tree. \
    The panda went rolling \
    down the\t hill";
const WITH_EMOJI_TEXT: &str =
    "A little 🐼 has (fallen) from a \\🌳/. The 🐼 went rolling down the hill.";
const HTML_TEXT: &str = "<div> \
    <button style=\" background: red;\">Click me</button> \
    <div/> \
    <footer> This is the end \
    </footer>";
const TINY_TEXT: &str = "TI NY COVER";
const ONE_WORD_TEXT: &str = "Words.";
const EMPTY_TEXT: &str = "";

fn get_method(pivot: usize, variant: Variant, charset: CharacterSetType) -> ExtendedLineMethod {
    ExtendedLineMethod::builder()
        .with_pivot(pivot)
        .with_rng(StepRng::new(1, 1))
        .with_variant(variant)
        .with_trailing_charset(charset)
        .build()
        .unwrap()
}

fn conceal(pivot: usize, variant: Variant, charset: CharacterSetType, data: &[u8], cover: &str) -> Result<String, ConcealError> {
    let mut method = get_method(pivot, variant, charset);
    let mut bits = BitIterator::new(data);
    method.try_conceal(cover, &mut bits)
}

/// The bits packed into bytes, most significant bit first, the last byte padded with zeros.
fn raw_bytes(bits: &[Bit]) -> Vec<u8> {
    let mut bytes = vec![0u8; (bits.len() + 7) / 8];
    for (i, bit) in bits.iter().enumerate() {
        if bit.0 == 1 {
            bytes[i / 8] |= 0x80 >> (i % 8);
        }
    }
    bytes
}

fn reveal_bits(pivot: usize, variant: Variant, charset: CharacterSetType, stego: &str) -> (usize, Vec<u8>) {
    let mut method = get_method(pivot, variant, charset);
    let bits = method.try_reveal(stego).unwrap().into_bits();
    (bits.len(), raw_bytes(&bits))
}

#[test]
fn errors_when_rng_not_provided() {
    let builder = ExtendedLineMethod::builder()
        .with_trailing_charset(CharacterSetType::OneBit)
        .with_pivot(20)
        .with_variant(Variant::V1);

    match builder.build() {
        Err(e) => assert_eq!(
            e.message(),
            "Couldn't finish building ExtendedLineMethod: `rng` must be initialized"
        ),
        Ok(_) => panic!("the method was built without a generator"),
    }
}

#[test]
fn has_default_pivot_provided() {
    ExtendedLineMethod::builder()
        .with_rng(StepRng::new(1, 1))
        .with_trailing_charset(CharacterSetType::OneBit)
        .with_variant(Variant::V1)
        .build()
        .unwrap();
}

#[test]
fn has_default_charset_provided() {
    ExtendedLineMethod::builder()
        .with_rng(StepRng::new(1, 1))
        .with_pivot(20)
        .with_variant(Variant::V1)
        .build()
        .unwrap();
}

#[test]
fn has_default_variant_provided() {
    ExtendedLineMethod::builder()
        .with_rng(StepRng::new(1, 1))
        .with_trailing_charset(CharacterSetType::OneBit)
        .with_pivot(20)
        .build()
        .unwrap();
}

#[test]
fn one_bit_conceals_data_variant_1() {
    let cases: [(usize, u8, &str, &str); 6] = [
        (4, 97, SINGLE_CHAR_TEXT, "a  b \nca b\nca  b\nca b\nca b\nc"),
        (10, 255, WITH_WORDS_TEXT, "A  little panda \nhas  fallen from \na  tree. The\npanda went\nrolling\ndown the\nhill"),
        (10, 255, WITH_OTHER_WHITESPACE_TEXT, "A  little panda \nhas  fallen from \na  tree. The\npanda went\nrolling\ndown the\nhill"),
        (10, 255, WITH_EMOJI_TEXT, "A  little 🐼 has \n(fallen)  from \na  \\🌳/. The 🐼\nwent\nrolling\ndown the\nhill."),
        (15, 255, HTML_TEXT, "<div>  <button style=\" \nbackground:  red;\">Click \nme</button>  <div/>\n<footer> This\nis the end\n</footer>"),
        (10, 171, WITH_WORDS_TEXT, "A little panda \nhas  fallen\nfrom  a tree.\nThe panda\nwent\nrolling\ndown the\nhill"),
    ];
    for (pivot, data, cover, expected) in cases {
        let stego = conceal(pivot, Variant::V1, CharacterSetType::OneBit, &[data], cover);
        assert_eq!(stego, Ok(expected.to_string()));
    }
}

#[test]
fn one_bit_conceals_data_variant_2() {
    let cases: [(usize, u8, &str, &str); 6] = [
        (4, 97, SINGLE_CHAR_TEXT, "a  b \nca b\nca b \nca b\nca b\nc"),
        (10, 255, WITH_WORDS_TEXT, "A  little panda \nhas  fallen from \na tree. The \npanda went\nrolling\ndown the\nhill"),
        (10, 255, WITH_OTHER_WHITESPACE_TEXT, "A  little panda \nhas  fallen from \na tree. The \npanda went\nrolling\ndown the\nhill"),
        (10, 255, WITH_EMOJI_TEXT, "A  little 🐼 has \n(fallen)  from \na \\🌳/. The 🐼 \nwent\nrolling\ndown the\nhill."),
        (15, 255, HTML_TEXT, "<div>  <button style=\" \nbackground:  red;\">Click \nme</button> <div/> \n<footer> This\nis the end\n</footer>"),
        (8, 171, WITH_WORDS_TEXT, "A  little panda\nhas \nfallen from \na tree.\nThe\npanda\nwent\nrolling\ndown the\nhill"),
    ];
    for (pivot, data, cover, expected) in cases {
        let stego = conceal(pivot, Variant::V2, CharacterSetType::OneBit, &[data], cover);
        assert_eq!(stego, Ok(expected.to_string()));
    }
}

#[test]
fn one_bit_conceals_data_variant_3() {
    let cases: [(usize, u8, &str, &str); 6] = [
        (4, 97, SINGLE_CHAR_TEXT, "a b ca \nb ca\nb ca b\nca b\nc"),
        (10, 255, WITH_WORDS_TEXT, "A  little panda \nhas  fallen from \na  tree. The\npanda went\nrolling\ndown the\nhill"),
        (10, 255, WITH_OTHER_WHITESPACE_TEXT, "A  little panda \nhas  fallen from \na  tree. The\npanda went\nrolling\ndown the\nhill"),
        (13, 255, WITH_EMOJI_TEXT, "A  little 🐼 has \n(fallen)  from a \n\\🌳/.  The 🐼 went\nrolling down\nthe hill."),
        (24, 255, HTML_TEXT, "<div>  <button style=\" background: \nred;\">Click  me</button> <div/> \n<footer>  This is the end </footer>"),
        (10, 171, WITH_WORDS_TEXT, "A  little \npanda has fallen\nfrom  a tree.\nThe panda\nwent\nrolling\ndown the\nhill"),
    ];
    for (pivot, data, cover, expected) in cases {
        let stego = conceal(pivot, Variant::V3, CharacterSetType::OneBit, &[data], cover);
        assert_eq!(stego, Ok(expected.to_string()));
    }
}

const STEGO_SINGLE_LETTERS: &str = "a  b \nca b\nca  b\nca b\nca b\nc";
const STEGO_WITH_WORDS: &str = "A  little \npanda has\nfallen  from";
const STEGO_WITH_OTHER_WHITESPACE: &str =
    "A  little panda \nhas  fallen from \na  tree. The\npanda went\nrolling\ndown the\nhill";
const STEGO_WITH_SPECIAL_CHARS: &str =
    "A  little 🐼 has \n(fallen)  from \na  \\🌳/. The 🐼\nwent\nrolling\ndown the\nhill.";
const STEGO_HTML: &str = "<div>  <button style=\" \nbackground:  red;\">Click \nme</button>  <div/>\n<footer> This\nis the end\n</footer>";
const STEGO_V1_CONCEALED: &str =
    "A little panda \nhas  fallen\nfrom  a tree.\nThe panda\nwent\nrolling\ndown the\nhill";
const STEGO_V2_CONCEALED: &str =
    "A  little panda\nhas \nfallen from \na tree.\nThe\npanda\nwent\nrolling\ndown the\nhill";
const STEGO_V3_CONCEALED: &str =
    "A  little \npanda has fallen\nfrom  a tree.\nThe panda\nwent\nrolling\ndown the\nhill";

#[test]
fn one_bit_reveals_data_variant_1() {
    let cases: [(usize, &str, &[u8], usize); 6] = [
        (4, STEGO_SINGLE_LETTERS, &[b'a', 0, 0b00], 18),
        (10, STEGO_WITH_WORDS, &[0b01100011, 0b0], 9),
        (10, STEGO_WITH_OTHER_WHITESPACE, &[0b11111111, 0, 0b000000], 21),
        (10, STEGO_WITH_SPECIAL_CHARS, &[0b11111111, 0, 0b00000], 21),
        (15, STEGO_HTML, &[0b11111111, 0, 0b00], 18),
        (10, STEGO_V1_CONCEALED, &[0b10101011, 0, 0], 24),
    ];
    for (pivot, stego, expected, expected_len) in cases {
        let (len, bytes) = reveal_bits(pivot, Variant::V1, CharacterSetType::OneBit, stego);
        assert_eq!(len, expected_len);
        assert_eq!(bytes, expected.to_vec());
    }
}

#[test]
fn one_bit_reveals_data_variant_2() {
    let cases: [(usize, &str, &[u8], usize); 6] = [
        (4, STEGO_SINGLE_LETTERS, &[0b01100000, 0b10000000, 0b00], 18),
        (10, STEGO_WITH_WORDS, &[0b01100010, 0b10000000], 9),
        (10, STEGO_WITH_OTHER_WHITESPACE, &[0b11111110, 0b10000000, 0b000000], 21),
        (10, STEGO_WITH_SPECIAL_CHARS, &[0b11111110, 0b10000000, 0b00000], 21),
        (15, STEGO_HTML, &[0b11111110, 0b10000000, 0b00], 18),
        (8, STEGO_V2_CONCEALED, &[0b10101011, 0, 0, 0], 30),
    ];
    for (pivot, stego, expected, expected_len) in cases {
        let (len, bytes) = reveal_bits(pivot, Variant::V2, CharacterSetType::OneBit, stego);
        assert_eq!(len, expected_len);
        assert_eq!(bytes, expected.to_vec());
    }
}

#[test]
fn one_bit_reveals_data_variant_3() {
    let cases: [(usize, &str, &[u8], usize); 6] = [
        (4, STEGO_SINGLE_LETTERS, &[0b10100010, 0, 0b00], 18),
        (10, STEGO_WITH_WORDS, &[0b10100011, 0], 9),
        (10, STEGO_WITH_OTHER_WHITESPACE, &[0b11111111, 0, 0b000000], 21),
        (10, STEGO_WITH_SPECIAL_CHARS, &[0b11111111, 0, 0b00000], 21),
        (15, STEGO_HTML, &[0b11111111, 0, 0b00], 18),
        (10, STEGO_V3_CONCEALED, &[0b10101011, 0, 0], 24),
    ];
    for (pivot, stego, expected, expected_len) in cases {
        let (len, bytes) = reveal_bits(pivot, Variant::V3, CharacterSetType::OneBit, stego);
        assert_eq!(len, expected_len);
        assert_eq!(bytes, expected.to_vec());
    }
}

#[test]
fn one_bit_test_works_with_empty_data() {
    let stego_text = conceal(8, Variant::V1, CharacterSetType::OneBit, &[0b0], WITH_WORDS_TEXT);
    assert_eq!(
        stego_text,
        Ok("A little\npanda\nhas\nfallen\nfrom a\ntree.\nThe\npanda\nwent\nrolling\ndown the\nhill".to_string())
    );
}

#[test]
fn one_bit_test_errors_when_cover_contains_word_longer_than_pivot() {
    let stego_text = conceal(2, Variant::V1, CharacterSetType::OneBit, &[0xFF], WITH_WORDS_TEXT);
    assert_eq!(stego_text, Err(ConcealError::pivot_too_small("little".to_string(), 2)));
}

#[test]
fn one_bit_test_errors_when_cover_is_too_small() {
    let stego_text = conceal(5, Variant::V3, CharacterSetType::OneBit, &[0xFF], TINY_TEXT);
    assert_eq!(stego_text, Err(ConcealError::no_cover_words_left(5, 5)));
}

#[test]
fn one_bit_test_errors_when_too_few_words() {
    let stego_text = conceal(10, Variant::V3, CharacterSetType::OneBit, &[0xFF], ONE_WORD_TEXT);
    assert_eq!(stego_text, Err(ConcealError::not_enough_words("Words.")));
}

#[test]
fn one_bit_test_errors_when_cover_is_empty() {
    let stego_text = conceal(5, Variant::V3, CharacterSetType::OneBit, &[0xFF], EMPTY_TEXT);
    assert_eq!(stego_text, Err(ConcealError::no_cover_words_left(8, 5)));
}

#[test]
fn two_bit_test_works_with_empty_data() {
    let stego_text = conceal(8, Variant::V1, CharacterSetType::TwoBit, &[0b0], WITH_WORDS_TEXT);
    assert_eq!(
        stego_text,
        Ok("A little\npanda\nhas\nfallen\nfrom a\ntree.\nThe\npanda\nwent\nrolling\ndown the\nhill".to_string())
    );
}

#[test]
fn two_bit_test_errors_when_cover_contains_word_longer_than_pivot() {
    let stego_text = conceal(2, Variant::V1, CharacterSetType::TwoBit, &[0xFF], WITH_WORDS_TEXT);
    assert_eq!(stego_text, Err(ConcealError::pivot_too_small("little".to_string(), 2)));
}

#[test]
fn two_bit_test_errors_when_cover_is_too_small() {
    let stego_text = conceal(5, Variant::V3, CharacterSetType::TwoBit, &[0xFF], TINY_TEXT);
    assert_eq!(stego_text, Err(ConcealError::no_cover_words_left(4, 5)));
}

#[test]
fn two_bit_test_errors_when_too_few_words() {
    let stego_text = conceal(10, Variant::V3, CharacterSetType::TwoBit, &[0xFF], ONE_WORD_TEXT);
    assert_eq!(stego_text, Err(ConcealError::not_enough_words("Words.")));
}

#[test]
fn two_bit_test_errors_when_cover_is_empty() {
    let stego_text = conceal(5, Variant::V3, CharacterSetType::TwoBit, &[0xFF], EMPTY_TEXT);
    assert_eq!(stego_text, Err(ConcealError::no_cover_words_left(8, 5)));
}

#[test]
fn two_bit_conceals_data_variant_1() {
    let cases: [(usize, u8, &str, &str); 6] = [
        (4, 97, SINGLE_CHAR_TEXT, "a  b \nca b\u{2000}\nca b\nca b\nca b\nc"),
        (10, 255, WITH_WORDS_TEXT, "A  little panda\u{2001}\nhas  fallen from\u{2001}\na tree.\nThe panda\nwent\nrolling\ndown the\nhill"),
        (10, 255, WITH_OTHER_WHITESPACE_TEXT, "A  little panda\u{2001}\nhas  fallen from\u{2001}\na tree.\nThe panda\nwent\nrolling\ndown the\nhill"),
        (10, 255, WITH_EMOJI_TEXT, "A  little 🐼 has\u{2001}\n(fallen)  from\u{2001}\na \\🌳/. The\n🐼 went\nrolling\ndown the\nhill."),
        (15, 255, HTML_TEXT, "<div>  <button style=\"\u{2001}\nbackground:  red;\">Click\u{2001}\nme</button>\n<div/> <footer>\nThis is the end\n</footer>"),
        (10, 171, WITH_WORDS_TEXT, "A little panda \nhas fallen from\u{2001}\na tree.\nThe panda\nwent\nrolling\ndown the\nhill"),
    ];
    for (pivot, data, cover, expected) in cases {
        let stego = conceal(pivot, Variant::V1, CharacterSetType::TwoBit, &[data], cover);
        assert_eq!(stego, Ok(expected.to_string()));
    }
}

#[test]
fn two_bit_reveals_data_variant_1() {
    let cases: [(usize, &str, &[u8], usize); 3] = [
        (4, "a  b \nca b\nca  b\nca b\nca b\nc", &[0b01100000, 0b01000000, 0b00], 24),
        (4, "a  b \nca b\u{2000}\nca b\nca b\nca b\nc", &[b'a', 0, 0b00], 24),
        (10, "A  little\u{2001}\npanda has\nfallen  from", &[0b01110000, 0b11000000], 12),
    ];
    for (pivot, stego, expected, expected_len) in cases {
        let (len, bytes) = reveal_bits(pivot, Variant::V1, CharacterSetType::TwoBit, stego);
        assert_eq!(len, expected_len);
        assert_eq!(bytes, expected.to_vec());
    }
}

#[test]
fn conceal_then_reveal_gives_the_data_back() {
    let data = [b'E'];
    let stego = conceal(11, Variant::V1, CharacterSetType::OneBit, &data, "This is a sample text that is harmless").unwrap();
    let (len, bytes) = reveal_bits(11, Variant::V1, CharacterSetType::OneBit, &stego);
    assert!(len >= 8);
    assert_eq!(bytes[0], b'E');
}

const LONG_COVER: &str = "A little panda has fallen from a tree. The panda went rolling down the hill \
    and came to rest by a small stream where it found a red ball and some bamboo to eat \
    before the sun went down behind the mountains and the stars came out one by one";

#[test]
fn conceal_then_reveal_with_four_bit_set_variant_3() {
    let data = [b'P', b't', b'r'];
    let stego = conceal(14, Variant::V3, CharacterSetType::FourBit, &data, LONG_COVER).unwrap();
    let (len, bytes) = reveal_bits(14, Variant::V3, CharacterSetType::FourBit, &stego);
    assert!(len >= 24);
    assert_eq!(bytes[..3].to_vec(), data.to_vec());
}

#[test]
fn conceal_then_reveal_with_one_bit_set_variant_2() {
    let data = [0b1011_0010, 0b0111_1001];
    let stego = conceal(15, Variant::V2, CharacterSetType::OneBit, &data, LONG_COVER).unwrap();
    let (len, bytes) = reveal_bits(15, Variant::V2, CharacterSetType::OneBit, &stego);
    assert!(len >= 16);
    assert_eq!(bytes[..2].to_vec(), data.to_vec());
}

#[test]
fn random_whitespace_reveal_removes_the_doubled_space() {
    let method = RandomWhitespaceMethod::new();
    let mut line = "ab c  d".to_string();
    assert_eq!(method.reveal_in_random_whitespace(&mut line), 1);
    assert_eq!(line, "ab c d");
    let mut plain = "ab c d".to_string();
    assert_eq!(method.reveal_in_random_whitespace(&mut plain), 0);
    assert_eq!(plain, "ab c d");
}

#[test]
fn conceal_then_reveal_when_extension_reaches_one_past_the_pivot() {
    let data = [0b1100_0000];
    let cover = "a b c d e f g h i j k l m n o p q r s t u v w x y z";
    let stego = conceal(4, Variant::V1, CharacterSetType::OneBit, &data, cover).unwrap();
    assert!(stego.starts_with("a b c") || stego.starts_with("a  b c"));
    let (len, bytes) = reveal_bits(4, Variant::V1, CharacterSetType::OneBit, &stego);
    assert!(len >= 8);
    assert_eq!(bytes[0], data[0]);
}

#[test]
fn errors_drain_the_data() {
    let data = [0xff, 0xff];
    let mut method = get_method(10, Variant::V1, CharacterSetType::OneBit);
    let mut bits = BitIterator::new(&data);
    assert!(method.try_conceal(TINY_TEXT, &mut bits).is_err());
    assert_eq!(bits.remaining_count(), 0);
}

#[test]
fn pivot_too_small_leaves_the_data() {
    let data = [0xff];
    let mut method = get_method(2, Variant::V1, CharacterSetType::OneBit);
    let mut bits = BitIterator::new(&data);
    assert!(method.try_conceal(WITH_WORDS_TEXT, &mut bits).is_err());
    assert_eq!(bits.remaining_count(), 8);
}

struct Progress {
    written: u64,
    finished: bool,
}

impl Observer<MethodProgressStatus> for Progress {
    fn on_notify(&mut self, event: &MethodProgressStatus) {
        match event {
            MethodProgressStatus::DataWritten(n) => self.written += n,
            MethodProgressStatus::Finished => self.finished = true,
        }
    }
}

#[test]
fn progress_reports_every_bit_and_the_end() {
    let mut method = ExtendedLineMethod::builder()
        .with_rng(StepRng::new(1337, 7))
        .with_pivot(11)
        .build()
        .unwrap();
    let listener = Arc::new(RefCell::new(Progress { written: 0, finished: false }));
    method.subscribe(listener.clone());
    let data = [b'E'];
    let mut bits = BitIterator::new(&data);
    method.try_conceal("This is a sample text that is harmless", &mut bits).unwrap();
    assert_eq!(listener.borrow().written, 8);
    assert!(listener.borrow().finished);
}

#[test]
fn steganography_method_trait_conceals_and_reveals() {
    let data = [b'E'];
    let mut method = get_method(11, Variant::V1, CharacterSetType::OneBit);
    let mut bits = BitIterator::new(&data);
    let stego = <ExtendedLineMethod as SteganographyMethod<&str, ConcealError>>::try_conceal(
        &mut method,
        "This is a sample text that is harmless",
        &mut bits,
    )
    .unwrap();
    let mut reader = get_method(11, Variant::V1, CharacterSetType::OneBit);
    let revealed =
        <ExtendedLineMethod as SteganographyMethod<&str, ConcealError>>::try_reveal(&mut reader, &stego)
            .unwrap()
            .into_bits();
    assert_eq!(raw_bytes(&revealed)[0], b'E');
}

#[test]
fn conceal_then_reveal_with_accented_words() {
    let data = [0b1011_0110];
    let cover = "Ça été une journée très agréable près du lac où l'on a mangé des crêpes \
        au goûter avant de rentrer à la maison pour dîner tôt";
    let stego = conceal(12, Variant::V1, CharacterSetType::OneBit, &data, cover).unwrap();
    let (len, bytes) = reveal_bits(12, Variant::V1, CharacterSetType::OneBit, &stego);
    assert!(len >= 8);
    assert_eq!(bytes[0], data[0]);
}

#[test]
fn conceal_error_messages() {
    assert_eq!(
        ConcealError::pivot_too_small("little".to_string(), 2).message(),
        "Pivot '2' is smaller then the longest word in cover: 'little'"
    );
    assert_eq!(
        ConcealError::no_cover_words_left(123, 10).message(),
        "No cover words left, cannot construct a line.. '123' bytes left unprocessed while using '10' as a pivot"
    );
    assert_eq!(
        ConcealError::line_too_short(0, 7).message(),
        "Line constructed is too short to extend it above pivot length. '0' bytes left unprocessed while using '7' as a pivot"
    );
    assert_eq!(
        ConcealError::not_enough_words("abc").message(),
        "Line 'abc' doesn't have enough words to conceal a bit"
    );
}

#[test]
fn checked_reveal_refuses_a_line_without_words() {
    let mut method = get_method(10, Variant::V1, CharacterSetType::OneBit);
    assert!(method.try_reveal_checked("A little panda\n\nhas fallen").is_none());
    let mut checked = get_method(10, Variant::V1, CharacterSetType::OneBit);
    let mut plain = get_method(10, Variant::V1, CharacterSetType::OneBit);
    let a = checked.try_reveal_checked(STEGO_V1_CONCEALED).unwrap().into_bits();
    let b = plain.try_reveal(STEGO_V1_CONCEALED).unwrap().into_bits();
    assert_eq!(a, b);
}

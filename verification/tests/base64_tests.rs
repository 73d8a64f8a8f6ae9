use denco::fast::FastConverter;
use denco::memory_efficient::MemoryEfficientBaseAsciiConverter;
use denco::parallel::ParallelBase64;
use denco::single::Base64;
use denco::{
    decode, decode_with_config, encode, encode_with_config, parallel_decode, parallel_encode,
    url_decode, url_encode, BaseAsciiConverter, Config, Decoder, Encoder, FromConfig,
};

#[test]
fn encode_works() {
    let input = "4".as_bytes();
    let encoded = encode(input);
    assert_eq!("NA==", encoded);
}

#[test]
fn decode_works() {
    let input = "dGVzdDE=";
    let decoded = decode(input);
    assert_eq!("test1", String::from_utf8(decoded).unwrap());
}

#[test]
fn url_encode_works() {
    let input = "Hello I am a test string 1".as_bytes();
    let encoded = url_encode(input);
    assert_eq!("SGVsbG8gSSBhbSBhIHRlc3Qgc3RyaW5nIDE", encoded);
}

#[test]
fn url_decode_works() {
    let input = "dGVzdA";
    let decoded = url_decode(input);
    assert_eq!("test", String::from_utf8(decoded).unwrap());
}

#[test]
fn parallel_encode_works() {
    let input = "Hello I am a test string 1".as_bytes();
    let encoder = ParallelBase64 {
        config: Config::standard(),
        converter: FastConverter::default(),
    };
    let res = encoder.encode(input);
    assert_eq!("SGVsbG8gSSBhbSBhIHRlc3Qgc3RyaW5nIDE=", res);
}

#[test]
fn parallel_decode_works() {
    let input = "dGVzdA==";
    let mut decoder = ParallelBase64 {
        config: Config::standard(),
        converter: FastConverter::default(),
    };
    let res = decoder.decode(input);
    assert_eq!("test".as_bytes(), res.as_slice());
}

fn sample(len: usize) -> Vec<u8> {
    (0..len).map(|i| (i * 37 + 11) as u8).collect()
}

#[test]
fn roundtrip_standard_every_length() {
    for len in 0..40 {
        let data = sample(len);
        let text = encode(&data);
        assert_eq!(text.len(), (len + 2) / 3 * 4);
        assert_eq!(decode(&text), data);
    }
}

#[test]
fn roundtrip_url_safe_every_length() {
    for len in 0..40 {
        let data = sample(len);
        let text = url_encode(&data);
        assert!(!text.contains('='));
        assert_eq!(url_decode(&text), data);
    }
}

#[test]
fn roundtrip_all_byte_values() {
    let data: Vec<u8> = (0..=255u8).collect();
    assert_eq!(decode(&encode(&data)), data);
    assert_eq!(url_decode(&url_encode(&data)), data);
}

#[test]
fn roundtrip_memory_efficient_converter() {
    for len in 0..20 {
        let data = sample(len);
        let encoder = Base64::<MemoryEfficientBaseAsciiConverter>::new(Config::standard());
        let text = encoder.encode(&data);
        assert_eq!(text, encode(&data));
        let mut decoder = Base64::<MemoryEfficientBaseAsciiConverter>::new(Config::standard());
        assert_eq!(decoder.decode(&text), data);
    }
}

#[test]
fn standard_alphabet_characters() {
    assert_eq!(encode(&[0xfb, 0xff]), "+/8=");
    assert_eq!(url_encode(&[0xfb, 0xff]), "-_8");
    assert_eq!(decode("+/8="), vec![0xfb, 0xff]);
    assert_eq!(url_decode("-_8"), vec![0xfb, 0xff]);
}

#[test]
fn empty_input() {
    assert_eq!(encode(&[]), "");
    assert_eq!(decode(""), Vec::<u8>::new());
    assert_eq!(parallel_encode(&[], Config::standard()), "");
    assert_eq!(parallel_decode("", Config::standard()), Vec::<u8>::new());
}

#[test]
fn known_vectors() {
    assert_eq!(encode(b"f"), "Zg==");
    assert_eq!(encode(b"fo"), "Zm8=");
    assert_eq!(encode(b"foo"), "Zm9v");
    assert_eq!(encode(b"foobar"), "Zm9vYmFy");
    assert_eq!(decode("Zm9vYg=="), b"foob".to_vec());
    assert_eq!(decode("Zm9vYmE="), b"fooba".to_vec());
}

#[test]
fn custom_config_with_two_character_padding() {
    let config = Config { sixty_two: b'.', sixty_three: b'*', fill_marker: b"!?" };
    assert_eq!(encode_with_config(&[0xfb], config), ".w!?!?");
}

#[test]
fn unexpected_character_drops_last_byte() {
    // '!' at the third place of the group is read twice: two unexpected characters,
    // so one byte is dropped.
    assert_eq!(decode("dG!z"), vec![116, 96]);
}

#[test]
fn decoder_counter_persists_between_calls() {
    let mut decoder = Base64::<FastConverter>::new(Config::standard());
    assert_eq!(decoder.decode("dGVzdA=="), b"test".to_vec());
    // the three unexpected characters stay counted: two bytes are dropped next time too
    assert_eq!(decoder.decode("dGVz"), b"t".to_vec());
}

#[test]
fn decode_without_padding() {
    assert_eq!(decode_with_config("dGVzdA", Config::standard()), b"test".to_vec());
}

#[test]
fn parallel_encode_agrees_with_encode() {
    for len in 0..40 {
        let data = sample(len);
        assert_eq!(parallel_encode(&data, Config::standard()), encode(&data));
    }
    let data = sample(30);
    assert_eq!(parallel_encode(&data, Config::url_safe()), url_encode(&data));
}

#[test]
fn parallel_decode_agrees_with_decode() {
    for len in 0..40 {
        let data = sample(len);
        let text = encode(&data);
        assert_eq!(parallel_decode(&text, Config::standard()), decode(&text));
        assert_eq!(parallel_decode(&text, Config::standard()), data);
    }
}

#[test]
fn parallel_decode_ignores_lone_trailing_character() {
    assert_eq!(parallel_decode("dGVzdA==x", Config::standard()), b"test".to_vec());
}

#[test]
fn parallel_decoder_counts_on_its_converter() {
    let mut decoder = ParallelBase64::<FastConverter>::new(Config::standard());
    assert_eq!(decoder.decode("dGVzdDE="), b"test1".to_vec());
    assert_eq!(decoder.converter.num_unexpected_chars(), 1);
}

#[test]
fn fast_converter_reads_and_counts() {
    let config = Config::standard();
    let mut conv = FastConverter::from_config(&config);
    assert_eq!(conv.ascii_to_base(&b'+', &config), Some(62));
    assert_eq!(conv.ascii_to_base(&b'a', &config), Some(26));
    assert_eq!(conv.ascii_to_base(&b'=', &config), None);
    assert_eq!(conv.num_unexpected_chars(), 0);
    assert_eq!(conv.ascii_to_base_non_failing(&b'9', &config), 61);
    assert_eq!(conv.ascii_to_base_non_failing(&b'!', &config), 0);
    assert_eq!(conv.num_unexpected_chars(), 1);
    let mut out = Vec::new();
    conv.base_to_ascii(63, &mut out, &config);
    conv.base_to_ascii(0, &mut out, &config);
    assert_eq!(out, b"/A".to_vec());
    let mut buf = [0u8; 3];
    conv.base_to_ascii_with_index(51, &mut buf, &config, 1);
    assert_eq!(buf, [0, b'z', 0]);
}

#[test]
fn memory_efficient_converter_reads_and_counts() {
    let config = Config::url_safe();
    let mut conv = MemoryEfficientBaseAsciiConverter::from_config(&config);
    assert_eq!(conv.ascii_to_base(&b'-', &config), Some(62));
    assert_eq!(conv.ascii_to_base(&b'_', &config), Some(63));
    assert_eq!(conv.ascii_to_base(&b'0', &config), Some(52));
    assert_eq!(conv.ascii_to_base(&b'+', &config), None);
    assert_eq!(conv.num_unexpected_chars(), 1);
    assert_eq!(conv.ascii_to_base_non_failing(&b'=', &config), 255);
    assert_eq!(conv.num_unexpected_chars(), 2);
    let mut out = Vec::new();
    conv.base_to_ascii(62, &mut out, &config);
    conv.base_to_ascii(25, &mut out, &config);
    assert_eq!(out, b"-Z".to_vec());
}

#[test]
fn converters_disagree_only_on_equal_configured_characters() {
    let config = Config { sixty_two: b'+', sixty_three: b'+', fill_marker: b"=" };
    let mut fast = FastConverter::from_config(&config);
    let mut lean = MemoryEfficientBaseAsciiConverter::from_config(&config);
    assert_eq!(fast.ascii_to_base(&b'+', &config), Some(63));
    assert_eq!(lean.ascii_to_base(&b'+', &config), Some(62));
}

#[test]
fn fast_converter_answers_from_its_own_tables() {
    let mut conv = FastConverter::default();
    let url = Config::url_safe();
    assert_eq!(conv.ascii_to_base_non_failing(&b'-', &url), 0);
    assert_eq!(conv.num_unexpected_chars(), 1);
    assert_eq!(conv.ascii_to_base(&b'+', &url), Some(62));
    let mut out = Vec::new();
    conv.base_to_ascii(63, &mut out, &url);
    assert_eq!(out, b"/".to_vec());
}

#[test]
fn parallel_encoder_with_converter_for_another_config() {
    let encoder = ParallelBase64 {
        config: Config::url_safe(),
        converter: FastConverter::default(),
    };
    assert_eq!(encoder.encode(&[0xfb, 0xff, 0xbf]), "+/+/");
}

#[test]
fn padding_is_optional_on_input() {
    let data = sample(7);
    let text = encode(&data);
    let stripped = text.trim_end_matches('=');
    assert_eq!(decode(stripped), data);
}

#[test]
fn decoding_distributes_over_concatenation() {
    let first = encode(b"abcdef");
    let second = encode(b"xy");
    let joined = format!("{}{}", first, second);
    let mut expected = decode(&first);
    expected.extend(decode(&second));
    assert_eq!(decode(&joined), expected);
}

#[test]
fn url_encoding_substitutes_standard_characters() {
    let data: Vec<u8> = (0..=255u8).rev().collect();
    let standard = encode(&data);
    let substituted = standard.replace('+', "-").replace('/', "_").replace('=', "");
    assert_eq!(url_encode(&data), substituted);
}

#[test]
fn parallel_roundtrip() {
    for len in 0..30 {
        let data = sample(len);
        let text = parallel_encode(&data, Config::standard());
        assert_eq!(parallel_decode(&text, Config::standard()), data);
    }
}

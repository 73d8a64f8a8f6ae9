//! Base64 encoding and decoding with a configurable alphabet.
//!
//! The characters for sextets 62 and 63 and the padding marker come from a [`Config`];
//! [`Config::standard`] is the alphabet of RFC 4648 with `=` padding and
//! [`Config::url_safe`] the URL and file name safe alphabet without padding.
#![allow(dead_code)]

use vstd::prelude::*;
use vstd::string::StringSliceAdditionalSpecFns;
use vstd::utf8::*;

pub mod model;
pub mod text;
pub mod fast;
pub mod memory_efficient;
pub mod single;
pub mod parallel;
pub mod laws;

use crate::fast::FastConverter;
use crate::parallel::ParallelBase64;
use crate::single::Base64;

verus! {

/// Turns bytes into text.
pub trait Encoder {
    /// Whether `encode` may be called on `input` in this state.
    spec fn can_encode(&self, input: Seq<u8>) -> bool;

    /// The bytes of the text that `encode` gives for `input`.
    spec fn encoding_of(&self, input: Seq<u8>) -> Seq<u8>;

    fn encode(&self, input: &[u8]) -> (res: String)
        requires
            self.can_encode(input@),
        ensures
            encode_utf8(res@) == self.encoding_of(input@),
            res@ == decode_utf8(self.encoding_of(input@)),
    ;
}

/// Turns text back into bytes.
pub trait Decoder: Sized {
    /// Whether `decode` may be called on text with these bytes in this state.
    spec fn can_decode(&self, input: Seq<u8>) -> bool;

    /// The bytes that `decode` gives for text with these bytes.
    spec fn decoding_of(&self, input: Seq<u8>) -> Seq<u8>;

    /// How the decoder's state after decoding `input` relates to its state before.
    spec fn state_after(&self, input: Seq<u8>, next: Self) -> bool;

    fn decode(&mut self, input: &str) -> (res: Vec<u8>)
        requires
            old(self).can_decode(input.spec_bytes()),
        ensures
            res@ == old(self).decoding_of(input.spec_bytes()),
            old(self).state_after(input.spec_bytes(), *final(self)),
    ;
}

/// Builds a value for a given configuration.
pub trait FromConfig: Sized {
    /// Whether this value can serve `config`.
    spec fn fits(&self, config: ConfigView) -> bool;

    /// Whether this value has not yet counted any unexpected character.
    spec fn is_fresh(&self) -> bool;

    fn from_config(config: &Config) -> (res: Self)
        ensures
            res.fits(config@),
            res.is_fresh(),
    ;
}

/// Parallel encoding of `input` with a fresh [`ParallelBase64`] over a [`FastConverter`].
pub fn parallel_encode(input: &[u8], config: Config) -> (res: String)
    requires
        model::parallel_encodable(config@, input@),
    ensures
        encode_utf8(res@) == model::parallel_encoding(config@, input@),
{
    let encoder = ParallelBase64::<FastConverter>::new(config);
    proof {
        model::lemma_writes_when_fitting(encoder.converter, encoder.config@, input@);
    }
    encoder.encode(input)
}

/// Parallel decoding of `input` with a fresh [`ParallelBase64`] over a [`FastConverter`].
pub fn parallel_decode(input: &str, config: Config) -> (res: Vec<u8>)
    requires
        model::parallel_decodable::<FastConverter>(config@, input.spec_bytes(), 0),
    ensures
        res@ == model::parallel_decoding::<FastConverter>(config@, input.spec_bytes(), 0),
{
    let mut decoder = ParallelBase64::<FastConverter>::new(config);
    proof {
        model::lemma_reads_when_fitting(decoder.converter, decoder.config@, input.spec_bytes());
    }
    decoder.decode(input)
}

/// Decodes text in the standard alphabet with `=` padding.
pub fn decode(input: &str) -> (res: Vec<u8>)
    requires
        model::unexpected_in::<FastConverter>(model::standard_config(), input.spec_bytes()) <= 3,
    ensures
        res@ == model::decoding::<FastConverter>(model::standard_config(), input.spec_bytes(), 0),
{
    decode_with_config(input, Config::standard())
}

/// Decodes text in the alphabet of `config`.
pub fn decode_with_config(input: &str, config: Config) -> (res: Vec<u8>)
    requires
        model::unexpected_in::<FastConverter>(config@, input.spec_bytes()) <= 3,
    ensures
        res@ == model::decoding::<FastConverter>(config@, input.spec_bytes(), 0),
{
    let mut decoder = Base64::<FastConverter>::new(config);
    decoder.decode(input)
}

/// Decodes text in the URL and file name safe alphabet, without padding.
pub fn url_decode(input: &str) -> (res: Vec<u8>)
    requires
        model::unexpected_in::<FastConverter>(model::url_safe_config(), input.spec_bytes()) <= 3,
    ensures
        res@ == model::decoding::<FastConverter>(model::url_safe_config(), input.spec_bytes(), 0),
{
    decode_with_config(input, Config::url_safe())
}

/// Encodes `input` in the standard alphabet with `=` padding.
pub fn encode(input: &[u8]) -> (res: String)
    ensures
        encode_utf8(res@) == model::encoding(model::standard_config(), input@),
{
    proof {
        model::lemma_encoding_ascii(model::standard_config(), input@);
    }
    encode_with_config(input, Config::standard())
}

/// Encodes `input` in the URL and file name safe alphabet, without padding.
pub fn url_encode(input: &[u8]) -> (res: String)
    ensures
        encode_utf8(res@) == model::encoding(model::url_safe_config(), input@),
{
    proof {
        model::lemma_encoding_ascii(model::url_safe_config(), input@);
    }
    encode_with_config(input, Config::url_safe())
}

/// Encodes `input` in the alphabet of `config`; the encoded bytes must form valid UTF-8.
pub fn encode_with_config(input: &[u8], config: Config) -> (res: String)
    requires
        valid_utf8(model::encoding(config@, input@)),
    ensures
        encode_utf8(res@) == model::encoding(config@, input@),
{
    let encoder = Base64::<FastConverter>::new(config);
    encoder.encode(input)
}

/// The characters of an alphabet: sextets 0 to 61 are `A`-`Z`, `a`-`z` and `0`-`9`,
/// sextets 62 and 63 are `sixty_two` and `sixty_three`, and `fill_marker` is written
/// once for every byte missing from the last group of three.
pub struct Config {
    pub sixty_two: u8,
    pub sixty_three: u8,
    pub fill_marker: &'static [u8],
}

/// What a [`Config`] means: its two configurable characters and its padding.
#[verifier::ext_equal]
pub ghost struct ConfigView {
    pub sixty_two: u8,
    pub sixty_three: u8,
    pub fill: Seq<u8>,
}

impl View for Config {
    type V = ConfigView;

    open spec fn view(&self) -> ConfigView {
        ConfigView {
            sixty_two: self.sixty_two,
            sixty_three: self.sixty_three,
            fill: self.fill_marker@,
        }
    }
}

impl Config {
    /// `+`, `/` and `=` padding.
    pub fn standard() -> (res: Config)
        ensures
            res@ == model::standard_config(),
    {
        let res = Config { sixty_two: 43, sixty_three: 47, fill_marker: &[61u8] };
        assert(res@ =~= model::standard_config());
        res
    }

    /// `-`, `_` and no padding.
    pub fn url_safe() -> (res: Config)
        ensures
            res@ == model::url_safe_config(),
    {
        let res = Config { sixty_two: 45, sixty_three: 95, fill_marker: &[] };
        assert(res@ =~= model::url_safe_config());
        res
    }
}

/// Converts between sextets and the characters of an alphabet, and counts the
/// characters that it was asked to read but does not know.
pub trait BaseAsciiConverter: FromConfig {
    /// The sextet that a converter which serves `config` reads `c` as, if any.
    spec fn sextet_of(c: u8, config: ConfigView) -> Option<u8>;

    /// What the non-failing read gives for a character it does not know.
    spec fn fallback() -> u8;

    /// The character this converter writes for sextet `v` when handed `config`.
    spec fn char_of(&self, v: u8, config: ConfigView) -> u8;

    /// The sextet this converter reads `c` as when handed `config`, if any.
    spec fn read_of(&self, c: u8, config: ConfigView) -> Option<u8>;

    /// How many unknown characters the counting reads have met.
    spec fn unexpected_count(&self) -> usize;

    proof fn lemma_fresh_count(&self)
        requires
            self.is_fresh(),
        ensures
            self.unexpected_count() == 0,
    ;

    /// A converter that serves `config` writes the alphabet of `config` and reads as
    /// `sextet_of` says when it is handed `config`.
    proof fn lemma_fits(&self, config: ConfigView)
        requires
            self.fits(config),
        ensures
            forall|v: u8| v < 64 ==> #[trigger] self.char_of(v, config) == model::sextet_char(config, v),
            forall|c: u8| #[trigger] self.read_of(c, config) == Self::sextet_of(c, config),
    ;

    /// should append the converted value to buffer
    fn base_to_ascii(&self, val: u8, buffer: &mut Vec<u8>, config: &Config)
        requires
            val < 64,
        ensures
            final(buffer)@ == old(buffer)@.push(self.char_of(val, config@)),
    ;

    fn base_to_ascii_with_index(&self, val: u8, buffer: &mut [u8], config: &Config, index: usize)
        requires
            val < 64,
            index < old(buffer)@.len(),
        ensures
            final(buffer)@ == old(buffer)@.update(index as int, self.char_of(val, config@)),
    ;

    fn ascii_to_base(&mut self, val: &u8, config: &Config) -> (res: Option<u8>)
        ensures
            res == old(self).read_of(*val, config@),
            forall|v: u8, cf: ConfigView| #[trigger] final(self).char_of(v, cf) == old(self).char_of(v, cf),
            forall|c: u8, cf: ConfigView| #[trigger] final(self).read_of(c, cf) == old(self).read_of(c, cf),
            old(self).fits(config@) ==> final(self).fits(config@),
            res is Some ==> final(self).unexpected_count() == old(self).unexpected_count(),
            res is None ==> final(self).unexpected_count() == old(self).unexpected_count()
                || final(self).unexpected_count() == model::next_count(old(self).unexpected_count()),
    ;

    fn ascii_to_base_non_failing(&mut self, val: &u8, config: &Config) -> (res: u8)
        ensures
            res == (match old(self).read_of(*val, config@) {
                Some(v) => v,
                None => Self::fallback(),
            }),
            forall|v: u8, cf: ConfigView| #[trigger] final(self).char_of(v, cf) == old(self).char_of(v, cf),
            forall|c: u8, cf: ConfigView| #[trigger] final(self).read_of(c, cf) == old(self).read_of(c, cf),
            old(self).fits(config@) ==> final(self).fits(config@),
            final(self).unexpected_count() == (if old(self).read_of(*val, config@) is Some {
                old(self).unexpected_count()
            } else {
                model::next_count(old(self).unexpected_count())
            }),
    ;

    fn num_unexpected_chars(&self) -> (res: usize)
        ensures
            res == self.unexpected_count(),
    ;
}

} // verus!

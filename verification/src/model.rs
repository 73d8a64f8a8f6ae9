//! The meaning of Base64 in this library: alphabets, groups, encodings and decodings,
//! as functions on byte sequences.
use vstd::prelude::*;

use crate::{BaseAsciiConverter, ConfigView};

verus! {

/// `+`, `/` and `=` padding.
pub open spec fn standard_config() -> ConfigView {
    ConfigView { sixty_two: 43, sixty_three: 47, fill: seq![61u8] }
}

/// `-`, `_` and no padding.
pub open spec fn url_safe_config() -> ConfigView {
    ConfigView { sixty_two: 45, sixty_three: 95, fill: Seq::empty() }
}

/// The character of sextet `v` (for `v < 64`).
pub open spec fn sextet_char(cfg: ConfigView, v: u8) -> u8 {
    if v < 26 {
        (v + 65) as u8
    } else if v < 52 {
        (v + 71) as u8
    } else if v < 62 {
        (v - 4) as u8
    } else if v == 62 {
        cfg.sixty_two
    } else {
        cfg.sixty_three
    }
}

/// Whether `c` is an ASCII letter or digit.
pub open spec fn is_alnum(c: u8) -> bool {
    (65 <= c <= 90) || (97 <= c <= 122) || (48 <= c <= 57)
}

/// The sextet of a letter or digit.
pub open spec fn alnum_sextet(c: u8) -> Option<u8> {
    if 65 <= c <= 90 {
        Some((c - 65) as u8)
    } else if 97 <= c <= 122 {
        Some((c - 71) as u8)
    } else if 48 <= c <= 57 {
        Some((c + 4) as u8)
    } else {
        None
    }
}

/// A configuration whose encodings decode back: its two characters differ from each
/// other, from the letters and digits and from 255 (the byte that stands in for
/// missing characters), and its padding is at most one character that is none of these.
pub open spec fn is_sound(cfg: ConfigView) -> bool {
    &&& cfg.sixty_two != cfg.sixty_three
    &&& !is_alnum(cfg.sixty_two)
    &&& !is_alnum(cfg.sixty_three)
    &&& cfg.sixty_two != 255
    &&& cfg.sixty_three != 255
    &&& cfg.fill.len() <= 1
    &&& cfg.fill.len() == 1 ==> {
        &&& !is_alnum(cfg.fill[0])
        &&& cfg.fill[0] != cfg.sixty_two
        &&& cfg.fill[0] != cfg.sixty_three
    }
}

/// A configuration whose characters are all ASCII.
pub open spec fn is_ascii_config(cfg: ConfigView) -> bool {
    &&& cfg.sixty_two < 128
    &&& cfg.sixty_three < 128
    &&& forall|i: int| 0 <= i < cfg.fill.len() ==> #[trigger] cfg.fill[i] < 128
}

/// Whether every byte of `s` is ASCII.
pub open spec fn all_ascii(s: Seq<u8>) -> bool {
    forall|i: int| 0 <= i < s.len() ==> #[trigger] s[i] < 128
}

/// `cfg` without padding.
pub open spec fn without_fill(cfg: ConfigView) -> ConfigView {
    ConfigView { sixty_two: cfg.sixty_two, sixty_three: cfg.sixty_three, fill: Seq::empty() }
}

/// What a character of the standard alphabet becomes under `cfg`: `+`, `/` and `=` are
/// replaced by `sixty_two`, `sixty_three` and the padding, anything else stays.
pub open spec fn substitute_char(cfg: ConfigView, c: u8) -> Seq<u8> {
    if c == 43 {
        seq![cfg.sixty_two]
    } else if c == 47 {
        seq![cfg.sixty_three]
    } else if c == 61 {
        cfg.fill
    } else {
        seq![c]
    }
}

/// Every character of `s` replaced as `substitute_char` says.
pub open spec fn substitute(cfg: ConfigView, s: Seq<u8>) -> Seq<u8>
    decreases s.len(),
{
    if s.len() == 0 {
        Seq::empty()
    } else {
        substitute_char(cfg, s[0]) + substitute(cfg, s.skip(1))
    }
}

/* Encoding */

/// The first sextet of a group of three bytes.
pub open spec fn sextet0(b0: u8) -> u8 {
    b0 >> 2u8
}

/// The second sextet of a group of three bytes.
pub open spec fn sextet1(b0: u8, b1: u8) -> u8 {
    ((b0 & 3u8) << 4u8) | (b1 >> 4u8)
}

/// The third sextet of a group of three bytes.
pub open spec fn sextet2(b1: u8, b2: u8) -> u8 {
    ((b1 & 15u8) << 2u8) | (b2 >> 6u8)
}

/// The fourth sextet of a group of three bytes.
pub open spec fn sextet3(b2: u8) -> u8 {
    b2 & 63u8
}

/// The characters written for the group `b0 b1 b2` when `paddings` of its bytes are
/// missing: 2 replaces the last two characters by the padding, 1 the last one.
pub open spec fn group_chars(cfg: ConfigView, b0: u8, b1: u8, b2: u8, paddings: u8) -> Seq<u8> {
    seq![sextet_char(cfg, sextet0(b0)), sextet_char(cfg, sextet1(b0, b1))] + (if paddings == 2 {
        cfg.fill
    } else {
        seq![sextet_char(cfg, sextet2(b1, b2))]
    }) + (if paddings == 1 || paddings == 2 {
        cfg.fill
    } else {
        seq![sextet_char(cfg, sextet3(b2))]
    })
}

/// The Base64 encoding of `input`: every group of three bytes becomes four characters,
/// and a last group of one or two bytes is completed with zero bytes and padding.
pub open spec fn encoding(cfg: ConfigView, input: Seq<u8>) -> Seq<u8>
    decreases input.len(),
{
    if input.len() == 0 {
        Seq::empty()
    } else if input.len() == 1 {
        group_chars(cfg, input[0], 0, 0, 2)
    } else if input.len() == 2 {
        group_chars(cfg, input[0], input[1], 0, 1)
    } else {
        group_chars(cfg, input[0], input[1], input[2], 0) + encoding(cfg, input.skip(3))
    }
}

/// The four characters that the parallel encoder writes for a chunk of one to three
/// bytes: missing characters become the first byte of the padding.
pub open spec fn chunk_chars(cfg: ConfigView, chunk: Seq<u8>) -> Seq<u8> {
    let b0 = chunk[0];
    let b1: u8 = if chunk.len() >= 2 { chunk[1] } else { 0 };
    let b2: u8 = if chunk.len() >= 3 { chunk[2] } else { 0 };
    seq![
        sextet_char(cfg, sextet0(b0)),
        sextet_char(cfg, sextet1(b0, b1)),
        if chunk.len() >= 2 { sextet_char(cfg, sextet2(b1, b2)) } else { cfg.fill[0] },
        if chunk.len() >= 3 { sextet_char(cfg, sextet3(b2)) } else { cfg.fill[0] },
    ]
}

/// The output of the parallel encoder: one chunk of four characters for every chunk of
/// three input bytes.
pub open spec fn parallel_encoding(cfg: ConfigView, input: Seq<u8>) -> Seq<u8>
    decreases input.len(),
{
    if input.len() == 0 {
        Seq::empty()
    } else if input.len() <= 3 {
        chunk_chars(cfg, input)
    } else {
        chunk_chars(cfg, input.take(3)) + parallel_encoding(cfg, input.skip(3))
    }
}

/// The number of chunks of at most `size` elements that a sequence of `len` splits into.
pub open spec fn chunk_count(len: int, size: int) -> int {
    (len + size - 1) / size
}

/// Chunk `k` of `s` when `s` is cut into chunks of `size` elements (the last one may be shorter).
pub open spec fn chunk_at(s: Seq<u8>, k: int, size: int) -> Seq<u8> {
    let start = k * size;
    let end = if start + size <= s.len() {
        start + size
    } else {
        s.len() as int
    };
    s.subrange(start, end)
}

/// The three bytes made of the first four sextet values of `q`.
pub open spec fn join_quad(q: Seq<u8>) -> Seq<u8> {
    join_sextets(q[0], q[1], q[2], q[3])
}

/// When the parallel encoder accepts `input`: its buffer size must fit in a `usize`,
/// a partial last chunk needs a padding byte, and the text must be valid UTF-8.
pub open spec fn parallel_encodable(cfg: ConfigView, input: Seq<u8>) -> bool {
    &&& input.len() * 4 <= usize::MAX
    &&& (input.len() % 3 != 0 ==> cfg.fill.len() >= 1)
    &&& vstd::utf8::valid_utf8(parallel_encoding(cfg, input))
}

/* Decoding */

/// The counter after one more unexpected character (it wraps around).
pub open spec fn next_count(n: usize) -> usize {
    if n == usize::MAX {
        0
    } else {
        (n + 1) as usize
    }
}

/// The value that converter `C` reads for `c`: its sextet, or its fallback.
pub open spec fn read_value<C: BaseAsciiConverter>(cfg: ConfigView, c: u8) -> u8 {
    match C::sextet_of(c, cfg) {
        Some(v) => v,
        None => C::fallback(),
    }
}

/// 1 when `C` does not know `c`, else 0.
pub open spec fn miss<C: BaseAsciiConverter>(cfg: ConfigView, c: u8) -> nat {
    if C::sextet_of(c, cfg) is Some {
        0
    } else {
        1
    }
}

/// The three bytes made of four sextet values.
pub open spec fn join_sextets(a0: u8, a1: u8, a2: u8, a3: u8) -> Seq<u8> {
    seq![(a0 << 2u8) | (a1 >> 4u8), (a1 << 4u8) | (a2 >> 2u8), (a2 << 6u8) | a3]
}

/// The three bytes decoded from the first four characters of `q`.
pub open spec fn quad_bytes<C: BaseAsciiConverter>(cfg: ConfigView, q: Seq<u8>) -> Seq<u8> {
    join_sextets(
        read_value::<C>(cfg, q[0]),
        read_value::<C>(cfg, q[1]),
        read_value::<C>(cfg, q[2]),
        read_value::<C>(cfg, q[3]),
    )
}

/// The unexpected characters counted while decoding the first four characters of `q`:
/// the middle two are read twice.
pub open spec fn quad_misses<C: BaseAsciiConverter>(cfg: ConfigView, q: Seq<u8>) -> nat {
    miss::<C>(cfg, q[0]) + 2 * miss::<C>(cfg, q[1]) + 2 * miss::<C>(cfg, q[2]) + miss::<C>(
        cfg,
        q[3],
    )
}

/// The bytes decoded from every full group of four characters of `p`.
pub open spec fn quads_bytes<C: BaseAsciiConverter>(cfg: ConfigView, p: Seq<u8>) -> Seq<u8>
    decreases p.len(),
{
    if p.len() < 4 {
        Seq::empty()
    } else {
        quad_bytes::<C>(cfg, p) + quads_bytes::<C>(cfg, p.skip(4))
    }
}

/// The unexpected characters counted over every full group of four characters of `p`.
pub open spec fn quads_misses<C: BaseAsciiConverter>(cfg: ConfigView, p: Seq<u8>) -> nat
    decreases p.len(),
{
    if p.len() < 4 {
        0
    } else {
        quad_misses::<C>(cfg, p) + quads_misses::<C>(cfg, p.skip(4))
    }
}

/// `s` completed with bytes 255 to a multiple of four.
pub open spec fn pad_to_quads(s: Seq<u8>) -> Seq<u8> {
    s + Seq::new(((4 - s.len() % 4) % 4) as nat, |i: int| 255u8)
}

/// How many decoded bytes are dropped when the counter ends at `count`.
pub open spec fn dropped(count: nat) -> nat {
    if count == 0 {
        0
    } else if count <= 2 {
        1
    } else {
        2
    }
}

/// `raw` without its last `dropped(count)` bytes.
pub open spec fn trimmed(raw: Seq<u8>, count: nat) -> Seq<u8> {
    if raw.len() >= dropped(count) {
        raw.take(raw.len() - dropped(count))
    } else {
        Seq::empty()
    }
}

/// The unexpected characters that decoding `s` counts.
pub open spec fn unexpected_in<C: BaseAsciiConverter>(cfg: ConfigView, s: Seq<u8>) -> nat {
    quads_misses::<C>(cfg, pad_to_quads(s))
}

/// What decoding `s` gives when the counter stood at `prior` before: the groups of four
/// characters (the last one completed with bytes 255) turned into bytes, less the bytes
/// that the final count of unexpected characters drops.
pub open spec fn decoding<C: BaseAsciiConverter>(cfg: ConfigView, s: Seq<u8>, prior: nat) -> Seq<
    u8,
> {
    trimmed(quads_bytes::<C>(cfg, pad_to_quads(s)), prior + unexpected_in::<C>(cfg, s))
}

/// When the parallel decoder accepts `s`: every group is full, save at most one trailing
/// character, which is ignored; the buffer size fits in a `usize`; the padding has a
/// first byte when there is a group; and the final count is at most 3.
pub open spec fn parallel_decodable<C: BaseAsciiConverter>(
    cfg: ConfigView,
    s: Seq<u8>,
    prior: nat,
) -> bool {
    &&& s.len() % 4 == 0 || s.len() % 4 == 1
    &&& s.len() * 3 <= usize::MAX
    &&& (s.len() >= 4 ==> cfg.fill.len() >= 1)
    &&& prior + quads_misses::<C>(cfg, s) <= 3
}

/// What the parallel decoder gives for `s`: the full groups of four characters turned
/// into bytes, less the bytes that the final count drops.
pub open spec fn parallel_decoding<C: BaseAsciiConverter>(
    cfg: ConfigView,
    s: Seq<u8>,
    prior: nat,
) -> Seq<u8> {
    trimmed(quads_bytes::<C>(cfg, s), prior + quads_misses::<C>(cfg, s))
}

/* What a given converter does when it is handed a configuration it may not serve */

/// The four characters that the parallel encoder writes for a chunk when `conv` writes
/// the sextets and `cfg` gives the padding.
pub open spec fn chunk_chars_by<C: BaseAsciiConverter>(conv: C, cfg: ConfigView, chunk: Seq<u8>) -> Seq<u8> {
    let b0 = chunk[0];
    let b1: u8 = if chunk.len() >= 2 { chunk[1] } else { 0 };
    let b2: u8 = if chunk.len() >= 3 { chunk[2] } else { 0 };
    seq![
        conv.char_of(sextet0(b0), cfg),
        conv.char_of(sextet1(b0, b1), cfg),
        if chunk.len() >= 2 { conv.char_of(sextet2(b1, b2), cfg) } else { cfg.fill[0] },
        if chunk.len() >= 3 { conv.char_of(sextet3(b2), cfg) } else { cfg.fill[0] },
    ]
}

/// The output of the parallel encoder whose converter is `conv`.
pub open spec fn parallel_encoding_by<C: BaseAsciiConverter>(conv: C, cfg: ConfigView, input: Seq<u8>) -> Seq<u8>
    decreases input.len(),
{
    if input.len() == 0 {
        Seq::empty()
    } else if input.len() <= 3 {
        chunk_chars_by(conv, cfg, input)
    } else {
        chunk_chars_by(conv, cfg, input.take(3)) + parallel_encoding_by(conv, cfg, input.skip(3))
    }
}

/// When the parallel encoder whose converter is `conv` accepts `input`.
pub open spec fn parallel_encodable_by<C: BaseAsciiConverter>(conv: C, cfg: ConfigView, input: Seq<u8>) -> bool {
    &&& input.len() * 4 <= usize::MAX
    &&& (input.len() % 3 != 0 ==> cfg.fill.len() >= 1)
    &&& vstd::utf8::valid_utf8(parallel_encoding_by(conv, cfg, input))
}

/// The value that `conv` reads for `c`: its sextet, or the fallback of its type.
pub open spec fn read_by<C: BaseAsciiConverter>(conv: C, cfg: ConfigView, c: u8) -> u8 {
    match conv.read_of(c, cfg) {
        Some(v) => v,
        None => C::fallback(),
    }
}

/// 1 when `conv` does not know `c`, else 0.
pub open spec fn miss_by<C: BaseAsciiConverter>(conv: C, cfg: ConfigView, c: u8) -> nat {
    if conv.read_of(c, cfg) is Some {
        0
    } else {
        1
    }
}

/// The three bytes that `conv` decodes from the first four characters of `q`.
pub open spec fn quad_bytes_by<C: BaseAsciiConverter>(conv: C, cfg: ConfigView, q: Seq<u8>) -> Seq<u8> {
    join_sextets(read_by(conv, cfg, q[0]), read_by(conv, cfg, q[1]), read_by(conv, cfg, q[2]), read_by(conv, cfg, q[3]))
}

/// The unexpected characters that `conv` counts on the first four characters of `q`.
pub open spec fn quad_misses_by<C: BaseAsciiConverter>(conv: C, cfg: ConfigView, q: Seq<u8>) -> nat {
    miss_by(conv, cfg, q[0]) + 2 * miss_by(conv, cfg, q[1]) + 2 * miss_by(conv, cfg, q[2]) + miss_by(conv, cfg, q[3])
}

/// The bytes that `conv` decodes from every full group of four characters of `p`.
pub open spec fn quads_bytes_by<C: BaseAsciiConverter>(conv: C, cfg: ConfigView, p: Seq<u8>) -> Seq<u8>
    decreases p.len(),
{
    if p.len() < 4 {
        Seq::empty()
    } else {
        quad_bytes_by(conv, cfg, p) + quads_bytes_by(conv, cfg, p.skip(4))
    }
}

/// The unexpected characters that `conv` counts over every full group of four characters of `p`.
pub open spec fn quads_misses_by<C: BaseAsciiConverter>(conv: C, cfg: ConfigView, p: Seq<u8>) -> nat
    decreases p.len(),
{
    if p.len() < 4 {
        0
    } else {
        quad_misses_by(conv, cfg, p) + quads_misses_by(conv, cfg, p.skip(4))
    }
}

/// When the parallel decoder whose converter is `conv` accepts `s`, the counter standing at `prior`.
pub open spec fn parallel_decodable_by<C: BaseAsciiConverter>(conv: C, cfg: ConfigView, s: Seq<u8>, prior: nat) -> bool {
    &&& s.len() % 4 == 0 || s.len() % 4 == 1
    &&& s.len() * 3 <= usize::MAX
    &&& (s.len() >= 4 ==> cfg.fill.len() >= 1)
    &&& prior + quads_misses_by(conv, cfg, s) <= 3
}

/// What the parallel decoder whose converter is `conv` gives for `s`.
pub open spec fn parallel_decoding_by<C: BaseAsciiConverter>(conv: C, cfg: ConfigView, s: Seq<u8>, prior: nat) -> Seq<u8> {
    trimmed(quads_bytes_by(conv, cfg, s), prior + quads_misses_by(conv, cfg, s))
}

/// A converter that serves `cfg` decodes as its type does.
pub proof fn lemma_reads_when_fitting<C: BaseAsciiConverter>(conv: C, cfg: ConfigView, p: Seq<u8>)
    requires
        conv.fits(cfg),
    ensures
        quads_bytes_by(conv, cfg, p) == quads_bytes::<C>(cfg, p),
        quads_misses_by(conv, cfg, p) == quads_misses::<C>(cfg, p),
    decreases p.len(),
{
    conv.lemma_fits(cfg);
    if p.len() >= 4 {
        lemma_reads_when_fitting(conv, cfg, p.skip(4));
        assert(quad_bytes_by(conv, cfg, p) == quad_bytes::<C>(cfg, p));
    }
}

/// A converter that serves `cfg` encodes in parallel as the alphabet of `cfg` says.
pub proof fn lemma_writes_when_fitting<C: BaseAsciiConverter>(conv: C, cfg: ConfigView, x: Seq<u8>)
    requires
        conv.fits(cfg),
    ensures
        parallel_encoding_by(conv, cfg, x) == parallel_encoding(cfg, x),
    decreases x.len(),
{
    conv.lemma_fits(cfg);
    if x.len() > 0 {
        let t = if x.len() <= 3 { x } else { x.take(3) };
        let b1: u8 = if t.len() >= 2 { t[1] } else { 0 };
        let b2: u8 = if t.len() >= 3 { t[2] } else { 0 };
        lemma_sextets_bound(t[0], b1, b2);
        assert(chunk_chars_by(conv, cfg, t) =~= chunk_chars(cfg, t));
        if x.len() > 3 {
            lemma_writes_when_fitting(conv, cfg, x.skip(3));
        }
    }
}

/* Lemmas */

/// The four sextets of a group are below 64.
pub proof fn lemma_sextets_bound(b0: u8, b1: u8, b2: u8)
    ensures
        sextet0(b0) < 64,
        sextet1(b0, b1) < 64,
        sextet2(b1, b2) < 64,
        sextet3(b2) < 64,
{
    assert(b0 >> 2u8 < 64) by (bit_vector);
    assert(((b0 & 3u8) << 4u8) | (b1 >> 4u8) < 64) by (bit_vector);
    assert(((b1 & 15u8) << 2u8) | (b2 >> 6u8) < 64) by (bit_vector);
    assert(b2 & 63u8 < 64) by (bit_vector);
}

/// Joining the sextets of a group gives the group back; a partial group gives back
/// its first bytes, whatever stands for the missing sextets.
pub proof fn lemma_join_sextets(b0: u8, b1: u8, b2: u8, x: u8, y: u8)
    ensures
        join_sextets(sextet0(b0), sextet1(b0, b1), sextet2(b1, b2), sextet3(b2)) == seq![
            b0,
            b1,
            b2,
        ],
        join_sextets(sextet0(b0), sextet1(b0, 0), x, y)[0] == b0,
        join_sextets(sextet0(b0), sextet1(b0, b1), sextet2(b1, 0), y)[0] == b0,
        join_sextets(sextet0(b0), sextet1(b0, b1), sextet2(b1, 0), y)[1] == b1,
{
    assert((b0 >> 2u8) << 2u8 | ((((b0 & 3u8) << 4u8) | (b1 >> 4u8)) >> 4u8) == b0)
        by (bit_vector);
    assert(((((b0 & 3u8) << 4u8) | (b1 >> 4u8)) << 4u8) | ((((b1 & 15u8) << 2u8) | (b2
        >> 6u8)) >> 2u8) == b1) by (bit_vector);
    assert(((((b1 & 15u8) << 2u8) | (b2 >> 6u8)) << 6u8) | (b2 & 63u8) == b2) by (bit_vector);
    assert((b0 >> 2u8) << 2u8 | ((((b0 & 3u8) << 4u8) | (0u8 >> 4u8)) >> 4u8) == b0)
        by (bit_vector);
    assert(((((b0 & 3u8) << 4u8) | (b1 >> 4u8)) << 4u8) | ((((b1 & 15u8) << 2u8) | (0u8
        >> 6u8)) >> 2u8) == b1) by (bit_vector);
    assert(join_sextets(sextet0(b0), sextet1(b0, b1), sextet2(b1, b2), sextet3(b2)) =~= seq![
        b0,
        b1,
        b2,
    ]);
}

/// An ASCII configuration encodes into ASCII, hence into valid UTF-8.
pub proof fn lemma_encoding_ascii(cfg: ConfigView, input: Seq<u8>)
    requires
        is_ascii_config(cfg),
    ensures
        all_ascii(encoding(cfg, input)),
        vstd::utf8::valid_utf8(encoding(cfg, input)),
    decreases input.len(),
{
    let e = encoding(cfg, input);
    assert forall|b0: u8, b1: u8, b2: u8, p: u8| all_ascii(#[trigger] group_chars(cfg, b0, b1, b2, p)) by {
        lemma_sextets_bound(b0, b1, b2);
        let g = group_chars(cfg, b0, b1, b2, p);
        assert forall|i: int| 0 <= i < g.len() implies #[trigger] g[i] < 128 by {
            lemma_sextet_char_ascii(cfg, sextet0(b0));
            lemma_sextet_char_ascii(cfg, sextet1(b0, b1));
            lemma_sextet_char_ascii(cfg, sextet2(b1, b2));
            lemma_sextet_char_ascii(cfg, sextet3(b2));
        }
    }
    if input.len() >= 3 {
        lemma_encoding_ascii(cfg, input.skip(3));
        let g = group_chars(cfg, input[0], input[1], input[2], 0);
        let r = encoding(cfg, input.skip(3));
        assert forall|i: int| 0 <= i < e.len() implies #[trigger] e[i] < 128 by {
            if i < g.len() {
                assert(e[i] == g[i]);
            } else {
                assert(e[i] == r[i - g.len()]);
            }
        }
    }
    lemma_ascii_valid_utf8(e);
}

/// The character of a sextet under an ASCII configuration is ASCII.
pub proof fn lemma_sextet_char_ascii(cfg: ConfigView, v: u8)
    requires
        is_ascii_config(cfg),
        v < 64,
    ensures
        sextet_char(cfg, v) < 128,
{
}

/// ASCII bytes are valid UTF-8.
pub proof fn lemma_ascii_valid_utf8(s: Seq<u8>)
    requires
        all_ascii(s),
    ensures
        vstd::utf8::valid_utf8(s),
{
    assert(s.subrange(0, 0) =~= Seq::<u8>::empty());
    assert(vstd::utf8::partial_valid_utf8(s, 0));
    vstd::utf8::partial_valid_utf8_extend_ascii_block(s, 0, s.len() as int);
    assert(s.subrange(0, s.len() as int) =~= s);
}

} // verus!

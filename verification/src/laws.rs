//! Properties that tie the encodings and decodings of the library together.
use vstd::prelude::*;

use crate::fast::FastConverter;
use crate::memory_efficient::MemoryEfficientBaseAsciiConverter;
use crate::model;
use crate::{BaseAsciiConverter, ConfigView, FromConfig};

verus! {

/// Converter `C` reads every character of the alphabet of `cfg` back as its sextet,
/// and reads neither the padding (at most one character) nor byte 255.
pub open spec fn reads_alphabet<C: BaseAsciiConverter>(cfg: ConfigView) -> bool {
    &&& forall|v: u8| v < 64 ==> #[trigger] C::sextet_of(model::sextet_char(cfg, v), cfg) == Some(v)
    &&& cfg.fill.len() <= 1
    &&& cfg.fill.len() == 1 ==> C::sextet_of(cfg.fill[0], cfg) is None
    &&& C::sextet_of(255u8, cfg) is None
}

/// Both converters read the alphabet of a sound configuration back.
pub proof fn lemma_sound_reads_alphabet(cfg: ConfigView)
    requires
        model::is_sound(cfg),
    ensures
        reads_alphabet::<FastConverter>(cfg),
        reads_alphabet::<MemoryEfficientBaseAsciiConverter>(cfg),
{
}

/// The standard and the URL-safe configurations are sound and ASCII.
pub proof fn law_builtin_configs()
    ensures
        model::is_sound(model::standard_config()),
        model::is_ascii_config(model::standard_config()),
        model::is_sound(model::url_safe_config()),
        model::is_ascii_config(model::url_safe_config()),
{
}

/// On a configuration whose two characters differ, the two converters read every
/// character alike (they only disagree on which of the two wins when they are equal).
pub proof fn law_converters_agree(cfg: ConfigView, c: u8)
    requires
        cfg.sixty_two != cfg.sixty_three,
    ensures
        FastConverter::sextet_of(c, cfg) == MemoryEfficientBaseAsciiConverter::sextet_of(c, cfg),
{
}

/// Groups of four characters in front of the rest decode to their own bytes in front.
proof fn lemma_quads_prepend<C: BaseAsciiConverter>(cfg: ConfigView, g: Seq<u8>, r: Seq<u8>)
    requires
        g.len() == 4,
    ensures
        model::quads_bytes::<C>(cfg, g + r) == model::quad_bytes::<C>(cfg, g)
            + model::quads_bytes::<C>(cfg, r),
        model::quads_misses::<C>(cfg, g + r) == model::quad_misses::<C>(cfg, g)
            + model::quads_misses::<C>(cfg, r),
{
    let gr = g + r;
    assert(gr.skip(4) =~= r);
    assert(gr[0] == g[0] && gr[1] == g[1] && gr[2] == g[2] && gr[3] == g[3]);
    assert(model::quad_bytes::<C>(cfg, gr) == model::quad_bytes::<C>(cfg, g));
}

/// Completing to whole groups leaves a leading group of four alone.
proof fn lemma_pad_prepend(g: Seq<u8>, r: Seq<u8>)
    requires
        g.len() == 4,
    ensures
        model::pad_to_quads(g + r) == g + model::pad_to_quads(r),
{
    assert((4 - (g + r).len() % 4) % 4 == (4 - r.len() % 4) % 4);
    assert(model::pad_to_quads(g + r) =~= g + model::pad_to_quads(r));
}

/// Decoding the groups of an encoding gives the input back followed by the bytes that
/// the final count drops, and that count is at most 3.
proof fn lemma_encoding_quads<C: BaseAsciiConverter>(cfg: ConfigView, x: Seq<u8>)
    requires
        reads_alphabet::<C>(cfg),
    ensures
        ({
            let p = model::pad_to_quads(model::encoding(cfg, x));
            let raw = model::quads_bytes::<C>(cfg, p);
            let m = model::quads_misses::<C>(cfg, p);
            &&& m <= 3
            &&& raw.len() == x.len() + model::dropped(m)
            &&& raw.take(x.len() as int) == x
        }),
    decreases x.len(),
{
    let e = model::encoding(cfg, x);
    let p = model::pad_to_quads(e);
    let empty = Seq::<u8>::empty();
    if x.len() == 0 {
        assert(p =~= empty);
        assert(x =~= empty);
    } else if x.len() <= 2 {
        let b0 = x[0];
        let b1: u8 = if x.len() == 2 {
            x[1]
        } else {
            0
        };
        let s0 = model::sextet0(b0);
        let s1 = model::sextet1(b0, b1);
        let s2 = model::sextet2(b1, 0);
        model::lemma_sextets_bound(b0, b1, 0);
        assert(C::sextet_of(model::sextet_char(cfg, s0), cfg) == Some(s0));
        assert(C::sextet_of(model::sextet_char(cfg, s1), cfg) == Some(s1));
        assert(C::sextet_of(model::sextet_char(cfg, s2), cfg) == Some(s2));
        assert(p.len() == 4);
        assert(p.skip(4) =~= empty);
        assert(model::quads_misses::<C>(cfg, p.skip(4)) == 0);
        assert(model::quads_bytes::<C>(cfg, p.skip(4)) =~= empty);
        assert(p[0] == model::sextet_char(cfg, s0));
        assert(p[1] == model::sextet_char(cfg, s1));
        assert(C::sextet_of(p[3], cfg) is None);
        if x.len() == 1 {
            assert(C::sextet_of(p[2], cfg) is None);
            model::lemma_join_sextets(b0, 0, 0, model::read_value::<C>(cfg, p[2]), model::read_value::<C>(cfg, p[3]));
        } else {
            assert(p[2] == model::sextet_char(cfg, s2));
            model::lemma_join_sextets(b0, b1, 0, 0, model::read_value::<C>(cfg, p[3]));
        }
        let raw = model::quads_bytes::<C>(cfg, p);
        assert(raw =~= model::quad_bytes::<C>(cfg, p));
        assert(raw.take(x.len() as int) =~= x);
    } else {
        let b0 = x[0];
        let b1 = x[1];
        let b2 = x[2];
        let g = model::group_chars(cfg, b0, b1, b2, 0);
        let rest = model::encoding(cfg, x.skip(3));
        model::lemma_sextets_bound(b0, b1, b2);
        model::lemma_join_sextets(b0, b1, b2, 0, 0);
        assert(g.len() == 4);
        assert(C::sextet_of(g[0], cfg) == Some(model::sextet0(b0)));
        assert(C::sextet_of(g[1], cfg) == Some(model::sextet1(b0, b1)));
        assert(C::sextet_of(g[2], cfg) == Some(model::sextet2(b1, b2)));
        assert(C::sextet_of(g[3], cfg) == Some(model::sextet3(b2)));
        lemma_pad_prepend(g, rest);
        lemma_quads_prepend::<C>(cfg, g, model::pad_to_quads(rest));
        lemma_encoding_quads::<C>(cfg, x.skip(3));
        let raw = model::quads_bytes::<C>(cfg, p);
        let raw_rest = model::quads_bytes::<C>(cfg, model::pad_to_quads(rest));
        assert(model::quad_bytes::<C>(cfg, g) =~= seq![b0, b1, b2]);
        assert(raw =~= seq![b0, b1, b2] + raw_rest);
        assert(raw.take(x.len() as int) =~= seq![b0, b1, b2] + raw_rest.take(x.len() - 3));
        assert(x =~= seq![b0, b1, b2] + x.skip(3));
    }
}

/// Decoding what a converter that reads the alphabet back was given to encode gives the
/// input back, with at most 3 unexpected characters counted on the way.
pub proof fn law_decode_inverts_encode<C: BaseAsciiConverter>(cfg: ConfigView, x: Seq<u8>)
    requires
        reads_alphabet::<C>(cfg),
    ensures
        model::unexpected_in::<C>(cfg, model::encoding(cfg, x)) <= 3,
        model::decoding::<C>(cfg, model::encoding(cfg, x), 0) == x,
{
    lemma_encoding_quads::<C>(cfg, x);
    let p = model::pad_to_quads(model::encoding(cfg, x));
    let raw = model::quads_bytes::<C>(cfg, p);
    assert(model::decoding::<C>(cfg, model::encoding(cfg, x), 0) =~= raw.take(x.len() as int));
}

/// Decoding the encoding of any bytes under a sound configuration gives the bytes back,
/// with either converter; in particular under the standard and the URL-safe configurations.
pub proof fn law_roundtrip(cfg: ConfigView, x: Seq<u8>)
    requires
        model::is_sound(cfg),
    ensures
        model::unexpected_in::<FastConverter>(cfg, model::encoding(cfg, x)) <= 3,
        model::decoding::<FastConverter>(cfg, model::encoding(cfg, x), 0) == x,
        model::unexpected_in::<MemoryEfficientBaseAsciiConverter>(cfg, model::encoding(cfg, x))
            <= 3,
        model::decoding::<MemoryEfficientBaseAsciiConverter>(cfg, model::encoding(cfg, x), 0)
            == x,
{
    lemma_sound_reads_alphabet(cfg);
    law_decode_inverts_encode::<FastConverter>(cfg, x);
    law_decode_inverts_encode::<MemoryEfficientBaseAsciiConverter>(cfg, x);
}

/// The parallel encoder writes what the sequential one writes whenever the padding is a
/// single character, or no padding is needed.
pub proof fn law_parallel_encoding_agrees(cfg: ConfigView, x: Seq<u8>)
    requires
        cfg.fill.len() == 1 || x.len() % 3 == 0,
    ensures
        model::parallel_encoding(cfg, x) == model::encoding(cfg, x),
    decreases x.len(),
{
    if x.len() == 0 {
    } else if x.len() < 3 {
        assert(model::parallel_encoding(cfg, x) =~= model::encoding(cfg, x));
    } else {
        law_parallel_encoding_agrees(cfg, x.skip(3));
        let t = x.take(3);
        assert(t[0] == x[0] && t[1] == x[1] && t[2] == x[2]);
        assert(model::chunk_chars(cfg, t) =~= model::group_chars(cfg, x[0], x[1], x[2], 0));
        if x.len() == 3 {
            assert(x.skip(3) =~= Seq::<u8>::empty());
            assert(t =~= x);
        }
    }
}

/// Without a partial group, the parallel decoder gives what the sequential one gives and
/// counts the same unexpected characters; a lone trailing character it ignores, decoding
/// as the sequential decoder decodes the text without it.
pub proof fn law_parallel_decoding_agrees<C: BaseAsciiConverter>(
    cfg: ConfigView,
    s: Seq<u8>,
    prior: nat,
)
    requires
        s.len() % 4 == 0 || s.len() % 4 == 1,
    ensures
        s.len() % 4 == 0 ==> model::quads_misses::<C>(cfg, s) == model::unexpected_in::<C>(cfg, s),
        s.len() % 4 == 0 ==> model::parallel_decoding::<C>(cfg, s, prior) == model::decoding::<C>(
            cfg,
            s,
            prior,
        ),
        s.len() % 4 == 1 ==> model::parallel_decoding::<C>(cfg, s, prior) == model::decoding::<C>(
            cfg,
            s.take(s.len() - 1),
            prior,
        ),
{
    if s.len() % 4 == 0 {
        assert(model::pad_to_quads(s) =~= s);
    } else {
        let t = s.take(s.len() - 1);
        assert(model::pad_to_quads(t) =~= t);
        lemma_quads_ignore_tail::<C>(cfg, s);
    }
}

/// A sequence one past a whole number of groups has the groups of its prefix.
proof fn lemma_quads_ignore_tail<C: BaseAsciiConverter>(cfg: ConfigView, s: Seq<u8>)
    requires
        s.len() % 4 == 1,
    ensures
        model::quads_bytes::<C>(cfg, s) == model::quads_bytes::<C>(cfg, s.take(s.len() - 1)),
        model::quads_misses::<C>(cfg, s) == model::quads_misses::<C>(cfg, s.take(s.len() - 1)),
    decreases s.len(),
{
    let t = s.take(s.len() - 1);
    if s.len() >= 4 {
        lemma_quads_ignore_tail::<C>(cfg, s.skip(4));
        assert(t.skip(4) =~= s.skip(4).take(s.skip(4).len() - 1));
        assert(t[0] == s[0] && t[1] == s[1] && t[2] == s[2] && t[3] == s[3]);
        assert(model::quad_bytes::<C>(cfg, t) == model::quad_bytes::<C>(cfg, s));
    }
}

/// Encoding distributes over a cut at a group boundary.
pub proof fn law_encoding_concat(cfg: ConfigView, x: Seq<u8>, y: Seq<u8>)
    requires
        x.len() % 3 == 0,
    ensures
        model::encoding(cfg, x + y) == model::encoding(cfg, x) + model::encoding(cfg, y),
    decreases x.len(),
{
    if x.len() == 0 {
        assert(x + y =~= y);
        assert(model::encoding(cfg, x) + model::encoding(cfg, y) =~= model::encoding(cfg, y));
    } else {
        let xy = x + y;
        law_encoding_concat(cfg, x.skip(3), y);
        assert(xy.skip(3) =~= x.skip(3) + y);
        assert(xy[0] == x[0] && xy[1] == x[1] && xy[2] == x[2]);
        assert(model::encoding(cfg, xy) =~= model::encoding(cfg, x) + model::encoding(cfg, y));
    }
}

/// With one padding character, every group of up to three bytes becomes four characters.
pub proof fn law_encoding_length(cfg: ConfigView, x: Seq<u8>)
    requires
        cfg.fill.len() == 1,
    ensures
        model::encoding(cfg, x).len() == 4 * model::chunk_count(x.len() as int, 3),
    decreases x.len(),
{
    if x.len() >= 3 {
        law_encoding_length(cfg, x.skip(3));
    }
}

/// The encoding under a configuration with one padding character is the encoding without
/// padding followed by one padding character for every missing byte.
pub proof fn law_padding_appended(cfg: ConfigView, x: Seq<u8>)
    requires
        cfg.fill.len() == 1,
    ensures
        model::encoding(cfg, x) == model::encoding(model::without_fill(cfg), x) + Seq::new(
            ((3 - x.len() % 3) % 3) as nat,
            |i: int| cfg.fill[0],
        ),
    decreases x.len(),
{
    let nf = model::without_fill(cfg);
    if x.len() >= 3 {
        law_padding_appended(cfg, x.skip(3));
        assert(model::group_chars(cfg, x[0], x[1], x[2], 0) =~= model::group_chars(nf, x[0], x[1], x[2], 0));
        assert(model::encoding(cfg, x) =~= model::encoding(nf, x) + Seq::new(
            ((3 - x.len() % 3) % 3) as nat,
            |i: int| cfg.fill[0],
        ));
    } else if x.len() == 2 {
        assert(model::encoding(cfg, x) =~= model::encoding(nf, x) + Seq::new(1, |i: int| cfg.fill[0]));
    } else if x.len() == 1 {
        assert(model::encoding(cfg, x) =~= model::encoding(nf, x) + Seq::new(2, |i: int| cfg.fill[0]));
    } else {
        assert(model::encoding(cfg, x) =~= model::encoding(nf, x) + Seq::new(0, |i: int| cfg.fill[0]));
    }
}

proof fn lemma_substitute_concat(cfg: ConfigView, a: Seq<u8>, b: Seq<u8>)
    ensures
        model::substitute(cfg, a + b) == model::substitute(cfg, a) + model::substitute(cfg, b),
    decreases a.len(),
{
    if a.len() == 0 {
        assert(a + b =~= b);
        assert(model::substitute(cfg, a) + model::substitute(cfg, b) =~= model::substitute(cfg, b));
    } else {
        lemma_substitute_concat(cfg, a.skip(1), b);
        assert((a + b).skip(1) =~= a.skip(1) + b);
        assert((a + b)[0] == a[0]);
        assert(model::substitute(cfg, a + b) =~= model::substitute(cfg, a) + model::substitute(cfg, b));
    }
}

proof fn lemma_substitute_one(cfg: ConfigView, c: u8)
    ensures
        model::substitute(cfg, seq![c]) == model::substitute_char(cfg, c),
{
    let one = seq![c];
    assert(one.skip(1) =~= Seq::<u8>::empty());
    assert(model::substitute(cfg, one.skip(1)) =~= Seq::<u8>::empty());
    assert(one[0] == c);
    assert(model::substitute(cfg, one) =~= model::substitute_char(cfg, c));
}

/// A sextet's standard character becomes its character under `cfg`.
proof fn lemma_substitute_sextet(cfg: ConfigView, v: u8)
    requires
        v < 64,
    ensures
        model::substitute(cfg, seq![model::sextet_char(model::standard_config(), v)]) == seq![
            model::sextet_char(cfg, v),
        ],
{
    lemma_substitute_one(cfg, model::sextet_char(model::standard_config(), v));
}

/// The encoding under any configuration is the standard encoding with `+`, `/` and `=`
/// replaced by `sixty_two`, `sixty_three` and the padding; under the URL-safe
/// configuration `+` becomes `-`, `/` becomes `_` and `=` is dropped.
pub proof fn law_encoding_substitutes(cfg: ConfigView, x: Seq<u8>)
    ensures
        model::encoding(cfg, x) == model::substitute(cfg, model::encoding(model::standard_config(), x)),
    decreases x.len(),
{
    let std = model::standard_config();
    if x.len() == 0 {
        assert(model::substitute(cfg, Seq::<u8>::empty()) =~= Seq::<u8>::empty());
    } else {
        let b0 = x[0];
        let b1: u8 = if x.len() >= 2 { x[1] } else { 0 };
        let b2: u8 = if x.len() >= 3 { x[2] } else { 0 };
        let p: u8 = if x.len() == 1 { 2 } else if x.len() == 2 { 1 } else { 0 };
        model::lemma_sextets_bound(b0, b1, b2);
        let c0 = seq![model::sextet_char(std, model::sextet0(b0))];
        let c1 = seq![model::sextet_char(std, model::sextet1(b0, b1))];
        let c2 = if p == 2 { std.fill } else { seq![model::sextet_char(std, model::sextet2(b1, b2))] };
        let c3 = if p >= 1 { std.fill } else { seq![model::sextet_char(std, model::sextet3(b2))] };
        let g = model::group_chars(std, b0, b1, b2, p);
        assert(g =~= c0 + c1 + c2 + c3);
        lemma_substitute_concat(cfg, c0 + c1 + c2, c3);
        lemma_substitute_concat(cfg, c0 + c1, c2);
        lemma_substitute_concat(cfg, c0, c1);
        lemma_substitute_sextet(cfg, model::sextet0(b0));
        lemma_substitute_sextet(cfg, model::sextet1(b0, b1));
        lemma_substitute_sextet(cfg, model::sextet2(b1, b2));
        lemma_substitute_sextet(cfg, model::sextet3(b2));
        lemma_substitute_one(cfg, 61u8);
        assert(std.fill =~= seq![61u8]);
        assert(model::substitute(cfg, g) =~= model::group_chars(cfg, b0, b1, b2, p));
        if x.len() >= 3 {
            law_encoding_substitutes(cfg, x.skip(3));
            lemma_substitute_concat(cfg, g, model::encoding(std, x.skip(3)));
        } else {
            assert(model::encoding(std, x) == g);
            assert(model::encoding(cfg, x) == model::group_chars(cfg, b0, b1, b2, p));
        }
    }
}

/// Decoding depends on the configuration only through what the converter type reads.
proof fn lemma_quads_same_reading<C: BaseAsciiConverter>(cfg: ConfigView, cfg2: ConfigView, p: Seq<u8>)
    requires
        forall|c: u8| #[trigger] C::sextet_of(c, cfg) == C::sextet_of(c, cfg2),
    ensures
        model::quads_bytes::<C>(cfg, p) == model::quads_bytes::<C>(cfg2, p),
        model::quads_misses::<C>(cfg, p) == model::quads_misses::<C>(cfg2, p),
    decreases p.len(),
{
    if p.len() >= 4 {
        lemma_quads_same_reading::<C>(cfg, cfg2, p.skip(4));
        assert(model::quad_bytes::<C>(cfg, p) == model::quad_bytes::<C>(cfg2, p));
    }
}

/// Padding is optional on input: text encoded without padding decodes, under the padded
/// configuration, to the input, with either converter.
pub proof fn law_padding_optional(cfg: ConfigView, x: Seq<u8>)
    requires
        model::is_sound(cfg),
    ensures
        model::unexpected_in::<FastConverter>(cfg, model::encoding(model::without_fill(cfg), x)) <= 3,
        model::decoding::<FastConverter>(cfg, model::encoding(model::without_fill(cfg), x), 0) == x,
        model::unexpected_in::<MemoryEfficientBaseAsciiConverter>(
            cfg,
            model::encoding(model::without_fill(cfg), x),
        ) <= 3,
        model::decoding::<MemoryEfficientBaseAsciiConverter>(
            cfg,
            model::encoding(model::without_fill(cfg), x),
            0,
        ) == x,
{
    let nf = model::without_fill(cfg);
    let p = model::pad_to_quads(model::encoding(nf, x));
    law_roundtrip(nf, x);
    lemma_quads_same_reading::<FastConverter>(cfg, nf, p);
    lemma_quads_same_reading::<MemoryEfficientBaseAsciiConverter>(cfg, nf, p);
}

/// Whole groups of read characters in front of another sequence decode on their own.
proof fn lemma_quads_concat<C: BaseAsciiConverter>(cfg: ConfigView, a: Seq<u8>, b: Seq<u8>)
    requires
        a.len() % 4 == 0,
    ensures
        model::quads_bytes::<C>(cfg, a + b) == model::quads_bytes::<C>(cfg, a)
            + model::quads_bytes::<C>(cfg, b),
        model::quads_misses::<C>(cfg, a + b) == model::quads_misses::<C>(cfg, a)
            + model::quads_misses::<C>(cfg, b),
    decreases a.len(),
{
    if a.len() == 0 {
        assert(a + b =~= b);
        assert(model::quads_bytes::<C>(cfg, a) + model::quads_bytes::<C>(cfg, b)
            =~= model::quads_bytes::<C>(cfg, b));
    } else {
        let g = a.take(4);
        let a2 = a.skip(4);
        lemma_quads_concat::<C>(cfg, a2, b);
        assert(a =~= g + a2);
        assert(a + b =~= g + (a2 + b));
        lemma_quads_prepend::<C>(cfg, g, a2 + b);
        lemma_quads_prepend::<C>(cfg, g, a2);
        assert(model::quads_bytes::<C>(cfg, a + b) =~= model::quads_bytes::<C>(cfg, a)
            + model::quads_bytes::<C>(cfg, b));
    }
}

/// Groups whose characters are all read count no unexpected character.
proof fn lemma_quads_no_miss<C: BaseAsciiConverter>(cfg: ConfigView, a: Seq<u8>)
    requires
        forall|i: int| 0 <= i < a.len() ==> (#[trigger] C::sextet_of(a[i], cfg)) is Some,
    ensures
        model::quads_misses::<C>(cfg, a) == 0,
    decreases a.len(),
{
    if a.len() >= 4 {
        let a2 = a.skip(4);
        assert forall|i: int| 0 <= i < a2.len() implies (#[trigger] C::sextet_of(a2[i], cfg)) is Some by {
            assert(a2[i] == a[i + 4]);
        }
        lemma_quads_no_miss::<C>(cfg, a2);
        assert(C::sextet_of(a[0], cfg) is Some);
        assert(C::sextet_of(a[1], cfg) is Some);
        assert(C::sextet_of(a[2], cfg) is Some);
        assert(C::sextet_of(a[3], cfg) is Some);
    }
}

/// Decoding distributes over concatenation: whole groups of known characters followed by
/// an encoding decode to the decoding of each, with the same count of unexpected characters.
pub proof fn law_decoding_concat<C: BaseAsciiConverter>(cfg: ConfigView, s1: Seq<u8>, y: Seq<u8>)
    requires
        reads_alphabet::<C>(cfg),
        s1.len() % 4 == 0,
        forall|i: int| 0 <= i < s1.len() ==> (#[trigger] C::sextet_of(s1[i], cfg)) is Some,
    ensures
        model::unexpected_in::<C>(cfg, s1 + model::encoding(cfg, y)) == model::unexpected_in::<C>(
            cfg,
            model::encoding(cfg, y),
        ),
        model::decoding::<C>(cfg, s1 + model::encoding(cfg, y), 0) == model::decoding::<C>(cfg, s1, 0)
            + model::decoding::<C>(cfg, model::encoding(cfg, y), 0),
{
    let e = model::encoding(cfg, y);
    let pe = model::pad_to_quads(e);
    assert(model::pad_to_quads(s1 + e) =~= s1 + pe);
    assert(model::pad_to_quads(s1) =~= s1);
    lemma_quads_concat::<C>(cfg, s1, pe);
    lemma_quads_no_miss::<C>(cfg, s1);
    lemma_encoding_quads::<C>(cfg, y);
    let r1 = model::quads_bytes::<C>(cfg, s1);
    let r2 = model::quads_bytes::<C>(cfg, pe);
    let m = model::quads_misses::<C>(cfg, pe);
    assert(model::trimmed(r1 + r2, m) =~= r1 + model::trimmed(r2, m));
    assert(model::trimmed(r1, 0) =~= r1);
}

/// Text written by the parallel encoder with one padding character decodes, by the
/// parallel decoder, to the input, with either converter.
pub proof fn law_parallel_roundtrip(cfg: ConfigView, x: Seq<u8>)
    requires
        model::is_sound(cfg),
        cfg.fill.len() == 1,
    ensures
        model::parallel_encoding(cfg, x).len() % 4 == 0,
        model::quads_misses::<FastConverter>(cfg, model::parallel_encoding(cfg, x)) <= 3,
        model::parallel_decoding::<FastConverter>(cfg, model::parallel_encoding(cfg, x), 0) == x,
        model::quads_misses::<MemoryEfficientBaseAsciiConverter>(cfg, model::parallel_encoding(cfg, x))
            <= 3,
        model::parallel_decoding::<MemoryEfficientBaseAsciiConverter>(
            cfg,
            model::parallel_encoding(cfg, x),
            0,
        ) == x,
{
    law_parallel_encoding_agrees(cfg, x);
    law_encoding_length(cfg, x);
    let k = model::chunk_count(x.len() as int, 3);
    assert((4 * k) % 4 == 0) by (nonlinear_arith);
    law_roundtrip(cfg, x);
    law_parallel_decoding_agrees::<FastConverter>(cfg, model::encoding(cfg, x), 0);
    law_parallel_decoding_agrees::<MemoryEfficientBaseAsciiConverter>(cfg, model::encoding(cfg, x), 0);
}

/// Two table converters that serve the same configuration hold the same tables; so
/// `FastConverter::default()` holds the tables of `from_config` on the standard configuration.
pub proof fn law_fast_tables_determined(a: FastConverter, b: FastConverter, cfg: ConfigView)
    requires
        a.fits(cfg),
        b.fits(cfg),
    ensures
        forall|v: u8| v < 64 ==> #[trigger] a.table_char(v) == b.table_char(v),
        forall|c: u8| #[trigger] a.table_read(c) == b.table_read(c),
{
    a.lemma_fits(cfg);
    b.lemma_fits(cfg);
    assert forall|v: u8| v < 64 implies #[trigger] a.table_char(v) == b.table_char(v) by {
        assert(a.char_of(v, cfg) == b.char_of(v, cfg));
    }
    assert forall|c: u8| #[trigger] a.table_read(c) == b.table_read(c) by {
        assert(a.read_of(c, cfg) == b.read_of(c, cfg));
    }
}

/// The alphabet of RFC 4648 under every configuration: sextets 0, 26 and 52 are `A`, `a`
/// and `0`; within each of the runs 0..=25, 26..=51 and 52..=61 the next sextet is the
/// next character; 25, 51 and 61 are `Z`, `z` and `9`; and 62 and 63 are the configured
/// characters (`+` and `/` in the standard configuration, `-` and `_` in the URL-safe one).
pub proof fn law_alphabet(cfg: ConfigView)
    ensures
        model::sextet_char(cfg, 0) == 65u8,
        model::sextet_char(cfg, 25) == 90u8,
        model::sextet_char(cfg, 26) == 97u8,
        model::sextet_char(cfg, 51) == 122u8,
        model::sextet_char(cfg, 52) == 48u8,
        model::sextet_char(cfg, 61) == 57u8,
        model::sextet_char(cfg, 62) == cfg.sixty_two,
        model::sextet_char(cfg, 63) == cfg.sixty_three,
        forall|v: u8|
            #![trigger model::sextet_char(cfg, v)]
            (v < 25 || (26 <= v < 51) || (52 <= v < 61)) ==> model::sextet_char(cfg, (v + 1) as u8)
                == model::sextet_char(cfg, v) + 1,
        model::sextet_char(model::standard_config(), 62) == 43u8,
        model::sextet_char(model::standard_config(), 63) == 47u8,
        model::sextet_char(model::url_safe_config(), 62) == 45u8,
        model::sextet_char(model::url_safe_config(), 63) == 95u8,
{
}

/// Under a sound configuration both converters read a character as sextet `v` exactly when
/// it is the character of `v` in the alphabet, and read every other character as unknown.
pub proof fn law_reading_inverts_alphabet(cfg: ConfigView, c: u8, v: u8)
    requires
        model::is_sound(cfg),
    ensures
        FastConverter::sextet_of(c, cfg) == Some(v) <==> (v < 64 && model::sextet_char(cfg, v) == c),
        MemoryEfficientBaseAsciiConverter::sextet_of(c, cfg) == Some(v) <==> (v < 64
            && model::sextet_char(cfg, v) == c),
        FastConverter::sextet_of(c, cfg) is None <==> (forall|w: u8|
            w < 64 ==> #[trigger] model::sextet_char(cfg, w) != c),
        MemoryEfficientBaseAsciiConverter::sextet_of(c, cfg) is None <==> (forall|w: u8|
            w < 64 ==> #[trigger] model::sextet_char(cfg, w) != c),
{
    if FastConverter::sextet_of(c, cfg) is None {
        assert forall|w: u8| w < 64 implies #[trigger] model::sextet_char(cfg, w) != c by {
        }
    } else {
        let u = FastConverter::sextet_of(c, cfg)->0;
        assert(model::sextet_char(cfg, u) == c);
    }
}

/// A converter that serves `cfg` writes and reads the alphabet of `cfg`.
pub proof fn law_fitting_converter_alphabet<C: BaseAsciiConverter>(conv: C, cfg: ConfigView, v: u8, c: u8)
    requires
        conv.fits(cfg),
        v < 64,
    ensures
        conv.char_of(v, cfg) == model::sextet_char(cfg, v),
        conv.read_of(c, cfg) == C::sextet_of(c, cfg),
{
    conv.lemma_fits(cfg);
}

/// The four sextets of a group are its 24 bits, most significant first, six at a time;
/// and joining four sextets gives the three bytes whose 24 bits they are.
pub proof fn law_group_value(b0: u8, b1: u8, b2: u8, a0: u8, a1: u8, a2: u8, a3: u8)
    ensures
        model::sextet0(b0) < 64,
        model::sextet1(b0, b1) < 64,
        model::sextet2(b1, b2) < 64,
        model::sextet3(b2) < 64,
        model::sextet0(b0) * 262144 + model::sextet1(b0, b1) * 4096 + model::sextet2(b1, b2) * 64
            + model::sextet3(b2) == b0 * 65536 + b1 * 256 + b2,
        (a0 < 64 && a1 < 64 && a2 < 64 && a3 < 64) ==> ({
            let j = model::join_sextets(a0, a1, a2, a3);
            j.len() == 3 && j[0] * 65536 + j[1] * 256 + j[2] == a0 * 262144 + a1 * 4096 + a2 * 64 + a3
        }),
{
    model::lemma_sextets_bound(b0, b1, b2);
    assert(((b0 >> 2u8) as u32) * 262144u32 + ((((b0 & 3u8) << 4u8) | (b1 >> 4u8)) as u32) * 4096u32
        + ((((b1 & 15u8) << 2u8) | (b2 >> 6u8)) as u32) * 64u32 + ((b2 & 63u8) as u32)
        == (b0 as u32) * 65536u32 + (b1 as u32) * 256u32 + (b2 as u32)) by (bit_vector);
    if a0 < 64 && a1 < 64 && a2 < 64 && a3 < 64 {
        assert(a0 < 64u8 && a1 < 64u8 && a2 < 64u8 && a3 < 64u8 ==> ((((a0 << 2u8) | (a1 >> 4u8)) as u32)
            * 65536u32 + ((((a1 << 4u8) | (a2 >> 2u8))) as u32) * 256u32 + ((((a2 << 6u8) | a3)) as u32)
            == (a0 as u32) * 262144u32 + (a1 as u32) * 4096u32 + (a2 as u32) * 64u32 + (a3 as u32)))
            by (bit_vector);
    }
}

} // verus!

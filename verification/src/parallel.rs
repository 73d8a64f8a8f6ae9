//! Encoding and decoding with the groups handed out to rayon's thread pool.
use rayon::iter::{IndexedParallelIterator, ParallelIterator};
use rayon::slice::{ParallelSlice, ParallelSliceMut};
use vstd::prelude::*;
use vstd::string::StringSliceAdditionalSpecFns;
use vstd::utf8::*;

use crate::model;
use crate::{BaseAsciiConverter, Config, ConfigView, Decoder, Encoder};

verus! {

pub struct ParallelBase64<C: BaseAsciiConverter> {
    pub config: Config,
    pub converter: C,
}

/// Writes into `dest` the three bytes made of the four sextet values in `src`.
fn join_quad_into(dest: &mut [u8], src: &[u8])
    requires
        old(dest)@.len() == 3,
        src@.len() == 4,
    ensures
        final(dest)@ == model::join_quad(src@),
{
    dest[0] = src[0] << 2 | src[1] >> 4;
    dest[1] = src[1] << 4 | src[2] >> 2;
    dest[2] = src[2] << 6 | src[3];
    assert(dest@ =~= model::join_quad(src@));
}

/// `par_chunks_mut(3)` (rayon) over `buffer`, zipped with `par_chunks(4)` over `sextets`,
/// with `for_each` calling `join_quad_into` on every pair: rayon hands out every pair of
/// matching chunks exactly once, so chunk `k` of the buffer receives the join of chunk
/// `k` of the sextets.
#[verifier::external_body]
fn join_chunks(buffer: &mut Vec<u8>, sextets: &[u8])
    requires
        sextets@.len() % 4 == 0,
        old(buffer)@.len() * 4 == sextets@.len() * 3,
    ensures
        final(buffer)@.len() == old(buffer)@.len(),
        forall|k: int|
            0 <= k < sextets@.len() / 4 ==> #[trigger] model::chunk_at(final(buffer)@, k, 3)
                == model::join_quad(model::chunk_at(sextets@, k, 4)),
{
    buffer.par_chunks_mut(3).zip(sextets.par_chunks(4)).for_each(
        |(dest, src)| join_quad_into(dest, src),
    );
}

/// Cutting `b` into chunks of four characters that each match the chunk of three bytes of
/// `x` gives the parallel encoding of `x`.
proof fn lemma_chunks_encoding<C: BaseAsciiConverter>(conv: C, cfg: ConfigView, x: Seq<u8>, b: Seq<u8>)
    requires
        b.len() == 4 * model::chunk_count(x.len() as int, 3),
        forall|k: int|
            0 <= k < model::chunk_count(x.len() as int, 3) ==> #[trigger] model::chunk_at(b, k, 4)
                == model::chunk_chars_by(conv, cfg, model::chunk_at(x, k, 3)),
    ensures
        b == model::parallel_encoding_by(conv, cfg, x),
    decreases x.len(),
{
    if x.len() == 0 {
        assert(b =~= Seq::<u8>::empty());
    } else if x.len() <= 3 {
        assert(model::chunk_at(b, 0, 4) =~= b);
        assert(model::chunk_at(x, 0, 3) =~= x);
    } else {
        let x2 = x.skip(3);
        let b2 = b.skip(4);
        assert forall|k: int|
            0 <= k < model::chunk_count(x2.len() as int, 3) implies #[trigger] model::chunk_at(
            b2,
            k,
            4,
        ) == model::chunk_chars_by(conv, cfg, model::chunk_at(x2, k, 3)) by {
            assert(model::chunk_at(b2, k, 4) =~= model::chunk_at(b, k + 1, 4));
            assert(model::chunk_at(x2, k, 3) =~= model::chunk_at(x, k + 1, 3));
        }
        lemma_chunks_encoding(conv, cfg, x2, b2);
        assert(model::chunk_at(b, 0, 4) =~= b.take(4));
        assert(model::chunk_at(x, 0, 3) =~= x.take(3));
        assert(b =~= b.take(4) + b2);
    }
}

/// Cutting `b` into chunks of three bytes that each join the matching chunk of four values
/// read from `s` gives the bytes of the full groups of `s`.
proof fn lemma_chunks_quads<C: BaseAsciiConverter>(
    conv: C,
    cfg: ConfigView,
    s: Seq<u8>,
    values: Seq<u8>,
    b: Seq<u8>,
)
    requires
        values.len() == 4 * (s.len() / 4),
        forall|i: int| 0 <= i < values.len() ==> #[trigger] values[i] == model::read_by(conv, cfg, s[i]),
        b.len() == 3 * (s.len() / 4),
        forall|k: int|
            0 <= k < s.len() / 4 ==> #[trigger] model::chunk_at(b, k, 3) == model::join_quad(
                model::chunk_at(values, k, 4),
            ),
    ensures
        b == model::quads_bytes_by(conv, cfg, s),
    decreases s.len(),
{
    if s.len() < 4 {
        assert(b =~= Seq::<u8>::empty());
    } else {
        let s2 = s.skip(4);
        let v2 = values.skip(4);
        let b2 = b.skip(3);
        assert(s2.len() / 4 == s.len() / 4 - 1);
        assert forall|i: int| 0 <= i < v2.len() implies #[trigger] v2[i] == model::read_by(
            conv,
            cfg,
            s2[i],
        ) by {
            assert(v2[i] == values[i + 4]);
        }
        assert forall|k: int| 0 <= k < s2.len() / 4 implies #[trigger] model::chunk_at(b2, k, 3)
            == model::join_quad(model::chunk_at(v2, k, 4)) by {
            assert(model::chunk_at(b2, k, 3) =~= model::chunk_at(b, k + 1, 3));
            assert(model::chunk_at(v2, k, 4) =~= model::chunk_at(values, k + 1, 4));
        }
        lemma_chunks_quads(conv, cfg, s2, v2, b2);
        let first = model::chunk_at(values, 0, 4);
        assert(first[0] == values[0] && first[1] == values[1] && first[2] == values[2]
            && first[3] == values[3]);
        assert(model::chunk_at(b, 0, 3) =~= b.take(3));
        assert(b.take(3) =~= model::quad_bytes_by(conv, cfg, s));
        assert(b =~= b.take(3) + b2);
    }
}

impl<C: BaseAsciiConverter + Send + Sync> ParallelBase64<C> {
    pub fn new(config: Config) -> (res: Self)
        ensures
            res.config == config,
            res.converter.fits(config@),
            res.converter.unexpected_count() == 0,
    {
        let c = C::from_config(&config);
        proof {
            c.lemma_fresh_count();
        }
        Self { config, converter: c }
    }

    /// Writes the four characters of `chunk` into `out`.
    fn encode_chunk(&self, out: &mut [u8], chunk: &[u8])
        requires
            old(out)@.len() == 4,
            1 <= chunk@.len() <= 3,
            chunk@.len() < 3 ==> self.config@.fill.len() >= 1,
        ensures
            final(out)@ == model::chunk_chars_by(self.converter, self.config@, chunk@),
    {
        let ghost b1: u8 = if chunk@.len() >= 2 {
            chunk@[1]
        } else {
            0
        };
        let ghost b2: u8 = if chunk@.len() >= 3 {
            chunk@[2]
        } else {
            0
        };
        proof {
            model::lemma_sextets_bound(chunk@[0], b1, b2);
        }
        let mask1 = 0b0000_0011u8;
        let mask2 = 0b0000_1111u8;
        self.converter.base_to_ascii_with_index((chunk[0]) >> 2, out, &self.config, 0);
        if chunk.len() == 1 {
            assert(((chunk@[0] & 3u8) << 4u8) == ((chunk@[0] & 3u8) << 4u8) | (0u8 >> 4u8))
                by (bit_vector);
            self.converter.base_to_ascii_with_index((chunk[0] & mask1) << 4, out, &self.config, 1);
            out[2] = self.config.fill_marker[0];
            out[3] = self.config.fill_marker[0];
            assert(out@ =~= model::chunk_chars_by(self.converter, self.config@, chunk@));
            return;
        }
        self.converter.base_to_ascii_with_index(
            ((chunk[0] & mask1) << 4) | (chunk[1] >> 4),
            out,
            &self.config,
            1,
        );
        if chunk.len() == 2 {
            assert(((chunk@[1] & 15u8) << 2u8) == ((chunk@[1] & 15u8) << 2u8) | (0u8 >> 6u8))
                by (bit_vector);
            self.converter.base_to_ascii_with_index((chunk[1] & mask2) << 2, out, &self.config, 2);
            out[3] = self.config.fill_marker[0];
            assert(out@ =~= model::chunk_chars_by(self.converter, self.config@, chunk@));
            return;
        }
        self.converter.base_to_ascii_with_index(
            ((chunk[1] & mask2) << 2) | (chunk[2] >> 6),
            out,
            &self.config,
            2,
        );
        self.converter.base_to_ascii_with_index(chunk[2] & 0b0011_1111, out, &self.config, 3);
        assert(out@ =~= model::chunk_chars_by(self.converter, self.config@, chunk@));
    }

    /// `par_chunks_mut(4)` (rayon) over `buffer`, zipped with `par_chunks(3)` over `input`,
    /// with `for_each` calling `encode_chunk` on every pair: rayon hands out every pair of
    /// matching chunks exactly once, so chunk `k` of the buffer receives the characters of
    /// chunk `k` of the input.
    #[verifier::external_body]
    fn encode_chunks(&self, buffer: &mut Vec<u8>, input: &[u8])
        requires
            old(buffer)@.len() == 4 * model::chunk_count(input@.len() as int, 3),
            input@.len() % 3 != 0 ==> self.config@.fill.len() >= 1,
        ensures
            final(buffer)@.len() == old(buffer)@.len(),
            forall|k: int|
                0 <= k < model::chunk_count(input@.len() as int, 3) ==> #[trigger] model::chunk_at(
                    final(buffer)@,
                    k,
                    4,
                ) == model::chunk_chars_by(self.converter, self.config@, model::chunk_at(input@, k, 3)),
    {
        buffer.par_chunks_mut(4).zip(input.par_chunks(3)).for_each(
            |(out, chunk)| self.encode_chunk(out, chunk),
        );
    }

    /// Reads every character of the full groups of four of `bytes`, in the order and as
    /// many times as decoding a group does, and returns the values read.
    fn read_groups(&mut self, bytes: &[u8]) -> (res: Vec<u8>)
        requires
            old(self).converter.unexpected_count() + model::quads_misses_by(
                old(self).converter,
                old(self).config@,
                bytes@,
            ) <= 3,
        ensures
            final(self).config == old(self).config,
            forall|v: u8, cf: ConfigView|
                #[trigger] final(self).converter.char_of(v, cf) == old(self).converter.char_of(v, cf),
            forall|c: u8, cf: ConfigView|
                #[trigger] final(self).converter.read_of(c, cf) == old(self).converter.read_of(c, cf),
            old(self).converter.fits(old(self).config@) ==> final(self).converter.fits(
                old(self).config@,
            ),
            final(self).converter.unexpected_count() == old(self).converter.unexpected_count()
                + model::quads_misses_by(old(self).converter, old(self).config@, bytes@),
            res@.len() == 4 * (bytes@.len() / 4),
            forall|i: int|
                0 <= i < res@.len() ==> #[trigger] res@[i] == model::read_by(
                    old(self).converter,
                    old(self).config@,
                    bytes@[i],
                ),
    {
        let ghost cfg = self.config@;
        let ghost conv = self.converter;
        let ghost prior = self.converter.unexpected_count();
        let groups = bytes.len() / 4;
        let mut values: Vec<u8> = Vec::new();
        let mut k: usize = 0;
        proof {
            assert(bytes@.skip(0) =~= bytes@);
        }
        while k < groups
            invariant
                cfg == self.config@,
                groups == bytes@.len() / 4,
                bytes@.len() == bytes.len(),
                self.config == old(self).config,
                conv == old(self).converter,
                forall|v: u8, cf: ConfigView|
                    #[trigger] self.converter.char_of(v, cf) == conv.char_of(v, cf),
                forall|c: u8, cf: ConfigView|
                    #[trigger] self.converter.read_of(c, cf) == conv.read_of(c, cf),
                conv.fits(cfg) ==> self.converter.fits(cfg),
                k <= groups,
                values@.len() == 4 * k,
                forall|i: int|
                    0 <= i < values@.len() ==> #[trigger] values@[i] == model::read_by(conv, cfg, bytes@[i]),
                prior + model::quads_misses_by(conv, cfg, bytes@) <= 3,
                self.converter.unexpected_count() + model::quads_misses_by(
                    conv,
                    cfg,
                    bytes@.skip(4 * k as int),
                ) == prior + model::quads_misses_by(conv, cfg, bytes@),
            decreases groups - k,
        {
            let ghost rest = bytes@.skip(4 * k as int);
            let ghost before = values@;
            let i = 4 * k;
            proof {
                assert(rest[0] == bytes@[i as int] && rest[1] == bytes@[i + 1]);
                assert(rest[2] == bytes@[i + 2] && rest[3] == bytes@[i + 3]);
                assert(rest.skip(4) =~= bytes@.skip(4 * (k + 1) as int));
            }
            let a0 = self.converter.ascii_to_base_non_failing(&bytes[i], &self.config);
            let a1 = self.converter.ascii_to_base_non_failing(&bytes[i + 1], &self.config);
            self.converter.ascii_to_base_non_failing(&bytes[i + 1], &self.config);
            let a2 = self.converter.ascii_to_base_non_failing(&bytes[i + 2], &self.config);
            self.converter.ascii_to_base_non_failing(&bytes[i + 2], &self.config);
            let a3 = self.converter.ascii_to_base_non_failing(&bytes[i + 3], &self.config);
            values.push(a0);
            values.push(a1);
            values.push(a2);
            values.push(a3);
            proof {
                assert(values@ =~= before + seq![a0, a1, a2, a3]);
            }
            k += 1;
        }
        proof {
            assert(bytes@.skip(4 * k as int).len() < 4);
        }
        values
    }
}

impl<C: BaseAsciiConverter + Send + Sync> Encoder for ParallelBase64<C> {
    open spec fn can_encode(&self, input: Seq<u8>) -> bool {
        model::parallel_encodable_by(self.converter, self.config@, input)
    }

    open spec fn encoding_of(&self, input: Seq<u8>) -> Seq<u8> {
        model::parallel_encoding_by(self.converter, self.config@, input)
    }

    fn encode(&self, input: &[u8]) -> (res: String) {
        let ghost target = 4 * model::chunk_count(input@.len() as int, 3);
        let mut len = input.len() * 4 / 3;
        while len % 4 != 0
            invariant
                len <= target,
                target <= usize::MAX,
                target - len < 4,
                target % 4 == 0,
            decreases target - len,
        {
            len += 1;
        }
        let mut buffer: Vec<u8> = vec![0; len];
        self.encode_chunks(&mut buffer, input);
        proof {
            lemma_chunks_encoding(self.converter, self.config@, input@, buffer@);
        }
        crate::text::into_text(buffer)
    }
}

impl<C: BaseAsciiConverter + Send + Sync> Decoder for ParallelBase64<C> {
    open spec fn can_decode(&self, input: Seq<u8>) -> bool {
        model::parallel_decodable_by(
            self.converter,
            self.config@,
            input,
            self.converter.unexpected_count() as nat,
        )
    }

    open spec fn decoding_of(&self, input: Seq<u8>) -> Seq<u8> {
        model::parallel_decoding_by(
            self.converter,
            self.config@,
            input,
            self.converter.unexpected_count() as nat,
        )
    }

    open spec fn state_after(&self, input: Seq<u8>, next: Self) -> bool {
        &&& next.config == self.config
        &&& forall|v: u8, cf: ConfigView|
            #[trigger] next.converter.char_of(v, cf) == self.converter.char_of(v, cf)
        &&& forall|c: u8, cf: ConfigView|
            #[trigger] next.converter.read_of(c, cf) == self.converter.read_of(c, cf)
        &&& self.converter.fits(self.config@) ==> next.converter.fits(self.config@)
        &&& next.converter.unexpected_count() == self.converter.unexpected_count()
            + model::quads_misses_by(self.converter, self.config@, input)
    }

    fn decode(&mut self, input: &str) -> (res: Vec<u8>) {
        let ghost cfg = self.config@;
        let ghost conv = self.converter;
        let ghost prior = self.converter.unexpected_count();
        let bytes = input.as_bytes();
        let mut len = bytes.len() * 3 / 4;
        proof {
            assert(len == 3 * (bytes@.len() / 4));
            assert((3 * (bytes@.len() / 4)) % 3 == 0) by (nonlinear_arith);
        }
        while len % 3 != 0
            invariant
                len == 3 * (bytes@.len() / 4),
                len % 3 == 0,
            decreases 3 - len % 3,
        {
            len += 1;
        }
        let mut buffer = vec![u8::MAX; len];
        let values = self.read_groups(bytes);
        join_chunks(&mut buffer, values.as_slice());
        proof {
            lemma_chunks_quads(conv, cfg, bytes@, values@, buffer@);
        }

        let count = self.converter.num_unexpected_chars();
        if count == 0 {
        } else if count <= 2 {
            buffer.pop();
        } else {
            buffer.pop();
            buffer.pop();
        }
        proof {
            assert(buffer@ =~= model::trimmed(
                model::quads_bytes_by(conv, cfg, bytes@),
                (prior + model::quads_misses_by(conv, cfg, bytes@)) as nat,
            ));
        }
        buffer
    }
}

} // verus!

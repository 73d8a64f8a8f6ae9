//! Encoding and decoding on the calling thread, one group at a time.
use vstd::prelude::*;
use vstd::string::StringSliceAdditionalSpecFns;
use vstd::utf8::*;

use crate::model;
use crate::{BaseAsciiConverter, Config, ConfigView, Decoder, Encoder};

verus! {

pub struct Base64<C: BaseAsciiConverter> {
    config: Config,
    converter: C,
}

impl<C: BaseAsciiConverter> Base64<C> {
    /// The configuration this encoder works with.
    pub closed spec fn config_view(&self) -> ConfigView {
        self.config@
    }

    /// How many unexpected characters the converter has counted so far.
    pub closed spec fn unexpected_so_far(&self) -> usize {
        self.converter.unexpected_count()
    }

    /// The converter serves the configuration.
    pub closed spec fn wf(&self) -> bool {
        self.converter.fits(self.config@)
    }

    pub fn new(config: Config) -> (res: Self)
        ensures
            res.wf(),
            res.config_view() == config@,
            res.unexpected_so_far() == 0,
    {
        let conv = C::from_config(&config);
        proof {
            conv.lemma_fresh_count();
        }
        Base64 { config, converter: conv }
    }

    /// Writes the characters of the group `val[0] val[1] val[2]`, of which the last
    /// `paddings` bytes are missing.
    #[inline]
    fn encode_triplet(&self, val: &[u8], paddings: u8, buffer: &mut Vec<u8>)
        requires
            self.wf(),
            val@.len() >= 2,
            paddings != 2 ==> val@.len() >= 3,
        ensures
            final(buffer)@ == old(buffer)@ + model::group_chars(
                self.config@,
                val@[0],
                val@[1],
                if val@.len() >= 3 {
                    val@[2]
                } else {
                    0u8
                },
                paddings,
            ),
    {
        let ghost b2: u8 = if val@.len() >= 3 {
            val@[2]
        } else {
            0u8
        };
        proof {
            model::lemma_sextets_bound(val@[0], val@[1], b2);
            self.converter.lemma_fits(self.config@);
        }
        let ghost start = buffer@;
        let mask1 = 0b0000_0011u8;
        let mask2 = 0b0000_1111u8;
        self.converter.base_to_ascii((val[0]) >> 2, buffer, &self.config);
        self.converter.base_to_ascii(((val[0] & mask1) << 4) | (val[1] >> 4), buffer, &self.config);
        let ghost after_two = buffer@;
        if paddings == 2u8 {
            let mut fill = vstd::slice::slice_to_vec(self.config.fill_marker);
            buffer.append(&mut fill);
        } else {
            self.converter.base_to_ascii(((val[1] & mask2) << 2) | (val[2] >> 6), buffer, &self.config);
        };
        let ghost after_three = buffer@;
        if paddings == 2u8 || paddings == 1u8 {
            let mut fill = vstd::slice::slice_to_vec(self.config.fill_marker);
            buffer.append(&mut fill);
        } else {
            self.converter.base_to_ascii(val[2] & 0b0011_1111, buffer, &self.config);
        };
        proof {
            let cfg = self.config@;
            let third = if paddings == 2 {
                cfg.fill
            } else {
                seq![model::sextet_char(cfg, model::sextet2(val@[1], b2))]
            };
            let fourth = if paddings == 1 || paddings == 2 {
                cfg.fill
            } else {
                seq![model::sextet_char(cfg, model::sextet3(b2))]
            };
            assert(after_two =~= start + seq![
                model::sextet_char(cfg, model::sextet0(val@[0])),
                model::sextet_char(cfg, model::sextet1(val@[0], val@[1])),
            ]);
            assert(after_three =~= after_two + third);
            assert(buffer@ =~= after_three + fourth);
        }
    }

    /// Appends the three bytes decoded from `input[0..4]`.
    #[inline]
    fn decode_quad(&mut self, input: &[u8], buffer: &mut Vec<u8>)
        requires
            old(self).wf(),
            input@.len() >= 4,
            old(self).unexpected_so_far() + model::quad_misses::<C>(old(self).config@, input@)
                <= usize::MAX,
        ensures
            final(self).wf(),
            final(self).config == old(self).config,
            final(buffer)@ == old(buffer)@ + model::quad_bytes::<C>(old(self).config@, input@),
            final(self).unexpected_so_far() == old(self).unexpected_so_far()
                + model::quad_misses::<C>(old(self).config@, input@),
    {
        let ghost start = buffer@;
        let ghost cfg = self.config@;
        proof {
            self.converter.lemma_fits(cfg);
        }
        buffer.push(
            self.converter.ascii_to_base_non_failing(&input[0], &self.config) << 2
                | self.converter.ascii_to_base_non_failing(&input[1], &self.config) >> 4,
        );
        buffer.push(
            self.converter.ascii_to_base_non_failing(&input[1], &self.config) << 4
                | self.converter.ascii_to_base_non_failing(&input[2], &self.config) >> 2,
        );
        buffer.push(
            self.converter.ascii_to_base_non_failing(&input[2], &self.config) << 6
                | self.converter.ascii_to_base_non_failing(&input[3], &self.config),
        );
        assert(buffer@ =~= start + model::quad_bytes::<C>(cfg, input@));
    }
}

impl<C: BaseAsciiConverter> Encoder for Base64<C> {
    open spec fn can_encode(&self, input: Seq<u8>) -> bool {
        &&& self.wf()
        &&& valid_utf8(model::encoding(self.config_view(), input))
    }

    open spec fn encoding_of(&self, input: Seq<u8>) -> Seq<u8> {
        model::encoding(self.config_view(), input)
    }

    fn encode(&self, input: &[u8]) -> (res: String) {
        let ghost cfg = self.config@;
        let mut buffer: Vec<u8> = Vec::new();
        let mut input_split_index: usize = 0;
        let mut input_index: usize = 0;
        let mut paddings = 0u8;
        proof {
            assert(input@.skip(0) =~= input@);
        }
        while input_index < input.len()
            invariant
                self.wf(),
                cfg == self.config@,
                input_split_index <= input_index <= input@.len(),
                input_index - input_split_index < 3,
                input_split_index % 3 == 0,
                paddings == 0,
                model::encoding(cfg, input@) == buffer@ + model::encoding(
                    cfg,
                    input@.skip(input_split_index as int),
                ),
            decreases input@.len() - input_index,
        {
            input_index += 1;
            if (input_index - input_split_index) == 3 {
                let ghost rest = input@.skip(input_split_index as int);
                let group = vstd::slice::slice_subrange(input, input_split_index, input_index);
                self.encode_triplet(group, paddings, &mut buffer);
                proof {
                    assert(rest.skip(3) =~= input@.skip(input_index as int));
                    assert(group@[0] == rest[0] && group@[1] == rest[1] && group@[2] == rest[2]);
                }
                input_split_index = input_index;
            }
        }
        let left = (input_index % 3) as usize;
        if left != 0 {
            paddings = (3 - left) as u8;
            let ghost rest = input@.skip(input_split_index as int);
            let mut data = vec![0u8; 3];
            for i in 0..left
                invariant
                    data@.len() == 3,
                    left < 3,
                    input_split_index + left == input@.len(),
                    input@.len() == input.len(),
                    forall|j: int| 0 <= j < i ==> #[trigger] data@[j] == input@[input_split_index + j],
                    forall|j: int| i <= j < 3 ==> #[trigger] data@[j] == 0u8,
            {
                data[i] = input[input_split_index + i];
            }
            self.encode_triplet(&data, paddings, &mut buffer);
            proof {
                assert(data@[0] == rest[0]);
                if left == 2 {
                    assert(data@[1] == rest[1]);
                }
            }
        } else {
            proof {
                assert(input@.skip(input_split_index as int) =~= Seq::<u8>::empty());
                assert(buffer@ =~= buffer@ + Seq::<u8>::empty());
            }
        }
        crate::text::into_text(buffer)
    }
}

impl<C: BaseAsciiConverter> Decoder for Base64<C> {
    open spec fn can_decode(&self, input: Seq<u8>) -> bool {
        &&& self.wf()
        &&& self.unexpected_so_far() + model::unexpected_in::<C>(self.config_view(), input) <= 3
    }

    open spec fn decoding_of(&self, input: Seq<u8>) -> Seq<u8> {
        model::decoding::<C>(self.config_view(), input, self.unexpected_so_far() as nat)
    }

    open spec fn state_after(&self, input: Seq<u8>, next: Self) -> bool {
        &&& next.wf()
        &&& next.config_view() == self.config_view()
        &&& next.unexpected_so_far() == self.unexpected_so_far() + model::unexpected_in::<C>(
            self.config_view(),
            input,
        )
    }

    fn decode(&mut self, input: &str) -> (res: Vec<u8>) {
        let ghost cfg = self.config@;
        let ghost prior = self.unexpected_so_far();
        let input_bytes = input.as_bytes();
        let ghost s = input_bytes@;
        let ghost p = model::pad_to_quads(s);
        let mut buffer: Vec<u8> = Vec::new();

        let mut input_split_index: usize = 0;
        let mut input_index: usize = 0;
        proof {
            assert(p.skip(0) =~= p);
        }
        while input_index < input_bytes.len()
            invariant
                self.wf(),
                cfg == self.config@,
                s == input_bytes@,
                p == model::pad_to_quads(s),
                input_split_index <= input_index <= s.len(),
                input_index - input_split_index < 4,
                input_split_index % 4 == 0,
                prior + model::quads_misses::<C>(cfg, p) <= 3,
                model::quads_bytes::<C>(cfg, p) == buffer@ + model::quads_bytes::<C>(
                    cfg,
                    p.skip(input_split_index as int),
                ),
                self.unexpected_so_far() + model::quads_misses::<C>(
                    cfg,
                    p.skip(input_split_index as int),
                ) == prior + model::quads_misses::<C>(cfg, p),
            decreases s.len() - input_index,
        {
            input_index += 1;
            if (input_index - input_split_index) == 4 {
                let ghost rest = p.skip(input_split_index as int);
                let quad = vstd::slice::slice_subrange(input_bytes, input_split_index, input_index);
                proof {
                    assert(quad@ =~= rest.take(4));
                    assert(rest.skip(4) =~= p.skip(input_index as int));
                }
                self.decode_quad(quad, &mut buffer);
                input_split_index = input_index;
            }
        }
        if input_index % 4 != 0 {
            let ghost rest = p.skip(input_split_index as int);
            let left = input_index % 4;
            let mut data = vec![u8::MAX; 4];
            for i in 0..left
                invariant
                    data@.len() == 4,
                    left < 4,
                    input_split_index + left == s.len(),
                    s == input_bytes@,
                    s.len() == input_bytes.len(),
                    forall|j: int| 0 <= j < i ==> #[trigger] data@[j] == s[input_split_index + j],
                    forall|j: int| i <= j < 4 ==> #[trigger] data@[j] == 255u8,
            {
                data[i] = input_bytes[input_split_index + i];
            }
            proof {
                assert(s.len() % 4 == left);
                assert(p.len() == input_split_index + 4);
                assert(data@ =~= rest);
                assert(rest.skip(4) =~= Seq::<u8>::empty());
                assert(model::quads_bytes::<C>(cfg, rest.skip(4)) =~= Seq::<u8>::empty());
                assert(model::quads_bytes::<C>(cfg, rest) =~= model::quad_bytes::<C>(cfg, rest));
                assert(model::quads_misses::<C>(cfg, rest.skip(4)) == 0);
                assert(model::quads_misses::<C>(cfg, rest) == model::quad_misses::<C>(cfg, rest));
            }
            let ghost before = buffer@;
            self.decode_quad(&data, &mut buffer);
            proof {
                assert(buffer@ =~= before + model::quad_bytes::<C>(cfg, rest));
            }
        } else {
            proof {
                assert(s.len() % 4 == 0);
                assert(p =~= s);
                assert(p.skip(input_split_index as int) =~= Seq::<u8>::empty());
                assert(model::quads_bytes::<C>(cfg, Seq::<u8>::empty()) =~= Seq::<u8>::empty());
            }
        }
        proof {
            assert(buffer@ =~= model::quads_bytes::<C>(cfg, p));
        }
        let count = self.converter.num_unexpected_chars();
        if count == 0 {
        } else if count <= 2 {
            buffer.pop();
        } else {
            buffer.pop();
            buffer.pop();
        }
        proof {
            assert(buffer@ =~= model::trimmed(
                model::quads_bytes::<C>(cfg, p),
                (prior + model::quads_misses::<C>(cfg, p)) as nat,
            ));
        }
        buffer
    }
}

} // verus!

//! A converter without tables: it computes every character and sextet from the configuration.
use vstd::prelude::*;

use crate::{BaseAsciiConverter, Config, ConfigView, FromConfig};

verus! {

/// The sextet that [`MemoryEfficientBaseAsciiConverter`] reads `c` as: the configured
/// characters take precedence over the letters and digits, and `sixty_two` over `sixty_three`.
pub open spec fn computed_sextet(cfg: ConfigView, c: u8) -> Option<u8> {
    if c == cfg.sixty_two {
        Some(62)
    } else if c == cfg.sixty_three {
        Some(63)
    } else {
        crate::model::alnum_sextet(c)
    }
}

pub struct MemoryEfficientBaseAsciiConverter {
    unexpected_chars: usize,
}

impl Default for MemoryEfficientBaseAsciiConverter {
    fn default() -> (res: Self)
        ensures
            res.is_fresh(),
    {
        Self { unexpected_chars: 0 }
    }
}

impl FromConfig for MemoryEfficientBaseAsciiConverter {
    /// It serves every configuration: it reads the one it is handed on each call.
    open spec fn fits(&self, config: ConfigView) -> bool {
        true
    }

    closed spec fn is_fresh(&self) -> bool {
        self.unexpected_chars == 0
    }

    fn from_config(config: &Config) -> (res: Self) {
        Self { unexpected_chars: 0 }
    }
}

impl BaseAsciiConverter for MemoryEfficientBaseAsciiConverter {
    open spec fn sextet_of(c: u8, config: ConfigView) -> Option<u8> {
        computed_sextet(config, c)
    }

    open spec fn fallback() -> u8 {
        255
    }

    /// The alphabet of the configuration handed over.
    open spec fn char_of(&self, v: u8, config: ConfigView) -> u8 {
        crate::model::sextet_char(config, v)
    }

    /// The reading of the configuration handed over.
    open spec fn read_of(&self, c: u8, config: ConfigView) -> Option<u8> {
        computed_sextet(config, c)
    }

    closed spec fn unexpected_count(&self) -> usize {
        self.unexpected_chars
    }

    proof fn lemma_fresh_count(&self) {
    }

    proof fn lemma_fits(&self, config: ConfigView) {
    }

    fn base_to_ascii(&self, val: u8, bytes: &mut Vec<u8>, config: &Config) {
        match val {
            0..=25 => bytes.push(val + 65),
            26..=51 => bytes.push(val + 71),
            52..=61 => bytes.push(val - 4),
            62 => bytes.push(config.sixty_two),
            63 => bytes.push(config.sixty_three),
            _ => assert(false),
        }
    }

    fn base_to_ascii_with_index(&self, val: u8, buffer: &mut [u8], config: &Config, index: usize) {
        match val {
            0..=25 => buffer[index] = val + 65,
            26..=51 => buffer[index] = val + 71,
            52..=61 => buffer[index] = val - 4,
            62 => buffer[index] = config.sixty_two,
            63 => buffer[index] = config.sixty_three,
            _ => assert(false),
        }
    }

    /// Counts every character it does not know.
    fn ascii_to_base(&mut self, val: &u8, config: &Config) -> (res: Option<u8>)
        ensures
            final(self).unexpected_count() == (if res is Some {
                old(self).unexpected_count()
            } else {
                crate::model::next_count(old(self).unexpected_count())
            }),
    {
        if *val == config.sixty_two {
            return Some(62);
        }
        if *val == config.sixty_three {
            return Some(63);
        }
        match *val {
            65..=90 => Some(*val - 65),
            97..=122 => Some(*val - 71),
            48..=57 => Some(*val + 4),
            _ => {
                self.unexpected_chars = self.unexpected_chars.wrapping_add(1);
                None
            },
        }
    }

    fn ascii_to_base_non_failing(&mut self, val: &u8, config: &Config) -> (res: u8) {
        if *val == config.sixty_two {
            return 62;
        }
        if *val == config.sixty_three {
            return 63;
        }
        match *val {
            65..=90 => *val - 65,
            97..=122 => *val - 71,
            48..=57 => *val + 4,
            _ => {
                self.unexpected_chars = self.unexpected_chars.wrapping_add(1);
                u8::MAX
            },
        }
    }

    fn num_unexpected_chars(&self) -> (res: usize) {
        return self.unexpected_chars;
    }
}

} // verus!

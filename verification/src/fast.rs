//! A converter that looks characters and sextets up in tables built once per configuration.
use vstd::prelude::*;

use crate::{BaseAsciiConverter, Config, ConfigView, FromConfig};

verus! {

/// The sextet that the tables of [`FastConverter`] give to `c`: the configured characters
/// take precedence over the letters and digits, and `sixty_three` over `sixty_two`.
pub open spec fn table_sextet(cfg: ConfigView, c: u8) -> Option<u8> {
    if c == cfg.sixty_three {
        Some(63)
    } else if c == cfg.sixty_two {
        Some(62)
    } else {
        crate::model::alnum_sextet(c)
    }
}

/// The entry of the character table for `c`: its sextet, or 255 for an unknown character.
pub open spec fn table_entry(cfg: ConfigView, c: u8) -> u8 {
    match table_sextet(cfg, c) {
        Some(v) => v,
        None => 255,
    }
}

/// The entry of the character table for `c` once sextets `0..i` have been entered,
/// each one overwriting what stood at its character.
pub open spec fn entry_after(cfg: ConfigView, i: int, c: u8) -> u8
    decreases i,
{
    if i <= 0 {
        255
    } else if crate::model::sextet_char(cfg, (i - 1) as u8) == c {
        (i - 1) as u8
    } else {
        entry_after(cfg, i - 1, c)
    }
}

proof fn lemma_entry_after_alnum(cfg: ConfigView, i: int, c: u8)
    requires
        0 <= i <= 62,
    ensures
        entry_after(cfg, i, c) == (match crate::model::alnum_sextet(c) {
            Some(v) => if v < i {
                v
            } else {
                255u8
            },
            None => 255u8,
        }),
    decreases i,
{
    if i > 0 {
        lemma_entry_after_alnum(cfg, i - 1, c);
    }
}

proof fn lemma_entry_after_all(cfg: ConfigView, c: u8)
    ensures
        entry_after(cfg, 64, c) == table_entry(cfg, c),
{
    lemma_entry_after_alnum(cfg, 62, c);
    assert(entry_after(cfg, 64, c) == if c == cfg.sixty_three {
        63u8
    } else {
        entry_after(cfg, 63, c)
    });
    assert(entry_after(cfg, 63, c) == if c == cfg.sixty_two {
        62u8
    } else {
        entry_after(cfg, 62, c)
    });
}

#[derive(Debug)]
pub struct FastConverter {
    base_ascii: [u8; 64],
    ascii_base: [u8; 256],
    unexpected_char: usize,
}

impl FastConverter {
    /// The character that the table holds for sextet `v`.
    pub closed spec fn table_char(&self, v: u8) -> u8 {
        self.base_ascii@[v as int]
    }

    /// The sextet that the table holds for character `c`, if any.
    pub closed spec fn table_read(&self, c: u8) -> Option<u8> {
        let e = self.ascii_base@[c as int];
        if e == 255 {
            None
        } else {
            Some(e)
        }
    }
}

impl FromConfig for FastConverter {
    closed spec fn fits(&self, config: ConfigView) -> bool {
        &&& forall|v: int|
            0 <= v < 64 ==> #[trigger] self.base_ascii@[v] == crate::model::sextet_char(
                config,
                v as u8,
            )
        &&& forall|c: int| 0 <= c < 256 ==> #[trigger] self.ascii_base@[c] == table_entry(config, c as u8)
    }

    closed spec fn is_fresh(&self) -> bool {
        self.unexpected_char == 0
    }

    fn from_config(config: &Config) -> (res: Self) {
        let mut base_ascii = [0u8; 64];
        let mut ascii_base = [u8::MAX; 256];
        let ghost cfg = config@;
        for i in 0..64usize
            invariant
                forall|v: int| 0 <= v < i ==> #[trigger] base_ascii@[v] == crate::model::sextet_char(cfg, v as u8),
                forall|c: int| 0 <= c < 256 ==> #[trigger] ascii_base@[c] == entry_after(cfg, i as int, c as u8),
                cfg == config@,
        {
            let ghost before = ascii_base@;
            match i {
                0..=25 => {
                    base_ascii[i] = i as u8 + 65;
                    ascii_base[i + 65] = i as u8;
                },
                26..=51 => {
                    base_ascii[i] = i as u8 + 71;
                    ascii_base[i + 71] = i as u8;
                },
                52..=61 => {
                    base_ascii[i] = i as u8 - 4;
                    ascii_base[i - 4] = i as u8;
                },
                62 => {
                    base_ascii[i] = config.sixty_two;
                    ascii_base[config.sixty_two as usize] = i as u8;
                },
                63 => {
                    base_ascii[i] = config.sixty_three;
                    ascii_base[config.sixty_three as usize] = i as u8;
                },
                _ => {
                    assert(false);
                },
            }
            let ghost c = crate::model::sextet_char(cfg, i as u8) as int;
            assert(ascii_base@[c] == i as u8);
            assert forall|d: int| 0 <= d < 256 implies #[trigger] ascii_base@[d] == entry_after(
                cfg,
                i + 1,
                d as u8,
            ) by {
                if d != c {
                    assert(ascii_base@[d] == before[d]);
                }
            }
        }
        assert forall|d: int| 0 <= d < 256 implies #[trigger] ascii_base@[d] == table_entry(
            config@,
            d as u8,
        ) by {
            lemma_entry_after_all(config@, d as u8);
        }
        FastConverter { base_ascii, ascii_base, unexpected_char: 0 }
    }
}

impl Default for FastConverter {
    fn default() -> (res: Self)
        ensures
            res.fits(crate::model::standard_config()),
            res.is_fresh(),
    {
        FastConverter::from_config(&Config::standard())
    }
}

impl BaseAsciiConverter for FastConverter {
    open spec fn sextet_of(c: u8, config: ConfigView) -> Option<u8> {
        table_sextet(config, c)
    }

    open spec fn fallback() -> u8 {
        0
    }

    /// The tables answer, whatever configuration is handed over.
    open spec fn char_of(&self, v: u8, config: ConfigView) -> u8 {
        self.table_char(v)
    }

    /// The tables answer, whatever configuration is handed over.
    open spec fn read_of(&self, c: u8, config: ConfigView) -> Option<u8> {
        self.table_read(c)
    }

    closed spec fn unexpected_count(&self) -> usize {
        self.unexpected_char
    }

    proof fn lemma_fresh_count(&self) {
    }

    proof fn lemma_fits(&self, config: ConfigView) {
        assert forall|c: u8| #[trigger] self.read_of(c, config) == Self::sextet_of(c, config) by {
            assert(self.ascii_base@[c as int] == table_entry(config, c));
        }
        assert forall|v: u8| v < 64 implies #[trigger] self.char_of(v, config)
            == crate::model::sextet_char(config, v) by {
            assert(self.base_ascii@[v as int] == crate::model::sextet_char(config, v));
        }
    }

    #[inline]
    fn base_to_ascii(&self, val: u8, buffer: &mut Vec<u8>, config: &Config) {
        buffer.push(self.base_ascii[val as usize]);
    }

    #[inline]
    fn base_to_ascii_with_index(&self, val: u8, buffer: &mut [u8], config: &Config, index: usize) {
        buffer[index] = self.base_ascii[val as usize];
    }

    /// Never counts: the table answers without side effects.
    #[inline]
    fn ascii_to_base(&mut self, val: &u8, config: &Config) -> (res: Option<u8>)
        ensures
            final(self).unexpected_count() == old(self).unexpected_count(),
    {
        let v = self.ascii_base[*val as usize];
        if v == u8::MAX {
            None
        } else {
            Some(v)
        }
    }

    #[inline]
    fn ascii_to_base_non_failing(&mut self, val: &u8, config: &Config) -> (res: u8) {
        let val = self.ascii_base[*val as usize];
        if val == u8::MAX {
            self.unexpected_char = self.unexpected_char.wrapping_add(1);
            0
        } else {
            val
        }
    }

    fn num_unexpected_chars(&self) -> (res: usize) {
        self.unexpected_char
    }
}

} // verus!

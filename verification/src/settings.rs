//! Persisted settings: sound, field dimensions, the puzzle seed, and an
//! optional saved field image.
//!
//! The settings serialize to a fixed layout: an eight-byte magic header, one
//! sound byte, one byte each for field width and height, the four seed words
//! big-endian, and a big-endian two-byte length for the appended field
//! image. The seed fast-forward from input events uses the one shared
//! generator transition, so it stays in lockstep with puzzle generation.

use vstd::prelude::*;
use crate::codec::to_byte;
use crate::rng::{Rng, rng_step, rng_step_k};

verus! {

/// The magic header that marks a valid settings record.
pub open spec fn settings_header() -> Seq<u8> {
    seq![0xe7u8, 0x2au8, 0xf5u8, 0x0cu8, 0x1du8, 0x1bu8, 0x09u8, 0x18u8]
}

/// The four big-endian bytes of one seed word.
pub open spec fn word_bytes(w: u32) -> Seq<u8> {
    seq![
        ((w & 0xff000000) >> 24) as u8,
        ((w & 0x00ff0000) >> 16) as u8,
        ((w & 0x0000ff00) >> 8) as u8,
        (w & 0x000000ff) as u8,
    ]
}

/// One frame's worth of pressed or auto-repeated buttons.
pub struct InputPresses {
    pub a: bool,
    pub b: bool,
    pub left: bool,
    pub right: bool,
    pub up: bool,
    pub down: bool,
    pub select: bool,
    pub start: bool,
    pub r: bool,
    pub l: bool,
}

/// How many transition steps a frame of input advances the seed by.
pub open spec fn spec_input_loops(input: InputPresses) -> int {
    (if input.a {
        1int
    } else {
        0int
    }) + (if input.b {
        2int
    } else {
        0int
    }) + (if input.left {
        3int
    } else {
        0int
    }) + (if input.right {
        4int
    } else {
        0int
    }) + (if input.up {
        5int
    } else {
        0int
    }) + (if input.down {
        6int
    } else {
        0int
    }) + (if input.select {
        7int
    } else {
        0int
    }) + (if input.start {
        8int
    } else {
        0int
    }) + (if input.r {
        9int
    } else {
        0int
    }) + (if input.l {
        10int
    } else {
        0int
    })
}

/// The player's persisted settings.
pub struct Settings {
    pub sound: bool,
    pub playing_field_width: usize,
    pub playing_field_height: usize,
    pub playing_field_seed: [u32; 4],
    pub playing_field_data: Option<Vec<u8>>,
}

impl Settings {
    /// The serialized fixed-size prefix: header, sound, dimensions, seed
    /// words, and the length of the appended field image.
    pub open spec fn spec_prefix(self) -> Seq<u8> {
        settings_header() + seq![
            if self.sound {
                1u8
            } else {
                0u8
            },
            to_byte(self.playing_field_width as int),
            to_byte(self.playing_field_height as int),
        ] + word_bytes(self.playing_field_seed@[0]) + word_bytes(self.playing_field_seed@[1])
            + word_bytes(self.playing_field_seed@[2]) + word_bytes(self.playing_field_seed@[3])
            + seq![
            to_byte(
                (match self.playing_field_data {
                    Option::None => 0,
                    Option::Some(pfd) => pfd@.len() as int,
                }) / 256,
            ),
            to_byte(
                (match self.playing_field_data {
                    Option::None => 0,
                    Option::Some(pfd) => pfd@.len() as int,
                }) % 256,
            ),
        ]
    }

    /// The full serialized record: the prefix followed by the field image.
    pub open spec fn spec_bytes(self) -> Seq<u8> {
        self.spec_prefix() + (match self.playing_field_data {
            Option::None => Seq::<u8>::empty(),
            Option::Some(pfd) => pfd@,
        })
    }

    /// Default settings: sound on, a ten-by-ten field, the generator's
    /// fallback seed, and no saved field image.
    pub fn new() -> (r: Settings)
        ensures
            r.sound == true,
            r.playing_field_width == 10,
            r.playing_field_height == 10,
            r.playing_field_seed@ == seq![
                1014776995u32,
                476057059u32,
                3301633994u32,
                706340607u32,
            ],
            r.playing_field_data is None,
    {
        Settings {
            sound: true,
            playing_field_width: 10,
            playing_field_height: 10,
            playing_field_seed: [1014776995, 476057059, 3301633994, 706340607],
            playing_field_data: Option::None,
        }
    }

    /// Serializes the settings record; the caller persists the bytes.
    pub fn save_as_u8_vec(&self) -> (r: Vec<u8>)
        requires
            self.playing_field_width <= 255,
            self.playing_field_height <= 255,
            (self.playing_field_data matches Some(pfd) ==> pfd@.len() <= 0xffff),
        ensures
            r@ == self.spec_bytes(),
    {
        let mut data: Vec<u8> = Vec::new();
        data.push(0xe7);
        data.push(0x2a);
        data.push(0xf5);
        data.push(0x0c);
        data.push(0x1d);
        data.push(0x1b);
        data.push(0x09);
        data.push(0x18);
        data.push(if self.sound {
            1
        } else {
            0
        });
        data.push(self.playing_field_width as u8);
        data.push(self.playing_field_height as u8);
        let mut wi: usize = 0;
        while wi < 4
            invariant
                wi <= 4,
                data@ == settings_header() + seq![
                    if self.sound {
                        1u8
                    } else {
                        0u8
                    },
                    to_byte(self.playing_field_width as int),
                    to_byte(self.playing_field_height as int),
                ] + (if wi >= 1 {
                    word_bytes(self.playing_field_seed@[0])
                } else {
                    Seq::<u8>::empty()
                }) + (if wi >= 2 {
                    word_bytes(self.playing_field_seed@[1])
                } else {
                    Seq::<u8>::empty()
                }) + (if wi >= 3 {
                    word_bytes(self.playing_field_seed@[2])
                } else {
                    Seq::<u8>::empty()
                }) + (if wi >= 4 {
                    word_bytes(self.playing_field_seed@[3])
                } else {
                    Seq::<u8>::empty()
                }),
            decreases 4 - wi,
        {
            let ghost pre = data@;
            let w: u32 = self.playing_field_seed[wi];
            proof {
                assert(((w & 0xff000000) >> 24) <= 255 && ((w & 0x00ff0000) >> 16) <= 255 && ((w
                    & 0x0000ff00) >> 8) <= 255 && (w & 0x000000ff) <= 255) by (bit_vector);
            }
            data.push(((w & 0xff000000) >> 24) as u8);
            data.push(((w & 0x00ff0000) >> 16) as u8);
            data.push(((w & 0x0000ff00) >> 8) as u8);
            data.push((w & 0x000000ff) as u8);
            proof {
                assert(data@ =~= pre + word_bytes(w));
                assert(data@ =~= settings_header() + seq![
                    if self.sound {
                        1u8
                    } else {
                        0u8
                    },
                    to_byte(self.playing_field_width as int),
                    to_byte(self.playing_field_height as int),
                ] + (if wi + 1 >= 1 {
                    word_bytes(self.playing_field_seed@[0])
                } else {
                    Seq::<u8>::empty()
                }) + (if wi + 1 >= 2 {
                    word_bytes(self.playing_field_seed@[1])
                } else {
                    Seq::<u8>::empty()
                }) + (if wi + 1 >= 3 {
                    word_bytes(self.playing_field_seed@[2])
                } else {
                    Seq::<u8>::empty()
                }) + (if wi + 1 >= 4 {
                    word_bytes(self.playing_field_seed@[3])
                } else {
                    Seq::<u8>::empty()
                }));
            }
            wi += 1;
        }
        let pfd_len: usize = match &self.playing_field_data {
            Option::None => 0,
            Option::Some(pfd) => pfd.len(),
        };
        data.push((pfd_len / 256) as u8);
        data.push((pfd_len % 256) as u8);
        proof {
            assert(data@ =~= self.spec_prefix());
        }
        match &self.playing_field_data {
            Option::None => {},
            Option::Some(pfd) => {
                let mut k: usize = 0;
                while k < pfd.len()
                    invariant
                        self.playing_field_data matches Some(p) && p == pfd,
                        k <= pfd@.len(),
                        data@ == self.spec_prefix() + pfd@.take(k as int),
                    decreases pfd@.len() - k,
                {
                    data.push(pfd[k]);
                    proof {
                        assert(pfd@.take(k + 1) =~= pfd@.take(k as int).push(pfd@[k as int]));
                    }
                    k += 1;
                }
                proof {
                    assert(pfd@.take(pfd@.len() as int) =~= pfd@);
                }
            },
        }
        proof {
            assert(data@ =~= self.spec_bytes());
        }
        data
    }

    /// Parses a serialized settings prefix. Fails, changing nothing, when
    /// the header does not match; otherwise sets every scalar field, clears
    /// the field image and returns its stored length, which the caller reads
    /// from the bytes that follow the prefix. Note: of each stored seed
    /// word, only the two high bytes are read from their own offsets; the
    /// two low bytes re-read the word's first byte. This matches the layout
    /// existing saves were written against and must not be changed without
    /// migrating them.
    pub fn load_from_u8_vec(&mut self, data: &Vec<u8>) -> (r: Option<usize>)
        requires
            data@.len() >= 29,
        ensures
            (r is None <==> data@.subrange(0, 8) != settings_header()),
            r is None ==> *final(self) == *old(self),
            r matches Some(pfd_len) ==> {
                &&& final(self).sound == (data@[8] != 0)
                &&& final(self).playing_field_width == data@[9] as usize
                &&& final(self).playing_field_height == data@[10] as usize
                &&& (forall|wi: int|
                    0 <= wi < 4 ==> #[trigger] final(self).playing_field_seed@[wi] == ((data@[11
                        + 4 * wi] as u32) << 24) | ((data@[12 + 4 * wi] as u32) << 16) | ((data@[11
                        + 4 * wi] as u32) << 8) | (data@[11 + 4 * wi] as u32))
                &&& final(self).playing_field_data is None
                &&& pfd_len == (data@[27] as int) * 256 + (data@[28] as int)
            },
    {
        let mut hi: usize = 0;
        while hi < 8
            invariant
                data@.len() >= 29,
                hi <= 8,
                self == old(self),
                forall|j: int| 0 <= j < hi ==> data@[j] == settings_header()[j],
            decreases 8 - hi,
        {
            let expected: u8 = if hi == 0 {
                0xe7
            } else if hi == 1 {
                0x2a
            } else if hi == 2 {
                0xf5
            } else if hi == 3 {
                0x0c
            } else if hi == 4 {
                0x1d
            } else if hi == 5 {
                0x1b
            } else if hi == 6 {
                0x09
            } else {
                0x18
            };
            if data[hi] != expected {
                proof {
                    assert(data@.subrange(0, 8)[hi as int] != settings_header()[hi as int]);
                }
                return Option::None;
            }
            hi += 1;
        }
        proof {
            assert(data@.subrange(0, 8) =~= settings_header());
        }
        self.sound = data[8] != 0;
        self.playing_field_width = data[9] as usize;
        self.playing_field_height = data[10] as usize;
        let mut wi: usize = 0;
        let mut seed: [u32; 4] = [0, 0, 0, 0];
        while wi < 4
            invariant
                data@.len() >= 29,
                wi <= 4,
                forall|j: int|
                    0 <= j < wi ==> #[trigger] seed@[j] == ((data@[11 + 4 * j] as u32) << 24) | ((
                    data@[12 + 4 * j] as u32) << 16) | ((data@[11 + 4 * j] as u32) << 8) | (data@[
                        11 + 4 * j] as u32),
            decreases 4 - wi,
        {
            let di = 11 + 4 * wi;
            let word: u32 = ((data[di] as u32) << 24) | ((data[di + 1] as u32) << 16) | ((
            data[di] as u32) << 8) | (data[di] as u32);
            if wi == 0 {
                seed = [word, seed[1], seed[2], seed[3]];
            } else if wi == 1 {
                seed = [seed[0], word, seed[2], seed[3]];
            } else if wi == 2 {
                seed = [seed[0], seed[1], word, seed[3]];
            } else {
                seed = [seed[0], seed[1], seed[2], word];
            }
            wi += 1;
        }
        self.playing_field_seed = seed;
        self.playing_field_data = Option::None;
        let pfd_len: usize = (data[27] as usize) * 256 + (data[28] as usize);
        Option::Some(pfd_len)
    }

    /// Weighted count of this frame's button events.
    fn count_input_loops(input: &InputPresses) -> (r: usize)
        ensures
            r == spec_input_loops(*input),
    {
        let la: usize = if input.a {
            1
        } else {
            0
        };
        let lb: usize = if input.b {
            2
        } else {
            0
        };
        let ll: usize = if input.left {
            3
        } else {
            0
        };
        let lr: usize = if input.right {
            4
        } else {
            0
        };
        let lu: usize = if input.up {
            5
        } else {
            0
        };
        let ld: usize = if input.down {
            6
        } else {
            0
        };
        let ls: usize = if input.select {
            7
        } else {
            0
        };
        let lt: usize = if input.start {
            8
        } else {
            0
        };
        let lx: usize = if input.r {
            9
        } else {
            0
        };
        let ly: usize = if input.l {
            10
        } else {
            0
        };
        la + lb + ll + lr + lu + ld + ls + lt + lx + ly
    }

    /// Advances the stored seed by one shared-transition step per weighted
    /// button event this frame; a frame without events changes nothing.
    pub fn alter_seed_with_input(&mut self, input: &InputPresses)
        ensures
            final(self).sound == old(self).sound,
            final(self).playing_field_width == old(self).playing_field_width,
            final(self).playing_field_height == old(self).playing_field_height,
            final(self).playing_field_data == old(self).playing_field_data,
            (final(self).playing_field_seed@[0], final(self).playing_field_seed@[1], final(self).playing_field_seed@[2], final(self).playing_field_seed@[3]) == rng_step_k(
                (old(self).playing_field_seed@[0], old(self).playing_field_seed@[1], old(self).playing_field_seed@[2], old(self).playing_field_seed@[3]),
                spec_input_loops(*input) as nat,
            ),
    {
        let loops = Self::count_input_loops(input);
        let ghost st0 = (self.playing_field_seed@[0], self.playing_field_seed@[1],
            self.playing_field_seed@[2], self.playing_field_seed@[3]);
        let mut gen = Rng {
            s0: self.playing_field_seed[0],
            s1: self.playing_field_seed[1],
            s2: self.playing_field_seed[2],
            s3: self.playing_field_seed[3],
        };
        let mut k: usize = 0;
        while k < loops
            invariant
                k <= loops,
                gen.state() == rng_step_k(st0, k as nat),
                self == old(self),
                st0 == (self.playing_field_seed@[0], self.playing_field_seed@[1],
                    self.playing_field_seed@[2], self.playing_field_seed@[3]),
            decreases loops - k,
        {
            let _ = gen.next_i32();
            proof {
                assert(gen.state() == rng_step(rng_step_k(st0, k as nat)));
            }
            k += 1;
        }
        self.playing_field_seed = [gen.s0, gen.s1, gen.s2, gen.s3];
    }
}

} // verus!

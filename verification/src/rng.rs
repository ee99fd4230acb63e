//! Deterministic pseudo-random generator.
//!
//! The engine draws its random values from a 128-bit-state generator whose
//! state transition must be reproducible bit for bit: saved seeds replay the
//! same puzzle, and the seed fast-forward in the settings must stay in
//! lockstep with generation. The transition takes state `s[0..3]`, computes
//! `t = s[1] >> 9`, xors the words pairwise, mixes `t` into `s[2]` and
//! rotates `s[3]` left by 11; the output word is
//! `rotate_left(s[0] + s[3], 7) + s[0]` (wrapping), read before the
//! transition. The one shared transition function below is used both by
//! [`Rng::next_i32`] and by the settings' seed fast-forward.

use vstd::prelude::*;

verus! {

/// `x` rotated left by 7 bits.
pub open spec fn spec_rotl7(x: u32) -> u32 {
    (x << 7) | (x >> 25)
}

/// `x` rotated left by 11 bits.
pub open spec fn spec_rotl11(x: u32) -> u32 {
    (x << 11) | (x >> 21)
}

/// One step of the state transition.
pub open spec fn rng_step(s: (u32, u32, u32, u32)) -> (u32, u32, u32, u32) {
    let t = s.1 >> 9;
    let s2 = s.2 ^ s.0;
    let s3 = s.3 ^ s.1;
    let s1 = s.1 ^ s2;
    let s0 = s.0 ^ s3;
    (s0, s1, s2 ^ t, spec_rotl11(s3))
}

/// The output word drawn from state `s`, before the transition runs.
pub open spec fn rng_output(s: (u32, u32, u32, u32)) -> u32 {
    vstd::wrapping::u32_specs::wrapping_add(
        spec_rotl7(vstd::wrapping::u32_specs::wrapping_add(s.0, s.3)),
        s.0,
    )
}

/// The output word of state `s` read as a signed 32-bit value.
pub open spec fn rng_output_signed(s: (u32, u32, u32, u32)) -> int {
    if rng_output(s) < 0x8000_0000 {
        rng_output(s) as int
    } else {
        rng_output(s) - 0x1_0000_0000
    }
}

/// The magnitude of the signed output word: the generator is only ever
/// consumed as `|output| % n`.
pub open spec fn rng_draw(s: (u32, u32, u32, u32)) -> nat {
    if rng_output(s) < 0x8000_0000 {
        rng_output(s) as nat
    } else {
        (0x1_0000_0000 - rng_output(s)) as nat
    }
}

/// State `s` advanced by `k` transition steps.
pub open spec fn rng_step_k(s: (u32, u32, u32, u32), k: nat) -> (u32, u32, u32, u32)
    decreases k,
{
    if k == 0 {
        s
    } else {
        rng_step(rng_step_k(s, (k - 1) as nat))
    }
}

/// The seed every generator falls back to when given the all-zero seed,
/// first word.
pub const RNG_DEFAULT_SEED_0: u32 = 1014776995;

/// Second word of the fallback seed.
pub const RNG_DEFAULT_SEED_1: u32 = 476057059;

/// Third word of the fallback seed.
pub const RNG_DEFAULT_SEED_2: u32 = 3301633994;

/// Fourth word of the fallback seed.
pub const RNG_DEFAULT_SEED_3: u32 = 706340607;

/// The deterministic pseudo-random generator.
pub struct Rng {
    pub s0: u32,
    pub s1: u32,
    pub s2: u32,
    pub s3: u32,
}

impl Rng {
    /// The current 128-bit state as a word tuple.
    pub open spec fn state(self) -> (u32, u32, u32, u32) {
        (self.s0, self.s1, self.s2, self.s3)
    }

    /// Builds a generator from a seed; the all-zero seed (a degenerate fixed
    /// point of the transition) is replaced by the fixed fallback seed.
    pub fn new_with_seed(seed: [u32; 4]) -> (r: Self)
        ensures
            r.state() == (if seed@[0] == 0u32 && seed@[1] == 0u32 && seed@[2] == 0u32 && seed@[3]
                == 0u32 {
                (RNG_DEFAULT_SEED_0, RNG_DEFAULT_SEED_1, RNG_DEFAULT_SEED_2, RNG_DEFAULT_SEED_3)
            } else {
                (seed@[0], seed@[1], seed@[2], seed@[3])
            }),
    {
        if seed[0] == 0 && seed[1] == 0 && seed[2] == 0 && seed[3] == 0 {
            Rng {
                s0: RNG_DEFAULT_SEED_0,
                s1: RNG_DEFAULT_SEED_1,
                s2: RNG_DEFAULT_SEED_2,
                s3: RNG_DEFAULT_SEED_3,
            }
        } else {
            Rng { s0: seed[0], s1: seed[1], s2: seed[2], s3: seed[3] }
        }
    }

    /// Draws the next signed 32-bit value and advances the state by one step.
    pub fn next_i32(&mut self) -> (r: i32)
        ensures
            final(self).state() == rng_step(old(self).state()),
            r as int == rng_output_signed(old(self).state()),
    {
        let sum: u32 = self.s0.wrapping_add(self.s3);
        let rot: u32 = (sum << 7) | (sum >> 25);
        let out: u32 = rot.wrapping_add(self.s0);

        let t: u32 = self.s1 >> 9;
        self.s2 = self.s2 ^ self.s0;
        self.s3 = self.s3 ^ self.s1;
        self.s1 = self.s1 ^ self.s2;
        self.s0 = self.s0 ^ self.s3;
        self.s2 = self.s2 ^ t;
        self.s3 = (self.s3 << 11) | (self.s3 >> 21);

        if out < 0x8000_0000 {
            out as i32
        } else {
            let mag: u64 = 0x1_0000_0000u64 - (out as u64);
            (-(mag as i64)) as i32
        }
    }

    /// Draws the next value reduced into `[0, n)`, the only way the engine
    /// consumes the generator; the caller accepts the modulo bias.
    pub fn next_below(&mut self, n: usize) -> (r: usize)
        requires
            n >= 1,
        ensures
            final(self).state() == rng_step(old(self).state()),
            r == rng_draw(old(self).state()) % (n as nat),
            r < n,
    {
        let ghost s = self.state();
        let v: i32 = self.next_i32();
        let mag: u64 = if v >= 0 {
            v as u64
        } else {
            (-(v as i64)) as u64
        };
        proof {
            assert(mag == rng_draw(s));
        }
        let r: usize = (mag % (n as u64)) as usize;
        proof {
            assert(r == rng_draw(s) % (n as nat));
        }
        r
    }
}


/// Shuffles the tile-direction list in place with the Fisher-Yates walk,
/// drawing one value per step from the generator. The result holds exactly
/// the elements it started with.
pub fn fisher_yates_shuffle_vec_inplace(v: &mut Vec<(i32, i32)>, rng: &mut Rng)
    ensures
        final(v)@.len() == old(v)@.len(),
        final(v)@.to_multiset() == old(v)@.to_multiset(),
        forall|j: int| 0 <= j < final(v)@.len() ==> old(v)@.contains(#[trigger] final(v)@[j]),
        final(rng).state() == (if old(v)@.len() >= 1 {
            rng_step_k(old(rng).state(), (old(v)@.len() - 1) as nat)
        } else {
            old(rng).state()
        }),
{
    let n = v.len();
    if n == 0 {
        return ;
    }
    proof {
        assert forall|j: int| 0 <= j < v@.len() implies old(v)@.contains(#[trigger] v@[j]) by {
            assert(old(v)@[j] == v@[j]);
        }
    }
    let mut i: usize = n - 1;
    while i >= 1
        invariant
            v@.len() == n,
            n >= 1,
            0 <= i <= n - 1,
            v@.to_multiset() == old(v)@.to_multiset(),
            forall|j: int| 0 <= j < v@.len() ==> old(v)@.contains(#[trigger] v@[j]),
            rng.state() == rng_step_k(old(rng).state(), (n - 1 - i) as nat),
        decreases i,
    {
        let j = rng.next_below(i + 1);
        let ghost pre = v@;
        let a = v[i];
        let b = v[j];
        v[i] = b;
        v[j] = a;
        proof {
            assert(rng.state() == rng_step_k(old(rng).state(), (n - i) as nat));
            vstd::seq_lib::to_multiset_update(pre, i as int, b);
            vstd::seq_lib::to_multiset_update(pre.update(i as int, b), j as int, a);
            pre.to_multiset_ensures();
            pre.update(i as int, b).to_multiset_ensures();
            if i == j {
                assert(v@ =~= pre);
            } else {
                assert(pre.update(i as int, b)[j as int] == pre[j as int]);
                assert(v@.to_multiset() =~= pre.to_multiset());
            }
            assert forall|jj: int| 0 <= jj < v@.len() implies old(v)@.contains(
                #[trigger] v@[jj],
            ) by {
                if jj == i as int {
                    assert(pre[j as int] == v@[jj]);
                    assert(old(v)@.contains(pre[j as int]));
                } else if jj == j as int {
                    assert(pre[i as int] == v@[jj]);
                    assert(old(v)@.contains(pre[i as int]));
                } else {
                    assert(pre[jj] == v@[jj]);
                    assert(old(v)@.contains(pre[jj]));
                }
            }
        }
        i = i - 1;
    }
}

} // verus!

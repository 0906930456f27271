//! Incremental 32-bit xxHash. `XXHash32` consumes input in 16-byte groups
//! across four lanes, buffering at most 15 unconsumed bytes, and `digest`
//! projects the current state to the hash of everything fed so far.
//!
//! The spec function `xxh32` defines the hash of a whole byte sequence; the
//! accumulator's contract says that `digest` returns exactly `xxh32` of the
//! concatenation of all bytes passed to `update`, however that input was
//! split across calls.
use crate::common::le32_at;
use vstd::arithmetic::div_mod::lemma_add_mod_noop;
use vstd::arithmetic::div_mod::lemma_fundamental_div_mod;
use vstd::arithmetic::div_mod::lemma_fundamental_div_mod_converse_mod;
use vstd::arithmetic::div_mod::lemma_mod_sub_multiples_vanish;
use vstd::arithmetic::div_mod::lemma_small_mod;
use vstd::prelude::*;
use vstd::wrapping::u32_specs;

verus! {

pub const PRIME32_1: u32 = 0x9E3779B1;

pub const PRIME32_2: u32 = 0x85EBCA77;

pub const PRIME32_3: u32 = 0xC2B2AE3D;

pub const PRIME32_4: u32 = 0x27D4EB2F;

pub const PRIME32_5: u32 = 0x165667B1;

/// `x` rotated left by `n` bits.
#[verifier::opaque]
pub open spec fn rotl(x: u32, n: u32) -> u32
    recommends
        0 < n < 32,
{
    (x << n) | (x >> ((32 - n) as u32))
}

/// One lane round: absorb one 32-bit word into a lane accumulator.
#[verifier::opaque]
pub open spec fn spec_round(acc: u32, w: u32) -> u32 {
    u32_specs::wrapping_mul(
        rotl(u32_specs::wrapping_add(acc, u32_specs::wrapping_mul(w, PRIME32_2)), 13),
        PRIME32_1,
    )
}

/// The four lane accumulators seeded for a fresh hash.
pub open spec fn lanes_init(seed: u32) -> (u32, u32, u32, u32) {
    (
        u32_specs::wrapping_add(u32_specs::wrapping_add(seed, PRIME32_1), PRIME32_2),
        u32_specs::wrapping_add(seed, PRIME32_2),
        seed,
        u32_specs::wrapping_sub(seed, PRIME32_1),
    )
}

/// Absorb one 16-byte group, one little-endian word per lane.
pub open spec fn lanes_round(l: (u32, u32, u32, u32), g: Seq<u8>) -> (u32, u32, u32, u32)
    recommends
        g.len() == 16,
{
    (
        spec_round(l.0, le32_at(g, 0)),
        spec_round(l.1, le32_at(g, 4)),
        spec_round(l.2, le32_at(g, 8)),
        spec_round(l.3, le32_at(g, 12)),
    )
}

/// The lanes after absorbing every complete 16-byte group of `body` in order.
pub open spec fn lanes_after(l: (u32, u32, u32, u32), body: Seq<u8>) -> (u32, u32, u32, u32)
    decreases body.len(),
{
    if body.len() < 16 {
        l
    } else {
        lanes_after(lanes_round(l, body.take(16)), body.skip(16))
    }
}

/// Combine the four lanes into one accumulator.
pub open spec fn merge_lanes(l: (u32, u32, u32, u32)) -> u32 {
    u32_specs::wrapping_add(
        u32_specs::wrapping_add(u32_specs::wrapping_add(rotl(l.0, 1), rotl(l.1, 7)), rotl(l.2, 12)),
        rotl(l.3, 18),
    )
}

/// Drain the final partial group: 4-byte steps first, then single bytes.
pub open spec fn tail_mix(acc: u32, t: Seq<u8>) -> u32
    decreases t.len(),
{
    if t.len() >= 4 {
        tail_mix(
            u32_specs::wrapping_mul(
                rotl(
                    u32_specs::wrapping_add(acc, u32_specs::wrapping_mul(le32_at(t, 0), PRIME32_3)),
                    17,
                ),
                PRIME32_4,
            ),
            t.skip(4),
        )
    } else if t.len() >= 1 {
        tail_mix(
            u32_specs::wrapping_mul(
                rotl(u32_specs::wrapping_add(acc, u32_specs::wrapping_mul(t[0] as u32, PRIME32_5)), 11),
                PRIME32_1,
            ),
            t.skip(1),
        )
    } else {
        acc
    }
}

/// The final bit-avalanche.
pub open spec fn spec_avalanche(h: u32) -> u32 {
    let h1 = h ^ (h >> 15);
    let h2 = u32_specs::wrapping_mul(h1, PRIME32_2);
    let h3 = h2 ^ (h2 >> 13);
    let h4 = u32_specs::wrapping_mul(h3, PRIME32_3);
    h4 ^ (h4 >> 16)
}

/// The bytes of `s` that form complete 16-byte groups.
pub open spec fn body_of(s: Seq<u8>) -> Seq<u8> {
    s.take(s.len() - s.len() % 16)
}

/// The trailing partial group of `s` (fewer than 16 bytes).
pub open spec fn tail_of(s: Seq<u8>) -> Seq<u8> {
    s.skip(s.len() - s.len() % 16)
}

/// The 32-bit xxHash of `input` under `seed`.
pub open spec fn xxh32(seed: u32, input: Seq<u8>) -> u32 {
    let acc0 = if input.len() >= 16 {
        merge_lanes(lanes_after(lanes_init(seed), body_of(input)))
    } else {
        u32_specs::wrapping_add(seed, PRIME32_5)
    };
    let acc1 = u32_specs::wrapping_add(acc0, (input.len() % 0x1_0000_0000) as u32);
    spec_avalanche(tail_mix(acc1, tail_of(input)))
}

/// Absorbing a group-aligned prefix and then the rest equals absorbing the
/// whole input at once. This compositionality is why splitting the input
/// across `update` calls cannot change the digest.
pub proof fn lemma_lanes_after_append(l: (u32, u32, u32, u32), a: Seq<u8>, b: Seq<u8>)
    requires
        a.len() % 16 == 0,
    ensures
        lanes_after(l, a + b) == lanes_after(lanes_after(l, a), b),
    decreases a.len(),
{
    if a.len() == 0 {
        assert(a + b =~= b);
    } else {
        assert(a.len() >= 16);
        assert((a + b).take(16) =~= a.take(16));
        assert((a + b).skip(16) =~= a.skip(16) + b);
        assert(a.skip(16).len() % 16 == 0) by {
            lemma_mod_sub_multiples_vanish(a.len() as int, 16);
        }
        lemma_lanes_after_append(lanes_round(l, a.take(16)), a.skip(16), b);
    }
}

proof fn lemma_lanes_after_single(l: (u32, u32, u32, u32), g: Seq<u8>)
    requires
        g.len() == 16,
    ensures
        lanes_after(l, g) == lanes_round(l, g),
{
    assert(g.take(16) =~= g);
    assert(lanes_after(lanes_round(l, g.take(16)), g.skip(16)) == lanes_round(l, g.take(16)));
}

proof fn lemma_mod16_succ(n: nat)
    ensures
        n % 16 < 15 ==> (n + 1) % 16 == n % 16 + 1,
        n % 16 == 15 ==> (n + 1) % 16 == 0,
{
    let q = n as int / 16;
    let r = n as int % 16;
    lemma_fundamental_div_mod(n as int, 16);
    if r < 15 {
        lemma_fundamental_div_mod_converse_mod(n as int + 1, 16, q, r + 1);
    } else {
        lemma_fundamental_div_mod_converse_mod(n as int + 1, 16, q + 1, 0);
    }
}

proof fn lemma_mod_add_wrap(a: nat, b: nat)
    ensures
        u32_specs::wrapping_add(((a % 0x1_0000_0000) as u32), ((b % 0x1_0000_0000) as u32)) == (a
            + b) % 0x1_0000_0000,
{
    let m: int = 0x1_0000_0000;
    lemma_add_mod_noop(a as int, b as int, m);
    let x = a as int % m;
    let y = b as int % m;
    if x + y < m {
        lemma_small_mod((x + y) as nat, m as nat);
    } else {
        lemma_mod_sub_multiples_vanish(x + y, m);
        lemma_small_mod((x + y - m) as nat, m as nat);
    }
}

/// Streaming xxHash32 accumulator: four 32-bit lanes, a tail buffer of at
/// most 15 bytes not yet forming a complete group, a flag recording whether
/// any complete group was absorbed, and the total input length modulo 2^32.
pub struct XXHash32 {
    v1: u32,
    v2: u32,
    v3: u32,
    v4: u32,
    buf: Vec<u8>,
    buf_used: usize,
    did_at_least_one_full_round: bool,
    total_len_mod_32_bit: u32,
    seed: Ghost<u32>,
    fed: Ghost<Seq<u8>>,
}

impl XXHash32 {
    /// The seed this accumulator was constructed with.
    pub closed spec fn seed(self) -> u32 {
        self.seed@
    }

    /// The concatenation of all bytes passed to `update` so far.
    pub closed spec fn fed(self) -> Seq<u8> {
        self.fed@
    }

    spec fn abs_inv(self, seed: u32, cur: Seq<u8>) -> bool {
        let k = cur.len() - cur.len() % 16;
        &&& self.buf@.len() == 16
        &&& self.buf_used < 16
        &&& self.buf_used == cur.len() % 16
        &&& (self.v1, self.v2, self.v3, self.v4) == lanes_after(lanes_init(seed), cur.take(k))
        &&& self.buf@.take(self.buf_used as int) == cur.skip(k)
    }

    /// The accumulator state is exactly the streaming state reached by
    /// feeding `fed()` under `seed()`.
    pub closed spec fn wf(self) -> bool {
        &&& self.abs_inv(self.seed@, self.fed@)
        &&& self.total_len_mod_32_bit == self.fed@.len() % 0x1_0000_0000
        &&& self.did_at_least_one_full_round == (self.fed@.len() >= 16)
    }

    /// A fresh accumulator that has seen no input.
    pub fn new(seed: u32) -> (r: XXHash32)
        ensures
            r.wf(),
            r.seed() == seed,
            r.fed() == Seq::<u8>::empty(),
    {
        let r = XXHash32 {
            v1: seed.wrapping_add(PRIME32_1).wrapping_add(PRIME32_2),
            v2: seed.wrapping_add(PRIME32_2),
            v3: seed,
            v4: seed.wrapping_sub(PRIME32_1),
            buf: vec![0u8; 16],
            buf_used: 0,
            did_at_least_one_full_round: false,
            total_len_mod_32_bit: 0,
            seed: Ghost(seed),
            fed: Ghost(Seq::<u8>::empty()),
        };
        proof {
            let fed = Seq::<u8>::empty();
            lemma_small_mod(0, 16);
            lemma_small_mod(0, 0x1_0000_0000);
            assert(fed.take(0) =~= Seq::<u8>::empty());
            assert(r.buf@.take(0) =~= fed.skip(0));
        }
        r
    }

    /// Absorb `input`. The digest afterwards is the hash of everything fed,
    /// in order; splitting input across calls does not change it.
    #[verifier::rlimit(80)]
    pub fn update(&mut self, input: &[u8])
        requires
            old(self).wf(),
        ensures
            final(self).wf(),
            final(self).seed() == old(self).seed(),
            final(self).fed() == old(self).fed() + input@,
    {
        let ghost old_fed = self.fed@;
        let ghost seed0 = self.seed@;
        let input_len = input.len();

        let add32: u32 = ((input_len as u64) % 0x1_0000_0000) as u32;
        self.total_len_mod_32_bit = self.total_len_mod_32_bit.wrapping_add(add32);
        proof {
            lemma_mod_add_wrap(old_fed.len(), input_len as nat);
        }
        if input_len >= 16 || self.total_len_mod_32_bit >= 16 {
            self.did_at_least_one_full_round = true;
        }
        proof {
            let total = old_fed.len() + input_len;
            if old_fed.len() < 16 && input_len < 16 {
                lemma_small_mod(total as nat, 0x1_0000_0000);
            }
            if old_fed.len() >= 16 || input_len >= 16 {
                assert(total >= 16);
            }
            assert(self.did_at_least_one_full_round == (total >= 16));
        }

        let mut i: usize = 0;
        while i < input_len
            invariant
                input_len == input@.len(),
                i <= input_len,
                self.seed@ == seed0,
                self.abs_inv(seed0, old_fed + input@.take(i as int)),
                self.total_len_mod_32_bit == (old_fed.len() + input@.len()) % 0x1_0000_0000,
                self.did_at_least_one_full_round == (old_fed.len() + input@.len() >= 16),
            decreases input_len - i,
        {
            let ghost cur = old_fed + input@.take(i as int);
            let ghost cur2 = old_fed + input@.take(i + 1);
            let b = input[i];
            let bu = self.buf_used;
            self.buf[bu] = b;
            self.buf_used = bu + 1;
            proof {
                assert(input@.take(i + 1) =~= input@.take(i as int).push(input@[i as int]));
                assert(cur2 =~= cur.push(b));
                lemma_mod16_succ(cur.len());
            }
            if self.buf_used == 16 {
                let g0 = XXHash32::read32le(self.buf.as_slice(), 0);
                let g1 = XXHash32::read32le(self.buf.as_slice(), 4);
                let g2 = XXHash32::read32le(self.buf.as_slice(), 8);
                let g3 = XXHash32::read32le(self.buf.as_slice(), 12);
                self.v1 = XXHash32::round(self.v1, g0);
                self.v2 = XXHash32::round(self.v2, g1);
                self.v3 = XXHash32::round(self.v3, g2);
                self.v4 = XXHash32::round(self.v4, g3);
                self.buf_used = 0;
                proof {
                    let k = cur.len() - cur.len() % 16;
                    assert(self.buf@ =~= cur.skip(k).push(b));
                    assert(cur2.len() % 16 == 0);
                    assert(cur2.take(cur2.len() - cur2.len() % 16) =~= cur2);
                    assert(cur2 =~= cur.take(k) + self.buf@);
                    assert(cur.take(k).len() % 16 == 0) by {
                        lemma_mod_sub_multiples_vanish(cur.len() as int, 16);
                    }
                    lemma_lanes_after_append(lanes_init(seed0), cur.take(k), self.buf@);
                    lemma_lanes_after_single(
                        lanes_after(lanes_init(seed0), cur.take(k)),
                        self.buf@,
                    );
                    assert(self.buf@.take(0) =~= cur2.skip(cur2.len() as int));
                }
            } else {
                proof {
                    let k = cur.len() - cur.len() % 16;
                    assert(cur2.len() - cur2.len() % 16 == k);
                    assert(cur2.take(k) =~= cur.take(k));
                    assert(cur2.skip(k) =~= cur.skip(k).push(b));
                    assert(self.buf@.take(self.buf_used as int) =~= cur.skip(k).push(b));
                    assert(self.buf@.take(self.buf_used as int) == cur2.skip(k));
                }
            }
            i = i + 1;
        }
        proof {
            assert(input@.take(input_len as int) =~= input@);
        }
        self.fed = Ghost(old_fed + input@);
    }

    /// The xxHash32 of everything fed so far. Read-only: may be called any
    /// number of times, interleaved with further updates.
    #[verifier::rlimit(80)]
    pub fn digest(&self) -> (r: u32)
        requires
            self.wf(),
        ensures
            r == xxh32(self.seed(), self.fed()),
    {
        let ghost fed = self.fed@;
        let ghost t = tail_of(fed);
        let mut hash: u32 = if self.did_at_least_one_full_round {
            let r1 = XXHash32::rotl(self.v1, 1);
            let r2 = XXHash32::rotl(self.v2, 7);
            let r3 = XXHash32::rotl(self.v3, 12);
            let r4 = XXHash32::rotl(self.v4, 18);
            r1.wrapping_add(r2).wrapping_add(r3).wrapping_add(r4)
        } else {
            proof {
                assert(fed.len() - fed.len() % 16 == 0) by {
                    lemma_small_mod(fed.len(), 16);
                }
                assert(fed.take(0) =~= Seq::<u8>::empty());
            }
            self.v3.wrapping_add(PRIME32_5)
        };

        hash = hash.wrapping_add(self.total_len_mod_32_bit);
        let ghost acc1 = hash;

        let mut offset: usize = 0;
        let mut remaining: usize = self.buf_used;
        proof {
            assert(t =~= self.buf@.take(self.buf_used as int));
            assert(t.skip(0) =~= t);
        }

        while remaining >= 4
            invariant
                self.buf@.len() == 16,
                self.buf_used < 16,
                offset + remaining == self.buf_used,
                t == self.buf@.take(self.buf_used as int),
                remaining == t.len() - offset,
                tail_mix(acc1, t) == tail_mix(hash, t.skip(offset as int)),
            decreases remaining,
        {
            let w = XXHash32::read32le(self.buf.as_slice(), offset);
            proof {
                reveal(le32_at);
                assert(le32_at(t.skip(offset as int), 0) == le32_at(self.buf@, offset as int));
            }
            hash = XXHash32::rotl(hash.wrapping_add(w.wrapping_mul(PRIME32_3)), 17).wrapping_mul(
                PRIME32_4,
            );
            proof {
                assert(t.skip(offset as int).skip(4) =~= t.skip(offset + 4));
            }
            offset = offset + 4;
            remaining = remaining - 4;
        }

        while remaining != 0
            invariant
                self.buf@.len() == 16,
                self.buf_used < 16,
                offset + remaining == self.buf_used,
                remaining <= 3,
                t == self.buf@.take(self.buf_used as int),
                remaining == t.len() - offset,
                tail_mix(acc1, t) == tail_mix(hash, t.skip(offset as int)),
            decreases remaining,
        {
            let byte = self.buf[offset];
            proof {
                assert(t.skip(offset as int)[0] == self.buf@[offset as int]);
            }
            hash = XXHash32::rotl(hash.wrapping_add((byte as u32).wrapping_mul(PRIME32_5)), 11)
                .wrapping_mul(PRIME32_1);
            proof {
                assert(t.skip(offset as int).skip(1) =~= t.skip(offset + 1));
            }
            offset = offset + 1;
            remaining = remaining - 1;
        }

        proof {
            assert(t.skip(offset as int) =~= Seq::<u8>::empty());
        }
        XXHash32::avalanche(hash)
    }

    /// Reads the 32-bit little-endian word at `input[offset..offset+4]`.
    fn read32le(input: &[u8], offset: usize) -> (r: u32)
        requires
            offset + 4 <= input@.len(),
        ensures
            r == le32_at(input@, offset as int),
    {
        proof {
            reveal(le32_at);
        }
        (input[offset] as u32) | ((input[offset + 1] as u32) << 8) | ((input[offset + 2] as u32)
            << 16) | ((input[offset + 3] as u32) << 24)
    }

    fn rotl(x: u32, n: u32) -> (r: u32)
        requires
            0 < n < 32,
        ensures
            r == rotl(x, n),
    {
        proof {
            reveal(rotl);
        }
        (x << n) | (x >> (32 - n))
    }

    fn round(v: u32, input: u32) -> (r: u32)
        ensures
            r == spec_round(v, input),
    {
        proof {
            reveal(spec_round);
        }
        let v = v.wrapping_add(input.wrapping_mul(PRIME32_2));
        let v = XXHash32::rotl(v, 13);
        v.wrapping_mul(PRIME32_1)
    }

    fn avalanche(hash: u32) -> (r: u32)
        ensures
            r == spec_avalanche(hash),
    {
        let hash = hash ^ (hash >> 15);
        let hash = hash.wrapping_mul(PRIME32_2);
        let hash = hash ^ (hash >> 13);
        let hash = hash.wrapping_mul(PRIME32_3);
        hash ^ (hash >> 16)
    }
}

} // verus!

//! Xoshiro256++, a small pseudo-random generator.
use vstd::prelude::*;

verus! {

/// State of the generator.
pub struct Xoshiro256pp {
    pub s: [u64; 4],
}

pub open spec fn rotl(x: u64, k: u64) -> u64 {
    (x << k) | (x >> sub_bits(k))
}

pub open spec fn sub_bits(k: u64) -> u64 {
    (64 - k) as u64
}

/// One output of SplitMix64 for its state.
pub open spec fn splitmix(z: u64) -> u64 {
    let a = ((z ^ (z >> 30)) as u64).wrapping_mul(0xBF58_476D_1CE4_E5B9);
    let b = ((a ^ (a >> 27)) as u64).wrapping_mul(0x94D0_49BB_1331_11EB);
    b ^ (b >> 31)
}

/// The state of SplitMix64 after `k` steps.
pub open spec fn splitmix_state(seed: u64, k: int) -> u64
    decreases k,
{
    if k <= 0 {
        seed
    } else {
        splitmix_state(seed, k - 1).wrapping_add(0x9E37_79B9_7F4A_7C15)
    }
}

/// The output for a state.
pub open spec fn output(s: Seq<u64>) -> u64 {
    rotl(s[0].wrapping_add(s[3]), 23).wrapping_add(s[0])
}

/// The state after one step.
pub open spec fn stepped(s: Seq<u64>) -> Seq<u64> {
    let c = s[2] ^ s[0];
    let d = s[3] ^ s[1];
    seq![s[0] ^ d, s[1] ^ c, c ^ (s[1] << 17), rotl(d, 45)]
}

/// A generator that is not stuck at zero never gets there.
pub proof fn state_stays_nonzero(s: Seq<u64>)
    requires
        s.len() == 4,
        !(s[0] == 0 && s[1] == 0 && s[2] == 0 && s[3] == 0),
    ensures
        ({
            let t = stepped(s);
            !(t[0] == 0 && t[1] == 0 && t[2] == 0 && t[3] == 0)
        }),
{
    let (a, b, c, d) = (s[0], s[1], s[2], s[3]);
    let x = c ^ a;
    let y = d ^ b;
    if a ^ y == 0 && b ^ x == 0 && x ^ (b << 17) == 0 && rotl(y, 45) == 0 {
        assert(sub_bits(45) == 19);
        assert(a == 0 && b == 0 && c == 0 && d == 0) by (bit_vector)
            requires
                x == c ^ a,
                y == d ^ b,
                a ^ y == 0,
                b ^ x == 0,
                x ^ (b << 17) == 0,
                (y << 45) | (y >> 19) == 0,
        ;
    }
}

impl Xoshiro256pp {
    /// A generator from a 64-bit seed.
    pub fn from_seed_u64(seed: u64) -> (r: Self)
        ensures
            forall|i: int| 0 <= i < 4 ==> r.s@[i] == splitmix(splitmix_state(seed, i + 1)),
    {
        let mut z: u64 = seed;
        let mut s: [u64; 4] = [0u64; 4];
        let mut i: usize = 0;
        while i < 4
            invariant
                i <= 4,
                z == splitmix_state(seed, i as int),
                forall|k: int| 0 <= k < i ==> s@[k] == splitmix(splitmix_state(seed, k + 1)),
            decreases 4 - i,
        {
            z = z.wrapping_add(0x9E37_79B9_7F4A_7C15);
            let a: u64 = (z ^ (z >> 30)).wrapping_mul(0xBF58_476D_1CE4_E5B9);
            let b: u64 = (a ^ (a >> 27)).wrapping_mul(0x94D0_49BB_1331_11EB);
            s[i] = b ^ (b >> 31);
            i = i + 1;
        }
        Xoshiro256pp { s }
    }

    /// The state, for replaying a run.
    pub fn state(&self) -> (r: [u64; 4])
        ensures
            r == self.s,
    {
        self.s
    }

    /// The next output.
    pub fn next_u64(&mut self) -> (r: u64)
        ensures
            r == output(old(self).s@),
            final(self).s@ == stepped(old(self).s@),
    {
        let ghost before = self.s@;
        let sum: u64 = self.s[0].wrapping_add(self.s[3]);
        let rotated: u64 = (sum << 23) | (sum >> 41);
        let result: u64 = rotated.wrapping_add(self.s[0]);
        let t: u64 = self.s[1] << 17;
        let c: u64 = self.s[2] ^ self.s[0];
        let d: u64 = self.s[3] ^ self.s[1];
        let b: u64 = self.s[1] ^ c;
        let a: u64 = self.s[0] ^ d;
        self.s[0] = a;
        self.s[1] = b;
        self.s[2] = c ^ t;
        self.s[3] = (d << 45) | (d >> 19);
        assert(self.s@ =~= stepped(before));
        result
    }

    /// The upper 24 bits of the next output: a uniform fraction in units of
    /// 2^-24.
    pub fn next_u24(&mut self) -> (r: u32)
        ensures
            r == output(old(self).s@) / 0x100_0000_0000,
            r < 0x100_0000,
            final(self).s@ == stepped(old(self).s@),
    {
        (self.next_u64() / 0x100_0000_0000) as u32
    }
}

/// One step of the generator: the state changes word by word, each change
/// seeing those before it.
pub proof fn steps_go_word_by_word(s: Seq<u64>, t: Seq<u64>)
    requires
        s.len() == 4,
        t.len() == 4,
        ({
            let a2 = s[2] ^ s[0];
            let a3 = s[3] ^ s[1];
            let a1 = s[1] ^ a2;
            let a0 = s[0] ^ a3;
            let b2 = a2 ^ (s[1] << 17);
            let b3 = (a3 << 45) | (a3 >> 19);
            t[0] == a0 && t[1] == a1 && t[2] == b2 && t[3] == b3
        }),
    ensures
        stepped(s) == t,
{
    assert(stepped(s) =~= t);
}

/// The output of the generator: the sum of the first and the last word, turned
/// left by 23 bits, and the first word again, each within 64 bits.
pub proof fn outputs_are_sums(s: Seq<u64>)
    requires
        s.len() == 4,
    ensures
        ({
            let a = (s[0] + s[3]) % 0x1_0000_0000_0000_0000;
            let b = ((a as u64) << 23) | ((a as u64) >> 41);
            output(s) == (b + s[0]) % 0x1_0000_0000_0000_0000
        }),
{
}

/// A seed is spread by steps of one number, each mixed by two factors.
pub proof fn seeds_are_spread(seed: u64, k: int, z: u64)
    requires
        k > 0,
    ensures
        splitmix_state(seed, 0) == seed,
        splitmix_state(seed, k) == (splitmix_state(seed, k - 1) + 0x9E37_79B9_7F4A_7C15)
            % 0x1_0000_0000_0000_0000,
        ({
            let a = ((z ^ (z >> 30)) as u64).wrapping_mul(0xBF58_476D_1CE4_E5B9);
            let b = ((a ^ (a >> 27)) as u64).wrapping_mul(0x94D0_49BB_1331_11EB);
            splitmix(z) == b ^ (b >> 31)
        }),
{
}

} // verus!

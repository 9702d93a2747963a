//! Deterministic integer noise and content hashes.
use vstd::prelude::*;
use vstd::string::*;

verus! {

/// The quotient of integers, rounded toward zero.
pub open spec fn toward_zero(a: int, b: int) -> int {
    if a >= 0 {
        a / b
    } else {
        -((-a) / b)
    }
}

/// The quotient, rounded toward zero.
pub fn quotient(a: i64, b: i64) -> (q: i64)
    requires
        b > 0,
        a > i64::MIN,
    ensures
        q == toward_zero(a as int, b as int),
        a >= 0 ==> 0 <= q <= a,
        a < 0 ==> a <= q <= 0,
{
    proof {
        let n = if a >= 0 {
            a as int
        } else {
            -(a as int)
        };
        vstd::arithmetic::div_mod::lemma_div_pos_is_pos(n, b as int);
        vstd::arithmetic::div_mod::lemma_div_is_ordered_by_denominator(n, 1, b as int);
    }
    if a >= 0 {
        a / b
    } else {
        -((-a) / b)
    }
}

/// The quotient, rounded down.
pub fn floor_quotient(a: i64, b: i64) -> (q: i64)
    requires
        b > 0,
        a > i64::MIN,
    ensures
        q == a as int / b as int,
        a >= 0 ==> 0 <= q <= a,
        a < 0 ==> a <= q < 0,
{
    if a >= 0 {
        proof {
            vstd::arithmetic::div_mod::lemma_div_pos_is_pos(a as int, b as int);
            vstd::arithmetic::div_mod::lemma_div_is_ordered_by_denominator(a as int, 1, b as int);
        }
        a / b
    } else {
        proof {
            let n = -1 - a as int;
            let d = b as int;
            vstd::arithmetic::div_mod::lemma_fundamental_div_mod(n, d);
            assert(d * (-1 - n / d) == -d - d * (n / d)) by (nonlinear_arith);
            vstd::arithmetic::div_mod::lemma_fundamental_div_mod_converse(
                a as int,
                d,
                -1 - n / d,
                d - 1 - n % d,
            );
            vstd::arithmetic::div_mod::lemma_div_pos_is_pos(n, d);
            vstd::arithmetic::div_mod::lemma_div_is_ordered_by_denominator(n, 1, d);
        }
        let k: i64 = (-1 - a) / b;
        -1 - k
    }
}

/// A well-scattered number for a seed and a pair of coordinates.
pub open spec fn mixed(seed: u64, x: i32, y: i32) -> u64 {
    let a = seed ^ ((x as u32) as u64).wrapping_mul(0x9E37_79B1_85EB_CA87) ^ ((y as u32) as u64).wrapping_mul(
        0xC2B2_AE3D_27D4_EB4F,
    );
    let b = (a ^ (a >> 30)).wrapping_mul(0xBF58_476D_1CE4_E5B9);
    let c = (b ^ (b >> 27)).wrapping_mul(0x94D0_49BB_1331_11EB);
    c ^ (c >> 31)
}

pub fn mix(seed: u64, x: i32, y: i32) -> (value: u64)
    ensures
        value == mixed(seed, x, y),
{
    let a: u64 = seed ^ ((x as u32) as u64).wrapping_mul(0x9E37_79B1_85EB_CA87) ^ ((y as u32)
        as u64).wrapping_mul(0xC2B2_AE3D_27D4_EB4F);
    let b: u64 = (a ^ (a >> 30)).wrapping_mul(0xBF58_476D_1CE4_E5B9);
    let c: u64 = (b ^ (b >> 27)).wrapping_mul(0x94D0_49BB_1331_11EB);
    c ^ (c >> 31)
}

/// The seed of a named step after some bytes of its name.
pub open spec fn seed_after(root: u64, bytes: Seq<u8>) -> u64
    decreases bytes.len(),
{
    if bytes.len() == 0 {
        root ^ 0xA076_1D64_78BD_642F
    } else {
        (seed_after(root, bytes.drop_last()) ^ bytes.last() as u64).wrapping_mul(
            0xE703_7ED1_A0B4_28DB,
        )
    }
}

/// The seed of a named step.
pub fn pass_seed(root: u64, name: &str) -> (seed: u64)
    ensures
        seed == seed_after(root, name.spec_bytes()),
{
    let bytes = name.as_bytes();
    let mut hash: u64 = root ^ 0xA076_1D64_78BD_642F;
    let mut i: usize = 0;
    assert(bytes@.take(0) =~= Seq::<u8>::empty());
    while i < bytes.len()
        invariant
            i <= bytes@.len(),
            hash == seed_after(root, bytes@.take(i as int)),
        decreases bytes.len() - i,
    {
        hash = (hash ^ bytes[i] as u64).wrapping_mul(0xE703_7ED1_A0B4_28DB);
        assert(bytes@.take(i + 1).drop_last() =~= bytes@.take(i as int));
        i += 1;
    }
    assert(bytes@.take(i as int) =~= bytes@);
    hash
}

/// Smoothstep in 16-bit fixed point: `t^2 (3 - 2 t)`.
pub open spec fn smoothed(t: int) -> int {
    (t * t / 65_536) * (3 * 65_536 - 2 * t) / 65_536
}

fn smooth(t: i64) -> (s: i64)
    requires
        0 <= t < 65_536,
    ensures
        s == smoothed(t as int),
        0 <= s <= 65_536,
{
    proof {
        assert(0 <= t * t <= 65_536 * 65_536) by (nonlinear_arith)
            requires
                0 <= t < 65_536,
        ;
        lemma_smoothed(t as int);
        let square = t * t / 65_536;
        let slope = 3 * 65_536 - 2 * t;
        assert(0 <= square * slope <= 65_536 * 196_608) by (nonlinear_arith)
            requires
                0 <= square <= 65_536,
                0 <= slope <= 196_608,
        ;
    }
    let square: i64 = t * t / 65_536;
    square * (3 * 65_536 - 2 * t) / 65_536
}

/// Smoothstep stays between nothing and all.
pub proof fn lemma_smoothed(t: int)
    requires
        0 <= t <= 65_536,
    ensures
        0 <= smoothed(t) <= 65_536,
{
    let one = 65_536int;
    let square = t * t / one;
    let slope = 3 * one - 2 * t;
    assert(t * t * slope <= one * one * one) by (nonlinear_arith)
        requires
            0 <= t <= one,
            one == 65_536,
            slope == 3 * one - 2 * t,
    {
        let u = one - t;
        assert(u * u * (one + 2 * t) >= 0) by (nonlinear_arith)
            requires
                0 <= u,
                0 <= t,
                one == 65_536,
        ;
        assert(one * one * one - t * t * (3 * one - 2 * t) == (one - t) * (one - t) * (one + 2 * t))
            by (nonlinear_arith);
    }
    assert(0 <= t * t) by (nonlinear_arith);
    vstd::arithmetic::div_mod::lemma_fundamental_div_mod(t * t, one);
    assert(0 <= square * slope <= one * one) by (nonlinear_arith)
        requires
            0 <= square,
            square * one <= t * t,
            0 <= slope,
            t * t * slope <= one * one * one,
            one == 65_536,
    ;
}

/// Linear interpolation by an amount in 16-bit fixed point, rounded down.
pub open spec fn blended(first: int, second: int, amount: int) -> int {
    first + (second - first) * amount / 65_536
}

fn lerp(first: i64, second: i64, amount: i64) -> (value: i64)
    requires
        -1_024 <= first <= 1_024,
        -1_024 <= second <= 1_024,
        0 <= amount <= 65_536,
    ensures
        value == blended(first as int, second as int, amount as int),
        -1_024 <= value <= 1_024,
{
    proof {
        let d = second - first;
        assert(-2_048 * 65_536 <= d * amount <= 2_048 * 65_536) by (nonlinear_arith)
            requires
                -2_048 <= d <= 2_048,
                0 <= amount <= 65_536,
        ;
        assert(d >= 0 ==> 0 <= d * amount <= d * 65_536) by (nonlinear_arith)
            requires
                0 <= amount <= 65_536,
        ;
        assert(d <= 0 ==> d * 65_536 <= d * amount <= 0) by (nonlinear_arith)
            requires
                0 <= amount <= 65_536,
        ;
    }
    first + floor_quotient((second - first) * amount, 65_536)
}

/// A grid coordinate, held to what a signed number can say.
pub open spec fn capped(n: int) -> i32 {
    if n <= i32::MAX {
        n as i32
    } else {
        i32::MAX
    }
}

/// The noise value at a grid point.
pub open spec fn sampled(seed: u64, x: int, y: int) -> int {
    mixed(seed, capped(x), capped(y)) as int % 2_049 - 1_024
}

fn sample(seed: u64, x: u32, y: u32) -> (value: i64)
    ensures
        value == sampled(seed, x as int, y as int),
        -1_024 <= value <= 1_024,
{
    let gx: i32 = if x <= i32::MAX as u32 {
        x as i32
    } else {
        i32::MAX
    };
    let gy: i32 = if y <= i32::MAX as u32 {
        y as i32
    } else {
        i32::MAX
    };
    (mix(seed, gx, gy) % 2_049) as i64 - 1_024
}

/// Noise interpolated between the points of a grid.
pub open spec fn value_noise_at(seed: u64, x: int, y: int, scale: int) -> int {
    let s = grid_step(scale);
    let gx = x / s;
    let gy = y / s;
    let ax = smoothed(x % s * 65_536 / s);
    let ay = smoothed(y % s * 65_536 / s);
    let top = blended(sampled(seed, gx, gy), sampled(seed, gx + 1, gy), ax);
    let bottom = blended(sampled(seed, gx, gy + 1), sampled(seed, gx + 1, gy + 1), ax);
    blended(top, bottom, ay)
}

pub proof fn lemma_local(n: int, s: int)
    requires
        0 <= n,
        0 < s <= u32::MAX,
    ensures
        0 <= n % s * 65_536 / s < 65_536,
{
    vstd::arithmetic::div_mod::lemma_mod_bound(n, s);
    let m = n % s;
    vstd::arithmetic::div_mod::lemma_div_pos_is_pos(m * 65_536, s);
    assert(m * 65_536 / s < 65_536) by (nonlinear_arith)
        requires
            0 <= m < s,
    ;
}

/// The distance of the points of a noise grid.
pub open spec fn grid_step(scale: int) -> int {
    if scale < 1 {
        1
    } else {
        scale
    }
}

/// At the points of its grid, noise is what is drawn there.
pub proof fn law_noise_meets_its_grid(seed: u64, x: int, y: int, scale: int)
    requires
        x % grid_step(scale) == 0,
        y % grid_step(scale) == 0,
    ensures
        value_noise_at(seed, x, y, scale) == sampled(
            seed,
            x / grid_step(scale),
            y / grid_step(scale),
        ),
{
    let s = grid_step(scale);
    assert(0int * 65_536 / s == 0) by (nonlinear_arith)
        requires
            s > 0,
    ;
    assert(smoothed(0) == 0) by {
        assert(0int * 0int / 65_536 == 0);
    }
    assert(forall|a: int, b: int| #[trigger] blended(a, b, 0) == a);
}

/// Interpolated deterministic value noise in `-1024..=1024`.
pub fn value_noise(seed: u64, x: u32, y: u32, scale: u32) -> (value: i32)
    requires
        x as int / grid_step(scale as int) < u32::MAX,
        y as int / grid_step(scale as int) < u32::MAX,
    ensures
        value == value_noise_at(seed, x as int, y as int, scale as int),
        -1_024 <= value <= 1_024,
{
    let s: u32 = if scale < 1 {
        1
    } else {
        scale
    };
    proof {
        lemma_local(x as int, s as int);
        lemma_local(y as int, s as int);
        vstd::arithmetic::div_mod::lemma_mod_bound(x as int, s as int);
        vstd::arithmetic::div_mod::lemma_mod_bound(y as int, s as int);
    }
    let gx: u32 = x / s;
    let gy: u32 = y / s;
    let ax: i64 = smooth((x % s) as i64 * 65_536 / s as i64);
    let ay: i64 = smooth((y % s) as i64 * 65_536 / s as i64);
    let top: i64 = lerp(sample(seed, gx, gy), sample(seed, gx + 1, gy), ax);
    let bottom: i64 = lerp(sample(seed, gx, gy + 1), sample(seed, gx + 1, gy + 1), ax);
    lerp(top, bottom, ay) as i32
}

/// Three octaves of noise, the coarse ones weighing most.
pub open spec fn fractal_noise_at(seed: u64, x: int, y: int, scale: int) -> int {
    toward_zero(
        value_noise_at(seed ^ 0u64.wrapping_mul(0x9E37_79B9), x, y, scale) * 5 + value_noise_at(
            seed ^ 1u64.wrapping_mul(0x9E37_79B9),
            x,
            y,
            scale / 2,
        ) * 3 + value_noise_at(seed ^ 2u64.wrapping_mul(0x9E37_79B9), x, y, scale / 4),
        9,
    )
}

/// Three octaves of noise in `-1024..=1024`.
pub fn fractal_noise(seed: u64, x: u32, y: u32, base_scale: u32) -> (value: i32)
    requires
        x as int / grid_step(base_scale as int / 4) < u32::MAX,
        y as int / grid_step(base_scale as int / 4) < u32::MAX,
    ensures
        value == fractal_noise_at(seed, x as int, y as int, base_scale as int),
        -1_024 <= value <= 1_024,
{
    proof {
        let fine = grid_step(base_scale as int / 4);
        let middle = grid_step(base_scale as int / 2);
        let coarse = grid_step(base_scale as int);
        vstd::arithmetic::div_mod::lemma_div_is_ordered_by_denominator(x as int, fine, middle);
        vstd::arithmetic::div_mod::lemma_div_is_ordered_by_denominator(x as int, fine, coarse);
        vstd::arithmetic::div_mod::lemma_div_is_ordered_by_denominator(y as int, fine, middle);
        vstd::arithmetic::div_mod::lemma_div_is_ordered_by_denominator(y as int, fine, coarse);
    }
    let coarse: i32 = value_noise(seed ^ 0u64.wrapping_mul(0x9E37_79B9), x, y, base_scale);
    let middle: i32 = value_noise(seed ^ 1u64.wrapping_mul(0x9E37_79B9), x, y, base_scale / 2);
    let fine: i32 = value_noise(seed ^ 2u64.wrapping_mul(0x9E37_79B9), x, y, base_scale / 4);
    quotient((coarse * 5 + middle * 3 + fine) as i64, 9) as i32
}

/// Where a content hash starts.
pub const HASH_START: u64 = 0xcbf2_9ce4_8422_2325;

/// One byte of a word, the least significant first.
pub open spec fn byte_of(word: u64, i: nat) -> u64 {
    (word >> ((8 * i) as u64)) & 0xff
}

/// A content hash after the first bytes of a word.
pub open spec fn hash_bytes(hash: u64, word: u64, n: nat) -> u64
    decreases n,
{
    if n == 0 {
        hash
    } else {
        (hash_bytes(hash, word, (n - 1) as nat) ^ byte_of(word, (n - 1) as nat)).wrapping_mul(
            0x0000_0100_0000_01B3,
        )
    }
}

/// A content hash after a sequence of words.
pub open spec fn hash_words(hash: u64, words: Seq<u64>) -> u64
    decreases words.len(),
{
    if words.len() == 0 {
        hash
    } else {
        hash_bytes(hash_words(hash, words.drop_last()), words.last(), 8)
    }
}

/// Takes one word into a content hash.
pub fn hash_word(hash: u64, word: u64) -> (after: u64)
    ensures
        after == hash_bytes(hash, word, 8),
{
    let mut h: u64 = hash;
    let mut i: u64 = 0;
    while i < 8
        invariant
            i <= 8,
            h == hash_bytes(hash, word, i as nat),
        decreases 8 - i,
    {
        h = (h ^ ((word >> (8 * i)) & 0xff)).wrapping_mul(0x0000_0100_0000_01B3);
        i += 1;
    }
    h
}

/// Takes a sequence of words into a content hash.
pub fn hash_all(hash: u64, words: &[u64]) -> (after: u64)
    ensures
        after == hash_words(hash, words@),
{
    let mut h: u64 = hash;
    let mut i: usize = 0;
    assert(words@.take(0) =~= Seq::<u64>::empty());
    while i < words.len()
        invariant
            i <= words@.len(),
            h == hash_words(hash, words@.take(i as int)),
        decreases words.len() - i,
    {
        h = hash_word(h, words[i]);
        assert(words@.take(i + 1).drop_last() =~= words@.take(i as int));
        i += 1;
    }
    assert(words@.take(i as int) =~= words@);
    h
}

/// Hashing two runs of words is hashing one after the other.
pub proof fn lemma_hash_concat(hash: u64, a: Seq<u64>, b: Seq<u64>)
    ensures
        hash_words(hash, a + b) == hash_words(hash_words(hash, a), b),
    decreases b.len(),
{
    if b.len() == 0 {
        assert(a + b =~= a);
    } else {
        lemma_hash_concat(hash, a, b.drop_last());
        assert((a + b).drop_last() =~= a + b.drop_last());
    }
}

} // verus!

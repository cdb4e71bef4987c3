//! Processing a raster in chunks of whole rows.
//!
//! A raster is stored in blocks, and reading along block boundaries is the
//! cheapest.  A chunk spans the full width of the raster; it has a number
//! of data rows, a multiple of the block size, and may carry a fixed number
//! of padding rows above and below them.

pub mod builder;
pub mod iters;
pub mod par_iters;

use vstd::arithmetic::div_mod::{lemma_fundamental_div_mod, lemma_mod_bound, lemma_mod_multiples_basic};
use vstd::arithmetic::mul::lemma_mul_is_commutative;
use vstd::prelude::*;

verus! {

/// How a raster is cut into chunks.
///
/// - `width`, `height`: the size of the raster.
/// - `block_size`: the block size of its bands, their least common
///   multiple where they differ.
/// - `data_height`: the least number of rows of a chunk, not counting the
///   padding; always a multiple of `block_size`.
/// - `padding`: the rows wanted above and below the data rows.
/// - `start`, `end`: the rows to process, `start` included and `end` not;
///   `start` is never less than `padding`.
#[derive(Clone, Copy, Debug)]
pub struct ChunkConfig {
    pub(crate) width: usize,
    pub(crate) height: usize,
    pub(crate) block_size: usize,
    pub(crate) data_height: usize,
    pub(crate) padding: usize,
    pub(crate) start: usize,
    pub(crate) end: usize,
}

/// A chunk configuration as plain numbers.
pub struct ChunkPlan {
    pub width: int,
    pub height: int,
    pub block_size: int,
    pub data_height: int,
    pub padding: int,
    pub start: int,
    pub end: int,
}

impl ChunkPlan {
    /// The raster and the blocks are not empty, chunks hold whole blocks,
    /// the padding fits above the first row, and the rows to process end
    /// within the raster.  The last clause keeps every sum within the
    /// machine word.
    pub open spec fn wf(self) -> bool {
        &&& self.width >= 1
        &&& self.height >= 1
        &&& self.block_size >= 1
        &&& self.data_height >= 1
        &&& self.data_height % self.block_size == 0
        &&& self.padding >= 0
        &&& self.start >= self.padding
        &&& 0 <= self.end <= self.height
        &&& self.height + self.padding + self.data_height + self.block_size <= usize::MAX
    }
}

impl View for ChunkConfig {
    type V = ChunkPlan;

    closed spec fn view(&self) -> ChunkPlan {
        ChunkPlan {
            width: self.width as int,
            height: self.height as int,
            block_size: self.block_size as int,
            data_height: self.data_height as int,
            padding: self.padding as int,
            start: self.start as int,
            end: self.end as int,
        }
    }
}

impl ChunkConfig {
    #[verifier::type_invariant]
    pub(crate) closed spec fn valid(&self) -> bool {
        self@.wf()
    }
}

/// The least multiple of `m` that is not less than `num`.
pub open spec fn round_up(num: int, m: int) -> int {
    if num % m == 0 {
        num
    } else {
        num + (m - num % m)
    }
}

/// `round_up` gives a multiple of `m`, not less than `num` and less than
/// `num + m`: the least such multiple.
pub proof fn lemma_round_up(num: int, m: int)
    requires
        0 <= num,
        0 < m,
    ensures
        round_up(num, m) % m == 0,
        num <= round_up(num, m) < num + m,
        round_up(num, m) == m * (round_up(num, m) / m),
        round_up(num, m) / m >= 0,
        forall|k: int| k * m >= num ==> #[trigger] (k * m) >= round_up(num, m),
{
    lemma_fundamental_div_mod(num, m);
    lemma_mod_bound(num, m);
    let q = num / m;
    let up = round_up(num, m);
    if num % m == 0 {
        assert(up == m * q);
    } else {
        assert(up == m * (q + 1)) by (nonlinear_arith)
            requires
                up == num + (m - num % m),
                num == m * q + num % m,
        ;
        lemma_mod_multiples_basic(q + 1, m);
        lemma_mul_is_commutative(q + 1, m);
    }
    lemma_fundamental_div_mod(up, m);
    vstd::arithmetic::div_mod::lemma_div_pos_is_pos(up, m);
    assert forall|k: int| k * m >= num implies #[trigger] (k * m) >= up by {
        if num % m != 0 {
            assert(k >= q + 1) by (nonlinear_arith)
                requires
                    k * m >= num,
                    num == m * q + num % m,
                    num % m > 0,
                    m > 0,
            ;
            assert(k * m >= (q + 1) * m) by (nonlinear_arith)
                requires
                    k >= q + 1,
                    m > 0,
            ;
            assert((q + 1) * m == m * (q + 1)) by (nonlinear_arith);
        }
    }
}

/// The least multiple of `m` that is not less than `num`.
pub fn mod_ceil(num: usize, m: usize) -> (r: usize)
    requires
        m > 0,
        num + m <= usize::MAX,
    ensures
        r == round_up(num as int, m as int),
{
    let rem = num % m;
    if rem == 0 {
        num
    } else {
        num + (m - rem)
    }
}

/// The greatest common divisor, by Euclid's rule.
pub open spec fn gcd_spec(a: nat, b: nat) -> nat
    decreases b,
{
    if b == 0 {
        a
    } else {
        gcd_spec(b, a % b)
    }
}

/// The least common multiple.
pub open spec fn lcm_spec(a: nat, b: nat) -> nat {
    a / gcd_spec(a, b) * b
}

/// A sum of two multiples of `d` is a multiple of `d`, and so is a multiple
/// of a multiple.
pub proof fn lemma_multiples(d: int, x: int, y: int, k: int)
    requires
        d > 0,
        x % d == 0,
        y % d == 0,
    ensures
        (x + y) % d == 0,
        (x - y) % d == 0,
        (x * k) % d == 0,
{
    lemma_fundamental_div_mod(x, d);
    lemma_fundamental_div_mod(y, d);
    let p = x / d;
    let q = y / d;
    assert(x + y == (p + q) * d) by (nonlinear_arith)
        requires
            x == d * p,
            y == d * q,
    ;
    assert(x - y == (p - q) * d) by (nonlinear_arith)
        requires
            x == d * p,
            y == d * q,
    ;
    assert(x * k == (p * k) * d) by (nonlinear_arith)
        requires
            x == d * p,
    ;
    lemma_mod_multiples_basic(p + q, d);
    lemma_mod_multiples_basic(p - q, d);
    lemma_mod_multiples_basic(p * k, d);
}

/// `gcd_spec(a, b)` divides both `a` and `b`, and every number that
/// divides both divides it.  It is zero only for `a == b == 0`.
pub proof fn lemma_gcd(a: nat, b: nat)
    ensures
        gcd_spec(a, b) == 0 <==> a == 0 && b == 0,
        gcd_spec(a, b) > 0 ==> a % gcd_spec(a, b) == 0 && b % gcd_spec(a, b) == 0,
        forall|d: nat| d > 0 && a % d == 0 && b % d == 0 ==> #[trigger] (gcd_spec(a, b) % d) == 0,
        gcd_spec(a, b) <= a || a == 0,
    decreases b,
{
    if b == 0 {
        if a > 0 {
            lemma_mod_multiples_basic(1, a as int);
        }
    } else {
        let r = a % b;
        lemma_mod_bound(a as int, b as int);
        lemma_gcd(b, r);
        let g = gcd_spec(b, r);
        lemma_fundamental_div_mod(a as int, b as int);
        // g divides b and r, hence a = b * (a / b) + r
        lemma_multiples(g as int, b as int, r as int, (a / b) as int);
        lemma_multiples(g as int, (b * (a / b)) as int, r as int, 1);
        assert(a == b * (a / b) + r);
        assert forall|d: nat| d > 0 && a % d == 0 && b % d == 0 implies #[trigger] (gcd_spec(a, b)
            % d) == 0 by {
            lemma_multiples(d as int, b as int, a as int, (a / b) as int);
            lemma_multiples(d as int, a as int, (b * (a / b)) as int, 1);
            assert(r == a - b * (a / b));
        }
        if a > 0 {
            // g divides a, so it is at most a
            lemma_fundamental_div_mod(a as int, g as int);
            assert(g <= a) by (nonlinear_arith)
                requires
                    a == g * (a / g),
                    a > 0,
                    g > 0,
                    a / g >= 0,
            ;
        }
    }
}

/// `lcm_spec(a, b)` is a multiple of both `a` and `b`, and is at most
/// `a * b`.
pub proof fn lemma_lcm(a: nat, b: nat)
    requires
        a > 0,
        b > 0,
    ensures
        lcm_spec(a, b) % a == 0,
        lcm_spec(a, b) % b == 0,
        0 < lcm_spec(a, b) <= a * b,
        lcm_spec(a, b) * gcd_spec(a, b) == a * b,
{
    lemma_gcd(a, b);
    let g = gcd_spec(a, b) as int;
    lemma_fundamental_div_mod(a as int, g);
    lemma_fundamental_div_mod(b as int, g);
    let p = a as int / g;
    let q = b as int / g;
    vstd::arithmetic::div_mod::lemma_div_pos_is_pos(a as int, g);
    vstd::arithmetic::div_mod::lemma_div_pos_is_pos(b as int, g);
    let l = lcm_spec(a, b) as int;
    assert(l == p * b);
    assert(p > 0 && q > 0) by (nonlinear_arith)
        requires
            a == g * p,
            b == g * q,
            a > 0,
            b > 0,
            g > 0,
            p >= 0,
            q >= 0,
    ;
    assert(l == q * a) by (nonlinear_arith)
        requires
            l == p * b,
            a == g * p,
            b == g * q,
    ;
    lemma_mod_multiples_basic(p, b as int);
    lemma_mod_multiples_basic(q, a as int);
    assert(l * g == a * b) by (nonlinear_arith)
        requires
            l == p * b,
            a == g * p,
    ;
    assert(0 < l <= a * b) by (nonlinear_arith)
        requires
            l == p * b,
            a == g * p,
            g >= 1,
            p >= 1,
            b >= 1,
    ;
}

/// The greatest common divisor of `a` and `b`.
pub fn gcd(a: usize, b: usize) -> (r: usize)
    ensures
        r == gcd_spec(a as nat, b as nat),
    decreases b,
{
    if b == 0 {
        return a;
    }
    gcd(b, a % b)
}

/// The least common multiple of `a` and `b`, not both zero; zero if one of
/// them is.
pub fn lcm(a: usize, b: usize) -> (r: usize)
    requires
        a > 0 || b > 0,
        a * b <= usize::MAX,
    ensures
        r == lcm_spec(a as nat, b as nat),
        a == 0 || b == 0 ==> r == 0,
{
    proof {
        lemma_gcd(a as nat, b as nat);
        let g = gcd_spec(a as nat, b as nat) as int;
        let x = a as int;
        let y = b as int;
        lemma_fundamental_div_mod(x, g);
        lemma_mod_bound(x, g);
        vstd::arithmetic::div_mod::lemma_div_pos_is_pos(x, g);
        let q = x / g;
        assert(q <= x) by (nonlinear_arith)
            requires
                x == g * q + x % g,
                x % g >= 0,
                g >= 1,
                q >= 0,
        ;
        assert(q * y <= x * y) by (nonlinear_arith)
            requires
                0 <= q <= x,
                y >= 0,
        ;
        assert(0 <= q * y) by (nonlinear_arith)
            requires
                0 <= q,
                y >= 0,
        ;
        if a == 0 {
            assert(q * y == 0) by (nonlinear_arith)
                requires
                    q == 0,
            ;
        }
        if b == 0 {
            assert(q * y == 0) by (nonlinear_arith)
                requires
                    y == 0,
            ;
        }
    }
    a / gcd(a, b) * b
}

} // verus!

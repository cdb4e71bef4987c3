//! The persisted form of a tile: one 16-bit code per sample, big-endian,
//! row by row, with no header.
//!
//! A sample is quantized by its caller to a level `0 ..= 65535`, or has no
//! data.  Code 0 stands for "no data"; a level is stored one higher, level
//! 65535 sharing the top code with level 65534.

use vstd::prelude::*;

verus! {

/// The number of quantization steps between the least and the greatest
/// sample of a tile.
pub const BINS: usize = 65535;

/// The code of a quantized sample: 0 for none, else the level moved up by
/// one and held at the top code.
pub open spec fn code_of(level: Option<u16>) -> u16 {
    match level {
        None => 0u16,
        Some(l) => if l < 65535 {
            (l + 1) as u16
        } else {
            65535u16
        },
    }
}

/// The level that a code stands for: none for 0, else the code moved down
/// by one.
pub open spec fn level_of(code: u16) -> Option<u16> {
    if code == 0 {
        None
    } else {
        Some((code - 1) as u16)
    }
}

/// The two bytes of a code, most significant first.
pub open spec fn code_bytes(code: u16) -> Seq<u8> {
    seq![(code / 256) as u8, (code % 256) as u8]
}

/// The bytes of a sequence of quantized samples.
pub open spec fn encoded(levels: Seq<Option<u16>>) -> Seq<u8>
    decreases levels.len(),
{
    if levels.len() == 0 {
        Seq::empty()
    } else {
        encoded(levels.drop_last()) + code_bytes(code_of(levels.last()))
    }
}

/// The quantized samples that a sequence of bytes stands for; a last odd
/// byte is left over.
pub open spec fn decoded(bytes: Seq<u8>) -> Seq<Option<u16>> {
    Seq::new(bytes.len() / 2, |i: int| level_of((bytes[2 * i] * 256 + bytes[2 * i + 1]) as u16))
}

/// What survives the round trip: "no data" exactly, and every level but
/// the top one, which comes back one lower.
pub open spec fn stored_level(level: Option<u16>) -> Option<u16> {
    match level {
        None => None,
        Some(l) => if l < 65535 {
            Some(l)
        } else {
            Some(65534u16)
        },
    }
}

/// The encoding has two bytes per sample: sample `i` fills bytes `2i` and
/// `2i + 1`.
pub proof fn lemma_encoded_layout(levels: Seq<Option<u16>>)
    ensures
        encoded(levels).len() == 2 * levels.len(),
        forall|i: int|
            0 <= i < levels.len() ==> encoded(levels)[2 * i] == code_bytes(code_of(#[trigger] levels[i]))[0]
                && encoded(levels)[2 * i + 1] == code_bytes(code_of(levels[i]))[1],
    decreases levels.len(),
{
    if levels.len() > 0 {
        lemma_encoded_layout(levels.drop_last());
        assert forall|i: int| 0 <= i < levels.len() implies encoded(levels)[2 * i] == code_bytes(
            code_of(#[trigger] levels[i]),
        )[0] && encoded(levels)[2 * i + 1] == code_bytes(code_of(levels[i]))[1] by {
            if i < levels.len() - 1 {
                assert(levels.drop_last()[i] == levels[i]);
            }
        }
    }
}

/// Decoding an encoding gives back every sample as `stored_level` says:
/// "no data" comes back as "no data", and a level comes back at most one
/// step lower.
pub proof fn lemma_round_trip(levels: Seq<Option<u16>>)
    ensures
        decoded(encoded(levels)) == levels.map_values(|l: Option<u16>| stored_level(l)),
        forall|i: int|
            0 <= i < levels.len() ==> ((#[trigger] levels[i]) is None <==> decoded(
                encoded(levels),
            )[i] is None),
        forall|i: int|
            0 <= i < levels.len() && (#[trigger] levels[i]) is Some ==> levels[i]->0 - 1
                <= decoded(encoded(levels))[i]->0 <= levels[i]->0,
{
    lemma_encoded_layout(levels);
    let back = decoded(encoded(levels));
    let kept = levels.map_values(|l: Option<u16>| stored_level(l));
    assert(back.len() == levels.len());
    assert forall|i: int| 0 <= i < levels.len() implies back[i] == kept[i] by {
        let code = code_of(levels[i]);
        assert(encoded(levels)[2 * i] == (code / 256) as u8);
        assert(encoded(levels)[2 * i + 1] == (code % 256) as u8);
        assert((code / 256) * 256 + code % 256 == code);
    }
    assert(back =~= kept);
}

/// The level of a whole-number sample in a tile whose samples range from
/// `min` to `max`: the sample is held to the range, and its distance from
/// `min` is measured in steps of a 65535th of the range, rounded down.
pub open spec fn level_at(v: int, min: int, max: int) -> int {
    let held = if v < min {
        min
    } else if v > max {
        max
    } else {
        v
    };
    ((held - min) * 65535) / (max - min)
}

/// Round-trip bound: a sample within the range differs from the value that
/// its stored level stands for by at most one step, a 65535th of the range.
/// With `stored` the level that comes back from the file, the value that it
/// stands for is `min + (max - min) * stored / 65535`; the claim is that
/// `65535 * (v - that value)` lies between 0 and `max - min`.
pub proof fn lemma_level_error(v: int, min: int, max: int)
    requires
        min < max,
        min <= v <= max,
    ensures
        0 <= level_at(v, min, max) <= 65535,
        level_at(v, min, max) == 65535 <==> v == max,
        ({
            let stored = if level_at(v, min, max) < 65535 {
                level_at(v, min, max)
            } else {
                65534
            };
            0 <= (v - min) * 65535 - stored * (max - min) <= max - min
        }),
{
    let d = max - min;
    let x = (v - min) * 65535;
    assert(0 <= x <= d * 65535) by (nonlinear_arith)
        requires
            0 <= v - min <= d,
            x == (v - min) * 65535,
    ;
    vstd::arithmetic::div_mod::lemma_fundamental_div_mod(x, d);
    vstd::arithmetic::div_mod::lemma_mod_bound(x, d);
    vstd::arithmetic::div_mod::lemma_div_pos_is_pos(x, d);
    let l = x / d;
    assert(l <= 65535) by (nonlinear_arith)
        requires
            d * l <= d * 65535,
            d > 0,
    ;
    if l == 65535 {
        assert(v - min >= d) by (nonlinear_arith)
            requires
                d * 65535 <= (v - min) * 65535,
        ;
    }
    if v == max {
        vstd::arithmetic::div_mod::lemma_fundamental_div_mod_converse(x, d, 65535, 0);
    }
    assert(l * d == d * l) by (nonlinear_arith);
    if l == 65535 {
        assert(65534 * d == d * 65535 - d) by (nonlinear_arith);
    }
}

/// The level of a whole-number sample in a tile whose samples range from
/// `min` to `max`.
pub fn quantize(v: i64, min: i64, max: i64) -> (level: u16)
    requires
        min < max,
    ensures
        level == level_at(v as int, min as int, max as int),
{
    let held = if v < min { min } else if v > max { max } else { v };
    proof {
        lemma_level_error(held as int, min as int, max as int);
        assert((held - min) * 65535 <= 0x1_0000_0000_0000_0000 * 65535) by (nonlinear_arith)
            requires
                0 <= held - min <= 0x1_0000_0000_0000_0000,
        ;
    }
    let offset: i128 = held as i128 - min as i128;
    let range: i128 = max as i128 - min as i128;
    ((offset * 65535) / range) as u16
}

/// The code of a quantized sample.
pub fn encode_level(level: Option<u16>) -> (code: u16)
    ensures
        code == code_of(level),
        level is None <==> code == 0,
{
    match level {
        None => 0,
        Some(l) => if l < 65535 {
            l + 1
        } else {
            65535
        },
    }
}

/// The level that a code stands for.
pub fn decode_code(code: u16) -> (level: Option<u16>)
    ensures
        level == level_of(code),
{
    if code == 0 {
        None
    } else {
        Some(code - 1)
    }
}

/// The body of a tile file: the codes of the samples, row by row, two bytes
/// each, most significant first.
pub fn encode(levels: &Vec<Option<u16>>) -> (bytes: Vec<u8>)
    ensures
        bytes@ == encoded(levels@),
        bytes.len() == 2 * levels.len(),
{
    let mut bytes: Vec<u8> = Vec::new();
    let mut i: usize = 0;
    while i < levels.len()
        invariant
            i <= levels.len(),
            bytes@ == encoded(levels@.take(i as int)),
        decreases levels.len() - i,
    {
        let code = encode_level(levels[i]);
        bytes.push((code / 256) as u8);
        bytes.push((code % 256) as u8);
        proof {
            let next = levels@.take(i + 1);
            assert(next.drop_last() =~= levels@.take(i as int));
            assert(next.last() == levels@[i as int]);
            assert(bytes@ =~= encoded(levels@.take(i as int)) + code_bytes(code));
        }
        i += 1;
    }
    proof {
        assert(levels@.take(levels.len() as int) =~= levels@);
        lemma_encoded_layout(levels@);
    }
    bytes
}

/// The quantized samples of a tile file body.
pub fn decode(bytes: &Vec<u8>) -> (levels: Vec<Option<u16>>)
    ensures
        levels@ == decoded(bytes@),
{
    let n: usize = bytes.len() / 2;
    let mut levels: Vec<Option<u16>> = Vec::new();
    let mut i: usize = 0;
    while i < n
        invariant
            n == bytes.len() / 2,
            i <= n,
            levels.len() == i,
            forall|k: int| 0 <= k < i ==> levels@[k] == decoded(bytes@)[k],
        decreases n - i,
    {
        let hi: u16 = bytes[2 * i] as u16;
        let lo: u16 = bytes[2 * i + 1] as u16;
        levels.push(decode_code(hi * 256 + lo));
        i += 1;
    }
    assert(levels@ =~= decoded(bytes@));
    levels
}

} // verus!

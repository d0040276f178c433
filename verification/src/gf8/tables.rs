//! The two tables that carry the field's multiplication, and what they hold.
use super::polynomial::triple;
use super::Gf8;
use vstd::prelude::*;

verus! {

impl Gf8 {
    /// `EXP[i]` is the `i`-th power of the generator 3.
    pub const EXP: [u8; 255] = [
        1u8, 3u8, 5u8, 15u8, 17u8, 51u8, 85u8, 255u8, 26u8, 46u8, 114u8, 150u8,
        161u8, 248u8, 19u8, 53u8, 95u8, 225u8, 56u8, 72u8, 216u8, 115u8, 149u8, 164u8,
        247u8, 2u8, 6u8, 10u8, 30u8, 34u8, 102u8, 170u8, 229u8, 52u8, 92u8, 228u8,
        55u8, 89u8, 235u8, 38u8, 106u8, 190u8, 217u8, 112u8, 144u8, 171u8, 230u8, 49u8,
        83u8, 245u8, 4u8, 12u8, 20u8, 60u8, 68u8, 204u8, 79u8, 209u8, 104u8, 184u8,
        211u8, 110u8, 178u8, 205u8, 76u8, 212u8, 103u8, 169u8, 224u8, 59u8, 77u8, 215u8,
        98u8, 166u8, 241u8, 8u8, 24u8, 40u8, 120u8, 136u8, 131u8, 158u8, 185u8, 208u8,
        107u8, 189u8, 220u8, 127u8, 129u8, 152u8, 179u8, 206u8, 73u8, 219u8, 118u8, 154u8,
        181u8, 196u8, 87u8, 249u8, 16u8, 48u8, 80u8, 240u8, 11u8, 29u8, 39u8, 105u8,
        187u8, 214u8, 97u8, 163u8, 254u8, 25u8, 43u8, 125u8, 135u8, 146u8, 173u8, 236u8,
        47u8, 113u8, 147u8, 174u8, 233u8, 32u8, 96u8, 160u8, 251u8, 22u8, 58u8, 78u8,
        210u8, 109u8, 183u8, 194u8, 93u8, 231u8, 50u8, 86u8, 250u8, 21u8, 63u8, 65u8,
        195u8, 94u8, 226u8, 61u8, 71u8, 201u8, 64u8, 192u8, 91u8, 237u8, 44u8, 116u8,
        156u8, 191u8, 218u8, 117u8, 159u8, 186u8, 213u8, 100u8, 172u8, 239u8, 42u8, 126u8,
        130u8, 157u8, 188u8, 223u8, 122u8, 142u8, 137u8, 128u8, 155u8, 182u8, 193u8, 88u8,
        232u8, 35u8, 101u8, 175u8, 234u8, 37u8, 111u8, 177u8, 200u8, 67u8, 197u8, 84u8,
        252u8, 31u8, 33u8, 99u8, 165u8, 244u8, 7u8, 9u8, 27u8, 45u8, 119u8, 153u8,
        176u8, 203u8, 70u8, 202u8, 69u8, 207u8, 74u8, 222u8, 121u8, 139u8, 134u8, 145u8,
        168u8, 227u8, 62u8, 66u8, 198u8, 81u8, 243u8, 14u8, 18u8, 54u8, 90u8, 238u8,
        41u8, 123u8, 141u8, 140u8, 143u8, 138u8, 133u8, 148u8, 167u8, 242u8, 13u8, 23u8,
        57u8, 75u8, 221u8, 124u8, 132u8, 151u8, 162u8, 253u8, 28u8, 36u8, 108u8, 180u8,
        199u8, 82u8, 246u8,
    ];

    /// `LOG[x]` is the exponent `i` with `EXP[i] == x`, for `x` other than zero.
    /// `LOG[0]` is never read.
    pub const LOG: [u8; 256] = [
        255u8, 0u8, 25u8, 1u8, 50u8, 2u8, 26u8, 198u8, 75u8, 199u8, 27u8, 104u8,
        51u8, 238u8, 223u8, 3u8, 100u8, 4u8, 224u8, 14u8, 52u8, 141u8, 129u8, 239u8,
        76u8, 113u8, 8u8, 200u8, 248u8, 105u8, 28u8, 193u8, 125u8, 194u8, 29u8, 181u8,
        249u8, 185u8, 39u8, 106u8, 77u8, 228u8, 166u8, 114u8, 154u8, 201u8, 9u8, 120u8,
        101u8, 47u8, 138u8, 5u8, 33u8, 15u8, 225u8, 36u8, 18u8, 240u8, 130u8, 69u8,
        53u8, 147u8, 218u8, 142u8, 150u8, 143u8, 219u8, 189u8, 54u8, 208u8, 206u8, 148u8,
        19u8, 92u8, 210u8, 241u8, 64u8, 70u8, 131u8, 56u8, 102u8, 221u8, 253u8, 48u8,
        191u8, 6u8, 139u8, 98u8, 179u8, 37u8, 226u8, 152u8, 34u8, 136u8, 145u8, 16u8,
        126u8, 110u8, 72u8, 195u8, 163u8, 182u8, 30u8, 66u8, 58u8, 107u8, 40u8, 84u8,
        250u8, 133u8, 61u8, 186u8, 43u8, 121u8, 10u8, 21u8, 155u8, 159u8, 94u8, 202u8,
        78u8, 212u8, 172u8, 229u8, 243u8, 115u8, 167u8, 87u8, 175u8, 88u8, 168u8, 80u8,
        244u8, 234u8, 214u8, 116u8, 79u8, 174u8, 233u8, 213u8, 231u8, 230u8, 173u8, 232u8,
        44u8, 215u8, 117u8, 122u8, 235u8, 22u8, 11u8, 245u8, 89u8, 203u8, 95u8, 176u8,
        156u8, 169u8, 81u8, 160u8, 127u8, 12u8, 246u8, 111u8, 23u8, 196u8, 73u8, 236u8,
        216u8, 67u8, 31u8, 45u8, 164u8, 118u8, 123u8, 183u8, 204u8, 187u8, 62u8, 90u8,
        251u8, 96u8, 177u8, 134u8, 59u8, 82u8, 161u8, 108u8, 170u8, 85u8, 41u8, 157u8,
        151u8, 178u8, 135u8, 144u8, 97u8, 190u8, 220u8, 252u8, 188u8, 149u8, 207u8, 205u8,
        55u8, 63u8, 91u8, 209u8, 83u8, 57u8, 132u8, 60u8, 65u8, 162u8, 109u8, 71u8,
        20u8, 42u8, 158u8, 93u8, 86u8, 242u8, 211u8, 171u8, 68u8, 17u8, 146u8, 217u8,
        35u8, 32u8, 46u8, 137u8, 180u8, 124u8, 184u8, 38u8, 119u8, 153u8, 227u8, 165u8,
        103u8, 74u8, 237u8, 222u8, 197u8, 49u8, 254u8, 24u8, 13u8, 99u8, 140u8, 128u8,
        192u8, 247u8, 112u8, 7u8,
    ];
}

/// The entry of `EXP` at an exponent below 255.
pub closed spec fn exp(i: int) -> u8 {
    Gf8::EXP[i]
}

/// The entry of `LOG` at a byte.
pub closed spec fn log(x: u8) -> int {
    Gf8::LOG[x as int] as int
}

/// The exponents that `EXP` is defined on.
pub open spec fn is_exponent(i: int) -> bool {
    0 <= i < 255
}

/// Reads `EXP`.
pub fn exp_entry(i: usize) -> (entry: u8)
    requires
        is_exponent(i as int),
    ensures
        entry == exp(i as int),
{
    Gf8::EXP[i]
}

/// Reads `LOG`.
pub fn log_entry(x: u8) -> (entry: u8)
    ensures
        entry == log(x),
{
    Gf8::LOG[x as usize]
}

/// `exp` reads the table `EXP`.
pub proof fn lemma_exp_reads_table(i: int)
    requires
        is_exponent(i),
    ensures
        exp(i) == Gf8::EXP[i],
{
}

/// `log` reads the table `LOG`.
pub proof fn lemma_log_reads_table(x: u8)
    ensures
        log(x) == Gf8::LOG[x as int],
{
}

/// Tripling, written with division and remainder in place of shifts and masks, so
/// that it can be evaluated on the table's entries.
#[verifier::opaque]
spec fn triple_arithmetic(a: int) -> int {
    let b0 = a % 2;
    let b1 = (a / 2) % 2;
    let b2 = (a / 4) % 2;
    let b3 = (a / 8) % 2;
    let b4 = (a / 16) % 2;
    let b5 = (a / 32) % 2;
    let b6 = (a / 64) % 2;
    let b7 = (a / 128) % 2;
    (b0 + b7) % 2 + 2 * ((b1 + b0 + b7) % 2) + 4 * ((b2 + b1) % 2) + 8 * ((b3 + b2 + b7) % 2) + 16 * ((b4
        + b3 + b7) % 2) + 32 * ((b5 + b4) % 2) + 64 * ((b6 + b5) % 2) + 128 * ((b7 + b6) % 2)
}

/// The arithmetic form of tripling is tripling.
proof fn lemma_triple_arithmetic(a: u8)
    by (bit_vector)
    ensures
        triple(a) == triple_arithmetic(a as int),
{
}

/// What the tables promise at one exponent `i`, and at the byte `i + 1`.
spec fn tables_agree_at(i: int) -> bool {
    &&& Gf8::LOG[Gf8::EXP[i] as int] == i
    &&& Gf8::EXP[if i == 254 { 0 } else { i + 1 }] == triple_arithmetic(Gf8::EXP[i] as int)
    &&& Gf8::LOG[i + 1] < 255
    &&& Gf8::EXP[Gf8::LOG[i + 1] as int] == i + 1
}

/// `tables_agree_at` at every exponent from `low` up to, not including, `high`;
/// halving the range keeps the unfolding shallow.
spec fn tables_agree_between(low: int, high: int) -> bool
    decreases high - low,
{
    if high <= low {
        true
    } else if high == low + 1 {
        tables_agree_at(low)
    } else {
        let middle = low + (high - low) / 2;
        tables_agree_between(low, middle) && tables_agree_between(middle, high)
    }
}

/// What holds of a range holds of each exponent in it.
proof fn lemma_tables_agree_within(low: int, high: int, i: int)
    requires
        tables_agree_between(low, high),
        low <= i < high,
    ensures
        tables_agree_at(i),
    decreases high - low,
{
    if high > low + 1 {
        let middle = low + (high - low) / 2;
        if i < middle {
            lemma_tables_agree_within(low, middle, i);
        } else {
            lemma_tables_agree_within(middle, high, i);
        }
    }
}

/// The tables agree at every exponent: each entry is looked at once.
proof fn lemma_tables_checked()
    ensures
        tables_agree_between(0, 255),
{
    reveal(triple_arithmetic);
    reveal_with_fuel(tables_agree_between, 10);
}

/// The tables agree at the exponent `i`.
proof fn lemma_table_entry(i: int)
    requires
        is_exponent(i),
    ensures
        tables_agree_at(i),
{
    lemma_tables_checked();
    lemma_tables_agree_within(0, 255, i);
}

/// `EXP` starts at one.
pub proof fn lemma_exp_of_zero()
    ensures
        exp(0) == 1,
{
}

/// No entry of `EXP` is zero, and `LOG` gives each entry's exponent back.
pub proof fn lemma_exp(i: int)
    requires
        is_exponent(i),
    ensures
        exp(i) != 0,
        log(exp(i)) == i,
{
    lemma_table_entry(i);
}

/// The entry after `i` is three times the entry at `i`, in the arithmetic form.
proof fn lemma_table_successor(i: int)
    requires
        is_exponent(i),
    ensures
        exp(if i == 254 { 0 } else { i + 1 }) == triple_arithmetic(exp(i) as int),
{
    lemma_table_entry(i);
}

/// Each entry of `EXP` is three times the one before it, and the last leads back to
/// the first: `EXP` holds the powers of 3.
pub proof fn lemma_exp_of_successor(i: int)
    requires
        is_exponent(i),
    ensures
        exp((i + 1) % 255) == triple(exp(i)),
{
    lemma_table_successor(i);
    lemma_triple_arithmetic(exp(i));
    assert((i + 1) % 255 == if i == 254 { 0 } else { i + 1 });
}

/// `LOG` gives each byte other than zero an exponent, and `EXP` gives the byte back.
pub proof fn lemma_log(x: u8)
    requires
        x != 0,
    ensures
        is_exponent(log(x)),
        exp(log(x)) == x,
{
    lemma_table_entry(x - 1);
}

} // verus!

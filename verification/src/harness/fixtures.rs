//! Fixed correctness fixtures and the timing input: every message under the identity LUT and
//! under the non-identity `m ↦ m + 1` LUT, each with its own encryption seed.
use crate::harness::params::{Lut, REQUIRED_MESSAGE_BITS};
use vstd::prelude::*;
use vstd::string::*;

verus! {

/// A scored correctness case: encrypt `message` with `seed`, bootstrap it through `lut`.
pub struct Fixture {
    pub name: String,
    pub message: u64,
    pub lut: Lut,
    pub seed: u64,
}

/// The character of the decimal digit `d < 10`.
pub open spec fn digit_char(d: nat) -> char {
    (48 + d) as char
}

/// Decimal digits of `m`, most significant first, without leading zeros.
pub open spec fn decimal(m: nat) -> Seq<char>
    decreases m,
{
    if m < 10 {
        seq![digit_char(m)]
    } else {
        decimal(m / 10).push(digit_char(m % 10))
    }
}

/// The label `"{family}/m{message}"` of a fixture.
pub open spec fn fixture_label(family: Seq<char>, message: u64) -> Seq<char> {
    family + seq!['/', 'm'] + decimal(message as nat)
}

/// The decimal digits of `message`, written by std's `ToString` (through `Display for u64`).
/// Trusted: the contract claims that `Display` writes exactly the plain decimal digits of a
/// `u64` (no sign, no padding, no separators), as std documents for integer formatting.
#[verifier::external_body]
fn decimal_string(message: u64) -> (s: String)
    ensures
        s@ == decimal(message as nat),
{
    message.to_string()
}

/// The label `"{family}/m{message}"` of a fixture.
fn fixture_name(family: &str, message: u64) -> (name: String)
    ensures
        name@ == fixture_label(family@, message),
{
    let mut name = String::from_str(family);
    let sep = "/m";
    proof {
        reveal_strlit("/m");
    }
    name.append(sep);
    let digits = decimal_string(message);
    name.append(digits.as_str());
    proof {
        assert(sep@ =~= seq!['/', 'm']);
    }
    name
}

/// The fixed message modulus the challenge bootstraps over: `2^(REQUIRED_MESSAGE_BITS - 1)`.
pub fn msg_modulus() -> (m: u64)
    ensures
        m == 4,
{
    assert(1u64 << 2u32 == 4) by (bit_vector);
    1u64 << (REQUIRED_MESSAGE_BITS - 1)
}

/// `[0, 1, …, modulus - 1]`.
fn identity_values(modulus: u64) -> (v: Vec<u64>)
    ensures
        v@ == Seq::new(modulus as nat, |m: int| m as u64),
{
    let mut v: Vec<u64> = Vec::new();
    let mut m: u64 = 0;
    while m < modulus
        invariant
            m <= modulus,
            v@ == Seq::new(m as nat, |i: int| i as u64),
        decreases modulus - m,
    {
        v.push(m);
        m = m + 1;
        assert(v@ =~= Seq::new(m as nat, |i: int| i as u64));
    }
    v
}

/// `[1, 2, …, modulus - 1, 0]`: `m ↦ (m + 1) mod modulus`.
fn increment_values(modulus: u64) -> (v: Vec<u64>)
    ensures
        v@ == Seq::new(modulus as nat, |m: int| ((m + 1) % (modulus as int)) as u64),
{
    let mut v: Vec<u64> = Vec::new();
    let mut m: u64 = 0;
    while m < modulus
        invariant
            m <= modulus,
            v@ == Seq::new(m as nat, |i: int| ((i + 1) % (modulus as int)) as u64),
        decreases modulus - m,
    {
        v.push((m + 1) % modulus);
        m = m + 1;
        assert(v@ =~= Seq::new(m as nat, |i: int| ((i + 1) % (modulus as int)) as u64));
    }
    v
}

/// The LUT used for the timing measurement (identity — refresh the message unchanged).
pub fn timing_lut() -> (lut: Lut)
    ensures
        lut.values@ == seq![0u64, 1u64, 2u64, 3u64],
{
    let lut = Lut { values: identity_values(msg_modulus()) };
    assert(lut.values@ =~= seq![0u64, 1u64, 2u64, 3u64]);
    lut
}

/// The message of the representative timing input (`1` is in range for any message space).
pub const TIMING_MESSAGE: u64 = 1;

/// The seed of the representative timing input.
pub const TIMING_SEED: u64 = 0xC0FF_EE00;

/// All scored correctness fixtures: every message `m < 4` under two LUTs, the identity (seed
/// `0x1000 + m`, at index `2m`) and `m ↦ (m + 1) mod 4` (seed `0x2000 + m`, at index `2m + 1`),
/// which moves every message, so a pass-through cannot satisfy it.
pub fn all() -> (v: Vec<Fixture>)
    ensures
        v@.len() == 8,
        forall|m: int|
            0 <= m < 4 ==> {
                &&& (#[trigger] v@[2 * m]).name@ == fixture_label("identity"@, m as u64)
                &&& v@[2 * m].message == m
                &&& v@[2 * m].lut.values@ == seq![0u64, 1u64, 2u64, 3u64]
                &&& v@[2 * m].seed == 0x1000 + m
                &&& v@[2 * m + 1].name@ == fixture_label("increment"@, m as u64)
                &&& v@[2 * m + 1].message == m
                &&& v@[2 * m + 1].lut.values@ == seq![1u64, 2u64, 3u64, 0u64]
                &&& v@[2 * m + 1].seed == 0x2000 + m
            },
{
    let modulus = msg_modulus();
    let mut v: Vec<Fixture> = Vec::new();
    let mut m: u64 = 0;
    while m < modulus
        invariant
            modulus == 4,
            m <= modulus,
            v@.len() == 2 * m,
            forall|i: int|
                0 <= i < m ==> {
                    &&& (#[trigger] v@[2 * i]).name@ == fixture_label("identity"@, i as u64)
                    &&& v@[2 * i].message == i
                    &&& v@[2 * i].lut.values@ == seq![0u64, 1u64, 2u64, 3u64]
                    &&& v@[2 * i].seed == 0x1000 + i
                    &&& v@[2 * i + 1].name@ == fixture_label("increment"@, i as u64)
                    &&& v@[2 * i + 1].message == i
                    &&& v@[2 * i + 1].lut.values@ == seq![1u64, 2u64, 3u64, 0u64]
                    &&& v@[2 * i + 1].seed == 0x2000 + i
                },
        decreases modulus - m,
    {
        let identity = identity_values(modulus);
        let increment = increment_values(modulus);
        assert(identity@ =~= seq![0u64, 1u64, 2u64, 3u64]);
        assert(increment@ =~= seq![1u64, 2u64, 3u64, 0u64]);
        v.push(
            Fixture {
                name: fixture_name("identity", m),
                message: m,
                lut: Lut { values: identity },
                seed: 0x1000 + m,
            },
        );
        v.push(
            Fixture {
                name: fixture_name("increment", m),
                message: m,
                lut: Lut { values: increment },
                seed: 0x2000 + m,
            },
        );
        m = m + 1;
    }
    v
}

} // verus!

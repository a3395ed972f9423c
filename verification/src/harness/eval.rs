//! The integer decisions of the scoring run: the message-width gate, the per-fixture check,
//! and the median of the measured bootstrap times.
use crate::harness::params::{Lut, Params, REQUIRED_MESSAGE_BITS};
use vstd::multiset::*;
use vstd::prelude::*;
use vstd::seq_lib::*;

verus! {

/// Gate (1): the parameter set uses the required message width (padding bit included).
pub fn message_width_ok(p: &Params) -> (ok: bool)
    ensures
        ok == (p.message_bits == REQUIRED_MESSAGE_BITS),
{
    p.message_bits == REQUIRED_MESSAGE_BITS
}

/// Gate (3a) for one fixture: the decrypted output `got` is `lut[message]`.
pub fn fixture_ok(lut: &Lut, message: u64, got: u64) -> (ok: bool)
    requires
        message < lut.values@.len(),
    ensures
        ok == (got == lut.values@[message as int]),
{
    let len = lut.values.len();
    assert(message < len);
    let idx = message as usize;
    got == lut.values[idx]
}

/// `s` is in ascending order.
pub open spec fn ascending(s: Seq<u64>) -> bool {
    forall|i: int, j: int| 0 <= i <= j < s.len() ==> s[i] <= s[j]
}

/// Swapping two entries keeps the multiset of a sequence.
proof fn lemma_swap_multiset(s: Seq<u64>, i: int, j: int)
    requires
        0 <= i < s.len(),
        0 <= j < s.len(),
    ensures
        s.update(i, s[j]).update(j, s[i]).to_multiset() == s.to_multiset(),
{
    broadcast use group_multiset_axioms, to_multiset_update, to_multiset_contains;

    let s1 = s.update(i, s[j]);
    assert(s.contains(s[i]));
    assert(s.contains(s[j]));
    assert(s1.to_multiset() == s.to_multiset().insert(s[j]).remove(s[i]));
    assert(s1.update(j, s[i]).to_multiset() == s1.to_multiset().insert(s[i]).remove(s1[j]));
    assert(s1.update(j, s[i]).to_multiset() =~= s.to_multiset());
}

/// Sort `v` ascending in place (insertion sort).
fn sort_ascending(v: &mut Vec<u64>)
    ensures
        ascending(final(v)@),
        final(v)@.to_multiset() == old(v)@.to_multiset(),
{
    let n = v.len();
    let mut i: usize = 1;
    while i < n
        invariant
            v@.len() == n,
            1 <= i || n == 0,
            forall|a: int, b: int| 0 <= a <= b < i && b < n ==> v@[a] <= v@[b],
            v@.to_multiset() == old(v)@.to_multiset(),
        decreases n - i,
    {
        let mut j: usize = i;
        while j > 0 && v[j - 1] > v[j]
            invariant
                v@.len() == n,
                0 <= j <= i < n,
                forall|a: int, b: int|
                    0 <= a <= b <= i && a != j && b != j ==> v@[a] <= v@[b],
                forall|b: int| j < b <= i ==> v@[j as int] <= v@[b],
                v@.to_multiset() == old(v)@.to_multiset(),
            decreases j,
        {
            let x = v[j];
            let y = v[j - 1];
            proof {
                lemma_swap_multiset(v@, j as int, (j - 1) as int);
            }
            v.set(j, y);
            v.set(j - 1, x);
            j = j - 1;
        }
        i = i + 1;
    }
}

/// Sort the measured times ascending and return the middle one, `times[len / 2]` (for an odd
/// count, the exact median).
pub fn median(times: &mut Vec<u64>) -> (m: u64)
    requires
        old(times)@.len() > 0,
    ensures
        ascending(final(times)@),
        final(times)@.to_multiset() == old(times)@.to_multiset(),
        final(times)@.len() == old(times)@.len(),
        m == final(times)@[(old(times)@.len() / 2) as int],
{
    sort_ascending(times);
    proof {
        broadcast use to_multiset_len;
        assert(times@.len() == times@.to_multiset().len());
        assert(old(times)@.len() == old(times)@.to_multiset().len());
    }
    times[times.len() / 2]
}

} // verus!

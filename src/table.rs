use vstd::prelude::*;

use crate::error::EcFftError;
use crate::field::{self, limb_base, modulus, Fe, NUM_LIMBS};

verus! {

/// ASCII whitespace, the separator between numbers of a table.
pub open spec fn is_space(b: u8) -> bool {
    b == 32 || b == 9 || b == 10 || b == 11 || b == 12 || b == 13
}

/// An ASCII decimal digit.
pub open spec fn is_digit(b: u8) -> bool {
    48 <= b <= 57
}

/// Reading a table left to right: the numbers completed so far, and the
/// value of the number still being read, if any.
pub open spec fn scan(s: Seq<u8>) -> (Seq<nat>, Option<nat>)
    decreases s.len(),
{
    if s.len() == 0 {
        (Seq::empty(), None)
    } else {
        let (done, cur) = scan(s.drop_last());
        let b = s.last();
        if is_space(b) {
            match cur {
                Some(v) => (done.push(v), None),
                None => (done, None),
            }
        } else {
            let v = match cur {
                Some(v) => v,
                None => 0nat,
            };
            (done, Some(v * 10 + (b - 48) as nat))
        }
    }
}

/// The numbers of a table, in order.
pub open spec fn numbers(s: Seq<u8>) -> Seq<nat> {
    let (done, cur) = scan(s);
    match cur {
        Some(v) => done.push(v),
        None => done,
    }
}

/// Byte `k` is a space or a digit, and the digits read up to it form a
/// number that fits in 64 bits.
pub open spec fn readable_at(s: Seq<u8>, k: int) -> bool {
    &&& (is_space(s[k]) || is_digit(s[k]))
    &&& (scan(s.take(k + 1)).1 matches Some(v) ==> v <= u64::MAX)
}

/// A table is a sequence of whitespace-separated decimal numbers of 64 bits.
pub open spec fn readable(s: Seq<u8>) -> bool {
    forall|k: int| 0 <= k < s.len() ==> readable_at(s, k)
}

/// The 64-bit integers of a whitespace-separated decimal table.
pub fn parse_numbers(s: &[u8]) -> (r: Result<Vec<u64>, EcFftError>)
    ensures
        r is Ok <==> readable(s@),
        r is Err ==> r == Err::<Vec<u64>, EcFftError>(EcFftError::ParameterLoadError),
        r matches Ok(w) ==> w@.map_values(|x: u64| x as nat) == numbers(s@),
{
    let mut w: Vec<u64> = Vec::new();
    let mut cur: Option<u64> = None;
    let mut i: usize = 0;
    while i < s.len()
        invariant
            0 <= i <= s.len(),
            forall|k: int| 0 <= k < i ==> readable_at(s@, k),
            w@.map_values(|x: u64| x as nat) == scan(s@.take(i as int)).0,
            cur matches Some(v) ==> scan(s@.take(i as int)).1 == Some(v as nat),
            cur is None ==> scan(s@.take(i as int)).1 is None,
        decreases s.len() - i,
    {
        let b = s[i];
        proof {
            assert(s@.take(i + 1).drop_last() =~= s@.take(i as int));
            assert(s@.take(i + 1).last() == b);
        }
        if b == 32 || b == 9 || b == 10 || b == 11 || b == 12 || b == 13 {
            match cur {
                Some(v) => {
                    w.push(v);
                },
                None => {},
            }
            cur = None;
        } else if 48 <= b && b <= 57 {
            let d = (b - 48) as u64;
            let base: u64 = match cur {
                Some(v) => v,
                None => 0,
            };
            if base > (u64::MAX - d) / 10 {
                proof {
                    assert(base * 10 + d > u64::MAX) by (nonlinear_arith)
                        requires
                            base > (u64::MAX - d) / 10,
                            d <= 9,
                    ;
                    assert(!readable_at(s@, i as int));
                }
                return Err(EcFftError::ParameterLoadError);
            }
            cur = Some(base * 10 + d);
        } else {
            proof {
                assert(!readable_at(s@, i as int));
            }
            return Err(EcFftError::ParameterLoadError);
        }
        proof {
            assert(w@.map_values(|x: u64| x as nat) =~= scan(s@.take(i + 1)).0);
        }
        i += 1;
    }
    proof {
        assert(s@.take(i as int) =~= s@);
    }
    match cur {
        Some(v) => {
            w.push(v);
        },
        None => {},
    }
    proof {
        assert(w@.map_values(|x: u64| x as nat) =~= numbers(s@));
    }
    Ok(w)
}

/// The integer that the six numbers of group `k` stand for, least
/// significant limb first.
pub open spec fn group_value(w: Seq<nat>, k: int) -> nat {
    w[6 * k] + limb_base() * (w[6 * k + 1] + limb_base() * (w[6 * k + 2] + limb_base() * (
    w[6 * k + 3] + limb_base() * (w[6 * k + 4] + limb_base() * w[6 * k + 5]))))
}

/// The numbers split into whole groups of six limbs, each below the modulus.
pub open spec fn elements_ok(w: Seq<nat>) -> bool {
    &&& w.len() % 6 == 0
    &&& forall|k: int| 0 <= k < w.len() / 6 ==> #[trigger] group_value(w, k) < modulus()
}

/// Field element `e` is group `k` of the numbers `w`.
pub open spec fn is_group(e: Fe, w: Seq<nat>, k: int) -> bool {
    forall|j: int| 0 <= j < 6 ==> e.limbs@[j] as nat == #[trigger] w[6 * k + j]
}

/// The field elements of a table: whitespace-separated decimal limbs, six
/// per element, least significant first.
pub fn parse_elements(s: &[u8]) -> (r: Result<Vec<Fe>, EcFftError>)
    ensures
        r is Ok <==> readable(s@) && elements_ok(numbers(s@)),
        r is Err ==> r == Err::<Vec<Fe>, EcFftError>(EcFftError::ParameterLoadError),
        r matches Ok(v) ==> {
            &&& v.len() == numbers(s@).len() / 6
            &&& forall|k: int|
                0 <= k < v.len() ==> v[k].wf() && #[trigger] v[k].value() == group_value(numbers(s@), k)
                    && is_group(v[k], numbers(s@), k)
        },
{
    let w = parse_numbers(s)?;
    let ghost nums = numbers(s@);
    assert(forall|j: int| 0 <= j < w.len() ==> w[j] as nat == #[trigger] nums[j]);
    if w.len() % NUM_LIMBS != 0 {
        return Err(EcFftError::ParameterLoadError);
    }
    let count = w.len() / NUM_LIMBS;
    let mut v: Vec<Fe> = Vec::new();
    let mut k: usize = 0;
    while k < count
        invariant
            nums == numbers(s@),
            count == w.len() / 6,
            w.len() % 6 == 0,
            nums.len() == w.len(),
            forall|j: int| 0 <= j < w.len() ==> w[j] as nat == #[trigger] nums[j],
            0 <= k <= count,
            v.len() == k,
            forall|q: int| 0 <= q < k ==> group_value(nums, q) < modulus(),
            forall|q: int|
                0 <= q < k ==> v[q].wf() && #[trigger] v[q].value() == group_value(nums, q)
                    && is_group(v[q], nums, q),
        decreases count - k,
    {
        assert(k * 6 + 5 < w.len()) by (nonlinear_arith)
            requires
                k < count,
                count == w.len() / 6,
                w.len() % 6 == 0,
        ;
        let b = k * NUM_LIMBS;
        let limbs = [w[b], w[b + 1], w[b + 2], w[b + 3], w[b + 4], w[b + 5]];
        let e = Fe { limbs };
        proof {
            assert(b + 5 < w.len());
            assert(limbs@[0] == w[b as int] && limbs@[1] == w[b + 1] && limbs@[2] == w[b + 2]);
            assert(limbs@[3] == w[b + 3] && limbs@[4] == w[b + 4] && limbs@[5] == w[b + 5]);
            assert(is_group(e, nums, k as int));
            assert(e.value() == group_value(nums, k as int));
        }
        if !field::is_canonical(limbs) {
            proof {
                assert(group_value(nums, k as int) >= modulus());
                assert(!elements_ok(nums));
            }
            return Err(EcFftError::ParameterLoadError);
        }
        v.push(e);
        k += 1;
    }
    Ok(v)
}

} // verus!

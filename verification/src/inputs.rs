use vstd::prelude::*;
use crate::errors::IcmError;

verus! {

/// Every entry of the sequence is a positive chip count.
pub open spec fn all_positive(s: Seq<u32>) -> bool {
    forall|i: int| 0 <= i < s.len() ==> s[i] > 0
}

/// Rejects the degenerate stack vectors that neither engine may see:
/// an empty field, or a player with no chips.
pub fn validate_stacks(stacks: &Vec<u32>) -> (r: Result<(), IcmError>)
    ensures
        r is Ok <==> (stacks@.len() > 0 && all_positive(stacks@)),
        r == Err::<(), IcmError>(IcmError::EmptyInput) <==> stacks@.len() == 0,
        r == Err::<(), IcmError>(IcmError::ZeroStack) <==> (stacks@.len() > 0
            && !all_positive(stacks@)),
{
    if stacks.len() == 0 {
        return Err(IcmError::EmptyInput);
    }
    let n = stacks.len();
    for i in 0..n
        invariant
            n == stacks@.len(),
            forall|j: int| 0 <= j < i ==> stacks@[j] > 0,
    {
        if stacks[i] == 0 {
            return Err(IcmError::ZeroStack);
        }
    }
    Ok(())
}

/// Brings the payout vector to the same length as the stack vector:
/// missing ranks pay nothing, ranks past the field are dropped.
pub fn normalize_payouts(player_count: usize, payouts: &Vec<u32>) -> (r: Vec<u32>)
    ensures
        r@.len() == player_count,
        forall|i: int| 0 <= i < r@.len() && i < payouts@.len() ==> r@[i] == payouts@[i],
        forall|i: int| payouts@.len() <= i < r@.len() ==> r@[i] == 0,
{
    let mut out: Vec<u32> = Vec::new();
    let mut i: usize = 0;
    while i < player_count
        invariant
            i == out@.len(),
            i <= player_count,
            forall|j: int| 0 <= j < i && j < payouts@.len() ==> out@[j] == payouts@[j],
            forall|j: int| payouts@.len() <= j < i ==> out@[j] == 0,
        decreases player_count - i,
    {
        if i < payouts.len() {
            out.push(payouts[i]);
        } else {
            out.push(0);
        }
        i = i + 1;
    }
    out
}

} // verus!

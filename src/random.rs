use vstd::prelude::*;

verus! {

/// Relies on rand::random_range: a value drawn from the thread-local
/// generator within the inclusive range `0..=1`.
#[verifier::external_body]
fn random_bit() -> (r: u8)
    ensures
        r <= 1,
{
    rand::random_range(0..=1u8)
}

/// `n` independent fair coin flips.
pub fn draw_coins(n: usize) -> (r: Vec<bool>)
    ensures
        r@.len() == n,
{
    let mut coins: Vec<bool> = Vec::new();
    let mut i: usize = 0;
    while i < n
        invariant
            i <= n,
            coins@.len() == i,
        decreases n - i,
    {
        let bit = random_bit();
        coins.push(bit == 1);
        i = i + 1;
    }
    coins
}

} // verus!

//! The default piece length for content of a given size.

use crate::bytes::Bytes;
use vstd::arithmetic::div_mod::lemma_div_is_ordered_by_denominator;
use vstd::prelude::*;

verus! {

/// The smallest piece length that is picked: 16 KiB.
pub const MIN_PIECE_LENGTH: u64 = 16384;

/// The largest piece length that is picked: 16 MiB.
pub const MAX_PIECE_LENGTH: u64 = 16777216;

/// The number of pieces that the picker aims to stay under.
pub const PIECES_WANTED: u64 = 2048;

/// `n` is a power of two.
pub open spec fn power_of_two(n: nat) -> bool
    decreases n,
{
    n == 1 || (n > 1 && n % 2 == 0 && power_of_two(n / 2))
}

/// Pieces of `piece_length` bytes keep the number of whole pieces of
/// `total` bytes at 2048 or below.
pub open spec fn few_enough(total: nat, piece_length: nat) -> bool {
    piece_length > 0 && total / piece_length <= 2048
}

/// The first of `candidate`, twice `candidate`, and so on, that keeps the
/// pieces few enough or has reached 16 MiB.
pub open spec fn pick_from(total: nat, candidate: nat) -> nat
    decreases
        (if candidate < 16777216 {
            16777216 - candidate
        } else {
            0
        }),
{
    if candidate <= 0 || candidate >= 16777216 || few_enough(total, candidate) {
        candidate
    } else {
        pick_from(total, 2 * candidate)
    }
}

/// The piece length picked for `total` bytes of content: the smallest power
/// of two that keeps the pieces few enough, but no less than 16 KiB and no
/// more than 16 MiB.
pub open spec fn picked(total: nat) -> nat {
    pick_from(total, 16384)
}

/// Whether `n` is a power of two.
pub fn is_power_of_two(n: u64) -> (r: bool)
    ensures
        r == power_of_two(n as nat),
{
    if n == 0 {
        return false;
    }
    let mut m: u64 = n;
    while m % 2 == 0
        invariant
            m > 0,
            power_of_two(m as nat) == power_of_two(n as nat),
        decreases m,
    {
        m = m / 2;
    }
    m == 1
}

/// What `pick_from` returns is a power of two between its candidate and
/// 16 MiB, keeps the pieces few enough unless it is 16 MiB, and unless it is
/// the candidate, half of it does not.
pub proof fn lemma_pick_from(total: nat, candidate: nat)
    requires
        power_of_two(candidate),
        candidate <= 16777216,
        power_of_two(16777216),
    ensures
        power_of_two(pick_from(total, candidate)),
        candidate <= pick_from(total, candidate) <= 16777216,
        pick_from(total, candidate) < 16777216 ==> few_enough(total, pick_from(total, candidate)),
        pick_from(total, candidate) > candidate ==> !few_enough(
            total,
            pick_from(total, candidate) / 2,
        ),
    decreases 16777216 - candidate,
{
    if candidate >= 16777216 || few_enough(total, candidate) {
    } else {
        assert(power_of_two(2 * candidate)) by {
            assert((2 * candidate) / 2 == candidate);
        }
        assert(2 * candidate <= 16777216) by {
            lemma_power_of_two_gap(candidate, 16777216);
        }
        lemma_pick_from(total, 2 * candidate);
    }
}

/// Of two powers of two, the larger is at least twice the smaller.
pub proof fn lemma_power_of_two_gap(a: nat, b: nat)
    requires
        power_of_two(a),
        power_of_two(b),
        a < b,
    ensures
        2 * a <= b,
    decreases a,
{
    if a > 1 {
        lemma_power_of_two_gap(a / 2, b / 2);
    }
}

/// The piece length picked is a power of two from 16 KiB to 16 MiB. Unless
/// it is 16 MiB it keeps the pieces few enough, and unless it is 16 KiB no
/// smaller power of two does: none from 16 KiB up to half of it.
pub proof fn lemma_picked(total: nat)
    ensures
        power_of_two(picked(total)),
        16384 <= picked(total) <= 16777216,
        picked(total) < 16777216 ==> few_enough(total, picked(total)),
        picked(total) > 16384 ==> forall|q: nat| 2 * q <= picked(total) ==> !few_enough(total, q),
        total == 0 ==> picked(total) == 16384,
{
    lemma_bounds_are_powers();
    lemma_pick_from(total, 16384);
    if picked(total) > 16384 {
        let half = picked(total) / 2;
        assert forall|q: nat| 2 * q <= picked(total) implies !few_enough(total, q) by {
            if q > 0 {
                lemma_div_is_ordered_by_denominator(total as int, q as int, half as int);
            }
        }
    }
}

/// 16 KiB and 16 MiB are powers of two.
pub proof fn lemma_bounds_are_powers()
    ensures
        power_of_two(16384),
        power_of_two(16777216),
{
    reveal_with_fuel(power_of_two, 26);
}

/// The default piece length for content of `content_size` bytes.
pub fn from_content_size(content_size: Bytes) -> (piece_length: Bytes)
    ensures
        piece_length.0 == picked(content_size.0 as nat),
{
    let total = content_size.0;
    let mut candidate: u64 = MIN_PIECE_LENGTH;
    proof {
        lemma_bounds_are_powers();
    }
    while candidate < MAX_PIECE_LENGTH && total / candidate > PIECES_WANTED
        invariant
            0 < candidate <= MAX_PIECE_LENGTH,
            power_of_two(candidate as nat),
            power_of_two(16777216),
            pick_from(total as nat, candidate as nat) == picked(total as nat),
        decreases MAX_PIECE_LENGTH - candidate,
    {
        proof {
            lemma_power_of_two_gap(candidate as nat, 16777216);
            assert((2 * candidate) / 2 == candidate);
        }
        candidate = candidate * 2;
    }
    Bytes(candidate)
}

} // verus!

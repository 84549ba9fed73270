//! Ascending listings of the numbers that have a property.

use vstd::prelude::*;

verus! {

/// The numbers below `n` that have property `p`, in ascending order.
pub open spec fn listing(p: spec_fn(int) -> bool, n: nat) -> Seq<int>
    decreases n,
{
    if n == 0 {
        Seq::empty()
    } else {
        let shorter = listing(p, (n - 1) as nat);
        if p(n - 1) {
            shorter.push(n - 1)
        } else {
            shorter
        }
    }
}

/// A listing is strictly ascending and holds exactly the numbers below `n` that
/// have the property.
pub proof fn lemma_listing(p: spec_fn(int) -> bool, n: nat)
    ensures
        forall|i: int, j: int|
            0 <= i < j < listing(p, n).len() ==> listing(p, n)[i] < listing(p, n)[j],
        forall|i: int|
            0 <= i < listing(p, n).len() ==> 0 <= (#[trigger] listing(p, n)[i]) < n && p(
                listing(p, n)[i],
            ),
        forall|c: int| #[trigger] listing(p, n).contains(c) <==> 0 <= c < n && p(c),
        listing(p, n).len() <= n,
    decreases n,
{
    if n > 0 {
        let k = (n - 1) as nat;
        lemma_listing(p, k);
        assert forall|c: int| #[trigger] listing(p, n).contains(c) <==> 0 <= c < n && p(c) by {
            if 0 <= c < n && p(c) {
                if c == k {
                    assert(listing(p, n)[listing(p, n).len() - 1] == c);
                } else {
                    assert(listing(p, k).contains(c));
                    let i = choose|i: int| 0 <= i < listing(p, k).len() && listing(p, k)[i] == c;
                    assert(listing(p, n)[i] == c);
                }
            }
        }
    }
}

/// Numbers without the property do not lengthen a listing.
pub proof fn lemma_listing_gap(p: spec_fn(int) -> bool, a: nat, b: nat)
    requires
        a <= b,
        forall|c: int| a <= c < b ==> !#[trigger] p(c),
    ensures
        listing(p, b) == listing(p, a),
    decreases b,
{
    if a < b {
        lemma_listing_gap(p, a, (b - 1) as nat);
    }
}

} // verus!

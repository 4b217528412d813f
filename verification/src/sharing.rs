use crate::error::ShamirError;
use crate::lagrange::{distinct, interpolate_at_zero, lemma_interpolation_is_exact};
use crate::polynomial::{is_sharing_polynomial, lemma_eval_at_zero, poly_eval};
use vstd::prelude::*;

verus! {

/// Why a split into `n` shares with threshold `k` of a secret of `secret_len`
/// bytes is refused, if it is. The first rule that is broken decides.
pub open spec fn split_refusal(n: int, k: int, secret_len: int) -> Option<ShamirError> {
    if k <= 1 {
        Some(ShamirError::InvalidThreshold)
    } else if n < k {
        Some(ShamirError::InsufficientTotalShares)
    } else if n > 255 {
        Some(ShamirError::TooManyShares)
    } else if secret_len == 0 {
        Some(ShamirError::EmptySecret)
    } else {
        None
    }
}

/// The share at the point `x` of the field: for each byte of the secret, the
/// value at `x` of the polynomial that hides it.
pub open spec fn share_of(polys: Seq<Seq<u8>>, x: u8) -> Seq<u8> {
    Seq::new(polys.len(), |i: int| poly_eval(polys[i], x))
}

/// The shares with the indices 1 to `n` that the polynomials `polys` give.
pub open spec fn shares_of(polys: Seq<Seq<u8>>, n: int) -> Map<i32, Seq<u8>> {
    Map::new(|x: i32| 1 <= x <= n, |x: i32| share_of(polys, x as u8))
}

/// The polynomials `polys` hide `secret` behind the threshold `k`: there is
/// one for each byte, with that byte as its constant term and of degree `k - 1`.
pub open spec fn hides(polys: Seq<Seq<u8>>, k: int, secret: Seq<u8>) -> bool {
    &&& polys.len() == secret.len()
    &&& forall|i: int|
        0 <= i < polys.len() ==> is_sharing_polynomial(#[trigger] polys[i], k, secret[i])
}

/// `shares` are `n` shares of `secret` with the threshold `k`: the values at
/// the points 1 to `n` of some polynomials that hide the secret.
pub open spec fn is_sharing(shares: Map<i32, Seq<u8>>, n: int, k: int, secret: Seq<u8>) -> bool {
    exists|polys: Seq<Seq<u8>>| hides(polys, k, secret) && shares == shares_of(polys, n)
}

/// The members of `keys` that lie below `bound`, in ascending order.
pub open spec fn ascending_keys(keys: Set<i32>, bound: int) -> Seq<i32>
    decreases bound - i32::MIN,
{
    if bound <= i32::MIN {
        Seq::empty()
    } else {
        let below = ascending_keys(keys, bound - 1);
        if keys.contains((bound - 1) as i32) {
            below.push((bound - 1) as i32)
        } else {
            below
        }
    }
}

/// The indices of the shares in `parts`, in ascending order.
pub open spec fn share_indices(parts: Map<i32, Seq<u8>>) -> Seq<i32> {
    ascending_keys(parts.dom(), i32::MAX + 1)
}

/// The point of the field at which the share with the given index stands: the
/// low eight bits of the index.
pub open spec fn index_byte(index: i32) -> u8 {
    index as u8
}

/// The points of the field at which the shares in `parts` stand, in the order
/// of their indices.
pub open spec fn share_abscissas(parts: Map<i32, Seq<u8>>) -> Seq<u8> {
    Seq::new(share_indices(parts).len(), |j: int| index_byte(share_indices(parts)[j]))
}

/// The bytes at place `i` of the shares in `parts`, in the order of their indices.
pub open spec fn share_ordinates(parts: Map<i32, Seq<u8>>, i: int) -> Seq<u8> {
    Seq::new(share_indices(parts).len(), |j: int| parts[share_indices(parts)[j]][i])
}

/// All the shares in `parts` have one length.
pub open spec fn consistent_lengths(parts: Map<i32, Seq<u8>>) -> bool {
    forall|x: i32, y: i32|
        parts.contains_key(x) && parts.contains_key(y) ==> parts[x].len() == parts[y].len()
}

/// The length of the share with the least index.
pub open spec fn share_length(parts: Map<i32, Seq<u8>>) -> nat {
    parts[share_indices(parts)[0]].len()
}

/// What a join of the shares in `parts` gives: a refusal if there are none,
/// if they differ in length, or if two of them stand at one point of the
/// field; else, byte by byte, the value at zero that Lagrange's formula gives
/// for the points of the shares. Shares without bytes give the empty secret,
/// wherever they stand.
pub open spec fn join_outcome(parts: Map<i32, Seq<u8>>) -> Result<Seq<u8>, ShamirError> {
    if parts.dom().is_empty() {
        Err(ShamirError::NoPartsProvided)
    } else if !consistent_lengths(parts) {
        Err(ShamirError::InconsistentShareLength)
    } else if share_length(parts) > 0 && !distinct(share_abscissas(parts)) {
        Err(ShamirError::DuplicateShareIndex)
    } else {
        Ok(
            Seq::new(
                share_length(parts),
                |i: int| interpolate_at_zero(share_abscissas(parts), share_ordinates(parts, i)),
            ),
        )
    }
}

/// `ascending_keys` lists members of `keys` below `bound`, in strictly
/// ascending order, and leaves none of them out.
pub proof fn lemma_ascending_keys(keys: Set<i32>, bound: int)
    requires
        i32::MIN <= bound <= i32::MAX + 1,
    ensures
        forall|j: int|
            0 <= j < ascending_keys(keys, bound).len() ==> keys.contains(
                #[trigger] ascending_keys(keys, bound)[j],
            ) && ascending_keys(keys, bound)[j] < bound,
        forall|i: int, j: int|
            0 <= i < j < ascending_keys(keys, bound).len() ==> ascending_keys(keys, bound)[i]
                < ascending_keys(keys, bound)[j],
        forall|x: i32| keys.contains(x) && x < bound ==> ascending_keys(keys, bound).contains(x),
    decreases bound - i32::MIN,
{
    let s = ascending_keys(keys, bound);
    if bound > i32::MIN {
        let below = ascending_keys(keys, bound - 1);
        let top = (bound - 1) as i32;
        lemma_ascending_keys(keys, bound - 1);
        assert forall|x: i32| keys.contains(x) && x < bound implies s.contains(x) by {
            if x == top {
                assert(s[below.len() as int] == x);
            } else {
                assert(below.contains(x));
                let at = choose|at: int| 0 <= at < below.len() && below[at] == x;
                assert(s[at] == x);
            }
        }
    }
}

/// A strictly ascending list of exactly the members of `keys` below `bound`
/// is the list that `ascending_keys` gives.
pub proof fn lemma_ascending_is_unique(s: Seq<i32>, keys: Set<i32>, bound: int)
    requires
        i32::MIN <= bound <= i32::MAX + 1,
        forall|j: int| 0 <= j < s.len() ==> keys.contains(#[trigger] s[j]) && s[j] < bound,
        forall|i: int, j: int| 0 <= i < j < s.len() ==> s[i] < s[j],
        forall|x: i32| keys.contains(x) && x < bound ==> s.contains(x),
    ensures
        s == ascending_keys(keys, bound),
    decreases bound - i32::MIN,
{
    if bound <= i32::MIN {
        if s.len() > 0 {
            assert(s[0] < bound);
        }
        assert(s =~= Seq::<i32>::empty());
    } else {
        let top = (bound - 1) as i32;
        if keys.contains(top) {
            assert(s.contains(top));
            let at = choose|at: int| 0 <= at < s.len() && s[at] == top;
            if at < s.len() - 1 {
                assert(s[at] < s[s.len() - 1]);
                assert(s[s.len() - 1] < bound);
            }
            let front = s.drop_last();
            assert forall|x: i32| keys.contains(x) && x < bound - 1 implies front.contains(x) by {
                assert(s.contains(x));
                let place = choose|place: int| 0 <= place < s.len() && s[place] == x;
                assert(front[place] == x);
            }
            assert forall|j: int| 0 <= j < front.len() implies keys.contains(#[trigger] front[j])
                && front[j] < bound - 1 by {
                assert(front[j] == s[j]);
                assert(s[j] < s[s.len() - 1]);
            }
            lemma_ascending_is_unique(front, keys, bound - 1);
            assert(s =~= front.push(top));
        } else {
            assert forall|j: int| 0 <= j < s.len() implies keys.contains(#[trigger] s[j]) && s[j]
                < bound - 1 by {
                assert(keys.contains(s[j]) && s[j] < bound);
            }
            lemma_ascending_is_unique(s, keys, bound - 1);
        }
    }
}

/// Of shares chosen among those that `polys` give: they stand at distinct
/// points, one for each index, have the length of `polys`, and hold the
/// values of the polynomials at their points.
proof fn lemma_chosen_shares(polys: Seq<Seq<u8>>, n: int, chosen: Map<i32, Seq<u8>>)
    requires
        n <= 255,
        chosen.submap_of(shares_of(polys, n)),
    ensures
        share_indices(chosen).len() == chosen.dom().len(),
        share_abscissas(chosen).len() == share_indices(chosen).len(),
        distinct(share_abscissas(chosen)),
        consistent_lengths(chosen),
        !chosen.dom().is_empty() ==> share_indices(chosen).len() > 0 && share_length(chosen)
            == polys.len(),
        forall|i: int, j: int|
            0 <= i < polys.len() && 0 <= j < share_indices(chosen).len() ==> (
            #[trigger] share_ordinates(chosen, i)[j]) == poly_eval(
                polys[i],
                share_abscissas(chosen)[j],
            ),
{
    let shares = shares_of(polys, n);
    let indices = share_indices(chosen);
    let xs = share_abscissas(chosen);
    lemma_ascending_keys(chosen.dom(), i32::MAX + 1);
    assert forall|x: i32| #[trigger] chosen.contains_key(x) implies 1 <= x <= n && chosen[x]
        == share_of(polys, x as u8) by {
        assert(chosen.dom().contains(x));
        assert(shares.dom().contains(x));
    }
    assert forall|j: int| 0 <= j < indices.len() implies 1 <= #[trigger] indices[j] <= n
        && chosen.contains_key(indices[j]) && xs[j] == indices[j] by {
        assert(chosen.contains_key(indices[j]));
    }
    assert forall|i: int, j: int| 0 <= i < j < xs.len() implies xs[i] != xs[j] by {
        assert(indices[i] < indices[j]);
    }
    assert(indices.no_duplicates());
    assert(indices.to_set() =~= chosen.dom()) by {
        assert forall|x: i32| chosen.dom().contains(x) implies indices.to_set().contains(x) by {
            assert(indices.contains(x));
        }
    }
    indices.unique_seq_to_set();
    if !chosen.dom().is_empty() {
        let x = choose|x: i32| chosen.dom().contains(x);
        assert(chosen.dom().contains(x));
        assert(indices.contains(x));
        assert(chosen.contains_key(indices[0]));
    }
    assert forall|i: int, j: int| 0 <= i < polys.len() && 0 <= j < indices.len() implies (
    #[trigger] share_ordinates(chosen, i)[j]) == poly_eval(polys[i], xs[j]) by {
        assert(chosen.contains_key(indices[j]));
    }
}

/// Any nonempty choice among the shares of a secret can be joined: the join
/// gives some bytes, as many as the secret has, however few shares were chosen.
pub proof fn lemma_join_of_shares_succeeds(
    shares: Map<i32, Seq<u8>>,
    n: int,
    k: int,
    secret: Seq<u8>,
    chosen: Map<i32, Seq<u8>>,
)
    requires
        1 < k <= n <= 255,
        is_sharing(shares, n, k, secret),
        chosen.submap_of(shares),
        !chosen.dom().is_empty(),
    ensures
        join_outcome(chosen) is Ok,
        join_outcome(chosen)->Ok_0.len() == secret.len(),
{
    let polys = choose|polys: Seq<Seq<u8>>| hides(polys, k, secret) && shares == shares_of(polys, n);
    lemma_chosen_shares(polys, n, chosen);
}

/// Round trip: joining at least `k` of the shares of a secret that was split
/// with the threshold `k` gives the secret back.
pub proof fn lemma_round_trip(
    shares: Map<i32, Seq<u8>>,
    n: int,
    k: int,
    secret: Seq<u8>,
    chosen: Map<i32, Seq<u8>>,
)
    requires
        1 < k <= n <= 255,
        is_sharing(shares, n, k, secret),
        chosen.submap_of(shares),
        chosen.dom().len() >= k,
    ensures
        join_outcome(chosen) == Ok::<Seq<u8>, ShamirError>(secret),
{
    let polys = choose|polys: Seq<Seq<u8>>| hides(polys, k, secret) && shares == shares_of(polys, n);
    lemma_chosen_shares(polys, n, chosen);
    let indices = share_indices(chosen);
    let xs = share_abscissas(chosen);
    lemma_ascending_keys(chosen.dom(), i32::MAX + 1);
    assert(chosen.dom().contains(indices[0]));
    assert(!chosen.dom().is_empty());
    assert forall|i: int| 0 <= i < secret.len() implies interpolate_at_zero(
        xs,
        share_ordinates(chosen, i),
    ) == secret[i] by {
        let ys = share_ordinates(chosen, i);
        assert(is_sharing_polynomial(polys[i], k, secret[i]));
        assert forall|j: int| 0 <= j < xs.len() implies ys[j] == poly_eval(polys[i], xs[j]) by {
            assert(share_ordinates(chosen, i)[j] == poly_eval(polys[i], xs[j]));
        }
        lemma_interpolation_is_exact(xs, ys, polys[i]);
        lemma_eval_at_zero(polys[i]);
    }
    assert(join_outcome(chosen)->Ok_0 =~= secret);
}

/// Subset invariance: any two choices of `k` shares of one secret that was
/// split with the threshold `k` join to the same bytes.
pub proof fn lemma_subset_invariance(
    shares: Map<i32, Seq<u8>>,
    n: int,
    k: int,
    secret: Seq<u8>,
    first: Map<i32, Seq<u8>>,
    second: Map<i32, Seq<u8>>,
)
    requires
        1 < k <= n <= 255,
        is_sharing(shares, n, k, secret),
        first.submap_of(shares),
        second.submap_of(shares),
        first.dom().len() == k,
        second.dom().len() == k,
    ensures
        join_outcome(first) == join_outcome(second),
{
    lemma_round_trip(shares, n, k, secret, first);
    lemma_round_trip(shares, n, k, secret, second);
}

} // verus!

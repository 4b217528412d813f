use crate::error::ShamirError;
use crate::field::GFC256;
use crate::lagrange::{abscissas, distinct, interpolate_at_zero, ordinates};
use crate::polynomial::{is_sharing_polynomial, poly_eval};
use crate::sharing::{
    hides, index_byte, is_sharing, join_outcome, lemma_ascending_is_unique, lemma_ascending_keys,
    share_abscissas, share_indices, share_length, share_of, share_ordinates, shares_of,
    split_refusal,
};
use std::collections::BTreeMap;
use vstd::prelude::*;
use vstd::std_specs::btree::{axiom_increasing_seq_meaning, increasing_seq};
use vstd::std_specs::cmp::OrdSpec;
use vstd::std_specs::iter::IteratorSpec;

verus! {

/// The shares of a map from index to bytes, each as the sequence of its bytes.
pub open spec fn shares_view(shares: Map<i32, Vec<u8>>) -> Map<i32, Seq<u8>> {
    Map::new(|x: i32| shares.contains_key(x), |x: i32| shares[x]@)
}

/// The polynomials of a list, each as the sequence of its coefficients.
pub open spec fn polynomials_view(polys: Seq<Vec<u8>>) -> Seq<Seq<u8>> {
    Seq::new(polys.len(), |i: int| polys[i]@)
}

/// Shamir's secret sharing over GF(256): a secret is split into shares of
/// which any `k` give it back.
#[derive(Debug, Clone, Copy)]
pub struct ShamirSS;

proof fn lemma_increasing_is_ascending(indices: Seq<i32>)
    requires
        increasing_seq(indices),
    ensures
        forall|i: int, j: int| 0 <= i < j < indices.len() ==> indices[i] < indices[j],
{
    axiom_increasing_seq_meaning(indices);
    assert forall|i: int, j: int| 0 <= i < j < indices.len() implies indices[i] < indices[j] by {
        assert(indices[i].cmp_spec(&indices[j]) is Less);
    }
}

/// The indices of the shares in ascending order, and the shares in the order
/// of their indices.
fn ordered_shares<'a>(parts: &'a BTreeMap<i32, Vec<u8>>) -> (ordered: (
    Vec<i32>,
    Vec<&'a Vec<u8>>,
))
    ensures
        ordered.0@ == share_indices(shares_view(parts@)),
        ordered.1@.len() == ordered.0@.len(),
        forall|j: int|
            0 <= j < ordered.0@.len() ==> parts@.contains_key(#[trigger] ordered.0@[j])
                && ordered.1@[j]@ == parts@[ordered.0@[j]]@,
{
    let mut indices: Vec<i32> = Vec::new();
    let mut rows: Vec<&Vec<u8>> = Vec::new();
    let ghost all = parts.iter().remaining();
    for entry in it: parts.iter()
        invariant
            it.seq() == all,
            all == parts.iter().remaining(),
            increasing_seq(all.map_values(|kv: (&i32, &Vec<u8>)| *kv.0)),
            indices@.len() == it.index(),
            rows@.len() == it.index(),
            forall|j: int|
                0 <= j < indices@.len() ==> indices@[j] == *(#[trigger] all[j]).0 && rows@[j]
                    == all[j].1,
    {
        indices.push(*entry.0);
        rows.push(entry.1);
    }
    proof {
        let view = shares_view(parts@);
        let keys = all.map_values(|kv: (&i32, &Vec<u8>)| *kv.0);
        lemma_increasing_is_ascending(keys);
        assert forall|j: int| 0 <= j < indices@.len() implies parts@.contains_key(
            #[trigger] indices@[j],
        ) && rows@[j]@ == parts@[indices@[j]]@ by {
            assert(parts@.contains_key(*all[j].0));
            assert(parts@[*all[j].0] == *all[j].1);
        }
        assert forall|i: int, j: int| 0 <= i < j < indices@.len() implies indices@[i]
            < indices@[j] by {
            assert(keys[i] == indices@[i]);
            assert(keys[j] == indices@[j]);
        }
        assert forall|x: i32| view.dom().contains(x) implies indices@.contains(x) by {
            assert(parts@.contains_key(x));
            let pair = (&x, &parts@[x]);
            assert(all.contains(pair));
            let at = choose|at: int| 0 <= at < all.len() && all[at] == pair;
            assert(indices@[at] == x);
        }
        assert forall|j: int| 0 <= j < indices@.len() implies view.dom().contains(
            #[trigger] indices@[j],
        ) && indices@[j] < i32::MAX + 1 by {
            assert(parts@.contains_key(indices@[j]));
        }
        lemma_ascending_is_unique(indices@, view.dom(), i32::MAX + 1);
    }
    (indices, rows)
}

/// The point of the field at which the share with the given index stands.
fn index_point(index: i32) -> (point: u8)
    ensures
        point == index_byte(index),
{
    #[verifier::truncate]
    (index as u8)
}

impl ShamirSS {
    /// Evaluates each polynomial at the points 1 to `n` and gathers, for each
    /// point, the values into the share with that index.
    pub fn shares_from_polynomials(n: i32, polys: &Vec<Vec<u8>>) -> (shares: BTreeMap<
        i32,
        Vec<u8>,
    >)
        requires
            n <= 255,
        ensures
            shares_view(shares@) == shares_of(polynomials_view(polys@), n as int),
    {
        let ghost coefficients = polynomials_view(polys@);
        let mut shares: BTreeMap<i32, Vec<u8>> = BTreeMap::new();
        let mut x: i32 = 1;
        assert(shares_view(shares@) =~= shares_of(coefficients, 0));
        while x <= n
            invariant
                n <= 255,
                1 <= x,
                x <= n + 1 || x == 1,
                coefficients == polynomials_view(polys@),
                shares_view(shares@) == shares_of(coefficients, x - 1),
            decreases n + 1 - x,
        {
            let point: u8 = x as u8;
            let mut share: Vec<u8> = Vec::new();
            for i in 0..polys.len()
                invariant
                    coefficients == polynomials_view(polys@),
                    share@.len() == i,
                    forall|j: int|
                        0 <= j < i ==> share@[j] == poly_eval(#[trigger] coefficients[j], point),
            {
                let value = GFC256::eval(polys[i].as_slice(), point);
                share.push(value);
            }
            let ghost before = shares_view(shares@);
            let ghost values = share@;
            shares.insert(x, share);
            proof {
                let after = shares_view(shares@);
                assert(values =~= share_of(coefficients, point));
                assert forall|y: i32| after.contains_key(y) <==> 1 <= y <= x by {
                    assert(before.contains_key(y) <==> 1 <= y <= x - 1);
                }
                assert forall|y: i32| 1 <= y <= x implies after[y] == shares_of(
                    coefficients,
                    x as int,
                )[y] by {
                    if y != x {
                        assert(before.contains_key(y));
                        assert(before[y] == shares_of(coefficients, x - 1)[y]);
                    }
                }
                assert(after =~= shares_of(coefficients, x as int));
            }
            x += 1;
        }
        proof {
            if n < 1 {
                assert(shares_of(coefficients, x - 1) =~= shares_of(coefficients, n as int));
            }
        }
        shares
    }

    /// Splits `secret` into `n` shares, any `k` of which give it back.
    ///
    /// Each byte of the secret becomes the constant term of a polynomial of
    /// degree `k - 1` whose other coefficients are drawn at random; the share
    /// with the index `x` holds the values of these polynomials at `x`.
    pub fn split(n: i32, k: i32, secret: Vec<u8>) -> (shares: Result<
        BTreeMap<i32, Vec<u8>>,
        ShamirError,
    >)
        ensures
            match shares {
                Ok(parts) => {
                    &&& split_refusal(n as int, k as int, secret@.len() as int) is None
                    &&& is_sharing(shares_view(parts@), n as int, k as int, secret@)
                    &&& forall|x: i32| parts@.contains_key(x) <==> 1 <= x <= n
                    &&& forall|x: i32|
                        1 <= x <= n ==> (#[trigger] parts@[x])@.len() == secret@.len()
                },
                Err(error) => split_refusal(n as int, k as int, secret@.len() as int) == Some(
                    error,
                ),
            },
    {
        if k <= 1 {
            return Err(ShamirError::InvalidThreshold);
        }
        if n < k {
            return Err(ShamirError::InsufficientTotalShares);
        }
        if n > 255 {
            return Err(ShamirError::TooManyShares);
        }
        if secret.is_empty() {
            return Err(ShamirError::EmptySecret);
        }
        let degree: i32 = k - 1;
        let mut rng = rand::rng();
        let mut polys: Vec<Vec<u8>> = Vec::new();
        for i in 0..secret.len()
            invariant
                degree == k - 1,
                1 < k <= 255,
                polys@.len() == i,
                forall|j: int|
                    0 <= j < i ==> is_sharing_polynomial(
                        (#[trigger] polys@[j])@,
                        k as int,
                        secret@[j],
                    ),
        {
            let p = GFC256::generate(degree, secret[i], &mut rng);
            polys.push(p);
        }
        let parts = Self::shares_from_polynomials(n, &polys);
        proof {
            let coefficients = polynomials_view(polys@);
            assert forall|i: int| 0 <= i < coefficients.len() implies is_sharing_polynomial(
                #[trigger] coefficients[i],
                k as int,
                secret@[i],
            ) by {
                assert(is_sharing_polynomial(polys@[i]@, k as int, secret@[i]));
            }
            assert(hides(coefficients, k as int, secret@));
            let view = shares_view(parts@);
            assert forall|x: i32| parts@.contains_key(x) <==> 1 <= x <= n by {
                assert(view.contains_key(x) <==> 1 <= x <= n);
            }
            assert forall|x: i32| 1 <= x <= n implies (#[trigger] parts@[x])@.len()
                == secret@.len() by {
                assert(view.contains_key(x));
                assert(view[x] == share_of(coefficients, x as u8));
            }
        }
        Ok(parts)
    }

    /// Joins shares into the secret that they were split from.
    ///
    /// The threshold of the split is not known here: any number of shares is
    /// joined, and fewer than the threshold give bytes that are not the secret.
    #[verifier::loop_isolation(false)]
    pub fn join(parts: BTreeMap<i32, Vec<u8>>) -> (secret: Result<Vec<u8>, ShamirError>)
        ensures
            match join_outcome(shares_view(parts@)) {
                Ok(bytes) => secret is Ok && secret->Ok_0@ == bytes,
                Err(error) => secret == Err::<Vec<u8>, ShamirError>(error),
            },
    {
        let ghost view = shares_view(parts@);
        if parts.is_empty() {
            assert(view.dom() =~= Set::<i32>::empty());
            return Err(ShamirError::NoPartsProvided);
        }
        let (indices, rows) = ordered_shares(&parts);
        let count: usize = indices.len();
        proof {
            lemma_ascending_keys(view.dom(), i32::MAX + 1);
            let x = choose|x: i32| parts@.dom().contains(x);
            assert(view.dom().contains(x));
            assert(indices@.contains(x));
            assert(view.contains_key(indices@[0]));
        }
        let secret_len: usize = rows[0].len();
        for j in 1..count
            invariant
                forall|t: int| 0 <= t < j ==> (#[trigger] rows@[t])@.len() == secret_len,
        {
            if rows[j].len() != secret_len {
                proof {
                    assert(view.contains_key(indices@[0]));
                    assert(view.contains_key(indices@[j as int]));
                    assert(view[indices@[j as int]].len() != view[indices@[0]].len());
                }
                return Err(ShamirError::InconsistentShareLength);
            }
        }
        proof {
            assert forall|x: i32, y: i32|
                view.contains_key(x) && view.contains_key(y) implies view[x].len()
                == view[y].len() by {
                assert(indices@.contains(x));
                assert(indices@.contains(y));
                let at_x = choose|at: int| 0 <= at < indices@.len() && indices@[at] == x;
                let at_y = choose|at: int| 0 <= at < indices@.len() && indices@[at] == y;
                assert(rows@[at_x]@.len() == secret_len);
                assert(rows@[at_y]@.len() == secret_len);
            }
            assert(share_length(view) == secret_len);
        }
        let mut secret: Vec<u8> = Vec::new();
        for i in 0..secret_len
            invariant
                secret@.len() == i,
                i > 0 ==> distinct(share_abscissas(view)),
                forall|t: int|
                    0 <= t < i ==> #[trigger] secret@[t] == interpolate_at_zero(
                        share_abscissas(view),
                        share_ordinates(view, t),
                    ),
        {
            let mut points: Vec<Vec<u8>> = Vec::new();
            for j in 0..count
                invariant
                    points@.len() == j,
                    forall|t: int|
                        0 <= t < j ==> (#[trigger] points@[t])@ == seq![
                            index_byte(indices@[t]),
                            rows@[t]@[i as int],
                        ],
            {
                let row: &Vec<u8> = rows[j];
                let point: Vec<u8> = vec![index_point(indices[j]), row[i]];
                points.push(point);
            }
            proof {
                assert(abscissas(points@) =~= share_abscissas(view));
                assert(ordinates(points@) =~= share_ordinates(view, i as int));
            }
            match GFC256::interpolate(points) {
                Ok(byte) => {
                    secret.push(byte);
                },
                Err(error) => {
                    return Err(error);
                },
            }
        }
        proof {
            assert(secret@ =~= join_outcome(view)->Ok_0);
        }
        Ok(secret)
    }
}

} // verus!

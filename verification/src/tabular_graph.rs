//! The signed cycle pool built from tabular features: once the simple cycles of the
//! signed kNN graph are enumerated, each cycle is laid out flat with, per corner, the
//! sign of the edge to the next corner (the cycle closes on its first corner).
//!
//! Edge signs are looked up by ordered vertex pair: every edge registers its sign under
//! both orientations, a later edge overriding an earlier one, and a step between two
//! vertices that no edge joins counts as `+1`.
use std::collections::HashMap;
use vstd::prelude::*;

verus! {

/// The key of the ordered vertex pair `(a, b)`: `a * 2^32 + b`, distinct for distinct
/// pairs.
pub open spec fn pair_key(a: u32, b: u32) -> u64 {
    (a * 4294967296int + b) as u64
}

/// The key of the ordered vertex pair `(a, b)`.
fn pair_key_of(a: u32, b: u32) -> (r: u64)
    ensures
        r == pair_key(a, b),
        r == a * 4294967296int + b,
{
    (a as u64) * 4294967296u64 + (b as u64)
}

/// The sign table after the first `m` edges `(eu[e], ev[e])` with signs `es[e]`.
pub open spec fn sign_table(eu: Seq<u32>, ev: Seq<u32>, es: Seq<i8>, m: int) -> Map<u64, i8>
    decreases m,
{
    if m <= 0 {
        Map::empty()
    } else {
        sign_table(eu, ev, es, m - 1).insert(pair_key(eu[m - 1], ev[m - 1]), es[m - 1]).insert(
            pair_key(ev[m - 1], eu[m - 1]),
            es[m - 1],
        )
    }
}

/// The sign of the step `a -> b` under table `t`: the registered sign, `+1` for a pair
/// that no edge joins.
pub open spec fn step_sign(t: Map<u64, i8>, a: u32, b: u32) -> i8 {
    if t.contains_key(pair_key(a, b)) {
        t[pair_key(a, b)]
    } else {
        1
    }
}

/// Lay out `cycles` (each at least `cycle_k` vertices long; its first `cycle_k` are its
/// corners) flat, with the sign of each corner's step to the next corner under the
/// signed edges `(eu[e], ev[e], esign[e])`: entry `c * cycle_k + i` holds corner `i` of
/// cycle `c` and the sign of the step from it to corner `(i + 1) % cycle_k`.
pub fn signed_cycle_pool(
    cycles: &Vec<Vec<u32>>,
    cycle_k: usize,
    eu: &Vec<u32>,
    ev: &Vec<u32>,
    esign: &Vec<i8>,
) -> (r: (Vec<u32>, Vec<i8>))
    requires
        cycle_k >= 1,
        eu@.len() == ev@.len(),
        eu@.len() == esign@.len(),
        forall|c: int| 0 <= c < cycles@.len() ==> (#[trigger] cycles@[c])@.len() >= cycle_k,
        cycles@.len() * cycle_k <= usize::MAX,
    ensures
        r.0@.len() == cycles@.len() * cycle_k,
        r.1@.len() == cycles@.len() * cycle_k,
        forall|c: int, i: int|
            0 <= c < cycles@.len() && 0 <= i < cycle_k ==> {
                &&& #[trigger] r.0@[c * cycle_k + i] == cycles@[c]@[i]
                &&& r.1@[c * cycle_k + i] == step_sign(
                    sign_table(eu@, ev@, esign@, eu@.len() as int),
                    cycles@[c]@[i],
                    cycles@[c]@[(i + 1) % (cycle_k as int)],
                )
            },
{
    broadcast use vstd::std_specs::hash::group_hash_axioms;
    let ne = eu.len();
    let mut table: HashMap<u64, i8> = HashMap::new();
    for e in 0..ne
        invariant
            ne == eu@.len(),
            ne == ev@.len(),
            ne == esign@.len(),
            table@ == sign_table(eu@, ev@, esign@, e as int),
    {
        let s = esign[e];
        let k1 = pair_key_of(eu[e], ev[e]);
        let k2 = pair_key_of(ev[e], eu[e]);
        table.insert(k1, s);
        table.insert(k2, s);
    }
    let ghost t = sign_table(eu@, ev@, esign@, ne as int);
    let m = cycles.len();
    let mut flat: Vec<u32> = Vec::new();
    let mut signs: Vec<i8> = Vec::new();
    assert(0 * cycle_k == 0) by (nonlinear_arith);
    for c in 0..m
        invariant
            m == cycles@.len(),
            cycle_k >= 1,
            m * cycle_k <= usize::MAX,
            table@ == t,
            forall|cc: int| 0 <= cc < cycles@.len() ==> (#[trigger] cycles@[cc])@.len() >= cycle_k,
            flat@.len() == c * cycle_k,
            signs@.len() == c * cycle_k,
            forall|cc: int, i: int|
                0 <= cc < c && 0 <= i < cycle_k ==> {
                    &&& #[trigger] flat@[cc * cycle_k + i] == cycles@[cc]@[i]
                    &&& signs@[cc * cycle_k + i] == step_sign(
                        t,
                        cycles@[cc]@[i],
                        cycles@[cc]@[(i + 1) % (cycle_k as int)],
                    )
                },
    {
        let cyc = &cycles[c];
        proof {
            assert((c + 1) * cycle_k <= m * cycle_k) by (nonlinear_arith)
                requires
                    c + 1 <= m,
            ;
            assert((c + 1) * cycle_k == c * cycle_k + cycle_k) by (nonlinear_arith);
        }
        for i in 0..cycle_k
            invariant
                c < m,
                m == cycles@.len(),
                cycle_k >= 1,
                (c + 1) * cycle_k <= usize::MAX,
                (c + 1) * cycle_k == c * cycle_k + cycle_k,
                cyc@ == cycles@[c as int]@,
                cyc@.len() >= cycle_k,
                table@ == t,
                flat@.len() == c * cycle_k + i,
                signs@.len() == c * cycle_k + i,
                forall|cc: int, j: int|
                    0 <= cc < c && 0 <= j < cycle_k ==> {
                        &&& #[trigger] flat@[cc * cycle_k + j] == cycles@[cc]@[j]
                        &&& signs@[cc * cycle_k + j] == step_sign(
                            t,
                            cycles@[cc]@[j],
                            cycles@[cc]@[(j + 1) % (cycle_k as int)],
                        )
                    },
                forall|j: int|
                    0 <= j < i ==> {
                        &&& #[trigger] flat@[c * cycle_k + j] == cycles@[c as int]@[j]
                        &&& signs@[c * cycle_k + j] == step_sign(
                            t,
                            cycles@[c as int]@[j],
                            cycles@[c as int]@[(j + 1) % (cycle_k as int)],
                        )
                    },
        {
            let a = cyc[i];
            let b = cyc[(i + 1) % cycle_k];
            let key = pair_key_of(a, b);
            let s = match table.get(&key) {
                Some(v) => *v,
                None => 1,
            };
            proof {
                assert(b == cycles@[c as int]@[(i + 1) % (cycle_k as int)]);
                assert(s == step_sign(t, a, b));
            }
            let ghost old_flat = flat@;
            let ghost old_signs = signs@;
            flat.push(a);
            signs.push(s);
            proof {
                assert(flat@[c * cycle_k + i] == a);
                assert(signs@[c * cycle_k + i] == s);
                assert forall|j: int| 0 <= j < i implies #[trigger] flat@[c * cycle_k + j] == old_flat[c * cycle_k + j]
                    && signs@[c * cycle_k + j] == old_signs[c * cycle_k + j] by {}
                assert forall|cc: int, j: int| 0 <= cc < c && 0 <= j < cycle_k implies {
                    &&& #[trigger] flat@[cc * cycle_k + j] == cycles@[cc]@[j]
                    &&& signs@[cc * cycle_k + j] == step_sign(
                        t,
                        cycles@[cc]@[j],
                        cycles@[cc]@[(j + 1) % (cycle_k as int)],
                    )
                } by {
                    assert(cc * cycle_k + j < c * cycle_k) by (nonlinear_arith)
                        requires
                            0 <= cc < c,
                            0 <= j < cycle_k,
                    ;
                    assert(flat@[cc * cycle_k + j] == old_flat[cc * cycle_k + j]);
                    assert(signs@[cc * cycle_k + j] == old_signs[cc * cycle_k + j]);
                }
            }
        }
        proof {
            assert forall|cc: int, j: int| 0 <= cc < c + 1 && 0 <= j < cycle_k implies {
                &&& #[trigger] flat@[cc * cycle_k + j] == cycles@[cc]@[j]
                &&& signs@[cc * cycle_k + j] == step_sign(
                    t,
                    cycles@[cc]@[j],
                    cycles@[cc]@[(j + 1) % (cycle_k as int)],
                )
            } by {
                if cc == c {
                    assert(flat@[c * cycle_k + j] == cycles@[c as int]@[j]);
                }
            }
        }
    }
    (flat, signs)
}

} // verus!

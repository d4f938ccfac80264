//! Generated point-set tasks: the task names and the index logic of minibatch gathering
//! and of the within-sample point-order shuffle.
//!
//! A dataset is flat `x (samples, points, 2)` with labels `y (samples)`; the functions
//! here are generic in the coordinate type.
use vstd::prelude::*;
use vstd::string::StringExecFns;

verus! {

/// `rand::rngs::StdRng`, the seeded generator of the shuffle.
#[verifier::external_type_specification]
#[verifier::external_body]
pub struct ExStdRng(rand::rngs::StdRng);

/// Calls `SeedableRng::seed_from_u64`: a generator seeded from `seed`. Nothing is stated
/// of the generator's state.
#[verifier::external_body]
fn seeded_rng(seed: u64) -> rand::rngs::StdRng {
    <rand::rngs::StdRng as rand::SeedableRng>::seed_from_u64(seed)
}

/// Calls `SliceRandom::shuffle` on `v`: the contract claims only that the items are
/// permuted (same length, same multiset); which permutation comes out depends on the
/// generator and is not stated.
#[verifier::external_body]
fn shuffle_in_place(v: &mut Vec<usize>, rng: &mut rand::rngs::StdRng)
    ensures
        final(v)@.len() == old(v)@.len(),
        final(v)@.to_multiset() == old(v)@.to_multiset(),
{
    rand::seq::SliceRandom::shuffle(v.as_mut_slice(), rng);
}

/// The generated point-set tasks.
#[derive(Clone, Copy, Debug, Eq, PartialEq, Structural)]
pub enum Task {
    Moons,
    Spiral,
    Xor,
}

impl Task {
    /// The task's name.
    pub open spec fn spec_name(self) -> Seq<char> {
        match self {
            Task::Moons => "moons"@,
            Task::Spiral => "spiral"@,
            Task::Xor => "xor"@,
        }
    }

    /// The task's name: `moons`, `spiral` or `xor`.
    pub fn as_str(self) -> (s: &'static str)
        ensures
            s@ == self.spec_name(),
    {
        match self {
            Task::Moons => "moons",
            Task::Spiral => "spiral",
            Task::Xor => "xor",
        }
    }

    /// The task named `value`, if any: `parse(t.as_str())` is `Some(t)` for every task.
    pub fn parse(value: &str) -> (r: Option<Task>)
        ensures
            forall|t: Task| r == Some(t) <==> t.spec_name() == value@,
    {
        proof {
            lemma_task_names_distinct();
        }
        let v = value.to_owned();
        if v == "moons".to_owned() {
            proof {
                assert forall|t: Task| (Some(Task::Moons) == Some(t)) <==> t.spec_name() == value@ by {
                    assert(Task::Moons.spec_name() == value@);
                    if t.spec_name() == value@ {
                        assert(t.spec_name() == Task::Moons.spec_name());
                    }
                }
            }
            Some(Task::Moons)
        } else if v == "spiral".to_owned() {
            proof {
                assert forall|t: Task| (Some(Task::Spiral) == Some(t)) <==> t.spec_name() == value@ by {
                    assert(Task::Spiral.spec_name() == value@);
                    if t.spec_name() == value@ {
                        assert(t.spec_name() == Task::Spiral.spec_name());
                    }
                }
            }
            Some(Task::Spiral)
        } else if v == "xor".to_owned() {
            proof {
                assert forall|t: Task| (Some(Task::Xor) == Some(t)) <==> t.spec_name() == value@ by {
                    assert(Task::Xor.spec_name() == value@);
                    if t.spec_name() == value@ {
                        assert(t.spec_name() == Task::Xor.spec_name());
                    }
                }
            }
            Some(Task::Xor)
        } else {
            proof {
                assert forall|t: Task| t.spec_name() != value@ by {
                    match t {
                        Task::Moons => {},
                        Task::Spiral => {},
                        Task::Xor => {},
                    }
                }
            }
            None
        }
    }
}

/// Distinct tasks have distinct names.
proof fn lemma_task_names_distinct()
    ensures
        forall|a: Task, b: Task| a.spec_name() == b.spec_name() ==> a == b,
{
    reveal_strlit("moons");
    reveal_strlit("spiral");
    reveal_strlit("xor");
    assert("moons"@ != "spiral"@ && "moons"@ != "xor"@ && "spiral"@ != "xor"@) by {
        assert("moons"@.len() == 5 && "spiral"@.len() == 6 && "xor"@.len() == 3);
        assert("moons"@[0] != "xor"@[0]);
    }
}

/// The message of a failed parse: `unknown task '<value>'`.
pub open spec fn unknown_task_message(value: Seq<char>) -> Seq<char> {
    "unknown task '"@ + value + "'"@
}

impl std::str::FromStr for Task {
    type Err = String;

    fn from_str(value: &str) -> (r: Result<Self, Self::Err>)
        ensures
            forall|t: Task| r == Ok::<Task, String>(t) <==> t.spec_name() == value@,
            r matches Err(msg) ==> (forall|t: Task| t.spec_name() != value@) && msg@
                == unknown_task_message(value@),
    {
        match Task::parse(value) {
            Some(t) => Ok(t),
            None => {
                let mut msg = "unknown task '".to_owned();
                msg.append(value);
                msg.append("'");
                Err(msg)
            },
        }
    }
}

/// Flat index of coordinate `c` of point `p` of sample `s` (`points` per sample).
pub open spec fn coord_index(s: int, p: int, c: int, points: int) -> int {
    (s * points + p) * 2 + c
}

proof fn lemma_coord_index(s: int, p: int, c: int, points: int, samples: int)
    requires
        0 <= s < samples,
        0 <= p < points,
        0 <= c < 2,
    ensures
        0 <= coord_index(s, p, c, points) < samples * points * 2,
        coord_index(s, p, c, points) / 2 == s * points + p,
        coord_index(s, p, c, points) % 2 == c,
        (s * points + p) / points == s,
        (s * points + p) % points == p,
{
    assert(0 <= s * points + p < samples * points) by (nonlinear_arith)
        requires
            0 <= s < samples,
            0 <= p < points,
    ;
    assert(samples * points * 2 == (samples * points) * 2);
    vstd::arithmetic::div_mod::lemma_fundamental_div_mod_converse(
        coord_index(s, p, c, points),
        2,
        s * points + p,
        c,
    );
    vstd::arithmetic::div_mod::lemma_fundamental_div_mod_converse(s * points + p, points, s, p);
}

/// `perm` is a permutation of `0..n`.
pub open spec fn is_index_perm(perm: Seq<usize>, n: int) -> bool {
    perm.to_multiset() == Seq::new(n as nat, |i: int| i as usize).to_multiset()
}

/// Gather a minibatch of point sets by sample indices: row `i` of the result is sample
/// `indices[i]` of `(x, y)`.
pub fn gather_batch<T: Copy>(x: &Vec<T>, y: &Vec<usize>, points: usize, indices: &Vec<usize>) -> (r: (
    Vec<T>,
    Vec<usize>,
))
    requires
        x@.len() == y@.len() * points * 2,
        points * 2 <= usize::MAX,
        forall|i: int| 0 <= i < indices@.len() ==> #[trigger] indices@[i] < y@.len(),
    ensures
        r.0@.len() == indices@.len() * points * 2,
        r.1@.len() == indices@.len(),
        forall|i: int| 0 <= i < indices@.len() ==> #[trigger] r.1@[i] == y@[indices@[i] as int],
        forall|i: int, p: int, c: int|
            0 <= i < indices@.len() && 0 <= p < points && 0 <= c < 2 ==> #[trigger] r.0@[coord_index(
                i,
                p,
                c,
                points as int,
            )] == x@[coord_index(indices@[i] as int, p, c, points as int)],
{
    let ghost samples = y@.len() as int;
    let ghost pi = points as int;
    let row = points * 2;
    let xl = x.len();
    let mut bx: Vec<T> = Vec::new();
    let mut by: Vec<usize> = Vec::new();
    let n = indices.len();
    for i in 0..n
        invariant
            n == indices@.len(),
            xl == x@.len(),
            x@.len() == samples * pi * 2,
            samples == y@.len(),
            pi == points,
            row == points * 2,
            forall|t: int| 0 <= t < indices@.len() ==> #[trigger] indices@[t] < y@.len(),
            by@.len() == i,
            bx@.len() == i * row,
            forall|t: int| 0 <= t < i ==> #[trigger] by@[t] == y@[indices@[t] as int],
            forall|t: int, p: int, c: int|
                0 <= t < i && 0 <= p < points && 0 <= c < 2 ==> #[trigger] bx@[coord_index(
                    t,
                    p,
                    c,
                    pi,
                )] == x@[coord_index(indices@[t] as int, p, c, pi)],
    {
        let s = indices[i];
        proof {
            assert(s < samples);
            assert((s + 1) * row <= samples * row) by (nonlinear_arith)
                requires
                    s + 1 <= samples,
                    row >= 0,
            ;
            assert(samples * row == samples * pi * 2) by (nonlinear_arith)
                requires
                    row == pi * 2,
            ;
            assert(s * row + row == (s + 1) * row) by (nonlinear_arith);
        }
        let ghost before = bx@;
        let base = s * row;
        for k in 0..row
            invariant
                x@.len() == samples * pi * 2,
                s < samples,
                base == s * row,
                xl == x@.len(),
                base + row <= x@.len(),
                row == points * 2,
                pi == points,
                bx@.len() == before.len() + k,
                bx@.subrange(0, before.len() as int) == before,
                forall|u: int| 0 <= u < k ==> #[trigger] bx@[before.len() + u] == x@[base + u],
        {
            let ghost b2 = bx@;
            bx.push(x[base + k]);
            proof {
                assert(bx@.subrange(0, before.len() as int) =~= before) by {
                    assert(b2.subrange(0, before.len() as int) == before);
                }
                assert forall|u: int| 0 <= u < k + 1 implies #[trigger] bx@[before.len() + u] == x@[base
                    + u] by {
                    if u < k {
                        assert(bx@[before.len() + u] == b2[before.len() + u]);
                    }
                }
            }
        }
        by.push(y[s]);
        proof {
            assert(before.len() == i * row);
            assert(i * row + row == (i + 1) * row) by (nonlinear_arith);
            assert forall|t: int, p: int, c: int|
                0 <= t < i + 1 && 0 <= p < points && 0 <= c < 2 implies #[trigger] bx@[coord_index(
                    t,
                    p,
                    c,
                    pi,
                )] == x@[coord_index(indices@[t] as int, p, c, pi)] by {
                let u = p * 2 + c;
                assert(coord_index(t, p, c, pi) == t * row + u) by (nonlinear_arith)
                    requires
                        row == pi * 2,
                        u == p * 2 + c,
                ;
                assert(coord_index(indices@[t] as int, p, c, pi) == indices@[t] * row + u)
                    by (nonlinear_arith)
                    requires
                        row == pi * 2,
                        u == p * 2 + c,
                ;
                assert(0 <= u < row);
                if t < i {
                    assert(t * row + u < i * row) by (nonlinear_arith)
                        requires
                            t + 1 <= i,
                            0 <= u < row,
                    ;
                    assert(bx@[t * row + u] == bx@.subrange(0, before.len() as int)[t * row + u]);
                } else {
                    assert(bx@[before.len() + u] == x@[base + u]);
                }
            }
        }
    }
    proof {
        assert(n * row == n * pi * 2) by (nonlinear_arith)
            requires
                row == pi * 2,
        ;
    }
    (bx, by)
}

/// Reorder the points within every sample: point `d` of sample `s` of the result is
/// point `orders[s][d]` of sample `s` of `x`.
pub fn apply_point_orders<T: Copy>(
    x: &Vec<T>,
    samples: usize,
    points: usize,
    orders: &Vec<Vec<usize>>,
) -> (out: Vec<T>)
    requires
        x@.len() == samples * points * 2,
        orders@.len() == samples,
        forall|s: int| 0 <= s < samples ==> (#[trigger] orders@[s])@.len() == points,
        forall|s: int, d: int|
            0 <= s < samples && 0 <= d < points ==> #[trigger] orders@[s]@[d] < points,
    ensures
        out@.len() == x@.len(),
        forall|s: int, d: int, c: int|
            0 <= s < samples && 0 <= d < points && 0 <= c < 2 ==> #[trigger] out@[coord_index(
                s,
                d,
                c,
                points as int,
            )] == x@[coord_index(s, orders@[s]@[d] as int, c, points as int)],
{
    let ghost pi = points as int;
    let ghost si = samples as int;
    let mut out: Vec<T> = Vec::new();
    let total = x.len();
    let xl = total;
    for i in 0..total
        invariant
            total == x@.len(),
            out@.len() == i,
            forall|t: int| 0 <= t < i ==> #[trigger] out@[t] == x@[t],
    {
        out.push(x[i]);
    }
    for s in 0..samples
        invariant
            x@.len() == si * pi * 2,
            xl == x@.len(),
            si == samples,
            pi == points,
            out@.len() == x@.len(),
            orders@.len() == samples,
            forall|u: int| 0 <= u < samples ==> (#[trigger] orders@[u])@.len() == points,
            forall|u: int, d: int|
                0 <= u < samples && 0 <= d < points ==> #[trigger] orders@[u]@[d] < points,
            forall|u: int, d: int, c: int|
                0 <= u < s && 0 <= d < points && 0 <= c < 2 ==> #[trigger] out@[coord_index(
                    u,
                    d,
                    c,
                    pi,
                )] == x@[coord_index(u, orders@[u]@[d] as int, c, pi)],
            forall|q: int| 0 <= q < out@.len() && q / 2 / pi >= s ==> #[trigger] out@[q] == x@[q],
    {
        let order = &orders[s];
        for d in 0..points
            invariant
                x@.len() == si * pi * 2,
                xl == x@.len(),
                si == samples,
                pi == points,
                s < samples,
                out@.len() == x@.len(),
                order == orders@[s as int],
                order@.len() == points,
                forall|dd: int| 0 <= dd < points ==> #[trigger] order@[dd] < points,
                forall|u: int, dd: int, c: int|
                    0 <= u < s && 0 <= dd < points && 0 <= c < 2 ==> #[trigger] out@[coord_index(
                        u,
                        dd,
                        c,
                        pi,
                    )] == x@[coord_index(u, orders@[u]@[dd] as int, c, pi)],
                forall|dd: int, c: int|
                    0 <= dd < d && 0 <= c < 2 ==> #[trigger] out@[coord_index(s as int, dd, c, pi)]
                        == x@[coord_index(s as int, order@[dd] as int, c, pi)],
                forall|q: int|
                    0 <= q < out@.len() && (q / 2 / pi > s || (q / 2 / pi == s && q / 2 % pi >= d))
                        ==> #[trigger] out@[q] == x@[q],
        {
            let src_point = order[d];
            proof {
                assert(order@[d as int] < points);
                lemma_coord_index(s as int, d as int, 0, pi, si);
                lemma_coord_index(s as int, d as int, 1, pi, si);
                lemma_coord_index(s as int, src_point as int, 0, pi, si);
                lemma_coord_index(s as int, src_point as int, 1, pi, si);
            }
            let dst = (s * points + d) * 2;
            let src = (s * points + src_point) * 2;
            let ghost before = out@;
            out.set(dst, x[src]);
            out.set(dst + 1, x[src + 1]);
            proof {
                assert forall|u: int, dd: int, c: int|
                    0 <= u < s && 0 <= dd < points && 0 <= c < 2 implies #[trigger] out@[coord_index(
                        u,
                        dd,
                        c,
                        pi,
                    )] == x@[coord_index(u, orders@[u]@[dd] as int, c, pi)] by {
                    lemma_coord_index(u, dd, c, pi, si);
                    assert(out@[coord_index(u, dd, c, pi)] == before[coord_index(u, dd, c, pi)]);
                }
                assert forall|dd: int, c: int|
                    0 <= dd < d + 1 && 0 <= c < 2 implies #[trigger] out@[coord_index(s as int, dd, c, pi)]
                        == x@[coord_index(s as int, order@[dd] as int, c, pi)] by {
                    lemma_coord_index(s as int, dd, c, pi, si);
                    if dd < d {
                        assert(out@[coord_index(s as int, dd, c, pi)] == before[coord_index(
                            s as int,
                            dd,
                            c,
                            pi,
                        )]);
                    }
                }
                assert forall|q: int|
                    0 <= q < out@.len() && (q / 2 / pi > s || (q / 2 / pi == s && q / 2 % pi >= d
                        + 1)) implies #[trigger] out@[q] == x@[q] by {
                    assert(out@[q] == before[q]);
                }
            }
        }
        proof {
            assert forall|q: int| 0 <= q < out@.len() && q / 2 / pi >= s + 1 implies #[trigger] out@[q]
                == x@[q] by {}
            assert forall|u: int, dd: int, c: int|
                0 <= u < s + 1 && 0 <= dd < points && 0 <= c < 2 implies #[trigger] out@[coord_index(
                    u,
                    dd,
                    c,
                    pi,
                )] == x@[coord_index(u, orders@[u]@[dd] as int, c, pi)] by {
                if u == s {
                    assert(out@[coord_index(s as int, dd, c, pi)] == x@[coord_index(
                        s as int,
                        order@[dd] as int,
                        c,
                        pi,
                    )]);
                }
            }
        }
    }
    out
}

/// `0, 1, ..., n - 1`.
fn identity_order(n: usize) -> (v: Vec<usize>)
    ensures
        v@ == Seq::new(n as nat, |i: int| i as usize),
{
    let mut v: Vec<usize> = Vec::new();
    for i in 0..n
        invariant
            v@ == Seq::new(i as nat, |t: int| t as usize),
    {
        v.push(i);
        assert(v@ =~= Seq::new((i + 1) as nat, |t: int| t as usize));
    }
    v
}

/// The per-sample point orders of the shuffle seeded with `seed`: one generator shuffles a
/// single order vector once per sample, so sample `s` gets the order after `s + 1`
/// shuffles. Every order is a permutation of `0..points`; which one is up to the
/// generator and is not stated here.
pub fn point_orders(samples: usize, points: usize, seed: u64) -> (orders: Vec<Vec<usize>>)
    ensures
        orders@.len() == samples,
        forall|s: int| 0 <= s < samples ==> is_index_perm(#[trigger] orders@[s]@, points as int),
        forall|s: int| 0 <= s < samples ==> (#[trigger] orders@[s])@.len() == points,
{
    let mut rng = seeded_rng(seed);
    let mut order = identity_order(points);
    let ghost ident = order@;
    let mut orders: Vec<Vec<usize>> = Vec::new();
    for s in 0..samples
        invariant
            ident == Seq::new(points as nat, |i: int| i as usize),
            order@.to_multiset() == ident.to_multiset(),
            order@.len() == points,
            orders@.len() == s,
            forall|u: int| 0 <= u < s ==> is_index_perm(#[trigger] orders@[u]@, points as int),
            forall|u: int| 0 <= u < s ==> (#[trigger] orders@[u])@.len() == points,
    {
        shuffle_in_place(&mut order, &mut rng);
        let mut copy: Vec<usize> = Vec::new();
        for k in 0..points
            invariant
                order@.len() == points,
                copy@ == order@.take(k as int),
        {
            copy.push(order[k]);
            assert(copy@ =~= order@.take(k + 1));
        }
        assert(copy@ =~= order@);
        orders.push(copy);
    }
    orders
}

/// Every entry of a permutation of `0..n` is below `n`.
proof fn lemma_perm_entries(perm: Seq<usize>, n: int, d: int)
    requires
        is_index_perm(perm, n),
        0 <= d < perm.len(),
        n >= 0,
    ensures
        perm[d] < n,
{
    let ident = Seq::new(n as nat, |i: int| i as usize);
    vstd::seq_lib::lemma_seq_contains_after_push(perm, perm[d], perm[d]);
    perm.to_multiset_ensures();
    ident.to_multiset_ensures();
    assert(perm.contains(perm[d]));
    assert(perm.to_multiset().count(perm[d]) > 0);
    assert(ident.to_multiset().count(perm[d]) > 0);
    assert(ident.contains(perm[d]));
    let j = choose|j: int| 0 <= j < ident.len() && ident[j] == perm[d];
    assert(ident[j] == j as usize);
}

/// Independently permute the point order within each sample, with the orders of
/// [`point_orders`]: shape and labels are unchanged and each sample's points are a
/// permutation of its own points. Which permutation comes out is up to the generator and
/// is not stated here.
pub fn shuffle_point_order<T: Copy>(x: &Vec<T>, samples: usize, points: usize, seed: u64) -> (out: Vec<T>)
    requires
        x@.len() == samples * points * 2,
    ensures
        out@.len() == x@.len(),
        forall|s: int| 0 <= s < samples ==> #[trigger] sample_permuted(x@, out@, s, points as int),
{
    let orders = point_orders(samples, points, seed);
    proof {
        assert forall|s: int, d: int| 0 <= s < samples && 0 <= d < points implies #[trigger] orders@[s]@[d]
            < points by {
            lemma_perm_entries(orders@[s]@, points as int, d);
        }
    }
    let out = apply_point_orders(x, samples, points, &orders);
    proof {
        assert forall|s: int| 0 <= s < samples implies #[trigger] sample_permuted(x@, out@, s, points as int) by {
            let perm = orders@[s]@;
            assert(sample_reordered(x@, out@, s, points as int, perm));
        }
    }
    out
}

/// Sample `s` of `out` is a reordering of the points of sample `s` of `x`.
pub open spec fn sample_permuted<T>(x: Seq<T>, out: Seq<T>, s: int, points: int) -> bool {
    exists|perm: Seq<usize>|
        is_index_perm(perm, points) && perm.len() == points && #[trigger] sample_reordered(
            x,
            out,
            s,
            points,
            perm,
        )
}

/// Sample `s` of `out` is sample `s` of `x` with its points reordered by `perm`.
pub open spec fn sample_reordered<T>(x: Seq<T>, out: Seq<T>, s: int, points: int, perm: Seq<usize>) -> bool {
    forall|d: int, c: int|
        0 <= d < points && 0 <= c < 2 ==> #[trigger] out[coord_index(s, d, c, points)] == x[coord_index(
            s,
            perm[d] as int,
            c,
            points,
        )]
}

} // verus!

//! Routing lanes of the Fiber-Spike-Rotor sequence mixer. A route selects, for every
//! query position of every sequence in a batch, `k` source positions; pair
//! `p = (b * seq_len + q) * k + slot` then reads the value fiber of its source token
//! and the rotor of its relative offset `q - source` (clamped at zero), and scatters
//! into its query token.
use vstd::prelude::*;

verus! {

/// Query token of pair `p`: `p / k` (`b * seq_len + q`).
pub open spec fn pair_query(p: int, k: int) -> int {
    p / k
}

/// Query position of pair `p` within its sequence.
pub open spec fn pair_position(p: int, k: int, seq_len: int) -> int {
    (p / k) % seq_len
}

/// Relative offset of pair `p` selecting source position `src`: `q - src`, or `0` when
/// the source lies after the query.
pub open spec fn pair_offset(p: int, k: int, seq_len: int, src: int) -> int {
    if pair_position(p, k, seq_len) >= src {
        pair_position(p, k, seq_len) - src
    } else {
        0
    }
}

/// The route is admissible: every selected source lies in its sequence and every
/// offset has a rotor.
pub open spec fn route_ok(selected: Seq<u32>, k: int, seq_len: int, max_seq_len: int) -> bool {
    forall|p: int|
        0 <= p < selected.len() ==> (#[trigger] selected[p] as int) < seq_len && pair_offset(
            p,
            k,
            seq_len,
            selected[p] as int,
        ) < max_seq_len
}

/// The lanes of a route: per pair, its query token, its relative offset and its source
/// token.
pub struct FsrLanes {
    /// Query token of each pair.
    pub query_of: Vec<u32>,
    /// Relative offset of each pair.
    pub offset_of: Vec<u32>,
    /// Source token of each pair.
    pub source_of: Vec<u32>,
}

/// The lanes of the route `selected` (flat `(batch, seq_len, k)`), or `None` when a
/// selected source is not below `seq_len` or an offset is not below `max_seq_len`.
pub fn fsr_lanes(selected: &Vec<u32>, batch: usize, seq_len: usize, k: usize, max_seq_len: usize) -> (r:
    Option<FsrLanes>)
    requires
        selected@.len() == batch * seq_len * k,
        batch * seq_len <= u32::MAX,
    ensures
        r is Some <==> route_ok(selected@, k as int, seq_len as int, max_seq_len as int),
        r matches Some(l) ==> {
            &&& l.query_of@.len() == selected@.len()
            &&& l.offset_of@.len() == selected@.len()
            &&& l.source_of@.len() == selected@.len()
            &&& forall|p: int|
                0 <= p < selected@.len() ==> {
                    &&& #[trigger] l.query_of@[p] == pair_query(p, k as int)
                    &&& l.offset_of@[p] == pair_offset(p, k as int, seq_len as int, selected@[p] as int)
                    &&& l.source_of@[p] == pair_query(p, k as int) - pair_position(
                        p,
                        k as int,
                        seq_len as int,
                    ) + selected@[p]
                }
        },
{
    let n = selected.len();
    let mut query_of: Vec<u32> = Vec::new();
    let mut offset_of: Vec<u32> = Vec::new();
    let mut source_of: Vec<u32> = Vec::new();
    let mut p: usize = 0;
    while p < n
        invariant
            p <= n,
            n == selected@.len(),
            n == batch * seq_len * k,
            batch * seq_len <= u32::MAX,
            query_of@.len() == p,
            offset_of@.len() == p,
            source_of@.len() == p,
            forall|t: int|
                0 <= t < p ==> (#[trigger] selected@[t] as int) < seq_len && pair_offset(
                    t,
                    k as int,
                    seq_len as int,
                    selected@[t] as int,
                ) < max_seq_len,
            forall|t: int|
                0 <= t < p ==> {
                    &&& #[trigger] query_of@[t] == pair_query(t, k as int)
                    &&& offset_of@[t] == pair_offset(t, k as int, seq_len as int, selected@[t] as int)
                    &&& source_of@[t] == pair_query(t, k as int) - pair_position(
                        t,
                        k as int,
                        seq_len as int,
                    ) + selected@[t]
                },
        decreases n - p,
    {
        proof {
            assert(k > 0 && seq_len > 0) by (nonlinear_arith)
                requires
                    p < n,
                    n == batch * seq_len * k,
            ;
            assert(p / k < batch * seq_len) by (nonlinear_arith)
                requires
                    p < batch * seq_len * k,
                    k > 0,
            ;
        }
        let token = p / k;
        let pos = token % seq_len;
        proof {
            vstd::arithmetic::div_mod::lemma_fundamental_div_mod(token as int, seq_len as int);
            assert((token as int / seq_len as int) * seq_len >= 0) by (nonlinear_arith)
                requires
                    token >= 0,
                    seq_len > 0,
            ;
            assert(pos <= token);
            assert(seq_len <= batch * seq_len) by (nonlinear_arith)
                requires
                    token < batch * seq_len,
                    seq_len > 0,
            ;
        }
        let src = selected[p] as usize;
        if src >= seq_len {
            return None;
        }
        let offset = if pos >= src {
            pos - src
        } else {
            0
        };
        if offset >= max_seq_len {
            return None;
        }
        proof {
            let q = token as int / seq_len as int;
            assert(token == q * seq_len + pos);
            assert(q < batch) by (nonlinear_arith)
                requires
                    token == q * seq_len + pos,
                    pos >= 0,
                    q >= 0,
                    token < batch * seq_len,
                    seq_len > 0,
            ;
            assert(q * seq_len + seq_len <= batch * seq_len) by (nonlinear_arith)
                requires
                    q < batch,
                    seq_len > 0,
            ;
        }
        let source = token - pos + src;
        query_of.push(token as u32);
        offset_of.push(offset as u32);
        source_of.push(source as u32);
        proof {
            assert(query_of@[p as int] == pair_query(p as int, k as int));
            assert(offset_of@[p as int] == pair_offset(p as int, k as int, seq_len as int, selected@[p as int] as int));
            assert(source_of@[p as int] == pair_query(p as int, k as int) - pair_position(
                p as int,
                k as int,
                seq_len as int,
            ) + selected@[p as int]);
        }
        p = p + 1;
    }
    let lanes = FsrLanes { query_of, offset_of, source_of };
    Some(lanes)
}

/// Gather rows of width `w` of `table` by index: row `i` of the result is row `idx[i]`.
pub fn gather_rows<T: Copy>(table: &Vec<T>, w: usize, idx: &Vec<u32>) -> (r: Vec<T>)
    requires
        forall|i: int| 0 <= i < idx@.len() ==> (#[trigger] idx@[i] as int + 1) * w <= table@.len(),
        idx@.len() * w <= usize::MAX,
    ensures
        r@.len() == idx@.len() * w,
        forall|i: int, j: int|
            0 <= i < idx@.len() && 0 <= j < w ==> #[trigger] r@[i * w + j] == table@[idx@[i] * w + j],
{
    let n = idx.len();
    let mut r: Vec<T> = Vec::new();
    let tlen = table.len();
    assert(0 * w == 0) by (nonlinear_arith);
    for i in 0..n
        invariant
            n == idx@.len(),
            tlen == table@.len(),
            n * w <= usize::MAX,
            forall|t: int| 0 <= t < idx@.len() ==> (#[trigger] idx@[t] as int + 1) * w <= table@.len(),
            r@.len() == i * w,
            forall|a: int, j: int|
                0 <= a < i && 0 <= j < w ==> #[trigger] r@[a * w + j] == table@[idx@[a] * w + j],
    {
        let row = idx[i] as usize;
        proof {
            assert((row + 1) * w == row * w + w) by (nonlinear_arith);
            assert((i + 1) * w == i * w + w) by (nonlinear_arith);
            assert((i + 1) * w <= n * w) by (nonlinear_arith)
                requires
                    i + 1 <= n,
            ;
        }
        let base = row * w;
        for j in 0..w
            invariant
                base == row * w,
                base + w <= tlen,
                tlen == table@.len(),
                row == idx@[i as int],
                i < n,
                n == idx@.len(),
                r@.len() == i * w + j,
                (i + 1) * w <= usize::MAX,
                forall|a: int, jj: int|
                    0 <= a < i && 0 <= jj < w ==> #[trigger] r@[a * w + jj] == table@[idx@[a] * w + jj],
                forall|jj: int| 0 <= jj < j ==> #[trigger] r@[i * w + jj] == table@[base + jj],
        {
            let ghost before = r@;
            r.push(table[base + j]);
            proof {
                assert forall|a: int, jj: int| 0 <= a < i && 0 <= jj < w implies #[trigger] r@[a * w + jj]
                    == table@[idx@[a] * w + jj] by {
                    assert(a * w + jj < i * w) by (nonlinear_arith)
                        requires
                            0 <= a < i,
                            0 <= jj < w,
                    ;
                    assert(r@[a * w + jj] == before[a * w + jj]);
                }
                assert forall|jj: int| 0 <= jj < j + 1 implies #[trigger] r@[i * w + jj] == table@[base + jj] by {
                    if jj < j {
                        assert(r@[i * w + jj] == before[i * w + jj]);
                    }
                }
            }
        }
        proof {
            assert forall|a: int, j: int| 0 <= a < i + 1 && 0 <= j < w implies #[trigger] r@[a * w + j]
                == table@[idx@[a] * w + j] by {
                if a == i {
                    assert(r@[i * w + j] == table@[base + j]);
                }
            }
        }
    }
    r
}

} // verus!

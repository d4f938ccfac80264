//! Clique trees for the multifrontal (clique-tree) Cholesky solver: their construction,
//! validation, elimination order and flat storage geometry.
//!
//! A **clique tree** with the running-intersection property is the numerical face of a
//! bounded-width signed hypergraph: each clique is a hyperedge (a small tensor block), and
//! adjacent cliques share a **separator**. Each clique owns its variables ordered
//! RESIDUAL-first then SEPARATOR; its separator must be a subset of its parent's
//! variables, and there is exactly one root. Factorization sweeps leaves to root, so the
//! elimination order is a post-order: every clique comes before its parent.
use vstd::prelude::*;
use vstd::multiset::Multiset;

verus! {

/// One clique (hyperedge) of the tree. `vars` are global feature indices ordered
/// residual-first: `vars[..n_res]` are eliminated at this clique, `vars[n_res..]`
/// are the separator shared with `parent`.
#[derive(Clone, Debug)]
pub struct Clique {
    pub vars: Vec<usize>,
    pub n_res: usize,
    pub parent: Option<usize>,
}

/// `2^n`.
pub open spec fn pow2(n: nat) -> nat
    decreases n,
{
    if n == 0 {
        1
    } else {
        2 * pow2((n - 1) as nat)
    }
}

/// The consecutive variables `start, start + 1, ..., start + n - 1`.
pub open spec fn fresh_range(start: int, n: int) -> Seq<usize> {
    Seq::new(n as nat, |t: int| (start + t) as usize)
}

/// Variables of clique `i` of the balanced binary tree: `res + 2*sep` fresh variables
/// (numbered `i*(res + 2*sep)` on), then, below the root, the separator borrowed from
/// the parent `(i-1)/2`: its fresh variables `c*sep .. c*sep + sep` for child `c = (i-1)%2`.
pub open spec fn binary_clique_vars(i: int, sep: int, res: int) -> Seq<usize> {
    let f = res + 2 * sep;
    if i == 0 {
        fresh_range(0, f)
    } else {
        fresh_range(i * f, f) + fresh_range(((i - 1) / 2) * f + ((i - 1) % 2) * sep, sep)
    }
}

/// Clique `i` of the balanced binary tree of the given shape.
pub open spec fn is_binary_clique(c: Clique, i: int, sep: int, res: int) -> bool {
    &&& c.vars@ == binary_clique_vars(i, sep, res)
    &&& c.n_res == res + 2 * sep
    &&& c.parent == if i == 0 {
        None::<usize>
    } else {
        Some(((i - 1) / 2) as usize)
    }
}

/// The variables `start .. start + n` as a vector; advances `next` past them.
fn take(n: usize, next: &mut usize) -> (v: Vec<usize>)
    requires
        *old(next) + n <= usize::MAX,
    ensures
        v@ == fresh_range(*old(next) as int, n as int),
        *final(next) == *old(next) + n,
{
    let mut v: Vec<usize> = Vec::new();
    let start = *next;
    for i in 0..n
        invariant
            start == *old(next),
            start + n <= usize::MAX,
            *next == start + i,
            v@ == fresh_range(start as int, i as int),
    {
        v.push(*next);
        *next = *next + 1;
        assert(v@ =~= fresh_range(start as int, i + 1));
    }
    v
}

/// Build a balanced **binary** bounded-width clique tree of `depth` levels: the root
/// introduces `res + 2*sep` fresh variables; every clique above the last level spawns two
/// children, each borrowing a distinct `sep`-variable separator from the parent's fresh
/// variables and introducing `res + 2*sep` fresh residual variables of its own. Cliques
/// are numbered level by level, so the children of clique `p` are `2p+1` and `2p+2`.
/// Returns the cliques and the total variable count `d`.
pub fn balanced_binary_tree(depth: usize, sep: usize, res: usize) -> (r: (Vec<Clique>, usize))
    requires
        depth >= 1,
        sep >= 1,
        res >= 1,
        (pow2(depth as nat) - 1) * (res + 2 * sep) <= usize::MAX,
    ensures
        r.0@.len() == pow2(depth as nat) - 1,
        forall|i: int| 0 <= i < r.0@.len() ==> is_binary_clique(#[trigger] r.0@[i], i, sep as int, res as int),
        r.1 == (pow2(depth as nat) - 1) * (res + 2 * sep),
        valid_clique_tree(r.0@),
        balanced_tree_shape(r.0@, sep as int, res as int),
{
    let ghost total = (pow2(depth as nat) - 1) * (res + 2 * sep);
    proof {
        lemma_pow2_ge(depth as nat);
        assert(res + 2 * sep <= total) by (nonlinear_arith)
            requires
                total == (pow2(depth as nat) - 1) * (res + 2 * sep),
                pow2(depth as nat) >= 2,
                res + 2 * sep >= 0,
        ;
    }
    let mut cliques: Vec<Clique> = Vec::new();
    let mut next: usize = 0;
    let fresh_per_clique = res + 2 * sep;
    let ghost f = fresh_per_clique as int;
    let root_vars = take(fresh_per_clique, &mut next);
    assert(root_vars@ =~= binary_clique_vars(0, sep as int, res as int));
    cliques.push(Clique { vars: root_vars, n_res: fresh_per_clique, parent: None });
    let mut frontier: Vec<usize> = Vec::new();
    frontier.push(0);
    let mut level: usize = 1;
    assert(pow2(0) == 1);
    assert(pow2(1) == 2);
    while level < depth
        invariant
            1 <= level <= depth,
            f == res + 2 * sep,
            fresh_per_clique == f,
            sep >= 1,
            res >= 1,
            total == (pow2(depth as nat) - 1) * f,
            total <= usize::MAX,
            cliques@.len() == pow2(level as nat) - 1,
            next == cliques@.len() * f,
            frontier@.len() == pow2((level - 1) as nat),
            forall|j: int| 0 <= j < frontier@.len() ==> #[trigger] frontier@[j] == pow2((level - 1) as nat) - 1 + j,
            forall|i: int| 0 <= i < cliques@.len() ==> is_binary_clique(#[trigger] cliques@[i], i, sep as int, res as int),
        decreases depth - level,
    {
        let ghost lo = pow2(level as nat) - 1;
        proof {
            lemma_pow2_monotone((level + 1) as nat, depth as nat);
            assert(pow2((level + 1) as nat) == 2 * pow2(level as nat));
            assert(pow2(level as nat) == 2 * pow2((level - 1) as nat));
        }
        let mut nextf: Vec<usize> = Vec::new();
        let nf = frontier.len();
        for j in 0..nf
            invariant
                nf == frontier@.len(),
                f == res + 2 * sep,
                fresh_per_clique == f,
                sep >= 1,
                res >= 1,
                total == (pow2(depth as nat) - 1) * f,
                total <= usize::MAX,
                lo == pow2(level as nat) - 1,
                pow2(level as nat) == 2 * pow2((level - 1) as nat),
                pow2((level + 1) as nat) <= pow2(depth as nat),
                pow2((level + 1) as nat) == 2 * pow2(level as nat),
                frontier@.len() == pow2((level - 1) as nat),
                forall|t: int| 0 <= t < frontier@.len() ==> #[trigger] frontier@[t] == pow2((level - 1) as nat) - 1 + t,
                cliques@.len() == lo + 2 * j,
                next == cliques@.len() * f,
                nextf@.len() == 2 * j,
                forall|t: int| 0 <= t < nextf@.len() ==> #[trigger] nextf@[t] == lo + t,
                forall|i: int| 0 <= i < cliques@.len() ==> is_binary_clique(#[trigger] cliques@[i], i, sep as int, res as int),
        {
            let p = frontier[j];
            let ghost pi = p as int;
            for child in 0..2usize
                invariant
                    f == res + 2 * sep,
                    fresh_per_clique == f,
                    sep >= 1,
                    res >= 1,
                    total == (pow2(depth as nat) - 1) * f,
                    total <= usize::MAX,
                    lo == pow2(level as nat) - 1,
                    pow2(level as nat) == 2 * pow2((level - 1) as nat),
                    pow2((level + 1) as nat) <= pow2(depth as nat),
                    pow2((level + 1) as nat) == 2 * pow2(level as nat),
                    pi == p,
                    p == pow2((level - 1) as nat) - 1 + j,
                    j < pow2((level - 1) as nat),
                    cliques@.len() == lo + 2 * j + child,
                    next == cliques@.len() * f,
                    nextf@.len() == 2 * j + child,
                    forall|t: int| 0 <= t < nextf@.len() ==> #[trigger] nextf@[t] == lo + t,
                    forall|i: int| 0 <= i < cliques@.len() ==> is_binary_clique(#[trigger] cliques@[i], i, sep as int, res as int),
            {
                let id = cliques.len();
                let ghost idi = id as int;
                proof {
                    assert(idi == 2 * pi + 1 + child);
                    assert((idi - 1) / 2 == pi && (idi - 1) % 2 == child);
                    assert(idi + 1 <= pow2(depth as nat) - 1);
                    assert((idi + 1) * f <= total) by (nonlinear_arith)
                        requires
                            idi + 1 <= pow2(depth as nat) - 1,
                            total == (pow2(depth as nat) - 1) * f,
                            f >= 0,
                    ;
                    assert(idi * f + f == (idi + 1) * f) by (nonlinear_arith);
                    assert(pi < idi);
                    assert(is_binary_clique(cliques@[pi], pi, sep as int, res as int));
                    assert(pi * f + child * sep + sep <= (pi + 1) * f) by (nonlinear_arith)
                        requires
                            0 <= child <= 1,
                            f == res + 2 * sep,
                            res >= 0,
                            sep >= 0,
                    ;
                    assert((pi + 1) * f <= idi * f) by (nonlinear_arith)
                        requires
                            pi + 1 <= idi,
                            f >= 0,
                    ;
                }
                let base = child * sep;
                let mut vars = take(fresh_per_clique, &mut next);
                let ghost fresh = vars@;
                let mut t: usize = 0;
                while t < sep
                    invariant
                        0 <= t <= sep,
                        base == child * sep,
                        0 <= child <= 1,
                        f == res + 2 * sep,
                        pi == p,
                        pi * f + child * sep + sep <= usize::MAX,
                        p < cliques@.len(),
                        is_binary_clique(cliques@[pi], pi, sep as int, res as int),
                        vars@ == fresh + fresh_range(pi * f + child * sep, t as int),
                    decreases sep - t,
                {
                    proof {
                        let pv = cliques@[pi].vars@;
                        if pi == 0 {
                            assert(pv == fresh_range(0, f));
                        } else {
                            assert(pv == binary_clique_vars(pi, sep as int, res as int));
                        }
                        if child == 0 {
                            assert(base == 0);
                        } else {
                            assert(base == sep);
                        }
                        assert(base + t < f);
                        assert(pv[base + t] == pi * f + base + t);
                    }
                    vars.push(cliques[p].vars[base + t]);
                    assert(vars@ =~= fresh + fresh_range(pi * f + child * sep, t + 1));
                    t = t + 1;
                }
                let n_res = fresh_per_clique;
                assert(vars@ =~= binary_clique_vars(idi, sep as int, res as int));
                cliques.push(Clique { vars, n_res, parent: Some(p) });
                nextf.push(id);
            }
        }
        frontier = nextf;
        level = level + 1;
        proof {
            assert(cliques@.len() == pow2(level as nat) - 1);
            assert forall|jj: int| 0 <= jj < frontier@.len() implies #[trigger] frontier@[jj]
                == pow2((level - 1) as nat) - 1 + jj by {}
        }
    }
    let built = cliques.len();
    proof {
        assert(built == cliques@.len());
        lemma_balanced_tree_valid(cliques@, depth as nat, sep as int, res as int);
        lemma_balanced_tree_shape(cliques@, depth as nat, sep as int, res as int);
    }
    (cliques, next)
}

proof fn lemma_pow2_ge(n: nat)
    requires
        n >= 1,
    ensures
        pow2(n) >= 2,
    decreases n,
{
    assert(pow2(0) == 1);
    if n > 1 {
        lemma_pow2_ge((n - 1) as nat);
    }
}

proof fn lemma_pow2_monotone(a: nat, b: nat)
    requires
        a <= b,
    ensures
        pow2(a) <= pow2(b),
    decreases b - a,
{
    if a < b {
        lemma_pow2_monotone(a, (b - 1) as nat);
    }
}

/// Variables of clique `i` of the star tree: the root holds the shared separator
/// `0..sep` then `res_root` fresh variables; child `i >= 1` holds `res_child` fresh
/// variables (numbered `sep + res_root + (i-1)*res_child` on) then the shared separator.
pub open spec fn star_clique_vars(i: int, sep: int, res_root: int, res_child: int) -> Seq<usize> {
    if i == 0 {
        fresh_range(0, sep + res_root)
    } else {
        fresh_range(sep + res_root + (i - 1) * res_child, res_child) + fresh_range(0, sep)
    }
}

/// Clique `i` of the star tree of the given shape.
pub open spec fn is_star_clique(c: Clique, i: int, sep: int, res_root: int, res_child: int) -> bool {
    &&& c.vars@ == star_clique_vars(i, sep, res_root, res_child)
    &&& c.n_res == if i == 0 {
        sep + res_root
    } else {
        res_child
    }
    &&& c.parent == if i == 0 {
        None::<usize>
    } else {
        Some(0usize)
    }
}

/// Build a **star** clique tree: one root and `fanout` children that all share the same
/// `sep`-variable separator (the root's first `sep` variables). Root introduces
/// `sep + res_root` residual variables; each child introduces `res_child` residual
/// variables plus the shared separator. Returns the cliques and total variable count `d`.
pub fn star_clique_tree(fanout: usize, sep: usize, res_root: usize, res_child: usize) -> (r: (
    Vec<Clique>,
    usize,
))
    requires
        fanout >= 1,
        sep >= 1,
        res_child >= 1,
        sep + res_root + fanout * res_child <= usize::MAX,
    ensures
        r.0@.len() == fanout + 1,
        forall|i: int|
            0 <= i < r.0@.len() ==> is_star_clique(
                #[trigger] r.0@[i],
                i,
                sep as int,
                res_root as int,
                res_child as int,
            ),
        r.1 == sep + res_root + fanout * res_child,
        valid_clique_tree(r.0@),
        star_tree_shape(r.0@, sep as int, res_root as int, res_child as int),
{
    let mut next: usize = 0;
    let sep_vars = take(sep, &mut next);
    let mut root_vars: Vec<usize> = Vec::new();
    for t in 0..sep
        invariant
            sep_vars@ == fresh_range(0, sep as int),
            root_vars@ == fresh_range(0, t as int),
    {
        root_vars.push(sep_vars[t]);
        assert(root_vars@ =~= fresh_range(0, t + 1));
    }
    let extra = take(res_root, &mut next);
    for t in 0..res_root
        invariant
            extra@ == fresh_range(sep as int, res_root as int),
            root_vars@ == fresh_range(0, sep + t),
    {
        root_vars.push(extra[t]);
        assert(root_vars@ =~= fresh_range(0, sep + t + 1));
    }
    let n_res_root = root_vars.len();
    let mut cliques: Vec<Clique> = Vec::new();
    cliques.push(Clique { vars: root_vars, n_res: n_res_root, parent: None });
    for j in 0..fanout
        invariant
            sep + res_root + fanout * res_child <= usize::MAX,
            res_child >= 1,
            sep_vars@ == fresh_range(0, sep as int),
            cliques@.len() == j + 1,
            next == sep + res_root + j * res_child,
            forall|i: int|
                0 <= i < cliques@.len() ==> is_star_clique(
                    #[trigger] cliques@[i],
                    i,
                    sep as int,
                    res_root as int,
                    res_child as int,
                ),
    {
        proof {
            assert(j * res_child + res_child <= fanout * res_child) by (nonlinear_arith)
                requires
                    j + 1 <= fanout,
                    res_child >= 0,
            ;
        }
        let mut vars = take(res_child, &mut next);
        let ghost fresh = vars@;
        for t in 0..sep
            invariant
                sep_vars@ == fresh_range(0, sep as int),
                vars@ == fresh + fresh_range(0, t as int),
        {
            vars.push(sep_vars[t]);
            assert(vars@ =~= fresh + fresh_range(0, t + 1));
        }
        proof {
            assert(sep + res_root + j * res_child == sep + res_root + ((j + 1) - 1) * res_child);
            assert(vars@ =~= star_clique_vars(j + 1, sep as int, res_root as int, res_child as int));
            assert((j + 1) * res_child == j * res_child + res_child) by (nonlinear_arith);
        }
        cliques.push(Clique { vars, n_res: res_child, parent: Some(0) });
    }
    let built = cliques.len();
    proof {
        assert(built == cliques@.len());
        lemma_star_tree_valid(cliques@, fanout as int, sep as int, res_root as int, res_child as int);
        lemma_star_tree_shape(cliques@, sep as int, res_root as int, res_child as int);
    }
    (cliques, next)
}

/// Why a clique list is not a valid clique tree.
#[derive(Clone, Copy, Debug, PartialEq, Eq)]
pub enum CliqueTreeError {
    /// Clique `i` has `n_res` larger than its variable count.
    ResidualTooLong(usize),
    /// Clique `i` names a parent that is out of range or itself.
    BadParent(usize),
    /// A separator variable `var` of clique `clique` is not among its parent's variables.
    SeparatorNotInParent { clique: usize, var: usize },
    /// The list has this many roots instead of exactly one.
    RootCount(usize),
    /// Following parents from clique `i` never reaches the root.
    Cyclic(usize),
}

/// Clique `i` has no parent.
pub open spec fn is_root(cl: Seq<Clique>, i: int) -> bool {
    cl[i].parent is None
}

/// The `k`-th ancestor of `i` (a root is its own ancestor).
pub open spec fn anc(cl: Seq<Clique>, i: int, k: nat) -> int
    decreases k,
{
    if k == 0 {
        i
    } else {
        match cl[i].parent {
            None => i,
            Some(p) => anc(cl, p as int, (k - 1) as nat),
        }
    }
}

/// The structural conditions on clique `i` within the list.
pub open spec fn clique_ok(cl: Seq<Clique>, i: int) -> bool {
    &&& cl[i].n_res <= cl[i].vars@.len()
    &&& match cl[i].parent {
        None => true,
        Some(p) => {
            &&& p < cl.len()
            &&& p != i
            &&& forall|t: int|
                cl[i].n_res <= t < cl[i].vars@.len() ==> cl[p as int].vars@.contains(
                    #[trigger] cl[i].vars@[t],
                )
        },
    }
}

/// Number of roots among the first `k` cliques.
pub open spec fn root_count(cl: Seq<Clique>, k: int) -> int
    decreases k,
{
    if k <= 0 {
        0
    } else {
        root_count(cl, k - 1) + if is_root(cl, k - 1) {
            1int
        } else {
            0
        }
    }
}

/// The parent link of clique `i`, if any, names another clique of the list.
pub open spec fn parent_ok(cl: Seq<Clique>, i: int) -> bool {
    match cl[i].parent {
        None => true,
        Some(p) => p < cl.len() && p != i,
    }
}

/// The parent links form a tree: each names another clique of the list, there is
/// exactly one root, and following parents from any clique reaches it.
pub open spec fn is_tree(cl: Seq<Clique>) -> bool {
    &&& cl.len() <= usize::MAX
    &&& forall|i: int| 0 <= i < cl.len() ==> #[trigger] parent_ok(cl, i)
    &&& root_count(cl, cl.len() as int) == 1
    &&& forall|i: int| 0 <= i < cl.len() ==> #[trigger] is_root(cl, anc(cl, i, cl.len()))
}

/// A valid clique tree: the parent links form a tree and every clique is structurally
/// sound.
pub open spec fn valid_clique_tree(cl: Seq<Clique>) -> bool {
    &&& is_tree(cl)
    &&& forall|i: int| 0 <= i < cl.len() ==> #[trigger] clique_ok(cl, i)
}

/// Ancestors stay within the list.
proof fn lemma_anc_in_range(cl: Seq<Clique>, i: int, k: nat)
    requires
        forall|j: int| 0 <= j < cl.len() ==> #[trigger] parent_ok(cl, j),
        0 <= i < cl.len(),
    ensures
        0 <= anc(cl, i, k) < cl.len(),
    decreases k,
{
    if k > 0 {
        assert(parent_ok(cl, i));
        if let Some(p) = cl[i].parent {
            lemma_anc_in_range(cl, p as int, (k - 1) as nat);
        }
    }
}

/// A root is its own ancestor at every distance.
proof fn lemma_anc_root(cl: Seq<Clique>, i: int, k: nat)
    requires
        is_root(cl, i),
    ensures
        anc(cl, i, k) == i,
    decreases k,
{
}

/// Every clique before `i` is structurally sound.
pub open spec fn sound_before(cl: Seq<Clique>, i: int) -> bool {
    forall|j: int| 0 <= j < i ==> #[trigger] clique_ok(cl, j)
}

/// Separator entry `t` of clique `i` is the first one missing from its (valid) parent `p`.
pub open spec fn first_missing_separator(cl: Seq<Clique>, i: int, p: int, t: int) -> bool {
    &&& cl[i].n_res <= t < cl[i].vars@.len()
    &&& !cl[p].vars@.contains(cl[i].vars@[t])
    &&& forall|u: int| cl[i].n_res <= u < t ==> cl[p].vars@.contains(#[trigger] cl[i].vars@[u])
}

/// Check that `cliques` is a valid clique tree, reporting the first violation: clique by
/// clique its parent index, its residual length and its separator, then the root count,
/// then that every clique reaches the root.
pub fn validate_clique_tree(cliques: &Vec<Clique>) -> (r: Result<(), CliqueTreeError>)
    ensures
        r is Ok <==> valid_clique_tree(cliques@),
        r matches Err(CliqueTreeError::BadParent(i)) ==> {
            &&& i < cliques@.len()
            &&& sound_before(cliques@, i as int)
            &&& cliques@[i as int].parent matches Some(p) && (p >= cliques@.len() || p == i)
        },
        r matches Err(CliqueTreeError::ResidualTooLong(i)) ==> {
            &&& i < cliques@.len()
            &&& sound_before(cliques@, i as int)
            &&& cliques@[i as int].parent matches Some(p) ==> p < cliques@.len() && p != i
            &&& cliques@[i as int].n_res > cliques@[i as int].vars@.len()
        },
        r matches Err(CliqueTreeError::SeparatorNotInParent { clique, var }) ==> {
            &&& clique < cliques@.len()
            &&& sound_before(cliques@, clique as int)
            &&& cliques@[clique as int].parent matches Some(p) && p < cliques@.len() && p != clique
                && exists|t: int|
                first_missing_separator(cliques@, clique as int, p as int, t)
                    && #[trigger] cliques@[clique as int].vars@[t] == var
        },
        r matches Err(CliqueTreeError::RootCount(k)) ==> {
            &&& sound_before(cliques@, cliques@.len() as int)
            &&& k == root_count(cliques@, cliques@.len() as int)
            &&& k != 1
        },
        r matches Err(CliqueTreeError::Cyclic(i)) ==> {
            &&& i < cliques@.len()
            &&& sound_before(cliques@, cliques@.len() as int)
            &&& root_count(cliques@, cliques@.len() as int) == 1
            &&& forall|j: int| 0 <= j < i ==> #[trigger] is_root(cliques@, anc(cliques@, j, cliques@.len()))
            &&& !is_root(cliques@, anc(cliques@, i as int, cliques@.len()))
        },
{
    let n = cliques.len();
    let mut n_roots: usize = 0;
    for i in 0..n
        invariant
            n == cliques@.len(),
            n_roots == root_count(cliques@, i as int),
            n_roots <= i,
            forall|j: int| 0 <= j < i ==> #[trigger] clique_ok(cliques@, j),
    {
        let c = &cliques[i];
        if let Some(p) = c.parent {
            if p >= n || p == i {
                assert(!clique_ok(cliques@, i as int));
                return Err(CliqueTreeError::BadParent(i));
            }
        }
        if c.n_res > c.vars.len() {
            assert(!clique_ok(cliques@, i as int));
            return Err(CliqueTreeError::ResidualTooLong(i));
        }
        match c.parent {
            None => {
                n_roots = n_roots + 1;
            },
            Some(p) => {
                let pv = &cliques[p].vars;
                let m = c.vars.len();
                for t in c.n_res..m
                    invariant
                        m == c.vars@.len(),
                        i < n,
                        n == cliques@.len(),
                        c.parent == Some(p),
                        p < n,
                        p != i,
                        forall|j: int| 0 <= j < i ==> #[trigger] clique_ok(cliques@, j),
                        c.n_res <= t <= m,
                        c == cliques@[i as int],
                        pv == cliques@[p as int].vars,
                        forall|u: int|
                            c.n_res <= u < t ==> pv@.contains(#[trigger] c.vars@[u]),
                {
                    let s = c.vars[t];
                    let mut found = false;
                    let mut k: usize = 0;
                    while k < pv.len()
                        invariant
                            0 <= k <= pv@.len(),
                            found ==> pv@.contains(s),
                            !found ==> forall|u: int| 0 <= u < k ==> pv@[u] != s,
                        decreases pv@.len() - k,
                    {
                        if pv[k] == s {
                            found = true;
                        }
                        k = k + 1;
                    }
                    if !found {
                        assert(!pv@.contains(s));
                        assert(c.vars@[t as int] == s);
                        assert(!clique_ok(cliques@, i as int));
                        assert(first_missing_separator(cliques@, i as int, p as int, t as int));
                        assert(cliques@[i as int].vars@[t as int] == s);
                        assert(exists|tt: int|
                            first_missing_separator(cliques@, i as int, p as int, tt)
                                && #[trigger] cliques@[i as int].vars@[tt] == s);
                        return Err(CliqueTreeError::SeparatorNotInParent { clique: i, var: s });
                    }
                }
            },
        }
    }
    if n_roots != 1 {
        return Err(CliqueTreeError::RootCount(n_roots));
    }
    for i in 0..n
        invariant
            n == cliques@.len(),
            root_count(cliques@, n as int) == 1,
            forall|j: int| 0 <= j < n ==> #[trigger] clique_ok(cliques@, j),
            forall|j: int| 0 <= j < i ==> #[trigger] is_root(cliques@, anc(cliques@, j, n as nat)),
    {
        let mut cur = i;
        let mut steps: usize = 0;
        while steps < n && cliques[cur].parent.is_some()
            invariant
                n == cliques@.len(),
                forall|j: int| 0 <= j < n ==> #[trigger] clique_ok(cliques@, j),
                0 <= steps <= n,
                cur < n,
                anc(cliques@, i as int, n as nat) == anc(cliques@, cur as int, (n - steps) as nat),
            decreases n - steps,
        {
            assert(clique_ok(cliques@, cur as int));
            cur = cliques[cur].parent.unwrap();
            steps = steps + 1;
        }
        if cliques[cur].parent.is_some() {
            assert(anc(cliques@, i as int, n as nat) == cur);
            assert(!is_root(cliques@, anc(cliques@, i as int, n as nat)));
            return Err(CliqueTreeError::Cyclic(i));
        }
        proof {
            lemma_anc_root(cliques@, cur as int, (n - steps) as nat);
        }
    }
    proof {
        assert forall|j: int| 0 <= j < n implies #[trigger] parent_ok(cliques@, j) by {
            assert(clique_ok(cliques@, j));
        }
    }
    Ok(())
}

/// The cliques among the first `k` whose parent is `node`, in increasing order.
pub open spec fn children_upto(cl: Seq<Clique>, node: int, k: int) -> Seq<usize>
    decreases k,
{
    if k <= 0 {
        Seq::empty()
    } else {
        children_upto(cl, node, k - 1) + if cl[k - 1].parent == Some(node as usize) {
            seq![(k - 1) as usize]
        } else {
            Seq::empty()
        }
    }
}

/// The children of `node`, in increasing order.
pub open spec fn children(cl: Seq<Clique>, node: int) -> Seq<usize> {
    children_upto(cl, node, cl.len() as int)
}

/// Post-order of the subtree at `node` (within `fuel` levels): the subtrees of its
/// children, last child first, then `node` itself.
pub open spec fn post_spec(cl: Seq<Clique>, node: int, fuel: nat) -> Seq<usize>
    decreases fuel, 0int,
{
    if fuel == 0 {
        seq![node as usize]
    } else {
        rev_concat(cl, children(cl, node), (fuel - 1) as nat) + seq![node as usize]
    }
}

/// The post-orders of the subtrees at `chs`, last first.
pub open spec fn rev_concat(cl: Seq<Clique>, chs: Seq<usize>, fuel: nat) -> Seq<usize>
    decreases fuel, chs.len(),
{
    if chs.len() == 0 {
        Seq::empty()
    } else {
        post_spec(cl, chs.last() as int, fuel) + rev_concat(cl, chs.drop_last(), fuel)
    }
}

/// The unique root of a valid clique tree.
pub open spec fn root_of(cl: Seq<Clique>) -> int {
    choose|r: int| 0 <= r < cl.len() && is_root(cl, r)
}

/// `node` is exactly `d` parent steps below a root.
pub open spec fn exact_dist(cl: Seq<Clique>, node: int, d: nat) -> bool {
    &&& is_root(cl, anc(cl, node, d))
    &&& forall|k: nat| k < d ==> !is_root(cl, #[trigger] anc(cl, node, k))
}

/// A pending traversal item: a clique, whether its children were already pushed, and the
/// remaining depth budget.
pub open spec fn item_seq(cl: Seq<Clique>, it: (usize, bool, nat)) -> Seq<usize> {
    if it.1 {
        seq![it.0]
    } else {
        post_spec(cl, it.0 as int, it.2)
    }
}

/// What a traversal stack will still emit (top of the stack first).
pub open spec fn expand(cl: Seq<Clique>, st: Seq<(usize, bool, nat)>) -> Seq<usize>
    decreases st.len(),
{
    if st.len() == 0 {
        Seq::empty()
    } else {
        item_seq(cl, st.last()) + expand(cl, st.drop_last())
    }
}

/// Termination measure of the traversal.
pub open spec fn weight(cl: Seq<Clique>, st: Seq<(usize, bool, nat)>) -> nat
    decreases st.len(),
{
    if st.len() == 0 {
        0
    } else {
        (if st.last().1 {
            1
        } else {
            2 * post_spec(cl, st.last().0 as int, st.last().2).len()
        }) + weight(cl, st.drop_last())
    }
}

proof fn lemma_post_len(cl: Seq<Clique>, node: int, fuel: nat)
    ensures
        post_spec(cl, node, fuel).len() >= 1,
{
}

proof fn lemma_rev_concat_len(cl: Seq<Clique>, chs: Seq<usize>, fuel: nat, t: int)
    requires
        0 <= t < chs.len(),
    ensures
        rev_concat(cl, chs.take(t + 1), fuel) == post_spec(cl, chs[t] as int, fuel) + rev_concat(
            cl,
            chs.take(t),
            fuel,
        ),
{
    assert(chs.take(t + 1).drop_last() =~= chs.take(t));
}

proof fn lemma_children_upto_step(cl: Seq<Clique>, k: int, n: int)
    requires
        0 <= k < n,
    ensures
        forall|node: int|
            #[trigger] children_upto(cl, node, k + 1) == children_upto(cl, node, k) + if cl[k].parent
                == Some(node as usize) {
                seq![k as usize]
            } else {
                Seq::<usize>::empty()
            },
{
}

/// The children of a clique are cliques of the list whose parent it is.
proof fn lemma_children_upto_members(cl: Seq<Clique>, node: int, k: int, t: int)
    requires
        0 <= t < children_upto(cl, node, k).len(),
        k <= cl.len(),
        cl.len() <= usize::MAX,
    ensures
        0 <= children_upto(cl, node, k)[t] < k,
        cl[children_upto(cl, node, k)[t] as int].parent == Some(node as usize),
    decreases k,
{
    if k > 0 {
        let prev = children_upto(cl, node, k - 1);
        if t < prev.len() {
            lemma_children_upto_members(cl, node, k - 1, t);
        }
    }
}

/// Post-order of a list of cliques whose parent links form a tree: every clique exactly
/// once, after all cliques of its subtree and so before its parent, the root last.
/// Children are visited from the last to the first, as a stack-based depth-first
/// traversal from the root does.
pub fn post_order(cliques: &Vec<Clique>) -> (order: Vec<usize>)
    requires
        is_tree(cliques@),
    ensures
        order@ == post_spec(cliques@, root_of(cliques@), cliques@.len() as nat),
        order@.len() == cliques@.len(),
        order@[order@.len() - 1] as int == root_of(cliques@),
        cliques@[root_of(cliques@)].parent is None,
        forall|u: usize| #[trigger] order@.to_multiset().count(u) == if (u as int) < cliques@.len() {
            1nat
        } else {
            0nat
        },
        forall|a: int|
            0 <= a < order@.len() && cliques@[#[trigger] order@[a] as int].parent is Some ==> exists|b: int|
                a < b < order@.len() && Some(#[trigger] order@[b]) == cliques@[order@[a] as int].parent,
{
    let n = cliques.len();
    let ghost cl = cliques@;
    let mut children_v: Vec<Vec<usize>> = Vec::new();
    for i in 0..n
        invariant
            children_v@.len() == i,
            forall|j: int| 0 <= j < i ==> #[trigger] children_v@[j]@ == Seq::<usize>::empty(),
    {
        children_v.push(Vec::new());
    }
    let mut root: usize = 0;
    let ghost mut found_root = false;
    for i in 0..n
        invariant
            n == cl.len(),
            cl == cliques@,
            is_tree(cl),
            children_v@.len() == n,
            forall|node: int| 0 <= node < n ==> #[trigger] children_v@[node]@ == children_upto(cl, node, i as int),
            found_root ==> root < n && is_root(cl, root as int),
            found_root <==> root_count(cl, i as int) > 0,
    {
        proof {
            lemma_children_upto_step(cl, i as int, n as int);
            assert(parent_ok(cl, i as int));
            lemma_root_count_nonneg(cl, i as int);
        }
        match cliques[i].parent {
            Some(p) => {
                children_v[p].push(i);
                proof {
                    assert forall|node: int| 0 <= node < n implies #[trigger] children_v@[node]@
                        == children_upto(cl, node, i + 1) by {
                        if node != p {
                            assert(cl[i as int].parent != Some(node as usize));
                        }
                    }
                }
            },
            None => {
                root = i;
                proof {
                    found_root = true;
                }
            },
        }
    }
    proof {
        lemma_root_unique(cl, root as int);
    }
    let ghost r = root as int;
    let mut order: Vec<usize> = Vec::new();
    let mut stack: Vec<(usize, bool)> = Vec::new();
    stack.push((root, false));
    let ghost mut gs: Seq<(usize, bool, nat)> = seq![(root, false, n as nat)];
    proof {
        assert(anc(cl, r, 0) == r);
        lemma_anc_root(cl, r, 0);
        assert(gs.drop_last() =~= Seq::<(usize, bool, nat)>::empty());
        assert(gs.last() == (root, false, n as nat));
        assert(expand(cl, gs.drop_last()) =~= Seq::<usize>::empty());
        assert(item_seq(cl, gs.last()) == post_spec(cl, r, n as nat));
        assert(expand(cl, gs) =~= post_spec(cl, r, n as nat));
    }
    while stack.len() > 0
        invariant
            n == cl.len(),
            cl == cliques@,
            is_tree(cl),
            r == root_of(cl),
            children_v@.len() == n,
            forall|node: int| 0 <= node < n ==> #[trigger] children_v@[node]@ == children(cl, node),
            gs.len() == stack@.len(),
            forall|j: int|
                0 <= j < gs.len() ==> (#[trigger] gs[j]).0 == stack@[j].0 && gs[j].1 == stack@[j].1,
            forall|j: int| 0 <= j < gs.len() ==> (#[trigger] gs[j]).0 < n,
            forall|j: int|
                0 <= j < gs.len() && !(#[trigger] gs[j]).1 ==> gs[j].2 <= n && exact_dist(
                    cl,
                    gs[j].0 as int,
                    (n - gs[j].2) as nat,
                ),
            order@ + expand(cl, gs) == post_spec(cl, r, n as nat),
        decreases weight(cl, gs),
    {
        let ghost before = gs;
        let (node, expanded) = stack.pop().unwrap();
        let ghost top = before.last();
        proof {
            gs = before.drop_last();
            assert(top.0 == node && top.1 == expanded);
        }
        if expanded {
            order.push(node);
            proof {
                assert(order@ + expand(cl, gs) =~= post_spec(cl, r, n as nat));
            }
        } else {
            let ghost f = top.2;
            stack.push((node, true));
            proof {
                gs = gs.push((node, true, 0nat));
            }
            let ghost rest = gs;
            let chs = &children_v[node];
            let nch = chs.len();
            proof {
                if nch > 0 {
                    lemma_children_upto_members(cl, node as int, n as int, 0);
                    lemma_child_has_budget(cl, node as int, f, chs@[0] as int);
                }
            }
            for t in 0..nch
                invariant
                    n == cl.len(),
                    cl == cliques@,
                    is_tree(cl),
                    node < n,
                    chs@ == children(cl, node as int),
                    nch == chs@.len(),
                    nch > 0 ==> f >= 1,
                    f <= n,
                    exact_dist(cl, node as int, (n - f) as nat),
                    gs.len() == stack@.len(),
                    rest.len() <= gs.len(),
                    gs.subrange(0, rest.len() as int) == rest,
                    gs.len() == rest.len() + t,
                    forall|j: int|
                        0 <= j < gs.len() ==> (#[trigger] gs[j]).0 == stack@[j].0 && gs[j].1
                            == stack@[j].1,
                    forall|j: int| 0 <= j < gs.len() ==> (#[trigger] gs[j]).0 < n,
                    forall|j: int|
                        0 <= j < gs.len() && !(#[trigger] gs[j]).1 ==> gs[j].2 <= n && exact_dist(
                            cl,
                            gs[j].0 as int,
                            (n - gs[j].2) as nat,
                        ),
                    expand(cl, gs) == rev_concat(cl, chs@.take(t as int), (f - 1) as nat) + expand(
                        cl,
                        rest,
                    ),
                    weight(cl, gs) == weight(cl, rest) + 2 * rev_concat(
                        cl,
                        chs@.take(t as int),
                        (f - 1) as nat,
                    ).len(),
            {
                let c = chs[t];
                proof {
                    lemma_children_upto_members(cl, node as int, n as int, t as int);
                    lemma_child_dist(cl, node as int, f, c as int);
                    lemma_rev_concat_len(cl, chs@, (f - 1) as nat, t as int);
                }
                let ghost prev = gs;
                stack.push((c, false));
                proof {
                    gs = gs.push((c, false, (f - 1) as nat));
                    assert(gs.drop_last() == prev);
                    assert(gs.subrange(0, rest.len() as int) =~= rest) by {
                        assert(prev.subrange(0, rest.len() as int) == rest);
                    }
                }
            }
            proof {
                assert(chs@.take(nch as int) =~= chs@);
                assert(rest.drop_last() == before.drop_last());
                lemma_post_len(cl, node as int, f);
                if f == 0 {
                    assert(nch == 0);
                    assert(chs@ =~= Seq::<usize>::empty());
                }
                assert(expand(cl, gs) =~= post_spec(cl, node as int, f) + expand(cl, before.drop_last()));
                assert(order@ + expand(cl, gs) =~= post_spec(cl, r, n as nat));
            }
        }
    }
    proof {
        assert(order@ =~= post_spec(cl, r, n as nat));
    }
    proof {
        assert forall|u: usize| #[trigger] order@.to_multiset().count(u) == if (u as int) < cl.len() {
            1nat
        } else {
            0nat
        } by {
            lemma_post_order_permutation(cl, u);
        }
        assert forall|a: int|
            0 <= a < order@.len() && cl[#[trigger] order@[a] as int].parent is Some implies exists|b: int|
            a < b < order@.len() && Some(#[trigger] order@[b]) == cl[order@[a] as int].parent by {
            lemma_post_order_children_first(cl, a);
        }
        lemma_post_last(cl, r, n as nat);
        lemma_valid_has_root(cl);
        lemma_index_multiset(n as nat);
        assert(order@.to_multiset() =~= index_multiset(n as nat));
        vstd::seq_lib::to_multiset_len(order@);
    }
    order
}

/// The multiset `{0, 1, ..., n - 1}`.
pub open spec fn index_multiset(n: nat) -> Multiset<usize>
    decreases n,
{
    if n == 0 {
        Multiset::empty()
    } else {
        index_multiset((n - 1) as nat).insert((n - 1) as usize)
    }
}

/// `{0, 1, ..., n - 1}` holds each index below `n` once and has `n` elements.
proof fn lemma_index_multiset(n: nat)
    requires
        n <= usize::MAX + 1,
    ensures
        index_multiset(n).len() == n,
        forall|u: usize| #[trigger] index_multiset(n).count(u) == if (u as int) < n {
            1nat
        } else {
            0nat
        },
    decreases n,
{
    if n > 0 {
        lemma_index_multiset((n - 1) as nat);
    }
}

/// The root found by a scan is the unique root.
proof fn lemma_root_unique(cl: Seq<Clique>, root: int)
    requires
        is_tree(cl),
        0 <= root < cl.len(),
        is_root(cl, root),
    ensures
        root_of(cl) == root,
{
    let r = root_of(cl);
    assert(is_root(cl, r) && 0 <= r < cl.len());
    if r != root {
        lemma_two_roots(cl, cl.len() as int, r, root);
    }
}

proof fn lemma_two_roots(cl: Seq<Clique>, k: int, a: int, b: int)
    requires
        0 <= a < k,
        0 <= b < k,
        a != b,
        is_root(cl, a),
        is_root(cl, b),
        k <= cl.len(),
    ensures
        root_count(cl, k) >= 2,
    decreases k,
{
    if a == k - 1 {
        lemma_one_root(cl, k - 1, b);
    } else if b == k - 1 {
        lemma_one_root(cl, k - 1, a);
    } else {
        lemma_two_roots(cl, k - 1, a, b);
    }
}

proof fn lemma_one_root(cl: Seq<Clique>, k: int, a: int)
    requires
        0 <= a < k,
        is_root(cl, a),
    ensures
        root_count(cl, k) >= 1,
    decreases k,
{
    if a < k - 1 {
        lemma_one_root(cl, k - 1, a);
    }
    lemma_root_count_nonneg(cl, k - 1);
}

proof fn lemma_root_count_nonneg(cl: Seq<Clique>, k: int)
    ensures
        root_count(cl, k) >= 0,
    decreases k,
{
    if k > 0 {
        lemma_root_count_nonneg(cl, k - 1);
    }
}

/// A clique with a child has depth budget left: the child reaches the root within
/// `n` steps, one more than its parent.
proof fn lemma_child_has_budget(cl: Seq<Clique>, node: int, f: nat, c: int)
    requires
        is_tree(cl),
        0 <= node < cl.len(),
        f <= cl.len(),
        exact_dist(cl, node, (cl.len() - f) as nat),
        0 <= c < cl.len(),
        cl[c].parent == Some(node as usize),
    ensures
        f >= 1,
{
    let n = cl.len();
    if f == 0 {
        assert(is_root(cl, anc(cl, c, n)));
        assert(anc(cl, c, n) == anc(cl, node, (n - 1) as nat));
        assert(!is_root(cl, anc(cl, node, (n - 1) as nat)));
    }
}

/// A child of a clique at exact distance `n - f` is at exact distance `n - f + 1`.
proof fn lemma_child_dist(cl: Seq<Clique>, node: int, f: nat, c: int)
    requires
        is_tree(cl),
        0 <= node < cl.len(),
        1 <= f <= cl.len(),
        exact_dist(cl, node, (cl.len() - f) as nat),
        0 <= c < cl.len(),
        cl[c].parent == Some(node as usize),
    ensures
        exact_dist(cl, c, (cl.len() - (f - 1)) as nat),
{
    let n = cl.len();
    let d = (n - f) as nat;
    assert(anc(cl, c, d + 1) == anc(cl, node, d));
    assert forall|k: nat| k < d + 1 implies !is_root(cl, #[trigger] anc(cl, c, k)) by {
        if k > 0 {
            assert(anc(cl, c, k) == anc(cl, node, (k - 1) as nat));
        }
    }
}

/// `sum_{j < c} f(cl[j])`.
pub open spec fn psum(cl: Seq<Clique>, c: int, f: spec_fn(Clique) -> int) -> int
    decreases c,
{
    if c <= 0 {
        0
    } else {
        psum(cl, c - 1, f) + f(cl[c - 1])
    }
}

/// Clique size `|C|`.
pub open spec fn size_of(c: Clique) -> int {
    c.vars@.len() as int
}

/// Separator size `|C| - n_res`.
pub open spec fn sep_of(c: Clique) -> int {
    c.vars@.len() - c.n_res
}

/// Frontal block size `|C|^2`.
pub open spec fn front_of(c: Clique) -> int {
    size_of(c) * size_of(c)
}

/// Residual Cholesky factor size `r^2`.
pub open spec fn lfac_of(c: Clique) -> int {
    c.n_res * c.n_res
}

/// Residual-separator block size `r * s`.
pub open spec fn wblk_of(c: Clique) -> int {
    c.n_res * sep_of(c)
}

/// Residual count `r`.
pub open spec fn res_of(c: Clique) -> int {
    c.n_res as int
}

/// Entries the clique contributes to the parent assembly map.
pub open spec fn assembly_of(c: Clique) -> int {
    if c.parent is Some {
        sep_of(c)
    } else {
        0
    }
}

proof fn lemma_psum_le(cl: Seq<Clique>, c: int, f: spec_fn(Clique) -> int, g: spec_fn(Clique) -> int)
    requires
        0 <= c <= cl.len(),
        forall|j: int| 0 <= j < cl.len() ==> 0 <= f(#[trigger] cl[j]) <= g(cl[j]),
    ensures
        0 <= psum(cl, c, f) <= psum(cl, c, g),
    decreases c,
{
    if c > 0 {
        lemma_psum_le(cl, c - 1, f, g);
        assert(0 <= f(cl[c - 1]) <= g(cl[c - 1]));
    }
}

proof fn lemma_psum_mono(cl: Seq<Clique>, a: int, b: int, f: spec_fn(Clique) -> int)
    requires
        0 <= a <= b <= cl.len(),
        forall|j: int| 0 <= j < cl.len() ==> 0 <= f(#[trigger] cl[j]),
    ensures
        psum(cl, a, f) <= psum(cl, b, f),
    decreases b - a,
{
    if a < b {
        lemma_psum_mono(cl, a, b - 1, f);
        assert(0 <= f(cl[b - 1]));
    }
}

/// Per-clique block sizes are bounded by the frontal size.
proof fn lemma_block_sizes(cl: Seq<Clique>)
    requires
        forall|i: int| 0 <= i < cl.len() ==> #[trigger] clique_ok(cl, i),
    ensures
        forall|j: int|
            0 <= j < cl.len() ==> 0 <= size_of(#[trigger] cl[j]) <= front_of(cl[j]) && 0
                <= lfac_of(cl[j]) <= front_of(cl[j]) && 0 <= wblk_of(cl[j]) <= front_of(cl[j]) && 0
                <= res_of(cl[j]) <= front_of(cl[j]) && 0 <= assembly_of(cl[j]) <= front_of(cl[j]),
{
    assert forall|j: int| 0 <= j < cl.len() implies 0 <= size_of(#[trigger] cl[j]) <= front_of(
        cl[j],
    ) && 0 <= lfac_of(cl[j]) <= front_of(cl[j]) && 0 <= wblk_of(cl[j]) <= front_of(cl[j]) && 0
        <= res_of(cl[j]) <= front_of(cl[j]) && 0 <= assembly_of(cl[j]) <= front_of(cl[j]) by {
        assert(clique_ok(cl, j));
        let m = size_of(cl[j]);
        let r = res_of(cl[j]);
        assert(0 <= r <= m);
        assert(m <= m * m && r * r <= m * m && r * (m - r) <= m * m && 0 <= r * r && 0 <= r * (m
            - r)) by (nonlinear_arith)
            requires
                0 <= r <= m,
        ;
    }
}

/// The flat storage geometry of the multifrontal solver over a clique tree: the
/// elimination order, per-clique block sizes, offsets of every per-clique block in the
/// flat arenas, and the parent-local position of every separator variable.
#[derive(Clone, Debug)]
pub struct CliqueTreeLayout {
    /// The cliques.
    pub cliques: Vec<Clique>,
    /// Post-order: children before parents (leaves to root).
    pub order: Vec<usize>,
    /// Clique size `|C|`.
    pub m: Vec<usize>,
    /// Residual count (eliminated at the clique).
    pub nres: Vec<usize>,
    /// Separator count (shared with the parent).
    pub nsep: Vec<usize>,
    /// Offset of the `|C|*|C|` frontal block.
    pub foff: Vec<usize>,
    /// Offset of the `|C|` right-hand side.
    pub boff: Vec<usize>,
    /// Offset of the `r*r` Cholesky factor.
    pub loff: Vec<usize>,
    /// Offset of the `r*s` residual-separator block.
    pub woff: Vec<usize>,
    /// Offset of the `r` reduced right-hand side.
    pub yoff: Vec<usize>,
    /// Offset into `sploc` of the clique's separator map.
    pub sploc_off: Vec<usize>,
    /// Concatenated parent-local separator positions.
    pub sploc: Vec<usize>,
    /// Total frontal arena length.
    pub front_len: usize,
    /// Total right-hand-side arena length.
    pub rhs_len: usize,
    /// Total Cholesky-factor arena length.
    pub lfac_len: usize,
    /// Total residual-separator arena length.
    pub wblk_len: usize,
    /// Total reduced right-hand-side arena length.
    pub y_len: usize,
}

/// Position of separator entry `a` of clique `c` in the assembly map.
pub open spec fn sploc_at(l: CliqueTreeLayout, c: int, a: int) -> usize {
    l.sploc@[l.sploc_off@[c] + a]
}

/// `pos` is the first position of `x` in `s`.
pub open spec fn first_pos(s: Seq<usize>, x: usize, pos: int) -> bool {
    &&& 0 <= pos < s.len()
    &&& s[pos] == x
    &&& forall|k: int| 0 <= k < pos ==> s[k] != x
}

impl CliqueTreeLayout {
    /// The geometry is that of `cliques`.
    pub open spec fn describes(&self, cl: Seq<Clique>) -> bool {
        let n = cl.len();
        &&& self.cliques@ == cl
        &&& self.order@ == post_spec(cl, root_of(cl), n as nat)
        &&& self.m@.len() == n && self.nres@.len() == n && self.nsep@.len() == n
        &&& self.foff@.len() == n && self.boff@.len() == n && self.loff@.len() == n
        &&& self.woff@.len() == n && self.yoff@.len() == n && self.sploc_off@.len() == n
        &&& forall|c: int|
            0 <= c < n ==> {
                &&& #[trigger] self.m@[c] == size_of(cl[c])
                &&& self.nres@[c] == cl[c].n_res
                &&& self.nsep@[c] == sep_of(cl[c])
                &&& self.foff@[c] == psum(cl, c, |x: Clique| front_of(x))
                &&& self.boff@[c] == psum(cl, c, |x: Clique| size_of(x))
                &&& self.loff@[c] == psum(cl, c, |x: Clique| lfac_of(x))
                &&& self.woff@[c] == psum(cl, c, |x: Clique| wblk_of(x))
                &&& self.yoff@[c] == psum(cl, c, |x: Clique| res_of(x))
                &&& self.sploc_off@[c] == psum(cl, c, |x: Clique| assembly_of(x))
            }
        &&& self.front_len == psum(cl, n as int, |x: Clique| front_of(x))
        &&& self.rhs_len == psum(cl, n as int, |x: Clique| size_of(x))
        &&& self.lfac_len == psum(cl, n as int, |x: Clique| lfac_of(x))
        &&& self.wblk_len == psum(cl, n as int, |x: Clique| wblk_of(x))
        &&& self.y_len == psum(cl, n as int, |x: Clique| res_of(x))
        &&& self.sploc@.len() == psum(cl, n as int, |x: Clique| assembly_of(x))
        &&& forall|c: int, a: int|
            0 <= c < n && 0 <= a < assembly_of(cl[c]) ==> first_pos(
                cl[cl[c].parent.unwrap() as int].vars@,
                cl[c].vars@[cl[c].n_res + a],
                #[trigger] sploc_at(*self, c, a) as int,
            )
    }

    /// Precompute the geometry of a valid clique tree whose frontal storage
    /// `sum |C|^2` fits a `usize`.
    #[verifier::spinoff_prover]
    #[verifier::rlimit(30)]
    pub fn new(cliques: Vec<Clique>) -> (l: Self)
        requires
            valid_clique_tree(cliques@),
            psum(cliques@, cliques@.len() as int, |x: Clique| front_of(x)) <= usize::MAX,
        ensures
            l.describes(cliques@),
    {
        let ghost cl = cliques@;
        let n = cliques.len();
        let order = post_order(&cliques);
        let mut m: Vec<usize> = Vec::new();
        let mut nres: Vec<usize> = Vec::new();
        let mut nsep: Vec<usize> = Vec::new();
        let mut foff: Vec<usize> = Vec::new();
        let mut boff: Vec<usize> = Vec::new();
        let mut loff: Vec<usize> = Vec::new();
        let mut woff: Vec<usize> = Vec::new();
        let mut yoff: Vec<usize> = Vec::new();
        let mut ft: usize = 0;
        let mut bt: usize = 0;
        let mut lt: usize = 0;
        let mut wt: usize = 0;
        let mut yt: usize = 0;
        let ghost ff = |x: Clique| front_of(x);
        let ghost fb = |x: Clique| size_of(x);
        let ghost fl = |x: Clique| lfac_of(x);
        let ghost fw = |x: Clique| wblk_of(x);
        let ghost fy = |x: Clique| res_of(x);
        let ghost fa = |x: Clique| assembly_of(x);
        proof {
            lemma_block_sizes(cl);
            lemma_psum_le(cl, n as int, fb, ff);
            lemma_psum_le(cl, n as int, fl, ff);
            lemma_psum_le(cl, n as int, fw, ff);
            lemma_psum_le(cl, n as int, fy, ff);
            lemma_psum_le(cl, n as int, fa, ff);
        }
        let mut c: usize = 0;
        while c < n
            invariant
                c <= n,
                n == cl.len(),
                cl == cliques@,
                valid_clique_tree(cl),
                forall|j: int|
                    0 <= j < cl.len() ==> 0 <= size_of(#[trigger] cl[j]) <= front_of(cl[j]) && 0
                        <= lfac_of(cl[j]) <= front_of(cl[j]) && 0 <= wblk_of(cl[j]) <= front_of(cl[j])
                        && 0 <= res_of(cl[j]) <= front_of(cl[j]) && 0 <= assembly_of(cl[j]) <= front_of(
                        cl[j],
                    ),
                psum(cl, n as int, ff) <= usize::MAX,
                psum(cl, n as int, fb) <= usize::MAX,
                psum(cl, n as int, fl) <= usize::MAX,
                psum(cl, n as int, fw) <= usize::MAX,
                psum(cl, n as int, fy) <= usize::MAX,
                ff == (|x: Clique| front_of(x)),
                fb == (|x: Clique| size_of(x)),
                fl == (|x: Clique| lfac_of(x)),
                fw == (|x: Clique| wblk_of(x)),
                fy == (|x: Clique| res_of(x)),
                m@.len() == c && nres@.len() == c && nsep@.len() == c,
                foff@.len() == c && boff@.len() == c && loff@.len() == c,
                woff@.len() == c && yoff@.len() == c,
                ft == psum(cl, c as int, ff),
                bt == psum(cl, c as int, fb),
                lt == psum(cl, c as int, fl),
                wt == psum(cl, c as int, fw),
                yt == psum(cl, c as int, fy),
                forall|j: int|
                    0 <= j < c ==> {
                        &&& #[trigger] m@[j] == size_of(cl[j])
                        &&& nres@[j] == cl[j].n_res
                        &&& nsep@[j] == sep_of(cl[j])
                        &&& foff@[j] == psum(cl, j, ff)
                        &&& boff@[j] == psum(cl, j, fb)
                        &&& loff@[j] == psum(cl, j, fl)
                        &&& woff@[j] == psum(cl, j, fw)
                        &&& yoff@[j] == psum(cl, j, fy)
                    },
            decreases n - c,
        {
            proof {
                assert(clique_ok(cl, c as int));
                lemma_psum_mono(cl, c + 1, n as int, ff);
                lemma_psum_mono(cl, c + 1, n as int, fb);
                lemma_psum_mono(cl, c + 1, n as int, fl);
                lemma_psum_mono(cl, c + 1, n as int, fw);
                lemma_psum_mono(cl, c + 1, n as int, fy);
                assert(0 <= size_of(cl[c as int]) <= front_of(cl[c as int]));
            }
            let mc = cliques[c].vars.len();
            let rc = cliques[c].n_res;
            let sc = mc - rc;
            m.push(mc);
            nres.push(rc);
            nsep.push(sc);
            foff.push(ft);
            ft = ft + mc * mc;
            boff.push(bt);
            bt = bt + mc;
            loff.push(lt);
            lt = lt + rc * rc;
            woff.push(wt);
            wt = wt + rc * sc;
            yoff.push(yt);
            yt = yt + rc;
            proof {
                assert(psum(cl, c + 1, ff) == psum(cl, c as int, ff) + front_of(cl[c as int]));
                assert(psum(cl, c + 1, fb) == psum(cl, c as int, fb) + size_of(cl[c as int]));
                assert(psum(cl, c + 1, fl) == psum(cl, c as int, fl) + lfac_of(cl[c as int]));
                assert(psum(cl, c + 1, fw) == psum(cl, c as int, fw) + wblk_of(cl[c as int]));
                assert(psum(cl, c + 1, fy) == psum(cl, c as int, fy) + res_of(cl[c as int]));
                assert(m@[c as int] == size_of(cl[c as int]));
                assert(foff@[c as int] == psum(cl, c as int, ff));
            }
            c = c + 1;
        }
        let mut sploc_off: Vec<usize> = Vec::new();
        let mut sploc: Vec<usize> = Vec::new();
        let ghost fa2 = fa;
        for c in 0..n
            invariant
                n == cl.len(),
                cl == cliques@,
                valid_clique_tree(cl),
                fa2 == (|x: Clique| assembly_of(x)),
                forall|j: int|
                    0 <= j < cl.len() ==> 0 <= #[trigger] assembly_of(cl[j]),
                psum(cl, n as int, fa2) <= usize::MAX,
                sploc_off@.len() == c,
                sploc@.len() == psum(cl, c as int, fa2),
                forall|j: int| 0 <= j < c ==> #[trigger] sploc_off@[j] == psum(cl, j, fa2),
                forall|j: int, a: int|
                    0 <= j < c && 0 <= a < assembly_of(cl[j]) ==> first_pos(
                        cl[cl[j].parent.unwrap() as int].vars@,
                        cl[j].vars@[cl[j].n_res + a],
                        #[trigger] sploc@[sploc_off@[j] + a] as int,
                    ),
        {
            proof {
                assert(clique_ok(cl, c as int));
                lemma_psum_mono(cl, c + 1, n as int, fa2);
            }
            sploc_off.push(sploc.len());
            let ghost base = sploc@.len() as int;
            let ghost prev_sploc = sploc@;
            match cliques[c].parent {
                Some(p) => {
                    let cv = &cliques[c].vars;
                    let pv = &cliques[p].vars;
                    let r = cliques[c].n_res;
                    let mc = cv.len();
                    for t in r..mc
                        invariant
                            cl == cliques@,
                            c < n,
                            n == cl.len(),
                            cl[c as int].parent == Some(p),
                            clique_ok(cl, c as int),
                            cv == cl[c as int].vars,
                            pv == cl[p as int].vars,
                            r == cl[c as int].n_res,
                            mc == cv@.len(),
                            r <= t <= mc,
                            base == psum(cl, c as int, fa2),
                            psum(cl, c + 1, fa2) <= usize::MAX,
                            fa2 == (|x: Clique| assembly_of(x)),
                            sploc@.len() == base + (t - r),
                            sploc@.subrange(0, base) == prev_sploc.subrange(0, base),
                            prev_sploc.len() == base,
                            forall|a: int|
                                0 <= a < t - r ==> first_pos(
                                    pv@,
                                    cv@[r + a],
                                    #[trigger] sploc@[base + a] as int,
                                ),
                    {
                        let g = cv[t];
                        assert(pv@.contains(cv@[t as int]));
                        let mut pos: usize = 0;
                        let plen = pv.len();
                        while pv[pos] != g
                            invariant
                                plen == pv@.len(),
                                pv@.contains(g),
                                0 <= pos < pv@.len(),
                                forall|k: int| 0 <= k < pos ==> pv@[k] != g,
                            decreases pv@.len() - pos,
                        {
                            proof {
                                if pos + 1 >= pv@.len() {
                                    assert forall|k: int| 0 <= k < pv@.len() implies pv@[k] != g by {
                                        if k == pos {
                                        }
                                    }
                                    assert(!pv@.contains(g));
                                }
                                assert(pos + 1 < pv@.len());
                            }
                            pos = pos + 1;
                        }
                        let ghost before = sploc@;
                        sploc.push(pos);
                        proof {
                            assert forall|a: int| 0 <= a < t + 1 - r implies first_pos(
                                pv@,
                                cv@[r + a],
                                #[trigger] sploc@[base + a] as int,
                            ) by {
                                if a < t - r {
                                    assert(sploc@[base + a] == before[base + a]);
                                }
                            }
                            assert(sploc@.subrange(0, base) =~= prev_sploc.subrange(0, base)) by {
                                assert(before.subrange(0, base) == prev_sploc.subrange(0, base));
                            }
                        }
                    }
                },
                None => {},
            }
            proof {
                assert(sploc@.len() == psum(cl, c + 1, fa2));
                assert forall|j: int, a: int|
                    0 <= j < c + 1 && 0 <= a < assembly_of(cl[j]) implies first_pos(
                        cl[cl[j].parent.unwrap() as int].vars@,
                        cl[j].vars@[cl[j].n_res + a],
                        #[trigger] sploc@[sploc_off@[j] + a] as int,
                    ) by {
                    if j < c {
                        lemma_psum_mono(cl, j + 1, c as int, fa2);
                        assert(sploc_off@[j] + a < base);
                        assert(sploc@[sploc_off@[j] + a] == prev_sploc[sploc_off@[j] + a]) by {
                            assert(sploc@.subrange(0, base)[sploc_off@[j] + a] == prev_sploc.subrange(0, base)[sploc_off@[j] + a]);
                        }
                    }
                }
            }
        }
        let l = CliqueTreeLayout {
            cliques,
            order,
            m,
            nres,
            nsep,
            foff,
            boff,
            loff,
            woff,
            yoff,
            sploc_off,
            sploc,
            front_len: ft,
            rhs_len: bt,
            lfac_len: lt,
            wblk_len: wt,
            y_len: yt,
        };
        proof {
            assert forall|c: int, a: int|
                0 <= c < n && 0 <= a < assembly_of(cl[c]) implies first_pos(
                    cl[cl[c].parent.unwrap() as int].vars@,
                    cl[c].vars@[cl[c].n_res + a],
                    #[trigger] sploc_at(l, c, a) as int,
                ) by {
                assert(sploc_at(l, c, a) == l.sploc@[l.sploc_off@[c] + a]);
            }
        }
        l
    }
}

/// Factorization flops of one clique, `|C|^3`.
pub open spec fn flops_of(c: Clique) -> int {
    size_of(c) * size_of(c) * size_of(c)
}

impl CliqueTreeLayout {
    /// Number of cliques.
    pub fn n_cliques(&self) -> (r: usize)
        ensures
            r == self.cliques@.len(),
    {
        self.cliques.len()
    }

    /// Total frontal/factor storage `sum |C|^2` (the nonzero-block footprint, vs a
    /// dense `d^2`).
    pub fn factor_storage(&self) -> (r: usize)
        requires
            self.describes(self.cliques@),
        ensures
            r == psum(self.cliques@, self.cliques@.len() as int, |x: Clique| front_of(x)),
    {
        self.front_len
    }

    /// Factorization flop estimate `sum |C|^3` (vs a dense `d^3/6`).
    pub fn factor_flops(&self) -> (r: u64)
        requires
            psum(self.cliques@, self.cliques@.len() as int, |x: Clique| flops_of(x)) <= u64::MAX,
        ensures
            r == psum(self.cliques@, self.cliques@.len() as int, |x: Clique| flops_of(x)),
    {
        let ghost cl = self.cliques@;
        let ghost fc = |x: Clique| flops_of(x);
        let n = self.cliques.len();
        let mut total: u64 = 0;
        proof {
            assert forall|j: int| 0 <= j < cl.len() implies 0 <= #[trigger] fc(cl[j]) by {
                let m = size_of(cl[j]);
                assert(0 <= m * m * m) by (nonlinear_arith)
                    requires
                        m >= 0,
                ;
            }
        }
        for c in 0..n
            invariant
                n == cl.len(),
                cl == self.cliques@,
                fc == (|x: Clique| flops_of(x)),
                forall|j: int| 0 <= j < cl.len() ==> 0 <= #[trigger] fc(cl[j]),
                psum(cl, n as int, fc) <= u64::MAX,
                total == psum(cl, c as int, fc),
        {
            proof {
                lemma_psum_mono(cl, c + 1, n as int, fc);
            }
            let m = self.cliques[c].vars.len() as u64;
            proof {
                let mi = m as int;
                assert(mi == size_of(cl[c as int]));
                assert(fc(cl[c as int]) == mi * mi * mi);
                assert(psum(cl, c + 1, fc) == psum(cl, c as int, fc) + fc(cl[c as int]));
                assert(mi * mi <= mi * mi * mi || mi == 0) by (nonlinear_arith)
                    requires
                        mi >= 0,
                ;
                assert(mi <= mi * mi || mi == 0) by (nonlinear_arith)
                    requires
                        mi >= 0,
                ;
            }
            assert(total + m * m * m <= u64::MAX);
            assert(m * m <= u64::MAX) by (nonlinear_arith)
                requires
                    m * m * m <= u64::MAX,
            ;
            total = total + m * m * m;
        }
        total
    }

    /// Path from clique `c` up to the root (inclusive), leaf first. An update homed at
    /// `c` can only change the factors of these cliques (the Schur messages flow strictly
    /// upward).
    pub fn ancestors_inclusive(&self, c: usize) -> (path: Vec<usize>)
        requires
            valid_clique_tree(self.cliques@),
            c < self.cliques@.len(),
        ensures
            path@.len() >= 1,
            path@[0] == c,
            forall|k: int| 0 <= k < path@.len() ==> #[trigger] path@[k] == anc(self.cliques@, c as int, k as nat),
            forall|k: int|
                0 <= k < path@.len() - 1 ==> self.cliques@[#[trigger] path@[k] as int].parent == Some(
                    path@[k + 1],
                ),
            is_root(self.cliques@, path@[path@.len() - 1] as int),
    {
        let ghost cl = self.cliques@;
        let n = self.cliques.len();
        let mut path: Vec<usize> = Vec::new();
        path.push(c);
        let mut cur = c;
        let mut steps: usize = 0;
        while self.cliques[cur].parent.is_some()
            invariant
                cl == self.cliques@,
                n == cl.len(),
                valid_clique_tree(cl),
                cur < n,
                steps <= n,
                path@.len() == steps + 1,
                path@[steps as int] == cur,
                cur == anc(cl, c as int, steps as nat),
                is_root(cl, anc(cl, cur as int, (n - steps) as nat)),
                forall|k: int| 0 <= k < path@.len() ==> #[trigger] path@[k] == anc(cl, c as int, k as nat),
                forall|k: int|
                    0 <= k < path@.len() - 1 ==> cl[#[trigger] path@[k] as int].parent == Some(path@[k + 1]),
            decreases n - steps,
        {
            assert(clique_ok(cl, cur as int));
            let p = self.cliques[cur].parent.unwrap();
            proof {
                if steps == n {
                    assert(anc(cl, cur as int, 0) == cur);
                }
                lemma_anc_step(cl, c as int, steps as nat);
            }
            let ghost before = path@;
            path.push(p);
            cur = p;
            steps = steps + 1;
            proof {
                assert forall|k: int| 0 <= k < path@.len() - 1 implies cl[#[trigger] path@[k] as int].parent
                    == Some(path@[k + 1]) by {
                    if k < before.len() - 1 {
                        assert(path@[k] == before[k] && path@[k + 1] == before[k + 1]);
                    }
                }
            }
        }
        path
    }
}

/// One more ancestor step: the parent of the `k`-th ancestor is the `(k+1)`-th.
proof fn lemma_anc_step(cl: Seq<Clique>, i: int, k: nat)
    requires
        cl[anc(cl, i, k)].parent is Some,
    ensures
        anc(cl, i, k + 1) == cl[anc(cl, i, k)].parent.unwrap() as int,
    decreases k,
{
    match cl[i].parent {
        None => {},
        Some(p) => {
            assert(anc(cl, i, k + 1) == anc(cl, p as int, k));
            if k > 0 {
                assert(anc(cl, i, k) == anc(cl, p as int, (k - 1) as nat));
                lemma_anc_step(cl, p as int, (k - 1) as nat);
            } else {
                assert(anc(cl, p as int, 0) == p as int);
            }
        },
    }
}

/// Within the post-order of the subtree at `v`, every clique other than `v` is followed
/// by its parent.
proof fn lemma_post_parent_later(cl: Seq<Clique>, v: int, f: nat, a: int)
    requires
        0 <= a < post_spec(cl, v, f).len(),
        post_spec(cl, v, f)[a] != v as usize,
        cl.len() <= usize::MAX,
        0 <= v < cl.len(),
    ensures
        exists|b: int|
            a < b < post_spec(cl, v, f).len() && cl[post_spec(cl, v, f)[a] as int].parent == Some(
                #[trigger] post_spec(cl, v, f)[b],
            ),
    decreases f, 0int,
{
    let s = post_spec(cl, v, f);
    if f == 0 {
        assert(s.len() == 1);
    } else {
        let r = rev_concat(cl, children(cl, v), (f - 1) as nat);
        assert(s == r + seq![v as usize]);
        assert(a < r.len());
        lemma_children_are_children(cl, v);
        lemma_rev_concat_parent_later(cl, v, children(cl, v), (f - 1) as nat, a);
        if cl[r[a] as int].parent == Some(v as usize) {
            let b = s.len() - 1;
            assert(s[b] == v as usize);
        } else {
            let b = choose|b: int| a < b < r.len() && cl[r[a] as int].parent == Some(#[trigger] r[b]);
            assert(s[b] == r[b]);
        }
    }
}

/// Within the concatenated post-orders of children `chs` of `v`, every clique's parent is
/// `v` or comes later.
proof fn lemma_rev_concat_parent_later(cl: Seq<Clique>, v: int, chs: Seq<usize>, f: nat, a: int)
    requires
        0 <= a < rev_concat(cl, chs, f).len(),
        forall|t: int| 0 <= t < chs.len() ==> 0 <= #[trigger] chs[t] < cl.len() && cl[chs[t] as int].parent == Some(v as usize),
        cl.len() <= usize::MAX,
        0 <= v < cl.len(),
    ensures
        cl[rev_concat(cl, chs, f)[a] as int].parent == Some(v as usize) || exists|b: int|
            a < b < rev_concat(cl, chs, f).len() && cl[rev_concat(cl, chs, f)[a] as int].parent == Some(
                #[trigger] rev_concat(cl, chs, f)[b],
            ),
    decreases f, chs.len(),
{
    let t = rev_concat(cl, chs, f);
    if chs.len() > 0 {
        let c = chs.last();
        assert(chs[chs.len() - 1] == c);
        let first = post_spec(cl, c as int, f);
        let rest = rev_concat(cl, chs.drop_last(), f);
        assert(t == first + rest);
        if a < first.len() {
            lemma_post_last(cl, c as int, f);
            if first[a] == c {
                assert(t[a] == c);
            } else {
                lemma_post_parent_later(cl, c as int, f, a);
                let b = choose|b: int| a < b < first.len() && cl[first[a] as int].parent == Some(#[trigger] first[b]);
                assert(t[b] == first[b]);
            }
        } else {
            let a2 = a - first.len();
            assert(t[a] == rest[a2]);
            assert forall|u: int| 0 <= u < chs.drop_last().len() implies 0 <= #[trigger] chs.drop_last()[u] < cl.len() && cl[chs.drop_last()[u] as int].parent == Some(v as usize) by {
                assert(chs.drop_last()[u] == chs[u]);
            }
            lemma_rev_concat_parent_later(cl, v, chs.drop_last(), f, a2);
            if cl[rest[a2] as int].parent != Some(v as usize) {
                let b2 = choose|b: int| a2 < b < rest.len() && cl[rest[a2] as int].parent == Some(#[trigger] rest[b]);
                assert(t[b2 + first.len()] == rest[b2]);
            }
        }
    }
}

/// The last clique of a subtree's post-order is its root.
proof fn lemma_post_last(cl: Seq<Clique>, v: int, f: nat)
    ensures
        post_spec(cl, v, f).len() >= 1,
        post_spec(cl, v, f)[post_spec(cl, v, f).len() - 1] == v as usize,
{
}

/// The children of a node all have it as parent.
proof fn lemma_children_are_children(cl: Seq<Clique>, v: int)
    requires
        cl.len() <= usize::MAX,
    ensures
        forall|t: int|
            0 <= t < children(cl, v).len() ==> 0 <= #[trigger] children(cl, v)[t] < cl.len()
                && cl[children(cl, v)[t] as int].parent == Some(v as usize),
{
    assert forall|t: int| 0 <= t < children(cl, v).len() implies 0 <= #[trigger] children(cl, v)[t]
        < cl.len() && cl[children(cl, v)[t] as int].parent == Some(v as usize) by {
        lemma_children_upto_members(cl, v, cl.len() as int, t);
    }
}

/// The post-order of a tree of cliques puts every clique before its parent:
/// the Schur message of a clique is always assembled into a parent not yet eliminated.
pub proof fn lemma_post_order_children_first(cl: Seq<Clique>, a: int)
    requires
        is_tree(cl),
        0 <= a < post_spec(cl, root_of(cl), cl.len() as nat).len(),
        cl[post_spec(cl, root_of(cl), cl.len() as nat)[a] as int].parent is Some,
    ensures
        exists|b: int|
            a < b < post_spec(cl, root_of(cl), cl.len() as nat).len() && Some(
                #[trigger] post_spec(cl, root_of(cl), cl.len() as nat)[b],
            ) == cl[post_spec(cl, root_of(cl), cl.len() as nat)[a] as int].parent,
{
    let r = root_of(cl);
    lemma_valid_has_root(cl);
    let s = post_spec(cl, r, cl.len() as nat);
    assert(s[a] != r as usize);
    lemma_post_parent_later(cl, r, cl.len() as nat, a);
}

/// `u` reaches `v` by following at most `f` parent links.
pub open spec fn reaches(cl: Seq<Clique>, u: int, v: int, f: nat) -> bool {
    exists|k: nat| k <= f && #[trigger] anc(cl, u, k) == v
}

proof fn lemma_count_concat(a: Seq<usize>, b: Seq<usize>, u: usize)
    ensures
        (a + b).to_multiset().count(u) == a.to_multiset().count(u) + b.to_multiset().count(u),
{
    broadcast use vstd::multiset::group_multiset_axioms;
    vstd::seq_lib::lemma_multiset_commutative(a, b);
}

proof fn lemma_count_single(x: usize, u: usize)
    ensures
        seq![x].to_multiset().count(u) == if u == x {
            1nat
        } else {
            0nat
        },
{
    broadcast use vstd::multiset::group_multiset_axioms;
    let s0 = Seq::<usize>::empty();
    s0.to_multiset_ensures();
    assert(seq![x] =~= s0.push(x));
    assert(!s0.contains(u));
    assert(s0.to_multiset().count(u) == 0);
}

/// Following `a` then `b` parent links is following `a + b`.
proof fn lemma_anc_add(cl: Seq<Clique>, u: int, a: nat, b: nat)
    ensures
        anc(cl, u, a + b) == anc(cl, anc(cl, u, a), b),
    decreases a,
{
    if a > 0 {
        match cl[u].parent {
            None => {
                lemma_anc_root(cl, u, b);
                lemma_anc_root(cl, u, (a + b) as nat);
                lemma_anc_root(cl, u, a);
            },
            Some(p) => {
                lemma_anc_add(cl, p as int, (a - 1) as nat, b);
                assert((a - 1) as nat + b == (a + b - 1) as nat);
            },
        }
    }
}

/// A clique that returns to itself after `m` links keeps doing so every `m` links.
proof fn lemma_anc_period(cl: Seq<Clique>, v: int, m: nat, j: nat)
    requires
        anc(cl, v, m) == v,
    ensures
        anc(cl, v, j * m) == v,
    decreases j,
{
    if j > 0 {
        lemma_anc_period(cl, v, m, (j - 1) as nat);
        let a = ((j - 1) * m) as nat;
        assert(j * m == (j - 1) * m + m) by (nonlinear_arith);
        assert((j - 1) * m >= 0) by (nonlinear_arith)
            requires
                j >= 1,
        ;
        lemma_anc_add(cl, v, a, m);
        assert(a + m == j * m);
    } else {
        assert(j * m == 0) by (nonlinear_arith)
            requires
                j == 0,
        ;
    }
}

/// In a valid clique tree only a root returns to itself along parent links.
proof fn lemma_no_return(cl: Seq<Clique>, v: int, m: nat)
    requires
        is_tree(cl),
        0 <= v < cl.len(),
        m >= 1,
        anc(cl, v, m) == v,
    ensures
        is_root(cl, v),
{
    let n = cl.len() as nat;
    lemma_anc_period(cl, v, m, n);
    assert(n * m >= n) by (nonlinear_arith)
        requires
            m >= 1,
    ;
    lemma_anc_add(cl, v, n, (n * m - n) as nat);
    assert(n + (n * m - n) as nat == n * m);
    assert(is_root(cl, anc(cl, v, n)));
    lemma_anc_root(cl, anc(cl, v, n), (n * m - n) as nat);
}

/// Two children of one clique whose subtrees share a clique are the same child.
proof fn lemma_unique_child_reach(cl: Seq<Clique>, v: int, c1: int, c2: int, u: int, k1: nat, k2: nat)
    requires
        is_tree(cl),
        0 <= v < cl.len(),
        0 <= c1 < cl.len(),
        0 <= c2 < cl.len(),
        cl[c1].parent == Some(v as usize),
        cl[c2].parent == Some(v as usize),
        anc(cl, u, k1) == c1,
        anc(cl, u, k2) == c2,
        k1 <= k2,
    ensures
        c1 == c2,
{
    if c1 != c2 {
        let m = (k2 - k1) as nat;
        lemma_anc_add(cl, u, k1, m);
        assert(k1 + m == k2);
        assert(anc(cl, c1, m) == c2);
        assert(m >= 1);
        assert(anc(cl, c2, 1) == v) by {
            assert(anc(cl, v, 0) == v);
        }
        assert(anc(cl, c1, 1) == v) by {
            assert(anc(cl, v, 0) == v);
        }
        lemma_anc_add(cl, c1, m, 1);
        lemma_anc_add(cl, c1, 1, m);
        assert(m + 1 == 1 + m);
        assert(anc(cl, v, m) == v);
        lemma_no_return(cl, v, m);
        lemma_anc_root(cl, v, (m - 1) as nat);
        lemma_anc_add(cl, c1, 1, (m - 1) as nat);
        assert(1 + (m - 1) as nat == m);
        assert(parent_ok(cl, c2));
        assert(false);
    }
}

/// The first link count at which `u` meets `v`.
proof fn lemma_first_hit(cl: Seq<Clique>, u: int, v: int, k: nat) -> (k0: nat)
    requires
        anc(cl, u, k) == v,
    ensures
        k0 <= k,
        anc(cl, u, k0) == v,
        forall|j: nat| j < k0 ==> #[trigger] anc(cl, u, j) != v,
    decreases k,
{
    if exists|j: nat| j < k && #[trigger] anc(cl, u, j) == v {
        let j = choose|j: nat| j < k && #[trigger] anc(cl, u, j) == v;
        lemma_first_hit(cl, u, v, j)
    } else {
        k
    }
}

/// The children of `v` among the first `k` cliques are strictly increasing and include
/// every such clique whose parent is `v`.
proof fn lemma_children_upto_shape(cl: Seq<Clique>, v: int, k: int)
    requires
        0 <= k <= cl.len(),
        cl.len() <= usize::MAX,
    ensures
        forall|t1: int, t2: int|
            0 <= t1 < t2 < children_upto(cl, v, k).len() ==> #[trigger] children_upto(cl, v, k)[t1]
                < #[trigger] children_upto(cl, v, k)[t2],
        forall|c: int|
            0 <= c < k && cl[c].parent == Some(v as usize) ==> children_upto(cl, v, k).contains(
                c as usize,
            ),
    decreases k,
{
    if k > 0 {
        lemma_children_upto_shape(cl, v, k - 1);
        let prev = children_upto(cl, v, k - 1);
        let cur = children_upto(cl, v, k);
        assert forall|t: int| 0 <= t < prev.len() implies #[trigger] prev[t] < k - 1 by {
            lemma_children_upto_members(cl, v, k - 1, t);
        }
        if cl[k - 1].parent == Some(v as usize) {
            assert(cur == prev + seq![(k - 1) as usize]);
            assert(cur[prev.len() as int] == (k - 1) as usize);
            assert forall|c: int| 0 <= c < k && cl[c].parent == Some(v as usize) implies cur.contains(
                c as usize,
            ) by {
                if c < k - 1 {
                    let w = choose|w: int| 0 <= w < prev.len() && prev[w] == c as usize;
                    assert(cur[w] == prev[w]);
                }
            }
        } else {
            assert(cur == prev);
        }
    }
}

/// Occurrences of `u` in the concatenated post-orders of distinct children `chs` of `v`:
/// one exactly when `u` lies in one of their subtrees.
proof fn lemma_rev_concat_count(cl: Seq<Clique>, v: int, chs: Seq<usize>, f: nat, u: usize)
    requires
        is_tree(cl),
        0 <= v < cl.len(),
        forall|t: int|
            0 <= t < chs.len() ==> 0 <= #[trigger] chs[t] < cl.len() && cl[chs[t] as int].parent
                == Some(v as usize),
        forall|t1: int, t2: int| 0 <= t1 < t2 < chs.len() ==> #[trigger] chs[t1] != #[trigger] chs[t2],
    ensures
        rev_concat(cl, chs, f).to_multiset().count(u) == if (u as int) < cl.len() && exists|t: int|
            0 <= t < chs.len() && reaches(cl, u as int, #[trigger] chs[t] as int, f) {
            1nat
        } else {
            0nat
        },
    decreases f, chs.len(),
{
    if chs.len() == 0 {
        let s0 = Seq::<usize>::empty();
        assert(rev_concat(cl, chs, f) =~= s0);
        s0.to_multiset_ensures();
        assert(!s0.contains(u));
    } else {
        let last = chs.last();
        let rest = chs.drop_last();
        assert(chs[chs.len() - 1] == last);
        assert forall|t: int| 0 <= t < rest.len() implies 0 <= #[trigger] rest[t] < cl.len() && cl[rest[t] as int].parent
            == Some(v as usize) by {
            assert(rest[t] == chs[t]);
        }
        assert forall|t1: int, t2: int| 0 <= t1 < t2 < rest.len() implies #[trigger] rest[t1] != #[trigger] rest[t2] by {
            assert(rest[t1] == chs[t1] && rest[t2] == chs[t2]);
        }
        lemma_post_count(cl, last as int, f, u);
        lemma_rev_concat_count(cl, v, rest, f, u);
        lemma_count_concat(post_spec(cl, last as int, f), rev_concat(cl, rest, f), u);
        if (u as int) < cl.len() {
            if reaches(cl, u as int, last as int, f) {
                if exists|t: int| 0 <= t < rest.len() && reaches(cl, u as int, #[trigger] rest[t] as int, f) {
                    let t = choose|t: int| 0 <= t < rest.len() && reaches(cl, u as int, #[trigger] rest[t] as int, f);
                    assert(rest[t] == chs[t]);
                    let k1 = choose|k: nat| k <= f && #[trigger] anc(cl, u as int, k) == last as int;
                    let k2 = choose|k: nat| k <= f && #[trigger] anc(cl, u as int, k) == rest[t] as int;
                    assert(chs[t] != chs[chs.len() - 1]);
                    if k1 <= k2 {
                        lemma_unique_child_reach(cl, v, last as int, rest[t] as int, u as int, k1, k2);
                    } else {
                        lemma_unique_child_reach(cl, v, rest[t] as int, last as int, u as int, k2, k1);
                    }
                }
                assert(reaches(cl, u as int, chs[chs.len() - 1] as int, f));
            } else {
                if exists|t: int| 0 <= t < chs.len() && reaches(cl, u as int, #[trigger] chs[t] as int, f) {
                    let t = choose|t: int| 0 <= t < chs.len() && reaches(cl, u as int, #[trigger] chs[t] as int, f);
                    assert(t < rest.len());
                    assert(rest[t] == chs[t]);
                }
                if exists|t: int| 0 <= t < rest.len() && reaches(cl, u as int, #[trigger] rest[t] as int, f) {
                    let t = choose|t: int| 0 <= t < rest.len() && reaches(cl, u as int, #[trigger] rest[t] as int, f);
                    assert(rest[t] == chs[t]);
                }
            }
        }
    }
}

/// Occurrences of `u` in the post-order of the subtree at `v` within `f` levels: one
/// exactly when `u` is a clique that reaches `v` within `f` parent links.
proof fn lemma_post_count(cl: Seq<Clique>, v: int, f: nat, u: usize)
    requires
        is_tree(cl),
        0 <= v < cl.len(),
    ensures
        post_spec(cl, v, f).to_multiset().count(u) == if (u as int) < cl.len() && reaches(
            cl,
            u as int,
            v,
            f,
        ) {
            1nat
        } else {
            0nat
        },
    decreases f, 0int,
{
    assert(anc(cl, u as int, 0) == u as int);
    if f == 0 {
        lemma_count_single(v as usize, u);
        if reaches(cl, u as int, v, f) {
            let k = choose|k: nat| k <= f && #[trigger] anc(cl, u as int, k) == v;
            assert(k == 0);
        }
    } else {
        let chs = children(cl, v);
        lemma_children_are_children(cl, v);
        lemma_children_upto_shape(cl, v, cl.len() as int);
        assert forall|t1: int, t2: int| 0 <= t1 < t2 < chs.len() implies #[trigger] chs[t1] != #[trigger] chs[t2] by {
            assert(chs[t1] < chs[t2]);
        }
        lemma_rev_concat_count(cl, v, chs, (f - 1) as nat, u);
        let r = rev_concat(cl, chs, (f - 1) as nat);
        assert(post_spec(cl, v, f) == r + seq![v as usize]);
        lemma_count_concat(r, seq![v as usize], u);
        lemma_count_single(v as usize, u);
        if (u as int) < cl.len() {
            let in_child = exists|t: int| 0 <= t < chs.len() && reaches(cl, u as int, #[trigger] chs[t] as int, (f - 1) as nat);
            if in_child {
                let t = choose|t: int| 0 <= t < chs.len() && reaches(cl, u as int, #[trigger] chs[t] as int, (f - 1) as nat);
                let c = chs[t] as int;
                let k = choose|k: nat| k <= (f - 1) as nat && #[trigger] anc(cl, u as int, k) == c;
                lemma_anc_add(cl, u as int, k, 1);
                assert(anc(cl, c, 1) == v) by {
                    assert(anc(cl, v, 0) == v);
                }
                assert(anc(cl, u as int, k + 1) == v);
                assert(reaches(cl, u as int, v, f));
                if u as int == v {
                    lemma_no_return(cl, v, k + 1);
                    lemma_anc_root(cl, v, k);
                    assert(parent_ok(cl, c));
                }
            } else if reaches(cl, u as int, v, f) && u as int != v {
                let k = choose|k: nat| k <= f && #[trigger] anc(cl, u as int, k) == v;
                let k0 = lemma_first_hit(cl, u as int, v, k);
                assert(k0 >= 1);
                let c = anc(cl, u as int, (k0 - 1) as nat);
                assert(c != v);
                lemma_anc_add(cl, u as int, (k0 - 1) as nat, 1);
                assert((k0 - 1) as nat + 1 == k0);
                lemma_anc_in_range(cl, u as int, (k0 - 1) as nat);
                assert(cl[c].parent == Some(v as usize)) by {
                    if cl[c].parent is None {
                        assert(anc(cl, c, 1) == c);
                    } else {
                        assert(anc(cl, c, 1) == anc(cl, cl[c].parent.unwrap() as int, 0));
                    }
                }
                assert(chs.contains(c as usize));
                let t = choose|t: int| 0 <= t < chs.len() && chs[t] == c as usize;
                assert(reaches(cl, u as int, chs[t] as int, (f - 1) as nat));
            }
        }
    }
}

/// The post-order of a tree of cliques visits every clique exactly once: it
/// is a permutation of `0..n`.
pub proof fn lemma_post_order_permutation(cl: Seq<Clique>, u: usize)
    requires
        is_tree(cl),
    ensures
        post_spec(cl, root_of(cl), cl.len() as nat).to_multiset().count(u) == if (u as int)
            < cl.len() {
            1nat
        } else {
            0nat
        },
{
    lemma_valid_has_root(cl);
    let r = root_of(cl);
    lemma_post_count(cl, r, cl.len() as nat, u);
    if (u as int) < cl.len() {
        let n = cl.len() as nat;
        assert(is_root(cl, anc(cl, u as int, n)));
        lemma_anc_in_range(cl, u as int, n);
        lemma_root_unique(cl, anc(cl, u as int, n));
        assert(reaches(cl, u as int, r, n));
    }
}

/// A tree of cliques has a root.
proof fn lemma_valid_has_root(cl: Seq<Clique>)
    requires
        is_tree(cl),
    ensures
        0 <= root_of(cl) < cl.len(),
        is_root(cl, root_of(cl)),
{
    lemma_root_exists(cl, cl.len() as int);
}

proof fn lemma_root_exists(cl: Seq<Clique>, k: int)
    requires
        0 <= k <= cl.len(),
        root_count(cl, k) >= 1,
    ensures
        exists|r: int| 0 <= r < k && is_root(cl, r),
    decreases k,
{
    if k > 0 {
        if is_root(cl, k - 1) {
            assert(is_root(cl, k - 1));
        } else {
            lemma_root_exists(cl, k - 1);
        }
    }
}

/// Only the first clique is a root: the root count of every non-empty prefix is one.
proof fn lemma_single_root_count(cl: Seq<Clique>, k: int)
    requires
        1 <= k <= cl.len(),
        is_root(cl, 0),
        forall|i: int| 1 <= i < cl.len() ==> !is_root(cl, i),
    ensures
        root_count(cl, k) == 1,
    decreases k,
{
    assert(root_count(cl, 0) == 0);
    if k > 1 {
        lemma_single_root_count(cl, k - 1);
        assert(!is_root(cl, k - 1));
    }
}

/// The balanced binary tree is a valid clique tree: each clique's separator lies among
/// its parent's variables, clique 0 is the only root, and every clique reaches it.
pub proof fn lemma_balanced_tree_valid(cl: Seq<Clique>, depth: nat, sep: int, res: int)
    requires
        depth >= 1,
        sep >= 1,
        res >= 1,
        cl.len() == pow2(depth) - 1,
        cl.len() <= usize::MAX,
        forall|i: int| 0 <= i < cl.len() ==> is_binary_clique(#[trigger] cl[i], i, sep, res),
    ensures
        valid_clique_tree(cl),
{
    lemma_pow2_ge(depth);
    let f = res + 2 * sep;
    assert forall|i: int| 0 <= i < cl.len() implies #[trigger] clique_ok(cl, i) by {
        assert(is_binary_clique(cl[i], i, sep, res));
        if i > 0 {
            let p = (i - 1) / 2;
            let c = (i - 1) % 2;
            assert(is_binary_clique(cl[p], p, sep, res));
            assert forall|t: int| cl[i].n_res <= t < cl[i].vars@.len() implies cl[p].vars@.contains(
                #[trigger] cl[i].vars@[t],
            ) by {
                let u = t - f;
                assert(cl[i].vars@[t] == fresh_range(p * f + c * sep, sep)[u]);
                let w = c * sep + u;
                assert(0 <= w < f) by (nonlinear_arith)
                    requires
                        0 <= c <= 1,
                        0 <= u < sep,
                        f == res + 2 * sep,
                        res >= 1,
                        w == c * sep + u,
                ;
                if p == 0 {
                    assert(cl[p].vars@ == fresh_range(0, f));
                    assert(p * f == 0) by (nonlinear_arith)
                        requires
                            p == 0,
                    ;
                } else {
                    assert(cl[p].vars@ == binary_clique_vars(p, sep, res));
                    assert(cl[p].vars@[w] == fresh_range(p * f, f)[w]);
                }
                assert(cl[p].vars@[w] == cl[i].vars@[t]);
            }
        }
    }
    assert(is_binary_clique(cl[0], 0, sep, res));
    assert forall|i: int| 1 <= i < cl.len() implies !is_root(cl, i) by {
        assert(is_binary_clique(cl[i], i, sep, res));
    }
    lemma_single_root_count(cl, cl.len() as int);
    assert forall|i: int| 0 <= i < cl.len() implies #[trigger] is_root(cl, anc(cl, i, cl.len())) by {
        lemma_binary_reaches_root(cl, sep, res, i, cl.len());
    }
}

/// In the balanced binary tree clique `i` reaches the root within `k >= i` steps.
proof fn lemma_binary_reaches_root(cl: Seq<Clique>, sep: int, res: int, i: int, k: nat)
    requires
        0 <= i < cl.len(),
        i <= k,
        cl.len() <= usize::MAX,
        forall|j: int| 0 <= j < cl.len() ==> is_binary_clique(#[trigger] cl[j], j, sep, res),
    ensures
        is_root(cl, anc(cl, i, k)),
    decreases i,
{
    assert(is_binary_clique(cl[i], i, sep, res));
    if i == 0 {
        lemma_anc_root(cl, 0, k);
    } else {
        let p = (i - 1) / 2;
        assert(anc(cl, i, k) == anc(cl, p, (k - 1) as nat));
        lemma_binary_reaches_root(cl, sep, res, p, (k - 1) as nat);
    }
}

/// The star tree is a valid clique tree: every child's separator is the root's shared
/// separator, and clique 0 is the only root.
pub proof fn lemma_star_tree_valid(cl: Seq<Clique>, fanout: int, sep: int, res_root: int, res_child: int)
    requires
        fanout >= 1,
        sep >= 1,
        res_root >= 0,
        res_child >= 1,
        cl.len() == fanout + 1,
        cl.len() <= usize::MAX,
        forall|i: int|
            0 <= i < cl.len() ==> is_star_clique(#[trigger] cl[i], i, sep, res_root, res_child),
    ensures
        valid_clique_tree(cl),
{
    assert(is_star_clique(cl[0], 0, sep, res_root, res_child));
    assert forall|i: int| 0 <= i < cl.len() implies #[trigger] clique_ok(cl, i) by {
        assert(is_star_clique(cl[i], i, sep, res_root, res_child));
        if i > 0 {
            assert forall|t: int| cl[i].n_res <= t < cl[i].vars@.len() implies cl[0].vars@.contains(
                #[trigger] cl[i].vars@[t],
            ) by {
                let u = t - res_child;
                assert(cl[i].vars@[t] == fresh_range(0, sep)[u]);
                assert(cl[0].vars@[u] == cl[i].vars@[t]);
            }
        }
    }
    assert forall|i: int| 1 <= i < cl.len() implies !is_root(cl, i) by {
        assert(is_star_clique(cl[i], i, sep, res_root, res_child));
    }
    lemma_single_root_count(cl, cl.len() as int);
    assert forall|i: int| 0 <= i < cl.len() implies #[trigger] is_root(cl, anc(cl, i, cl.len())) by {
        assert(is_star_clique(cl[i], i, sep, res_root, res_child));
        if i == 0 {
            lemma_anc_root(cl, 0, cl.len());
        } else {
            assert(anc(cl, i, cl.len()) == anc(cl, 0, (cl.len() - 1) as nat));
            lemma_anc_root(cl, 0, (cl.len() - 1) as nat);
        }
    }
}

/// Variable `v` is among the residual (eliminated) variables of clique `c`.
pub open spec fn residual_in(c: Clique, v: int) -> bool {
    exists|t: int| 0 <= t < c.n_res && c.vars@[t] == v
}

/// The shape of the balanced binary tree with `sep`-variable separators and
/// `res + 2*sep` fresh variables per clique: clique 0 is the root; every other clique
/// has an earlier parent, `res + 2*sep` residual variables and `res + 3*sep` variables in
/// all, its separator lies among its parent's variables, sibling separators are
/// disjoint, and each variable below `len * (res + 2*sep)` is residual in exactly one
/// clique, clique `v / (res + 2*sep)`.
pub open spec fn balanced_tree_shape(cl: Seq<Clique>, sep: int, res: int) -> bool {
    let f = res + 2 * sep;
    &&& cl.len() >= 1
    &&& cl[0].parent is None
    &&& cl[0].n_res == f
    &&& forall|j: int|
        1 <= j < cl.len() ==> {
            &&& (#[trigger] cl[j]).parent is Some
            &&& cl[j].parent.unwrap() < j
            &&& cl[j].n_res == f
            &&& cl[j].vars@.len() == res + 3 * sep
        }
    &&& forall|j: int, t: int|
        1 <= j < cl.len() && f <= t < cl[j].vars@.len() ==> cl[cl[j].parent.unwrap() as int].vars@.contains(
            #[trigger] cl[j].vars@[t],
        )
    &&& forall|j1: int, j2: int, t1: int, t2: int|
        1 <= j1 < cl.len() && 1 <= j2 < cl.len() && j1 != j2 && cl[j1].parent == cl[j2].parent
            && f <= t1 < cl[j1].vars@.len() && f <= t2 < cl[j2].vars@.len() ==> #[trigger] cl[j1].vars@[t1]
            != #[trigger] cl[j2].vars@[t2]
    &&& forall|v: int, i: int|
        0 <= v < cl.len() * f && 0 <= i < cl.len() ==> (#[trigger] residual_in(cl[i], v) <==> i == v / f)
}

/// The balanced binary tree has the shape of `balanced_tree_shape`: parents come first,
/// separators come from the parent, sibling separators are disjoint and the residual
/// variables partition `0..len * (res + 2*sep)`.
pub proof fn lemma_balanced_tree_shape(cl: Seq<Clique>, depth: nat, sep: int, res: int)
    requires
        depth >= 1,
        sep >= 1,
        res >= 1,
        cl.len() == pow2(depth) - 1,
        cl.len() * (res + 2 * sep) <= usize::MAX,
        forall|i: int| 0 <= i < cl.len() ==> is_binary_clique(#[trigger] cl[i], i, sep, res),
    ensures
        balanced_tree_shape(cl, sep, res),
{
    lemma_pow2_ge(depth);
    let f = res + 2 * sep;
    let n = cl.len() as int;
    assert(is_binary_clique(cl[0], 0, sep, res));
    // Residual entry `w` of clique `i` is variable `i*f + w`.
    assert forall|i: int, w: int| 0 <= i < n && 0 <= w < f implies cl[i].vars@[w] == i * f + w by {
        assert(is_binary_clique(cl[i], i, sep, res));
        assert(i * f + w < n * f) by (nonlinear_arith)
            requires
                0 <= i < n,
                0 <= w < f,
        ;
        if i == 0 {
            assert(i * f == 0);
        } else {
            assert(cl[i].vars@[w] == fresh_range(i * f, f)[w]);
        }
    }
    // Separator entry `f + u` of clique `j >= 1` is variable `p*f + c*sep + u`.
    assert forall|j: int, t: int| 1 <= j < n && f <= t < f + sep implies #[trigger] cl[j].vars@[t]
        == ((j - 1) / 2) * f + ((j - 1) % 2) * sep + (t - f) by {
        assert(is_binary_clique(cl[j], j, sep, res));
        let u = t - f;
        let p = (j - 1) / 2;
        let c = (j - 1) % 2;
        assert(0 <= p < n);
        assert(c * sep + u < f) by (nonlinear_arith)
            requires
                0 <= c <= 1,
                0 <= u < sep,
                f == res + 2 * sep,
                res >= 1,
        ;
        assert(p * f + (c * sep + u) < n * f) by (nonlinear_arith)
            requires
                0 <= p < n,
                0 <= c * sep + u < f,
        ;
        assert(cl[j].vars@[t] == fresh_range(p * f + c * sep, sep)[u]);
    }
    assert forall|j: int| 1 <= j < n implies {
        &&& (#[trigger] cl[j]).parent is Some
        &&& cl[j].parent.unwrap() < j
        &&& cl[j].n_res == f
        &&& cl[j].vars@.len() == res + 3 * sep
    } by {
        assert(is_binary_clique(cl[j], j, sep, res));
    }
    assert(n <= n * f) by (nonlinear_arith)
        requires
            n >= 0,
            f >= 1,
    ;
    lemma_balanced_tree_valid(cl, depth, sep, res);
    assert forall|j: int, t: int|
        1 <= j < n && f <= t < cl[j].vars@.len() implies cl[cl[j].parent.unwrap() as int].vars@.contains(
        #[trigger] cl[j].vars@[t],
    ) by {
        assert(clique_ok(cl, j));
        assert(is_binary_clique(cl[j], j, sep, res));
    }
    assert forall|j1: int, j2: int, t1: int, t2: int|
        1 <= j1 < n && 1 <= j2 < n && j1 != j2 && cl[j1].parent == cl[j2].parent && f <= t1
            < cl[j1].vars@.len() && f <= t2 < cl[j2].vars@.len() implies #[trigger] cl[j1].vars@[t1]
        != #[trigger] cl[j2].vars@[t2] by {
        assert(is_binary_clique(cl[j1], j1, sep, res));
        assert(is_binary_clique(cl[j2], j2, sep, res));
        let p = (j1 - 1) / 2;
        assert((j2 - 1) / 2 == p);
        let c1 = (j1 - 1) % 2;
        let c2 = (j2 - 1) % 2;
        assert(c1 != c2);
        let u1 = t1 - f;
        let u2 = t2 - f;
        assert(cl[j1].vars@[t1] == p * f + c1 * sep + u1);
        assert(cl[j2].vars@[t2] == p * f + c2 * sep + u2);
        assert(c1 * sep + u1 != c2 * sep + u2) by (nonlinear_arith)
            requires
                0 <= c1 <= 1,
                0 <= c2 <= 1,
                c1 != c2,
                0 <= u1 < sep,
                0 <= u2 < sep,
        ;
    }
    assert forall|v: int, i: int| 0 <= v < n * f && 0 <= i < n implies (#[trigger] residual_in(cl[i], v)
        <==> i == v / f) by {
        assert(is_binary_clique(cl[i], i, sep, res));
        if residual_in(cl[i], v) {
            let t = choose|t: int| 0 <= t < cl[i].n_res && cl[i].vars@[t] == v;
            assert(cl[i].vars@[t] == i * f + t);
            vstd::arithmetic::div_mod::lemma_fundamental_div_mod_converse(v, f, i, t);
        }
        if i == v / f {
            let t = v % f;
            vstd::arithmetic::div_mod::lemma_fundamental_div_mod(v, f);
            assert(0 <= t < f);
            assert(v == f * i + t);
            assert(i * f == f * i) by (nonlinear_arith);
            assert(cl[i].vars@[t] == i * f + t);
            assert(residual_in(cl[i], v));
        }
    }
}

/// The shape of the star tree: the root holds the variables `0..sep + res_root`, all of
/// them residual; every child hangs from the root with `res_child` residual variables
/// and `res_child + sep` variables in all, and its separator is the root's first `sep`
/// variables.
pub open spec fn star_tree_shape(cl: Seq<Clique>, sep: int, res_root: int, res_child: int) -> bool {
    &&& cl.len() >= 1
    &&& cl[0].parent is None
    &&& cl[0].vars@ == fresh_range(0, sep + res_root)
    &&& cl[0].n_res == sep + res_root
    &&& forall|j: int|
        1 <= j < cl.len() ==> {
            &&& (#[trigger] cl[j]).parent == Some(0usize)
            &&& cl[j].n_res == res_child
            &&& cl[j].vars@.len() == res_child + sep
            &&& cl[j].vars@.subrange(res_child, res_child + sep) == cl[0].vars@.subrange(0, sep)
        }
}

/// The star tree has the shape of `star_tree_shape`: every child's separator equals the
/// root's first `sep` variables.
pub proof fn lemma_star_tree_shape(cl: Seq<Clique>, sep: int, res_root: int, res_child: int)
    requires
        sep >= 1,
        res_root >= 0,
        res_child >= 1,
        cl.len() >= 1,
        forall|i: int|
            0 <= i < cl.len() ==> is_star_clique(#[trigger] cl[i], i, sep, res_root, res_child),
    ensures
        star_tree_shape(cl, sep, res_root, res_child),
{
    assert(is_star_clique(cl[0], 0, sep, res_root, res_child));
    assert forall|j: int| 1 <= j < cl.len() implies {
        &&& (#[trigger] cl[j]).parent == Some(0usize)
        &&& cl[j].n_res == res_child
        &&& cl[j].vars@.len() == res_child + sep
        &&& cl[j].vars@.subrange(res_child, res_child + sep) == cl[0].vars@.subrange(0, sep)
    } by {
        assert(is_star_clique(cl[j], j, sep, res_root, res_child));
        assert(cl[j].vars@.subrange(res_child, res_child + sep) =~= fresh_range(0, sep));
        assert(cl[0].vars@.subrange(0, sep) =~= fresh_range(0, sep));
    }
}

} // verus!

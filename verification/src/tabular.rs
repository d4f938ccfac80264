//! Tabular rows: the records of a label-last CSV text, the dense class indices of its
//! labels, and the deterministic train/test split.
//!
//! A record line is a line of the text, trimmed of white space, that is neither blank
//! nor a `#` comment; its fields are its comma-separated pieces, each trimmed. Class
//! indices number the distinct labels in sorted order.
//!
//! The split shuffles the row indices with a seeded linear-congruential Fisher-Yates
//! pass (from the last position down to position 1, each swapped with a position drawn
//! from the high bits of the advanced state) and cuts the shuffled order in two.
use vstd::prelude::*;
use crate::curvature_task::lcg_step;

verus! {

/// `0, 1, ..., n - 1`.
pub open spec fn identity_seq(n: nat) -> Seq<usize> {
    Seq::new(n, |i: int| i as usize)
}

/// `s` with positions `i` and `j` exchanged.
pub open spec fn swapped(s: Seq<usize>, i: int, j: int) -> Seq<usize> {
    s.update(i, s[j]).update(j, s[i])
}

/// The order and the generator state after `t` Fisher-Yates steps over `n` rows seeded
/// with `seed`.
pub open spec fn fy_state(n: nat, seed: u64, t: nat) -> (Seq<usize>, u64)
    decreases t,
{
    if t == 0 {
        (identity_seq(n), lcg_step(seed))
    } else {
        let prev = fy_state(n, seed, (t - 1) as nat);
        let st = lcg_step(prev.1);
        let i = n - t;
        let j = ((st >> 33u64) as usize as int) % (i + 1);
        (swapped(prev.0, i, j), st)
    }
}

/// Number of Fisher-Yates steps over `n` rows.
pub open spec fn fy_steps(n: nat) -> nat {
    if n == 0 {
        0
    } else {
        (n - 1) as nat
    }
}

proof fn lemma_swap_multiset(s: Seq<usize>, i: int, j: int)
    requires
        0 <= i < s.len(),
        0 <= j < s.len(),
    ensures
        swapped(s, i, j).to_multiset() == s.to_multiset(),
        swapped(s, i, j).len() == s.len(),
{
    broadcast use vstd::seq_lib::to_multiset_update;
    broadcast use vstd::multiset::group_multiset_properties;
    broadcast use vstd::multiset::group_multiset_axioms;
    broadcast use vstd::seq_lib::to_multiset_contains;
    assert(s.contains(s[i]));
    assert(s.to_multiset().count(s[i]) > 0);
    let s1 = s.update(i, s[j]);
    assert(s1.to_multiset() == s.to_multiset().insert(s[j]).remove(s[i]));
    assert(s1.update(j, s[i]).to_multiset() == s1.to_multiset().insert(s[i]).remove(s1[j]));
    assert(s1[j] == s[j]);
    assert(s.to_multiset().insert(s[j]).remove(s[i]).insert(s[i]).remove(s[j]) =~= s.to_multiset());
}

/// The shuffled row order of the split seeded with `seed`.
pub fn shuffled_order(n: usize, seed: u64) -> (order: Vec<usize>)
    ensures
        order@ == fy_state(n as nat, seed, fy_steps(n as nat)).0,
        order@.to_multiset() == identity_seq(n as nat).to_multiset(),
        order@.len() == n,
{
    let mut order: Vec<usize> = Vec::new();
    for i in 0..n
        invariant
            order@ == identity_seq(i as nat),
    {
        order.push(i);
        assert(order@ =~= identity_seq((i + 1) as nat));
    }
    let mut st = seed.wrapping_mul(crate::curvature_task::LCG_MUL).wrapping_add(
        crate::curvature_task::LCG_INC,
    );
    let mut i = n;
    let ghost mut t: nat = 0;
    while i > 1
        invariant
            1 <= i <= n || (n == 0 && i == 0),
            n >= 1 ==> t == n - i,
            n == 0 ==> t == 0,
            order@.len() == n,
            (order@, st) == fy_state(n as nat, seed, t),
            order@.to_multiset() == identity_seq(n as nat).to_multiset(),
        decreases i,
    {
        let pos = i - 1;
        st = st.wrapping_mul(crate::curvature_task::LCG_MUL).wrapping_add(
            crate::curvature_task::LCG_INC,
        );
        let j = ((st >> 33u64) as usize) % (pos + 1);
        let ghost before = order@;
        let a = order[pos];
        let b = order[j];
        order.set(pos, b);
        order.set(j, a);
        proof {
            t = t + 1;
            assert(order@ =~= swapped(before, pos as int, j as int));
            lemma_swap_multiset(before, pos as int, j as int);
        }
        i = pos;
    }
    order
}

/// Cut a row order at `cut`: the first `cut` rows train, the rest test.
pub fn split_order(order: &Vec<usize>, cut: usize) -> (r: (Vec<usize>, Vec<usize>))
    requires
        cut <= order@.len(),
    ensures
        r.0@ == order@.subrange(0, cut as int),
        r.1@ == order@.subrange(cut as int, order@.len() as int),
{
    let mut train: Vec<usize> = Vec::new();
    let mut test: Vec<usize> = Vec::new();
    let n = order.len();
    for k in 0..n
        invariant
            n == order@.len(),
            cut <= n,
            k <= cut ==> train@ == order@.subrange(0, k as int) && test@.len() == 0,
            k > cut ==> train@ == order@.subrange(0, cut as int) && test@ == order@.subrange(
                cut as int,
                k as int,
            ),
    {
        if k < cut {
            train.push(order[k]);
            assert(train@ =~= order@.subrange(0, k + 1));
        } else {
            test.push(order[k]);
            assert(test@ =~= order@.subrange(cut as int, k + 1));
        }
    }
    if n == cut {
        assert(test@ =~= order@.subrange(cut as int, n as int));
    }
    (train, test)
}

/// A split of a permutation of `0..n` is disjoint and covers every row: each row lands in
/// exactly one of the two parts.
pub proof fn lemma_split_partitions(order: Seq<usize>, n: nat, cut: int, row: usize)
    requires
        order.to_multiset() == identity_seq(n).to_multiset(),
        0 <= cut <= order.len(),
        row < n,
        n <= usize::MAX,
    ensures
        order.subrange(0, cut).to_multiset().count(row) + order.subrange(cut, order.len() as int).to_multiset().count(
            row,
        ) == 1,
{
    broadcast use vstd::multiset::group_multiset_properties;
    broadcast use vstd::seq_lib::lemma_multiset_commutative;
    let a = order.subrange(0, cut);
    let b = order.subrange(cut, order.len() as int);
    assert(order =~= a + b);
    vstd::seq_lib::lemma_multiset_commutative(a, b);
    assert(identity_seq(n).to_multiset().count(row) == 1) by {
        lemma_identity_count(n, row);
    }
}

/// Every row occurs once in `0..n`.
proof fn lemma_identity_count(n: nat, row: usize)
    requires
        row < n,
        n <= usize::MAX,
    ensures
        identity_seq(n).to_multiset().count(row) == 1,
    decreases n,
{
    broadcast use vstd::multiset::group_multiset_properties;
    broadcast use vstd::multiset::group_multiset_axioms;
    let s = identity_seq(n);
    let p = identity_seq((n - 1) as nat);
    assert(s =~= p.push((n - 1) as usize));
    broadcast use vstd::seq_lib::to_multiset_build;
    p.to_multiset_ensures();
    if row < n - 1 {
        lemma_identity_count((n - 1) as nat, row);
        assert(s.to_multiset() == p.to_multiset().insert((n - 1) as usize));
    } else {
        assert(!p.contains(row)) by {
            if p.contains(row) {
                let k = choose|k: int| 0 <= k < p.len() && p[k] == row;
                assert(p[k] == k as usize);
            }
        }
        assert(p.to_multiset().count(row) == 0);
        assert(s.to_multiset() == p.to_multiset().insert((n - 1) as usize));
    }
}

} // verus!

verus! {

/// `c` is white space (the Unicode `White_Space` property that `char::is_whitespace`
/// tests).
pub open spec fn is_ws(c: char) -> bool {
    let u = c as u32;
    ||| 9 <= u <= 13
    ||| u == 32
    ||| u == 0x85
    ||| u == 0xA0
    ||| u == 0x1680
    ||| 0x2000 <= u <= 0x200A
    ||| u == 0x2028
    ||| u == 0x2029
    ||| u == 0x202F
    ||| u == 0x205F
    ||| u == 0x3000
}

/// `s` without its leading white space.
pub open spec fn trim_start(s: Seq<char>) -> Seq<char>
    decreases s.len(),
{
    if s.len() > 0 && is_ws(s[0]) {
        trim_start(s.drop_first())
    } else {
        s
    }
}

/// `s` without its trailing white space.
pub open spec fn trim_end(s: Seq<char>) -> Seq<char>
    decreases s.len(),
{
    if s.len() > 0 && is_ws(s.last()) {
        trim_end(s.drop_last())
    } else {
        s
    }
}

/// `s` without leading and trailing white space.
pub open spec fn trim(s: Seq<char>) -> Seq<char> {
    trim_end(trim_start(s))
}

/// The pieces of `s` between occurrences of `sep` (one piece more than there are
/// separators; pieces may be empty).
pub open spec fn split_on(s: Seq<char>, sep: char) -> Seq<Seq<char>>
    decreases s.len(),
{
    if s.len() == 0 {
        seq![Seq::<char>::empty()]
    } else {
        let p = split_on(s.drop_last(), sep);
        if s.last() == sep {
            p.push(Seq::<char>::empty())
        } else {
            p.update(p.len() - 1, p.last().push(s.last()))
        }
    }
}

/// A trimmed line that holds a record: non-empty and not a `#` comment.
pub open spec fn is_record_line(l: Seq<char>) -> bool {
    l.len() > 0 && l[0] != '#'
}

/// The fields of a record line: its comma-separated pieces, each trimmed.
pub open spec fn record_fields(l: Seq<char>) -> Seq<Seq<char>> {
    split_on(l, ',').map_values(|f: Seq<char>| trim(f))
}

/// The records of the first lines: each line trimmed, blank and `#` lines skipped.
pub open spec fn records_of_lines(lines: Seq<Seq<char>>) -> Seq<Seq<Seq<char>>>
    decreases lines.len(),
{
    if lines.len() == 0 {
        Seq::empty()
    } else {
        let prev = records_of_lines(lines.drop_last());
        let l = trim(lines.last());
        if is_record_line(l) {
            prev.push(record_fields(l))
        } else {
            prev
        }
    }
}

/// The records of a CSV text: its lines trimmed, blank and `#` lines skipped, each
/// remaining line split at commas into trimmed fields.
pub open spec fn csv_records_spec(text: Seq<char>) -> Seq<Seq<Seq<char>>> {
    records_of_lines(split_on(text, '\n'))
}

/// The view of a list of fields.
pub open spec fn fields_view(r: Seq<Vec<char>>) -> Seq<Seq<char>> {
    r.map_values(|f: Vec<char>| f@)
}

/// The view of a list of records.
pub open spec fn records_view(r: Seq<Vec<Vec<char>>>) -> Seq<Seq<Seq<char>>> {
    r.map_values(|rec: Vec<Vec<char>>| fields_view(rec@))
}

/// The characters of `text`.
pub fn text_chars(text: &str) -> (r: Vec<char>)
    ensures
        r@ == text@,
{
    let mut r: Vec<char> = Vec::new();
    for c in it: text.chars()
        invariant
            r@ == it.seq().take(it.index() as int),
    {
        r.push(c);
    }
    r
}

/// Whether `c` is white space.
pub fn char_is_ws(c: char) -> (r: bool)
    ensures
        r == is_ws(c),
{
    let u = c as u32;
    (9 <= u && u <= 13) || u == 32 || u == 0x85 || u == 0xA0 || u == 0x1680 || (0x2000 <= u && u
        <= 0x200A) || u == 0x2028 || u == 0x2029 || u == 0x202F || u == 0x205F || u == 0x3000
}

/// The bounds `[i, j)` of `s[a..b]` trimmed.
fn trim_range(s: &Vec<char>, a: usize, b: usize) -> (r: (usize, usize))
    requires
        a <= b <= s@.len(),
    ensures
        a <= r.0 <= r.1 <= b,
        s@.subrange(r.0 as int, r.1 as int) == trim(s@.subrange(a as int, b as int)),
{
    let mut i = a;
    while i < b && char_is_ws(s[i])
        invariant
            a <= i <= b <= s@.len(),
            trim_start(s@.subrange(a as int, b as int)) == trim_start(s@.subrange(i as int, b as int)),
        decreases b - i,
    {
        assert(s@.subrange(i as int, b as int).drop_first() =~= s@.subrange(i + 1, b as int));
        i = i + 1;
    }
    assert(trim_start(s@.subrange(i as int, b as int)) == s@.subrange(i as int, b as int));
    let mut j = b;
    while j > i && char_is_ws(s[j - 1])
        invariant
            a <= i <= j <= b <= s@.len(),
            trim(s@.subrange(a as int, b as int)) == trim_end(s@.subrange(i as int, j as int)),
        decreases j - i,
    {
        assert(s@.subrange(i as int, j as int).drop_last() =~= s@.subrange(i as int, j - 1));
        j = j - 1;
    }
    (i, j)
}

/// `s[a..b]` as a vector.
fn char_range(s: &Vec<char>, a: usize, b: usize) -> (r: Vec<char>)
    requires
        a <= b <= s@.len(),
    ensures
        r@ == s@.subrange(a as int, b as int),
{
    let mut r: Vec<char> = Vec::new();
    for k in a..b
        invariant
            b <= s@.len(),
            r@ == s@.subrange(a as int, k as int),
    {
        r.push(s[k]);
        assert(r@ =~= s@.subrange(a as int, k + 1));
    }
    r
}

/// Splitting one more character onto the pieces of a prefix.
proof fn lemma_split_step(s: Seq<char>, sep: char, i: int)
    requires
        0 <= i < s.len(),
    ensures
        split_on(s.take(i + 1), sep) == if s[i] == sep {
            split_on(s.take(i), sep).push(Seq::<char>::empty())
        } else {
            split_on(s.take(i), sep).update(
                split_on(s.take(i), sep).len() - 1,
                split_on(s.take(i), sep).last().push(s[i]),
            )
        },
{
    assert(s.take(i + 1).drop_last() =~= s.take(i));
    assert(s.take(i + 1).last() == s[i]);
}

/// The trimmed comma-separated fields of `s[a..b]`.
fn line_fields(s: &Vec<char>, a: usize, b: usize) -> (r: Vec<Vec<char>>)
    requires
        a <= b <= s@.len(),
    ensures
        fields_view(r@) == record_fields(s@.subrange(a as int, b as int)),
{
    let ghost line = s@.subrange(a as int, b as int);
    let mut out: Vec<Vec<char>> = Vec::new();
    let mut start = a;
    let ghost mut done: Seq<Seq<char>> = Seq::empty();
    proof {
        assert(line.take(0) =~= Seq::<char>::empty());
        assert(s@.subrange(a as int, a as int) =~= Seq::<char>::empty());
        assert(done.push(Seq::<char>::empty()) =~= seq![Seq::<char>::empty()]);
        assert(done.map_values(|f: Seq<char>| trim(f)) =~= Seq::<Seq<char>>::empty());
        assert(fields_view(out@) =~= Seq::<Seq<char>>::empty());
    }
    for k in a..b
        invariant
            a <= start <= k <= b <= s@.len(),
            line == s@.subrange(a as int, b as int),
            split_on(line.take(k - a), ',') == done.push(s@.subrange(start as int, k as int)),
            fields_view(out@) == done.map_values(|f: Seq<char>| trim(f)),
    {
        proof {
            lemma_split_step(line, ',', k - a);
            assert(line[k - a] == s@[k as int]);
        }
        if s[k] == ',' {
            let (i, j) = trim_range(s, start, k);
            let f = char_range(s, i, j);
            proof {
                let piece = s@.subrange(start as int, k as int);
                assert(split_on(line.take(k - a + 1), ',') == done.push(piece).push(Seq::<char>::empty()));
                assert(fields_view(out@.push(f)) =~= fields_view(out@).push(f@));
                assert(done.push(piece).map_values(|f: Seq<char>| trim(f)) =~= done.map_values(
                    |f: Seq<char>| trim(f),
                ).push(trim(piece)));
                done = done.push(piece);
                assert(s@.subrange(k + 1, k + 1) =~= Seq::<char>::empty());
            }
            out.push(f);
            start = k + 1;
        } else {
            proof {
                let piece = s@.subrange(start as int, k as int);
                assert(piece.push(s@[k as int]) =~= s@.subrange(start as int, k + 1));
                assert(done.push(piece).update(done.len() as int, piece.push(s@[k as int])) =~= done.push(
                    s@.subrange(start as int, k + 1),
                ));
            }
        }
    }
    let (i, j) = trim_range(s, start, b);
    let f = char_range(s, i, j);
    proof {
        assert(line.take(b - a) =~= line);
        let piece = s@.subrange(start as int, b as int);
        assert(fields_view(out@.push(f)) =~= fields_view(out@).push(f@));
        assert(done.push(piece).map_values(|f: Seq<char>| trim(f)) =~= done.map_values(
            |f: Seq<char>| trim(f),
        ).push(trim(piece)));
    }
    out.push(f);
    out
}

/// Split a label-last CSV text into records: lines are split at `\n`, trimmed, blank
/// lines and `#` comments are skipped, and each remaining line is split at commas into
/// trimmed fields.
pub fn csv_records(text: &str) -> (r: Vec<Vec<Vec<char>>>)
    ensures
        records_view(r@) == csv_records_spec(text@),
{
    let s = text_chars(text);
    let n = s.len();
    let mut out: Vec<Vec<Vec<char>>> = Vec::new();
    let mut start: usize = 0;
    let ghost mut done: Seq<Seq<char>> = Seq::empty();
    proof {
        assert(s@.take(0) =~= Seq::<char>::empty());
        assert(s@.subrange(0, 0) =~= Seq::<char>::empty());
        assert(done.push(Seq::<char>::empty()) =~= seq![Seq::<char>::empty()]);
        assert(records_view(out@) =~= Seq::<Seq<Seq<char>>>::empty());
    }
    for k in 0..n
        invariant
            n == s@.len(),
            s@ == text@,
            start <= k,
            split_on(s@.take(k as int), '\n') == done.push(s@.subrange(start as int, k as int)),
            records_view(out@) == records_of_lines(done),
    {
        proof {
            lemma_split_step(s@, '\n', k as int);
        }
        if s[k] == '\n' {
            let ghost piece = s@.subrange(start as int, k as int);
            let (i, j) = trim_range(&s, start, k);
            proof {
                assert(split_on(s@.take(k + 1), '\n') == done.push(piece).push(Seq::<char>::empty()));
                assert(done.push(piece).drop_last() =~= done);
            }
            if i < j && s[i] != '#' {
                let rec = line_fields(&s, i, j);
                proof {
                    assert(records_view(out@.push(rec)) =~= records_view(out@).push(fields_view(rec@)));
                }
                out.push(rec);
            }
            proof {
                done = done.push(piece);
                assert(s@.subrange(k + 1, k + 1) =~= Seq::<char>::empty());
            }
            start = k + 1;
        } else {
            proof {
                let piece = s@.subrange(start as int, k as int);
                assert(piece.push(s@[k as int]) =~= s@.subrange(start as int, k + 1));
                assert(done.push(piece).update(done.len() as int, piece.push(s@[k as int])) =~= done.push(
                    s@.subrange(start as int, k + 1),
                ));
            }
        }
    }
    let ghost piece = s@.subrange(start as int, n as int);
    let (i, j) = trim_range(&s, start, n);
    proof {
        assert(s@.take(n as int) =~= s@);
        assert(done.push(piece).drop_last() =~= done);
    }
    if i < j && s[i] != '#' {
        let rec = line_fields(&s, i, j);
        proof {
            assert(records_view(out@.push(rec)) =~= records_view(out@).push(fields_view(rec@)));
        }
        out.push(rec);
    }
    out
}

} // verus!

verus! {

/// Lexicographic order of character strings (a proper prefix comes first), the order
/// of `String`'s comparison.
pub open spec fn lex_lt(a: Seq<char>, b: Seq<char>) -> bool
    decreases a.len(),
{
    if a.len() == 0 {
        b.len() > 0
    } else if b.len() == 0 {
        false
    } else if a[0] < b[0] {
        true
    } else if a[0] == b[0] {
        lex_lt(a.drop_first(), b.drop_first())
    } else {
        false
    }
}

proof fn lemma_lex_irreflexive(a: Seq<char>)
    ensures
        !lex_lt(a, a),
    decreases a.len(),
{
    if a.len() > 0 {
        lemma_lex_irreflexive(a.drop_first());
    }
}

proof fn lemma_lex_total(a: Seq<char>, b: Seq<char>)
    ensures
        a == b || lex_lt(a, b) || lex_lt(b, a),
    decreases a.len(),
{
    if a.len() > 0 && b.len() > 0 && a[0] == b[0] {
        lemma_lex_total(a.drop_first(), b.drop_first());
        if a.drop_first() == b.drop_first() {
            assert(a =~= seq![a[0]] + a.drop_first());
            assert(b =~= seq![b[0]] + b.drop_first());
        }
    } else if a.len() == 0 && b.len() == 0 {
        assert(a =~= b);
    }
}

proof fn lemma_lex_asymmetric(a: Seq<char>, b: Seq<char>)
    requires
        lex_lt(a, b),
    ensures
        !lex_lt(b, a),
    decreases a.len(),
{
    if a.len() > 0 && b.len() > 0 && a[0] == b[0] {
        lemma_lex_asymmetric(a.drop_first(), b.drop_first());
    }
}

proof fn lemma_lex_transitive(a: Seq<char>, b: Seq<char>, c: Seq<char>)
    requires
        lex_lt(a, b),
        lex_lt(b, c),
    ensures
        lex_lt(a, c),
    decreases a.len(),
{
    if a.len() > 0 && b.len() > 0 && c.len() > 0 && a[0] == b[0] && b[0] == c[0] {
        lemma_lex_transitive(a.drop_first(), b.drop_first(), c.drop_first());
    }
}

/// Whether two character strings are equal.
pub fn chars_eq(a: &Vec<char>, b: &Vec<char>) -> (r: bool)
    ensures
        r == (a@ == b@),
{
    if a.len() != b.len() {
        return false;
    }
    let n = a.len();
    for k in 0..n
        invariant
            n == a@.len(),
            n == b@.len(),
            forall|t: int| 0 <= t < k ==> a@[t] == b@[t],
    {
        if a[k] != b[k] {
            return false;
        }
    }
    assert(a@ =~= b@);
    true
}

/// Whether `a` comes before `b` lexicographically.
pub fn chars_less(a: &Vec<char>, b: &Vec<char>) -> (r: bool)
    ensures
        r == lex_lt(a@, b@),
{
    let mut k: usize = 0;
    assert(a@.skip(0) =~= a@ && b@.skip(0) =~= b@);
    while k < a.len() && k < b.len() && a[k] == b[k]
        invariant
            k <= a@.len(),
            k <= b@.len(),
            lex_lt(a@, b@) == lex_lt(a@.skip(k as int), b@.skip(k as int)),
        decreases a@.len() - k,
    {
        assert(a@.skip(k as int).drop_first() =~= a@.skip(k + 1));
        assert(b@.skip(k as int).drop_first() =~= b@.skip(k + 1));
        k = k + 1;
    }
    if k == a.len() {
        k < b.len()
    } else if k == b.len() {
        false
    } else {
        let ca = a[k];
        let cb = b[k];
        assert(a@.skip(k as int)[0] == ca && b@.skip(k as int)[0] == cb);
        ca < cb
    }
}

/// `l` is one of `items`.
pub open spec fn listed(items: Seq<Vec<char>>, l: Seq<char>) -> bool {
    exists|i: int| 0 <= i < items.len() && #[trigger] items[i]@ == l
}

/// The distinct class labels in sorted order and each row's class index: `names` is
/// strictly increasing, holds exactly the labels that occur, and row `i`'s class is the
/// position of its label in `names`.
pub fn class_index(labels: &Vec<Vec<char>>) -> (r: (Vec<Vec<char>>, Vec<usize>))
    ensures
        forall|i: int, j: int| 0 <= i < j < r.0@.len() ==> lex_lt(#[trigger] r.0@[i]@, #[trigger] r.0@[j]@),
        forall|i: int| 0 <= i < r.0@.len() ==> listed(labels@, #[trigger] r.0@[i]@),
        r.1@.len() == labels@.len(),
        forall|k: int| 0 <= k < labels@.len() ==> (#[trigger] r.1@[k] as int) < r.0@.len() && r.0@[r.1@[k] as int]@ == labels@[k]@,
{
    let m = labels.len();
    let mut names: Vec<Vec<char>> = Vec::new();
    let mut k: usize = 0;
    while k < m
        invariant
            k <= m,
            m == labels@.len(),
            forall|i: int, j: int| 0 <= i < j < names@.len() ==> lex_lt(#[trigger] names@[i]@, #[trigger] names@[j]@),
            forall|i: int| 0 <= i < names@.len() ==> listed(labels@, #[trigger] names@[i]@),
            forall|t: int| 0 <= t < k ==> listed(names@, #[trigger] labels@[t]@),
        decreases m - k,
    {
        let lab = &labels[k];
        let mut p: usize = 0;
        let mut found = false;
        while p < names.len() && !found && chars_less(&names[p], lab)
            invariant
                p <= names@.len(),
                found ==> p < names@.len() && names@[p as int]@ == lab@,
                forall|i: int| 0 <= i < p ==> lex_lt(#[trigger] names@[i]@, lab@),
            decreases names@.len() - p, if found { 0int } else { 1int },
        {
            if p + 1 < names.len() && chars_eq(&names[p + 1], lab) {
                found = true;
                p = p + 1;
            } else {
                p = p + 1;
            }
        }
        let ghost before = names@;
        if !found && p < names.len() && chars_eq(&names[p], lab) {
            found = true;
        }
        if !found {
            proof {
                if p < names@.len() {
                    lemma_lex_total(names@[p as int]@, lab@);
                }
            }
            names.insert(p, lab.clone());
            proof {
                assert(names@[p as int]@ == lab@);
                assert forall|i: int, j: int| 0 <= i < j < names@.len() implies lex_lt(#[trigger] names@[i]@, #[trigger] names@[j]@) by {
                    if j < p {
                        assert(names@[i] == before[i] && names@[j] == before[j]);
                    } else if j == p {
                        assert(names@[i] == before[i]);
                    } else if i < p {
                        assert(names@[i] == before[i] && names@[j] == before[j - 1]);
                        assert(lex_lt(before[i]@, lab@));
                        assert(lex_lt(lab@, before[p as int]@));
                        if j - 1 > p {
                            assert(lex_lt(before[p as int]@, before[j - 1]@));
                            lemma_lex_transitive(lab@, before[p as int]@, before[j - 1]@);
                        }
                        lemma_lex_transitive(before[i]@, lab@, before[j - 1]@);
                    } else if i == p {
                        assert(names@[j] == before[j - 1]);
                        assert(lex_lt(lab@, before[p as int]@));
                        if j - 1 > p {
                            assert(lex_lt(before[p as int]@, before[j - 1]@));
                            lemma_lex_transitive(lab@, before[p as int]@, before[j - 1]@);
                        }
                    } else {
                        assert(names@[i] == before[i - 1] && names@[j] == before[j - 1]);
                    }
                }
                assert forall|i: int| 0 <= i < names@.len() implies listed(labels@, #[trigger] names@[i]@) by {
                    if i < p {
                        assert(names@[i] == before[i]);
                    } else if i == p {
                        assert(labels@[k as int]@ == names@[i]@);
                    } else {
                        assert(names@[i] == before[i - 1]);
                    }
                }
                assert forall|t: int| 0 <= t < k + 1 implies listed(names@, #[trigger] labels@[t]@) by {
                    if t == k {
                        assert(names@[p as int]@ == labels@[t]@);
                    } else {
                        assert(listed(before, labels@[t]@));
                        let i0 = choose|i: int| 0 <= i < before.len() && #[trigger] before[i]@ == labels@[t]@;
                        if i0 < p {
                            assert(names@[i0] == before[i0]);
                        } else {
                            assert(names@[i0 + 1] == before[i0]);
                        }
                    }
                }
            }
        } else {
            proof {
                assert(names@[p as int]@ == labels@[k as int]@);
            }
        }
        k = k + 1;
    }
    let mut y: Vec<usize> = Vec::new();
    for k in 0..m
        invariant
            m == labels@.len(),
            y@.len() == k,
            forall|t: int| 0 <= t < m ==> listed(names@, #[trigger] labels@[t]@),
            forall|t: int| 0 <= t < k ==> (#[trigger] y@[t] as int) < names@.len() && names@[y@[t] as int]@ == labels@[t]@,
    {
        let mut q: usize = 0;
        let nn = names.len();
        proof {
            assert(listed(names@, labels@[k as int]@));
        }
        let ghost target = choose|i: int| 0 <= i < names@.len() && #[trigger] names@[i]@ == labels@[k as int]@;
        while q < nn && !chars_eq(&names[q], &labels[k])
            invariant
                k < m,
                m == labels@.len(),
                nn == names@.len(),
                q <= nn,
                0 <= target < nn,
                names@[target]@ == labels@[k as int]@,
                forall|i: int| 0 <= i < q ==> names@[i]@ != labels@[k as int]@,
            decreases nn - q,
        {
            q = q + 1;
        }
        proof {
            assert(q <= target);
            assert(q < nn);
        }
        y.push(q);
    }
    (names, y)
}

} // verus!

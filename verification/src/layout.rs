//! How the entries of a node lie in order: the entries of its first child,
//! the first separator, the entries of its second child, and so on.

use vstd::prelude::*;

verus! {

/// The entries of the children `from..to`, each followed by its separator.
pub open spec fn run<T>(parts: Seq<Seq<T>>, seps: Seq<T>, from: int, to: int) -> Seq<T>
    decreases to - from,
{
    if to <= from {
        Seq::empty()
    } else {
        run(parts, seps, from, to - 1) + parts[to - 1] + seq![seps[to - 1]]
    }
}

/// The entries behind child `i`: its separator, the next child, and so on.
pub open spec fn after<T>(parts: Seq<Seq<T>>, seps: Seq<T>, i: int) -> Seq<T>
    decreases seps.len() - i,
{
    if i >= seps.len() {
        Seq::empty()
    } else {
        seq![seps[i]] + parts[i + 1] + after(parts, seps, i + 1)
    }
}

/// All entries in order, where `parts` are the entries of the children and
/// `seps` the separators between them.
pub open spec fn flatten<T>(parts: Seq<Seq<T>>, seps: Seq<T>) -> Seq<T> {
    run(parts, seps, 0, seps.len() as int) + parts[seps.len() as int]
}

/// The number of entries in the first `n` of `parts`.
pub open spec fn total_len<T>(parts: Seq<Seq<T>>, n: int) -> int
    decreases n,
{
    if n <= 0 {
        0
    } else {
        total_len(parts, n - 1) + parts[n - 1].len()
    }
}

/// A run can be cut anywhere.
pub proof fn lemma_run_split<T>(parts: Seq<Seq<T>>, seps: Seq<T>, from: int, mid: int, to: int)
    requires
        from <= mid <= to,
    ensures
        run(parts, seps, from, to) == run(parts, seps, from, mid) + run(parts, seps, mid, to),
    decreases to - mid,
{
    if mid == to {
        assert(run(parts, seps, from, to) =~= run(parts, seps, from, mid) + run(
            parts,
            seps,
            mid,
            to,
        ));
    } else {
        lemma_run_split(parts, seps, from, mid, to - 1);
        assert(run(parts, seps, from, to) =~= run(parts, seps, from, mid) + run(
            parts,
            seps,
            mid,
            to,
        ));
    }
}

/// A run has the entries of its children and one separator for each.
pub proof fn lemma_run_len<T>(parts: Seq<Seq<T>>, seps: Seq<T>, to: int)
    requires
        0 <= to,
    ensures
        run(parts, seps, 0, to).len() == total_len(parts, to) + to,
    decreases to,
{
    if to > 0 {
        lemma_run_len(parts, seps, to - 1);
    }
}

/// Runs over equal stretches of children and separators are equal, wherever
/// the stretches start.
pub proof fn lemma_run_same<T>(
    parts: Seq<Seq<T>>,
    seps: Seq<T>,
    from: int,
    to: int,
    parts2: Seq<Seq<T>>,
    seps2: Seq<T>,
    shift: int,
)
    requires
        from <= to,
        forall|j: int| from <= j < to ==> #[trigger] parts2[j + shift] == parts[j],
        forall|j: int| from <= j < to ==> #[trigger] seps2[j + shift] == seps[j],
    ensures
        run(parts2, seps2, from + shift, to + shift) == run(parts, seps, from, to),
    decreases to - from,
{
    if from < to {
        lemma_run_same(parts, seps, from, to - 1, parts2, seps2, shift);
        assert(parts2[(to - 1) + shift] == parts[to - 1]);
        assert(seps2[(to - 1) + shift] == seps[to - 1]);
    }
}

/// What lies behind a child depends only on the separators and children
/// behind it.
pub proof fn lemma_after_same<T>(
    parts: Seq<Seq<T>>,
    seps: Seq<T>,
    i: int,
    parts2: Seq<Seq<T>>,
    seps2: Seq<T>,
    i2: int,
)
    requires
        0 <= i <= seps.len(),
        0 <= i2,
        seps2.len() - i2 == seps.len() - i,
        forall|k: int| 0 <= k < seps.len() - i ==> #[trigger] seps2[i2 + k] == seps[i + k],
        forall|k: int| 0 <= k < seps.len() - i ==> #[trigger] parts2[i2 + k + 1] == parts[i + k + 1],
    ensures
        after(parts2, seps2, i2) == after(parts, seps, i),
    decreases seps.len() - i,
{
    if i < seps.len() {
        assert(seps2[i2 + 0] == seps[i + 0]);
        assert(parts2[i2 + 0 + 1] == parts[i + 0 + 1]);
        assert forall|k: int| 0 <= k < seps.len() - (i + 1) implies #[trigger] seps2[(i2 + 1) + k]
            == seps[(i + 1) + k] by {
            assert(seps2[i2 + (k + 1)] == seps[i + (k + 1)]);
        }
        assert forall|k: int| 0 <= k < seps.len() - (i + 1) implies #[trigger] parts2[(i2 + 1) + k
            + 1] == parts[(i + 1) + k + 1] by {
            assert(parts2[i2 + (k + 1) + 1] == parts[i + (k + 1) + 1]);
        }
        lemma_after_same(parts, seps, i + 1, parts2, seps2, i2 + 1);
    }
}

/// The whole is what lies before child `i`, child `i`, and what lies behind.
pub proof fn lemma_flatten_at<T>(parts: Seq<Seq<T>>, seps: Seq<T>, i: int)
    requires
        0 <= i <= seps.len(),
    ensures
        flatten(parts, seps) == run(parts, seps, 0, i) + parts[i] + after(parts, seps, i),
    decreases seps.len() - i,
{
    if i == seps.len() {
        assert(flatten(parts, seps) =~= run(parts, seps, 0, i) + parts[i] + after(parts, seps, i));
    } else {
        lemma_flatten_at(parts, seps, i + 1);
        assert(flatten(parts, seps) =~= run(parts, seps, 0, i) + parts[i] + after(parts, seps, i));
    }
}

/// The whole around the separator `i`: what lies before child `i`, the two
/// children with the separator between them, and what lies behind child `i + 1`.
pub proof fn lemma_flatten_pair<T>(parts: Seq<Seq<T>>, seps: Seq<T>, i: int)
    requires
        0 <= i < seps.len(),
    ensures
        flatten(parts, seps) == run(parts, seps, 0, i) + parts[i] + seq![seps[i]] + parts[i + 1]
            + after(parts, seps, i + 1),
{
    lemma_flatten_at(parts, seps, i);
    assert(flatten(parts, seps) =~= run(parts, seps, 0, i) + parts[i] + seq![seps[i]] + parts[i
        + 1] + after(parts, seps, i + 1));
}

/// The number of entries of the whole.
pub proof fn lemma_flatten_len<T>(parts: Seq<Seq<T>>, seps: Seq<T>)
    ensures
        flatten(parts, seps).len() == seps.len() + total_len(parts, seps.len() as int + 1),
{
    lemma_run_len(parts, seps, seps.len() as int);
}

/// Replacing child `i` replaces its entries in the whole.
pub proof fn lemma_flatten_update<T>(parts: Seq<Seq<T>>, seps: Seq<T>, i: int, part: Seq<T>)
    requires
        0 <= i <= seps.len(),
        parts.len() == seps.len() + 1,
    ensures
        flatten(parts.update(i, part), seps) == run(parts, seps, 0, i) + part + after(
            parts,
            seps,
            i,
        ),
{
    let parts2 = parts.update(i, part);
    lemma_flatten_at(parts2, seps, i);
    lemma_run_same(parts, seps, 0, i, parts2, seps, 0);
    lemma_after_same(parts, seps, i, parts2, seps, i);
}

/// Putting `left`, `mid`, `right` in the place of child `i` leaves the whole
/// as it was, where they are the entries of child `i`.
pub proof fn lemma_flatten_split<T>(
    parts: Seq<Seq<T>>,
    seps: Seq<T>,
    i: int,
    left: Seq<T>,
    mid: T,
    right: Seq<T>,
)
    requires
        0 <= i <= seps.len(),
        parts.len() == seps.len() + 1,
    ensures
        flatten(parts.update(i, left).insert(i + 1, right), seps.insert(i, mid)) == run(
            parts,
            seps,
            0,
            i,
        ) + (left + seq![mid] + right) + after(parts, seps, i),
{
    let parts2 = parts.update(i, left).insert(i + 1, right);
    let seps2 = seps.insert(i, mid);
    lemma_flatten_pair(parts2, seps2, i);
    lemma_run_same(parts, seps, 0, i, parts2, seps2, 0);
    lemma_after_same(parts, seps, i, parts2, seps2, i + 1);
    assert(flatten(parts2, seps2) =~= run(parts, seps, 0, i) + (left + seq![mid] + right) + after(
        parts,
        seps,
        i,
    ));
}

/// Putting one child with the entries `merged` in the place of the children
/// `i` and `i + 1` and their separator.
pub proof fn lemma_flatten_merge<T>(parts: Seq<Seq<T>>, seps: Seq<T>, i: int, merged: Seq<T>)
    requires
        0 <= i < seps.len(),
        parts.len() == seps.len() + 1,
    ensures
        flatten(parts.update(i, merged).remove(i + 1), seps.remove(i)) == run(parts, seps, 0, i)
            + merged + after(parts, seps, i + 1),
{
    let parts2 = parts.update(i, merged).remove(i + 1);
    let seps2 = seps.remove(i);
    lemma_flatten_at(parts2, seps2, i);
    lemma_run_same(parts, seps, 0, i, parts2, seps2, 0);
    lemma_after_same(parts, seps, i + 1, parts2, seps2, i);
}

/// Replacing the children `i` and `i + 1` and their separator.
pub proof fn lemma_flatten_rewrite<T>(
    parts: Seq<Seq<T>>,
    seps: Seq<T>,
    i: int,
    left: Seq<T>,
    mid: T,
    right: Seq<T>,
)
    requires
        0 <= i < seps.len(),
        parts.len() == seps.len() + 1,
    ensures
        flatten(parts.update(i, left).update(i + 1, right), seps.update(i, mid)) == run(
            parts,
            seps,
            0,
            i,
        ) + left + seq![mid] + right + after(parts, seps, i + 1),
{
    let parts2 = parts.update(i, left).update(i + 1, right);
    let seps2 = seps.update(i, mid);
    lemma_flatten_pair(parts2, seps2, i);
    lemma_run_same(parts, seps, 0, i, parts2, seps2, 0);
    lemma_after_same(parts, seps, i + 1, parts2, seps2, i + 1);
}

/// Where the entries of child `i` start in the whole.
pub open spec fn child_offset<T>(parts: Seq<Seq<T>>, seps: Seq<T>, i: int) -> int {
    run(parts, seps, 0, i).len() as int
}

/// Where separator `i` stands in the whole.
pub open spec fn sep_index<T>(parts: Seq<Seq<T>>, seps: Seq<T>, i: int) -> int {
    (run(parts, seps, 0, i).len() + parts[i].len()) as int
}

/// Children and separators stand in the whole in the order of their indices.
pub proof fn lemma_positions<T>(parts: Seq<Seq<T>>, seps: Seq<T>, i: int)
    requires
        0 <= i <= seps.len(),
        parts.len() == seps.len() + 1,
    ensures
        0 <= child_offset(parts, seps, i),
        child_offset(parts, seps, i) + parts[i].len() <= flatten(parts, seps).len(),
        forall|k: int|
            0 <= k < parts[i].len() ==> flatten(parts, seps)[child_offset(parts, seps, i) + k]
                == #[trigger] parts[i][k],
        i < seps.len() ==> sep_index(parts, seps, i) < flatten(parts, seps).len() && flatten(
            parts,
            seps,
        )[sep_index(parts, seps, i)] == seps[i] && child_offset(parts, seps, i + 1) == sep_index(
            parts,
            seps,
            i,
        ) + 1,
        forall|j: int| 0 <= j < i ==> #[trigger] sep_index(parts, seps, j) < child_offset(parts, seps, i),
{
    lemma_flatten_at(parts, seps, i);
    assert forall|j: int| 0 <= j < i implies #[trigger] sep_index(parts, seps, j) < child_offset(
        parts,
        seps,
        i,
    ) by {
        lemma_run_split(parts, seps, 0, j + 1, i);
    }
}

/// Replacing separator `i` replaces it in the whole.
pub proof fn lemma_flatten_set_sep<T>(parts: Seq<Seq<T>>, seps: Seq<T>, i: int, sep: T)
    requires
        0 <= i < seps.len(),
        parts.len() == seps.len() + 1,
    ensures
        flatten(parts, seps.update(i, sep)) == flatten(parts, seps).update(
            sep_index(parts, seps, i),
            sep,
        ),
{
    lemma_flatten_rewrite(parts, seps, i, parts[i], sep, parts[i + 1]);
    assert(parts.update(i, parts[i]).update(i + 1, parts[i + 1]) =~= parts);
    lemma_flatten_pair(parts, seps, i);
    assert(flatten(parts, seps.update(i, sep)) =~= flatten(parts, seps).update(
        sep_index(parts, seps, i),
        sep,
    ));
}

/// The whole is the whole of the children up to child `s`, the separator
/// `s`, and the whole of the children behind.
pub proof fn lemma_flatten_cut<T>(parts: Seq<Seq<T>>, seps: Seq<T>, s: int)
    requires
        0 <= s < seps.len(),
        parts.len() == seps.len() + 1,
    ensures
        flatten(parts, seps) == flatten(parts.subrange(0, s + 1), seps.subrange(0, s)) + seq![
            seps[s],
        ] + flatten(
            parts.subrange(s + 1, parts.len() as int),
            seps.subrange(s + 1, seps.len() as int),
        ),
{
    let lp = parts.subrange(0, s + 1);
    let ls = seps.subrange(0, s);
    let rp = parts.subrange(s + 1, parts.len() as int);
    let rs = seps.subrange(s + 1, seps.len() as int);
    lemma_flatten_pair(parts, seps, s);
    lemma_run_same(parts, seps, 0, s, lp, ls, 0);
    lemma_flatten_at(rp, rs, 0);
    lemma_after_same(parts, seps, s + 1, rp, rs, 0);
    assert(flatten(parts, seps) =~= flatten(lp, ls) + seq![seps[s]] + flatten(rp, rs));
}

} // verus!

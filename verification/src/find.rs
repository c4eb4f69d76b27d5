//! Range queries: the keys that a predicate picks out of the map, where the
//! predicate parts the keys in order into those left of the range, those in
//! it and those right of it.

use crate::entries::{keys_sorted, lemma_sorted_pieces};
use crate::keys::{compare, lemma_lt_transitive, lemma_trichotomy, lt, total_order, KeyOrder};
use crate::layout::{after, lemma_flatten_at, lemma_positions, lemma_run_split, run, sep_index};
use crate::node::Node;
use std::sync::Arc;
use vstd::prelude::*;

verus! {

/// What a predicate says of a key: that it lies left of the range asked
/// for, in it, or right of it.
#[derive(PartialEq, Eq, PartialOrd, Ord)]
pub enum PredicateResult {
    Left,
    Match,
    Right,
}

/// The keys of a map that a predicate matches: none, or the smallest and the
/// largest of them and their number.
#[derive(Debug)]
pub enum KeyRangeResult<'a, K> {
    /// No key is matched.
    Empty,
    /// The matched keys reach from `start` to `end`, and there are `n` of them.
    Span { start: &'a K, end: &'a K, n: usize },
}

/// A range as a value: the smallest key, the largest key, and the number of
/// keys.
pub type Range<K> = Option<(K, K, int)>;

impl<'a, K> View for KeyRangeResult<'a, K> {
    type V = Range<K>;

    open spec fn view(&self) -> Range<K> {
        match *self {
            KeyRangeResult::Empty => None,
            KeyRangeResult::Span { start, end, n } => Some((*start, *end, n as int)),
        }
    }
}

/// The place of a predicate's answer in the order left, match, right.
pub open spec fn level(answer: PredicateResult) -> int {
    match answer {
        PredicateResult::Left => 0,
        PredicateResult::Match => 1,
        PredicateResult::Right => 2,
    }
}

/// `predicate` may say `answer` of `key`.
pub open spec fn said<K, P: Fn(&K) -> PredicateResult>(
    predicate: &P,
    key: K,
    answer: PredicateResult,
) -> bool {
    call_ensures(*predicate, (&key,), answer)
}

/// `predicate` can be asked about every key of `s`, and of none of them it
/// says anything but what `class` says.
pub open spec fn classifies<K, V, P: Fn(&K) -> PredicateResult>(
    predicate: &P,
    class: spec_fn(K) -> PredicateResult,
    s: Seq<(K, V)>,
) -> bool {
    forall|i: int|
        0 <= i < s.len() ==> call_requires(*predicate, (&(#[trigger] s[i]).0,)) && forall|
            answer: PredicateResult,
        |
            said(predicate, s[i].0, answer) ==> answer == class(s[i].0)
}

/// Along `s` what `class` says never steps back: first the keys left of
/// the range, then those in it, then those right of it.
pub open spec fn monotone_by<K, V>(class: spec_fn(K) -> PredicateResult, s: Seq<(K, V)>) -> bool {
    forall|i: int, j: int|
        #![trigger s[i], s[j]]
        0 <= i <= j < s.len() ==> level(class(s[i].0)) <= level(class(s[j].0))
}

/// `class` says what `predicate` says of the keys of `s`, and is monotone
/// along `s`.
pub open spec fn describes<K, V, P: Fn(&K) -> PredicateResult>(
    predicate: &P,
    class: spec_fn(K) -> PredicateResult,
    s: Seq<(K, V)>,
) -> bool {
    classifies(predicate, class, s) && monotone_by(class, s)
}

/// `predicate` is monotone on `s`: it can be asked about every key of `s`,
/// and what it says is what some classification says that never steps back
/// along `s`.
pub open spec fn monotone<K, V, P: Fn(&K) -> PredicateResult>(
    predicate: &P,
    s: Seq<(K, V)>,
) -> bool {
    exists|class: spec_fn(K) -> PredicateResult| describes(predicate, class, s)
}

/// The number of entries of `s` of whose key `class` says `answer`.
pub open spec fn count_of<K, V>(
    class: spec_fn(K) -> PredicateResult,
    s: Seq<(K, V)>,
    answer: PredicateResult,
) -> int
    decreases s.len(),
{
    if s.len() == 0 {
        0
    } else {
        count_of(class, s.drop_last(), answer) + if class(s.last().0) == answer {
            1int
        } else {
            0int
        }
    }
}

/// The range that `class` picks out of `s`: as many keys as it matches,
/// from the first behind those left of the range to the last of them.
pub open spec fn range_of<K, V>(
    class: spec_fn(K) -> PredicateResult, s: Seq<(K, V)>) -> Range<
    K,
> {
    let left = count_of(class, s, PredicateResult::Left);
    let matched = count_of(class, s, PredicateResult::Match);
    if matched == 0 {
        None
    } else {
        Some((s[left].0, s[left + matched - 1].0, matched))
    }
}

/// The smaller of two keys.
pub open spec fn min_key<K: Ord>(a: K, b: K) -> K {
    if lt(b, a) {
        b
    } else {
        a
    }
}

/// The larger of two keys.
pub open spec fn max_key<K: Ord>(a: K, b: K) -> K {
    if lt(b, a) {
        a
    } else {
        b
    }
}

/// Two ranges taken together: the smaller start, the larger end, and the
/// numbers added.
pub open spec fn merged<K: Ord>(a: Range<K>, b: Range<K>) -> Range<K> {
    match (a, b) {
        (None, _) => b,
        (_, None) => a,
        (Some(x), Some(y)) => Some((min_key(x.0, y.0), max_key(x.1, y.1), x.2 + y.2)),
    }
}

/// The number of keys of a range.
pub open spec fn size<K>(range: Range<K>) -> int {
    match range {
        None => 0,
        Some(r) => r.2,
    }
}

impl<'a, K: Ord> KeyRangeResult<'a, K> {
    /// Takes two ranges together: the smaller start, the larger end, the
    /// numbers added. No range and a range give the range.
    #[must_use]
    pub fn merge_into(self, other: Self) -> (res: Self)
        requires
            total_order::<K>(),
            size(self@) + size(other@) <= usize::MAX,
        ensures
            res@ == merged(self@, other@),
    {
        match self {
            KeyRangeResult::Empty => other,
            KeyRangeResult::Span { start: self_start, end: self_end, n: self_n } => {
                match other {
                    KeyRangeResult::Empty => KeyRangeResult::Span {
                        start: self_start,
                        end: self_end,
                        n: self_n,
                    },
                    KeyRangeResult::Span { start, end, n } => {
                        let first = match compare(start, self_start) {
                            KeyOrder::Less => start,
                            _ => self_start,
                        };
                        let last = match compare(end, self_end) {
                            KeyOrder::Less => self_end,
                            _ => end,
                        };
                        KeyRangeResult::Span { start: first, end: last, n: self_n + n }
                    },
                }
            },
        }
    }

    /// The number of keys in the range.
    pub fn n(&self) -> (res: usize)
        ensures
            res == size(self@),
    {
        match self {
            KeyRangeResult::Empty => 0,
            KeyRangeResult::Span { n, .. } => *n,
        }
    }

    /// The smallest key of the range.
    pub fn start_key(&self) -> (res: Option<&K>)
        ensures
            res == match self@ {
                None => None::<&K>,
                Some(range) => Some(&range.0),
            },
    {
        match self {
            KeyRangeResult::Empty => None,
            KeyRangeResult::Span { start, .. } => Some(*start),
        }
    }

    /// The largest key of the range.
    pub fn end_key(&self) -> (res: Option<&K>)
        ensures
            res == match self@ {
                None => None::<&K>,
                Some(range) => Some(&range.1),
            },
    {
        match self {
            KeyRangeResult::Empty => None,
            KeyRangeResult::Span { end, .. } => Some(*end),
        }
    }
}


/// Taking ranges together does not depend on their order.
pub proof fn lemma_merged_commutes<K: Ord>(a: Range<K>, b: Range<K>)
    requires
        total_order::<K>(),
    ensures
        merged(a, b) == merged(b, a),
{
    if let (Some(x), Some(y)) = (a, b) {
        lemma_trichotomy(x.0, y.0);
        lemma_trichotomy(x.1, y.1);
    }
}

/// Taking ranges together does not depend on their grouping.
pub proof fn lemma_merged_associates<K: Ord>(a: Range<K>, b: Range<K>, c: Range<K>)
    requires
        total_order::<K>(),
    ensures
        merged(merged(a, b), c) == merged(a, merged(b, c)),
{
    if let (Some(x), Some(y), Some(z)) = (a, b, c) {
        lemma_min_associates(x.0, y.0, z.0);
        lemma_max_associates(x.1, y.1, z.1);
    }
}

proof fn lemma_min_associates<K: Ord>(x: K, y: K, z: K)
    requires
        total_order::<K>(),
    ensures
        min_key(min_key(x, y), z) == min_key(x, min_key(y, z)),
{
    lemma_trichotomy(x, y);
    lemma_trichotomy(y, z);
    lemma_trichotomy(x, z);
    if lt(z, y) && lt(y, x) {
        lemma_lt_transitive(z, y, x);
    }
    if lt(x, y) && lt(y, z) {
        lemma_lt_transitive(x, y, z);
    }
}

proof fn lemma_max_associates<K: Ord>(x: K, y: K, z: K)
    requires
        total_order::<K>(),
    ensures
        max_key(max_key(x, y), z) == max_key(x, max_key(y, z)),
{
    lemma_trichotomy(x, y);
    lemma_trichotomy(y, z);
    lemma_trichotomy(x, z);
    if lt(z, y) && lt(y, x) {
        lemma_lt_transitive(z, y, x);
    }
    if lt(x, y) && lt(y, z) {
        lemma_lt_transitive(x, y, z);
    }
}

/// Counting over two stretches adds up.
pub proof fn lemma_count_concat<K, V>(
    class: spec_fn(K) -> PredicateResult,
    a: Seq<(K, V)>,
    b: Seq<(K, V)>,
    answer: PredicateResult,
)
    ensures
        count_of(class, a + b, answer) == count_of(class, a, answer) + count_of(class,
            b,
            answer,
        ),
    decreases b.len(),
{
    if b.len() == 0 {
        assert(a + b =~= a);
    } else {
        assert((a + b).drop_last() =~= a + b.drop_last());
        lemma_count_concat(class, a, b.drop_last(), answer);
    }
}

/// A count is at least zero and at most the number of entries.
pub proof fn lemma_count_bounds<K, V>(
    class: spec_fn(K) -> PredicateResult,
    s: Seq<(K, V)>,
)
    ensures
        0 <= count_of(class, s, PredicateResult::Left),
        0 <= count_of(class, s, PredicateResult::Match),
        0 <= count_of(class, s, PredicateResult::Right),
        count_of(class, s, PredicateResult::Left) + count_of(class,
            s,
            PredicateResult::Match,
        ) + count_of(class, s, PredicateResult::Right) == s.len(),
    decreases s.len(),
{
    if s.len() > 0 {
        lemma_count_bounds(class, s.drop_last());
    }
}

/// Along a sequence on which the classification is monotone, the keys left of the
/// range come first, as many as are counted, then those matched, then those
/// right of it.
pub proof fn lemma_zones<K, V>(
    class: spec_fn(K) -> PredicateResult, s: Seq<(K, V)>)
    requires
        monotone_by(class, s),
    ensures
        ({
            let left = count_of(class, s, PredicateResult::Left);
            let matched = count_of(class, s, PredicateResult::Match);
            &&& 0 <= left
            &&& 0 <= matched
            &&& left + matched <= s.len()
            &&& forall|i: int|
                0 <= i < left ==> class((#[trigger] s[i]).0) == PredicateResult::Left
            &&& forall|i: int|
                left <= i < left + matched ==> class((#[trigger] s[i]).0)
                    == PredicateResult::Match
            &&& forall|i: int|
                left + matched <= i < s.len() ==> class((#[trigger] s[i]).0)
                    == PredicateResult::Right
        }),
    decreases s.len(),
{
    lemma_count_bounds(class, s);
    if s.len() > 0 {
        let front = s.drop_last();
        let last = s.len() - 1;
        assert forall|i: int, j: int| 0 <= i <= j < front.len() implies level(
            class(front[i].0),
        ) <= level(class(front[j].0)) by {
            assert(level(class(s[i].0)) <= level(class(s[j].0)));
        }
        lemma_zones(class, front);
        lemma_count_bounds(class, front);
        let fl = count_of(class, front, PredicateResult::Left);
        let fm = count_of(class, front, PredicateResult::Match);
        assert forall|i: int| 0 <= i < front.len() implies level(
            class((#[trigger] front[i]).0),
        ) <= level(class(s[last].0)) by {
            assert(level(class(s[i].0)) <= level(class(s[last].0)));
        }
        if fl < front.len() {
            assert(level(class(front[fl].0)) <= level(class(s[last].0)));
        }
        if fl + fm < front.len() {
            assert(level(class(front[fl + fm].0)) <= level(
                class(s[last].0),
            ));
        }
        let left = count_of(class, s, PredicateResult::Left);
        let matched = count_of(class, s, PredicateResult::Match);
        assert forall|i: int| 0 <= i < left implies class((#[trigger] s[i]).0)
            == PredicateResult::Left by {
            if i < last {
                assert(s[i] == front[i]);
            }
        }
        assert forall|i: int| left <= i < left + matched implies class((#[trigger] s[i]).0,
        ) == PredicateResult::Match by {
            if i < last {
                assert(s[i] == front[i]);
            }
        }
        assert forall|i: int| left + matched <= i < s.len() implies class((#[trigger] s[i]).0,
        ) == PredicateResult::Right by {
            if i < last {
                assert(s[i] == front[i]);
            }
        }
    }
}

/// Where the classification gives every key of `s` the same answer, all entries
/// are counted under that answer.
pub proof fn lemma_count_uniform<K, V>(
    class: spec_fn(K) -> PredicateResult,
    s: Seq<(K, V)>,
    answer: PredicateResult,
)
    requires
        forall|i: int| 0 <= i < s.len() ==> class((#[trigger] s[i]).0) == answer,
    ensures
        count_of(class, s, answer) == s.len(),
        forall|other: PredicateResult|
            other != answer ==> #[trigger] count_of(class, s, other) == 0,
    decreases s.len(),
{
    if s.len() > 0 {
        let front = s.drop_last();
        assert forall|i: int| 0 <= i < front.len() implies class((#[trigger] front[i]).0,
        ) == answer by {
            assert(front[i] == s[i]);
        }
        lemma_count_uniform(class, front, answer);
        assert(class(s[s.len() - 1].0) == answer);
    }
    lemma_count_bounds(class, s);
    assert forall|other: PredicateResult| other != answer implies #[trigger] count_of(class,
        s,
        other,
    ) == 0 by {
        match other {
            PredicateResult::Left => {},
            PredicateResult::Match => {},
            PredicateResult::Right => {},
        }
    }
}

/// The pieces of a sequence on which the classification is monotone.
pub proof fn lemma_monotone_pieces<K, V>(
    class: spec_fn(K) -> PredicateResult,
    a: Seq<(K, V)>,
    b: Seq<(K, V)>,
)
    requires
        monotone_by(class, a + b),
    ensures
        monotone_by(class, a),
        monotone_by(class, b),
{
    let s = a + b;
    assert forall|i: int, j: int| 0 <= i <= j < a.len() implies level(class(a[i].0))
        <= level(class(a[j].0)) by {
        assert(level(class(s[i].0)) <= level(class(s[j].0)));
    }
    assert forall|i: int, j: int| 0 <= i <= j < b.len() implies level(class(b[i].0))
        <= level(class(b[j].0)) by {
        assert(level(class(s[a.len() + i].0)) <= level(
            class(s[a.len() + j].0),
        ));
    }
}

/// The range of two stretches in a row is their ranges taken together.
pub proof fn lemma_range_concat<K: Ord, V>(
    class: spec_fn(K) -> PredicateResult,
    a: Seq<(K, V)>,
    b: Seq<(K, V)>,
)
    requires
        total_order::<K>(),
        keys_sorted(a + b),
        monotone_by(class, a + b),
    ensures
        range_of(class, a + b) == merged(range_of(class, a), range_of(class, b)),
{
    let s = a + b;
    lemma_monotone_pieces(class, a, b);
    lemma_zones(class, a);
    lemma_zones(class, b);
    lemma_zones(class, s);
    lemma_count_concat(class, a, b, PredicateResult::Left);
    lemma_count_concat(class, a, b, PredicateResult::Match);
    let al = count_of(class, a, PredicateResult::Left);
    let am = count_of(class, a, PredicateResult::Match);
    let bl = count_of(class, b, PredicateResult::Left);
    let bm = count_of(class, b, PredicateResult::Match);
    if am > 0 {
        // a key of `a` is matched, so nothing in `b` lies left of the range
        if bl > 0 {
            assert(b[0] == s[a.len() as int]);
            assert(a[al] == s[al]);
            assert(level(class(s[al].0)) <= level(
                class(s[a.len() as int].0),
            ));
        }
        assert(bl == 0);
        assert(s[al] == a[al]);
    }
    if bm > 0 {
        // a key of `b` is matched, so nothing in `a` lies right of the range
        if al + am < a.len() {
            assert(a[al + am] == s[al + am]);
            assert(b[bl] == s[a.len() + bl]);
            assert(level(class(s[al + am].0)) <= level(
                class(s[a.len() + bl].0),
            ));
        }
        assert(al + am == a.len());
        assert(s[a.len() + bl] == b[bl]);
        assert(s[a.len() + bl + bm - 1] == b[bl + bm - 1]);
    }
    if am > 0 && bm > 0 {
        assert(a[al + am - 1] == s[al + am - 1]);
        assert(lt(s[al].0, s[a.len() + bl].0));
        assert(lt(s[al + am - 1].0, s[a.len() + bl + bm - 1].0));
        lemma_trichotomy(a[al].0, b[bl].0);
        lemma_trichotomy(a[al + am - 1].0, b[bl + bm - 1].0);
    }
    if am > 0 && bm == 0 {
        assert(s[al + am - 1] == a[al + am - 1]);
    }
}

/// Keys left of the range in front and keys right of it behind do not
/// change a range.
pub proof fn lemma_range_trim<K, V>(
    class: spec_fn(K) -> PredicateResult,
    front: Seq<(K, V)>,
    mid: Seq<(K, V)>,
    back: Seq<(K, V)>,
)
    requires
        monotone_by(class, mid),
        forall|i: int|
            0 <= i < front.len() ==> class((#[trigger] front[i]).0)
                == PredicateResult::Left,
        forall|i: int|
            0 <= i < back.len() ==> class((#[trigger] back[i]).0)
                == PredicateResult::Right,
    ensures
        range_of(class, front + mid + back) == range_of(class, mid),
{
    let s = front + mid + back;
    lemma_count_uniform(class, front, PredicateResult::Left);
    lemma_count_uniform(class, back, PredicateResult::Right);
    lemma_count_concat(class, front + mid, back, PredicateResult::Left);
    lemma_count_concat(class, front + mid, back, PredicateResult::Match);
    lemma_count_concat(class, front, mid, PredicateResult::Left);
    lemma_count_concat(class, front, mid, PredicateResult::Match);
    assert(count_of(class, front, PredicateResult::Match) == 0);
    assert(count_of(class, back, PredicateResult::Left) == 0);
    assert(count_of(class, back, PredicateResult::Match) == 0);
    lemma_zones(class, mid);
    let ml = count_of(class, mid, PredicateResult::Left);
    let mm = count_of(class, mid, PredicateResult::Match);
    if mm > 0 {
        assert(s[front.len() + ml] == mid[ml]);
        assert(s[front.len() + ml + mm - 1] == mid[ml + mm - 1]);
    }
}

/// The range of a stretch of matched keys: all of it.
pub proof fn lemma_range_all_match<K, V>(
    class: spec_fn(K) -> PredicateResult,
    s: Seq<(K, V)>,
)
    requires
        s.len() > 0,
        forall|i: int|
            0 <= i < s.len() ==> class((#[trigger] s[i]).0) == PredicateResult::Match,
    ensures
        range_of(class, s) == Some((s[0].0, s.last().0, s.len() as int)),
{
    lemma_count_uniform(class, s, PredicateResult::Match);
    assert(count_of(class, s, PredicateResult::Left) == 0);
}

/// Where every key before `core` lies left of the range and every key
/// behind it right of it, the range of the whole is the range of `core`. For
/// this it is enough that the last key before and the first key behind do.
pub proof fn lemma_range_core<K, V>(
    class: spec_fn(K) -> PredicateResult,
    front: Seq<(K, V)>,
    core: Seq<(K, V)>,
    back: Seq<(K, V)>,
)
    requires
        monotone_by(class, front + core + back),
        front.len() > 0 ==> class(front.last().0) == PredicateResult::Left,
        back.len() > 0 ==> class(back[0].0) == PredicateResult::Right,
    ensures
        monotone_by(class, core),
        range_of(class, front + core + back) == range_of(class, core),
{
    let whole = front + core + back;
    assert forall|i: int| 0 <= i < front.len() implies class((#[trigger] front[i]).0)
        == PredicateResult::Left by {
        let end = front.len() - 1;
        assert(whole[end] == front[end]);
        assert(whole[i] == front[i]);
        assert(level(class(whole[i].0)) <= level(class(whole[end].0)));
    }
    assert forall|i: int| 0 <= i < back.len() implies class((#[trigger] back[i]).0)
        == PredicateResult::Right by {
        let at: int = (front.len() + core.len()) as int;
        assert(whole[at] == back[0]);
        assert(whole[at + i] == back[i]);
        assert(level(class(whole[at].0)) <= level(class(whole[at + i].0)));
    }
    lemma_monotone_pieces(class, front + core, back);
    lemma_monotone_pieces(class, front, core);
    lemma_range_trim(class, front, core, back);
}

/// The range of three stretches in a row of which the middle one starts and
/// ends with a matched key: every key of the middle one is matched.
pub proof fn lemma_range_sandwich<K: Ord, V>(
    class: spec_fn(K) -> PredicateResult,
    head: Seq<(K, V)>,
    mid: Seq<(K, V)>,
    tail: Seq<(K, V)>,
)
    requires
        total_order::<K>(),
        keys_sorted(head + mid + tail),
        monotone_by(class, head + mid + tail),
        mid.len() > 0,
        class(mid[0].0) == PredicateResult::Match,
        class(mid.last().0) == PredicateResult::Match,
    ensures
        monotone_by(class, head),
        monotone_by(class, tail),
        mid.len() == 1 || lt(mid[0].0, mid.last().0),
        range_of(class, head + mid + tail) == merged(
            merged(range_of(class, head), Some((mid[0].0, mid.last().0, mid.len() as int))),
            range_of(class, tail),
        ),
{
    lemma_monotone_pieces(class, head + mid, tail);
    lemma_monotone_pieces(class, head, mid);
    lemma_sorted_pieces(head + mid, tail);
    lemma_sorted_pieces(head, mid);
    assert forall|i: int| 0 <= i < mid.len() implies class((#[trigger] mid[i]).0)
        == PredicateResult::Match by {
        assert(level(class(mid[0].0)) <= level(class(mid[i].0)));
        assert(level(class(mid[i].0)) <= level(
            class(mid[mid.len() - 1].0),
        ));
    }
    if mid.len() > 1 {
        assert(lt(mid[0].0, mid[mid.len() - 1].0));
    }
    lemma_range_concat(class, head + mid, tail);
    lemma_range_concat(class, head, mid);
    lemma_range_all_match(class, mid);
}

/// What a range says of a sorted map on which the classification is monotone: it
/// counts the matched keys, its start is the smallest of them and its end
/// the largest, and there is no range exactly when no key is matched.
pub proof fn lemma_range_extent<K: Ord, V>(
    class: spec_fn(K) -> PredicateResult,
    s: Seq<(K, V)>,
)
    requires
        total_order::<K>(),
        keys_sorted(s),
        monotone_by(class, s),
    ensures
        size(range_of(class, s)) == count_of(class, s, PredicateResult::Match),
        range_of(class, s) is None <==> forall|i: int|
            0 <= i < s.len() ==> class((#[trigger] s[i]).0) != PredicateResult::Match,
        range_of(class, s) matches Some(range) ==> {
            &&& exists|i: int|
                0 <= i < s.len() && (#[trigger] s[i]).0 == range.0 && class(s[i].0)
                    == PredicateResult::Match
            &&& exists|i: int|
                0 <= i < s.len() && (#[trigger] s[i]).0 == range.1 && class(s[i].0)
                    == PredicateResult::Match
            &&& forall|i: int|
                0 <= i < s.len() && class((#[trigger] s[i]).0)
                    == PredicateResult::Match ==> (range.0 == s[i].0 || lt(range.0, s[i].0)) && (
                range.1 == s[i].0 || lt(s[i].0, range.1))
        },
{
    lemma_zones(class, s);
    let left = count_of(class, s, PredicateResult::Left);
    let matched = count_of(class, s, PredicateResult::Match);
    if matched > 0 {
        let first = s[left];
        let last = s[left + matched - 1];
        assert(class(first.0) == PredicateResult::Match);
        assert(class(last.0) == PredicateResult::Match);
        assert forall|i: int|
            0 <= i < s.len() && class((#[trigger] s[i]).0)
                == PredicateResult::Match implies (first.0 == s[i].0 || lt(first.0, s[i].0)) && (
        last.0 == s[i].0 || lt(s[i].0, last.0)) by {
            if left < i {
                assert(lt(s[left].0, s[i].0));
            }
            if i < left + matched - 1 {
                assert(lt(s[i].0, s[left + matched - 1].0));
            }
        }
    }
}

/// Where the classification matches every key, the range is the whole map: from
/// its smallest key to its largest, with the number of its entries.
pub proof fn lemma_range_total<K, V>(
    class: spec_fn(K) -> PredicateResult, s: Seq<(K, V)>)
    requires
        forall|i: int|
            0 <= i < s.len() ==> class((#[trigger] s[i]).0) == PredicateResult::Match,
    ensures
        range_of(class, s) == if s.len() == 0 {
            None
        } else {
            Some((s[0].0, s.last().0, s.len() as int))
        },
{
    if s.len() > 0 {
        lemma_range_all_match(class, s);
    }
}

impl<K: Ord, V> Node<K, V> {
    /// The range of a node with children, from what the classification says of
    /// the node's own keys: those before `first` lie left of the range, those
    /// from `first` up to `stop` are matched, and the key `stop`, if there is
    /// one, lies right of it. Then nothing is matched before child `first` or
    /// behind child `stop`, and everything between the keys `first` and
    /// `stop - 1` is.
    pub proof fn lemma_find_pieces(
        class: spec_fn(K) -> PredicateResult,
        key_values: Seq<(K, V)>,
        children: Seq<Arc<Node<K, V>>>,
        first: int,
        stop: int,
    )
        requires
            total_order::<K>(),
            children.len() == key_values.len() + 1,
            keys_sorted(Self::entries_of(key_values, children)),
            monotone_by(class, Self::entries_of(key_values, children)),
            0 <= first <= stop <= key_values.len(),
            first > 0 ==> class(key_values[first - 1].0) == PredicateResult::Left,
            first < stop ==> class(key_values[first].0) == PredicateResult::Match,
            first < stop ==> class(key_values[stop - 1].0) == PredicateResult::Match,
            stop < key_values.len() ==> class(key_values[stop].0)
                == PredicateResult::Right,
        ensures
            ({
                let parts = Self::parts_of(children);
                let whole = Self::entries_of(key_values, children);
                let span = run(parts, key_values, first + 1, stop);
                &&& monotone_by(class, parts[stop])
                &&& first == stop ==> range_of(class, whole) == range_of(class,
                    parts[stop],
                )
                &&& parts[stop].len() <= whole.len()
                &&& first < stop ==> {
                    &&& monotone_by(class, parts[first])
                    &&& parts[first].len() + 1 + span.len() + parts[stop].len() <= whole.len()
                    &&& key_values[first] == key_values[stop - 1] || lt(
                        key_values[first].0,
                        key_values[stop - 1].0,
                    )
                    &&& range_of(class, whole) == merged(
                        merged(
                            range_of(class, parts[first]),
                            Some(
                                (
                                    key_values[first].0,
                                    key_values[stop - 1].0,
                                    1 + span.len() as int,
                                ),
                            ),
                        ),
                        range_of(class, parts[stop]),
                    )
                }
            }),
    {
        let parts = Self::parts_of(children);
        let whole = Self::entries_of(key_values, children);
        let tail = parts[stop];
        let back = after(parts, key_values, stop);
        lemma_flatten_at(parts, key_values, stop);
        let lead = run(parts, key_values, 0, stop);
        assert(whole == lead + tail + back);
        if first == stop {
            lemma_range_core(class, lead, tail, back);
        } else {
            let front = run(parts, key_values, 0, first);
            let head = parts[first];
            let span = run(parts, key_values, first + 1, stop);
            let mid = seq![key_values[first]] + span;
            lemma_run_split(parts, key_values, 0, first + 1, stop);
            assert(run(parts, key_values, 0, first + 1) == front + head + seq![key_values[first]]);
            let core = head + mid + tail;
            assert(whole =~= front + core + back);
            assert(mid[0] == key_values[first]);
            assert(mid.last() == key_values[stop - 1]) by {
                if span.len() > 0 {
                    assert(span.last() == key_values[stop - 1]);
                } else {
                    lemma_run_split(parts, key_values, first + 1, first + 1, stop);
                    if first + 1 < stop {
                        assert(run(parts, key_values, first + 1, stop).len() > 0);
                    }
                }
            }
            lemma_range_core(class, front, core, back);
            lemma_sorted_pieces(front + core, back);
            lemma_sorted_pieces(front, core);
            lemma_range_sandwich(class, head, mid, tail);
        }
    }
}


/// One more entry at the end of a sorted stretch: a matched key becomes the
/// end of the range and adds one to it, any other key leaves it as it is.
pub proof fn lemma_range_step<K: Ord, V>(
    class: spec_fn(K) -> PredicateResult,
    s: Seq<(K, V)>,
    i: int,
)
    requires
        total_order::<K>(),
        keys_sorted(s),
        monotone_by(class, s),
        0 <= i < s.len(),
    ensures
        ({
            let before = range_of(class, s.subrange(0, i));
            let now = range_of(class, s.subrange(0, i + 1));
            &&& 0 <= size(before) <= i
            &&& class(s[i].0) != PredicateResult::Match ==> now == before
            &&& class(s[i].0) == PredicateResult::Match ==> now == Some(
                (
                    match before {
                        None => s[i].0,
                        Some(range) => range.0,
                    },
                    s[i].0,
                    size(before) + 1,
                ),
            )
        }),
{
    let front = s.subrange(0, i);
    let one = seq![s[i]];
    assert(s.subrange(0, i + 1) =~= front + one);
    assert(s =~= (front + one) + s.subrange(i + 1, s.len() as int));
    lemma_monotone_pieces(class, front + one, s.subrange(i + 1, s.len() as int));
    lemma_sorted_pieces(front + one, s.subrange(i + 1, s.len() as int));
    lemma_range_concat(class, front, one);
    lemma_monotone_pieces(class, front, one);
    lemma_zones(class, front);
    lemma_count_bounds(class, front);
    assert(one.drop_last() =~= Seq::<(K, V)>::empty());
    assert(count_of(class, one.drop_last(), PredicateResult::Match) == 0);
    assert(count_of(class, one.drop_last(), PredicateResult::Left) == 0);
    assert(one.last() == s[i]);
    let left = count_of(class, front, PredicateResult::Left);
    let matched = count_of(class, front, PredicateResult::Match);
    if matched > 0 && class(s[i].0) == PredicateResult::Match {
        assert(front[left] == s[left]);
        assert(front[left + matched - 1] == s[left + matched - 1]);
        assert(lt(s[left].0, s[i].0));
        assert(lt(s[left + matched - 1].0, s[i].0));
        lemma_trichotomy(s[left].0, s[i].0);
        lemma_trichotomy(s[left + matched - 1].0, s[i].0);
    }
}

/// Taking together the ranges of the pieces of a node in the order in which
/// the search comes by them gives what taking them together in key order
/// gives.
pub proof fn lemma_merge_order<K: Ord>(tail: Range<K>, head: Range<K>, first: K, last: K, n: int)
    requires
        total_order::<K>(),
    ensures
        merged(merged(tail, head), Some((first, first, 1int))) == merged(
            merged(head, Some((first, first, 1int))),
            tail,
        ),
        first == last || lt(first, last) ==> merged(
            merged(merged(tail, head), Some((first, first, 1int))),
            Some((first, last, n)),
        ) == merged(merged(head, Some((first, last, 1 + n))), tail),
        first == last || lt(first, last) ==> merged(
            merged(merged(head, Some((first, first, 1int))), Some((first, last, n))),
            tail,
        ) == merged(merged(head, Some((first, last, 1 + n))), tail),
{
    let one: Range<K> = Some((first, first, 1int));
    let span: Range<K> = Some((first, last, n));
    let both: Range<K> = Some((first, last, 1 + n));
    lemma_trichotomy(first, last);
    lemma_trichotomy(first, first);
    if first == last || lt(first, last) {
        assert(merged(one, span) == both);
    }
    lemma_merged_commutes(tail, head);
    lemma_merged_associates(head, tail, one);
    lemma_merged_commutes(tail, one);
    lemma_merged_associates(head, one, tail);
    assert(merged(merged(tail, head), one) == merged(merged(head, one), tail));
    lemma_merged_associates(merged(head, one), tail, span);
    lemma_merged_commutes(tail, span);
    lemma_merged_associates(merged(head, one), span, tail);
    lemma_merged_associates(head, one, span);
}

/// What `class` says of a stretch holds of its pieces.
pub proof fn lemma_describes_pieces<K, V, P: Fn(&K) -> PredicateResult>(
    predicate: &P,
    class: spec_fn(K) -> PredicateResult,
    a: Seq<(K, V)>,
    b: Seq<(K, V)>,
)
    requires
        describes(predicate, class, a + b),
    ensures
        describes(predicate, class, a),
        describes(predicate, class, b),
{
    let s = a + b;
    lemma_monotone_pieces(class, a, b);
    assert forall|i: int| 0 <= i < a.len() implies call_requires(
        *predicate,
        (&(#[trigger] a[i]).0,),
    ) && forall|answer: PredicateResult|
        said(predicate, a[i].0, answer) ==> answer == class(a[i].0) by {
        assert(a[i] == s[i]);
    }
    assert forall|i: int| 0 <= i < b.len() implies call_requires(
        *predicate,
        (&(#[trigger] b[i]).0,),
    ) && forall|answer: PredicateResult|
        said(predicate, b[i].0, answer) ==> answer == class(b[i].0) by {
        assert(b[i] == s[a.len() + i]);
    }
}

/// Asks the predicate about a key.
fn ask<K, P: Fn(&K) -> PredicateResult>(predicate: &P, key: &K) -> (res: PredicateResult)
    requires
        call_requires(*predicate, (key,)),
    ensures
        said(predicate, *key, res),
{
    predicate(key)
}

impl<K: Ord, V> Node<K, V> {
    /// What `class` says of the map of a node holds of the node's own entries
    /// and of the map of each child.
    pub proof fn lemma_describes_parts<P: Fn(&K) -> PredicateResult>(
        predicate: &P,
        class: spec_fn(K) -> PredicateResult,
        key_values: Seq<(K, V)>,
        children: Seq<Arc<Node<K, V>>>,
    )
        requires
            children.len() == key_values.len() + 1,
            describes(predicate, class, Self::entries_of(key_values, children)),
        ensures
            describes(predicate, class, key_values),
            forall|i: int|
                0 <= i < children.len() ==> describes(
                    predicate,
                    class,
                    (#[trigger] children[i]).entries(),
                ),
    {
        let parts = Self::parts_of(children);
        let whole = Self::entries_of(key_values, children);
        assert forall|i: int| 0 <= i < key_values.len() implies call_requires(
            *predicate,
            (&(#[trigger] key_values[i]).0,),
        ) && forall|answer: PredicateResult|
            said(predicate, key_values[i].0, answer) ==> answer == class(key_values[i].0) by {
            lemma_positions(parts, key_values, i);
            assert(whole[sep_index(parts, key_values, i)] == key_values[i]);
        }
        assert forall|i: int, j: int| 0 <= i <= j < key_values.len() implies level(
            class(key_values[i].0),
        ) <= level(class(key_values[j].0)) by {
            lemma_positions(parts, key_values, i);
            lemma_positions(parts, key_values, j);
            assert(whole[sep_index(parts, key_values, i)] == key_values[i]);
            assert(whole[sep_index(parts, key_values, j)] == key_values[j]);
            if i < j {
                assert(sep_index(parts, key_values, i) < sep_index(parts, key_values, j));
            }
            assert(level(class(whole[sep_index(parts, key_values, i)].0)) <= level(
                class(whole[sep_index(parts, key_values, j)].0),
            ));
        }
        assert forall|i: int| 0 <= i < children.len() implies describes(
            predicate,
            class,
            (#[trigger] children[i]).entries(),
        ) by {
            lemma_flatten_at(parts, key_values, i);
            let front = run(parts, key_values, 0, i);
            let back = after(parts, key_values, i);
            lemma_describes_pieces(predicate, class, front + parts[i], back);
            lemma_describes_pieces(predicate, class, front, parts[i]);
        }
    }
}

impl<K: Ord + Clone, V: Clone> Node<K, V> {
    /// The keys of the map that `predicate` matches: whether there are any,
    /// the smallest and the largest of them, and how many they are.
    ///
    /// The predicate has to be monotone on the map: in key order it says
    /// first `Left`, then `Match`, then `Right`. Children between two
    /// matched keys of a node are then counted and not searched.
    pub fn find_key_range<P: Fn(&K) -> PredicateResult>(&self, predicate: &P) -> (res:
        KeyRangeResult<'_, K>)
        requires
            total_order::<K>(),
            self.wf(),
            monotone(predicate, self.entries()),
        ensures
            forall|class: spec_fn(K) -> PredicateResult| #[trigger]
                describes(predicate, class, self.entries()) ==> res@ == range_of(
                    class,
                    self.entries(),
                ),
        decreases self,
    {
        let ghost witness = choose|class: spec_fn(K) -> PredicateResult|
            describes(predicate, class, self.entries());
        if self.is_leaf() {
            let mut result = KeyRangeResult::Empty;
            let mut index: usize = 0;
            while index < self.key_values.len()
                invariant
                    total_order::<K>(),
                    index <= self.key_values.len(),
                    keys_sorted(self.key_values@),
                    describes(predicate, witness, self.key_values@),
                    forall|class: spec_fn(K) -> PredicateResult| #[trigger]
                        describes(predicate, class, self.key_values@) ==> result@ == range_of(
                            class,
                            self.key_values@.subrange(0, index as int),
                        ),
                decreases self.key_values.len() - index,
            {
                let key = &self.key_values[index].0;
                proof {
                    lemma_range_step(witness, self.key_values@, index as int);
                }
                let answer = ask(predicate, key);
                match answer {
                    PredicateResult::Match => {
                        result =
                        match result {
                            KeyRangeResult::Empty => KeyRangeResult::Span {
                                start: key,
                                end: key,
                                n: 1,
                            },
                            KeyRangeResult::Span { start, end: _, n } => KeyRangeResult::Span {
                                start,
                                end: key,
                                n: n + 1,
                            },
                        };
                    },
                    _ => {},
                }
                proof {
                    assert forall|class: spec_fn(K) -> PredicateResult| #[trigger]
                        describes(predicate, class, self.key_values@) implies result@
                        == range_of(class, self.key_values@.subrange(0, index + 1)) by {
                        lemma_range_step(class, self.key_values@, index as int);
                        assert(class(self.key_values@[index as int].0) == answer);
                    }
                }
                index += 1;
            }
            assert(self.key_values@.subrange(0, index as int) =~= self.key_values@);
            result
        } else {
            let ghost parts = self.parts();
            let ghost seps = self.key_values@;
            let ghost whole = self.entries();
            proof {
                Self::lemma_describes_parts(predicate, witness, seps, self.children@);
            }
            let mut result = KeyRangeResult::Empty;
            let mut extra_child_to_check: Option<usize> = None;
            let mut matched_indexes: Vec<(usize, &(K, V))> = Vec::new();
            let mut index: usize = 0;
            while index < self.key_values.len()
                invariant_except_break
                    result@ == None::<(K, K, int)>,
                    extra_child_to_check == (if index == 0 {
                        None
                    } else {
                        Some(index)
                    }),
                invariant
                    total_order::<K>(),
                    self.wf(),
                    self.children@.len() > 0,
                    parts == self.parts(),
                    seps == self.key_values@,
                    whole == self.entries(),
                    describes(predicate, witness, whole),
                    describes(predicate, witness, seps),
                    forall|i: int|
                        0 <= i < self.children@.len() ==> describes(
                            predicate,
                            witness,
                            (#[trigger] self.children@[i]).entries(),
                        ),
                    index <= seps.len(),
                    matched_indexes@.len() <= index,
                    forall|j: int|
                        0 <= j < index - matched_indexes@.len() ==> said(
                            predicate,
                            (#[trigger] seps[j]).0,
                            PredicateResult::Left,
                        ),
                    forall|j: int|
                        index - matched_indexes@.len() <= j < index ==> said(
                            predicate,
                            (#[trigger] seps[j]).0,
                            PredicateResult::Match,
                        ),
                    forall|t: int|
                        0 <= t < matched_indexes@.len() ==> (#[trigger] matched_indexes@[t]).0
                            == index - matched_indexes@.len() + t && *matched_indexes@[t].1
                            == seps[index - matched_indexes@.len() + t],
                ensures
                    index <= seps.len(),
                    index < seps.len() ==> {
                        &&& said(predicate, seps[index as int].0, PredicateResult::Right)
                        &&& extra_child_to_check == None::<usize>
                        &&& size(result@) <= parts[index as int].len()
                        &&& forall|class: spec_fn(K) -> PredicateResult| #[trigger]
                            describes(predicate, class, parts[index as int]) ==> result@
                                == range_of(class, parts[index as int])
                    },
                    index == seps.len() ==> {
                        &&& result@ == None::<(K, K, int)>
                        &&& extra_child_to_check == Some(index)
                    },
                decreases self.key_values.len() - index,
            {
                let key = &self.key_values[index];
                let ghost first = index - matched_indexes@.len();
                match ask(predicate, &key.0) {
                    PredicateResult::Left => {
                        proof {
                            if matched_indexes@.len() > 0 {
                                assert(level(witness(seps[first].0)) <= level(
                                    witness(seps[index as int].0),
                                ));
                            }
                        }
                        extra_child_to_check = Some(index + 1);
                    },
                    PredicateResult::Match => {
                        matched_indexes.push((index, key));
                        extra_child_to_check = Some(index + 1);
                    },
                    PredicateResult::Right => {
                        extra_child_to_check = None;
                        let child = &self.children[index];
                        proof {
                            assert(child.wf());
                            assert(describes(
                                predicate,
                                witness,
                                self.children@[index as int].entries(),
                            ));
                            lemma_count_bounds(witness, parts[index as int]);
                        }
                        result = result.merge_into(child.find_key_range(predicate));
                        break ;
                    },
                }
                index += 1;
            }
            let ghost stop = index as int;
            let ghost first = stop - matched_indexes@.len();
            let ghost span = run(parts, seps, first + 1, stop).len() as int;
            proof {
                if first > 0 {
                    assert(said(predicate, seps[first - 1].0, PredicateResult::Left));
                }
                if first < stop {
                    assert(said(predicate, seps[first].0, PredicateResult::Match));
                    assert(said(predicate, seps[stop - 1].0, PredicateResult::Match));
                }
                Self::lemma_find_pieces(witness, seps, self.children@, first, stop);
                lemma_count_bounds(witness, parts[stop]);
                lemma_count_bounds(witness, parts[first]);
                assert(describes(predicate, witness, self.children@[stop].entries()));
                assert(describes(predicate, witness, self.children@[first].entries()));
            }
            if matched_indexes.len() > 0 {
                let (first_idx, first_key) = matched_indexes[0];
                let first_child = &self.children[first_idx];
                assert(first_child.wf());
                result = result.merge_into(first_child.find_key_range(predicate));
                result =
                result.merge_into(
                    KeyRangeResult::Span { start: &first_key.0, end: &first_key.0, n: 1 },
                );
                if matched_indexes.len() >= 2 {
                    let (last_idx, last_key) = matched_indexes[matched_indexes.len() - 1];
                    let mut count: usize = 0;
                    let mut idx: usize = first_idx + 1;
                    while idx <= last_idx
                        invariant
                            self.wf(),
                            self.children@.len() > 0,
                            parts == self.parts(),
                            seps == self.key_values@,
                            first_idx == first,
                            last_idx == stop - 1,
                            stop <= seps.len(),
                            first + 1 <= idx <= stop,
                            count == run(parts, seps, first + 1, idx as int).len(),
                            run(parts, seps, first + 1, stop).len() <= usize::MAX,
                        decreases stop - idx,
                    {
                        proof {
                            lemma_run_split(parts, seps, first + 1, idx as int + 1, stop);
                            assert(self.children@[idx as int].wf());
                        }
                        count += self.children[idx].count;
                        count += 1;
                        idx += 1;
                    }
                    result =
                    result.merge_into(
                        KeyRangeResult::Span { start: &first_key.0, end: &last_key.0, n: count },
                    );
                }
            }
            if let Some(child_idx) = extra_child_to_check {
                let last_child = &self.children[child_idx];
                assert(last_child.wf());
                result = result.merge_into(last_child.find_key_range(predicate));
            }
            proof {
                assert forall|class: spec_fn(K) -> PredicateResult| #[trigger]
                    describes(predicate, class, whole) implies result@ == range_of(
                    class,
                    whole,
                ) by {
                    Self::lemma_describes_parts(predicate, class, seps, self.children@);
                    assert(describes(predicate, class, self.children@[stop].entries()));
                    assert(describes(predicate, class, self.children@[first].entries()));
                    Self::lemma_find_pieces(class, seps, self.children@, first, stop);
                    lemma_merge_order(
                        range_of(class, parts[stop]),
                        range_of(class, parts[first]),
                        seps[first].0,
                        seps[stop - 1].0,
                        span,
                    );
                }
            }
            result
        }
    }
}

} // verus!

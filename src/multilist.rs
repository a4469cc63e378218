use vstd::prelude::*;
use crate::linked_list::LinkedList;

verus! {

/// Number of nodes in a sub-list that carry a child sub-list.
pub open spec fn flags<T>(s: Seq<(T, bool)>) -> nat
    decreases s.len(),
{
    if s.len() == 0 {
        0
    } else {
        flags(s.drop_last()) + if s.last().1 { 1nat } else { 0nat }
    }
}

/// Number of child-bearing nodes over a sequence of sub-lists.
pub open spec fn fc<T>(ls: Seq<Seq<(T, bool)>>) -> nat
    decreases ls.len(),
{
    if ls.len() == 0 {
        0
    } else {
        fc(ls.drop_last()) + flags(ls.last())
    }
}

/// Number of nodes over a sequence of sub-lists.
pub open spec fn total<T>(ls: Seq<Seq<(T, bool)>>) -> nat
    decreases ls.len(),
{
    if ls.len() == 0 {
        0
    } else {
        total(ls.drop_last()) + ls.last().len()
    }
}

/// Number of nodes over all levels.
pub open spec fn count<T>(levels: Seq<Seq<Seq<(T, bool)>>>) -> nat
    decreases levels.len(),
{
    if levels.len() == 0 {
        0
    } else {
        count(levels.drop_last()) + total(levels.last())
    }
}

/// The level index of a multi-list: level 0 holds the root sub-list alone;
/// level `l > 0` holds, in parent order, one non-empty sub-list for each
/// child-bearing node of level `l - 1` (the `j`-th list belongs to the `j`-th
/// such node); and the deepest level has no child-bearing node.
pub open spec fn levels_ok<T>(levels: Seq<Seq<Seq<(T, bool)>>>) -> bool {
    &&& levels.len() >= 1
    &&& levels[0].len() == 1
    &&& forall|l: int| 1 <= l < levels.len() ==> (#[trigger] levels[l]).len() == fc(levels[l - 1]) && levels[l].len() > 0
    &&& forall|l: int, j: int| 1 <= l < levels.len() && 0 <= j < levels[l].len() ==> (#[trigger] levels[l][j]).len() > 0
    &&& fc(levels[levels.len() - 1]) == 0
}

/// Where offset `k` of a level falls, searching from sub-list `j` on: the
/// first sub-list that holds it, where the last sub-list also takes the
/// offset one past its end.
pub open spec fn resolve_from<T>(ls: Seq<Seq<(T, bool)>>, j: int, k: int) -> Option<(int, int)>
    decreases ls.len() - j,
{
    if j < 0 || j >= ls.len() {
        None
    } else if k < ls[j].len() || (j == ls.len() - 1 && k == ls[j].len()) {
        Some((j, k))
    } else {
        resolve_from(ls, j + 1, k - ls[j].len())
    }
}

/// The (sub-list, offset) that position `k` of a level addresses.
pub open spec fn resolve<T>(ls: Seq<Seq<(T, bool)>>, k: int) -> Option<(int, int)> {
    resolve_from(ls, 0, k)
}

/// The position of the node at (`j`, `o`) among the child-bearing nodes of
/// its level: the index of its child sub-list one level down.
pub open spec fn rank<T>(ls: Seq<Seq<(T, bool)>>, j: int, o: int) -> nat {
    fc(ls.take(j)) + flags(ls[j].take(o))
}

pub proof fn lemma_flags_concat<T>(a: Seq<(T, bool)>, b: Seq<(T, bool)>)
    ensures
        flags(a + b) == flags(a) + flags(b),
    decreases b.len(),
{
    if b.len() > 0 {
        assert((a + b).drop_last() =~= a + b.drop_last());
        lemma_flags_concat(a, b.drop_last());
    } else {
        assert(a + b =~= a);
    }
}

pub proof fn lemma_fc_concat<T>(a: Seq<Seq<(T, bool)>>, b: Seq<Seq<(T, bool)>>)
    ensures
        fc(a + b) == fc(a) + fc(b),
    decreases b.len(),
{
    if b.len() > 0 {
        assert((a + b).drop_last() =~= a + b.drop_last());
        lemma_fc_concat(a, b.drop_last());
    } else {
        assert(a + b =~= a);
    }
}

pub proof fn lemma_total_concat<T>(a: Seq<Seq<(T, bool)>>, b: Seq<Seq<(T, bool)>>)
    ensures
        total(a + b) == total(a) + total(b),
    decreases b.len(),
{
    if b.len() > 0 {
        assert((a + b).drop_last() =~= a + b.drop_last());
        lemma_total_concat(a, b.drop_last());
    } else {
        assert(a + b =~= a);
    }
}

pub proof fn lemma_count_concat<T>(a: Seq<Seq<Seq<(T, bool)>>>, b: Seq<Seq<Seq<(T, bool)>>>)
    ensures
        count(a + b) == count(a) + count(b),
    decreases b.len(),
{
    if b.len() > 0 {
        assert((a + b).drop_last() =~= a + b.drop_last());
        lemma_count_concat(a, b.drop_last());
    } else {
        assert(a + b =~= a);
    }
}

/// Splitting a sub-list around offset `i`.
proof fn lemma_flags_split<T>(s: Seq<(T, bool)>, i: int)
    requires
        0 <= i < s.len(),
    ensures
        flags(s) == flags(s.take(i)) + (if s[i].1 { 1nat } else { 0nat }) + flags(s.skip(i + 1)),
{
    assert(s =~= s.take(i) + (seq![s[i]] + s.skip(i + 1)));
    lemma_flags_concat(s.take(i), seq![s[i]] + s.skip(i + 1));
    lemma_flags_concat(seq![s[i]], s.skip(i + 1));
    assert(seq![s[i]].drop_last() =~= Seq::<(T, bool)>::empty());
    assert(flags(Seq::<(T, bool)>::empty()) == 0);
    assert(flags(seq![s[i]]) == if s[i].1 { 1nat } else { 0nat });
}

proof fn lemma_fc_split<T>(ls: Seq<Seq<(T, bool)>>, j: int)
    requires
        0 <= j < ls.len(),
    ensures
        fc(ls) == fc(ls.take(j)) + flags(ls[j]) + fc(ls.skip(j + 1)),
        total(ls) == total(ls.take(j)) + ls[j].len() + total(ls.skip(j + 1)),
{
    assert(ls =~= ls.take(j) + (seq![ls[j]] + ls.skip(j + 1)));
    lemma_fc_concat(ls.take(j), seq![ls[j]] + ls.skip(j + 1));
    lemma_fc_concat(seq![ls[j]], ls.skip(j + 1));
    lemma_total_concat(ls.take(j), seq![ls[j]] + ls.skip(j + 1));
    lemma_total_concat(seq![ls[j]], ls.skip(j + 1));
    assert(seq![ls[j]].drop_last() =~= Seq::<Seq<(T, bool)>>::empty());
    assert(fc(Seq::<Seq<(T, bool)>>::empty()) == 0);
    assert(total(Seq::<Seq<(T, bool)>>::empty()) == 0);
    assert(fc(seq![ls[j]]) == flags(ls[j]));
    assert(total(seq![ls[j]]) == ls[j].len());
}

/// Replacing sub-list `j` changes the counts by the difference.
proof fn lemma_fc_update<T>(ls: Seq<Seq<(T, bool)>>, j: int, x: Seq<(T, bool)>)
    requires
        0 <= j < ls.len(),
    ensures
        fc(ls.update(j, x)) + flags(ls[j]) == fc(ls) + flags(x),
        total(ls.update(j, x)) + ls[j].len() == total(ls) + x.len(),
{
    let n = ls.update(j, x);
    lemma_fc_split(ls, j);
    lemma_fc_split(n, j);
    assert(n.take(j) =~= ls.take(j));
    assert(n.skip(j + 1) =~= ls.skip(j + 1));
}

/// Inserting sub-list `x` at `j`.
proof fn lemma_fc_insert<T>(ls: Seq<Seq<(T, bool)>>, j: int, x: Seq<(T, bool)>)
    requires
        0 <= j <= ls.len(),
    ensures
        fc(ls.insert(j, x)) == fc(ls) + flags(x),
        total(ls.insert(j, x)) == total(ls) + x.len(),
{
    let n = ls.insert(j, x);
    lemma_fc_split(n, j);
    assert(n.take(j) =~= ls.take(j));
    assert(n.skip(j + 1) =~= ls.skip(j));
    assert(ls =~= ls.take(j) + ls.skip(j));
    lemma_fc_concat(ls.take(j), ls.skip(j));
    lemma_total_concat(ls.take(j), ls.skip(j));
}

proof fn lemma_flags_insert<T>(s: Seq<(T, bool)>, i: int, x: (T, bool))
    requires
        0 <= i <= s.len(),
    ensures
        flags(s.insert(i, x)) == flags(s) + if x.1 { 1nat } else { 0nat },
{
    let n = s.insert(i, x);
    lemma_flags_split(n, i);
    assert(n.take(i) =~= s.take(i));
    assert(n.skip(i + 1) =~= s.skip(i));
    assert(s =~= s.take(i) + s.skip(i));
    lemma_flags_concat(s.take(i), s.skip(i));
}

proof fn lemma_flags_update<T>(s: Seq<(T, bool)>, i: int, x: (T, bool))
    requires
        0 <= i < s.len(),
    ensures
        flags(s.update(i, x)) + (if s[i].1 { 1nat } else { 0nat }) == flags(s) + if x.1 { 1nat } else { 0nat },
{
    let n = s.update(i, x);
    lemma_flags_split(s, i);
    lemma_flags_split(n, i);
    assert(n.take(i) =~= s.take(i));
    assert(n.skip(i + 1) =~= s.skip(i + 1));
}

/// Replacing one level changes the node count by the difference.
proof fn lemma_count_update<T>(levels: Seq<Seq<Seq<(T, bool)>>>, l: int, x: Seq<Seq<(T, bool)>>)
    requires
        0 <= l < levels.len(),
    ensures
        count(levels.update(l, x)) + total(levels[l]) == count(levels) + total(x),
    decreases levels.len(),
{
    let n = levels.update(l, x);
    if l == levels.len() - 1 {
        assert(n.drop_last() =~= levels.drop_last());
    } else {
        assert(n.drop_last() =~= levels.drop_last().update(l, x));
        lemma_count_update(levels.drop_last(), l, x);
    }
}

proof fn lemma_resolve_bounds<T>(ls: Seq<Seq<(T, bool)>>, j: int, k: int)
    requires
        resolve_from(ls, j, k) is Some,
    ensures
        0 <= resolve_from(ls, j, k)->Some_0.0 < ls.len(),
        0 <= resolve_from(ls, j, k)->Some_0.1 <= ls[resolve_from(ls, j, k)->Some_0.0].len() || k < 0,
        resolve_from(ls, j, k)->Some_0.1 == ls[resolve_from(ls, j, k)->Some_0.0].len() ==> resolve_from(ls, j, k)->Some_0.0
            == ls.len() - 1,
    decreases ls.len() - j,
{
    if j >= 0 && j < ls.len() && !(k < ls[j].len() || (j == ls.len() - 1 && k == ls[j].len())) {
        lemma_resolve_bounds(ls, j + 1, k - ls[j].len());
    }
}

proof fn lemma_flags_le<T>(s: Seq<(T, bool)>)
    ensures
        flags(s) <= s.len(),
    decreases s.len(),
{
    if s.len() > 0 {
        lemma_flags_le(s.drop_last());
    }
}

proof fn lemma_fc_le<T>(ls: Seq<Seq<(T, bool)>>)
    ensures
        fc(ls) <= total(ls),
    decreases ls.len(),
{
    if ls.len() > 0 {
        lemma_fc_le(ls.drop_last());
        lemma_flags_le(ls.last());
    }
}

proof fn lemma_total_le_count<T>(levels: Seq<Seq<Seq<(T, bool)>>>, l: int)
    requires
        0 <= l < levels.len(),
    ensures
        total(levels[l]) <= count(levels),
    decreases levels.len(),
{
    if l < levels.len() - 1 {
        lemma_total_le_count(levels.drop_last(), l);
    }
}

/// A level replaced by one of the same shape keeps the index well formed.
proof fn lemma_levels_ok_update<T>(levels: Seq<Seq<Seq<(T, bool)>>>, l: int, x: Seq<Seq<(T, bool)>>)
    requires
        levels_ok(levels),
        0 <= l < levels.len(),
        x.len() == levels[l].len(),
        fc(x) == fc(levels[l]),
        forall|j: int| 0 <= j < x.len() && l >= 1 ==> (#[trigger] x[j]).len() > 0,
    ensures
        levels_ok(levels.update(l, x)),
{
    let n = levels.update(l, x);
    assert forall|ll: int| 1 <= ll < n.len() implies (#[trigger] n[ll]).len() == fc(n[ll - 1]) && n[ll].len() > 0 by {
        assert(levels[ll].len() == fc(levels[ll - 1]));
    }
    assert forall|ll: int, j: int| 1 <= ll < n.len() && 0 <= j < n[ll].len() implies (#[trigger] n[ll][j]).len() > 0 by {
        if ll != l {
            assert(levels[ll][j].len() > 0);
        }
    }
}

/// The index after putting node `x` at offset `o` of sub-list `j` of level `l`.
pub open spec fn put<T>(levels: Seq<Seq<Seq<(T, bool)>>>, l: int, j: int, o: int, x: (T, bool)) -> Seq<Seq<Seq<(T, bool)>>> {
    levels.update(l, levels[l].update(j, levels[l][j].insert(o, x)))
}

/// The index after giving the node at (`l`, `j`, `o`) the child sub-list `[x]`.
pub open spec fn attach<T>(levels: Seq<Seq<Seq<(T, bool)>>>, l: int, j: int, o: int, x: T) -> Seq<Seq<Seq<(T, bool)>>> {
    let n = levels[l][j][o];
    let flagged = levels.update(l, levels[l].update(j, levels[l][j].update(o, (n.0, true))));
    let child = seq![(x, false)];
    if l + 1 == levels.len() {
        flagged.push(seq![child])
    } else {
        flagged.update(l + 1, flagged[l + 1].insert(rank(levels[l], j, o) as int, child))
    }
}

/// Every node of a level with its child mark cleared.
pub open spec fn unflag<T>(ls: Seq<Seq<(T, bool)>>) -> Seq<Seq<(T, bool)>> {
    ls.map_values(|s: Seq<(T, bool)>| s.map_values(|n: (T, bool)| (n.0, false)))
}

/// The index with levels `l` and below dropped, the nodes above them left childless.
pub open spec fn cut_levels<T>(levels: Seq<Seq<Seq<(T, bool)>>>, l: int) -> Seq<Seq<Seq<(T, bool)>>> {
    levels.take(l).update(l - 1, unflag(levels[l - 1]))
}

/// The index of a multi-list with no node.
pub open spec fn empty_levels<T>() -> Seq<Seq<Seq<(T, bool)>>> {
    seq![seq![Seq::<(T, bool)>::empty()]]
}

/// The nodes of a level in order: its sub-lists concatenated.
pub open spec fn flat<T>(ls: Seq<Seq<(T, bool)>>) -> Seq<(T, bool)>
    decreases ls.len(),
{
    if ls.len() == 0 {
        Seq::empty()
    } else {
        flat(ls.drop_last()) + ls.last()
    }
}

/// The node that position `k` of level `l` addresses, as (sub-list, offset);
/// `None` where no node stands there.
pub open spec fn locate<T>(levels: Seq<Seq<Seq<(T, bool)>>>, l: int, k: int) -> Option<(int, int)> {
    if 0 <= l < levels.len() && resolve(levels[l], k) is Some && resolve(levels[l], k)->Some_0.1 < levels[l][resolve(
        levels[l],
        k,
    )->Some_0.0].len() {
        resolve(levels[l], k)
    } else {
        None
    }
}

/// The index after removing sub-lists `lo..hi` of level `d` and, level by
/// level, every sub-list that descends from them.
#[verifier::opaque]
pub open spec fn cut<T>(levels: Seq<Seq<Seq<(T, bool)>>>, d: int, lo: int, hi: int) -> Seq<Seq<Seq<(T, bool)>>>
    decreases levels.len() - d,
{
    if d < 0 || d >= levels.len() {
        levels
    } else {
        let ls = levels[d];
        cut(levels.update(d, ls.take(lo) + ls.skip(hi)), d + 1, fc(ls.take(lo)) as int, fc(ls.take(hi)) as int)
    }
}

/// The index without its trailing levels that hold no sub-list.
#[verifier::opaque]
pub open spec fn trim<T>(levels: Seq<Seq<Seq<(T, bool)>>>) -> Seq<Seq<Seq<(T, bool)>>>
    decreases levels.len(),
{
    if levels.len() > 1 && levels.last().len() == 0 {
        trim(levels.drop_last())
    } else {
        levels
    }
}

/// The index with node (`l`, `j`, `o`) given the child mark `f`.
pub open spec fn mark<T>(levels: Seq<Seq<Seq<(T, bool)>>>, l: int, j: int, o: int, f: bool) -> Seq<Seq<Seq<(T, bool)>>> {
    levels.update(l, levels[l].update(j, levels[l][j].update(o, (levels[l][j][o].0, f))))
}

/// The index with node (`l`, `j`, `o`) removed from its sub-list.
pub open spec fn unlink<T>(levels: Seq<Seq<Seq<(T, bool)>>>, l: int, j: int, o: int) -> Seq<Seq<Seq<(T, bool)>>> {
    levels.update(l, levels[l].update(j, levels[l][j].remove(o)))
}

/// The index after detaching the child sub-list (and all below it) of the
/// child-bearing node at (`l`, `j`, `o`).
#[verifier::opaque]
pub open spec fn detach<T>(levels: Seq<Seq<Seq<(T, bool)>>>, l: int, j: int, o: int) -> Seq<Seq<Seq<(T, bool)>>> {
    let r = rank(levels[l], j, o) as int;
    trim(cut(mark(levels, l, j, o, false), l + 1, r, r + 1))
}

/// The index after removing node (`l`, `j`, `o`) with everything below it,
/// before an emptied sub-list is dropped.
pub open spec fn pluck<T>(levels: Seq<Seq<Seq<(T, bool)>>>, l: int, j: int, o: int) -> Seq<Seq<Seq<(T, bool)>>> {
    let r = rank(levels[l], j, o) as int;
    let f: int = if levels[l][j][o].1 { 1 } else { 0 };
    cut(unlink(levels, l, j, o), l + 1, r, r + f)
}

/// Everything below the child-bearing node at (`l`, `j`, `o`), its child
/// sub-list first, as groups of sub-lists, one per level.
pub open spec fn child_tree<T>(levels: Seq<Seq<Seq<(T, bool)>>>, l: int, j: int, o: int) -> Seq<Seq<Seq<(T, bool)>>> {
    let r = rank(levels[l], j, o) as int;
    cut_groups(mark(levels, l, j, o, false), l + 1, r, r + 1)
}

/// A state of the index while sub-lists below level `d - 1` are being cut:
/// every level relation holds but at level `d`, which still has the
/// sub-lists `lo..hi` too many.
#[verifier::opaque]
spec fn pending<T>(levels: Seq<Seq<Seq<(T, bool)>>>, d: int, lo: int, hi: int, el: int, ej: int) -> bool {
    &&& 1 <= d <= levels.len()
    &&& el < d
    &&& levels[0].len() == 1
    &&& forall|l: int| 1 <= l < levels.len() && l != d ==> (#[trigger] levels[l]).len() == fc(levels[l - 1])
    &&& forall|l: int, j: int| 1 <= l < levels.len() && 0 <= j < levels[l].len() && !(l == el && j == ej) ==> (#[trigger] levels[l][j]).len() > 0
    &&& d < levels.len() ==> 0 <= lo <= hi <= levels[d].len() && levels[d].len() - (hi - lo) == fc(levels[d - 1])
    &&& fc(levels[levels.len() - 1]) == 0
}

/// Relations that hold once every level is consistent but some trailing
/// levels may be empty.
spec fn settled<T>(levels: Seq<Seq<Seq<(T, bool)>>>) -> bool {
    settled_but(levels, 0, 0)
}

proof fn lemma_fc_take_le<T>(ls: Seq<Seq<(T, bool)>>, a: int, b: int)
    requires
        0 <= a <= b <= ls.len(),
    ensures
        fc(ls.take(a)) <= fc(ls.take(b)) <= fc(ls),
        fc(ls.take(b)) == fc(ls.take(a)) + fc(ls.subrange(a, b)),
        total(ls.take(b)) == total(ls.take(a)) + total(ls.subrange(a, b)),
        fc(ls) == fc(ls.take(b)) + fc(ls.skip(b)),
        total(ls) == total(ls.take(b)) + total(ls.skip(b)),
{
    assert(ls.take(b) =~= ls.take(a) + ls.subrange(a, b));
    lemma_fc_concat(ls.take(a), ls.subrange(a, b));
    lemma_total_concat(ls.take(a), ls.subrange(a, b));
    assert(ls =~= ls.take(b) + ls.skip(b));
    lemma_fc_concat(ls.take(b), ls.skip(b));
    lemma_total_concat(ls.take(b), ls.skip(b));
}

/// One step of a cut keeps the pending relations one level further down.
proof fn lemma_cut_step<T>(levels: Seq<Seq<Seq<(T, bool)>>>, d: int, lo: int, hi: int, el: int, ej: int)
    requires
        pending(levels, d, lo, hi, el, ej),
        d < levels.len(),
    ensures
        ({
            let ls = levels[d];
            let n = levels.update(d, ls.take(lo) + ls.skip(hi));
            &&& pending(n, d + 1, fc(ls.take(lo)) as int, fc(ls.take(hi)) as int, el, ej)
            &&& count(n) <= count(levels)
        }),
{
    reveal(pending);
    let ls = levels[d];
    let x = ls.take(lo) + ls.skip(hi);
    let n = levels.update(d, x);
    lemma_fc_take_le(ls, lo, hi);
    lemma_fc_concat(ls.take(lo), ls.skip(hi));
    lemma_total_concat(ls.take(lo), ls.skip(hi));
    lemma_count_update(levels, d, x);
    assert(x.len() == ls.len() - (hi - lo));
    assert forall|l: int, j: int| 1 <= l < n.len() && 0 <= j < n[l].len() && !(l == el && j == ej) implies (#[trigger] n[l][j]).len() > 0 by {
        if l == d {
            if j < lo {
                assert(x[j] == ls[j]);
            } else {
                assert(x[j] == ls[j + hi - lo]);
            }
        }
    }
    if d + 1 < levels.len() {
        assert(levels[d + 1].len() == fc(ls));
    } else {
        assert(fc(ls) == 0);
    }
}

proof fn lemma_cut_all<T>(levels: Seq<Seq<Seq<(T, bool)>>>, d: int, lo: int, hi: int, el: int, ej: int)
    requires
        pending(levels, d, lo, hi, el, ej),
    ensures
        settled_but(cut(levels, d, lo, hi), el, ej),
        count(cut(levels, d, lo, hi)) <= count(levels),
        cut(levels, d, lo, hi).len() == levels.len(),
        forall|l: int| 0 <= l < d ==> #[trigger] cut(levels, d, lo, hi)[l] == levels[l],
    decreases levels.len() - d,
{
    reveal(pending);
    reveal(settled_but);
    reveal(cut);
    if d < levels.len() {
        let ls = levels[d];
        let n = levels.update(d, ls.take(lo) + ls.skip(hi));
        lemma_cut_step(levels, d, lo, hi, el, ej);
        lemma_cut_all(n, d + 1, fc(ls.take(lo)) as int, fc(ls.take(hi)) as int, el, ej);
    }
}

proof fn lemma_trim<T>(levels: Seq<Seq<Seq<(T, bool)>>>)
    requires
        settled(levels),
    ensures
        levels_ok(trim(levels)),
        count(trim(levels)) == count(levels),
        trim(levels).len() <= levels.len(),
        forall|l: int| 0 <= l < trim(levels).len() ==> #[trigger] trim(levels)[l] == levels[l],
    decreases levels.len(),
{
    reveal(settled_but);
    reveal(trim);
    if levels.len() > 1 && levels.last().len() == 0 {
        let d = levels.drop_last();
        assert(fc(levels[levels.len() - 2]) == 0);
        assert(total(levels.last()) == 0);
        lemma_trim(d);
    } else {
        assert forall|l: int| 1 <= l < levels.len() implies (#[trigger] levels[l]).len() > 0 by {
            if levels[l].len() == 0 {
                lemma_zero_below(levels, l);
            }
        }
    }
}

/// The levels that trimming drops hold no sub-list.
proof fn lemma_trim_tail<T>(levels: Seq<Seq<Seq<(T, bool)>>>)
    ensures
        trim(levels).len() <= levels.len(),
        forall|l: int| trim(levels).len() <= l < levels.len() ==> (#[trigger] levels[l]).len() == 0,
    decreases levels.len(),
{
    reveal(trim);
    if levels.len() > 1 && levels.last().len() == 0 {
        lemma_trim_tail(levels.drop_last());
        assert forall|l: int| trim(levels).len() <= l < levels.len() implies (#[trigger] levels[l]).len() == 0 by {
            if l < levels.len() - 1 {
                assert(levels[l] == levels.drop_last()[l]);
            }
        }
    }
}

/// A sequence of levels counts at least the nodes of its first level.
proof fn lemma_count_ge_first<T>(levels: Seq<Seq<Seq<(T, bool)>>>)
    requires
        levels.len() > 0,
    ensures
        count(levels) >= total(levels[0]),
{
    assert(levels =~= seq![levels[0]] + levels.drop_first());
    lemma_count_concat(seq![levels[0]], levels.drop_first());
    assert(seq![levels[0]].drop_last() =~= Seq::<Seq<Seq<(T, bool)>>>::empty());
    assert(count(Seq::<Seq<Seq<(T, bool)>>>::empty()) == 0);
}

/// Below a level with no sub-list there is none either.
proof fn lemma_zero_below<T>(levels: Seq<Seq<Seq<(T, bool)>>>, l: int)
    requires
        settled(levels),
        1 <= l < levels.len(),
        levels[l].len() == 0,
    ensures
        levels.last().len() == 0,
    decreases levels.len() - l,
{
    reveal(settled_but);
    if l + 1 < levels.len() {
        assert(levels[l + 1].len() == fc(levels[l]));
        assert(levels[l] =~= Seq::<Seq<(T, bool)>>::empty());
        lemma_zero_below(levels, l + 1);
    }
}

/// A (level, node) position: `node` counts across the sub-lists of the level in order.
#[derive(Debug, Clone, Copy, PartialEq, Eq)]
pub struct Index {
    pub level: usize,
    pub node: usize,
}

impl Index {
    pub fn new(level: usize, node: usize) -> (r: Self)
        ensures
            r.level == level,
            r.node == node,
    {
        Index { level, node }
    }
}

#[derive(Debug, Clone, Copy, PartialEq, Eq)]
pub enum MultiListError {
    /// No sub-list holds the position.
    NoList,
    /// No node stands at the position.
    NoNode,
    /// The position is the slot past the last node, where a node is needed.
    OutOfBounds,
    /// `insert_after` needs a node offset of at least 1.
    NodeIndexZero,
    /// The node already has a child sub-list.
    ChildExists,
    /// The level is not recorded.
    NoLevel,
    /// No node stands at the source position of a move.
    NoSource,
    /// No sub-list holds the destination position of a move.
    NoDestination,
}

impl MultiListError {
    pub fn message(&self) -> &'static str {
        match self {
            MultiListError::NoList => "can't find list at this index",
            MultiListError::NoNode => "can't find node at this index",
            MultiListError::OutOfBounds => "index out of bounds",
            MultiListError::NodeIndexZero => "wrong local node index, should be at least 1",
            MultiListError::ChildExists => "child already exists",
            MultiListError::NoLevel => "provided level does not exist",
            MultiListError::NoSource => "can't find list at source index",
            MultiListError::NoDestination => "can't find list at destination index",
        }
    }
}

/// A tree of sub-lists kept as its level index: each node may own one child
/// sub-list, and every level lists its sub-lists in parent order.
pub struct MultiList<T> {
    len: usize,
    index: Vec<Vec<LinkedList<(T, bool)>>>,
}

impl<T> View for MultiList<T> {
    type V = Seq<Seq<Seq<(T, bool)>>>;

    closed spec fn view(&self) -> Seq<Seq<Seq<(T, bool)>>> {
        self.index@.map_values(|lv: Vec<LinkedList<(T, bool)>>| lv@.map_values(|ls: LinkedList<(T, bool)>| ls@))
    }
}

impl<T> MultiList<T> {
    pub closed spec fn wf(&self) -> bool {
        &&& levels_ok(self@)
        &&& self.len == count(self@)
    }

    /// The level index invariants hold of every multi-list the public
    /// operations build: level 0 holds the root alone; each deeper level
    /// holds, in parent order, one non-empty sub-list per child-bearing node
    /// of the level above; the deepest level has no child-bearing node; and
    /// the node count is the sum of the sub-list lengths.
    pub proof fn lemma_index_ok(&self)
        requires
            self.wf(),
        ensures
            levels_ok(self@),
            count(self@) <= usize::MAX,
            forall|l: int| 1 <= l < self@.len() ==> total(#[trigger] self@[l]) > 0,
    {
        assert forall|l: int| 1 <= l < self@.len() implies total(#[trigger] self@[l]) > 0 by {
            let ls = self@[l];
            assert(ls[0].len() > 0);
            lemma_fc_split(ls, 0);
        }
    }

    pub fn new() -> (r: Self)
        ensures
            r.wf(),
            r@ == empty_levels::<T>(),
    {
        let mut root: Vec<LinkedList<(T, bool)>> = Vec::new();
        root.push(LinkedList::new());
        let mut index: Vec<Vec<LinkedList<(T, bool)>>> = Vec::new();
        index.push(root);
        let r = MultiList { len: 0, index };
        proof {
            assert(r@ =~= empty_levels::<T>()) by {
                assert(r@[0] =~= empty_levels::<T>()[0]);
            }
            let e = empty_levels::<T>();
            assert(e.drop_last() =~= Seq::<Seq<Seq<(T, bool)>>>::empty());
            assert(e[0].drop_last() =~= Seq::<Seq<(T, bool)>>::empty());
            assert(total(e[0].drop_last()) == 0);
            assert(total(e[0]) == 0);
            assert(count(e.drop_last()) == 0);
            assert(flags(Seq::<(T, bool)>::empty()) == 0);
            assert(fc(e[0].drop_last()) == 0);
            assert(fc(e[0]) == 0);
        }
        r
    }

    pub fn clear(&mut self)
        ensures
            final(self).wf(),
            final(self)@ == empty_levels::<T>(),
    {
        *self = Self::new();
    }

    /// The number of nodes over all levels.
    pub fn size(&self) -> (r: usize)
        requires
            self.wf(),
        ensures
            r == count(self@),
    {
        self.len
    }

    /// The number of recorded levels.
    pub fn levels(&self) -> (r: usize)
        ensures
            r == self@.len(),
    {
        self.index.len()
    }

    /// The number of nodes on `level`, or `None` past the deepest level.
    pub fn level_size(&self, level: usize) -> (r: Option<usize>)
        requires
            self.wf(),
        ensures
            level < self@.len() ==> r == Some(total(self@[level as int]) as usize),
            level >= self@.len() ==> r is None,
    {
        if level >= self.index.len() {
            return None;
        }
        let lists = &self.index[level];
        let ghost ls = self@[level as int];
        proof {
            lemma_total_le_count(self@, level as int);
        }
        let mut sum: usize = 0;
        let mut j: usize = 0;
        while j < lists.len()
            invariant
                ls == self@[level as int],
                lists@.len() == ls.len(),
                forall|i: int| 0 <= i < ls.len() ==> (#[trigger] lists@[i])@ == ls[i],
                total(ls) <= usize::MAX,
                j <= ls.len(),
                sum == total(ls.take(j as int)),
            decreases ls.len() - j,
        {
            proof {
                assert(ls.take(j + 1).drop_last() =~= ls.take(j as int));
                lemma_fc_split(ls, j as int);
                assert(ls.take(j + 1) =~= ls.take(j as int).push(ls[j as int]));
                lemma_fc_split(ls.take(j + 1), j as int);
                assert(ls.take(j + 1).take(j as int) =~= ls.take(j as int));
                assert(ls.take(j + 1).skip(j + 1) =~= Seq::<Seq<(T, bool)>>::empty());
            }
            sum = sum + lists[j].len();
            j = j + 1;
        }
        proof {
            assert(ls.take(j as int) =~= ls);
        }
        Some(sum)
    }

    /// Resolves position `node` of `level` to (sub-list, offset).
    fn get_sublist(&self, level: usize, node: usize) -> (r: Option<(usize, usize)>)
        requires
            level < self@.len(),
        ensures
            r is None <==> resolve(self@[level as int], node as int) is None,
            r is Some ==> resolve(self@[level as int], node as int) == Some((r->Some_0.0 as int, r->Some_0.1 as int)),
    {
        let lists = &self.index[level];
        let ghost ls = self@[level as int];
        let mut k: usize = node;
        let mut j: usize = 0;
        while j < lists.len()
            invariant
                ls == self@[level as int],
                lists@.len() == ls.len(),
                forall|i: int| 0 <= i < ls.len() ==> (#[trigger] lists@[i])@ == ls[i],
                j <= ls.len(),
                resolve(ls, node as int) == resolve_from(ls, j as int, k as int),
            decreases ls.len() - j,
        {
            let n = lists[j].len();
            if k < n || (j == lists.len() - 1 && k == n) {
                return Some((j, k));
            }
            k = k - n;
            j = j + 1;
        }
        None
    }

    /// Number of child-bearing nodes among the first `upto` of a sub-list.
    fn list_flags(list: &LinkedList<(T, bool)>, upto: usize) -> (r: usize)
        requires
            upto <= list@.len(),
        ensures
            r == flags(list@.take(upto as int)),
    {
        let mut c: usize = 0;
        let mut i: usize = 0;
        while i < upto
            invariant
                upto <= list@.len(),
                i <= upto,
                c == flags(list@.take(i as int)),
                c <= i,
            decreases upto - i,
        {
            proof {
                assert(list@.take(i + 1).drop_last() =~= list@.take(i as int));
            }
            match list.get(i) {
                Some(n) => {
                    if n.1 {
                        c = c + 1;
                    }
                },
                None => {},
            }
            i = i + 1;
        }
        c
    }

    /// The rank of the node at (`l`, `j`, `o`) among the child-bearing nodes of its level.
    fn rank_of(&self, l: usize, j: usize, o: usize) -> (r: usize)
        requires
            self.wf(),
            l < self@.len(),
            j < self@[l as int].len(),
            o <= self@[l as int][j as int].len(),
        ensures
            r == rank(self@[l as int], j as int, o as int),
            r <= fc(self@[l as int]),
    {
        let ghost ls = self@[l as int];
        proof {
            lemma_fc_le(ls);
            lemma_total_le_count(self@, l as int);
            lemma_fc_split(ls, j as int);
            let s = ls[j as int];
            assert(s =~= s.take(o as int) + s.skip(o as int));
            lemma_flags_concat(s.take(o as int), s.skip(o as int));
        }
        let mut c: usize = 0;
        let mut i: usize = 0;
        while i < j
            invariant
                self.wf(),
                ls == self@[l as int],
                l < self@.len(),
                j < ls.len(),
                i <= j,
                c == fc(ls.take(i as int)),
                fc(ls.take(j as int)) <= fc(ls) <= usize::MAX,
            decreases j - i,
        {
            proof {
                assert(ls.take(i + 1).drop_last() =~= ls.take(i as int));
                assert(ls.take(j as int) =~= ls.take(i + 1) + ls.take(j as int).skip(i + 1));
                lemma_fc_concat(ls.take(i + 1), ls.take(j as int).skip(i + 1));
            }
            let f = Self::list_flags(&self.index[l][i], self.index[l][i].len());
            proof {
                assert(self.index@[l as int]@[i as int]@.take(self.index@[l as int]@[i as int]@.len() as int) =~= ls[i as int]);
            }
            c = c + f;
            i = i + 1;
        }
        let f = Self::list_flags(&self.index[l][j], o);
        c + f
    }

    /// Puts `elem` at position `at`, a node offset or the slot past the
    /// level's last node.
    pub fn insert(&mut self, at: Index, elem: T) -> (r: Result<(), MultiListError>)
        requires
            old(self).wf(),
            count(old(self)@) < usize::MAX,
        ensures
            final(self).wf(),
            at.level < old(self)@.len() && resolve(old(self)@[at.level as int], at.node as int) is Some ==> r is Ok
                && final(self)@ == put(
                    old(self)@,
                    at.level as int,
                    resolve(old(self)@[at.level as int], at.node as int)->Some_0.0,
                    resolve(old(self)@[at.level as int], at.node as int)->Some_0.1,
                    (elem, false),
                ),
            !(at.level < old(self)@.len() && resolve(old(self)@[at.level as int], at.node as int) is Some) ==> r
                == Err::<(), MultiListError>(MultiListError::NoList) && final(self)@ == old(self)@,
            r is Ok ==> count(final(self)@) == count(old(self)@) + 1,
    {
        if at.level >= self.index.len() {
            return Err(MultiListError::NoList);
        }
        match self.get_sublist(at.level, at.node) {
            None => Err(MultiListError::NoList),
            Some((j, o)) => {
                proof {
                    lemma_resolve_bounds(self@[at.level as int], 0, at.node as int);
                }
                self.put_node(at.level, j, o, elem);
                Ok(())
            },
        }
    }

    /// Puts `elem` right after the node at position `at.node - 1`, in the
    /// same sub-list.
    pub fn insert_alt(&mut self, at: Index, elem: T) -> (r: Result<(), MultiListError>)
        requires
            old(self).wf(),
            count(old(self)@) < usize::MAX,
        ensures
            final(self).wf(),
            at.node == 0 ==> r == Err::<(), MultiListError>(MultiListError::NodeIndexZero) && final(self)@ == old(self)@,
            at.node > 0 && !(at.level < old(self)@.len() && resolve(old(self)@[at.level as int], at.node - 1) is Some) ==> r
                == Err::<(), MultiListError>(MultiListError::NoList) && final(self)@ == old(self)@,
            at.node > 0 && at.level < old(self)@.len() && resolve(old(self)@[at.level as int], at.node - 1) is Some ==> {
                let (j, o) = resolve(old(self)@[at.level as int], at.node - 1)->Some_0;
                &&& o >= old(self)@[at.level as int][j].len() ==> r == Err::<(), MultiListError>(MultiListError::OutOfBounds)
                    && final(self)@ == old(self)@
                &&& o < old(self)@[at.level as int][j].len() ==> r is Ok && final(self)@ == put(
                    old(self)@,
                    at.level as int,
                    j,
                    o + 1,
                    (elem, false),
                )
            },
            r is Ok ==> count(final(self)@) == count(old(self)@) + 1,
    {
        if at.node == 0 {
            return Err(MultiListError::NodeIndexZero);
        }
        if at.level >= self.index.len() {
            return Err(MultiListError::NoList);
        }
        match self.get_sublist(at.level, at.node - 1) {
            None => Err(MultiListError::NoList),
            Some((j, o)) => {
                proof {
                    lemma_resolve_bounds(self@[at.level as int], 0, at.node - 1);
                }
                if o >= self.index[at.level][j].len() {
                    return Err(MultiListError::OutOfBounds);
                }
                self.put_node(at.level, j, o + 1, elem);
                Ok(())
            },
        }
    }

    fn put_node(&mut self, l: usize, j: usize, o: usize, elem: T)
        requires
            old(self).wf(),
            count(old(self)@) < usize::MAX,
            l < old(self)@.len(),
            j < old(self)@[l as int].len(),
            o <= old(self)@[l as int][j as int].len(),
        ensures
            final(self).wf(),
            final(self)@ == put(old(self)@, l as int, j as int, o as int, (elem, false)),
            count(final(self)@) == count(old(self)@) + 1,
    {
        let ghost old_v = self@;
        self.index[l][j].insert((elem, false), o);
        self.len = self.len + 1;
        proof {
            let x = old_v[l as int].update(j as int, old_v[l as int][j as int].insert(o as int, (elem, false)));
            assert(self@ =~= put(old_v, l as int, j as int, o as int, (elem, false))) by {
                assert(self@[l as int] =~= x);
            }
            lemma_flags_insert(old_v[l as int][j as int], o as int, (elem, false));
            lemma_fc_update(old_v[l as int], j as int, old_v[l as int][j as int].insert(o as int, (elem, false)));
            lemma_levels_ok_update(old_v, l as int, x);
            lemma_count_update(old_v, l as int, x);
        }
    }

    /// Number of child-bearing nodes in the first `j` sub-lists of level `d`.
    fn fc_prefix(&self, d: usize, j: usize) -> (r: usize)
        requires
            d < self@.len(),
            j <= self@[d as int].len(),
            count(self@) <= usize::MAX,
        ensures
            r == fc(self@[d as int].take(j as int)),
    {
        let ghost ls = self@[d as int];
        proof {
            lemma_total_le_count(self@, d as int);
            lemma_fc_le(ls);
            lemma_fc_take_le(ls, j as int, j as int);
        }
        let mut c: usize = 0;
        let mut i: usize = 0;
        while i < j
            invariant
                ls == self@[d as int],
                d < self@.len(),
                j <= ls.len(),
                i <= j,
                c == fc(ls.take(i as int)),
                fc(ls.take(j as int)) <= fc(ls) <= usize::MAX,
            decreases j - i,
        {
            proof {
                assert(ls.take(i + 1).drop_last() =~= ls.take(i as int));
                lemma_fc_take_le(ls, i + 1, j as int);
            }
            let f = Self::list_flags(&self.index[d][i], self.index[d][i].len());
            proof {
                assert(self.index@[d as int]@[i as int]@.take(self.index@[d as int]@[i as int]@.len() as int) =~= ls[i as int]);
            }
            c = c + f;
            i = i + 1;
        }
        c
    }

    /// Cuts sub-lists `lo..hi` of level `d` and all that descends from them.
    fn cut_below(&mut self, d: usize, lo: usize, hi: usize, Ghost(el): Ghost<int>, Ghost(ej): Ghost<int>)
        requires
            pending(old(self)@, d as int, lo as int, hi as int, el, ej),
            count(old(self)@) <= usize::MAX,
        ensures
            final(self)@ == cut(old(self)@, d as int, lo as int, hi as int),
            final(self).len == old(self).len,
    {
        let ghost goal = cut(self@, d as int, lo as int, hi as int);
        let ghost top = count(self@);
        let mut d = d;
        let mut lo = lo;
        let mut hi = hi;
        while d < self.index.len()
            invariant
                cut(self@, d as int, lo as int, hi as int) == goal,
                pending(self@, d as int, lo as int, hi as int, el, ej),
                count(self@) <= top <= usize::MAX,
                self.len == old(self).len,
            decreases self@.len() - d,
        {
            proof {
                reveal(cut);
                reveal(pending);
            }
            let lo2 = self.fc_prefix(d, lo);
            let hi2 = self.fc_prefix(d, hi);
            let ghost cur = self@;
            let ghost ls = cur[d as int];
            proof {
                lemma_cut_step(cur, d as int, lo as int, hi as int, el, ej);
            }
            proof {
                assert(ls.take(lo as int) + ls.skip(lo as int) =~= ls);
                assert(cur.update(d as int, ls.take(lo as int) + ls.skip(lo as int)) =~= cur);
            }
            let mut c: usize = lo;
            while c < hi
                invariant
                    d < cur.len(),
                    ls == cur[d as int],
                    lo <= c <= hi <= ls.len(),
                    self.len == old(self).len,
                    self@ == cur.update(d as int, ls.take(lo as int) + ls.skip(c as int)),
                decreases hi - c,
            {
                let ghost before = self@;
                let ghost before_idx = self.index@;
                proof {
                    assert(self.index@.len() == before.len());
                    assert(self.index@[d as int]@.len() == before[d as int].len());
                    assert(before[d as int].len() == lo + (ls.len() - c));
                }
                let _ = self.index[d].remove(lo);
                proof {
                    assert(self.index@[d as int]@ == before_idx[d as int]@.remove(lo as int));
                    assert(self@[d as int] =~= ls.take(lo as int) + ls.skip(c + 1)) by {
                        assert forall|i: int| 0 <= i < self@[d as int].len() implies self@[d as int][i] == (ls.take(lo as int) + ls.skip(c + 1))[i] by {
                            if i < lo {
                                assert(self@[d as int][i] == before[d as int][i]);
                            } else {
                                assert(self@[d as int][i] == before[d as int][i + 1]);
                            }
                        }
                    }
                    assert(self@ =~= cur.update(d as int, ls.take(lo as int) + ls.skip(c + 1))) by {
                        assert(self.index@.len() == before_idx.len());
                        assert(self@.len() == before.len());
                        assert forall|i: int| 0 <= i < self@.len() && i != d implies self@[i] == cur[i] by {
                            assert(self.index@[i] == before_idx[i]);
                            assert(before[i] == cur[i]);
                        }
                    }
                }
                c = c + 1;
            }
            d = d + 1;
            lo = lo2;
            hi = hi2;
        }
        proof {
            reveal(cut);
        }
    }

    /// Drops trailing levels that hold no sub-list.
    fn trim_levels(&mut self)
        ensures
            final(self)@ == trim(old(self)@),
            final(self).len == old(self).len,
    {
        let ghost goal = trim(self@);
        while self.index.len() > 1 && self.index[self.index.len() - 1].len() == 0
            invariant
                trim(self@) == goal,
                self.len == old(self).len,
            decreases self@.len(),
        {
            let ghost before = self@;
            let _ = self.index.pop();
            proof {
                reveal(trim);
                assert(self@ =~= before.drop_last());
            }
        }
        proof {
            reveal(trim);
        }
    }

    /// Counts the nodes over all levels.
    fn count_nodes(&self) -> (r: usize)
        requires
            count(self@) <= usize::MAX,
        ensures
            r == count(self@),
    {
        let ghost v = self@;
        let mut sum: usize = 0;
        let mut l: usize = 0;
        while l < self.index.len()
            invariant
                v == self@,
                l <= v.len(),
                sum == count(v.take(l as int)),
                count(v) <= usize::MAX,
            decreases v.len() - l,
        {
            proof {
                assert(v.take(l + 1).drop_last() =~= v.take(l as int));
                assert(v =~= v.take(l + 1) + v.skip(l + 1));
                lemma_count_concat(v.take(l + 1), v.skip(l + 1));
            }
            let lists = &self.index[l];
            let ghost ls = v[l as int];
            let mut j: usize = 0;
            let mut part: usize = sum;
            while j < lists.len()
                invariant
                    ls == v[l as int],
                    lists@.len() == ls.len(),
                    forall|i: int| 0 <= i < ls.len() ==> (#[trigger] lists@[i])@ == ls[i],
                    j <= ls.len(),
                    part == sum + total(ls.take(j as int)),
                    sum + total(ls) <= usize::MAX,
                decreases ls.len() - j,
            {
                proof {
                    assert(ls.take(j + 1).drop_last() =~= ls.take(j as int));
                    lemma_fc_take_le(ls, j + 1, ls.len() as int);
                    assert(ls.take(ls.len() as int) =~= ls);
                }
                part = part + lists[j].len();
                j = j + 1;
            }
            proof {
                assert(ls.take(ls.len() as int) =~= ls);
            }
            sum = part;
            l = l + 1;
        }
        proof {
            assert(v.take(v.len() as int) =~= v);
        }
        sum
    }

    /// Resolves position `node` of `level` to a node, as (sub-list, offset).
    fn get_sublist_node(&self, level: usize, node: usize) -> (r: Option<(usize, usize)>)
        requires
            self.wf(),
        ensures
            r is None <==> locate(self@, level as int, node as int) is None,
            r is Some ==> locate(self@, level as int, node as int) == Some((r->Some_0.0 as int, r->Some_0.1 as int)),
            r is Some ==> level < self@.len() && r->Some_0.0 < self@[level as int].len() && r->Some_0.1 < self@[level as int][r->Some_0.0 as int].len(),
    {
        if level >= self.index.len() {
            return None;
        }
        match self.get_sublist(level, node) {
            None => None,
            Some((j, o)) => {
                proof {
                    lemma_resolve_bounds(self@[level as int], 0, node as int);
                }
                if o < self.index[level][j].len() {
                    Some((j, o))
                } else {
                    None
                }
            },
        }
    }

    /// The (sub-list, offset) of the `j`-th child-bearing node of level `l`.
    fn find_parent(&self, l: usize, j: usize) -> (r: (usize, usize))
        requires
            l < self@.len(),
            j < fc(self@[l as int]),
        ensures
            r.0 < self@[l as int].len(),
            r.1 < self@[l as int][r.0 as int].len(),
            self@[l as int][r.0 as int][r.1 as int].1,
            rank(self@[l as int], r.0 as int, r.1 as int) == j,
    {
        let ghost ls = self@[l as int];
        let lists = &self.index[l];
        let mut cnt: usize = 0;
        let mut q: usize = 0;
        while q < lists.len()
            invariant
                ls == self@[l as int],
                lists@.len() == ls.len(),
                forall|i: int| 0 <= i < ls.len() ==> (#[trigger] lists@[i])@ == ls[i],
                j < fc(ls),
                q <= ls.len(),
                cnt == fc(ls.take(q as int)),
                cnt <= j,
            decreases ls.len() - q,
        {
            let list = &lists[q];
            let mut i: usize = 0;
            while i < list.len()
                invariant
                    ls == self@[l as int],
                    q < ls.len(),
                    list@ == ls[q as int],
                    i <= list@.len(),
                    cnt == fc(ls.take(q as int)) + flags(list@.take(i as int)),
                    cnt <= j,
                decreases list@.len() - i,
            {
                proof {
                    assert(list@.take(i + 1).drop_last() =~= list@.take(i as int));
                }
                match list.get(i) {
                    Some(n) => {
                        if n.1 {
                            if cnt == j {
                                return (q, i);
                            }
                            cnt = cnt + 1;
                        }
                    },
                    None => {},
                }
                i = i + 1;
            }
            proof {
                assert(ls.take(q + 1).drop_last() =~= ls.take(q as int));
                assert(list@.take(list@.len() as int) =~= list@);
            }
            q = q + 1;
        }
        proof {
            assert(ls.take(ls.len() as int) =~= ls);
        }
        (0, 0)
    }

    proof fn lemma_view_shape(&self)
        ensures
            self.index@.len() == self@.len(),
            forall|l: int| 0 <= l < self@.len() ==> (#[trigger] self.index@[l])@.len() == self@[l].len(),
            forall|l: int, j: int| 0 <= l < self@.len() && 0 <= j < self@[l].len() ==> (#[trigger] self.index@[l]@[j])@ == self@[l][j],
    {
    }

    fn set_flag(&mut self, l: usize, j: usize, o: usize, f: bool)
        requires
            l < old(self)@.len(),
            j < old(self)@[l as int].len(),
            o < old(self)@[l as int][j as int].len(),
        ensures
            final(self)@ == mark(old(self)@, l as int, j as int, o as int, f),
            final(self).len == old(self).len,
    {
        let ghost before = self@;
        let n = self.index[l][j].get_mut(o);
        n.1 = f;
        proof {
            assert(self@ =~= mark(before, l as int, j as int, o as int, f)) by {
                assert(self@[l as int] =~= mark(before, l as int, j as int, o as int, f)[l as int]) by {
                    assert(self@[l as int][j as int] =~= mark(before, l as int, j as int, o as int, f)[l as int][j as int]);
                }
            }
        }
    }

    #[verifier::spinoff_prover]
    #[verifier::rlimit(50)]
    fn attach_at(&mut self, l: usize, j: usize, o: usize, elem: T)
        requires
            old(self).wf(),
            count(old(self)@) < usize::MAX,
            l < old(self)@.len(),
            j < old(self)@[l as int].len(),
            o < old(self)@[l as int][j as int].len(),
            !old(self)@[l as int][j as int][o as int].1,
        ensures
            final(self).wf(),
            final(self)@ == attach(old(self)@, l as int, j as int, o as int, elem),
            count(final(self)@) == count(old(self)@) + 1,
    {
        proof {
            self.lemma_view_shape();
        }
        let ghost v = self@;
        let r = self.rank_of(l, j, o);
        self.set_flag(l, j, o, true);
        let mut child: LinkedList<(T, bool)> = LinkedList::new();
        child.push_back((elem, false));
        let ghost c = child@;
        proof {
            assert(c =~= seq![(elem, false)]);
        }
        let ghost flagged = self@;
        proof {
            self.lemma_view_shape();
        }
        if l == self.index.len() - 1 {
            let mut lv: Vec<LinkedList<(T, bool)>> = Vec::new();
            lv.push(child);
            self.index.push(lv);
            proof {
                assert(self@[self@.len() - 1] =~= seq![c]);
                assert(self@ =~= flagged.push(seq![c]));
            }
        } else {
            self.index[l + 1].insert(r, child);
            proof {
                assert(self@ =~= flagged.update(l + 1, flagged[l + 1].insert(r as int, c))) by {
                    assert(self@[l + 1] =~= flagged[l + 1].insert(r as int, c));
                }
            }
        }
        proof {
            lemma_attach(v, l as int, j as int, o as int, elem);
        }
        self.len = self.len + 1;
    }

    /// Gives the node at `at` the new child sub-list `[elem]`.
    #[verifier::spinoff_prover]
    pub fn attach_child(&mut self, at: Index, elem: T) -> (r: Result<(), MultiListError>)
        requires
            old(self).wf(),
            count(old(self)@) < usize::MAX,
        ensures
            final(self).wf(),
            locate(old(self)@, at.level as int, at.node as int) is None ==> r == Err::<(), MultiListError>(MultiListError::NoNode)
                && final(self)@ == old(self)@,
            locate(old(self)@, at.level as int, at.node as int) is Some ==> {
                let (j, o) = locate(old(self)@, at.level as int, at.node as int)->Some_0;
                &&& old(self)@[at.level as int][j][o].1 ==> r == Err::<(), MultiListError>(MultiListError::ChildExists)
                    && final(self)@ == old(self)@
                &&& !old(self)@[at.level as int][j][o].1 ==> r is Ok && final(self)@ == attach(old(self)@, at.level as int, j, o, elem)
            },
            r is Ok ==> count(final(self)@) == count(old(self)@) + 1,
    {
        let l = at.level;
        let (j, o) = match self.get_sublist_node(l, at.node) {
            None => {
                return Err(MultiListError::NoNode);
            },
            Some(p) => p,
        };
        proof {
            self.lemma_view_shape();
        }
        let had = match self.index[l][j].get(o) {
            Some(n) => n.1,
            None => false,
        };
        if had {
            return Err(MultiListError::ChildExists);
        }
        self.attach_at(l, j, o, elem);
        Ok(())
    }

    #[verifier::spinoff_prover]
    #[verifier::rlimit(100)]
    fn detach_at(&mut self, l: usize, j: usize, o: usize)
        requires
            old(self).wf(),
            l < old(self)@.len(),
            j < old(self)@[l as int].len(),
            o < old(self)@[l as int][j as int].len(),
            old(self)@[l as int][j as int][o as int].1,
        ensures
            final(self).wf(),
            final(self)@ == detach(old(self)@, l as int, j as int, o as int),
            count(final(self)@) + gtotal(child_tree(old(self)@, l as int, j as int, o as int)) == count(old(self)@),
    {
        let ghost v = self@;
        let ghost li = l as int;
        let r = self.rank_of(l, j, o);
        proof {
            lemma_rank_lt(v[li], j as int, o as int);
            lemma_fc_le(v[li]);
            lemma_total_le_count(v, li);
            assert(li + 1 < v.len());
            self.lemma_view_shape();
        }
        let n = self.index.len();
        assert(l + 1 < n);
        self.set_flag(l, j, o, false);
        let ghost m = self@;
        proof {
            lemma_detach_pending(v, li, j as int, o as int);
        }
        self.cut_below(l + 1, r, r + 1, Ghost(0), Ghost(0));
        let ghost c = self@;
        proof {
            lemma_cut_all(m, li + 1, r as int, r + 1, 0, 0);
            reveal(pending);
            assert(below_ok(m, li + 1)) by {
                assert forall|ll: int| li + 1 < ll < m.len() implies (#[trigger] m[ll]).len() == fc(m[ll - 1]) by {
                    assert(v[ll].len() == fc(v[ll - 1]));
                }
                assert forall|ll: int, jj: int| li + 1 <= ll < m.len() && 0 <= jj < m[ll].len() implies (#[trigger] m[ll][jj]).len() > 0 by {
                    assert(v[ll][jj].len() > 0);
                }
            }
            lemma_cut_groups_ok(m, li + 1, r as int, r + 1);
            lemma_trim(c);
        }
        self.settle();
        proof {
            reveal(detach);
        }
    }

    /// Drops trailing empty levels and recounts the nodes.
    fn settle(&mut self)
        requires
            settled(old(self)@),
            count(old(self)@) <= usize::MAX,
        ensures
            final(self).wf(),
            final(self)@ == trim(old(self)@),
    {
        proof {
            lemma_trim(self@);
        }
        self.trim_levels();
        self.len = self.count_nodes();
    }

    /// Removes the child sub-list of the node at `at`, with everything below it.
    #[verifier::spinoff_prover]
    pub fn detach_child(&mut self, at: Index) -> (r: Result<(), MultiListError>)
        requires
            old(self).wf(),
        ensures
            final(self).wf(),
            locate(old(self)@, at.level as int, at.node as int) is None ==> r == Err::<(), MultiListError>(MultiListError::NoNode)
                && final(self)@ == old(self)@,
            locate(old(self)@, at.level as int, at.node as int) is Some ==> {
                let (j, o) = locate(old(self)@, at.level as int, at.node as int)->Some_0;
                &&& r is Ok
                &&& !old(self)@[at.level as int][j][o].1 ==> final(self)@ == old(self)@
                &&& old(self)@[at.level as int][j][o].1 ==> final(self)@ == detach(old(self)@, at.level as int, j, o)
            },
            locate(old(self)@, at.level as int, at.node as int) is Some ==> {
                let (j, o) = locate(old(self)@, at.level as int, at.node as int)->Some_0;
                old(self)@[at.level as int][j][o].1 ==> count(final(self)@) + gtotal(child_tree(old(self)@, at.level as int, j, o))
                    == count(old(self)@)
            },
    {
        let l = at.level;
        let (j, o) = match self.get_sublist_node(l, at.node) {
            None => {
                return Err(MultiListError::NoNode);
            },
            Some(p) => p,
        };
        proof {
            self.lemma_view_shape();
        }
        let had = match self.index[l][j].get(o) {
            Some(n) => n.1,
            None => false,
        };
        if !had {
            return Ok(());
        }
        self.detach_at(l, j, o);
        Ok(())
    }

    /// Removes the node at `at`, with its child sub-list and everything below
    /// it, and returns its element. A sub-list left empty is dropped and its
    /// parent left childless.
    #[verifier::spinoff_prover]
    pub fn pop(&mut self, at: Index) -> (r: Result<T, MultiListError>)
        requires
            old(self).wf(),
        ensures
            final(self).wf(),
            !(at.level < old(self)@.len() && resolve(old(self)@[at.level as int], at.node as int) is Some) ==> r == Err::<
                T,
                MultiListError,
            >(MultiListError::NoList) && final(self)@ == old(self)@,
            at.level < old(self)@.len() && resolve(old(self)@[at.level as int], at.node as int) is Some ==> {
                let l = at.level as int;
                let (j, o) = resolve(old(self)@[l], at.node as int)->Some_0;
                let p = pluck(old(self)@, l, j, o);
                &&& o >= old(self)@[l][j].len() ==> r == Err::<T, MultiListError>(MultiListError::OutOfBounds) && final(self)@ == old(self)@
                &&& o < old(self)@[l][j].len() ==> r == Ok::<T, MultiListError>(old(self)@[l][j][o].0)
                &&& o < old(self)@[l][j].len() && (l == 0 || p[l][j].len() > 0) ==> final(self)@ == trim(p)
                &&& o < old(self)@[l][j].len() && l > 0 && p[l][j].len() == 0 ==> exists|pj: int, po: int|
                    0 <= pj < old(self)@[l - 1].len() && 0 <= po < old(self)@[l - 1][pj].len() && old(self)@[l - 1][pj][po].1
                        && #[trigger] rank(old(self)@[l - 1], pj, po) == j && final(self)@ == trim(
                        mark(p, l - 1, pj, po, false).update(l, p[l].remove(j)),
                    )
            },
    {
        let l = at.level;
        if l >= self.index.len() {
            return Err(MultiListError::NoList);
        }
        let (j, o) = match self.get_sublist(l, at.node) {
            None => {
                return Err(MultiListError::NoList);
            },
            Some(p) => p,
        };
        proof {
            lemma_resolve_bounds(self@[l as int], 0, at.node as int);
        }
        proof {
            self.lemma_view_shape();
        }
        if o >= self.index[l][j].len() {
            return Err(MultiListError::OutOfBounds);
        }
        let ghost v = self@;
        let ghost li = l as int;
        let r = self.rank_of(l, j, o);
        let had = match self.index[l][j].get(o) {
            Some(n) => n.1,
            None => false,
        };
        let f: usize = if had { 1 } else { 0 };
        proof {
            if had {
                lemma_rank_lt(v[li], j as int, o as int);
            }
            lemma_flags_split(v[li][j as int], o as int);
        }
        let popped = self.index[l][j].pop(o);
        let elem = match popped {
            Some(n) => n.0,
            None => {
                proof {
                    assert(false);
                }
                return Err(MultiListError::OutOfBounds);
            },
        };
        proof {
            assert(self@ =~= unlink(v, li, j as int, o as int)) by {
                assert(self@[li] =~= unlink(v, li, j as int, o as int)[li]);
            }
            lemma_pop_pending(v, li, j as int, o as int);
            lemma_fc_le(v[li]);
            lemma_total_le_count(v, li);
        }
        self.cut_below(l + 1, r, r + f, Ghost(li), Ghost(j as int));
        let ghost p = self@;
        proof {
            lemma_cut_all(unlink(v, li, j as int, o as int), li + 1, r as int, r + f, li, j as int);
            assert(p == pluck(v, li, j as int, o as int));
        }
        proof {
            self.lemma_view_shape();
        }
        if l > 0 && self.index[l][j].len() == 0 {
            proof {
                reveal(settled_but);
                assert(p[li].len() == fc(p[li - 1]));
            }
            let (pj, po) = self.find_parent(l - 1, j);
            self.set_flag(l - 1, pj, po, false);
            let ghost marked = self@;
            proof {
                self.lemma_view_shape();
            }
            let _ = self.index[l].remove(j);
            proof {
                assert(self@ =~= marked.update(li, p[li].remove(j as int))) by {
                    assert(self@[li] =~= p[li].remove(j as int));
                }
                lemma_pop_empty(p, li, j as int, pj as int, po as int);
                lemma_trim(self@);
                assert(v[li - 1] == p[li - 1]);
            }
        } else {
            proof {
                assert(settled_but(p, 0, 0)) by {
                    reveal(settled_but);
                    assert forall|ll: int, jj: int| 1 <= ll < p.len() && 0 <= jj < p[ll].len() && !(ll == 0 && jj == 0) implies (#[trigger] p[ll][jj]).len() > 0 by {
                        if !(ll == li && jj == j) {
                            assert(settled_but(p, li, j as int));
                        }
                    }
                }
                lemma_trim(p);
            }
        }
        self.trim_levels();
        self.len = self.count_nodes();
        Ok(elem)
    }
    /// Drops `level` and every level below it, leaving the nodes just above
    /// childless; level 0 clears the multi-list.
    pub fn remove_level(&mut self, level: usize) -> (r: Result<(), MultiListError>)
        requires
            old(self).wf(),
        ensures
            final(self).wf(),
            level >= old(self)@.len() ==> r == Err::<(), MultiListError>(MultiListError::NoLevel) && final(self)@ == old(self)@,
            level == 0 ==> r is Ok && final(self)@ == empty_levels::<T>(),
            0 < level < old(self)@.len() ==> r is Ok && final(self)@ == cut_levels(old(self)@, level as int),
            0 < level < old(self)@.len() ==> count(final(self)@) < count(old(self)@),
    {
        if level >= self.index.len() {
            return Err(MultiListError::NoLevel);
        }
        if level == 0 {
            self.clear();
            return Ok(());
        }
        let ghost v = self@;
        let p = level - 1;
        self.index.truncate(level);
        proof {
            assert(self@ =~= v.take(level as int));
            self.lemma_view_shape();
        }
        let nl = self.index[p].len();
        let mut j: usize = 0;
        while j < nl
            invariant
                p + 1 == level < v.len(),
                nl == v[p as int].len(),
                j <= nl,
                self@.len() == level,
                forall|ll: int| 0 <= ll < p ==> self@[ll] == v[ll],
                self@[p as int].len() == nl,
                forall|jj: int| 0 <= jj < nl ==> (#[trigger] self@[p as int][jj]) == if jj < j {
                    unflag(v[p as int])[jj]
                } else {
                    v[p as int][jj]
                },
            decreases nl - j,
        {
            let ghost before = self@;
            proof {
                self.lemma_view_shape();
            }
            let n = self.index[p][j].len();
            let mut i: usize = 0;
            while i < n
                invariant
                    p + 1 == level < v.len(),
                    j < nl == v[p as int].len(),
                    n == v[p as int][j as int].len(),
                    i <= n,
                    self@.len() == level,
                    forall|ll: int| 0 <= ll < p ==> self@[ll] == v[ll],
                    self@[p as int].len() == nl,
                    forall|jj: int| 0 <= jj < nl && jj != j ==> (#[trigger] self@[p as int][jj]) == before[p as int][jj],
                    self@[p as int][j as int].len() == n,
                    forall|ii: int| 0 <= ii < n ==> (#[trigger] self@[p as int][j as int][ii]) == if ii < i {
                        (v[p as int][j as int][ii].0, false)
                    } else {
                        v[p as int][j as int][ii]
                    },
                decreases n - i,
            {
                self.set_flag(p, j, i, false);
                i = i + 1;
            }
            proof {
                assert(self@[p as int][j as int] =~= unflag(v[p as int])[j as int]);
            }
            j = j + 1;
        }
        proof {
            let u = unflag(v[p as int]);
            assert(self@[p as int] =~= u);
            assert(self@ =~= cut_levels(v, level as int));
            lemma_unflag(v[p as int]);
            let t = v.take(level as int);
            assert(v =~= t + v.skip(level as int));
            lemma_count_concat(t, v.skip(level as int));
            lemma_count_update(t, p as int, u);
            lemma_count_ge_first(v.skip(level as int));
            assert(v[level as int][0].len() > 0);
            lemma_fc_split(v[level as int], 0);
            assert(v.skip(level as int)[0] == v[level as int]);
            assert forall|l: int, jj: int| 1 <= l < self@.len() && 0 <= jj < self@[l].len() implies (#[trigger] self@[l][jj]).len() > 0 by {
                assert(v[l][jj].len() > 0);
            }
            assert forall|l: int| 1 <= l < self@.len() implies (#[trigger] self@[l]).len() == fc(self@[l - 1]) && self@[l].len() > 0 by {
                assert(v[l].len() == fc(v[l - 1]));
            }
        }
        self.len = self.count_nodes();
        Ok(())
    }

    /// For each sub-list of level `level + 1`, the offset on `level` of the
    /// node that owns it, in order.
    pub fn get_children_of_level(&self, level: usize) -> (r: Vec<usize>)
        requires
            self.wf(),
        ensures
            level >= self@.len() ==> r@.len() == 0,
            level < self@.len() ==> r@.len() == fc(self@[level as int]),
            level < self@.len() ==> forall|i: int| 0 <= i < r@.len() ==> (#[trigger] r@[i]) < flat(self@[level as int]).len()
                && flat(self@[level as int])[r@[i] as int].1
                && flags(flat(self@[level as int]).take(r@[i] as int)) == i,
    {
        if level >= self.index.len() {
            return Vec::new();
        }
        let ghost ls = self@[level as int];
        let lists = &self.index[level];
        proof {
            lemma_total_le_count(self@, level as int);
            lemma_flat_len(ls);
        }
        let mut out: Vec<usize> = Vec::new();
        let mut off: usize = 0;
        let mut q: usize = 0;
        while q < lists.len()
            invariant
                ls == self@[level as int],
                lists@.len() == ls.len(),
                forall|x: int| 0 <= x < ls.len() ==> (#[trigger] lists@[x])@ == ls[x],
                total(ls) <= usize::MAX,
                flat(ls).len() == total(ls),
                q <= ls.len(),
                off == total(ls.take(q as int)),
                out@.len() == fc(ls.take(q as int)),
                forall|i: int| 0 <= i < out@.len() ==> (#[trigger] out@[i]) < flat(ls).len() && flat(ls)[out@[i] as int].1
                    && flags(flat(ls).take(out@[i] as int)) == i,
            decreases ls.len() - q,
        {
            let list = &lists[q];
            proof {
                lemma_flat_at(ls, q as int);
                assert(ls.take(q + 1).drop_last() =~= ls.take(q as int));
            }
            let mut i: usize = 0;
            while i < list.len()
                invariant
                    ls == self@[level as int],
                    q < ls.len(),
                    list@ == ls[q as int],
                    flat(ls).len() == total(ls),
                    total(ls.take(q as int)) + ls[q as int].len() <= total(ls),
                    total(ls) <= usize::MAX,
                    forall|y: int| 0 <= y < ls[q as int].len() ==> flat(ls)[total(ls.take(q as int)) + y] == #[trigger] ls[q as int][y],
                    forall|y: int| 0 <= y <= ls[q as int].len() ==> #[trigger] flat(ls).take(total(ls.take(q as int)) + y) == flat(ls.take(q as int)) + ls[q as int].take(y),
                    i <= list@.len(),
                    off == total(ls.take(q as int)) + i,
                    out@.len() == fc(ls.take(q as int)) + flags(list@.take(i as int)),
                    fc(ls.take(q as int)) == flags(flat(ls.take(q as int))),
                    forall|k: int| 0 <= k < out@.len() ==> (#[trigger] out@[k]) < flat(ls).len() && flat(ls)[out@[k] as int].1
                        && flags(flat(ls).take(out@[k] as int)) == k,
                decreases list@.len() - i,
            {
                proof {
                    assert(list@.take(i + 1).drop_last() =~= list@.take(i as int));
                    assert(flat(ls).take(off as int) == flat(ls.take(q as int)) + ls[q as int].take(i as int));
                    lemma_flags_concat(flat(ls.take(q as int)), ls[q as int].take(i as int));
                }
                match list.get(i) {
                    Some(n) => {
                        if n.1 {
                            out.push(off);
                        }
                    },
                    None => {},
                }
                off = off + 1;
                i = i + 1;
            }
            proof {
                assert(list@.take(list@.len() as int) =~= list@);
            }
            q = q + 1;
        }
        proof {
            assert(ls.take(ls.len() as int) =~= ls);
        }
        out
    }

    /// The sub-lists of `level`, in order.
    pub fn level_lists(&self, level: usize) -> (r: Option<&Vec<LinkedList<(T, bool)>>>)
        ensures
            level >= self@.len() ==> r is None,
            level < self@.len() ==> r is Some && r->Some_0@.len() == self@[level as int].len()
                && forall|j: int| 0 <= j < self@[level as int].len() ==> (#[trigger] r->Some_0@[j])@ == self@[level as int][j],
    {
        if level < self.index.len() {
            Some(&self.index[level])
        } else {
            None
        }
    }

    /// Cuts sub-lists `lo..hi` of level `d` and all that descends from them,
    /// and hands the cut sub-lists back, one group per level.
    #[verifier::spinoff_prover]
    fn cut_collect(&mut self, d: usize, lo: usize, hi: usize, Ghost(el): Ghost<int>, Ghost(ej): Ghost<int>) -> (r: Vec<Vec<LinkedList<(T, bool)>>>)
        requires
            pending(old(self)@, d as int, lo as int, hi as int, el, ej),
            count(old(self)@) <= usize::MAX,
        ensures
            final(self)@ == cut(old(self)@, d as int, lo as int, hi as int),
            nest(r@) == cut_groups(old(self)@, d as int, lo as int, hi as int),
            final(self).len == old(self).len,
    {
        let ghost goal = cut(self@, d as int, lo as int, hi as int);
        let ghost goal_g = cut_groups(self@, d as int, lo as int, hi as int);
        let ghost top = count(self@);
        let mut out: Vec<Vec<LinkedList<(T, bool)>>> = Vec::new();
        let mut d = d;
        let mut lo = lo;
        let mut hi = hi;
        while d < self.index.len()
            invariant
                cut(self@, d as int, lo as int, hi as int) == goal,
                nest(out@) + cut_groups(self@, d as int, lo as int, hi as int) == goal_g,
                pending(self@, d as int, lo as int, hi as int, el, ej),
                count(self@) <= top <= usize::MAX,
                self.len == old(self).len,
            decreases self@.len() - d,
        {
            proof {
                reveal(cut);
                reveal(cut_groups);
                reveal(pending);
            }
            let lo2 = self.fc_prefix(d, lo);
            let hi2 = self.fc_prefix(d, hi);
            let ghost cur = self@;
            let ghost ls = cur[d as int];
            proof {
                lemma_cut_step(cur, d as int, lo as int, hi as int, el, ej);
                assert(ls.take(lo as int) + ls.skip(lo as int) =~= ls);
                assert(cur.update(d as int, ls.take(lo as int) + ls.skip(lo as int)) =~= cur);
            }
            let mut group: Vec<LinkedList<(T, bool)>> = Vec::new();
            let mut c: usize = lo;
            while c < hi
                invariant
                    d < cur.len(),
                    ls == cur[d as int],
                    lo <= c <= hi <= ls.len(),
                    self.len == old(self).len,
                    self@ == cur.update(d as int, ls.take(lo as int) + ls.skip(c as int)),
                    group@.map_values(|x: LinkedList<(T, bool)>| x@) == ls.subrange(lo as int, c as int),
                decreases hi - c,
            {
                let ghost before = self@;
                let ghost before_idx = self.index@;
                let ghost gb = group@;
                proof {
                    assert(self.index@.len() == before.len());
                    assert(self.index@[d as int]@.len() == before[d as int].len());
                }
                let x = self.index[d].remove(lo);
                group.push(x);
                proof {
                    assert(self.index@[d as int]@ == before_idx[d as int]@.remove(lo as int));
                    assert(x@ == ls[c as int]) by {
                        assert(before[d as int][lo as int] == ls[c as int]);
                    }
                    assert(group@ == gb.push(x));
                    assert(group@.map_values(|x: LinkedList<(T, bool)>| x@) =~= gb.map_values(|x: LinkedList<(T, bool)>| x@).push(x@));
                    assert(ls.subrange(lo as int, c + 1) =~= ls.subrange(lo as int, c as int).push(ls[c as int]));
                    assert(self@[d as int] =~= ls.take(lo as int) + ls.skip(c + 1)) by {
                        assert forall|i: int| 0 <= i < self@[d as int].len() implies self@[d as int][i] == (ls.take(lo as int) + ls.skip(c + 1))[i] by {
                            if i < lo {
                                assert(self@[d as int][i] == before[d as int][i]);
                            } else {
                                assert(self@[d as int][i] == before[d as int][i + 1]);
                            }
                        }
                    }
                    assert(self@ =~= cur.update(d as int, ls.take(lo as int) + ls.skip(c + 1))) by {
                        assert(self.index@.len() == before_idx.len());
                        assert(self@.len() == before.len());
                        assert forall|i: int| 0 <= i < self@.len() && i != d implies self@[i] == cur[i] by {
                            assert(self.index@[i] == before_idx[i]);
                            assert(before[i] == cur[i]);
                        }
                    }
                }
                c = c + 1;
            }
            let ghost prev_out = out@;
            out.push(group);
            proof {
                assert(nest(out@) =~= nest(prev_out).push(ls.subrange(lo as int, hi as int)));
                let n1 = cur.update(d as int, ls.take(lo as int) + ls.skip(hi as int));
                assert(cut_groups(cur, d as int, lo as int, hi as int) == seq![ls.subrange(lo as int, hi as int)] + cut_groups(
                    n1, d + 1, lo2 as int, hi2 as int));
                assert(nest(out@) + cut_groups(n1, d + 1, lo2 as int, hi2 as int) =~= nest(prev_out) + cut_groups(
                    cur, d as int, lo as int, hi as int));
            }
            d = d + 1;
            lo = lo2;
            hi = hi2;
        }
        proof {
            reveal(cut);
            reveal(cut_groups);
            assert(nest(out@) + Seq::<Seq<Seq<(T, bool)>>>::empty() =~= nest(out@));
        }
        out
    }

    /// Puts groups of sub-lists back as `graft` describes.
    #[verifier::spinoff_prover]
    #[verifier::rlimit(100)]
    fn graft_groups(&mut self, d: usize, ins: usize, groups: Vec<Vec<LinkedList<(T, bool)>>>)
        requires
            d <= old(self)@.len(),
            d < old(self)@.len() ==> ins <= old(self)@[d as int].len(),
            d == old(self)@.len() ==> ins == 0,
            count(old(self)@) + gtotal(nest(groups@)) <= usize::MAX,
            grafting(old(self)@, d as int, nest(groups@)),
        ensures
            final(self)@ == graft(old(self)@, d as int, ins as int, nest(groups@)),
            final(self).len == old(self).len,
    {
        let ghost goal = graft(self@, d as int, ins as int, nest(groups@));
        let mut groups = groups;
        let mut d = d;
        let mut ins = ins;
        while groups.len() > 0
            invariant
                graft(self@, d as int, ins as int, nest(groups@)) == goal,
                d <= self@.len(),
                d < self@.len() ==> ins <= self@[d as int].len(),
                d == self@.len() ==> ins == 0,
                count(self@) + gtotal(nest(groups@)) <= usize::MAX,
                self.len == old(self).len,
                grafting(self@, d as int, nest(groups@)),
            decreases groups@.len(),
        {
            proof {
                reveal(graft);
            }
            let ghost g_all = nest(groups@);
            let g = groups.remove(0);
            let ghost g0 = g@.map_values(|x: LinkedList<(T, bool)>| x@);
            proof {
                assert(g0 == g_all[0]);
                assert(nest(groups@) =~= g_all.drop_first());
            }
            let ghost st = self@;
            if d == self.index.len() {
                let ghost st_idx = self.index@;
                let nv: Vec<LinkedList<(T, bool)>> = Vec::new();
                self.index.push(nv);
                proof {
                    assert(self.index@ == st_idx.push(nv));
                    assert(self@[st.len() as int] =~= Seq::<Seq<(T, bool)>>::empty());
                    assert(self@ =~= st.push(Seq::<Seq<(T, bool)>>::empty()));
                    let e = seq![Seq::<Seq<(T, bool)>>::empty()];
                    assert(st.push(Seq::<Seq<(T, bool)>>::empty()) =~= st + e);
                    lemma_count_concat(st, e);
                    assert(e.drop_last() =~= Seq::<Seq<Seq<(T, bool)>>>::empty());
                    assert(total(Seq::<Seq<(T, bool)>>::empty()) == 0);
                }
            }
            let ghost lv = self@;
            let ghost ls = lv[d as int];
            proof {
                lemma_total_le_count(lv, d as int);
                assert(count(Seq::<Seq<Seq<(T, bool)>>>::empty()) == 0);
                assert(count(seq![Seq::<Seq<(T, bool)>>::empty()]) == 0) by {
                    let e = seq![Seq::<Seq<(T, bool)>>::empty()];
                    assert(e.drop_last() =~= Seq::<Seq<Seq<(T, bool)>>>::empty());
                    assert(total(Seq::<Seq<(T, bool)>>::empty()) == 0);
                }
                assert(count(self@) == count(st));
                assert(gtotal(g_all) >= 0);
                assert(ls.take(ins as int) + g0.take(0) + ls.skip(ins as int) =~= ls);
                assert(lv.update(d as int, ls) =~= lv);
            }
            let next = self.fc_prefix(d, ins);
            let mut g = g;
            let mut t: usize = 0;
            let ghost glen = g0.len();
            while g.len() > 0
                invariant
                    d < lv.len(),
                    ls == lv[d as int],
                    ins <= ls.len(),
                    t <= glen,
                    g@.len() == glen - t,
                    forall|i: int| 0 <= i < g@.len() ==> (#[trigger] g@[i])@ == g0[t + i],
                    g0.len() == glen,
                    self@ == lv.update(d as int, ls.take(ins as int) + g0.take(t as int) + ls.skip(ins as int)),
                    self.len == old(self).len,
                decreases g@.len(),
            {
                let ghost gv = g@;
                let x = g.remove(0);
                proof {
                    self.lemma_view_shape();
                    assert(x@ == g0[t as int]);
                }
                let cur_len = self.index[d].len();
                assert(ins + t <= cur_len);
                let ghost prev = self@;
                let ghost prev_idx = self.index@;
                self.index[d].insert(ins + t, x);
                proof {
                    let want = ls.take(ins as int) + g0.take(t + 1) + ls.skip(ins as int);
                    let had = ls.take(ins as int) + g0.take(t as int) + ls.skip(ins as int);
                    assert(self.index@[d as int]@ == prev_idx[d as int]@.insert(ins + t, x));
                    assert(self@[d as int] =~= had.insert(ins + t, x@));
                    assert(had.insert(ins + t, x@) =~= want);
                    assert forall|i: int| 0 <= i < g@.len() implies (#[trigger] g@[i])@ == g0[t + 1 + i] by {
                        assert(g@[i] == gv[i + 1]);
                    }
                    assert(self@ =~= lv.update(d as int, want)) by {
                        assert forall|i: int| 0 <= i < self@.len() && i != d implies self@[i] == lv[i] by {
                            assert(self.index@[i] == prev_idx[i]);
                        }
                    }
                }
                let new_len = self.index[d].len();
                assert(t + 1 <= new_len);
                t = t + 1;
            }
            proof {
                assert(g0.take(glen as int) =~= g0);
                let nl = ls.take(ins as int) + g0 + ls.skip(ins as int);
                assert(self@ == lv.update(d as int, nl));
                assert(lv == if (d as int) < st.len() { st } else { st.push(Seq::<Seq<(T, bool)>>::empty()) });
                assert(graft(st, d as int, ins as int, g_all) == graft(self@, d + 1, next as int, nest(groups@)));
                assert(ls =~= ls.take(ins as int) + ls.skip(ins as int));
                lemma_total_concat(ls.take(ins as int), ls.skip(ins as int));
                lemma_total_concat(ls.take(ins as int) + g0, ls.skip(ins as int));
                lemma_total_concat(ls.take(ins as int), g0);
                lemma_count_update(lv, d as int, nl);
                if (d as int) == st.len() {
                    let e = seq![Seq::<Seq<(T, bool)>>::empty()];
                    assert(st.push(Seq::<Seq<(T, bool)>>::empty()) =~= st + e);
                    lemma_count_concat(st, e);
                    assert(e.drop_last() =~= Seq::<Seq<Seq<(T, bool)>>>::empty());
                    assert(total(Seq::<Seq<(T, bool)>>::empty()) == 0);
                }
                lemma_graft_step(st, d as int, ins as int, g_all);
            }
            let lvl_count = self.index.len();
            assert(d < lvl_count);
            d = d + 1;
            ins = next;
        }
        proof {
            reveal(graft);
        }
    }


    /// Takes the node at (`l`, `j`, `o`) out with everything below it; a
    /// sub-list left empty is dropped and its parent left childless.
    #[verifier::spinoff_prover]
    #[verifier::rlimit(100)]
    fn take_out(&mut self, l: usize, j: usize, o: usize) -> (res: ((T, bool), Vec<Vec<LinkedList<(T, bool)>>>, usize, usize))
        requires
            old(self).wf(),
            l < old(self)@.len(),
            j < old(self)@[l as int].len(),
            o < old(self)@[l as int][j as int].len(),
        ensures
            res.0 == old(self)@[l as int][j as int][o as int],
            nest(res.1@) == subtree(old(self)@, l as int, j as int, o as int),
            final(self)@ == taken(old(self)@, l as int, j as int, o as int, res.2 as int, res.3 as int),
            l > 0 && pluck(old(self)@, l as int, j as int, o as int)[l as int][j as int].len() == 0 ==> res.2 < old(self)@[l - 1].len()
                && res.3 < old(self)@[l - 1][res.2 as int].len() && old(self)@[l - 1][res.2 as int][res.3 as int].1
                && rank(old(self)@[l - 1], res.2 as int, res.3 as int) == j,
            settled(final(self)@),
            count(final(self)@) + 1 + gtotal(nest(res.1@)) == count(old(self)@),
            groups_ok(nest(res.1@), if res.0.1 { 1 } else { 0 }),
            final(self).len == old(self).len,
    {
        let ghost v = self@;
        let ghost li = l as int;
        let r = self.rank_of(l, j, o);
        proof {
            self.lemma_view_shape();
        }
        let had = match self.index[l][j].get(o) {
            Some(n) => n.1,
            None => false,
        };
        let f: usize = if had { 1 } else { 0 };
        proof {
            lemma_pop_pending(v, li, j as int, o as int);
            lemma_fc_le(v[li]);
            lemma_total_le_count(v, li);
        }
        let node = match self.index[l][j].pop(o) {
            Some(n) => n,
            None => {
                proof {
                    assert(false);
                }
                (self.index[l][j].pop(o)).unwrap()
            },
        };
        proof {
            assert(self@ =~= unlink(v, li, j as int, o as int)) by {
                assert(self@[li] =~= unlink(v, li, j as int, o as int)[li]);
            }
        }
        let ghost u = self@;
        let nlev = self.index.len();
        assert(l < nlev);
        let groups = self.cut_collect(l + 1, r, r + f, Ghost(li), Ghost(j as int));
        let ghost p = self@;
        proof {
            lemma_cut_all(u, li + 1, r as int, r + f, li, j as int);
            reveal(pending);
            assert(below_ok(u, li + 1)) by {
                assert forall|ll: int| li + 1 < ll < u.len() implies (#[trigger] u[ll]).len() == fc(u[ll - 1]) by {
                    assert(v[ll].len() == fc(v[ll - 1]));
                }
                assert forall|ll: int, jj: int| li + 1 <= ll < u.len() && 0 <= jj < u[ll].len() implies (#[trigger] u[ll][jj]).len() > 0 by {
                    assert(v[ll][jj].len() > 0);
                }
                if u.len() - 1 == li {
                    assert(fc(v[li]) == 0);
                }
            }
            lemma_cut_groups_ok(u, li + 1, r as int, r + f);
            assert(p == pluck(v, li, j as int, o as int));
            self.lemma_view_shape();
        }
        let mut pj: usize = 0;
        let mut po: usize = 0;
        if l > 0 && self.index[l][j].len() == 0 {
            proof {
                reveal(settled_but);
                assert(p[li].len() == fc(p[li - 1]));
            }
            let (a, b) = self.find_parent(l - 1, j);
            pj = a;
            po = b;
            self.set_flag(l - 1, pj, po, false);
            let ghost marked = self@;
            proof {
                self.lemma_view_shape();
            }
            let _ = self.index[l].remove(j);
            proof {
                assert(self@ =~= marked.update(li, p[li].remove(j as int))) by {
                    assert(self@[li] =~= p[li].remove(j as int));
                }
                lemma_pop_empty(p, li, j as int, pj as int, po as int);
                assert(v[li - 1] == p[li - 1]);
            }
        } else {
            proof {
                assert(settled_but(p, 0, 0)) by {
                    reveal(settled_but);
                    assert forall|ll: int, jj: int| 1 <= ll < p.len() && 0 <= jj < p[ll].len() && !(ll == 0 && jj == 0) implies (#[trigger] p[ll][jj]).len() > 0 by {
                        if !(ll == li && jj == j) {
                            assert(settled_but(p, li, j as int));
                        }
                    }
                }
            }
        }
        (node, groups, pj, po)
    }

    /// Undoes `take_out`: the state it left, with the node and the groups it
    /// handed back, becomes the state before it.
    #[verifier::spinoff_prover]
    #[verifier::rlimit(100)]
    fn put_back(
        &mut self,
        l: usize,
        j: usize,
        o: usize,
        node: (T, bool),
        groups: Vec<Vec<LinkedList<(T, bool)>>>,
        pj: usize,
        po: usize,
        r: usize,
        alone: bool,
        Ghost(v): Ghost<Seq<Seq<Seq<(T, bool)>>>>,
    )
        requires
            levels_ok(v),
            r == rank(v[l as int], j as int, o as int),
            alone == (l > 0 && v[l as int][j as int].len() == 1),
            count(v) <= usize::MAX,
            l < v.len(),
            j < v[l as int].len(),
            o < v[l as int][j as int].len(),
            node == v[l as int][j as int][o as int],
            nest(groups@) == subtree(v, l as int, j as int, o as int),
            old(self)@ == taken(v, l as int, j as int, o as int, pj as int, po as int),
            l > 0 && pluck(v, l as int, j as int, o as int)[l as int][j as int].len() == 0 ==> pj < v[l - 1].len() && po < v[l
                - 1][pj as int].len() && v[l - 1][pj as int][po as int].1 && rank(v[l - 1], pj as int, po as int) == j,
        ensures
            final(self)@ == v,
            final(self).len == old(self).len,
    {
        let ghost li = l as int;
        let ghost p = pluck(v, li, j as int, o as int);
        let ghost u = unlink(v, li, j as int, o as int);
        proof {
            lemma_pop_pending(v, li, j as int, o as int);
            lemma_cut_frame(v, li + 1, r as int, r + (if node.1 { 1int } else { 0int }), li, u[li]);
            assert(v.update(li, u[li]) =~= u);
            self.lemma_view_shape();
        }
        proof {
            lemma_cut_frame(u, li + 1, r as int, r + (if node.1 { 1int } else { 0int }), li, u[li]);
            assert(u.update(li, u[li]) =~= u);
            assert(p[li] == u[li]);
        }
        if alone {
            let ghost before = self@;
            proof {
                let f: int = if node.1 { 1 } else { 0 };
                lemma_cut_frame(u, li + 1, r as int, r + f, li - 1, u[li - 1]);
                assert(u.update(li - 1, u[li - 1]) =~= u);
                assert(p[li - 1] == v[li - 1]);
                assert(p[li][j as int].len() == 0);
                assert(before == mark(p, li - 1, pj as int, po as int, false).update(li, p[li].remove(j as int)));
                assert(before[li - 1] == mark(p, li - 1, pj as int, po as int, false)[li - 1]);
            }
            self.index[l].insert(j, LinkedList::new());
            proof {
                assert(self@ =~= before.update(li, before[li].insert(j as int, Seq::empty()))) by {
                    assert(self@[li] =~= before[li].insert(j as int, Seq::empty()));
                }
            }
            self.set_flag(l - 1, pj, po, true);
            proof {
                assert(p[li][j as int] =~= Seq::<(T, bool)>::empty());
                assert(self@[li] =~= p[li]);
                assert(self@[li - 1] =~= p[li - 1]) by {
                    assert forall|i: int| 0 <= i < p[li - 1][pj as int].len() implies #[trigger] self@[li - 1][pj as int][i] == p[li - 1][pj as int][i] by {
                        if i == po {
                            assert(p[li - 1][pj as int][po as int].1);
                        }
                    }
                    assert(self@[li - 1][pj as int] =~= p[li - 1][pj as int]);
                }
                assert(self@ =~= p);
            }
        }
        proof {
            assert(self@ == p);
            self.lemma_view_shape();
        }
        let ghost before = self@;
        self.index[l][j].insert(node, o);
        proof {
            assert(self@ =~= before.update(li, before[li].update(j as int, before[li][j as int].insert(o as int, node)))) by {
                assert(self@[li] =~= before[li].update(j as int, before[li][j as int].insert(o as int, node)));
            }
            assert(v[li][j as int].remove(o as int).insert(o as int, node) =~= v[li][j as int]);
            let f: int = if node.1 { 1 } else { 0 };
            assert(self@ =~= cut(v, li + 1, r as int, r + f)) by {
                assert(self@[li] =~= v[li]);
            }
            if li + 1 < v.len() {
                assert(v[li + 1].len() == fc(v[li]));
            }
            lemma_graft_cut(v, li + 1, r as int, r + f);
            lemma_restore_grafting(v, li, j as int, o as int, r as int, f);
        }
        let nlev = self.index.len();
        assert(l < nlev);
        self.graft_groups(l + 1, r, groups);
    }

    /// Puts `node` at (`dl`, `jd`, `od`) with `groups` below it.
    #[verifier::spinoff_prover]
    #[verifier::rlimit(100)]
    fn place(&mut self, dl: usize, jd: usize, od: usize, node: (T, bool), groups: Vec<Vec<LinkedList<(T, bool)>>>)
        requires
            levels_ok(old(self)@),
            dl < old(self)@.len(),
            jd < old(self)@[dl as int].len(),
            od <= old(self)@[dl as int][jd as int].len(),
            groups_ok(nest(groups@), if node.1 { 1 } else { 0 }),
            count(old(self)@) + 1 + gtotal(nest(groups@)) <= usize::MAX,
        ensures
            final(self)@ == placed(old(self)@, dl as int, jd as int, od as int, node, nest(groups@)),
            levels_ok(final(self)@),
            count(final(self)@) == count(old(self)@) + 1 + gtotal(nest(groups@)),
            final(self).len == old(self).len,
    {
        let ghost m = self@;
        let ghost gs = nest(groups@);
        proof {
            self.lemma_view_shape();
            lemma_rank_bound(m[dl as int], jd as int, od as int);
            lemma_fc_le(m[dl as int]);
            lemma_total_le_count(m, dl as int);
        }
        let r2a = self.fc_prefix(dl, jd);
        let r2b = Self::list_flags(&self.index[dl][jd], od);
        let r2 = r2a + r2b;
        self.index[dl][jd].insert(node, od);
        proof {
            assert(self@ =~= put(m, dl as int, jd as int, od as int, node)) by {
                assert(self@[dl as int] =~= put(m, dl as int, jd as int, od as int, node)[dl as int]);
            }
            lemma_put_grafting(m, dl as int, jd as int, od as int, node, gs);
        }
        let nlev = self.index.len();
        assert(dl < nlev);
        self.graft_groups(dl + 1, r2, groups);
        proof {
            lemma_graft_ok(put(m, dl as int, jd as int, od as int, node), dl + 1, r2 as int, gs);
            lemma_trim(self@);
        }
        self.trim_levels();
    }

    /// Moves the node at `src`, with its child sub-list and everything below
    /// it, to the insertion position `dst`, which is read once the node has
    /// been taken out. A sub-list left empty is dropped, its parent left
    /// childless. When `dst` addresses nothing, nothing changes.
    pub fn move_elem(&mut self, src: Index, dst: Index) -> (r: Result<(), MultiListError>)
        requires
            old(self).wf(),
        ensures
            final(self).wf(),
            locate(old(self)@, src.level as int, src.node as int) is None ==> r == Err::<(), MultiListError>(MultiListError::NoSource)
                && final(self)@ == old(self)@,
            locate(old(self)@, src.level as int, src.node as int) is Some ==> {
                let l = src.level as int;
                let (j, o) = locate(old(self)@, l, src.node as int)->Some_0;
                exists|pj: int, po: int| {
                    let z = #[trigger] taken(old(self)@, l, j, o, pj, po);
                    let dl = dst.level as int;
                    &&& l > 0 && pluck(old(self)@, l, j, o)[l][j].len() == 0 ==> 0 <= pj < old(self)@[l - 1].len() && 0 <= po
                        < old(self)@[l - 1][pj].len() && old(self)@[l - 1][pj][po].1 && rank(old(self)@[l - 1], pj, po) == j
                    &&& !(dl < z.len() && resolve(z[dl], dst.node as int) is Some) ==> r == Err::<(), MultiListError>(
                        MultiListError::NoDestination,
                    ) && final(self)@ == old(self)@
                    &&& dl < z.len() && resolve(z[dl], dst.node as int) is Some ==> r is Ok && final(self)@ == placed(
                        trim(z),
                        dl,
                        resolve(z[dl], dst.node as int)->Some_0.0,
                        resolve(z[dl], dst.node as int)->Some_0.1,
                        old(self)@[l][j][o],
                        subtree(old(self)@, l, j, o),
                    )
                }
            },
    {
        let l = src.level;
        let (j, o) = match self.get_sublist_node(l, src.node) {
            None => {
                return Err(MultiListError::NoSource);
            },
            Some(q) => q,
        };
        let ghost v = self@;
        let r = self.rank_of(l, j, o);
        proof {
            self.lemma_view_shape();
        }
        let alone = l > 0 && self.index[l][j].len() == 1;
        let (node, groups, pj, po) = self.take_out(l, j, o);
        let ghost z = self@;
        let dl = dst.level;
        let dst_ok = if dl < self.index.len() {
            match self.get_sublist(dl, dst.node) {
                Some(_) => true,
                None => false,
            }
        } else {
            false
        };
        if !dst_ok {
            self.put_back(l, j, o, node, groups, pj, po, r, alone, Ghost(v));
            proof {
                assert(z == taken(v, l as int, j as int, o as int, pj as int, po as int));
            }
            return Err(MultiListError::NoDestination);
        }
        proof {
            lemma_trim(z);
            lemma_trim_tail(z);
            if dl >= trim(z).len() {
                assert(z[dl as int].len() == 0);
            }
        }
        self.trim_levels();
        let ghost m = self@;
        let (jd, od) = match self.get_sublist(dl, dst.node) {
            Some(q) => q,
            None => {
                proof {
                    assert(false);
                }
                (0, 0)
            },
        };
        proof {
            lemma_resolve_bounds(m[dl as int], 0, dst.node as int);
        }
        self.place(dl, jd, od, node, groups);
        proof {
            assert(z == taken(v, l as int, j as int, o as int, pj as int, po as int));
        }
        Ok(())
    }

}

impl<T: Copy> MultiList<T> {
    /// An independent copy: every sub-list duplicated, every child link kept.
    pub fn clone(&self) -> (r: Self)
        requires
            self.wf(),
        ensures
            r.wf(),
            r@ == self@,
    {
        let mut index: Vec<Vec<LinkedList<(T, bool)>>> = Vec::new();
        let mut l: usize = 0;
        proof {
            self.lemma_view_shape();
        }
        while l < self.index.len()
            invariant
                l <= self@.len(),
                self.index@.len() == self@.len(),
                forall|x: int| 0 <= x < self@.len() ==> (#[trigger] self.index@[x])@.len() == self@[x].len(),
                forall|x: int, y: int| 0 <= x < self@.len() && 0 <= y < self@[x].len() ==> (#[trigger] self.index@[x]@[y])@ == self@[x][y],
                index@.len() == l,
                forall|x: int| 0 <= x < l ==> (#[trigger] index@[x])@.len() == self@[x].len(),
                forall|x: int, y: int| 0 <= x < l && 0 <= y < self@[x].len() ==> (#[trigger] index@[x]@[y])@ == self@[x][y],
            decreases self@.len() - l,
        {
            let mut lv: Vec<LinkedList<(T, bool)>> = Vec::new();
            let mut j: usize = 0;
            while j < self.index[l].len()
                invariant
                    l < self@.len(),
                    self.index@.len() == self@.len(),
                    (self.index@[l as int])@.len() == self@[l as int].len(),
                    forall|y: int| 0 <= y < self@[l as int].len() ==> (#[trigger] self.index@[l as int]@[y])@ == self@[l as int][y],
                    j <= self@[l as int].len(),
                    lv@.len() == j,
                    forall|y: int| 0 <= y < j ==> (#[trigger] lv@[y])@ == self@[l as int][y],
                decreases self@[l as int].len() - j,
            {
                lv.push(self.index[l][j].clone());
                j = j + 1;
            }
            index.push(lv);
            l = l + 1;
        }
        let r = MultiList { len: self.len, index };
        proof {
            assert(r@ =~= self@) by {
                assert forall|x: int| 0 <= x < self@.len() implies r@[x] =~= self@[x] by {}
            }
        }
        r
    }
}

/// A copy of a copy shows the same levels, sub-lists and nodes as the first copy.
pub proof fn lemma_clone_twice<T>(m: Seq<Seq<Seq<(T, bool)>>>, c: Seq<Seq<Seq<(T, bool)>>>, cc: Seq<Seq<Seq<(T, bool)>>>)
    requires
        c == m,
        cc == c,
    ensures
        cc == c,
        count(cc) == count(c),
        cc.len() == c.len(),
        forall|l: int| 0 <= l < c.len() ==> total(#[trigger] cc[l]) == total(c[l]),
{
}

impl<T> Default for MultiList<T> {
    fn default() -> (r: Self)
        ensures
            r.wf(),
            r@ == empty_levels::<T>(),
    {
        Self::new()
    }
}


proof fn lemma_unflag<T>(ls: Seq<Seq<(T, bool)>>)
    ensures
        fc(unflag(ls)) == 0,
        total(unflag(ls)) == total(ls),
        unflag(ls).len() == ls.len(),
        forall|j: int| 0 <= j < ls.len() ==> (#[trigger] unflag(ls)[j]).len() == ls[j].len(),
    decreases ls.len(),
{
    if ls.len() > 0 {
        assert(unflag(ls).drop_last() =~= unflag(ls.drop_last()));
        lemma_unflag(ls.drop_last());
        lemma_no_flags(ls.last());
    }
}

proof fn lemma_no_flags<T>(s: Seq<(T, bool)>)
    ensures
        flags(s.map_values(|n: (T, bool)| (n.0, false))) == 0,
    decreases s.len(),
{
    if s.len() > 0 {
        assert(s.map_values(|n: (T, bool)| (n.0, false)).drop_last() =~= s.drop_last().map_values(|n: (T, bool)| (n.0, false)));
        lemma_no_flags(s.drop_last());
    }
}

proof fn lemma_flat_len<T>(ls: Seq<Seq<(T, bool)>>)
    ensures
        flat(ls).len() == total(ls),
        flags(flat(ls)) == fc(ls),
    decreases ls.len(),
{
    if ls.len() > 0 {
        lemma_flat_len(ls.drop_last());
        lemma_flags_concat(flat(ls.drop_last()), ls.last());
    }
}

proof fn lemma_flat_concat<T>(a: Seq<Seq<(T, bool)>>, b: Seq<Seq<(T, bool)>>)
    ensures
        flat(a + b) == flat(a) + flat(b),
    decreases b.len(),
{
    if b.len() > 0 {
        assert((a + b).drop_last() =~= a + b.drop_last());
        lemma_flat_concat(a, b.drop_last());
        assert(flat(a) + flat(b.drop_last()) + b.last() =~= flat(a) + (flat(b.drop_last()) + b.last()));
    } else {
        assert(a + b =~= a);
        assert(flat(a) + flat(b) =~= flat(a));
    }
}

/// Where sub-list `q` sits inside the concatenation of its level.
proof fn lemma_flat_at<T>(ls: Seq<Seq<(T, bool)>>, q: int)
    requires
        0 <= q < ls.len(),
    ensures
        total(ls.take(q)) + ls[q].len() <= total(ls),
        flat(ls.take(q)).len() == total(ls.take(q)),
        flat(ls).len() == total(ls),
        fc(ls.take(q)) == flags(flat(ls.take(q))),
        forall|y: int| 0 <= y < ls[q].len() ==> flat(ls)[total(ls.take(q)) + y] == #[trigger] ls[q][y],
        forall|y: int| 0 <= y <= ls[q].len() ==> #[trigger] flat(ls).take(total(ls.take(q)) + y) == flat(ls.take(q)) + ls[q].take(y),
{
    lemma_fc_split(ls, q);
    lemma_flat_len(ls);
    lemma_flat_len(ls.take(q));
    assert(ls =~= ls.take(q + 1) + ls.skip(q + 1));
    lemma_flat_concat(ls.take(q + 1), ls.skip(q + 1));
    assert(ls.take(q + 1).drop_last() =~= ls.take(q));
    let a = flat(ls.take(q));
    let rest = flat(ls.skip(q + 1));
    assert(flat(ls) == a + ls[q] + rest);
    assert forall|y: int| 0 <= y <= ls[q].len() implies #[trigger] flat(ls).take(total(ls.take(q)) + y) == a + ls[q].take(y) by {
        assert(flat(ls).take(total(ls.take(q)) + y) =~= a + ls[q].take(y));
    }
}

/// Removing a level and all below it leaves no position at those levels.
pub proof fn lemma_removed_levels_absent<T>(levels: Seq<Seq<Seq<(T, bool)>>>, level: int)
    requires
        levels_ok(levels),
        0 < level < levels.len(),
    ensures
        cut_levels(levels, level).len() == level,
        forall|l: int, k: int| l >= level ==> #[trigger] locate(cut_levels(levels, level), l, k) is None,
{
}

proof fn lemma_attach<T>(v: Seq<Seq<Seq<(T, bool)>>>, li: int, j: int, o: int, elem: T)
    requires
        levels_ok(v),
        0 <= li < v.len(),
        0 <= j < v[li].len(),
        0 <= o < v[li][j].len(),
        !v[li][j][o].1,
    ensures
        levels_ok(attach(v, li, j, o, elem)),
        count(attach(v, li, j, o, elem)) == count(v) + 1,
{
    let n = attach(v, li, j, o, elem);
    let c = seq![(elem, false)];
    let r = rank(v[li], j, o) as int;
    let x = v[li][j].update(o, (v[li][j][o].0, true));
    let flagged = v.update(li, v[li].update(j, x));
    lemma_flags_update(v[li][j], o, (v[li][j][o].0, true));
    lemma_fc_update(v[li], j, x);
    lemma_count_update(v, li, flagged[li]);
    assert(flags(Seq::<(T, bool)>::empty()) == 0);
    assert(c.drop_last() =~= Seq::<(T, bool)>::empty());
    assert(flags(c) == 0);
    if li + 1 == v.len() {
        let e = seq![c];
        assert(e.drop_last() =~= Seq::<Seq<(T, bool)>>::empty());
        assert(fc(Seq::<Seq<(T, bool)>>::empty()) == 0);
        assert(total(Seq::<Seq<(T, bool)>>::empty()) == 0);
        assert(fc(e) == 0);
        assert(total(e) == 1);
        assert(n.drop_last() =~= flagged);
        assert forall|ll: int| 1 <= ll < n.len() implies (#[trigger] n[ll]).len() == fc(n[ll - 1]) && n[ll].len() > 0 by {
            if ll < n.len() - 1 {
                assert(v[ll].len() == fc(v[ll - 1]));
            }
        }
        assert forall|ll: int, jj: int| 1 <= ll < n.len() && 0 <= jj < n[ll].len() implies (#[trigger] n[ll][jj]).len() > 0 by {
            if ll < n.len() - 1 {
                assert(v[ll][jj].len() > 0);
            }
        }
    } else {
        lemma_rank_bound(v[li], j, o);
        assert(v[li + 1].len() == fc(v[li]));
        let y = flagged[li + 1].insert(r, c);
        lemma_fc_insert(flagged[li + 1], r, c);
        lemma_count_update(flagged, li + 1, y);
        assert(n == flagged.update(li + 1, y));
        assert forall|ll: int| 1 <= ll < n.len() implies (#[trigger] n[ll]).len() == fc(n[ll - 1]) && n[ll].len() > 0 by {
            assert(v[ll].len() == fc(v[ll - 1]));
        }
        assert forall|ll: int, jj: int| 1 <= ll < n.len() && 0 <= jj < n[ll].len() implies (#[trigger] n[ll][jj]).len() > 0 by {
            if ll == li + 1 {
                if jj < r {
                    assert(n[ll][jj] == v[ll][jj]);
                } else if jj > r {
                    assert(n[ll][jj] == v[ll][jj - 1]);
                }
            } else {
                assert(v[ll][jj].len() > 0);
            }
        }
    }
}

/// A rank never exceeds the number of child-bearing nodes of the level.
proof fn lemma_rank_bound<T>(ls: Seq<Seq<(T, bool)>>, j: int, o: int)
    requires
        0 <= j < ls.len(),
        0 <= o <= ls[j].len(),
    ensures
        rank(ls, j, o) <= fc(ls),
{
    lemma_fc_split(ls, j);
    let s = ls[j];
    assert(s =~= s.take(o) + s.skip(o));
    lemma_flags_concat(s.take(o), s.skip(o));
}

proof fn lemma_detach_pending<T>(v: Seq<Seq<Seq<(T, bool)>>>, li: int, j: int, o: int)
    requires
        levels_ok(v),
        0 <= li < v.len(),
        0 <= j < v[li].len(),
        0 <= o < v[li][j].len(),
        v[li][j][o].1,
    ensures
        pending(mark(v, li, j, o, false), li + 1, rank(v[li], j, o) as int, rank(v[li], j, o) + 1int, 0, 0),
        count(mark(v, li, j, o, false)) == count(v),
{
    reveal(pending);
    let m = mark(v, li, j, o, false);
    let r = rank(v[li], j, o) as int;
    lemma_rank_lt(v[li], j, o);
    assert(li + 1 < v.len());
    assert(v[li + 1].len() == fc(v[li]));
    let x = v[li][j].update(o, (v[li][j][o].0, false));
    lemma_flags_update(v[li][j], o, (v[li][j][o].0, false));
    lemma_fc_update(v[li], j, x);
    lemma_count_update(v, li, m[li]);
    assert forall|ll: int| 1 <= ll < m.len() && ll != li + 1 implies (#[trigger] m[ll]).len() == fc(m[ll - 1]) by {
        assert(v[ll].len() == fc(v[ll - 1]));
    }
    assert forall|ll: int, jj: int| 1 <= ll < m.len() && 0 <= jj < m[ll].len() implies (#[trigger] m[ll][jj]).len() > 0 by {
        assert(v[ll][jj].len() > 0);
    }
}

#[verifier::rlimit(50)]
proof fn lemma_pop_pending<T>(v: Seq<Seq<Seq<(T, bool)>>>, li: int, j: int, o: int)
    requires
        levels_ok(v),
        0 <= li < v.len(),
        0 <= j < v[li].len(),
        0 <= o < v[li][j].len(),
    ensures
        ({
            let f: int = if v[li][j][o].1 { 1 } else { 0 };
            &&& pending(unlink(v, li, j, o), li + 1, rank(v[li], j, o) as int, rank(v[li], j, o) + f, li, j)
            &&& count(unlink(v, li, j, o)) + 1 == count(v)
            &&& rank(v[li], j, o) + f <= fc(v[li])
        }),
{
    reveal(pending);
    let m = unlink(v, li, j, o);
    let r = rank(v[li], j, o) as int;
    let f: int = if v[li][j][o].1 { 1 } else { 0 };
    if v[li][j][o].1 {
        lemma_rank_lt(v[li], j, o);
    } else {
        lemma_rank_bound(v[li], j, o);
    }
    lemma_flags_split(v[li][j], o);
    let x = v[li][j].remove(o);
    assert(x =~= v[li][j].take(o) + v[li][j].skip(o + 1));
    lemma_flags_concat(v[li][j].take(o), v[li][j].skip(o + 1));
    lemma_fc_update(v[li], j, x);
    lemma_count_update(v, li, m[li]);
    assert(m[li] == v[li].update(j, x));
    assert forall|ll: int| 1 <= ll < m.len() && ll != li + 1 implies (#[trigger] m[ll]).len() == fc(m[ll - 1]) by {
        assert(v[ll].len() == fc(v[ll - 1]));
    }
    assert forall|ll: int, jj: int| 1 <= ll < m.len() && 0 <= jj < m[ll].len() && ll != li implies (#[trigger] m[ll][jj]).len() > 0 by {
        assert(v[ll][jj].len() > 0);
    }
    if li + 1 < m.len() {
        assert(v[li + 1].len() == fc(v[li]));
    } else {
        assert(fc(v[li]) == 0);
    }
}

proof fn lemma_pop_empty<T>(p: Seq<Seq<Seq<(T, bool)>>>, li: int, j: int, pj: int, po: int)
    requires
        settled_but(p, li, j),
        1 <= li < p.len(),
        0 <= j < p[li].len(),
        p[li][j].len() == 0,
        0 <= pj < p[li - 1].len(),
        0 <= po < p[li - 1][pj].len(),
        p[li - 1][pj][po].1,
    ensures
        settled(mark(p, li - 1, pj, po, false).update(li, p[li].remove(j))),
        count(mark(p, li - 1, pj, po, false).update(li, p[li].remove(j))) == count(p),
{
    reveal(settled_but);
    let marked = mark(p, li - 1, pj, po, false);
    let q = marked.update(li, p[li].remove(j));
    let x = p[li - 1][pj].update(po, (p[li - 1][pj][po].0, false));
    lemma_flags_update(p[li - 1][pj], po, (p[li - 1][pj][po].0, false));
    lemma_fc_update(p[li - 1], pj, x);
    assert(marked[li - 1] == p[li - 1].update(pj, x));
    let y = p[li].remove(j);
    assert(y =~= p[li].take(j) + p[li].skip(j + 1));
    lemma_fc_split(p[li], j);
    lemma_fc_concat(p[li].take(j), p[li].skip(j + 1));
    lemma_total_concat(p[li].take(j), p[li].skip(j + 1));
    assert(p[li][j] =~= Seq::<(T, bool)>::empty());
    assert(flags(Seq::<(T, bool)>::empty()) == 0);
    assert forall|ll: int| 1 <= ll < q.len() implies (#[trigger] q[ll]).len() == fc(q[ll - 1]) by {
        assert(p[ll].len() == fc(p[ll - 1]));
    }
    assert forall|ll: int, jj: int| 1 <= ll < q.len() && 0 <= jj < q[ll].len() implies (#[trigger] q[ll][jj]).len() > 0 by {
        if ll == li {
            if jj < j {
                assert(q[ll][jj] == p[ll][jj]);
            } else {
                assert(q[ll][jj] == p[ll][jj + 1]);
            }
        } else {
            assert(p[ll][jj].len() > 0);
        }
    }
    lemma_count_update(marked, li, y);
    lemma_count_update(p, li - 1, marked[li - 1]);
}

/// `settled`, except that sub-list `j` of level `l` may be empty.
#[verifier::opaque]
spec fn settled_but<T>(levels: Seq<Seq<Seq<(T, bool)>>>, l: int, j: int) -> bool {
    &&& levels.len() >= 1
    &&& levels[0].len() == 1
    &&& forall|ll: int| 1 <= ll < levels.len() ==> (#[trigger] levels[ll]).len() == fc(levels[ll - 1])
    &&& forall|ll: int, jj: int| 1 <= ll < levels.len() && 0 <= jj < levels[ll].len() && !(ll == l && jj == j) ==> (#[trigger] levels[ll][jj]).len() > 0
    &&& fc(levels[levels.len() - 1]) == 0
}

/// A child-bearing node's rank is below the count of its level.

proof fn lemma_rank_lt<T>(ls: Seq<Seq<(T, bool)>>, j: int, o: int)
    requires
        0 <= j < ls.len(),
        0 <= o < ls[j].len(),
        ls[j][o].1,
    ensures
        rank(ls, j, o) + 1 <= fc(ls),
{
    lemma_fc_split(ls, j);
    lemma_flags_split(ls[j], o);
}


/// The groups of sub-lists that a vector of vectors of sub-lists holds.
pub open spec fn nest<T>(v: Seq<Vec<LinkedList<(T, bool)>>>) -> Seq<Seq<Seq<(T, bool)>>> {
    v.map_values(|lv: Vec<LinkedList<(T, bool)>>| lv@.map_values(|x: LinkedList<(T, bool)>| x@))
}

/// The sub-lists that `cut(levels, d, lo, hi)` removes, one group per level
/// from `d` down.
#[verifier::opaque]
pub open spec fn cut_groups<T>(levels: Seq<Seq<Seq<(T, bool)>>>, d: int, lo: int, hi: int) -> Seq<Seq<Seq<(T, bool)>>>
    decreases levels.len() - d,
{
    if d < 0 || d >= levels.len() {
        Seq::empty()
    } else {
        let ls = levels[d];
        seq![ls.subrange(lo, hi)] + cut_groups(
            levels.update(d, ls.take(lo) + ls.skip(hi)),
            d + 1,
            fc(ls.take(lo)) as int,
            fc(ls.take(hi)) as int,
        )
    }
}

/// The index after putting `groups[k]` into level `d + k`: the first group at
/// sub-list index `ins`, each next one under the nodes of the group before.
#[verifier::opaque]
pub open spec fn graft<T>(levels: Seq<Seq<Seq<(T, bool)>>>, d: int, ins: int, groups: Seq<Seq<Seq<(T, bool)>>>) -> Seq<Seq<Seq<(T, bool)>>>
    decreases groups.len(),
{
    if groups.len() == 0 || d < 0 {
        levels
    } else {
        let lv = if d < levels.len() { levels } else { levels.push(Seq::empty()) };
        let ls = lv[d];
        graft(lv.update(d, ls.take(ins) + groups[0] + ls.skip(ins)), d + 1, fc(ls.take(ins)) as int, groups.drop_first())
    }
}

/// Number of nodes over a sequence of groups of sub-lists.
pub open spec fn gtotal<T>(groups: Seq<Seq<Seq<(T, bool)>>>) -> nat
    decreases groups.len(),
{
    if groups.len() == 0 {
        0
    } else {
        total(groups[0]) + gtotal(groups.drop_first())
    }
}

/// A subtree taken out as groups: the first group holds `first` sub-lists,
/// each next group one sub-list per child-bearing node of the one before,
/// the last has no child-bearing node, and no sub-list is empty.
pub open spec fn groups_ok<T>(groups: Seq<Seq<Seq<(T, bool)>>>, first: int) -> bool {
    &&& groups.len() == 0 ==> first == 0
    &&& groups.len() > 0 ==> groups[0].len() == first && fc(groups[groups.len() - 1]) == 0
    &&& forall|k: int| 0 <= k < groups.len() - 1 ==> (#[trigger] groups[k + 1]).len() == fc(groups[k])
    &&& forall|k: int, j: int| 0 <= k < groups.len() && 0 <= j < groups[k].len() ==> (#[trigger] groups[k][j]).len() > 0
}

/// Levels from `d` down relate to the level above as in a well-formed index.
spec fn below_ok<T>(levels: Seq<Seq<Seq<(T, bool)>>>, d: int) -> bool {
    &&& forall|l: int| d < l < levels.len() ==> (#[trigger] levels[l]).len() == fc(levels[l - 1])
    &&& forall|l: int, j: int| d <= l < levels.len() && 0 <= j < levels[l].len() ==> (#[trigger] levels[l][j]).len() > 0
    &&& levels.len() > 0 ==> fc(levels[levels.len() - 1]) == 0
}

proof fn lemma_cut_frame<T>(x: Seq<Seq<Seq<(T, bool)>>>, d: int, lo: int, hi: int, e: int, y: Seq<Seq<(T, bool)>>)
    requires
        0 <= e < d,
        e < x.len(),
    ensures
        cut(x.update(e, y), d, lo, hi) == cut(x, d, lo, hi).update(e, y),
        cut_groups(x.update(e, y), d, lo, hi) == cut_groups(x, d, lo, hi),
        cut(x, d, lo, hi).len() == x.len(),
        cut(x, d, lo, hi)[e] == x[e],
    decreases x.len() - d,
{
    reveal(cut);
    reveal(cut_groups);
    if d < x.len() {
        let ls = x[d];
        let x1 = x.update(d, ls.take(lo) + ls.skip(hi));
        assert(x.update(e, y)[d] == ls);
        assert(x.update(e, y).update(d, ls.take(lo) + ls.skip(hi)) =~= x1.update(e, y));
        lemma_cut_frame(x1, d + 1, fc(ls.take(lo)) as int, fc(ls.take(hi)) as int, e, y);
    }
}

/// Putting back what a cut took out gives the index before the cut.
proof fn lemma_graft_cut<T>(x: Seq<Seq<Seq<(T, bool)>>>, d: int, lo: int, hi: int)
    requires
        1 <= d <= x.len(),
        d < x.len() ==> 0 <= lo <= hi <= x[d].len(),
        forall|l: int| d < l < x.len() ==> (#[trigger] x[l]).len() == fc(x[l - 1]),
    ensures
        graft(cut(x, d, lo, hi), d, lo, cut_groups(x, d, lo, hi)) == x,
    decreases x.len() - d,
{
    reveal(cut);
    reveal(cut_groups);
    reveal(graft);
    if d < x.len() {
        let ls = x[d];
        let lo2 = fc(ls.take(lo)) as int;
        let hi2 = fc(ls.take(hi)) as int;
        let x1 = x.update(d, ls.take(lo) + ls.skip(hi));
        let c = cut(x1, d + 1, lo2, hi2);
        lemma_cut_frame(x1, d + 1, lo2, hi2, d, ls);
        assert(x1.update(d, ls) =~= x);
        lemma_fc_take_le(ls, lo, hi);
        let lc = c[d];
        assert(lc == ls.take(lo) + ls.skip(hi));
        assert(lc.take(lo) =~= ls.take(lo));
        assert(lc.take(lo) + ls.subrange(lo, hi) + lc.skip(lo) =~= ls);
        let gs = cut_groups(x, d, lo, hi);
        assert(gs[0] == ls.subrange(lo, hi));
        assert(gs.drop_first() =~= cut_groups(x1, d + 1, lo2, hi2));
        assert(c.update(d, ls) == cut(x, d + 1, lo2, hi2));
        if d + 1 < x.len() {
            assert(x[d + 1].len() == fc(ls));
        }
        lemma_graft_cut(x, d + 1, lo2, hi2);
    }
}

/// What a cut takes out is a well-formed subtree, and its nodes plus those
/// left make up the nodes before.
proof fn lemma_cut_groups_ok<T>(x: Seq<Seq<Seq<(T, bool)>>>, d: int, lo: int, hi: int)
    requires
        1 <= d <= x.len(),
        d < x.len() ==> 0 <= lo <= hi <= x[d].len(),
        d == x.len() ==> lo == hi,
        below_ok(x, d),
    ensures
        groups_ok(cut_groups(x, d, lo, hi), hi - lo),
        count(cut(x, d, lo, hi)) + gtotal(cut_groups(x, d, lo, hi)) == count(x),
        cut_groups(x, d, lo, hi).len() == x.len() - d,
    decreases x.len() - d,
{
    reveal(cut);
    reveal(cut_groups);
    let gs = cut_groups(x, d, lo, hi);
    if d < x.len() {
        let ls = x[d];
        let lo2 = fc(ls.take(lo)) as int;
        let hi2 = fc(ls.take(hi)) as int;
        let x1 = x.update(d, ls.take(lo) + ls.skip(hi));
        lemma_fc_take_le(ls, lo, hi);
        lemma_fc_concat(ls.take(lo), ls.skip(hi));
        lemma_total_concat(ls.take(lo), ls.skip(hi));
        lemma_count_update(x, d, ls.take(lo) + ls.skip(hi));
        assert(ls.take(hi) =~= ls.take(lo) + ls.subrange(lo, hi));
        if d + 1 < x.len() {
            assert(x[d + 1].len() == fc(ls));
        }
        assert(below_ok(x1, d + 1)) by {
            assert forall|l: int| d + 1 < l < x1.len() implies (#[trigger] x1[l]).len() == fc(x1[l - 1]) by {
                assert(x[l].len() == fc(x[l - 1]));
            }
            assert forall|l: int, j: int| d + 1 <= l < x1.len() && 0 <= j < x1[l].len() implies (#[trigger] x1[l][j]).len() > 0 by {
                assert(x[l][j].len() > 0);
            }
            if d + 1 == x.len() {
                assert(fc(ls) == 0);
            }
        }
        lemma_cut_groups_ok(x1, d + 1, lo2, hi2);
        let rest = cut_groups(x1, d + 1, lo2, hi2);
        assert(gs =~= seq![ls.subrange(lo, hi)] + rest);
        assert(gs.drop_first() =~= rest);
        assert forall|k: int| 0 <= k < gs.len() - 1 implies (#[trigger] gs[k + 1]).len() == fc(gs[k]) by {
            if k > 0 {
                assert(gs[k + 1] == rest[k] && gs[k] == rest[k - 1]);
            }
        }
        assert forall|k: int, j: int| 0 <= k < gs.len() && 0 <= j < gs[k].len() implies (#[trigger] gs[k][j]).len() > 0 by {
            if k == 0 {
                assert(gs[0][j] == ls[lo + j]);
            } else {
                assert(gs[k] == rest[k - 1]);
            }
        }
        if rest.len() == 0 {
            assert(fc(ls) == 0);
            assert(fc(ls.subrange(lo, hi)) == 0);
        } else {
            assert(gs[gs.len() - 1] == rest[rest.len() - 1]);
        }
    } else {
        assert(gs =~= Seq::<Seq<Seq<(T, bool)>>>::empty());
    }
}


/// The number of sub-lists the first group holds (zero when there is none).
pub open spec fn first_len<T>(groups: Seq<Seq<Seq<(T, bool)>>>) -> int {
    if groups.len() > 0 { groups[0].len() as int } else { 0 }
}

/// A state of the index while a subtree is being put back: every relation
/// holds but at level `d`, which lacks the sub-lists of the first group.
spec fn grafting<T>(x: Seq<Seq<Seq<(T, bool)>>>, d: int, groups: Seq<Seq<Seq<(T, bool)>>>) -> bool {
    &&& 1 <= d <= x.len()
    &&& x[0].len() == 1
    &&& forall|l: int| 1 <= l < x.len() && l != d ==> (#[trigger] x[l]).len() == fc(x[l - 1])
    &&& forall|l: int, j: int| 1 <= l < x.len() && 0 <= j < x[l].len() ==> (#[trigger] x[l][j]).len() > 0
    &&& d < x.len() ==> x[d].len() + first_len(groups) == fc(x[d - 1]) && fc(x[x.len() - 1]) == 0
    &&& d == x.len() ==> fc(x[d - 1]) == first_len(groups)
    &&& groups_ok(groups, first_len(groups))
}

proof fn lemma_graft_ok<T>(x: Seq<Seq<Seq<(T, bool)>>>, d: int, ins: int, groups: Seq<Seq<Seq<(T, bool)>>>)
    requires
        grafting(x, d, groups),
        0 <= ins,
        d < x.len() ==> ins <= x[d].len(),
        d == x.len() ==> ins == 0,
    ensures
        settled(graft(x, d, ins, groups)),
        count(graft(x, d, ins, groups)) == count(x) + gtotal(groups),
    decreases groups.len(),
{
    reveal(graft);
    reveal(settled_but);
    if groups.len() == 0 {
        if d < x.len() {
            assert forall|l: int| 1 <= l < x.len() implies (#[trigger] x[l]).len() == fc(x[l - 1]) by {}
        }
    } else {
        lemma_graft_step(x, d, ins, groups);
        let lv = if d < x.len() { x } else { x.push(Seq::<Seq<(T, bool)>>::empty()) };
        let ls = lv[d];
        let y = lv.update(d, ls.take(ins) + groups[0] + ls.skip(ins));
        lemma_graft_ok(y, d + 1, fc(ls.take(ins)) as int, groups.drop_first());
    }
}


/// One step of `graft` keeps the grafting relations one level further down.
#[verifier::spinoff_prover]
#[verifier::rlimit(50)]
proof fn lemma_graft_step<T>(x: Seq<Seq<Seq<(T, bool)>>>, d: int, ins: int, groups: Seq<Seq<Seq<(T, bool)>>>)
    requires
        grafting(x, d, groups),
        groups.len() > 0,
        0 <= ins,
        d < x.len() ==> ins <= x[d].len(),
        d == x.len() ==> ins == 0,
    ensures
        ({
            let lv = if d < x.len() { x } else { x.push(Seq::<Seq<(T, bool)>>::empty()) };
            let ls = lv[d];
            let y = lv.update(d, ls.take(ins) + groups[0] + ls.skip(ins));
            let ins2 = fc(ls.take(ins)) as int;
            &&& grafting(y, d + 1, groups.drop_first())
            &&& d + 1 < y.len() ==> ins2 <= y[d + 1].len()
            &&& d + 1 == y.len() ==> ins2 == 0
            &&& count(y) == count(x) + total(groups[0])
        }),
{
    let lv = if d < x.len() { x } else { x.push(Seq::<Seq<(T, bool)>>::empty()) };
    if d == x.len() {
        assert(lv.drop_last() =~= x);
        assert(total(Seq::<Seq<(T, bool)>>::empty()) == 0);
        assert(fc(Seq::<Seq<(T, bool)>>::empty()) == 0);
        let e = seq![Seq::<Seq<(T, bool)>>::empty()];
        assert(lv =~= x + e);
        lemma_count_concat(x, e);
        assert(e.drop_last() =~= Seq::<Seq<Seq<(T, bool)>>>::empty());
    }
    let ls = lv[d];
    let g0 = groups[0];
    let nl = ls.take(ins) + g0 + ls.skip(ins);
    let y = lv.update(d, nl);
    let rest = groups.drop_first();
    assert(ls =~= ls.take(ins) + ls.skip(ins));
    lemma_fc_concat(ls.take(ins), ls.skip(ins));
    lemma_fc_concat(ls.take(ins) + g0, ls.skip(ins));
    lemma_fc_concat(ls.take(ins), g0);
    lemma_total_concat(ls.take(ins), ls.skip(ins));
    lemma_total_concat(ls.take(ins) + g0, ls.skip(ins));
    lemma_total_concat(ls.take(ins), g0);
    lemma_count_update(lv, d, nl);
    assert(groups_ok(rest, first_len(rest))) by {
        assert forall|k: int| 0 <= k < rest.len() - 1 implies (#[trigger] rest[k + 1]).len() == fc(rest[k]) by {
            assert(rest[k + 1] == groups[k + 2] && rest[k] == groups[k + 1]);
        }
        assert forall|k: int, j: int| 0 <= k < rest.len() && 0 <= j < rest[k].len() implies (#[trigger] rest[k][j]).len() > 0 by {
            assert(rest[k] == groups[k + 1]);
        }
        if rest.len() > 0 {
            assert(rest[0] == groups[1]);
            assert(groups[1].len() == fc(groups[0]));
            assert(rest[rest.len() - 1] == groups[groups.len() - 1]);
        } else {
            assert(fc(g0) == 0);
        }
    }
    assert forall|l: int| 1 <= l < y.len() && l != d + 1 implies (#[trigger] y[l]).len() == fc(y[l - 1]) by {
        if l != d {
            assert(lv[l].len() == fc(lv[l - 1]));
        }
    }
    assert forall|l: int, j: int| 1 <= l < y.len() && 0 <= j < y[l].len() implies (#[trigger] y[l][j]).len() > 0 by {
        if l == d {
            if j < ins {
                assert(y[l][j] == ls[j]);
            } else if j < ins + g0.len() {
                assert(y[l][j] == g0[j - ins]);
            } else {
                assert(y[l][j] == ls[j - g0.len()]);
            }
        } else {
            assert(lv[l][j].len() > 0);
        }
    }
    if rest.len() > 0 {
        assert(first_len(rest) == fc(g0));
    } else {
        assert(first_len(rest) == 0);
    }
    lemma_fc_take_le(ls, ins, ls.len() as int);
    assert(ls.take(ls.len() as int) =~= ls);
    if d + 1 < y.len() {
        assert(lv[d + 1].len() == fc(ls));
    } else if d < x.len() {
        assert(fc(ls) == 0);
    } else {
        assert(ls.take(ins) =~= Seq::<Seq<(T, bool)>>::empty());
        assert(fc(Seq::<Seq<(T, bool)>>::empty()) == 0);
    }
}


/// The index after taking the node at (`l`, `j`, `o`) out with everything
/// below it; a sub-list left empty is dropped and its parent at (`pj`, `po`)
/// left childless.
pub open spec fn taken<T>(levels: Seq<Seq<Seq<(T, bool)>>>, l: int, j: int, o: int, pj: int, po: int) -> Seq<Seq<Seq<(T, bool)>>> {
    let p = pluck(levels, l, j, o);
    if l > 0 && p[l][j].len() == 0 {
        mark(p, l - 1, pj, po, false).update(l, p[l].remove(j))
    } else {
        p
    }
}

/// Everything below the node at (`l`, `j`, `o`), as groups of sub-lists, one per level.
pub open spec fn subtree<T>(levels: Seq<Seq<Seq<(T, bool)>>>, l: int, j: int, o: int) -> Seq<Seq<Seq<(T, bool)>>> {
    let r = rank(levels[l], j, o) as int;
    let f: int = if levels[l][j][o].1 { 1 } else { 0 };
    cut_groups(unlink(levels, l, j, o), l + 1, r, r + f)
}

/// The index after putting node `x` at (`l`, `j`, `o`) with `groups` below it.
pub open spec fn placed<T>(levels: Seq<Seq<Seq<(T, bool)>>>, l: int, j: int, o: int, x: (T, bool), groups: Seq<Seq<Seq<(T, bool)>>>) -> Seq<Seq<Seq<(T, bool)>>> {
    trim(graft(put(levels, l, j, o, x), l + 1, rank(levels[l], j, o) as int, groups))
}

proof fn lemma_put_grafting<T>(m: Seq<Seq<Seq<(T, bool)>>>, dl: int, jd: int, od: int, x: (T, bool), gs: Seq<Seq<Seq<(T, bool)>>>)
    requires
        levels_ok(m),
        0 <= dl < m.len(),
        0 <= jd < m[dl].len(),
        0 <= od <= m[dl][jd].len(),
        groups_ok(gs, if x.1 { 1 } else { 0 }),
    ensures
        grafting(put(m, dl, jd, od, x), dl + 1, gs),
        count(put(m, dl, jd, od, x)) == count(m) + 1,
        dl + 1 < m.len() ==> rank(m[dl], jd, od) <= m[dl + 1].len(),
        dl + 1 == m.len() ==> rank(m[dl], jd, od) == 0,
{
    let y = put(m, dl, jd, od, x);
    let nl = m[dl][jd].insert(od, x);
    lemma_flags_insert(m[dl][jd], od, x);
    lemma_fc_update(m[dl], jd, nl);
    lemma_count_update(m, dl, y[dl]);
    lemma_rank_bound(m[dl], jd, od);
    assert(first_len(gs) == if x.1 { 1int } else { 0int });
    assert forall|l: int| 1 <= l < y.len() && l != dl + 1 implies (#[trigger] y[l]).len() == fc(y[l - 1]) by {
        assert(m[l].len() == fc(m[l - 1]));
    }
    assert forall|l: int, j: int| 1 <= l < y.len() && 0 <= j < y[l].len() implies (#[trigger] y[l][j]).len() > 0 by {
        if l != dl || j != jd {
            assert(m[l][j].len() > 0);
        }
    }
    if dl + 1 < m.len() {
        assert(m[dl + 1].len() == fc(m[dl]));
    }
}

/// With the node back in its sub-list, the state after a cut lacks exactly
/// the cut subtree.
proof fn lemma_restore_grafting<T>(v: Seq<Seq<Seq<(T, bool)>>>, li: int, j: int, o: int, r: int, f: int)
    requires
        levels_ok(v),
        0 <= li < v.len(),
        0 <= j < v[li].len(),
        0 <= o < v[li][j].len(),
        r == rank(v[li], j, o),
        f == if v[li][j][o].1 { 1int } else { 0int },
    ensures
        grafting(cut(v, li + 1, r, r + f), li + 1, cut_groups(v, li + 1, r, r + f)),
        li + 1 < v.len() ==> r <= cut(v, li + 1, r, r + f)[li + 1].len(),
        li + 1 == v.len() ==> r == 0,
        count(cut(v, li + 1, r, r + f)) + gtotal(cut_groups(v, li + 1, r, r + f)) == count(v),
{
    lemma_pop_pending(v, li, j, o);
    let u = unlink(v, li, j, o);
    lemma_cut_all(u, li + 1, r, r + f, li, j);
    lemma_cut_frame(v, li + 1, r, r + f, li, u[li]);
    assert(v.update(li, u[li]) =~= u);
    let p = cut(u, li + 1, r, r + f);
    let x = cut(v, li + 1, r, r + f);
    assert(p == x.update(li, u[li]));
    assert(x =~= p.update(li, v[li]));
    reveal(pending);
    reveal(settled_but);
    assert(below_ok(v, li + 1)) by {
        assert forall|ll: int| li + 1 < ll < v.len() implies (#[trigger] v[ll]).len() == fc(v[ll - 1]) by {}
        assert forall|ll: int, jj: int| li + 1 <= ll < v.len() && 0 <= jj < v[ll].len() implies (#[trigger] v[ll][jj]).len() > 0 by {}
    }
    if li + 1 < v.len() {
        assert(v[li + 1].len() == fc(v[li]));
    }
    lemma_cut_groups_ok(v, li + 1, r, r + f);
    let gs = cut_groups(v, li + 1, r, r + f);
    assert(first_len(gs) == f);
    assert forall|l: int| 1 <= l < x.len() && l != li + 1 implies (#[trigger] x[l]).len() == fc(x[l - 1]) by {
        if l == li {
            assert(v[l].len() == fc(v[l - 1]));
            assert(x[l - 1] == p[l - 1]);
        } else if l < li {
            assert(v[l].len() == fc(v[l - 1]));
        } else {
            assert(p[l].len() == fc(p[l - 1]));
        }
    }
    assert forall|l: int, jj: int| 1 <= l < x.len() && 0 <= jj < x[l].len() implies (#[trigger] x[l][jj]).len() > 0 by {
        if l == li {
            assert(v[l][jj].len() > 0);
        } else {
            assert(p[l][jj] == x[l][jj]);
        }
    }
    if li + 1 < x.len() {
        assert(p[li + 1].len() == fc(p[li]));
    } else {
        assert(fc(v[li]) == 0);
    }
}

} // verus!

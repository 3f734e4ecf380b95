use vstd::prelude::*;
use crate::entry::{Entry, comes_before, distance, ids_unique, ranks_before};
use vstd::set_lib::{lemma_int_range, lemma_map_size, lemma_subset_equality, set_int_range};

verus! {

broadcast use vstd::seq_lib::group_to_multiset_ensures;

/// How many entrants win a selection at most.
pub const WINNER_LIMIT: usize = 5;

/// How many entries of `s` rank strictly before `e` for `target`.
pub open spec fn closer_count(s: Seq<Entry>, e: Entry, target: int) -> nat
    decreases s.len(),
{
    if s.len() == 0 {
        0
    } else {
        closer_count(s.drop_last(), e, target) + if ranks_before(s.last(), e, target) {
            1nat
        } else {
            0nat
        }
    }
}

/// An entry wins when fewer than five entries of the table rank before it.
pub open spec fn is_winner(s: Seq<Entry>, e: Entry, target: int) -> bool {
    closer_count(s, e, target) < WINNER_LIMIT
}

/// Whether no entry of `s` ranks strictly before the one in front of it.
pub open spec fn in_rank_order(s: Seq<Entry>, target: int) -> bool {
    forall|i: int, j: int| 0 <= i < j < s.len() ==> !ranks_before(#[trigger] s[j], #[trigger] s[i], target)
}

/// An entry that ranks before another has at least as many entries before it,
/// and one more when it stands in the table itself.
pub proof fn lemma_closer_count_monotone(s: Seq<Entry>, c: Entry, a: Entry, target: int)
    requires
        ranks_before(c, a, target),
    ensures
        closer_count(s, c, target) <= closer_count(s, a, target),
        s.contains(c) ==> closer_count(s, c, target) < closer_count(s, a, target),
    decreases s.len(),
{
    if s.len() > 0 {
        let p = s.drop_last();
        lemma_closer_count_monotone(p, c, a, target);
        if s.contains(c) && !p.contains(c) {
            let k = choose|k: int| 0 <= k < s.len() && s[k] == c;
            if k < p.len() {
                assert(p[k] == c);
            }
            assert(s.last() == c);
        }
    }
}

/// The count of closer entries depends on the ranking keys alone: changing
/// winner flags leaves it as it is.
pub proof fn lemma_closer_count_ignores_flags(s: Seq<Entry>, u: Seq<Entry>, e: Entry, f: Entry, target: int)
    requires
        s.len() == u.len(),
        forall|i: int| 0 <= i < s.len() ==> (#[trigger] s[i]).id == u[i].id && s[i].number == u[i].number,
        e.id == f.id,
        e.number == f.number,
    ensures
        closer_count(s, e, target) == closer_count(u, f, target),
    decreases s.len(),
{
    if s.len() > 0 {
        lemma_closer_count_ignores_flags(s.drop_last(), u.drop_last(), e, f, target);
        assert(s.last().id == u.last().id);
    }
}

/// Of a winner and a loser of the same table, the winner is at least as close.
pub proof fn lemma_winner_is_closest(s: Seq<Entry>, a: Entry, c: Entry, target: int)
    requires
        s.contains(c),
        is_winner(s, a, target),
        !is_winner(s, c, target),
    ensures
        distance(a.number as int, target) <= distance(c.number as int, target),
{
    if distance(c.number as int, target) < distance(a.number as int, target) {
        lemma_closer_count_monotone(s, c, a, target);
    }
}

/// No entry of a table has as many entries before it as the table holds.
proof fn lemma_closer_count_bound(s: Seq<Entry>, x: Entry, target: int)
    ensures
        closer_count(s, x, target) <= s.len(),
        s.contains(x) ==> closer_count(s, x, target) < s.len(),
    decreases s.len(),
{
    if s.len() > 0 {
        let p = s.drop_last();
        lemma_closer_count_bound(p, x, target);
        if s.contains(x) && !p.contains(x) {
            let k = choose|k: int| 0 <= k < s.len() && s[k] == x;
            if k < p.len() {
                assert(p[k] == x);
            }
            assert(s.last() == x);
        }
    }
}

/// The positions of the winners of `s` for `target`.
pub open spec fn winner_positions(s: Seq<Entry>, target: int) -> Set<int> {
    Set::new(|i: int| 0 <= i < s.len() && is_winner(s, s[i], target))
}

/// The positions below `m` of the winners of `s` for `target`.
pub open spec fn winners_below(s: Seq<Entry>, target: int, m: int) -> Set<int> {
    Set::new(|k: int| 0 <= k < m && is_winner(s, s[k], target))
}

/// In a table without repeated ids exactly `min(5, len)` entries win.
pub proof fn lemma_winner_count(s: Seq<Entry>, target: int)
    requires
        ids_unique(s),
    ensures
        winner_positions(s, target).finite(),
        winner_positions(s, target).len() == if s.len() < WINNER_LIMIT {
            s.len()
        } else {
            WINNER_LIMIT as nat
        },
{
    let n = s.len() as int;
    let k: int = if n < WINNER_LIMIT { n } else { WINNER_LIMIT as int };
    let f = |i: int| closer_count(s, s[i], target) as int;
    let dom = set_int_range(0, n);
    let w = winner_positions(s, target);
    lemma_int_range(0, n);
    lemma_int_range(0, k);
    assert forall|i: int, j: int| dom.contains(i) && dom.contains(j) && #[trigger] f(i) == #[trigger] f(j) implies i == j by {
        if i != j {
            assert(s[i].id != s[j].id) by {
                if i < j {
                } else {
                }
            }
            assert(s.contains(s[i]));
            assert(s.contains(s[j]));
            if ranks_before(s[i], s[j], target) {
                lemma_closer_count_monotone(s, s[i], s[j], target);
            } else {
                lemma_closer_count_monotone(s, s[j], s[i], target);
            }
        }
    }
    let img = dom.map(f);
    assert(img.subset_of(dom)) by {
        assert forall|v: int| img.contains(v) implies dom.contains(v) by {
            let i = choose|i: int| dom.contains(i) && f(i) == v;
            assert(s.contains(s[i]));
            lemma_closer_count_bound(s, s[i], target);
        }
    }
    lemma_map_size(dom, img, f);
    lemma_subset_equality(img, dom);
    assert(w.subset_of(dom));
    vstd::set_lib::lemma_set_subset_finite(dom, w);
    let low = set_int_range(0, k);
    assert(w.map(f) =~= low) by {
        assert forall|v: int| w.map(f).contains(v) implies low.contains(v) by {
            let i = choose|i: int| w.contains(i) && f(i) == v;
            assert(dom.contains(i));
            assert(img.contains(f(i)));
        }
        assert forall|v: int| low.contains(v) implies w.map(f).contains(v) by {
            assert(dom.contains(v));
            assert(img.contains(v));
            let i = choose|i: int| dom.contains(i) && f(i) == v;
            assert(w.contains(i));
        }
    }
    lemma_map_size(w, low, f);
}

/// Taking one entry out of a table takes its own part off any count.
proof fn lemma_closer_count_remove(s: Seq<Entry>, i: int, x: Entry, target: int)
    requires
        0 <= i < s.len(),
    ensures
        closer_count(s, x, target) == closer_count(s.remove(i), x, target) + if ranks_before(
            s[i],
            x,
            target,
        ) {
            1nat
        } else {
            0nat
        },
    decreases s.len(),
{
    if i == s.len() - 1 {
        assert(s.remove(i) =~= s.drop_last());
    } else {
        let p = s.drop_last();
        lemma_closer_count_remove(p, i, x, target);
        assert(s.remove(i).drop_last() =~= p.remove(i));
        assert(s.remove(i).last() == s.last());
    }
}

/// Reordering a table changes no count.
proof fn lemma_closer_count_permutation(s: Seq<Entry>, u: Seq<Entry>, x: Entry, target: int)
    requires
        s.to_multiset() == u.to_multiset(),
    ensures
        closer_count(s, x, target) == closer_count(u, x, target),
    decreases s.len(),
{
    if s.len() == 0 {
        assert(u.to_multiset().len() == 0);
    } else {
        let y = s.last();
        let p = s.drop_last();
        assert(s =~= p.push(y));
        assert(s.to_multiset() =~= p.to_multiset().insert(y));
        assert(s.contains(y));
        assert(u.to_multiset().count(y) > 0);
        assert(u.contains(y));
        let j = choose|j: int| 0 <= j < u.len() && u[j] == y;
        lemma_closer_count_remove(u, j, x, target);
        assert(u.remove(j).to_multiset() == u.to_multiset().remove(y));
        assert(p.to_multiset() =~= s.to_multiset().remove(y));
        lemma_closer_count_permutation(p, u.remove(j), x, target);
    }
}

/// A value that sits at two positions of a sequence counts twice in it.
proof fn lemma_two_positions(r: Seq<Entry>, a: int, b: int)
    requires
        0 <= a < b < r.len(),
        r[a] == r[b],
    ensures
        r.to_multiset().count(r[a]) >= 2,
{
    let rest = r.remove(a);
    assert(rest[b - 1] == r[b]);
    assert(rest.contains(r[a]));
    assert(rest.to_multiset().count(r[a]) > 0);
    assert(rest.to_multiset() == r.to_multiset().remove(r[a]));
}

/// Reordering a table keeps its ids apart.
proof fn lemma_permutation_ids_unique(s: Seq<Entry>, r: Seq<Entry>)
    requires
        s.to_multiset() == r.to_multiset(),
        ids_unique(s),
    ensures
        ids_unique(r),
{
    assert forall|a: int, b: int| 0 <= a < b < r.len() implies (#[trigger] r[a]).id != (#[trigger] r[b]).id by {
        if r[a].id == r[b].id {
            assert(r.contains(r[a]));
            assert(r.contains(r[b]));
            assert(s.to_multiset().count(r[a]) > 0);
            assert(s.to_multiset().count(r[b]) > 0);
            assert(s.contains(r[a]));
            assert(s.contains(r[b]));
            let i = choose|i: int| 0 <= i < s.len() && s[i] == r[a];
            if r[a] == r[b] {
                lemma_two_positions(r, a, b);
                let rest = s.remove(i);
                assert(rest.to_multiset() == s.to_multiset().remove(r[a]));
                assert(rest.to_multiset().count(r[a]) > 0);
                assert(rest.contains(r[a]));
                let k = choose|k: int| 0 <= k < rest.len() && rest[k] == r[a];
                let k2 = if k < i { k } else { k + 1 };
                assert(s[k2] == r[a]);
                if k2 < i {
                    assert(s[k2].id != s[i].id);
                } else {
                    assert(s[i].id != s[k2].id);
                }
            } else {
                let j = choose|j: int| 0 <= j < s.len() && s[j] == r[b];
                if i < j {
                    assert(s[i].id != s[j].id);
                } else if j < i {
                    assert(s[j].id != s[i].id);
                }
            }
        }
    }
}

/// In a table in ranking order without repeated ids, each entry has exactly
/// as many entries before it as its position.
proof fn lemma_position_is_count(r: Seq<Entry>, m: int, i: int, target: int)
    requires
        in_rank_order(r, target),
        ids_unique(r),
        0 <= i < r.len(),
        0 <= m <= r.len(),
    ensures
        closer_count(r.subrange(0, m), r[i], target) == if m < i {
            m
        } else {
            i
        },
    decreases m,
{
    if m > 0 {
        let p = r.subrange(0, m);
        assert(p.drop_last() =~= r.subrange(0, m - 1));
        lemma_position_is_count(r, m - 1, i, target);
        let j = m - 1;
        if j < i {
            assert(!ranks_before(r[i], r[j], target));
            assert(r[j].id != r[i].id);
        } else if j > i {
            assert(!ranks_before(r[j], r[i], target));
        }
    }
}

/// The display order of a table without repeated ids starts with its
/// winners, and only with them.
pub proof fn lemma_winners_come_first(entries: Seq<Entry>, r: Seq<Entry>, target: int)
    requires
        ids_unique(entries),
        r.to_multiset() == entries.to_multiset(),
        in_rank_order(r, target),
    ensures
        forall|i: int| 0 <= i < r.len() ==> (is_winner(entries, #[trigger] r[i], target) <==> i < WINNER_LIMIT),
{
    lemma_permutation_ids_unique(entries, r);
    assert forall|i: int| 0 <= i < r.len() implies (is_winner(entries, #[trigger] r[i], target) <==> i < WINNER_LIMIT) by {
        lemma_closer_count_permutation(entries, r, r[i], target);
        lemma_position_is_count(r, r.len() as int, i, target);
        assert(r.subrange(0, r.len() as int) =~= r);
    }
}

/// The number of entries of `entries` that rank before `e`.
pub fn count_closer(entries: &Vec<Entry>, e: &Entry, target: i32) -> (r: usize)
    ensures
        r == closer_count(entries@, *e, target as int),
{
    let mut n: usize = 0;
    let mut i: usize = 0;
    while i < entries.len()
        invariant
            i <= entries@.len(),
            n <= i,
            n == closer_count(entries@.subrange(0, i as int), *e, target as int),
        decreases entries@.len() - i,
    {
        assert(entries@.subrange(0, i + 1).drop_last() =~= entries@.subrange(0, i as int));
        if comes_before(&entries[i], e, target) {
            n = n + 1;
        }
        i = i + 1;
    }
    assert(entries@.subrange(0, i as int) =~= entries@);
    n
}

/// The ids of the winners for `target`, in the order of `entries`.
pub fn select_winners(entries: &Vec<Entry>, target: i32) -> (r: Vec<u64>)
    ensures
        ids_unique(entries@) ==> r@.no_duplicates(),
        ids_unique(entries@) ==> r@.len() == if entries@.len() < WINNER_LIMIT {
            entries@.len()
        } else {
            WINNER_LIMIT as nat
        },
        forall|id: u64|
            r@.contains(id) <==> exists|i: int|
                0 <= i < entries@.len() && (#[trigger] entries@[i]).id == id && is_winner(
                    entries@,
                    entries@[i],
                    target as int,
                ),
{
    let mut ids: Vec<u64> = Vec::new();
    let mut i: usize = 0;
    assert(winners_below(entries@, target as int, 0) =~= Set::<int>::empty());
    while i < entries.len()
        invariant
            i <= entries@.len(),
            winners_below(entries@, target as int, i as int).finite(),
            ids@.len() == winners_below(entries@, target as int, i as int).len(),
            ids_unique(entries@) ==> ids@.no_duplicates(),
            forall|id: u64|
                ids@.contains(id) <==> exists|k: int|
                    0 <= k < i && (#[trigger] entries@[k]).id == id && is_winner(
                        entries@,
                        entries@[k],
                        target as int,
                    ),
        decreases entries@.len() - i,
    {
        let ghost prev = ids@;
        let c = count_closer(entries, &entries[i], target);
        if c < WINNER_LIMIT {
            ids.push(entries[i].id);
        }
        proof {
            let e = entries@[i as int];
            let below = winners_below(entries@, target as int, i as int);
            if c < WINNER_LIMIT {
                assert(winners_below(entries@, target as int, i + 1) =~= below.insert(i as int));
                assert(!below.contains(i as int));
                if ids_unique(entries@) {
                    assert(!prev.contains(e.id)) by {
                        if prev.contains(e.id) {
                            let k = choose|k: int|
                                0 <= k < i && (#[trigger] entries@[k]).id == e.id && is_winner(
                                    entries@,
                                    entries@[k],
                                    target as int,
                                );
                            assert(entries@[k].id != entries@[i as int].id);
                        }
                    }
                    assert forall|a: int, b: int| 0 <= a < ids@.len() && 0 <= b < ids@.len() && a != b
                        implies ids@[a] != ids@[b] by {
                        if a < prev.len() && b < prev.len() {
                            assert(prev[a] != prev[b]);
                        } else if a < prev.len() {
                            assert(prev.contains(ids@[a]));
                        } else {
                            assert(prev.contains(ids@[b]));
                        }
                    }
                }
            } else {
                assert(winners_below(entries@, target as int, i + 1) =~= below);
            }
            assert forall|id: u64|
                ids@.contains(id) <==> exists|k: int|
                    0 <= k < i + 1 && (#[trigger] entries@[k]).id == id && is_winner(
                        entries@,
                        entries@[k],
                        target as int,
                    ) by {
                if ids@.contains(id) {
                    let j = choose|j: int| 0 <= j < ids@.len() && ids@[j] == id;
                    if j < prev.len() {
                        assert(prev[j] == id);
                        assert(prev.contains(id));
                    } else {
                        assert(e.id == id && is_winner(entries@, e, target as int));
                    }
                }
                if exists|k: int|
                    0 <= k < i + 1 && (#[trigger] entries@[k]).id == id && is_winner(
                        entries@,
                        entries@[k],
                        target as int,
                    ) {
                    let k = choose|k: int|
                        0 <= k < i + 1 && (#[trigger] entries@[k]).id == id && is_winner(
                            entries@,
                            entries@[k],
                            target as int,
                        );
                    if k < i {
                        assert(prev.contains(id));
                        let j = choose|j: int| 0 <= j < prev.len() && prev[j] == id;
                        assert(ids@[j] == id);
                    } else {
                        assert(ids@[ids@.len() - 1] == id);
                    }
                }
            }
        }
        i = i + 1;
    }
    proof {
        assert(winners_below(entries@, target as int, i as int) =~= winner_positions(
            entries@,
            target as int,
        ));
        if ids_unique(entries@) {
            lemma_winner_count(entries@, target as int);
        }
    }
    ids
}

/// The entries in ranking order for `target`: closest first, ties to the
/// lower id, entries with equal keys in the order given.
pub fn rank_order(entries: &Vec<Entry>, target: i32) -> (r: Vec<Entry>)
    ensures
        r@.to_multiset() == entries@.to_multiset(),
        in_rank_order(r@, target as int),
{
    let mut out: Vec<Entry> = Vec::new();
    let mut i: usize = 0;
    while i < entries.len()
        invariant
            i <= entries@.len(),
            out@.to_multiset() == entries@.subrange(0, i as int).to_multiset(),
            in_rank_order(out@, target as int),
        decreases entries@.len() - i,
    {
        let e = entries[i].duplicate();
        let mut p: usize = 0;
        while p < out.len() && !comes_before(&e, &out[p], target)
            invariant
                p <= out@.len(),
                forall|k: int| 0 <= k < p ==> !ranks_before(e, #[trigger] out@[k], target as int),
            decreases out@.len() - p,
        {
            p = p + 1;
        }
        let ghost before = out@;
        out.insert(p, e);
        proof {
            assert(out@.remove(p as int) =~= before);
            assert(out@[p as int] == e);
            assert(out@.to_multiset() =~= before.to_multiset().insert(e));
            assert(entries@.subrange(0, i + 1) =~= entries@.subrange(0, i as int).push(e));
            assert forall|a: int, b: int| 0 <= a < b < out@.len() implies !ranks_before(
                #[trigger] out@[b],
                #[trigger] out@[a],
                target as int,
            ) by {
                if a < p && b == p {
                } else if a < p && b > p {
                    assert(out@[b] == before[b - 1]);
                } else if a == p && b > p {
                    assert(out@[b] == before[b - 1]);
                    if p < before.len() {
                        assert(ranks_before(e, before[p as int], target as int));
                        if b - 1 > p {
                            assert(!ranks_before(before[b - 1], before[p as int], target as int));
                        }
                    }
                } else if a > p {
                    assert(out@[a] == before[a - 1]);
                    assert(out@[b] == before[b - 1]);
                } else {
                    assert(out@[a] == before[a]);
                    assert(out@[b] == before[b]);
                }
            }
        }
        i = i + 1;
    }
    assert(entries@.subrange(0, i as int) =~= entries@);
    out
}

/// Ranks a table for `target`: the display order, and the ids of the winners.
///
/// The winners are the entries that come first in the display order, so the
/// display order shows them first.
pub fn rank(entries: &Vec<Entry>, target: i32) -> (r: (Vec<Entry>, Vec<u64>))
    ensures
        r.0@.to_multiset() == entries@.to_multiset(),
        in_rank_order(r.0@, target as int),
        ids_unique(entries@) ==> forall|i: int|
            0 <= i < r.0@.len() ==> (is_winner(entries@, #[trigger] r.0@[i], target as int) <==> i
                < WINNER_LIMIT),
        ids_unique(entries@) ==> r.1@.no_duplicates(),
        ids_unique(entries@) ==> r.1@.len() == if entries@.len() < WINNER_LIMIT {
            entries@.len()
        } else {
            WINNER_LIMIT as nat
        },
        forall|id: u64|
            r.1@.contains(id) <==> exists|i: int|
                0 <= i < entries@.len() && (#[trigger] entries@[i]).id == id && is_winner(
                    entries@,
                    entries@[i],
                    target as int,
                ),
{
    let order = rank_order(entries, target);
    proof {
        if ids_unique(entries@) {
            lemma_winners_come_first(entries@, order@, target as int);
        }
    }
    (order, select_winners(entries, target))
}

} // verus!

//! Transfer topology: partitions the graph's transfer slots into path-
//! connected groups, then randomly builds a consistent bidirectional pairing
//! between them, ends (single-slot components) first.

use vstd::prelude::*;
use vstd::multiset::Multiset;

use rand_pcg::Pcg64Mcg;

use crate::id::Id;
use crate::logic::{lemma_flatten_cross_distinct, Area, Logic};
use crate::rng::rng_below;
use crate::sprite::SpriteData;
use crate::world::{maps_view, spec_cell, spec_find_map, MapView, WorldMap};

verus! {

/// A flattened list's element sits at some row and column.
pub proof fn lemma_flatten_contains_inv<A>(ls: Seq<Seq<A>>, x: A)
    requires
        ls.flatten().contains(x),
    ensures
        exists|r: int, c: int|
            0 <= r < ls.len() && 0 <= c < ls[r].len() && #[trigger] ls[r][c] == x,
    decreases ls.len(),
{
    let flat = ls.flatten();
    assert(flat == ls.first() + ls.drop_first().flatten());
    let i = choose|i: int| 0 <= i < flat.len() && flat[i] == x;
    if i < ls.first().len() {
        assert(ls[0][i] == x);
    } else {
        assert(ls.drop_first().flatten()[i - ls.first().len()] == x);
        assert(ls.drop_first().flatten().contains(x));
        lemma_flatten_contains_inv(ls.drop_first(), x);
        let (r, c) = choose|r: int, c: int|
            0 <= r < ls.drop_first().len() && 0 <= c < ls.drop_first()[r].len()
                && #[trigger] ls.drop_first()[r][c] == x;
        assert(ls[r + 1] == ls.drop_first()[r]);
        assert(ls[r + 1][c] == x);
    }
}

/// A pair a group may hold: an area of the graph and one of its declared
/// transfer slots.
pub open spec fn tpair_ok(logic: Logic, p: (usize, Id)) -> bool {
    &&& (p.0 as int) < logic.areas@.len()
    &&& exists|ti: int|
        0 <= ti < logic.areas@[p.0 as int].transfers@.len()
            && (#[trigger] logic.areas@[p.0 as int].transfers@[ti]) == p.1
}

/// Whether some group holds this pair. Opaque so that the fixpoint's
/// invariants restate it without chasing the inner witness.
#[verifier::opaque]
pub open spec fn group_has(groups: Seq<Vec<(usize, Id)>>, p: (usize, Id)) -> bool {
    exists|g: int, k: int|
        0 <= g < groups.len() && 0 <= k < groups[g]@.len() && (#[trigger] groups[g]@[k]) == p
}

/// Whether one group row holds this pair.
#[verifier::opaque]
pub open spec fn row_has(row: Seq<(usize, Id)>, p: (usize, Id)) -> bool {
    exists|k: int| 0 <= k < row.len() && #[trigger] row[k] == p
}

/// A direct path edge of the graph, requirements aside.
pub open spec fn path_edge(logic: Logic, a: int, b: int) -> bool {
    &&& 0 <= a < logic.areas@.len()
    &&& 0 <= b < logic.areas@.len()
    &&& exists|p: int|
        0 <= p < logic.areas@[a].paths@.len() && (#[trigger] logic.areas@[a].paths@[p]).0 == b
}

/// A walk over path edges.
pub open spec fn pchain(logic: Logic, ch: Seq<int>) -> bool {
    &&& ch.len() > 0
    &&& forall|k: int| 0 <= k < ch.len() - 1 ==> path_edge(logic, #[trigger] ch[k], ch[k + 1])
}

/// Area `b` lies on some walk over path edges from area `a`.
pub open spec fn plinked(logic: Logic, a: int, b: int) -> bool {
    exists|ch: Seq<int>| pchain(logic, ch) && ch[0] == a && ch.last() == b
}

/// Every path edge has a path back, as the logic document is expected to
/// declare.
pub open spec fn paths_symmetric(logic: Logic) -> bool {
    forall|a: int, p: int|
        0 <= a < logic.areas@.len() && 0 <= p < logic.areas@[a].paths@.len() ==> path_edge(
            logic,
            (#[trigger] logic.areas@[a].paths@[p]).0 as int,
            a,
        )
}

/// The group row holds every transfer slot of area `x`.
pub open spec fn area_slots_in(logic: Logic, row: Seq<(usize, Id)>, x: int) -> bool {
    forall|ti: int|
        0 <= ti < logic.areas@[x].transfers@.len() ==> row_has(
            row,
            (x as usize, #[trigger] logic.areas@[x].transfers@[ti]),
        )
}

/// A group that covers one whole path-connected component: some root area
/// whose every path-reachable area has all its slots inside the row.
pub open spec fn component_root(logic: Logic, row: Seq<(usize, Id)>, root: int) -> bool {
    &&& 0 <= root < logic.areas@.len()
    &&& forall|k: int| 0 <= k < row.len() ==> plinked(logic, root, (#[trigger] row[k]).0 as int)
    &&& forall|x: int| #[trigger] plinked(logic, root, x) ==> area_slots_in(logic, row, x)
}

#[verifier::opaque]
pub open spec fn group_component(logic: Logic, row: Seq<(usize, Id)>) -> bool {
    exists|root: int| #[trigger] component_root(logic, row, root)
}

/// An area reaches itself over path edges.
pub proof fn lemma_plinked_self(logic: Logic, a: int)
    ensures
        plinked(logic, a, a),
{
    let ch = seq![a];
    assert(pchain(logic, ch) && ch[0] == a && ch.last() == a);
}

/// Walks concatenate.
pub proof fn lemma_plinked_trans(logic: Logic, a: int, b: int, c: int)
    requires
        plinked(logic, a, b),
        plinked(logic, b, c),
    ensures
        plinked(logic, a, c),
{
    let ch1 = choose|ch: Seq<int>| pchain(logic, ch) && ch[0] == a && ch.last() == b;
    let ch2 = choose|ch: Seq<int>| pchain(logic, ch) && ch[0] == b && ch.last() == c;
    let ch = ch1 + ch2.drop_first();
    assert forall|k: int| 0 <= k < ch.len() - 1 implies path_edge(
        logic,
        #[trigger] ch[k],
        ch[k + 1],
    ) by {
        if k < ch1.len() - 1 {
            assert(ch[k] == ch1[k] && ch[k + 1] == ch1[k + 1]);
        } else if k == ch1.len() - 1 {
            assert(ch[k] == b);
            if ch2.len() > 1 {
                assert(ch[k + 1] == ch2.drop_first()[0]);
                assert(ch2.drop_first()[0] == ch2[1]);
                assert(path_edge(logic, ch2[0], ch2[1]));
            }
        } else {
            assert(ch[k] == ch2.drop_first()[k - ch1.len()]);
            assert(ch2.drop_first()[k - ch1.len()] == ch2[k - ch1.len() + 1]);
            assert(ch[k + 1] == ch2[k - ch1.len() + 2]);
            assert(path_edge(logic, ch2[k - ch1.len() + 1], ch2[k - ch1.len() + 2]));
        }
    }
    if ch2.len() == 1 {
        assert(ch =~= ch1);
    } else {
        assert(ch.last() == ch2.last());
    }
    assert(pchain(logic, ch) && ch[0] == a && ch.last() == c);
}

/// With symmetric paths, every walk can be walked back.
pub proof fn lemma_plinked_sym(logic: Logic, a: int, b: int)
    requires
        paths_symmetric(logic),
        plinked(logic, a, b),
    ensures
        plinked(logic, b, a),
{
    let ch = choose|ch: Seq<int>| pchain(logic, ch) && ch[0] == a && ch.last() == b;
    lemma_pchain_rev(logic, ch);
}

/// The reversal step behind `lemma_plinked_sym`.
pub proof fn lemma_pchain_rev(logic: Logic, ch: Seq<int>)
    requires
        paths_symmetric(logic),
        pchain(logic, ch),
    ensures
        plinked(logic, ch.last(), ch[0]),
    decreases ch.len(),
{
    if ch.len() == 1 {
        let back = seq![ch[0]];
        assert(pchain(logic, back) && back[0] == ch.last() && back.last() == ch[0]);
    } else {
        let front = ch.drop_last();
        assert forall|k: int| 0 <= k < front.len() - 1 implies path_edge(
            logic,
            #[trigger] front[k],
            front[k + 1],
        ) by {
            assert(front[k] == ch[k] && front[k + 1] == ch[k + 1]);
            assert(path_edge(logic, ch[k], ch[k + 1]));
        }
        assert(pchain(logic, front));
        lemma_pchain_rev(logic, front);
        assert(path_edge(logic, ch[ch.len() - 2], ch.last()));
        let p = choose|p: int|
            0 <= p < logic.areas@[ch[ch.len() - 2]].paths@.len() && (
            #[trigger] logic.areas@[ch[ch.len() - 2]].paths@[p]).0 == ch.last();
        assert(path_edge(logic, ch.last(), ch[ch.len() - 2]));
        let back = seq![ch.last(), ch[ch.len() - 2]];
        assert(pchain(logic, back) && back[0] == ch.last() && back.last() == ch[ch.len() - 2]);
        assert(plinked(logic, ch.last(), ch[ch.len() - 2]));
        lemma_plinked_trans(logic, ch.last(), ch[ch.len() - 2], ch[0]);
    }
}

/// Once a visited set is closed under path edges, every walk from a visited
/// area stays inside it.
pub proof fn lemma_pchain_stays_visited(logic: Logic, visited: Seq<bool>, ch: Seq<int>)
    requires
        visited.len() == logic.areas@.len(),
        pchain(logic, ch),
        0 <= ch[0] < visited.len(),
        visited[ch[0]],
        forall|x: int, p: int|
            0 <= x < visited.len() && visited[x] && 0 <= p < logic.areas@[x].paths@.len()
                ==> visited[(#[trigger] logic.areas@[x].paths@[p]).0 as int],
    ensures
        0 <= ch.last() < visited.len(),
        visited[ch.last()],
    decreases ch.len(),
{
    if ch.len() > 1 {
        let front = ch.drop_last();
        assert forall|k: int| 0 <= k < front.len() - 1 implies path_edge(
            logic,
            #[trigger] front[k],
            front[k + 1],
        ) by {
            assert(front[k] == ch[k] && front[k + 1] == ch[k + 1]);
            assert(path_edge(logic, ch[k], ch[k + 1]));
        }
        lemma_pchain_stays_visited(logic, visited, front);
        assert(path_edge(logic, ch[ch.len() - 2], ch.last()));
        let p = choose|p: int|
            0 <= p < logic.areas@[ch[ch.len() - 2]].paths@.len() && (
            #[trigger] logic.areas@[ch[ch.len() - 2]].paths@[p]).0 == ch.last();
    }
}

/// The connectivity law of the grouping: the slots of every area that one
/// of a group's member areas can walk to over path edges lie in that same
/// group — each group swallows a whole path-connected component.
pub proof fn lemma_component_slots_share_group(
    logic: Logic,
    row: Seq<(usize, Id)>,
    k: int,
    b: int,
)
    requires
        group_component(logic, row),
        0 <= k < row.len(),
        plinked(logic, row[k].0 as int, b),
    ensures
        area_slots_in(logic, row, b),
{
    reveal(group_component);
    let root = choose|root: int| #[trigger] component_root(logic, row, root);
    assert(plinked(logic, root, row[k].0 as int));
    lemma_plinked_trans(logic, root, row[k].0 as int, b);
}

impl Logic {
    /// Partitions all transfer slots into connected components by following
    /// path edges from each unvisited area. A component of size one is a
    /// topological end. Every declared slot lands in exactly one group.
    pub fn transfer_groups(&self) -> (r: Vec<Vec<(usize, Id)>>)
        requires
            self.wf(),
        ensures
            forall|g: int, k: int|
                0 <= g < r@.len() && 0 <= k < r@[g]@.len() ==> tpair_ok(
                    *self,
                    #[trigger] r@[g]@[k],
                ),
            forall|g1: int, k1: int, g2: int, k2: int|
                0 <= g1 < r@.len() && 0 <= k1 < r@[g1]@.len() && 0 <= g2 < r@.len() && 0 <= k2
                    < r@[g2]@.len() && (g1 != g2 || k1 != k2) ==> (#[trigger] r@[g1]@[k1]).1 != (
                #[trigger] r@[g2]@[k2]).1,
            forall|x: int, ti: int|
                0 <= x < self.areas@.len() && 0 <= ti < self.areas@[x].transfers@.len()
                    ==> group_has(
                    r@,
                    (x as usize, (#[trigger] self.areas@[x].transfers@[ti])),
                ),
            forall|g: int| 0 <= g < r@.len() ==> (#[trigger] r@[g])@.len() >= 1,
            paths_symmetric(*self) ==> forall|g: int|
                0 <= g < r@.len() ==> group_component(*self, (#[trigger] r@[g])@),
    {
        let n = self.areas.len();
        let mut visited: Vec<bool> = vec![false; n];
        let mut groups: Vec<Vec<(usize, Id)>> = Vec::new();
        let mut root: usize = 0;
        proof {
            crate::reach::lemma_count_true_bounds(visited@);
        }
        while root < n
            invariant
                self.wf(),
                n == self.areas@.len(),
                root <= n,
                visited@.len() == n,
                0 <= crate::reach::count_true(visited@) <= n,
                forall|x: int| 0 <= x < root ==> visited@[x],
                forall|g: int, k: int|
                    0 <= g < groups@.len() && 0 <= k < groups@[g]@.len() ==> tpair_ok(
                        *self,
                        #[trigger] groups@[g]@[k],
                    ) && visited@[groups@[g]@[k].0 as int],
                forall|g1: int, k1: int, g2: int, k2: int|
                    0 <= g1 < groups@.len() && 0 <= k1 < groups@[g1]@.len() && 0 <= g2
                        < groups@.len() && 0 <= k2 < groups@[g2]@.len() && (g1 != g2 || k1 != k2)
                        ==> (#[trigger] groups@[g1]@[k1]).1 != (#[trigger] groups@[g2]@[k2]).1,
                forall|x: int, ti: int|
                    0 <= x < n && visited@[x] && 0 <= ti < self.areas@[x].transfers@.len()
                        ==> group_has(
                        groups@,
                        (x as usize, (#[trigger] self.areas@[x].transfers@[ti])),
                    ),
                forall|g: int| 0 <= g < groups@.len() ==> (#[trigger] groups@[g])@.len() >= 1,
                forall|x: int, p: int|
                    0 <= x < n && visited@[x] && 0 <= p < self.areas@[x].paths@.len()
                        ==> visited@[(#[trigger] self.areas@[x].paths@[p]).0 as int],
                paths_symmetric(*self) ==> forall|g: int|
                    0 <= g < groups@.len() ==> group_component(*self, (#[trigger] groups@[g])@),
            decreases n - root,
        {
            if !visited[root] {
                let ghost visited0_dfs = visited@;
                let mut stack: Vec<usize> = Vec::new();
                stack.push(root);
                proof {
                    assert(stack@[0] == root);
                    lemma_plinked_self(*self, root as int);
                }
                let mut group: Vec<(usize, Id)> = Vec::new();
                while stack.len() > 0
                    invariant
                        self.wf(),
                        n == self.areas@.len(),
                        visited@.len() == n,
                        0 <= crate::reach::count_true(visited@) <= n,
                        root < n,
                        forall|x: int| 0 <= x < root ==> visited@[x],
                        visited@[root as int] || stack@.contains(root),
                        forall|k: int| 0 <= k < stack@.len() ==> (#[trigger] stack@[k]) < n,
                        forall|g: int, k: int|
                            0 <= g < groups@.len() && 0 <= k < groups@[g]@.len() ==> tpair_ok(
                                *self,
                                #[trigger] groups@[g]@[k],
                            ) && visited@[groups@[g]@[k].0 as int],
                        forall|k: int| 0 <= k < group@.len() ==> tpair_ok(
                            *self,
                            #[trigger] group@[k],
                        ) && visited@[group@[k].0 as int],
                        forall|g1: int, k1: int, g2: int, k2: int|
                            0 <= g1 < groups@.len() && 0 <= k1 < groups@[g1]@.len() && 0 <= g2
                                < groups@.len() && 0 <= k2 < groups@[g2]@.len() && (g1 != g2 || k1
                                != k2) ==> (#[trigger] groups@[g1]@[k1]).1 != (
                            #[trigger] groups@[g2]@[k2]).1,
                        forall|g: int, k: int, c: int|
                            0 <= g < groups@.len() && 0 <= k < groups@[g]@.len() && 0 <= c
                                < group@.len() ==> (#[trigger] groups@[g]@[k]).1 != (
                            #[trigger] group@[c]).1,
                        forall|c1: int, c2: int|
                            0 <= c1 < c2 < group@.len() ==> (#[trigger] group@[c1]).1 != (
                            #[trigger] group@[c2]).1,
                        forall|x: int, ti: int|
                            0 <= x < n && visited@[x] && 0 <= ti
                                < self.areas@[x].transfers@.len() ==> group_has(
                                groups@,
                                (x as usize, (#[trigger] self.areas@[x].transfers@[ti])),
                            ) || group@.contains(
                                (x as usize, self.areas@[x].transfers@[ti]),
                            ),
                        forall|g: int| 0 <= g < groups@.len() ==> (
                        #[trigger] groups@[g])@.len() >= 1,
                        visited0_dfs.len() == n,
                        !visited0_dfs[root as int],
                        forall|x: int| 0 <= x < n && visited0_dfs[x] ==> visited@[x],
                        forall|x: int, p: int|
                            0 <= x < n && visited0_dfs[x] && 0 <= p
                                < self.areas@[x].paths@.len() ==> visited0_dfs[(
                            #[trigger] self.areas@[x].paths@[p]).0 as int],
                        forall|g: int, k: int|
                            0 <= g < groups@.len() && 0 <= k < groups@[g]@.len()
                                ==> visited0_dfs[(#[trigger] groups@[g]@[k]).0 as int],
                        forall|k: int| 0 <= k < stack@.len() ==> plinked(
                            *self,
                            root as int,
                            (#[trigger] stack@[k]) as int,
                        ),
                        forall|x: int|
                            0 <= x < n && visited@[x] && !visited0_dfs[x] ==> plinked(
                                *self,
                                root as int,
                                x,
                            ),
                        forall|k: int| 0 <= k < group@.len()
                            ==> !visited0_dfs[(#[trigger] group@[k]).0 as int],
                        forall|x: int, p: int|
                            0 <= x < n && visited@[x] && 0 <= p < self.areas@[x].paths@.len()
                                ==> visited@[(#[trigger] self.areas@[x].paths@[p]).0 as int]
                                || stack@.contains(
                                self.areas@[x].paths@[p].0,
                            ),
                    decreases n - crate::reach::count_true(visited@), stack@.len(),
                {
                    let ghost stack0 = stack@;
                    let a = match stack.pop() {
                        Some(a) => a,
                        None => unreached(),
                    };
                    proof {
                        assert(stack0[stack0.len() - 1] == a);
                        assert(stack@ =~= stack0.drop_last());
                        if !visited@[root as int] && a != root {
                            let k = choose|k: int| 0 <= k < stack0.len() && stack0[k] == root;
                            assert(k < stack0.len() - 1);
                            assert(stack@[k] == root);
                        }
                    }
                    if visited[a] {
                        proof {
                            assert forall|x: int, pp: int|
                                0 <= x < n && visited@[x] && 0 <= pp
                                    < self.areas@[x].paths@.len() implies visited@[(
                            #[trigger] self.areas@[x].paths@[pp]).0 as int] || stack@.contains(
                                self.areas@[x].paths@[pp].0,
                            ) by {
                                let b = self.areas@[x].paths@[pp].0;
                                if !visited@[b as int] {
                                    let k = choose|k: int|
                                        0 <= k < stack0.len() && stack0[k] == b;
                                    if k < stack0.len() - 1 {
                                        assert(stack@[k] == b);
                                    } else {
                                        assert(b == a);
                                    }
                                }
                            }
                        }
                        continue;
                    }
                    let ghost visited0 = visited@;
                    visited[a] = true;
                    proof {
                        crate::reach::lemma_count_true_set(visited0, a as int);
                        crate::reach::lemma_count_true_bounds(visited@);
                        assert(visited@ =~= visited0.update(a as int, true));
                        assert forall|x: int, pp: int|
                            0 <= x < n && visited@[x] && 0 <= pp < self.areas@[x].paths@.len()
                                && x != a as int implies visited@[(
                        #[trigger] self.areas@[x].paths@[pp]).0 as int] || stack@.contains(
                            self.areas@[x].paths@[pp].0,
                        ) by {
                            let b = self.areas@[x].paths@[pp].0;
                            assert(visited0[x]);
                            if !visited0[b as int] {
                                let k = choose|k: int| 0 <= k < stack0.len() && stack0[k] == b;
                                if k < stack0.len() - 1 {
                                    assert(stack@[k] == b);
                                } else {
                                    assert(b == a);
                                }
                            }
                        }
                    }
                    let area = self.get_area(a);
                    let mut p: usize = 0;
                    while p < area.paths.len()
                        invariant
                            self.wf(),
                            n == self.areas@.len(),
                            p <= area.paths@.len(),
                            a < n,
                            root < n,
                            area == self.areas@[a as int],
                            visited@.len() == n,
                            visited@[a as int],
                            plinked(*self, root as int, a as int),
                            visited@[root as int] || stack@.contains(root),
                            forall|k: int| 0 <= k < stack@.len() ==> (#[trigger] stack@[k]) < n,
                            forall|k: int| 0 <= k < stack@.len() ==> plinked(
                                *self,
                                root as int,
                                (#[trigger] stack@[k]) as int,
                            ),
                            forall|x: int, pp: int|
                                0 <= x < n && visited@[x] && 0 <= pp
                                    < self.areas@[x].paths@.len() && !(x == a && p <= pp)
                                    ==> visited@[(#[trigger] self.areas@[x].paths@[pp]).0 as int]
                                    || stack@.contains(self.areas@[x].paths@[pp].0),
                        decreases area.paths@.len() - p,
                    {
                        let ghost before = stack@;
                        let target = area.paths[p].0;
                        proof {
                            assert(path_edge(*self, a as int, target as int));
                            let two = seq![a as int, target as int];
                            assert(pchain(*self, two) && two[0] == a as int && two.last()
                                == target as int);
                            assert(plinked(*self, a as int, target as int));
                            lemma_plinked_trans(*self, root as int, a as int, target as int);
                        }
                        stack.push(target);
                        proof {
                            if !visited@[root as int] {
                                let k = choose|k: int| 0 <= k < before.len() && before[k] == root;
                                assert(stack@[k] == root);
                            }
                            assert(stack@[before.len() as int] == target);
                            assert forall|x: int, pp: int|
                                0 <= x < n && visited@[x] && 0 <= pp
                                    < self.areas@[x].paths@.len() && !(x == a && p + 1 <= pp)
                                    implies visited@[(
                                #[trigger] self.areas@[x].paths@[pp]).0 as int]
                                || stack@.contains(self.areas@[x].paths@[pp].0) by {
                                if !(x == a && pp == p) && !visited@[
                                    self.areas@[x].paths@[pp].0 as int] && !(x == a && p <= pp) {
                                    let k = choose|k: int|
                                        0 <= k < before.len() && before[k]
                                            == self.areas@[x].paths@[pp].0;
                                    assert(stack@[k] == self.areas@[x].paths@[pp].0);
                                }
                            }
                        }
                        p = p + 1;
                    }
                    let ghost base = group@;
                    let mut ti: usize = 0;
                    while ti < area.transfers.len()
                        invariant
                            self.wf(),
                            n == self.areas@.len(),
                            ti <= area.transfers@.len(),
                            a < n,
                            area == self.areas@[a as int],
                            visited@.len() == n,
                            visited@[a as int],
                            visited0 == visited@.update(a as int, false),
                            !visited0[a as int],
                            visited0_dfs.len() == n,
                            !visited0_dfs[a as int],
                            forall|k: int| 0 <= k < base.len()
                                ==> !visited0_dfs[(#[trigger] base[k]).0 as int],
                            group@.len() == base.len() + ti,
                            forall|c: int| 0 <= c < base.len() ==> #[trigger] group@[c]
                                == base[c],
                            forall|j: int| 0 <= j < ti ==> #[trigger] group@[base.len() + j] == (
                                a,
                                area.transfers@[j],
                            ),
                            forall|k: int| 0 <= k < base.len() ==> tpair_ok(
                                *self,
                                #[trigger] base[k],
                            ) && visited0[base[k].0 as int],
                            forall|g: int, k: int|
                                0 <= g < groups@.len() && 0 <= k < groups@[g]@.len()
                                    ==> tpair_ok(*self, #[trigger] groups@[g]@[k])
                                    && visited0[groups@[g]@[k].0 as int],
                            forall|g: int, k: int, c: int|
                                0 <= g < groups@.len() && 0 <= k < groups@[g]@.len() && 0 <= c
                                    < base.len() ==> (#[trigger] groups@[g]@[k]).1 != (
                                #[trigger] base[c]).1,
                            forall|c1: int, c2: int|
                                0 <= c1 < c2 < base.len() ==> (#[trigger] base[c1]).1 != (
                                #[trigger] base[c2]).1,
                        decreases area.transfers@.len() - ti,
                    {
                        group.push((a, area.transfers[ti]));
                        ti = ti + 1;
                    }
                    proof {
                        assert forall|c: int| 0 <= c < group@.len() implies tpair_ok(
                            *self,
                            #[trigger] group@[c],
                        ) && visited@[group@[c].0 as int] by {
                            if c >= base.len() {
                                let j = c - base.len();
                                assert(group@[base.len() + j] == (a, area.transfers@[j]));
                                assert(group@[c] == (a, self.areas@[a as int].transfers@[j]));
                            } else {
                                assert(visited0[base[c].0 as int]);
                            }
                        }
                        assert forall|c: int| 0 <= c < group@.len()
                            implies !visited0_dfs[(#[trigger] group@[c]).0 as int] by {
                            if c >= base.len() {
                                let j = c - base.len();
                                assert(group@[base.len() + j] == (a, area.transfers@[j]));
                            }
                        }
                        assert forall|g: int, k: int|
                            0 <= g < groups@.len() && 0 <= k < groups@[g]@.len() implies tpair_ok(
                            *self,
                            #[trigger] groups@[g]@[k],
                        ) && visited@[groups@[g]@[k].0 as int] by {
                            assert(visited0[groups@[g]@[k].0 as int]);
                        }
                        let rows = self.areas@.map_values(|ar: Area| ar.transfers@);
                        assert forall|c1: int, c2: int| 0 <= c1 < c2 < group@.len() implies (
                        #[trigger] group@[c1]).1 != (#[trigger] group@[c2]).1 by {
                            if c2 >= base.len() {
                                let j2 = c2 - base.len();
                                assert(group@[base.len() + j2] == (a, area.transfers@[j2]));
                                assert(group@[c2] == (a, self.areas@[a as int].transfers@[j2]));
                                if c1 >= base.len() {
                                    let j1 = c1 - base.len();
                                    assert(group@[base.len() + j1] == (a, area.transfers@[j1]));
                                    assert(group@[c1] == (
                                        a,
                                        self.areas@[a as int].transfers@[j1],
                                    ));
                                    lemma_flatten_cross_distinct(
                                        rows,
                                        a as int,
                                        j1,
                                        a as int,
                                        j2,
                                    );
                                } else {
                                    let p1 = base[c1];
                                    let ti1 = choose|t: int|
                                        0 <= t < self.areas@[p1.0 as int].transfers@.len() && (
                                        #[trigger] self.areas@[p1.0 as int].transfers@[t])
                                            == p1.1;
                                    assert(p1.0 as int != a as int);
                                    lemma_flatten_cross_distinct(
                                        rows,
                                        p1.0 as int,
                                        ti1,
                                        a as int,
                                        j2,
                                    );
                                }
                            }
                        }
                        assert forall|g: int, k: int, c: int|
                            0 <= g < groups@.len() && 0 <= k < groups@[g]@.len() && 0 <= c
                                < group@.len() implies (#[trigger] groups@[g]@[k]).1 != (
                        #[trigger] group@[c]).1 by {
                            if c >= base.len() {
                                let j = c - base.len();
                                assert(group@[base.len() + j] == (a, area.transfers@[j]));
                                let p1 = groups@[g]@[k];
                                let ti1 = choose|t: int|
                                    0 <= t < self.areas@[p1.0 as int].transfers@.len() && (
                                    #[trigger] self.areas@[p1.0 as int].transfers@[t]) == p1.1;
                                assert(p1.0 as int != a as int);
                                lemma_flatten_cross_distinct(rows, p1.0 as int, ti1, a as int, j);
                            }
                        }
                        assert forall|x: int, t: int|
                            0 <= x < n && visited@[x] && 0 <= t
                                < self.areas@[x].transfers@.len() implies group_has(
                            groups@,
                            (x as usize, (#[trigger] self.areas@[x].transfers@[t])),
                        ) || group@.contains((x as usize, self.areas@[x].transfers@[t])) by {
                            if x == a as int {
                                assert(group@[base.len() + t] == (a, area.transfers@[t]));
                                assert(group@.contains((x as usize, self.areas@[x].transfers@[t])));
                            } else {
                                assert(visited0[x]);
                                if !group_has(
                                    groups@,
                                    (x as usize, self.areas@[x].transfers@[t]),
                                ) {
                                    let c = choose|c: int|
                                        0 <= c < base.len() && base[c] == (
                                            x as usize,
                                            self.areas@[x].transfers@[t],
                                        );
                                    assert(group@[c] == (
                                        x as usize,
                                        self.areas@[x].transfers@[t],
                                    ));
                                }
                            }
                        }
                    }
                }
                if group.len() > 0 {
                    let ghost gs0 = groups@;
                    let ghost blk = group@;
                    groups.push(group);
                    proof {
                        assert(groups@.len() == gs0.len() + 1);
                        assert(groups@[gs0.len() as int]@ == blk);
                        assert forall|g: int| 0 <= g < gs0.len() implies #[trigger] groups@[g]
                            == gs0[g] by {}
                        if paths_symmetric(*self) {
                            assert forall|x: int| #[trigger] plinked(*self, root as int, x)
                                implies area_slots_in(*self, blk, x) by {
                                let ch = choose|ch: Seq<int>|
                                    pchain(*self, ch) && ch[0] == root as int && ch.last() == x;
                                lemma_pchain_stays_visited(*self, visited@, ch);
                                assert(visited@[x] && 0 <= x < n);
                                if visited0_dfs[x] {
                                    lemma_plinked_sym(*self, root as int, x);
                                    let back = choose|bk: Seq<int>|
                                        pchain(*self, bk) && bk[0] == x && bk.last()
                                            == root as int;
                                    lemma_pchain_stays_visited(*self, visited0_dfs, back);
                                    assert(false);
                                }
                                assert forall|ti: int|
                                    0 <= ti < self.areas@[x].transfers@.len() implies row_has(
                                    blk,
                                    (x as usize, #[trigger] self.areas@[x].transfers@[ti]),
                                ) by {
                                    reveal(group_has);
                                    reveal(row_has);
                                    let pr = (x as usize, self.areas@[x].transfers@[ti]);
                                    if group_has(gs0, pr) {
                                        let (g, k) = choose|g: int, k: int|
                                            0 <= g < gs0.len() && 0 <= k < gs0[g]@.len() && (
                                            #[trigger] gs0[g]@[k]) == pr;
                                        assert(visited0_dfs[gs0[g]@[k].0 as int]);
                                        assert(false);
                                    } else {
                                        let c = choose|c: int|
                                            0 <= c < blk.len() && blk[c] == pr;
                                    }
                                }
                            }
                            assert forall|k: int| 0 <= k < blk.len() implies plinked(
                                *self,
                                root as int,
                                (#[trigger] blk[k]).0 as int,
                            ) by {
                                assert(visited@[blk[k].0 as int]);
                                assert(!visited0_dfs[blk[k].0 as int]);
                            }
                            assert(component_root(*self, blk, root as int));
                            assert(group_component(*self, blk)) by {
                                reveal(group_component);
                            }
                            assert forall|g: int| 0 <= g < groups@.len()
                                implies group_component(*self, (#[trigger] groups@[g])@) by {
                                if g < gs0.len() {
                                    assert(groups@[g] == gs0[g]);
                                    assert(group_component(*self, gs0[g]@));
                                }
                            }
                        }
                        assert forall|g1: int, k1: int, g2: int, k2: int|
                            0 <= g1 < groups@.len() && 0 <= k1 < groups@[g1]@.len() && 0 <= g2
                                < groups@.len() && 0 <= k2 < groups@[g2]@.len() && (g1 != g2 || k1
                                != k2) implies (#[trigger] groups@[g1]@[k1]).1 != (
                        #[trigger] groups@[g2]@[k2]).1 by {
                            if g1 == gs0.len() && g2 == gs0.len() {
                                assert(blk[k1].1 != blk[k2].1);
                            } else if g1 == gs0.len() {
                                assert(gs0[g2]@[k2].1 != blk[k1].1);
                            } else if g2 == gs0.len() {
                                assert(gs0[g1]@[k1].1 != blk[k2].1);
                            } else {
                                assert(gs0[g1]@[k1].1 != gs0[g2]@[k2].1);
                            }
                        }
                        assert forall|x: int, ti: int|
                            0 <= x < n && visited@[x] && 0 <= ti
                                < self.areas@[x].transfers@.len() implies group_has(
                            groups@,
                            (x as usize, (#[trigger] self.areas@[x].transfers@[ti])),
                        ) by {
                            reveal(group_has);
                            let pr = (x as usize, self.areas@[x].transfers@[ti]);
                            if group_has(gs0, pr) {
                                let (g, k) = choose|g: int, k: int|
                                    0 <= g < gs0.len() && 0 <= k < gs0[g]@.len()
                                        && (#[trigger] gs0[g]@[k]) == pr;
                                assert(groups@[g]@[k] == pr);
                            } else {
                                let c = choose|c: int| 0 <= c < blk.len() && blk[c] == pr;
                                assert(groups@[gs0.len() as int]@[c] == pr);
                            }
                        }
                    }
                }
            }
            root = root + 1;
        }
        groups
    }
}

/// The transfer-slot ids a group row holds.
pub open spec fn row_ids(g: Vec<(usize, Id)>) -> Seq<Id> {
    g@.map_values(|p: (usize, Id)| p.1)
}

/// The multiset of transfer-slot ids across all groups.
pub open spec fn groups_ms(gs: Seq<Vec<(usize, Id)>>) -> Multiset<Id>
    decreases gs.len(),
{
    if gs.len() == 0 {
        Multiset::empty()
    } else {
        groups_ms(gs.drop_last()).add(row_ids(gs.last()).to_multiset())
    }
}

/// The multiset of transfer-slot ids among the ends.
pub open spec fn ends_ms(ends: Seq<(usize, Id)>) -> Multiset<Id> {
    ends.map_values(|p: (usize, Id)| p.1).to_multiset()
}

pub proof fn lemma_groups_ms_push(gs: Seq<Vec<(usize, Id)>>, g: Vec<(usize, Id)>)
    ensures
        groups_ms(gs.push(g)) == groups_ms(gs).add(row_ids(g).to_multiset()),
{
    assert(gs.push(g).drop_last() =~= gs);
    assert(gs.push(g).last() == g);
}

pub proof fn lemma_groups_ms_update(gs: Seq<Vec<(usize, Id)>>, i: int, g: Vec<(usize, Id)>)
    requires
        0 <= i < gs.len(),
    ensures
        forall|id: Id| #[trigger] groups_ms(gs.update(i, g)).count(id) == groups_ms(gs).count(id)
            - row_ids(gs[i]).to_multiset().count(id) + row_ids(g).to_multiset().count(id),
    decreases gs.len(),
{
    if i == gs.len() - 1 {
        assert(gs.update(i, g).drop_last() =~= gs.drop_last());
        assert(gs.update(i, g).last() == g);
        assert(groups_ms(gs.update(i, g)) == groups_ms(gs.drop_last()).add(
            row_ids(g).to_multiset(),
        ));
        assert(groups_ms(gs) == groups_ms(gs.drop_last()).add(
            row_ids(gs.last()).to_multiset(),
        ));
        assert(gs[i] == gs.last());
    } else {
        assert(gs.update(i, g).drop_last() =~= gs.drop_last().update(i, g));
        assert(gs.update(i, g).last() == gs.last());
        lemma_groups_ms_update(gs.drop_last(), i, g);
        assert(groups_ms(gs.update(i, g)) == groups_ms(gs.drop_last().update(i, g)).add(
            row_ids(gs.last()).to_multiset(),
        ));
        assert(groups_ms(gs) == groups_ms(gs.drop_last()).add(
            row_ids(gs.last()).to_multiset(),
        ));
        assert(gs.drop_last()[i] == gs[i]);
    }
}

/// A group position's id counts in the group multiset.
pub proof fn lemma_groups_ms_member(gs: Seq<Vec<(usize, Id)>>, g: int, k: int)
    requires
        0 <= g < gs.len(),
        0 <= k < gs[g]@.len(),
    ensures
        groups_ms(gs).count(gs[g]@[k].1) > 0,
    decreases gs.len(),
{
    broadcast use vstd::seq_lib::group_to_multiset_ensures;

    if g == gs.len() - 1 {
        assert(row_ids(gs.last())[k] == gs[g]@[k].1);
        assert(row_ids(gs.last()).contains(gs[g]@[k].1));
    } else {
        lemma_groups_ms_member(gs.drop_last(), g, k);
        assert(gs.drop_last()[g] == gs[g]);
    }
}

/// A counted id sits at some group position.
pub proof fn lemma_groups_ms_position(gs: Seq<Vec<(usize, Id)>>, id: Id)
    requires
        groups_ms(gs).count(id) > 0,
    ensures
        exists|g: int, k: int|
            0 <= g < gs.len() && 0 <= k < gs[g]@.len() && (#[trigger] gs[g]@[k]).1 == id,
    decreases gs.len(),
{
    broadcast use vstd::seq_lib::group_to_multiset_ensures;

    if gs.len() > 0 {
        if row_ids(gs.last()).to_multiset().count(id) > 0 {
            assert(row_ids(gs.last()).contains(id));
            let k = choose|k: int|
                0 <= k < row_ids(gs.last()).len() && row_ids(gs.last())[k] == id;
            assert((gs[gs.len() - 1]@[k]).1 == id);
        } else {
            lemma_groups_ms_position(gs.drop_last(), id);
            let (g, k) = choose|g: int, k: int|
                0 <= g < gs.drop_last().len() && 0 <= k < gs.drop_last()[g]@.len() && (
                #[trigger] gs.drop_last()[g]@[k]).1 == id;
            assert(gs[g] == gs.drop_last()[g]);
            assert((gs[g]@[k]).1 == id);
        }
    }
}

/// Positionally distinct groups count every id at most once.
pub proof fn lemma_groups_ms_distinct(gs: Seq<Vec<(usize, Id)>>)
    requires
        forall|g1: int, k1: int, g2: int, k2: int|
            0 <= g1 < gs.len() && 0 <= k1 < gs[g1]@.len() && 0 <= g2 < gs.len() && 0 <= k2
                < gs[g2]@.len() && (g1 != g2 || k1 != k2) ==> (#[trigger] gs[g1]@[k1]).1 != (
            #[trigger] gs[g2]@[k2]).1,
    ensures
        forall|id: Id| #[trigger] groups_ms(gs).count(id) <= 1,
    decreases gs.len(),
{
    broadcast use vstd::seq_lib::group_to_multiset_ensures;

    if gs.len() > 0 {
        let front = gs.drop_last();
        assert forall|g1: int, k1: int, g2: int, k2: int|
            0 <= g1 < front.len() && 0 <= k1 < front[g1]@.len() && 0 <= g2 < front.len() && 0
                <= k2 < front[g2]@.len() && (g1 != g2 || k1 != k2) implies (
        #[trigger] front[g1]@[k1]).1 != (#[trigger] front[g2]@[k2]).1 by {
            assert(front[g1] == gs[g1] && front[g2] == gs[g2]);
        }
        lemma_groups_ms_distinct(front);
        let row = row_ids(gs.last());
        assert forall|k1: int, k2: int| 0 <= k1 < k2 < row.len() implies row[k1] != row[k2] by {
            assert((gs[gs.len() - 1]@[k1]).1 != (gs[gs.len() - 1]@[k2]).1);
        }
        assert(row.no_duplicates());
        row.lemma_multiset_has_no_duplicates();
        assert forall|id: Id| #[trigger] groups_ms(gs).count(id) <= 1 by {
            if groups_ms(front).count(id) > 0 && row.to_multiset().count(id) > 0 {
                lemma_groups_ms_position(front, id);
                let (g, k) = choose|g: int, k: int|
                    0 <= g < front.len() && 0 <= k < front[g]@.len() && (
                    #[trigger] front[g]@[k]).1 == id;
                assert(row.contains(id));
                let k2 = choose|k2: int| 0 <= k2 < row.len() && row[k2] == id;
                assert(front[g] == gs[g]);
                assert((gs[g]@[k]).1 == id && (gs[gs.len() - 1]@[k2]).1 == id);
                assert(false);
            }
            if row.to_multiset().count(id) > 1 {
                assert(row.to_multiset().count(id) <= 1);
            }
        }
    }
}

/// Where a transfer record sends the player: the first occupied cell among
/// the left, right, upper and lower neighbours of the record's nominal
/// destination — the level data offsets the landing tile by one cell.
pub open spec fn spec_target_transfer(maps: Seq<MapView>, t: Id) -> Option<(u8, Seq<u8>)> {
    match t.spec_sprite(maps) {
        Some(sd) => if sd.1.len() >= 3 {
            let i = spec_find_map(maps, sd.1[0]);
            if i >= 0 {
                let tx = sd.1[1] as int;
                let ty = sd.1[2] as int;
                if tx >= 1 && spec_cell(maps[i], tx - 1, ty) is Some {
                    spec_cell(maps[i], tx - 1, ty)
                } else if spec_cell(maps[i], tx + 1, ty) is Some {
                    spec_cell(maps[i], tx + 1, ty)
                } else if ty >= 1 && spec_cell(maps[i], tx, ty - 1) is Some {
                    spec_cell(maps[i], tx, ty - 1)
                } else if spec_cell(maps[i], tx, ty + 1) is Some {
                    spec_cell(maps[i], tx, ty + 1)
                } else {
                    None
                }
            } else {
                None
            }
        } else {
            None
        },
        None => None,
    }
}

/// Resolves a transfer slot's landing record, as `spec_target_transfer`
/// names it; failing to find one is a world/logic mismatch.
pub fn find_target_transfer(maps: &Vec<WorldMap>, t: Id) -> (r: Result<
    SpriteData,
    crate::logic::WorldMismatch,
>)
    ensures
        match r {
            Ok(sd) => spec_target_transfer(maps_view(maps@), t) == Some(sd@),
            Err(e) => spec_target_transfer(maps_view(maps@), t) is None && e
                == crate::logic::WorldMismatch::BadTransfer,
        },
{
    let ghost mv = maps_view(maps@);
    let mi = match crate::world::find_map(maps, t.map) {
        Some(mi) => mi,
        None => {
            return Err(crate::logic::WorldMismatch::BadTransfer);
        },
    };
    let sd = match t.sprite(maps) {
        Some(sd) => sd,
        None => {
            return Err(crate::logic::WorldMismatch::BadTransfer);
        },
    };
    if sd.extra_bytes.len() < 3 {
        return Err(crate::logic::WorldMismatch::BadTransfer);
    }
    let tm = sd.extra_bytes[0];
    let tx = sd.extra_bytes[1] as usize;
    let ty = sd.extra_bytes[2] as usize;
    let ti = match crate::world::find_map(maps, tm) {
        Some(ti) => ti,
        None => {
            return Err(crate::logic::WorldMismatch::BadTransfer);
        },
    };
    let target_map = &maps[ti];
    if tx >= 1 {
        if let Some(found) = target_map.sprite(tx - 1, ty) {
            return Ok(found.duplicate());
        }
    }
    if let Some(found) = target_map.sprite(tx + 1, ty) {
        return Ok(found.duplicate());
    }
    if ty >= 1 {
        if let Some(found) = target_map.sprite(tx, ty - 1) {
            return Ok(found.duplicate());
        }
    }
    if let Some(found) = target_map.sprite(tx, ty + 1) {
        return Ok(found.duplicate());
    }
    Err(crate::logic::WorldMismatch::BadTransfer)
}

/// Every declared transfer slot resolves to a landing record that is itself
/// a transfer record.
pub open spec fn transfers_ok(maps: Seq<MapView>, logic: Logic) -> bool {
    forall|id: Id| logic.spec_transfer_ids().contains(id) ==> {
        let got = #[trigger] spec_target_transfer(maps, id);
        got is Some && got->Some_0.0 == 0
    }
}

/// Whether the world can realize every transfer slot, as `transfers_ok`
/// names it.
pub fn validate_transfers(maps: &Vec<WorldMap>, logic: &Logic) -> (r: bool)
    ensures
        r == transfers_ok(maps_view(maps@), *logic),
{
    let ids = logic.transfer_ids();
    let mut i: usize = 0;
    while i < ids.len()
        invariant
            i <= ids@.len(),
            ids@ == logic.spec_transfer_ids(),
            forall|k: int| 0 <= k < i ==> {
                let got = #[trigger] spec_target_transfer(maps_view(maps@), ids@[k]);
                got is Some && got->Some_0.0 == 0
            },
        decreases ids@.len() - i,
    {
        match find_target_transfer(maps, ids[i]) {
            Ok(sd) => {
                if sd.kind != 0 {
                    proof {
                        assert(ids@.contains(ids@[i as int]));
                    }
                    return false;
                }
            },
            Err(_) => {
                proof {
                    assert(ids@.contains(ids@[i as int]));
                }
                return false;
            },
        }
        i = i + 1;
    }
    proof {
        assert forall|id: Id| logic.spec_transfer_ids().contains(id) implies {
            let got = #[trigger] spec_target_transfer(maps_view(maps@), id);
            got is Some && got->Some_0.0 == 0
        } by {
            let k = choose|k: int| 0 <= k < ids@.len() && ids@[k] == id;
            assert(spec_target_transfer(maps_view(maps@), ids@[k]) is Some);
        }
    }
    true
}

/// Groups ready for pairing: each still holds at least two slots, each pair
/// genuine.
pub open spec fn groups_wf(logic: Logic, gs: Seq<Vec<(usize, Id)>>) -> bool {
    &&& forall|g: int| 0 <= g < gs.len() ==> (#[trigger] gs[g])@.len() >= 2
    &&& forall|g: int, k: int|
        0 <= g < gs.len() && 0 <= k < gs[g]@.len() ==> tpair_ok(logic, #[trigger] gs[g]@[k])
}

pub open spec fn ends_wf(logic: Logic, ends: Seq<(usize, Id)>) -> bool {
    forall|k: int| 0 <= k < ends.len() ==> tpair_ok(logic, #[trigger] ends[k])
}

/// The transfer slots still awaiting a partner.
pub open spec fn free_ms(gs: Seq<Vec<(usize, Id)>>, ends: Seq<(usize, Id)>) -> Multiset<Id> {
    groups_ms(gs).add(ends_ms(ends))
}

/// Picks a pairing partner from a random remaining group, moving a group
/// that falls to one slot out to the ends; with no group left, the last
/// lone end may still serve.
fn choose_target(
    logic: &Logic,
    groups: &mut Vec<Vec<(usize, Id)>>,
    ends: &mut Vec<(usize, Id)>,
    rng: &mut Pcg64Mcg,
) -> (r: Option<(usize, Id)>)
    requires
        groups_wf(*logic, old(groups)@),
        ends_wf(*logic, old(ends)@),
    ensures
        groups_wf(*logic, final(groups)@),
        ends_wf(*logic, final(ends)@),
        match r {
            Some(p) => tpair_ok(*logic, p) && free_ms(old(groups)@, old(ends)@).count(p.1) > 0
                && free_ms(final(groups)@, final(ends)@) == free_ms(
                old(groups)@,
                old(ends)@,
            ).remove(p.1),
            None => final(groups)@ == old(groups)@ && final(ends)@ == old(ends)@ && old(
                groups,
            )@.len() == 0 && old(ends)@.len() != 1,
        },
{
    broadcast use vstd::seq_lib::group_to_multiset_ensures;

    if groups.len() == 0 {
        if ends.len() == 1 {
            let ghost ends0 = ends@;
            let p = ends.remove(0);
            proof {
                assert(ends@ =~= Seq::<(usize, Id)>::empty());
                assert(ends0.map_values(|q: (usize, Id)| q.1) =~= seq![p.1]);
                assert(ends_ms(ends0) =~= Multiset::empty().insert(p.1));
                assert(ends_ms(ends@) =~= Multiset::<Id>::empty());
                assert(free_ms(groups@, ends@) =~= free_ms(groups@, ends0).remove(p.1));
            }
            return Some(p);
        }
        return None;
    }
    let ghost gs0 = groups@;
    let ghost ends0 = ends@;
    let gi = rng_below(rng, groups.len());
    let mut group = groups.swap_remove(gi);
    proof {
        lemma_groups_ms_update(gs0, gi as int, gs0[gs0.len() - 1]);
        assert(groups@ =~= gs0.update(gi as int, gs0[gs0.len() - 1]).drop_last());
        assert(gs0.update(gi as int, gs0[gs0.len() - 1]).last() == gs0[gs0.len() - 1]);
        assert forall|id: Id| #[trigger] groups_ms(groups@).count(id) == groups_ms(gs0).count(id)
            - row_ids(gs0[gi as int]).to_multiset().count(id) by {
            assert(groups_ms(gs0.update(gi as int, gs0[gs0.len() - 1])).count(id) == groups_ms(
                gs0,
            ).count(id) - row_ids(gs0[gi as int]).to_multiset().count(id) + row_ids(
                gs0[gs0.len() - 1],
            ).to_multiset().count(id));
            assert(groups_ms(gs0.update(gi as int, gs0[gs0.len() - 1])) == groups_ms(
                groups@,
            ).add(row_ids(gs0[gs0.len() - 1]).to_multiset()));
        }
    }
    let ghost row0 = row_ids(group);
    let pi = rng_below(rng, group.len());
    let target = group.remove(pi);
    proof {
        assert(row_ids(group) =~= row0.remove(pi as int));
        assert(row_ids(group).to_multiset() == row0.to_multiset().remove(target.1));
        assert(row0.to_multiset().count(target.1) > 0) by {
            assert(row0[pi as int] == target.1);
            assert(row0.contains(target.1));
        }
        lemma_groups_ms_member(gs0, gi as int, pi as int);
    }
    if group.len() >= 2 {
        let ghost gs1 = groups@;
        let ghost grow = row_ids(group);
        groups.push(group);
        proof {
            lemma_groups_ms_push(gs1, groups@[groups@.len() - 1]);
            assert(free_ms(groups@, ends@) =~= free_ms(gs0, ends0).remove(target.1));
        }
        return Some(target);
    }
    proof {
        assert(group@.len() == 1);
    }
    let ghost row_a = row_ids(group);
    let lastp = group.remove(0);
    proof {
        assert(row_a.len() == 1);
        assert(row_a[0] == lastp.1);
        assert(row_a =~= seq![lastp.1]);
        assert(row_a.to_multiset() =~= Multiset::empty().insert(lastp.1));
    }
    let ghost ends1 = ends@;
    ends.push(lastp);
    proof {
        assert(ends@.map_values(|q: (usize, Id)| q.1) =~= ends1.map_values(
            |q: (usize, Id)| q.1,
        ).push(lastp.1));
        assert(ends_ms(ends@) == ends_ms(ends1).insert(lastp.1));
        assert(row0.to_multiset() == row_a.to_multiset().insert(target.1)) by {
            assert(row_a.to_multiset() == row0.to_multiset().remove(target.1));
            assert(row0.to_multiset().count(target.1) > 0);
            assert(row0.to_multiset() =~= row0.to_multiset().remove(target.1).insert(target.1));
        }
        assert(free_ms(groups@, ends@) =~= free_ms(gs0, ends0).remove(target.1));
    }
    Some(target)
}

/// An attempt-local failure: the groups ran out before every transfer slot
/// found a partner; the caller retries with fresh randomness.
#[derive(Clone, Copy, PartialEq, Eq, Structural, Debug)]
pub enum TransferError {
    Unmatched,
}

/// A copy of a group's pairs.
fn copy_pairs(src: &Vec<(usize, Id)>) -> (r: Vec<(usize, Id)>)
    ensures
        r@ == src@,
{
    let mut out: Vec<(usize, Id)> = Vec::new();
    let mut i: usize = 0;
    while i < src.len()
        invariant
            i <= src@.len(),
            out@ == src@.take(i as int),
        decreases src@.len() - i,
    {
        out.push(src[i]);
        proof {
            assert(src@.take(i + 1) =~= src@.take(i as int).push(src@[i as int]));
        }
        i = i + 1;
    }
    proof {
        assert(src@.take(src@.len() as int) =~= src@);
    }
    out
}

impl crate::seed::Seed {
    /// Randomly pairs up all transfer slots, ends first, records the
    /// bidirectional area mapping, and writes each slot's new landing record
    /// into the seed. Runs out of partners only on an odd topology, which
    /// fails the attempt.
    pub fn generate_transfers(
        &mut self,
        maps: &Vec<WorldMap>,
        logic: &Logic,
        rng: &mut Pcg64Mcg,
    ) -> (r: Result<Vec<(Id, usize)>, TransferError>)
        requires
            logic.wf(),
            transfers_ok(maps_view(maps@), *logic),
        ensures
            match r {
                Ok(tr) => {
                    &&& forall|id: Id| logic.spec_transfer_ids().contains(id) ==> {
                        let got = #[trigger] crate::reach::assoc_get(tr@, id);
                        got is Some && (got->Some_0 as int) < logic.areas@.len()
                    }
                    &&& forall|id: Id| logic.spec_transfer_ids().contains(id)
                        ==> #[trigger] crate::generator::placed_transfer(
                        final(self).placements@,
                        id,
                    )
                    &&& final(self).placements@.len() >= old(self).placements@.len()
                    &&& final(self).placements@.take(old(self).placements@.len() as int) == old(
                        self,
                    ).placements@
                    &&& forall|j: int|
                        old(self).placements@.len() <= j < final(self).placements@.len() ==> {
                            let p = #[trigger] final(self).placements@[j];
                            logic.spec_transfer_ids().contains(p.0) && p.1@.0 == 0
                        }
                    &&& forall|j1: int, j2: int|
                        old(self).placements@.len() <= j1 < j2 < final(self).placements@.len()
                            ==> (#[trigger] final(self).placements@[j1]).0 != (
                        #[trigger] final(self).placements@[j2]).0
                },
                Err(_) => logic.spec_transfer_ids().len() > 0,
            },
    {
        broadcast use vstd::seq_lib::group_to_multiset_ensures;

        let ghost n = logic.areas@.len();
        let ghost old_len = self.placements@.len();
        let raw = logic.transfer_groups();
        proof {
            lemma_groups_ms_distinct(raw@);
        }
        let mut groups: Vec<Vec<(usize, Id)>> = Vec::new();
        let mut ends: Vec<(usize, Id)> = Vec::new();
        let mut gi: usize = 0;
        while gi < raw.len()
            invariant
                gi <= raw@.len(),
                logic.wf(),
                n == logic.areas@.len(),
                forall|g: int, k: int|
                    0 <= g < raw@.len() && 0 <= k < raw@[g]@.len() ==> tpair_ok(
                        *logic,
                        #[trigger] raw@[g]@[k],
                    ),
                forall|g: int| 0 <= g < raw@.len() ==> (#[trigger] raw@[g])@.len() >= 1,
                groups_wf(*logic, groups@),
                ends_wf(*logic, ends@),
                forall|id: Id| #[trigger] free_ms(groups@, ends@).count(id) == groups_ms(
                    raw@.take(gi as int),
                ).count(id),
            decreases raw@.len() - gi,
        {
            let g = copy_pairs(&raw[gi]);
            proof {
                assert(raw@.take(gi + 1).drop_last() =~= raw@.take(gi as int));
                assert(raw@.take(gi + 1).last() == raw@[gi as int]);
            }
            if g.len() == 1 {
                let ghost ends0 = ends@;
                let first = g[0];
                ends.push(first);
                proof {
                    assert(ends@.map_values(|q: (usize, Id)| q.1) =~= ends0.map_values(
                        |q: (usize, Id)| q.1,
                    ).push(first.1));
                    assert(row_ids(raw@[gi as int]) =~= Seq::<Id>::empty().push(first.1));
                    Seq::<Id>::empty().to_multiset_ensures();
                    assert(Seq::<Id>::empty().to_multiset() =~= Multiset::<Id>::empty()) by {
                        assert(Seq::<Id>::empty().to_multiset().len() == 0);
                        assert forall|x: Id| Seq::<Id>::empty().to_multiset().count(x) == 0 by {
                            vstd::multiset::axiom_count_le_len(
                                Seq::<Id>::empty().to_multiset(),
                                x,
                            );
                        }
                    }
                    assert(Seq::<Id>::empty().push(first.1).to_multiset() =~= Multiset::empty()
                        .insert(first.1));
                    assert(row_ids(raw@[gi as int]).to_multiset() =~= Multiset::empty().insert(
                        first.1,
                    ));
                    ends0.map_values(|q: (usize, Id)| q.1).to_multiset_ensures();
                    assert(ends_ms(ends@) == ends_ms(ends0).insert(first.1));
                    assert forall|id: Id| #[trigger] free_ms(groups@, ends@).count(id)
                        == groups_ms(raw@.take(gi + 1)).count(id) by {
                        assert(free_ms(groups@, ends0).count(id) == groups_ms(raw@.take(
                            gi as int,
                        )).count(id));
                        assert(groups_ms(raw@.take(gi + 1)) == groups_ms(raw@.take(
                            gi as int,
                        )).add(row_ids(raw@[gi as int]).to_multiset()));
                    }
                }
            } else {
                let ghost gs0 = groups@;
                groups.push(g);
                proof {
                    lemma_groups_ms_push(gs0, groups@[groups@.len() - 1]);
                    assert(row_ids(groups@[groups@.len() - 1]) =~= row_ids(raw@[gi as int]));
                    assert forall|id: Id| #[trigger] free_ms(groups@, ends@).count(id)
                        == groups_ms(raw@.take(gi + 1)).count(id) by {
                        assert(free_ms(gs0, ends@).count(id) == groups_ms(raw@.take(
                            gi as int,
                        )).count(id));
                        assert(groups_ms(raw@.take(gi + 1)) == groups_ms(raw@.take(
                            gi as int,
                        )).add(row_ids(raw@[gi as int]).to_multiset()));
                        assert(groups_ms(groups@) == groups_ms(gs0).add(
                            row_ids(groups@[groups@.len() - 1]).to_multiset(),
                        ));
                    }
                }
            }
            gi = gi + 1;
        }
        proof {
            assert(raw@.take(raw@.len() as int) =~= raw@);
            assert forall|id: Id| logic.spec_transfer_ids().contains(id) implies free_ms(
                groups@,
                ends@,
            ).count(id) > 0 by {
                let rows = logic.areas@.map_values(|ar: Area| ar.transfers@);
                lemma_flatten_contains_inv(rows, id);
                let (x, ti) = choose|x: int, ti: int|
                    0 <= x < rows.len() && 0 <= ti < rows[x].len() && #[trigger] rows[x][ti]
                        == id;
                assert(group_has(raw@, (x as usize, logic.areas@[x].transfers@[ti])));
                reveal(group_has);
                let (g, k) = choose|g: int, k: int|
                    0 <= g < raw@.len() && 0 <= k < raw@[g]@.len() && (#[trigger] raw@[g]@[k])
                        == (x as usize, logic.areas@[x].transfers@[ti]);
                lemma_groups_ms_member(raw@, g, k);
            }
        }
        let mut paired: Vec<(Id, usize)> = Vec::new();
        loop
            invariant
                logic.wf(),
                transfers_ok(maps_view(maps@), *logic),
                n == logic.areas@.len(),
                groups_wf(*logic, groups@),
                ends_wf(*logic, ends@),
                forall|id: Id| #[trigger] free_ms(groups@, ends@).count(id) <= 1,
                forall|id: Id| logic.spec_transfer_ids().contains(id) ==> free_ms(
                    groups@,
                    ends@,
                ).count(id) > 0 || {
                    let got = #[trigger] crate::reach::assoc_get(paired@, id);
                    got is Some && (got->Some_0 as int) < n
                        && crate::generator::placed_transfer(self.placements@, id)
                },
                forall|k: int| 0 <= k < paired@.len() ==> free_ms(groups@, ends@).count(
                    (#[trigger] paired@[k]).0,
                ) == 0,
                old_len <= self.placements@.len(),
                self.placements@.take(old_len as int) == old(self).placements@,
                old_len == old(self).placements@.len(),
                forall|j: int|
                    old_len <= j < self.placements@.len() ==> {
                        let p = #[trigger] self.placements@[j];
                        logic.spec_transfer_ids().contains(p.0) && p.1@.0 == 0 && free_ms(
                            groups@,
                            ends@,
                        ).count(p.0) == 0
                    },
                forall|j1: int, j2: int|
                    old_len <= j1 < j2 < self.placements@.len() ==> (
                    #[trigger] self.placements@[j1]).0 != (#[trigger] self.placements@[j2]).0,
            ensures
                groups@.len() == 0 && ends@.len() == 0,
                forall|id: Id| logic.spec_transfer_ids().contains(id) ==> free_ms(
                    groups@,
                    ends@,
                ).count(id) > 0 || {
                    let got = #[trigger] crate::reach::assoc_get(paired@, id);
                    got is Some && (got->Some_0 as int) < n
                        && crate::generator::placed_transfer(self.placements@, id)
                },
                old_len <= self.placements@.len(),
                self.placements@.take(old_len as int) == old(self).placements@,
                forall|j: int|
                    old_len <= j < self.placements@.len() ==> {
                        let p = #[trigger] self.placements@[j];
                        logic.spec_transfer_ids().contains(p.0) && p.1@.0 == 0
                    },
                forall|j1: int, j2: int|
                    old_len <= j1 < j2 < self.placements@.len() ==> (
                    #[trigger] self.placements@[j1]).0 != (#[trigger] self.placements@[j2]).0,
            decreases free_ms(groups@, ends@).len(),
        {
            let ghost free0 = free_ms(groups@, ends@);
            let source = match choose_source(logic, &mut groups, &mut ends, rng) {
                Some(source) => source,
                None => {
                    break;
                },
            };
            let ghost free1 = free_ms(groups@, ends@);
            let target = match choose_target(logic, &mut groups, &mut ends, rng) {
                Some(target) => target,
                None => {
                    proof {
                        lemma_pair_in_transfer_ids(*logic, source);
                        assert(logic.spec_transfer_ids().contains(source.1));
                        assert(logic.spec_transfer_ids().len() > 0);
                    }
                    return Err(TransferError::Unmatched);
                },
            };
            let ghost free2 = free_ms(groups@, ends@);
            proof {
                assert(free1 == free0.remove(source.1));
                assert(free2 == free1.remove(target.1));
                assert(free1.count(source.1) == 0);
                assert(free2.count(source.1) == 0 && free2.count(target.1) == 0);
                assert(source.1 != target.1);
                lemma_pair_in_transfer_ids(*logic, source);
                lemma_pair_in_transfer_ids(*logic, target);
            }
            let data_source = match find_target_transfer(maps, target.1) {
                Ok(sd) => sd,
                Err(_) => unreached(),
            };
            let data_target = match find_target_transfer(maps, source.1) {
                Ok(sd) => sd,
                Err(_) => unreached(),
            };
            let ghost paired0 = paired@;
            paired.insert(0, (source.1, target.0));
            paired.insert(0, (target.1, source.0));
            proof {
                let p1 = paired@.drop_first();
                assert(p1 =~= paired0.insert(0, (source.1, target.0)));
                assert(p1.drop_first() =~= paired0);
                lemma_assoc_prepend(p1, paired0, (source.1, target.0));
                lemma_assoc_prepend(paired@, p1, (target.1, source.0));
            }
            let ghost seed0 = self.placements@;
            self.push((source.1, data_source));
            let ghost seed1 = self.placements@;
            self.push((target.1, data_target));
            proof {
                crate::generator::lemma_placements_push(seed0, (source.1, data_source));
                crate::generator::lemma_placements_push(seed1, (target.1, data_target));
                assert(seed1 == seed0.push((source.1, data_source)));
                assert(self.placements@ == seed1.push((target.1, data_target)));
                assert(data_source.kind == 0 && data_target.kind == 0);
                assert(crate::generator::placed_transfer(self.placements@, source.1));
                assert(crate::generator::placed_transfer(self.placements@, target.1));
                assert(self.placements@.take(old_len as int) =~= seed0.take(old_len as int));
                vstd::multiset::axiom_len_sub(free0, Multiset::empty().insert(source.1));
                vstd::multiset::axiom_len_sub(free1, Multiset::empty().insert(target.1));
                assert(free0.remove(source.1) == free0.sub(Multiset::empty().insert(source.1)));
            }
        }
        proof {
            assert(groups@.len() == 0 && ends@.len() == 0);
            assert forall|id: Id| #[trigger] free_ms(groups@, ends@).count(id) == 0 by {
                assert(groups_ms(groups@) =~= Multiset::<Id>::empty());
                assert(ends@.map_values(|q: (usize, Id)| q.1) =~= Seq::<Id>::empty());
                assert(ends_ms(ends@) =~= Multiset::<Id>::empty());
            }
            assert forall|id: Id| logic.spec_transfer_ids().contains(id)
                implies #[trigger] crate::generator::placed_transfer(
                self.placements@,
                id,
            ) by {
                assert(free_ms(groups@, ends@).count(id) == 0);
                assert(crate::reach::assoc_get(paired@, id) is Some
                    && crate::generator::placed_transfer(self.placements@, id));
            }
        }
        Ok(paired)
    }
}

/// A genuine pair's slot is one of the graph's declared transfer slots.
pub proof fn lemma_pair_in_transfer_ids(logic: Logic, p: (usize, Id))
    requires
        tpair_ok(logic, p),
    ensures
        logic.spec_transfer_ids().contains(p.1),
{
    let rows = logic.areas@.map_values(|ar: Area| ar.transfers@);
    let ti = choose|ti: int|
        0 <= ti < logic.areas@[p.0 as int].transfers@.len() && (
        #[trigger] logic.areas@[p.0 as int].transfers@[ti]) == p.1;
    crate::logic::lemma_flatten_contains(rows, p.0 as int, ti);
}

/// A prepended entry shadows nothing but its own key.
pub proof fn lemma_assoc_prepend(
    entries: Seq<(Id, usize)>,
    tail: Seq<(Id, usize)>,
    e: (Id, usize),
)
    requires
        entries.len() == tail.len() + 1,
        entries[0] == e,
        entries.drop_first() == tail,
    ensures
        crate::reach::assoc_get(entries, e.0) == Some(e.1),
        forall|other: Id| other != e.0 ==> crate::reach::assoc_get(entries, other)
            == crate::reach::assoc_get(tail, other),
{
    assert(crate::reach::assoc_find(entries, e.0) == 0);
    assert forall|other: Id| other != e.0 implies crate::reach::assoc_get(entries, other)
        == crate::reach::assoc_get(tail, other) by {
        if crate::reach::assoc_find(tail, other) >= 0 {
            crate::reach::lemma_assoc_find(tail, other);
            assert(crate::reach::assoc_find(entries, other) == crate::reach::assoc_find(
                tail,
                other,
            ) + 1);
            assert(entries[crate::reach::assoc_find(tail, other) + 1] == tail[
                crate::reach::assoc_find(tail, other)]);
        } else {
            assert(crate::reach::assoc_find(entries, other) < 0);
        }
    }
}

/// Picks the next slot to pair: an end while any remains, else any remaining
/// group member.
fn choose_source(
    logic: &Logic,
    groups: &mut Vec<Vec<(usize, Id)>>,
    ends: &mut Vec<(usize, Id)>,
    rng: &mut Pcg64Mcg,
) -> (r: Option<(usize, Id)>)
    requires
        groups_wf(*logic, old(groups)@),
        ends_wf(*logic, old(ends)@),
    ensures
        groups_wf(*logic, final(groups)@),
        ends_wf(*logic, final(ends)@),
        match r {
            Some(p) => tpair_ok(*logic, p) && free_ms(old(groups)@, old(ends)@).count(p.1) > 0
                && free_ms(final(groups)@, final(ends)@) == free_ms(
                old(groups)@,
                old(ends)@,
            ).remove(p.1),
            None => final(groups)@ == old(groups)@ && final(ends)@ == old(ends)@ && old(
                groups,
            )@.len() == 0 && old(ends)@.len() == 0,
        },
{
    broadcast use vstd::seq_lib::group_to_multiset_ensures;

    if ends.len() == 0 {
        let r = choose_target(logic, groups, ends, rng);
        proof {
            if r is None {
                assert(ends@.len() == 0);
            }
        }
        return r;
    }
    let ghost ends0 = ends@;
    let ei = rng_below(rng, ends.len());
    let p = ends.remove(ei);
    proof {
        assert(ends@ =~= ends0.remove(ei as int));
        assert(ends@.map_values(|q: (usize, Id)| q.1) =~= ends0.map_values(
            |q: (usize, Id)| q.1,
        ).remove(ei as int));
        assert(ends0.map_values(|q: (usize, Id)| q.1)[ei as int] == p.1);
        assert(ends_ms(ends@) == ends_ms(ends0).remove(p.1));
        assert(ends_ms(ends0).count(p.1) > 0) by {
            assert(ends0.map_values(|q: (usize, Id)| q.1).contains(p.1));
        }
        assert(free_ms(groups@, ends@) =~= free_ms(groups@, ends0).remove(p.1));
    }
    Some(p)
}

} // verus!

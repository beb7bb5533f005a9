//! Reachability: translates symbolic requirements into item-cost clauses and
//! computes, as a worklist fixpoint from the Spawn area, the set of item
//! locations obtainable while the pool still holds back its items.

use vstd::prelude::*;
use vstd::multiset::Multiset;

use crate::id::Id;
use crate::logic::{Logic, Requirement, Requirements};
use crate::pool::Pool;
use crate::sprite::{Collectible, Gear, Sprite};

verus! {

/// The first index of `entries` keyed by `id`, or -1.
pub open spec fn assoc_find<V>(entries: Seq<(Id, V)>, id: Id) -> int
    decreases entries.len(),
{
    if entries.len() == 0 {
        -1
    } else if entries[0].0 == id {
        0
    } else {
        let rest = assoc_find(entries.drop_first(), id);
        if rest < 0 {
            -1
        } else {
            rest + 1
        }
    }
}

/// The value keyed by `id`, behind its first entry.
pub open spec fn assoc_get<V>(entries: Seq<(Id, V)>, id: Id) -> Option<V> {
    let k = assoc_find(entries, id);
    if k >= 0 {
        Some(entries[k].1)
    } else {
        None
    }
}

/// What `assoc_find` returns: the least index keyed by `id`, or -1.
pub proof fn lemma_assoc_find<V>(entries: Seq<(Id, V)>, id: Id)
    ensures
        assoc_find(entries, id) >= 0 ==> {
            let k = assoc_find(entries, id);
            &&& k < entries.len()
            &&& entries[k].0 == id
            &&& forall|j: int| 0 <= j < k ==> (#[trigger] entries[j]).0 != id
        },
        assoc_find(entries, id) < 0 ==> forall|j: int|
            0 <= j < entries.len() ==> (#[trigger] entries[j]).0 != id,
    decreases entries.len(),
{
    if entries.len() > 0 && entries[0].0 != id {
        lemma_assoc_find(entries.drop_first(), id);
        assert forall|j: int| 1 <= j < entries.len() implies entries[j]
            == entries.drop_first()[j - 1] by {}
    }
}

/// An index keyed by `id`, before which none is, is what `assoc_find` names.
pub proof fn lemma_assoc_find_at<V>(entries: Seq<(Id, V)>, id: Id, i: int)
    requires
        0 <= i < entries.len(),
        entries[i].0 == id,
        forall|j: int| 0 <= j < i ==> (#[trigger] entries[j]).0 != id,
    ensures
        assoc_find(entries, id) == i,
    decreases entries.len(),
{
    if i > 0 {
        assert forall|j: int| 0 <= j < i - 1 implies (#[trigger] entries.drop_first()[j]).0
            != id by {
            assert(entries.drop_first()[j] == entries[j + 1]);
        }
        lemma_assoc_find_at(entries.drop_first(), id, i - 1);
    }
}

/// Looks `id` up among the entries, as `assoc_get` names it.
pub fn assoc_lookup<'a, V>(entries: &'a Vec<(Id, V)>, id: Id) -> (r: Option<&'a V>)
    ensures
        match r {
            Some(v) => assoc_get(entries@, id) == Some(*v),
            None => assoc_get(entries@, id) is None,
        },
{
    proof {
        lemma_assoc_find(entries@, id);
    }
    let mut i: usize = 0;
    while i < entries.len()
        invariant
            i <= entries@.len(),
            forall|j: int| 0 <= j < i ==> (#[trigger] entries@[j]).0 != id,
        decreases entries@.len() - i,
    {
        if entries[i].0 == id {
            proof {
                lemma_assoc_find_at(entries@, id, i as int);
            }
            return Some(&entries[i].1);
        }
        i = i + 1;
    }
    None
}

/// The table mapping each symbolic requirement to the item-cost clauses that
/// discharge it; per-location entries are filled by the blind shuffle.
pub struct RequirementMap {
    pub ring_requirement: Vec<Vec<Sprite>>,
    pub charm_requirement: Vec<Vec<Sprite>>,
    pub shield_requirement: Vec<Vec<Sprite>>,
    pub id_requirements: Vec<(Id, Vec<Vec<Sprite>>)>,
}

/// One clause is met when the pool still holds back all its sprites, with
/// multiplicity.
pub open spec fn clause_met(clause: Seq<Sprite>, pool: Multiset<Sprite>) -> bool {
    clause.to_multiset().subset_of(pool)
}

/// A cost table entry is met when any of its clauses is.
pub open spec fn clauses_met(clauses: Seq<Vec<Sprite>>, pool: Multiset<Sprite>) -> bool {
    exists|i: int| 0 <= i < clauses.len() && clause_met((#[trigger] clauses[i])@, pool)
}

/// One requirement atom, resolved against the cost table and the pool.
pub open spec fn req_met(rm: RequirementMap, req: Requirement, pool: Multiset<Sprite>) -> bool {
    match req {
        Requirement::Ring => clauses_met(rm.ring_requirement@, pool),
        Requirement::Charm => clauses_met(rm.charm_requirement@, pool),
        Requirement::Shield => clauses_met(rm.shield_requirement@, pool),
        Requirement::Swords(n) => pool.count(Sprite::Collectible(Collectible::Sword)) >= n,
        Requirement::Gems(n) => pool.count(Sprite::Collectible(Collectible::Gem)) >= n,
        Requirement::Id(id) => match assoc_get(rm.id_requirements@, id) {
            Some(clauses) => clauses_met(clauses@, pool),
            None => false,
        },
    }
}

/// A conjunction of requirement atoms.
pub open spec fn conj_met(rm: RequirementMap, conj: Seq<Requirement>, pool: Multiset<Sprite>) -> bool {
    forall|j: int| 0 <= j < conj.len() ==> req_met(rm, #[trigger] conj[j], pool)
}

/// A full requirement: any conjunction met.
pub open spec fn reqs_met(rm: RequirementMap, reqs: Seq<Vec<Requirement>>, pool: Multiset<Sprite>) -> bool {
    exists|i: int| 0 <= i < reqs.len() && conj_met(rm, (#[trigger] reqs[i])@, pool)
}

impl RequirementMap {
    /// Seeds the fixed single-item clauses for ring, charm and shield, and a
    /// free placeholder clause for every declared item location.
    pub fn new(logic: &Logic) -> (r: RequirementMap)
        ensures
            r.ring_requirement@.len() == 1 && r.ring_requirement@[0]@ == seq![
                Sprite::Gear(Gear::WindRing),
            ],
            r.charm_requirement@.len() == 1 && r.charm_requirement@[0]@ == seq![
                Sprite::Gear(Gear::LavaCharm),
            ],
            r.shield_requirement@.len() == 1 && r.shield_requirement@[0]@ == seq![
                Sprite::Collectible(Collectible::Shield),
            ],
            r.id_requirements@.len() == logic.spec_item_ids().len(),
            forall|k: int| 0 <= k < r.id_requirements@.len() ==> {
                &&& (#[trigger] r.id_requirements@[k]).0 == logic.spec_item_ids()[k]
                &&& r.id_requirements@[k].1@.len() == 1
                &&& r.id_requirements@[k].1@[0]@.len() == 0
            },
    {
        let mut ring_requirement: Vec<Vec<Sprite>> = Vec::new();
        let mut ring_clause: Vec<Sprite> = Vec::new();
        ring_clause.push(Sprite::Gear(Gear::WindRing));
        ring_requirement.push(ring_clause);
        let mut charm_requirement: Vec<Vec<Sprite>> = Vec::new();
        let mut charm_clause: Vec<Sprite> = Vec::new();
        charm_clause.push(Sprite::Gear(Gear::LavaCharm));
        charm_requirement.push(charm_clause);
        let mut shield_requirement: Vec<Vec<Sprite>> = Vec::new();
        let mut shield_clause: Vec<Sprite> = Vec::new();
        shield_clause.push(Sprite::Collectible(Collectible::Shield));
        shield_requirement.push(shield_clause);
        let ids = logic.items();
        let mut id_requirements: Vec<(Id, Vec<Vec<Sprite>>)> = Vec::new();
        let mut k: usize = 0;
        while k < ids.len()
            invariant
                k <= ids@.len(),
                ids@ == logic.spec_item_ids(),
                id_requirements@.len() == k,
                forall|j: int| 0 <= j < k ==> {
                    &&& (#[trigger] id_requirements@[j]).0 == ids@[j]
                    &&& id_requirements@[j].1@.len() == 1
                    &&& id_requirements@[j].1@[0]@.len() == 0
                },
            decreases ids@.len() - k,
        {
            let mut clauses: Vec<Vec<Sprite>> = Vec::new();
            clauses.push(Vec::new());
            id_requirements.push((ids[k], clauses));
            k = k + 1;
        }
        RequirementMap { ring_requirement, charm_requirement, shield_requirement, id_requirements }
    }

    /// Binds `id` to its concrete gate cost; the new entry shadows any
    /// earlier one, and every other location keeps its cost.
    pub fn insert(&mut self, id: Id, clauses: Vec<Vec<Sprite>>)
        ensures
            final(self).ring_requirement == old(self).ring_requirement,
            final(self).charm_requirement == old(self).charm_requirement,
            final(self).shield_requirement == old(self).shield_requirement,
            final(self).id_requirements@ == old(self).id_requirements@.insert(
                0,
                (id, clauses),
            ),
            assoc_get(final(self).id_requirements@, id) == Some(clauses),
            forall|other: Id| other != id ==> assoc_get(
                final(self).id_requirements@,
                other,
            ) == assoc_get(old(self).id_requirements@, other),
    {
        self.id_requirements.insert(0, (id, clauses));
        proof {
            let entries = self.id_requirements@;
            let olde = old(self).id_requirements@;
            assert(entries.drop_first() =~= olde);
            assert(entries[0] == (id, clauses));
            assert(assoc_find(entries, id) == 0);
            assert forall|other: Id| other != id implies assoc_get(entries, other) == assoc_get(
                olde,
                other,
            ) by {
                if assoc_find(olde, other) >= 0 {
                    lemma_assoc_find(olde, other);
                    assert(assoc_find(entries, other) == assoc_find(olde, other) + 1);
                    assert(entries[assoc_find(olde, other) + 1] == olde[assoc_find(olde, other)]);
                } else {
                    assert(assoc_find(entries, other) < 0);
                }
            }
        }
    }
}

/// Monotonicity: what a smaller pool lets through, a larger pool does too.
pub proof fn lemma_req_met_monotone(
    rm: RequirementMap,
    req: Requirement,
    p1: Multiset<Sprite>,
    p2: Multiset<Sprite>,
)
    requires
        p1.subset_of(p2),
        req_met(rm, req, p1),
    ensures
        req_met(rm, req, p2),
{
    match req {
        Requirement::Ring => lemma_clauses_met_monotone(rm.ring_requirement@, p1, p2),
        Requirement::Charm => lemma_clauses_met_monotone(rm.charm_requirement@, p1, p2),
        Requirement::Shield => lemma_clauses_met_monotone(rm.shield_requirement@, p1, p2),
        Requirement::Swords(n) => {
            assert(p1.count(Sprite::Collectible(Collectible::Sword)) <= p2.count(
                Sprite::Collectible(Collectible::Sword),
            ));
        },
        Requirement::Gems(n) => {
            assert(p1.count(Sprite::Collectible(Collectible::Gem)) <= p2.count(
                Sprite::Collectible(Collectible::Gem),
            ));
        },
        Requirement::Id(id) => {
            match assoc_get(rm.id_requirements@, id) {
                Some(clauses) => lemma_clauses_met_monotone(clauses@, p1, p2),
                None => {},
            }
        },
    }
}

pub proof fn lemma_clauses_met_monotone(
    clauses: Seq<Vec<Sprite>>,
    p1: Multiset<Sprite>,
    p2: Multiset<Sprite>,
)
    requires
        p1.subset_of(p2),
        clauses_met(clauses, p1),
    ensures
        clauses_met(clauses, p2),
{
    let i = choose|i: int| 0 <= i < clauses.len() && clause_met((#[trigger] clauses[i])@, p1);
    assert(clause_met(clauses[i]@, p2));
}

pub proof fn lemma_reqs_met_monotone(
    rm: RequirementMap,
    reqs: Seq<Vec<Requirement>>,
    p1: Multiset<Sprite>,
    p2: Multiset<Sprite>,
)
    requires
        p1.subset_of(p2),
        reqs_met(rm, reqs, p1),
    ensures
        reqs_met(rm, reqs, p2),
{
    let i = choose|i: int| 0 <= i < reqs.len() && conj_met(rm, (#[trigger] reqs[i])@, p1);
    assert forall|j: int| 0 <= j < reqs[i]@.len() implies req_met(rm, #[trigger] reqs[i]@[j], p2) by {
        lemma_req_met_monotone(rm, reqs[i]@[j], p1, p2);
    }
    assert(conj_met(rm, reqs[i]@, p2));
}

/// The reachability engine: the realized transfer pairing (each transfer
/// slot to its target area) and the requirement cost table.
pub struct Reach {
    pub transfers: Vec<(Id, usize)>,
    pub requirement_map: RequirementMap,
}

/// One step of travel under a fixed pool: a path whose requirement is met,
/// or a transfer slot resolved through the pairing.
pub open spec fn spec_edge(
    logic: Logic,
    tr: Seq<(Id, usize)>,
    rm: RequirementMap,
    pool: Multiset<Sprite>,
    a: int,
    b: int,
) -> bool {
    &&& 0 <= a < logic.areas@.len()
    &&& 0 <= b < logic.areas@.len()
    &&& ((exists|p: int|
        0 <= p < logic.areas@[a].paths@.len() && (#[trigger] logic.areas@[a].paths@[p]).0 == b
            && reqs_met(rm, logic.areas@[a].paths@[p].1@, pool)) || (exists|t: int|
        0 <= t < logic.areas@[a].transfers@.len() && assoc_get(
            tr,
            #[trigger] logic.areas@[a].transfers@[t],
        ) == Some(b as usize)))
}

/// A walk from Spawn, edge by edge.
pub open spec fn spec_chain(
    logic: Logic,
    tr: Seq<(Id, usize)>,
    rm: RequirementMap,
    pool: Multiset<Sprite>,
    ch: Seq<int>,
) -> bool {
    &&& ch.len() > 0
    &&& ch[0] == logic.spawn as int
    &&& forall|k: int| 0 <= k < ch.len() - 1 ==> spec_edge(
        logic,
        tr,
        rm,
        pool,
        #[trigger] ch[k],
        ch[k + 1],
    )
}

/// An area some walk from Spawn ends at.
pub open spec fn area_reached(
    logic: Logic,
    tr: Seq<(Id, usize)>,
    rm: RequirementMap,
    pool: Multiset<Sprite>,
    a: int,
) -> bool {
    exists|ch: Seq<int>| spec_chain(logic, tr, rm, pool, ch) && ch.last() == a
}

/// An item location inside a reached area whose own requirement is met.
pub open spec fn item_reached(
    logic: Logic,
    tr: Seq<(Id, usize)>,
    rm: RequirementMap,
    pool: Multiset<Sprite>,
    id: Id,
) -> bool {
    exists|a: int, k: int|
        area_reached(logic, tr, rm, pool, a) && 0 <= a < logic.areas@.len() && 0 <= k
            < logic.areas@[a].items@.len() && (#[trigger] logic.areas@[a].items@[k]).0 == id
            && reqs_met(rm, logic.areas@[a].items@[k].1@, pool)
}

/// Spawn itself is always reached.
pub proof fn lemma_spawn_reached(
    logic: Logic,
    tr: Seq<(Id, usize)>,
    rm: RequirementMap,
    pool: Multiset<Sprite>,
)
    ensures
        area_reached(logic, tr, rm, pool, logic.spawn as int),
{
    let ch = seq![logic.spawn as int];
    assert(spec_chain(logic, tr, rm, pool, ch));
    assert(ch.last() == logic.spawn as int);
}

/// A reached area's outgoing edge reaches its target.
pub proof fn lemma_area_reached_step(
    logic: Logic,
    tr: Seq<(Id, usize)>,
    rm: RequirementMap,
    pool: Multiset<Sprite>,
    a: int,
    b: int,
)
    requires
        area_reached(logic, tr, rm, pool, a),
        spec_edge(logic, tr, rm, pool, a, b),
    ensures
        area_reached(logic, tr, rm, pool, b),
{
    let ch = choose|ch: Seq<int>| spec_chain(logic, tr, rm, pool, ch) && ch.last() == a;
    let ch2 = ch.push(b);
    assert forall|k: int| 0 <= k < ch2.len() - 1 implies spec_edge(
        logic,
        tr,
        rm,
        pool,
        #[trigger] ch2[k],
        ch2[k + 1],
    ) by {
        if k < ch.len() - 1 {
            assert(ch2[k] == ch[k] && ch2[k + 1] == ch[k + 1]);
            assert(spec_edge(logic, tr, rm, pool, ch[k], ch[k + 1]));
        } else {
            assert(ch2[k] == a && ch2[k + 1] == b);
        }
    }
    assert(spec_chain(logic, tr, rm, pool, ch2) && ch2.last() == b);
}

/// Once the visited set is closed under edges and holds Spawn, every walk
/// from Spawn ends inside it.
pub proof fn lemma_chain_stays_visited(
    logic: Logic,
    tr: Seq<(Id, usize)>,
    rm: RequirementMap,
    pool: Multiset<Sprite>,
    visited: Seq<bool>,
    ch: Seq<int>,
)
    requires
        logic.wf(),
        visited.len() == logic.areas@.len(),
        visited[logic.spawn as int],
        forall|a: int, b: int|
            0 <= a < visited.len() && visited[a] && spec_edge(logic, tr, rm, pool, a, b)
                ==> visited[b],
        spec_chain(logic, tr, rm, pool, ch),
    ensures
        0 <= ch.last() < visited.len(),
        visited[ch.last()],
    decreases ch.len(),
{
    if ch.len() == 1 {
        assert(ch.last() == logic.spawn as int);
    } else {
        let front = ch.drop_last();
        assert forall|k: int| 0 <= k < front.len() - 1 implies spec_edge(
            logic,
            tr,
            rm,
            pool,
            #[trigger] front[k],
            front[k + 1],
        ) by {
            assert(front[k] == ch[k] && front[k + 1] == ch[k + 1]);
            assert(spec_edge(logic, tr, rm, pool, ch[k], ch[k + 1]));
        }
        assert(spec_chain(logic, tr, rm, pool, front));
        lemma_chain_stays_visited(logic, tr, rm, pool, visited, front);
        assert(spec_edge(logic, tr, rm, pool, ch[ch.len() - 2], ch[ch.len() - 1]));
    }
}

/// Monotonicity of the whole reach: an item reached while the pool holds
/// back less is reached while it holds back more.
pub proof fn lemma_item_reached_monotone(
    logic: Logic,
    tr: Seq<(Id, usize)>,
    rm: RequirementMap,
    p1: Multiset<Sprite>,
    p2: Multiset<Sprite>,
    id: Id,
)
    requires
        p1.subset_of(p2),
        item_reached(logic, tr, rm, p1, id),
    ensures
        item_reached(logic, tr, rm, p2, id),
{
    let (a, k) = choose|a: int, k: int|
        area_reached(logic, tr, rm, p1, a) && 0 <= a < logic.areas@.len() && 0 <= k
            < logic.areas@[a].items@.len() && (#[trigger] logic.areas@[a].items@[k]).0 == id
            && reqs_met(rm, logic.areas@[a].items@[k].1@, p1);
    let ch = choose|ch: Seq<int>| spec_chain(logic, tr, rm, p1, ch) && ch.last() == a;
    assert forall|j: int| 0 <= j < ch.len() - 1 implies spec_edge(
        logic,
        tr,
        rm,
        p2,
        #[trigger] ch[j],
        ch[j + 1],
    ) by {
        assert(spec_edge(logic, tr, rm, p1, ch[j], ch[j + 1]));
        let x = ch[j];
        let y = ch[j + 1];
        if exists|p: int|
            0 <= p < logic.areas@[x].paths@.len() && (#[trigger] logic.areas@[x].paths@[p]).0 == y
                && reqs_met(rm, logic.areas@[x].paths@[p].1@, p1) {
            let p = choose|p: int|
                0 <= p < logic.areas@[x].paths@.len() && (#[trigger] logic.areas@[x].paths@[p]).0
                    == y && reqs_met(rm, logic.areas@[x].paths@[p].1@, p1);
            lemma_reqs_met_monotone(rm, logic.areas@[x].paths@[p].1@, p1, p2);
        }
    }
    assert(spec_chain(logic, tr, rm, p2, ch));
    assert(area_reached(logic, tr, rm, p2, a));
    lemma_reqs_met_monotone(rm, logic.areas@[a].items@[k].1@, p1, p2);
    assert(reqs_met(rm, logic.areas@[a].items@[k].1@, p2));
}

/// How many entries of a flag row are set.
pub open spec fn count_true(s: Seq<bool>) -> int
    decreases s.len(),
{
    if s.len() == 0 {
        0
    } else {
        count_true(s.drop_last()) + if s.last() {
            1int
        } else {
            0int
        }
    }
}

pub proof fn lemma_count_true_bounds(s: Seq<bool>)
    ensures
        0 <= count_true(s) <= s.len(),
    decreases s.len(),
{
    if s.len() > 0 {
        lemma_count_true_bounds(s.drop_last());
    }
}

/// Setting a clear flag raises the count by one.
pub proof fn lemma_count_true_set(s: Seq<bool>, i: int)
    requires
        0 <= i < s.len(),
        !s[i],
    ensures
        count_true(s.update(i, true)) == count_true(s) + 1,
    decreases s.len(),
{
    let s2 = s.update(i, true);
    if i == s.len() - 1 {
        assert(s2.drop_last() =~= s.drop_last());
    } else {
        assert(s2.drop_last() =~= s.drop_last().update(i, true));
        lemma_count_true_set(s.drop_last(), i);
    }
}

/// A pushed element joins the sequence without evicting any other.
pub proof fn lemma_push_keeps<T>(s: Seq<T>, x: T, y: T)
    requires
        s.contains(y),
    ensures
        s.push(x).contains(y),
{
    let k = choose|k: int| 0 <= k < s.len() && s[k] == y;
    assert(s.push(x)[k] == y);
}

/// Whether the list holds this location.
pub fn contains_id(v: &Vec<Id>, id: Id) -> (r: bool)
    ensures
        r == v@.contains(id),
{
    let mut i: usize = 0;
    while i < v.len()
        invariant
            i <= v@.len(),
            forall|k: int| 0 <= k < i ==> v@[k] != id,
        decreases v@.len() - i,
    {
        if v[i] == id {
            return true;
        }
        i = i + 1;
    }
    false
}

impl Reach {
    /// The pairing resolves every transfer slot the graph declares, to an
    /// area inside the graph.
    pub open spec fn covers(self, logic: Logic) -> bool {
        forall|a: int, t: int|
            0 <= a < logic.areas@.len() && 0 <= t < logic.areas@[a].transfers@.len() ==> {
                let got = assoc_get(self.transfers@, (#[trigger] logic.areas@[a].transfers@[t]));
                got is Some && got->Some_0 < logic.areas@.len()
            }
    }

    /// The worklist fixpoint from Spawn: exactly the item locations some
    /// walk reaches whose own requirement the pool meets, each once. It
    /// mutates nothing; callers decide when to recompute.
    #[verifier::rlimit(100)]
    pub fn reach(&self, logic: &Logic, pool: &Pool) -> (r: Vec<Id>)
        requires
            logic.wf(),
            self.covers(*logic),
        ensures
            r@.no_duplicates(),
            forall|id: Id| #[trigger] r@.contains(id) <==> item_reached(
                *logic,
                self.transfers@,
                self.requirement_map,
                pool@,
                id,
            ),
    {
        let ghost tr = self.transfers@;
        let ghost rm = self.requirement_map;
        let n = logic.areas.len();
        let mut visited: Vec<bool> = vec![false; n];
        let mut stack: Vec<usize> = Vec::new();
        stack.push(logic.spawn);
        proof {
            lemma_spawn_reached(*logic, tr, rm, pool@);
            lemma_count_true_bounds(visited@);
            assert(stack@[0] == logic.spawn);
            assert(stack@.contains(logic.spawn));
        }
        while stack.len() > 0
            invariant
                logic.wf(),
                self.covers(*logic),
                tr == self.transfers@,
                rm == self.requirement_map,
                n == logic.areas@.len(),
                visited@.len() == n,
                0 <= count_true(visited@) <= n,
                forall|k: int| 0 <= k < stack@.len() ==> (#[trigger] stack@[k]) < n
                    && area_reached(*logic, tr, rm, pool@, stack@[k] as int),
                forall|a: int| 0 <= a < n && visited@[a] ==> area_reached(
                    *logic,
                    tr,
                    rm,
                    pool@,
                    a,
                ),
                visited@[logic.spawn as int] || stack@.contains(logic.spawn),
                forall|a: int, b: int|
                    0 <= a < n && visited@[a] && spec_edge(*logic, tr, rm, pool@, a, b)
                        ==> visited@[b] || stack@.contains(b as usize),
            decreases n - count_true(visited@), stack@.len(),
        {
            let ghost stack0 = stack@;
            let a = match stack.pop() {
                Some(a) => a,
                None => unreached(),
            };
            proof {
                assert(stack0[stack0.len() - 1] == a);
                assert(stack@ =~= stack0.drop_last());
            }
            if visited[a] {
                proof {
                    assert forall|x: int, b: int|
                        0 <= x < n && visited@[x] && spec_edge(*logic, tr, rm, pool@, x, b)
                            implies visited@[b] || stack@.contains(b as usize) by {
                        if !visited@[b] {
                            let k = choose|k: int|
                                0 <= k < stack0.len() && stack0[k] == b as usize;
                            if k < stack0.len() - 1 {
                                assert(stack@[k] == b as usize);
                            } else {
                                assert(b as usize == a);
                            }
                        }
                    }
                    if !visited@[logic.spawn as int] {
                        let k = choose|k: int|
                            0 <= k < stack0.len() && stack0[k] == logic.spawn;
                        if k < stack0.len() - 1 {
                            assert(stack@[k] == logic.spawn);
                        } else {
                            assert(logic.spawn == a);
                        }
                    }
                }
                continue;
            }
            let ghost visited0 = visited@;
            visited[a] = true;
            proof {
                lemma_count_true_set(visited0, a as int);
                lemma_count_true_bounds(visited@);
                assert(visited@ =~= visited0.update(a as int, true));
            }
            let ghost marked = visited@;
            proof {
                assert forall|x: int, b: int|
                    0 <= x < n && visited0[x] && spec_edge(*logic, tr, rm, pool@, x, b)
                        implies visited@[b] || stack@.contains(b as usize) by {
                    if !visited0[b] {
                        let k = choose|k: int| 0 <= k < stack0.len() && stack0[k] == b as usize;
                        if k < stack0.len() - 1 {
                            assert(stack@[k] == b as usize);
                        } else {
                            assert(b as usize == a);
                        }
                    }
                }
                if !visited0[logic.spawn as int] {
                    let k = choose|k: int| 0 <= k < stack0.len() && stack0[k] == logic.spawn;
                    if k < stack0.len() - 1 {
                        assert(stack@[k] == logic.spawn);
                    } else {
                        assert(logic.spawn == a);
                    }
                }
            }
            let area = logic.get_area(a);
            let mut p: usize = 0;
            while p < area.paths.len()
                invariant
                    logic.wf(),
                    self.covers(*logic),
                    tr == self.transfers@,
                    rm == self.requirement_map,
                    n == logic.areas@.len(),
                    p <= area.paths@.len(),
                    a < n,
                    area == logic.areas@[a as int],
                    visited@ == marked,
                    marked[a as int],
                    visited@.len() == n,
                    area_reached(*logic, tr, rm, pool@, a as int),
                    forall|k: int| 0 <= k < stack@.len() ==> (#[trigger] stack@[k]) < n
                        && area_reached(*logic, tr, rm, pool@, stack@[k] as int),
                    visited@[logic.spawn as int] || stack@.contains(logic.spawn),
                    forall|x: int, b: int|
                        0 <= x < n && visited0[x] && spec_edge(*logic, tr, rm, pool@, x, b)
                            ==> visited@[b] || stack@.contains(b as usize),
                    forall|q: int|
                        0 <= q < p && reqs_met(rm, (#[trigger] area.paths@[q]).1@, pool@)
                            ==> stack@.contains(area.paths@[q].0),
                decreases area.paths@.len() - p,
            {
                let ghost before = stack@;
                let met = is_met(&self.requirement_map, &area.paths[p].1, pool);
                if met {
                    let b = area.paths[p].0;
                    proof {
                        assert(spec_edge(*logic, tr, rm, pool@, a as int, b as int));
                        lemma_area_reached_step(*logic, tr, rm, pool@, a as int, b as int);
                    }
                    stack.push(b);
                    proof {
                        assert forall|y: usize| before.contains(y) implies stack@.contains(
                            y,
                        ) by {
                            lemma_push_keeps(before, b, y);
                        }
                        assert(stack@[stack@.len() - 1] == b);
                    }
                }
                p = p + 1;
            }
            let mut t: usize = 0;
            while t < area.transfers.len()
                invariant
                    logic.wf(),
                    self.covers(*logic),
                    tr == self.transfers@,
                    rm == self.requirement_map,
                    n == logic.areas@.len(),
                    t <= area.transfers@.len(),
                    a < n,
                    area == logic.areas@[a as int],
                    visited@ == marked,
                    marked[a as int],
                    visited@.len() == n,
                    area_reached(*logic, tr, rm, pool@, a as int),
                    forall|k: int| 0 <= k < stack@.len() ==> (#[trigger] stack@[k]) < n
                        && area_reached(*logic, tr, rm, pool@, stack@[k] as int),
                    visited@[logic.spawn as int] || stack@.contains(logic.spawn),
                    forall|x: int, b: int|
                        0 <= x < n && visited0[x] && spec_edge(*logic, tr, rm, pool@, x, b)
                            ==> visited@[b] || stack@.contains(b as usize),
                    forall|q: int|
                        0 <= q < area.paths@.len() && reqs_met(
                            rm,
                            (#[trigger] area.paths@[q]).1@,
                            pool@,
                        ) ==> stack@.contains(area.paths@[q].0),
                    forall|q: int| 0 <= q < t ==> stack@.contains(
                        assoc_get(tr, (#[trigger] area.transfers@[q]))->Some_0,
                    ),
                decreases area.transfers@.len() - t,
            {
                let ghost before = stack@;
                let slot = area.transfers[t];
                let b = match assoc_lookup(&self.transfers, slot) {
                    Some(b) => *b,
                    None => unreached(),
                };
                proof {
                    assert(spec_edge(*logic, tr, rm, pool@, a as int, b as int));
                    lemma_area_reached_step(*logic, tr, rm, pool@, a as int, b as int);
                }
                stack.push(b);
                proof {
                    assert forall|y: usize| before.contains(y) implies stack@.contains(y) by {
                        lemma_push_keeps(before, b, y);
                    }
                    assert(stack@[stack@.len() - 1] == b);
                }
                t = t + 1;
            }
            proof {
                assert forall|x: int, b: int|
                    0 <= x < n && visited@[x] && spec_edge(*logic, tr, rm, pool@, x, b)
                        implies visited@[b] || stack@.contains(b as usize) by {
                    if x != a as int {
                        assert(visited0[x]);
                    } else if !visited@[b] {
                        assert(spec_edge(*logic, tr, rm, pool@, a as int, b));
                        if exists|q: int|
                            0 <= q < area.paths@.len() && (#[trigger] area.paths@[q]).0 == b
                                && reqs_met(rm, area.paths@[q].1@, pool@) {
                            let q = choose|q: int|
                                0 <= q < area.paths@.len() && (#[trigger] area.paths@[q]).0 == b
                                    && reqs_met(rm, area.paths@[q].1@, pool@);
                            assert(stack@.contains(area.paths@[q].0));
                        } else {
                            let q = choose|q: int|
                                0 <= q < area.transfers@.len() && assoc_get(
                                    tr,
                                    #[trigger] area.transfers@[q],
                                ) == Some(b as usize);
                            assert(stack@.contains(
                                assoc_get(tr, area.transfers@[q])->Some_0,
                            ));
                        }
                    }
                }
            }
        }
        let ghost closed = visited@;
        let mut reached: Vec<Id> = Vec::new();
        let mut a: usize = 0;
        while a < n
            invariant
                logic.wf(),
                tr == self.transfers@,
                rm == self.requirement_map,
                n == logic.areas@.len(),
                a <= n,
                visited@ == closed,
                closed.len() == n,
                closed[logic.spawn as int],
                forall|x: int| 0 <= x < n && closed[x] ==> area_reached(*logic, tr, rm, pool@, x),
                forall|x: int, b: int|
                    0 <= x < n && closed[x] && spec_edge(*logic, tr, rm, pool@, x, b)
                        ==> closed[b],
                reached@.no_duplicates(),
                forall|id: Id| #[trigger] reached@.contains(id) ==> item_reached(
                    *logic,
                    tr,
                    rm,
                    pool@,
                    id,
                ),
                forall|b: int, k: int|
                    0 <= b < a && closed[b] && 0 <= k < logic.areas@[b].items@.len() && reqs_met(
                        rm,
                        (#[trigger] logic.areas@[b].items@[k]).1@,
                        pool@,
                    ) ==> reached@.contains(logic.areas@[b].items@[k].0),
            decreases n - a,
        {
            if visited[a] {
                let area = logic.get_area(a);
                let mut k: usize = 0;
                while k < area.items.len()
                    invariant
                        logic.wf(),
                        tr == self.transfers@,
                        rm == self.requirement_map,
                        n == logic.areas@.len(),
                        k <= area.items@.len(),
                        a < n,
                        area == logic.areas@[a as int],
                        visited@ == closed,
                        closed.len() == n,
                        closed[a as int],
                        forall|x: int| 0 <= x < n && closed[x] ==> area_reached(
                            *logic,
                            tr,
                            rm,
                            pool@,
                            x,
                        ),
                        reached@.no_duplicates(),
                        forall|id: Id| #[trigger] reached@.contains(id) ==> item_reached(
                            *logic,
                            tr,
                            rm,
                            pool@,
                            id,
                        ),
                        forall|b: int, j: int|
                            0 <= b < a && closed[b] && 0 <= j < logic.areas@[b].items@.len()
                                && reqs_met(
                                rm,
                                (#[trigger] logic.areas@[b].items@[j]).1@,
                                pool@,
                            ) ==> reached@.contains(logic.areas@[b].items@[j].0),
                        forall|j: int|
                            0 <= j < k && reqs_met(
                                rm,
                                (#[trigger] area.items@[j]).1@,
                                pool@,
                            ) ==> reached@.contains(area.items@[j].0),
                    decreases area.items@.len() - k,
                {
                    let met = is_met(&self.requirement_map, &area.items[k].1, pool);
                    if met {
                        let id = area.items[k].0;
                        if !contains_id(&reached, id) {
                            let ghost before = reached@;
                            reached.push(id);
                            proof {
                                assert forall|y: Id| before.contains(y) implies reached@.contains(
                                    y,
                                ) by {
                                    lemma_push_keeps(before, id, y);
                                }
                                assert(reached@[reached@.len() - 1] == id);
                                assert(area_reached(*logic, tr, rm, pool@, a as int));
                                assert(logic.areas@[a as int].items@[k as int].0 == id);
                                assert(reqs_met(
                                    rm,
                                    logic.areas@[a as int].items@[k as int].1@,
                                    pool@,
                                ));
                                assert(item_reached(*logic, tr, rm, pool@, id));
                                assert forall|y: Id| reached@.contains(y)
                                    implies item_reached(*logic, tr, rm, pool@, y) by {
                                    let j = choose|j: int|
                                        0 <= j < reached@.len() && reached@[j] == y;
                                    if j < reached@.len() - 1 {
                                        assert(before[j] == y);
                                        assert(before.contains(y));
                                    } else {
                                        assert(y == id);
                                    }
                                }
                            }
                        }
                    }
                    k = k + 1;
                }
            }
            a = a + 1;
        }
        proof {
            assert forall|id: Id| item_reached(*logic, tr, rm, pool@, id)
                implies reached@.contains(id) by {
                let (x, k) = choose|x: int, k: int|
                    area_reached(*logic, tr, rm, pool@, x) && 0 <= x < logic.areas@.len() && 0 <= k
                        < logic.areas@[x].items@.len()
                        && (#[trigger] logic.areas@[x].items@[k]).0 == id
                        && reqs_met(rm, logic.areas@[x].items@[k].1@, pool@);
                let ch = choose|ch: Seq<int>|
                    spec_chain(*logic, tr, rm, pool@, ch) && ch.last() == x;
                lemma_chain_stays_visited(*logic, tr, rm, pool@, closed, ch);
                assert(closed[x]);
            }
        }
        reached
    }
}

/// Whether any cost clause is met against the pool.
pub fn clauses_any(clauses: &Vec<Vec<Sprite>>, pool: &Pool) -> (r: bool)
    ensures
        r == clauses_met(clauses@, pool@),
{
    let mut i: usize = 0;
    while i < clauses.len()
        invariant
            i <= clauses@.len(),
            forall|j: int| 0 <= j < i ==> !clause_met((#[trigger] clauses@[j])@, pool@),
        decreases clauses@.len() - i,
    {
        if pool.contains_all(&clauses[i]) {
            return true;
        }
        i = i + 1;
    }
    false
}

/// Whether one requirement atom is met, as `req_met` names it.
pub fn req_satisfied(rm: &RequirementMap, req: &Requirement, pool: &Pool) -> (r: bool)
    ensures
        r == req_met(*rm, *req, pool@),
{
    match req {
        Requirement::Ring => clauses_any(&rm.ring_requirement, pool),
        Requirement::Charm => clauses_any(&rm.charm_requirement, pool),
        Requirement::Shield => clauses_any(&rm.shield_requirement, pool),
        Requirement::Swords(n) => pool.count(Sprite::Collectible(Collectible::Sword)) >= *n
            as usize,
        Requirement::Gems(n) => pool.count(Sprite::Collectible(Collectible::Gem)) >= *n as usize,
        Requirement::Id(id) => match assoc_lookup(&rm.id_requirements, *id) {
            Some(clauses) => clauses_any(clauses, pool),
            None => false,
        },
    }
}

/// Whether a full requirement is met, as `reqs_met` names it.
pub fn is_met(rm: &RequirementMap, reqs: &Requirements, pool: &Pool) -> (r: bool)
    ensures
        r == reqs_met(*rm, reqs@, pool@),
{
    let mut i: usize = 0;
    while i < reqs.len()
        invariant
            i <= reqs@.len(),
            forall|k: int| 0 <= k < i ==> !conj_met(*rm, (#[trigger] reqs@[k])@, pool@),
        decreases reqs@.len() - i,
    {
        let conj = &reqs[i];
        let mut j: usize = 0;
        let mut all = true;
        while j < conj.len()
            invariant
                j <= conj@.len(),
                conj@ == reqs@[i as int]@,
                all ==> forall|k: int| 0 <= k < j ==> req_met(*rm, #[trigger] conj@[k], pool@),
                !all ==> !conj_met(*rm, conj@, pool@),
            decreases conj@.len() - j,
        {
            if !req_satisfied(rm, &conj[j], pool) {
                proof {
                    assert(!req_met(*rm, conj@[j as int], pool@));
                }
                all = false;
            }
            j = j + 1;
        }
        if all {
            proof {
                assert(conj_met(*rm, reqs@[i as int]@, pool@));
            }
            return true;
        }
        i = i + 1;
    }
    false
}

} // verus!

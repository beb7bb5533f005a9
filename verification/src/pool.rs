//! The pool of yet-unplaced items: a multiset of sprites, mutated only by
//! removal during generation. An empty pool signals that generation is done.

use vstd::prelude::*;

use rand_pcg::Pcg64Mcg;
use vstd::multiset::Multiset;

use crate::rng::rng_below;
use crate::sprite::Sprite;

verus! {

broadcast use vstd::seq_lib::group_to_multiset_ensures;

/// The remaining multiset of not-yet-placed randomizable items.
pub struct Pool {
    pub items: Vec<Sprite>,
}

impl View for Pool {
    type V = Multiset<Sprite>;

    open spec fn view(&self) -> Multiset<Sprite> {
        self.items@.to_multiset()
    }
}

/// Generation fails an attempt when the pool cannot serve a filler item.
#[derive(Clone, Copy, PartialEq, Eq, Structural, Debug)]
pub enum PoolError {
    NoFiller,
}

impl Pool {
    pub fn len(&self) -> (r: usize)
        ensures
            r == self@.len(),
    {
        self.items.len()
    }

    pub fn is_empty(&self) -> (r: bool)
        ensures
            r == (self@.len() == 0),
    {
        self.items.len() == 0
    }

    /// How many copies of `s` the pool holds.
    pub fn count(&self, s: Sprite) -> (r: usize)
        ensures
            r == self@.count(s),
    {
        count_sprites(&self.items, s)
    }

    /// Whether the pool holds at least the requested quantity of every item
    /// in `items`, counted as a multiset.
    pub fn contains_all(&self, items: &Vec<Sprite>) -> (r: bool)
        ensures
            r == items@.to_multiset().subset_of(self@),
    {
        let mut k: usize = 0;
        while k < items.len()
            invariant
                k <= items@.len(),
                forall|s: Sprite| items@.take(k as int).to_multiset().contains(s)
                    ==> items@.to_multiset().count(s) <= #[trigger] self@.count(s),
            decreases items@.len() - k,
        {
            let s = items[k];
            let wanted = count_sprites(items, s);
            let have = self.count(s);
            if wanted > have {
                proof {
                    assert(items@.to_multiset().count(s) > self@.count(s));
                }
                return false;
            }
            proof {
                assert forall|t: Sprite| items@.take(k + 1).to_multiset().contains(t)
                    implies items@.to_multiset().count(t) <= #[trigger] self@.count(t) by {
                    assert(items@.take(k + 1) =~= items@.take(k as int).push(items@[k as int]));
                    if t != items@[k as int] {
                        assert(items@.take(k as int).to_multiset().contains(t));
                    }
                }
            }
            k = k + 1;
        }
        proof {
            assert(items@.take(items@.len() as int) =~= items@);
            assert forall|t: Sprite| true implies items@.to_multiset().count(t)
                <= self@.count(t) by {
                if items@.to_multiset().count(t) > 0 {
                    assert(items@.to_multiset().contains(t));
                }
            }
        }
        true
    }

    /// Removes one uniformly random item.
    pub fn choose_remove(&mut self, rng: &mut Pcg64Mcg) -> (r: Sprite)
        requires
            old(self)@.len() > 0,
        ensures
            old(self)@.count(r) > 0,
            final(self)@ == old(self)@.remove(r),
    {
        let i = rng_below(rng, self.items.len());
        self.items.remove(i)
    }

    /// Removes one uniformly random non-progression item, drawing and
    /// holding aside progression draws until one appears; the pool is left
    /// whole when it holds nothing but progression items.
    pub fn choose_remove_filler(&mut self, rng: &mut Pcg64Mcg) -> (r: Result<Sprite, PoolError>)
        ensures
            match r {
                Ok(s) => !s.spec_is_gear() && old(self)@.count(s) > 0 && final(self)@ == old(
                    self,
                )@.remove(s),
                Err(e) => e == PoolError::NoFiller && final(self)@ == old(self)@ && (forall|
                    s: Sprite,
                |
                    old(self)@.count(s) > 0 ==> s.spec_is_gear()),
            },
    {
        let ghost initial = self@;
        let mut skipped: Vec<Sprite> = Vec::new();
        loop
            invariant
                initial == old(self)@,
                self@.add(skipped@.to_multiset()) == initial,
                forall|k: int| 0 <= k < skipped@.len() ==> (#[trigger] skipped@[k]).spec_is_gear(),
            ensures
                self@.add(skipped@.to_multiset()) == initial,
                forall|k: int| 0 <= k < skipped@.len() ==> (#[trigger] skipped@[k]).spec_is_gear(),
                self@.len() == 0,
            decreases self@.len(),
        {
            if self.items.len() == 0 {
                break;
            }
            let ghost at_top = self@;
            let s = self.choose_remove(rng);
            proof {
                assert(initial.count(s) == at_top.count(s) + skipped@.to_multiset().count(s));
            }
            if s.is_gear() {
                skipped.push(s);
                proof {
                    assert(self@.add(skipped@.to_multiset()) =~= initial);
                }
            } else {
                let ghost kept = self.items@;
                let ghost held = skipped@;
                self.items.append(&mut skipped);
                proof {
                    vstd::seq_lib::lemma_multiset_commutative(kept, held);
                    assert(kept.to_multiset() == at_top.remove(s));
                    assert(self@ == kept.to_multiset().add(held.to_multiset()));
                    assert forall|t: Sprite| self@.count(t) == initial.remove(s).count(t) by {
                        assert(initial.count(t) == at_top.count(t) + held.to_multiset().count(t));
                    }
                    assert(self@ =~= initial.remove(s));
                    assert(initial.count(s) > 0);
                }
                return Ok(s);
            }
        }
        let ghost kept = self.items@;
        let ghost held = skipped@;
        self.items.append(&mut skipped);
        proof {
            vstd::seq_lib::lemma_multiset_commutative(kept, held);
            assert(self@ =~= initial);
            assert forall|s: Sprite| initial.count(s) > 0 implies s.spec_is_gear() by {
                assert(kept.len() == 0);
                assert(!kept.contains(s));
                assert(kept.to_multiset().count(s) == 0);
                assert(held.to_multiset().count(s) == initial.count(s));
                assert(held.to_multiset().contains(s));
                assert(held.contains(s));
            }
        }
        Err(PoolError::NoFiller)
    }
}

/// The sprite each declared item location holds.
pub open spec fn spec_item_sprites(
    maps: Seq<crate::world::MapView>,
    logic: crate::logic::Logic,
) -> Seq<Sprite> {
    logic.spec_item_ids().map_values(
        |id: crate::id::Id|
            Sprite::spec_of_kind(
                match id.spec_sprite(maps) {
                    Some(sd) => sd.0,
                    None => 0,
                },
            ),
    )
}

/// The pool a fresh generation attempt starts from: one sprite per declared
/// item location.
pub open spec fn spec_initial_pool(
    maps: Seq<crate::world::MapView>,
    logic: crate::logic::Logic,
) -> Multiset<Sprite> {
    spec_item_sprites(maps, logic).to_multiset()
}

impl Pool {
    /// Builds the multiset by resolving every declared item location to its
    /// concrete world sprite; the world must hold true items there.
    pub fn new(logic: &crate::logic::Logic, maps: &Vec<crate::world::WorldMap>) -> (r: Pool)
        requires
            crate::logic::items_ok(crate::world::maps_view(maps@), *logic),
        ensures
            r@ == spec_initial_pool(crate::world::maps_view(maps@), *logic),
            forall|s: Sprite| r@.count(s) > 0 ==> s.spec_is_item(),
    {
        let ghost mapsv = crate::world::maps_view(maps@);
        let ids = logic.items();
        let mut items: Vec<Sprite> = Vec::new();
        let mut i: usize = 0;
        while i < ids.len()
            invariant
                i <= ids@.len(),
                ids@ == logic.spec_item_ids(),
                mapsv == crate::world::maps_view(maps@),
                crate::logic::items_ok(mapsv, *logic),
                items@ == spec_item_sprites(mapsv, *logic).take(i as int),
                forall|k: int| 0 <= k < i ==> (#[trigger] items@[k]).spec_is_item(),
            decreases ids@.len() - i,
        {
            let id = ids[i];
            proof {
                assert(ids@.contains(ids@[i as int]));
                assert(crate::logic::purge_keeps(mapsv, id));
            }
            let sd = match crate::world::find_map(maps, id.map) {
                Some(_) => match id.sprite(maps) {
                    Some(sd) => sd,
                    None => unreached(),
                },
                None => unreached(),
            };
            let sprite = Sprite::of_kind(sd.kind);
            items.push(sprite);
            proof {
                assert(items@ =~= spec_item_sprites(mapsv, *logic).take(i + 1));
            }
            i = i + 1;
        }
        proof {
            assert(spec_item_sprites(mapsv, *logic).take(ids@.len() as int) =~= spec_item_sprites(
                mapsv,
                *logic,
            ));
        }
        let pool = Pool { items };
        proof {
            assert forall|s: Sprite| pool@.count(s) > 0 implies s.spec_is_item() by {
                assert(pool.items@.to_multiset().contains(s));
                assert(pool.items@.contains(s));
            }
        }
        pool
    }
}

/// How many entries of `v` equal `s`.
pub fn count_sprites(v: &Vec<Sprite>, s: Sprite) -> (r: usize)
    ensures
        r == v@.to_multiset().count(s),
{
    let mut n: usize = 0;
    let mut i: usize = 0;
    while i < v.len()
        invariant
            i <= v@.len(),
            n == v@.take(i as int).to_multiset().count(s),
            n <= i,
        decreases v@.len() - i,
    {
        proof {
            assert(v@.take(i + 1) =~= v@.take(i as int).push(v@[i as int]));
        }
        if v[i] == s {
            n = n + 1;
        }
        i = i + 1;
    }
    proof {
        assert(v@.take(v@.len() as int) =~= v@);
    }
    n
}

} // verus!

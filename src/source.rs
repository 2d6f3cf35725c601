//! Random direction orderings for the carver, drawn from `rand`.
use vstd::prelude::*;
use rand::rngs::StdRng;
use rand::seq::SliceRandom;
use rand::SeedableRng;
use crate::carve::is_dir_order;
use crate::grid::Maze;
use crate::model::{carved, orders_view};

verus! {

#[verifier::external_type_specification]
#[verifier::external_body]
pub struct ExStdRng(StdRng);

/// Relies on `SeedableRng::try_from_os_rng`: a generator seeded from the
/// operating system's random source, or `None` when that source fails.
#[verifier::external_body]
fn try_entropy_source() -> Option<StdRng> {
    StdRng::try_from_os_rng().ok()
}

/// Relies on `SeedableRng::seed_from_u64`: a generator seeded from `seed`.
#[verifier::external_body]
fn seeded_source(seed: u64) -> StdRng {
    StdRng::seed_from_u64(seed)
}

/// Relies on `SliceRandom::shuffle`: it only swaps entries of the slice, so
/// the result holds the same entries.
#[verifier::external_body]
fn shuffle(rng: &mut StdRng, v: &mut Vec<u8>)
    ensures
        final(v)@.to_multiset() == old(v)@.to_multiset(),
{
    v.shuffle(rng)
}

/// A rearrangement of `0, 1, 2, 3` is an ordering of the four directions.
proof fn lemma_permutation_is_order(s: Seq<u8>)
    requires
        s.to_multiset() == seq![0u8, 1u8, 2u8, 3u8].to_multiset(),
    ensures
        is_dir_order(s),
{
    broadcast use vstd::seq_lib::to_multiset_contains;

    let base = seq![0u8, 1u8, 2u8, 3u8];
    base.to_multiset_ensures();
    s.to_multiset_ensures();
    assert forall|j: int| 0 <= j < 4 implies #[trigger] s[j] < 4 by {
        assert(s.contains(s[j]));
        assert(s.to_multiset().count(s[j]) > 0);
        assert(base.contains(s[j]));
    }
    assert forall|d: u8| d < 4 implies #[trigger] s.contains(d) by {
        if d == 0 {
            assert(base[0] == d);
        } else if d == 1 {
            assert(base[1] == d);
        } else if d == 2 {
            assert(base[2] == d);
        } else {
            assert(base[3] == d);
        }
        assert(base.contains(d));
        assert(base.to_multiset().count(d) > 0);
    }
}

/// `count` shuffled orderings of the four directions.
fn direction_orders(rng: &mut StdRng, count: usize) -> (r: Vec<Vec<u8>>)
    ensures
        r@.len() == count,
        forall|i: int| 0 <= i < count ==> is_dir_order(#[trigger] r@[i]@),
{
    let mut r: Vec<Vec<u8>> = Vec::new();
    let mut i: usize = 0;
    while i < count
        invariant
            i <= count,
            r@.len() == i,
            forall|k: int| 0 <= k < i ==> is_dir_order(#[trigger] r@[k]@),
        decreases count - i,
    {
        let mut ord: Vec<u8> = Vec::new();
        ord.push(0);
        ord.push(1);
        ord.push(2);
        ord.push(3);
        assert(ord@ =~= seq![0u8, 1u8, 2u8, 3u8]);
        shuffle(rng, &mut ord);
        proof {
            lemma_permutation_is_order(ord@);
        }
        r.push(ord);
        i = i + 1;
    }
    r
}

impl Maze {
    /// The registries are those that the depth-first walk leaves for some
    /// ordering of the four directions at each cell.
    pub open spec fn carved_by_some_orders(&self) -> bool {
        exists|ov: Seq<Seq<u8>>|
            ov.len() == self.width * self.height && (forall|i: int| 0 <= i < ov.len() ==> is_dir_order(#[trigger] ov[i]))
                && self.vert_view() == (#[trigger] carved(self.width as int, self.height as int, ov)).vert
                && self.hor_view() == carved(self.width as int, self.height as int, ov).hor
    }

    /// Carves the grid with direction orderings drawn from `rng`.
    fn generate_from(&mut self, rng: &mut StdRng)
        requires
            old(self).wf(),
            old(self).all_walls(),
        ensures
            final(self).wf(),
            final(self).width == old(self).width,
            final(self).height == old(self).height,
            final(self).is_spanning_tree(),
            final(self).carved_by_some_orders(),
    {
        let orders = direction_orders(rng, self.width * self.height);
        self.carve(&orders);
        proof {
            let ov = orders_view(orders@);
            assert forall|i: int| 0 <= i < ov.len() implies is_dir_order(#[trigger] ov[i]) by {
                assert(is_dir_order(orders@[i]@));
            }
        }
    }

    /// Carves a fully walled grid into a maze, with a fresh random ordering
    /// of the directions for each cell, seeded from the operating system.
    /// Returns `false`, leaving the grid as it was, when the operating
    /// system's random source fails.
    pub fn generate(&mut self) -> (ok: bool)
        requires
            old(self).wf(),
            old(self).all_walls(),
        ensures
            ok ==> final(self).wf() && final(self).width == old(self).width && final(self).height
                == old(self).height && final(self).is_spanning_tree()
                && final(self).carved_by_some_orders(),
            !ok ==> *final(self) == *old(self),
    {
        match try_entropy_source() {
            Some(mut rng) => {
                self.generate_from(&mut rng);
                true
            },
            None => false,
        }
    }

    /// Carves a fully walled grid into a maze, with the orderings drawn from
    /// a generator seeded with `seed`.
    pub fn generate_seeded(&mut self, seed: u64)
        requires
            old(self).wf(),
            old(self).all_walls(),
        ensures
            final(self).wf(),
            final(self).width == old(self).width,
            final(self).height == old(self).height,
            final(self).is_spanning_tree(),
            final(self).carved_by_some_orders(),
    {
        let mut rng = seeded_source(seed);
        self.generate_from(&mut rng);
    }
}

} // verus!

//! The growth loop: draw a frontier cell at random and annex it.
//!
//! The random draw is the one unverified step, kept behind a single
//! trusted wrapper that promises no more than a bound on the drawn index.
//! Everything after the draw — which cell the index names, and what the
//! annexation does to the shape — is verified for every index, so
//! [`grow_step`] pins the next shape as a function of the current cells
//! and the index alone, and a whole run is a function of its choices
//! ([`grow_run_spec`]).

use vstd::prelude::*;
use crate::frontier::{frontier, frontier_list};
use crate::group::{Group, CAPACITY};
use crate::square::Square;

verus! {

/// Relies on `rand::random_range`: a value drawn uniformly from the given
/// non-empty range by the thread-local generator. Nothing is assumed
/// beyond the bound; callers are verified for every index under it.
#[verifier::external_body]
fn sample_below(n: usize) -> (r: usize)
    requires
        1 <= n,
    ensures
        r < n,
{
    rand::random_range(0..n)
}

/// The cells after one growth step that draws index `idx`: the frontier
/// cell at `idx` (reduced modulo the frontier length) joins the shape.
pub open spec fn grow_step_spec(sq: Seq<Square>, idx: int) -> Seq<Square> {
    let f = frontier_list(sq);
    if f.len() == 0 {
        sq
    } else {
        sq.push(f[idx % (f.len() as int)])
    }
}

/// The cells after a run of growth steps drawing the indices `idxs` in
/// order. Growth is a function of the starting cells and the drawn
/// indices alone.
pub open spec fn grow_run_spec(sq: Seq<Square>, idxs: Seq<usize>) -> Seq<Square>
    decreases idxs.len(),
{
    if idxs.len() == 0 {
        sq
    } else {
        grow_run_spec(grow_step_spec(sq, idxs[0] as int), idxs.drop_first())
    }
}

/// Law: two runs from equal shapes that draw equal indices produce equal
/// shapes.
pub proof fn lemma_growth_deterministic(a: Seq<Square>, b: Seq<Square>, idxs: Seq<usize>)
    requires
        a == b,
    ensures
        grow_run_spec(a, idxs) == grow_run_spec(b, idxs),
{
}

impl Group {
    /// A uniformly random frontier cell; every candidate is eligible.
    pub fn random_surrounding_square(&self) -> (r: Square)
        requires
            self.wf(),
        ensures
            frontier(self@).contains(r),
    {
        let arr = self.surrounding_squares();
        let i = sample_below(arr.len());
        arr[i]
    }

    /// One growth step with a caller-chosen draw: annex the frontier cell
    /// at `idx`, reduced modulo the frontier length.
    pub fn grow_step(&mut self, idx: usize)
        requires
            old(self).wf(),
            old(self).cells().len() < CAPACITY,
        ensures
            final(self).wf(),
            final(self).cells() == grow_step_spec(old(self).cells(), idx as int),
            final(self)@.len() == old(self)@.len() + 1,
            old(self)@.subset_of(final(self)@),
            exists|c: Square|
                frontier(old(self)@).contains(c) && final(self)@ == old(self)@.insert(c),
    {
        let f = self.surrounding_squares();
        let i = idx % f.len();
        let c = f[i];
        proof {
            assert(f@.to_set().contains(c));
            assert(c == frontier_list(old(self).cells())[idx as int % (f@.len() as int)]);
        }
        self.insert_cell(c);
        proof {
            assert(old(self)@.subset_of(old(self)@.insert(c)));
        }
    }
}

/// Annex one uniformly chosen frontier cell.
pub fn add_random(group: &mut Group)
    requires
        old(group).wf(),
        old(group).cells().len() < CAPACITY,
    ensures
        final(group).wf(),
        final(group)@.len() == old(group)@.len() + 1,
        old(group)@.subset_of(final(group)@),
        exists|c: Square|
            frontier(old(group)@).contains(c) && final(group)@ == old(group)@.insert(c)
                && final(group).cells() == old(group).cells().push(c),
{
    let c = group.random_surrounding_square();
    group.insert_cell(c);
    proof {
        assert(old(group)@.subset_of(old(group)@.insert(c)));
    }
}

/// Run `steps` growth steps with random draws. Each step annexes exactly
/// one frontier cell, so the shape ends with `steps` more cells than it
/// began with, still containing everything it held before.
pub fn grow(group: &mut Group, steps: usize)
    requires
        old(group).wf(),
        old(group).cells().len() + steps <= CAPACITY,
    ensures
        final(group).wf(),
        final(group)@.len() == old(group)@.len() + steps,
        final(group).cells().len() == old(group).cells().len() + steps,
        old(group)@.subset_of(final(group)@),
{
    let mut i: usize = 0;
    while i < steps
        invariant
            group.wf(),
            0 <= i <= steps,
            group.cells().len() == old(group).cells().len() + i,
            group@.len() == old(group)@.len() + i,
            old(group).cells().len() + steps <= CAPACITY,
            old(group)@.subset_of(group@),
        decreases steps - i,
    {
        add_random(group);
        i += 1;
    }
}

/// Run one growth step for each drawn index in `idxs`, in order. The
/// final shape is pinned by [`grow_run_spec`]: equal starting shapes and
/// equal draws give equal results.
pub fn grow_with_choices(group: &mut Group, idxs: &Vec<usize>)
    requires
        old(group).wf(),
        old(group).cells().len() + idxs@.len() <= CAPACITY,
    ensures
        final(group).wf(),
        final(group).cells() == grow_run_spec(old(group).cells(), idxs@),
        final(group)@.len() == old(group)@.len() + idxs@.len(),
{
    let n = idxs.len();
    let mut i: usize = 0;
    proof {
        assert(idxs@.skip(0) == idxs@);
    }
    while i < n
        invariant
            group.wf(),
            0 <= i <= n,
            n == idxs@.len(),
            group.cells().len() == old(group).cells().len() + i,
            group@.len() == old(group)@.len() + i,
            old(group).cells().len() + n <= CAPACITY,
            grow_run_spec(group.cells(), idxs@.skip(i as int))
                == grow_run_spec(old(group).cells(), idxs@),
        decreases n - i,
    {
        let ghost pre = group.cells();
        let ghost rest = idxs@.skip(i as int);
        group.grow_step(idxs[i]);
        proof {
            assert(rest[0] == idxs@[i as int]);
            assert(rest.drop_first() == idxs@.skip(i + 1));
            assert(grow_run_spec(pre, rest)
                == grow_run_spec(grow_step_spec(pre, idxs@[i as int] as int), rest.drop_first()));
        }
        i += 1;
    }
    proof {
        assert(idxs@.skip(n as int).len() == 0);
        assert(grow_run_spec(group.cells(), idxs@.skip(n as int)) == group.cells());
    }
}

} // verus!

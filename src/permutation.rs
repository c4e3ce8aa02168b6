//! Which tile stands in which cell of the grid.
use vstd::prelude::*;
use rand::rngs::StdRng;
use rand::seq::SliceRandom;
use crate::PuzzleError;

verus! {

broadcast use vstd::seq_lib::group_to_multiset_ensures;

#[verifier::external_type_specification]
#[verifier::external_body]
pub struct ExStdRng(rand::rngs::StdRng);

/// Relies on rand's `SliceRandom::shuffle` for slices, which only exchanges
/// entries of the slice: what it holds afterwards is a rearrangement of
/// what it held before.
#[verifier::external_body]
fn shuffle_entries(cells: &mut Vec<usize>, rng: &mut StdRng)
    ensures
        final(cells)@.to_multiset() == old(cells)@.to_multiset(),
{
    cells.shuffle(rng);
}

/// The solved arrangement `[0, 1, ..., n - 1]`.
pub open spec fn identity_seq(n: nat) -> Seq<usize> {
    Seq::new(n, |i: int| i as usize)
}

/// `s` holds each of `0..n` exactly once.
pub open spec fn is_permutation(s: Seq<usize>, n: nat) -> bool {
    &&& s.len() == n
    &&& forall|i: int| 0 <= i < n ==> #[trigger] s[i] < n
    &&& s.no_duplicates()
}

/// `s` with the entries at `a` and `b` exchanged.
pub open spec fn swapped(s: Seq<usize>, a: int, b: int) -> Seq<usize> {
    s.update(a, s[b]).update(b, s[a])
}

/// A shuffled arrangement, which holds the same entries as
/// `[0, 1, ..., n - 1]` (sorted, it reads `0..n`), holds each of them exactly
/// once: it is a bijection on `0..n`.
pub proof fn lemma_rearranged_identity(s: Seq<usize>, n: nat)
    requires
        n <= usize::MAX + 1,
        s.to_multiset() == identity_seq(n).to_multiset(),
    ensures
        is_permutation(s, n),
{
    let id = identity_seq(n);
    assert(id.no_duplicates());
    id.lemma_multiset_has_no_duplicates();
    s.lemma_multiset_has_no_duplicates_conv();
    s.to_multiset_ensures();
    id.to_multiset_ensures();
    assert(s.len() == id.len());
    assert forall|i: int| 0 <= i < n implies #[trigger] s[i] < n by {
        assert(s.contains(s[i]));
        assert(s.to_multiset().count(s[i]) > 0);
        assert(id.to_multiset().count(s[i]) > 0);
        assert(id.contains(s[i]));
        let j = choose|j: int| 0 <= j < id.len() && id[j] == s[i];
    }
}

/// The arrangement of a `grid` by `grid` puzzle: `cells[i]` is the index of
/// the tile shown in cell `i`, cells and tiles both counted row by row.
pub struct Permutation {
    grid: usize,
    cells: Vec<usize>,
}

impl Permutation {
    pub closed spec fn grid_size(&self) -> nat {
        self.grid as nat
    }

    /// The tile index shown in each cell.
    pub closed spec fn view(&self) -> Seq<usize> {
        self.cells@
    }

    /// The number of cells, `grid * grid`.
    pub open spec fn cell_count(&self) -> nat {
        self.grid_size() * self.grid_size()
    }

    pub open spec fn wf(&self) -> bool {
        &&& self.grid_size() >= 2
        &&& self.cell_count() <= usize::MAX
        &&& is_permutation(self@, self.cell_count())
    }

    /// The arrangement is the solved one.
    pub open spec fn solved(&self) -> bool {
        self@ == identity_seq(self.cell_count())
    }

    /// The solved arrangement of a `grid` by `grid` puzzle.
    pub fn identity(grid: usize) -> (r: Permutation)
        requires
            grid >= 2,
            grid * grid <= usize::MAX,
        ensures
            r.wf(),
            r.grid_size() == grid,
            r@ == identity_seq(r.cell_count()),
    {
        let n: usize = grid * grid;
        let mut cells: Vec<usize> = Vec::with_capacity(n);
        let mut i: usize = 0;
        while i < n
            invariant
                i <= n,
                cells@ == identity_seq(i as nat),
            decreases n - i,
        {
            cells.push(i);
            i = i + 1;
            assert(cells@ =~= identity_seq(i as nat));
        }
        let r = Permutation { grid, cells };
        assert(r@.no_duplicates());
        r
    }

    /// A random arrangement drawn with `rng`. Every outcome holds each tile
    /// index exactly once; the solved arrangement is one possible outcome.
    pub fn new_shuffled(grid: usize, rng: &mut StdRng) -> (r: Permutation)
        requires
            grid >= 2,
            grid * grid <= usize::MAX,
        ensures
            r.wf(),
            r.grid_size() == grid,
            r@.to_multiset() == identity_seq(r.cell_count()).to_multiset(),
    {
        let mut r = Permutation::identity(grid);
        shuffle_entries(&mut r.cells, rng);
        proof {
            lemma_rearranged_identity(r@, r.cell_count());
        }
        r
    }

    /// The side of the grid.
    pub fn grid(&self) -> (r: usize)
        ensures
            r == self.grid_size(),
    {
        self.grid
    }

    /// The tile index shown in each cell, cell by cell.
    pub fn cells(&self) -> (r: &[usize])
        ensures
            r@ == self@,
    {
        self.cells.as_slice()
    }

    /// The tile index shown in cell `i`.
    pub fn tile_at_cell(&self, i: usize) -> (r: usize)
        requires
            i < self@.len(),
        ensures
            r == self@[i as int],
    {
        self.cells[i]
    }

    /// Exchanges the tiles of cells `a` and `b`. Fails, changing nothing,
    /// when either position lies outside the grid. `a == b` is allowed and
    /// changes nothing.
    pub fn swap(&mut self, a: usize, b: usize) -> (r: Result<(), PuzzleError>)
        requires
            old(self).wf(),
        ensures
            final(self).wf(),
            final(self).grid_size() == old(self).grid_size(),
            (a < old(self).cell_count() && b < old(self).cell_count()) <==> r.is_ok(),
            r.is_ok() ==> final(self)@ == swapped(old(self)@, a as int, b as int),
            r.is_err() ==> r == Err::<(), PuzzleError>(PuzzleError::IndexOutOfRange)
                && final(self)@ == old(self)@,
    {
        let n = self.cells.len();
        if a >= n || b >= n {
            return Err(PuzzleError::IndexOutOfRange);
        }
        let ta = self.cells[a];
        let tb = self.cells[b];
        self.cells.set(a, tb);
        self.cells.set(b, ta);
        proof {
            let s = old(self)@;
            let t = self@;
            assert(t =~= swapped(s, a as int, b as int));
            assert forall|i: int, j: int| 0 <= i < t.len() && 0 <= j < t.len() && i != j implies t[i]
                != t[j] by {
                let pi = if i == a { b as int } else if i == b { a as int } else { i };
                let pj = if j == a { b as int } else if j == b { a as int } else { j };
                assert(t[i] == s[pi] && t[j] == s[pj]);
            }
            assert forall|i: int| 0 <= i < self.cell_count() implies #[trigger] t[i]
                < self.cell_count() by {
                let pi = if i == a { b as int } else if i == b { a as int } else { i };
                assert(t[i] == s[pi]);
            }
        }
        Ok(())
    }

    /// The arrangement is `[0, 1, ..., n - 1]`.
    pub fn is_solved(&self) -> (r: bool)
        requires
            self.wf(),
        ensures
            r == self.solved(),
    {
        let n = self.cells.len();
        let mut i: usize = 0;
        while i < n
            invariant
                n == self@.len(),
                n == self.cell_count(),
                i <= n,
                forall|j: int| 0 <= j < i ==> self@[j] == j,
            decreases n - i,
        {
            if self.cells[i] != i {
                assert(self@[i as int] != identity_seq(self.cell_count())[i as int]);
                return false;
            }
            i = i + 1;
        }
        assert(self@ =~= identity_seq(self.cell_count()));
        true
    }
}

/// Exchanging a cell with itself leaves the arrangement as it was.
pub proof fn law_swap_with_itself(s: Seq<usize>, a: int)
    requires
        0 <= a < s.len(),
    ensures
        swapped(s, a, a) == s,
{
    assert(swapped(s, a, a) =~= s);
}

/// Making the same exchange twice gives back the arrangement one started with.
pub proof fn law_swap_twice(s: Seq<usize>, a: int, b: int)
    requires
        0 <= a < s.len(),
        0 <= b < s.len(),
    ensures
        swapped(swapped(s, a, b), a, b) == s,
{
    assert(swapped(swapped(s, a, b), a, b) =~= s);
}

} // verus!

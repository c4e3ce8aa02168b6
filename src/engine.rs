//! One puzzle session: starting a puzzle from an image, applying moves,
//! and keeping the players' scores.
use vstd::prelude::*;
use std::collections::HashMap;
use rand::rngs::StdRng;
use crate::compositor::{Decoration, Label, labels, places_labels, render, shows};
use crate::permutation::{Permutation, identity_seq, swapped};
use crate::raster::Image;
use crate::tiles::{TileSet, cut_from};
use crate::PuzzleError;

verus! {

broadcast use vstd::std_specs::hash::group_hash_axioms;

/// The side of the grid of every puzzle an engine starts.
pub const GRID_SIZE: usize = 3;

/// Where a session stands.
#[derive(Clone, Copy, Debug, PartialEq, Eq, Structural)]
pub enum Phase {
    /// No puzzle has been started.
    Idle,
    /// A puzzle is on the board and not yet solved.
    InProgress,
    /// The puzzle on the board is solved.
    Solved,
}

struct Board {
    tiles: TileSet,
    perm: Permutation,
}

/// A puzzle session. Moves take `&mut self`, so two moves on one session
/// never interleave: each sees the arrangement the previous one left.
pub struct PuzzleEngine {
    decoration: Decoration,
    phase: Phase,
    board: Option<Board>,
    scores: HashMap<u64, u64>,
}

/// `s` after one more solved puzzle: saturating at `u64::MAX`.
pub open spec fn bumped(s: u64) -> u64 {
    if s == u64::MAX {
        s
    } else {
        (s + 1) as u64
    }
}

/// The score recorded for `user` in `scores`, 0 when there is none.
pub open spec fn score_in(scores: Map<u64, u64>, user: u64) -> u64 {
    if scores.contains_key(user) {
        scores[user]
    } else {
        0
    }
}

impl PuzzleEngine {
    pub closed spec fn phase_of(&self) -> Phase {
        self.phase
    }

    pub closed spec fn decoration_of(&self) -> Decoration {
        self.decoration
    }

    /// The tiles on the board; meaningful unless the session is idle.
    pub closed spec fn tile_set(&self) -> TileSet {
        self.board->Some_0.tiles
    }

    /// The arrangement on the board; empty while the session is idle.
    pub closed spec fn arrangement(&self) -> Seq<usize> {
        match self.board {
            Some(b) => b.perm@,
            None => Seq::empty(),
        }
    }

    pub closed spec fn score_map(&self) -> Map<u64, u64> {
        self.scores@
    }

    pub closed spec fn wf(&self) -> bool {
        &&& (self.phase == Phase::Idle) == self.board.is_none()
        &&& match self.board {
            Some(b) => {
                &&& b.tiles.wf()
                &&& b.perm.wf()
                &&& b.tiles.grid_size() == GRID_SIZE
                &&& b.perm.grid_size() == GRID_SIZE
                &&& (self.phase == Phase::Solved) == b.perm.solved()
            },
            None => true,
        }
    }

    /// A session with no puzzle and no scores, drawing with `decoration`.
    pub fn new(decoration: Decoration) -> (r: PuzzleEngine)
        ensures
            r.wf(),
            r.phase_of() == Phase::Idle,
            r.decoration_of() == decoration,
            r.arrangement() == Seq::<usize>::empty(),
            r.score_map() == Map::<u64, u64>::empty(),
    {
        PuzzleEngine { decoration, phase: Phase::Idle, board: None, scores: HashMap::new() }
    }

    /// Where the session stands.
    pub fn phase(&self) -> (r: Phase)
        ensures
            r == self.phase_of(),
    {
        self.phase
    }

    /// The tile index in each cell, or `None` while the session is idle.
    pub fn cells(&self) -> (r: Option<&[usize]>)
        requires
            self.wf(),
        ensures
            r.is_none() <==> self.phase_of() == Phase::Idle,
            r.is_some() ==> r->Some_0@ == self.arrangement(),
    {
        match &self.board {
            Some(b) => Some(b.perm.cells()),
            None => None,
        }
    }

    /// Starts a new puzzle on `image`: cuts it into a 3 by 3 grid, shuffles
    /// the tiles with `rng` and returns the drawing of the new arrangement.
    /// The scores are kept. An image too small for the grid is refused and
    /// the session is left as it was.
    pub fn start(&mut self, image: &Image, rng: &mut StdRng) -> (r: Result<Image, PuzzleError>)
        requires
            old(self).wf(),
            image.wf(),
        ensures
            final(self).wf(),
            final(self).decoration_of() == old(self).decoration_of(),
            final(self).score_map() == old(self).score_map(),
            r.is_err() <==> (image.width < GRID_SIZE || image.height < GRID_SIZE),
            r.is_err() ==> r == Err::<Image, PuzzleError>(PuzzleError::InvalidImage)
                && final(self).phase_of() == old(self).phase_of() && final(self).arrangement()
                == old(self).arrangement() && final(self).tile_set() == old(self).tile_set(),
            r.is_ok() ==> {
                &&& cut_from(final(self).tile_set(), *image, GRID_SIZE as nat)
                &&& final(self).arrangement().to_multiset() == identity_seq(
                    (GRID_SIZE * GRID_SIZE) as nat,
                ).to_multiset()
                &&& final(self).phase_of() == if final(self).arrangement() == identity_seq(
                    (GRID_SIZE * GRID_SIZE) as nat,
                ) {
                    Phase::Solved
                } else {
                    Phase::InProgress
                }
                &&& shows(
                    r->Ok_0,
                    final(self).tile_set(),
                    final(self).arrangement(),
                    final(self).decoration_of(),
                )
            },
    {
        let tiles = match TileSet::build(image, GRID_SIZE) {
            Ok(ts) => ts,
            Err(e) => {
                return Err(e);
            },
        };
        let perm = Permutation::new_shuffled(GRID_SIZE, rng);
        let img = render(&tiles, &perm, &self.decoration);
        self.phase = if perm.is_solved() {
            Phase::Solved
        } else {
            Phase::InProgress
        };
        self.board = Some(Board { tiles, perm });
        Ok(img)
    }

    /// Exchanges the tiles of cells `a` and `b` (counted from 0, row by row)
    /// and returns the new drawing and whether the puzzle is now solved. A
    /// move that solves the puzzle ends it and counts one more solved
    /// puzzle for `user`. Refused, changing nothing, when no puzzle is in
    /// progress, or when a position lies outside the grid.
    pub fn apply_move(&mut self, a: usize, b: usize, user: u64) -> (r: Result<
        (Image, bool),
        PuzzleError,
    >)
        requires
            old(self).wf(),
        ensures
            final(self).wf(),
            final(self).decoration_of() == old(self).decoration_of(),
            final(self).tile_set() == old(self).tile_set(),
            old(self).phase_of() != Phase::InProgress ==> r == Err::<(Image, bool), PuzzleError>(
                PuzzleError::InvalidState,
            ),
            old(self).phase_of() == Phase::InProgress && (a >= GRID_SIZE * GRID_SIZE || b
                >= GRID_SIZE * GRID_SIZE) ==> r == Err::<(Image, bool), PuzzleError>(
                PuzzleError::IndexOutOfRange,
            ),
            old(self).phase_of() == Phase::InProgress && a < GRID_SIZE * GRID_SIZE && b < GRID_SIZE
                * GRID_SIZE ==> r.is_ok(),
            r.is_err() ==> final(self).phase_of() == old(self).phase_of() && final(self).arrangement()
                == old(self).arrangement() && final(self).score_map() == old(self).score_map(),
            r.is_ok() ==> {
                let solved = r->Ok_0.1;
                &&& old(self).phase_of() == Phase::InProgress
                &&& a < GRID_SIZE * GRID_SIZE
                &&& b < GRID_SIZE * GRID_SIZE
                &&& final(self).arrangement() == swapped(old(self).arrangement(), a as int, b as int)
                &&& solved == (final(self).arrangement() == identity_seq(
                    (GRID_SIZE * GRID_SIZE) as nat,
                ))
                &&& final(self).phase_of() == if solved {
                    Phase::Solved
                } else {
                    Phase::InProgress
                }
                &&& final(self).score_map() == if solved {
                    old(self).score_map().insert(
                        user,
                        bumped(score_in(old(self).score_map(), user)),
                    )
                } else {
                    old(self).score_map()
                }
                &&& shows(
                    r->Ok_0.0,
                    final(self).tile_set(),
                    final(self).arrangement(),
                    final(self).decoration_of(),
                )
            },
    {
        if self.phase != Phase::InProgress {
            return Err(PuzzleError::InvalidState);
        }
        let mut board = match self.board.take() {
            Some(bd) => bd,
            None => {
                return Err(PuzzleError::InvalidState);
            },
        };
        let moved = board.perm.swap(a, b);
        if moved.is_err() {
            self.board = Some(board);
            return Err(PuzzleError::IndexOutOfRange);
        }
        let img = render(&board.tiles, &board.perm, &self.decoration);
        let solved = board.perm.is_solved();
        self.board = Some(board);
        if solved {
            self.phase = Phase::Solved;
            self.increment_score(user);
        }
        Ok((img, solved))
    }

    /// The drawing of the arrangement on the board, without changing
    /// anything; `None` while the session is idle.
    pub fn current_composite(&self) -> (r: Option<Image>)
        requires
            self.wf(),
        ensures
            r.is_none() <==> self.phase_of() == Phase::Idle,
            r.is_some() ==> shows(
                r->Some_0,
                self.tile_set(),
                self.arrangement(),
                self.decoration_of(),
            ),
    {
        match &self.board {
            Some(b) => Some(render(&b.tiles, &b.perm, &self.decoration)),
            None => None,
        }
    }

    /// Where the cell numbers go on the drawing; `None` while the session
    /// is idle.
    pub fn current_labels(&self) -> (r: Option<Vec<Label>>)
        requires
            self.wf(),
        ensures
            r.is_none() <==> self.phase_of() == Phase::Idle,
            r.is_some() ==> places_labels(r->Some_0@, self.tile_set()),
    {
        match &self.board {
            Some(b) => Some(labels(&b.tiles)),
            None => None,
        }
    }

    /// The decoration the session draws with.
    pub fn decoration(&self) -> (r: Decoration)
        ensures
            r == self.decoration_of(),
    {
        self.decoration
    }

    /// The number of puzzles `user` has solved in this session.
    pub fn score_for(&self, user: u64) -> (r: u64)
        ensures
            r == score_in(self.score_map(), user),
    {
        match self.scores.get(&user) {
            Some(s) => *s,
            None => 0,
        }
    }

    /// Counts one more solved puzzle for `user`.
    pub fn increment_score(&mut self, user: u64)
        requires
            old(self).wf(),
        ensures
            final(self).wf(),
            final(self).phase_of() == old(self).phase_of(),
            final(self).decoration_of() == old(self).decoration_of(),
            final(self).tile_set() == old(self).tile_set(),
            final(self).arrangement() == old(self).arrangement(),
            final(self).score_map() == old(self).score_map().insert(
                user,
                bumped(score_in(old(self).score_map(), user)),
            ),
    {
        let s = self.score_for(user);
        let next = s.saturating_add(1);
        self.scores.insert(user, next);
    }
}

/// Cuts `image` into a 3 by 3 grid, shuffles the tiles with `rng`, stores
/// the new arrangement in `tile_positions` (the tile index shown in each
/// cell) and returns its drawing. An image too small for the grid is
/// refused and `tile_positions` is left as it was.
pub fn scramble_image(
    image: &Image,
    tile_positions: &mut Vec<usize>,
    rng: &mut StdRng,
    cfg: &Decoration,
) -> (r: Result<Image, PuzzleError>)
    requires
        image.wf(),
    ensures
        r.is_err() <==> (image.width < GRID_SIZE || image.height < GRID_SIZE),
        r.is_err() ==> r == Err::<Image, PuzzleError>(PuzzleError::InvalidImage)
            && final(tile_positions)@ == old(tile_positions)@,
        r.is_ok() ==> final(tile_positions)@.to_multiset() == identity_seq(
            (GRID_SIZE * GRID_SIZE) as nat,
        ).to_multiset(),
        r.is_ok() ==> exists|ts: TileSet|
            #[trigger] cut_from(ts, *image, GRID_SIZE as nat) && shows(
                r->Ok_0,
                ts,
                final(tile_positions)@,
                *cfg,
            ),
{
    let tiles = match TileSet::build(image, GRID_SIZE) {
        Ok(ts) => ts,
        Err(e) => {
            return Err(e);
        },
    };
    let perm = Permutation::new_shuffled(GRID_SIZE, rng);
    let img = render(&tiles, &perm, cfg);
    *tile_positions = vstd::slice::slice_to_vec(perm.cells());
    assert(cut_from(tiles, *image, GRID_SIZE as nat) && shows(img, tiles, tile_positions@, *cfg));
    Ok(img)
}

} // verus!

use picture_puzzle::compositor::{count_digits, labels, render, Decoration, Label};
use picture_puzzle::engine::{scramble_image, Phase, PuzzleEngine};
use picture_puzzle::permutation::Permutation;
use picture_puzzle::raster::{Image, Pixel};
use picture_puzzle::tiles::TileSet;
use picture_puzzle::PuzzleError;
use rand::rngs::StdRng;
use rand::SeedableRng;

const BLACK: Pixel = Pixel { r: 0, g: 0, b: 0, a: 255 };

fn pattern(x: usize, y: usize) -> Pixel {
    Pixel { r: (x % 251) as u8, g: (y % 241) as u8, b: ((x / 251) * 16 + y / 241) as u8, a: 255 }
}

fn sample_image(width: usize, height: usize) -> Image {
    let mut pixels = Vec::with_capacity(width * height);
    for y in 0..height {
        for x in 0..width {
            pixels.push(pattern(x, y));
        }
    }
    Image { width, height, pixels }
}

fn arrangement(grid: usize, cells: &[usize]) -> Permutation {
    // Reaches any arrangement from the solved one by exchanges.
    let mut p = Permutation::identity(grid);
    for target in 0..cells.len() {
        let from = p.cells().iter().position(|&t| t == cells[target]).unwrap();
        p.swap(target, from).unwrap();
    }
    assert_eq!(p.cells(), cells);
    p
}

#[test]
fn build_cuts_grid_squared_equal_tiles() {
    let img = sample_image(300, 300);
    let ts = TileSet::build(&img, 3).unwrap();
    assert_eq!(ts.len(), 9);
    assert_eq!(ts.tile_width(), 100);
    assert_eq!(ts.tile_height(), 100);
    for k in 0..9 {
        let tile = ts.tile_at(k);
        assert_eq!((tile.width, tile.height, tile.pixels.len()), (100, 100, 10000));
    }
    assert_eq!(ts.tile_at(4).pixel(0, 0), pattern(100, 100));
    assert_eq!(ts.tile_at(5).pixel(7, 3), pattern(207, 103));
    assert_eq!(ts.tile_at(7).pixel(99, 99), pattern(199, 299));
}

#[test]
fn build_drops_remainder_pixels() {
    let img = sample_image(10, 7);
    let ts = TileSet::build(&img, 3).unwrap();
    assert_eq!((ts.tile_width(), ts.tile_height()), (3, 2));
    assert_eq!(ts.tile_at(8).pixel(2, 1), pattern(8, 5));
    let ts4 = TileSet::build(&sample_image(8, 8), 4).unwrap();
    assert_eq!(ts4.len(), 16);
    assert_eq!((ts4.tile_width(), ts4.tile_height()), (2, 2));
}

#[test]
fn build_rejects_image_smaller_than_grid() {
    assert!(matches!(TileSet::build(&sample_image(2, 5), 3), Err(PuzzleError::InvalidImage)));
    assert!(matches!(TileSet::build(&sample_image(5, 2), 3), Err(PuzzleError::InvalidImage)));
}

#[test]
fn shuffled_is_a_bijection() {
    for seed in 0..20u64 {
        let mut rng = StdRng::seed_from_u64(seed);
        let p = Permutation::new_shuffled(3, &mut rng);
        let mut sorted = p.cells().to_vec();
        sorted.sort();
        assert_eq!(sorted, (0..9).collect::<Vec<usize>>());
    }
}

#[test]
fn shuffle_moves_tiles() {
    let mut rng = StdRng::seed_from_u64(7);
    let moved = (0..5).any(|_| !Permutation::new_shuffled(3, &mut rng).is_solved());
    assert!(moved);
}

#[test]
fn swap_with_itself_changes_nothing() {
    let mut p = arrangement(3, &[4, 2, 7, 0, 1, 8, 3, 5, 6]);
    for a in 0..9 {
        p.swap(a, a).unwrap();
        assert_eq!(p.cells(), &[4, 2, 7, 0, 1, 8, 3, 5, 6]);
    }
}

#[test]
fn swap_twice_restores() {
    let start = [4, 2, 7, 0, 1, 8, 3, 5, 6];
    let mut p = arrangement(3, &start);
    p.swap(1, 6).unwrap();
    assert_eq!(p.cells(), &[4, 3, 7, 0, 1, 8, 2, 5, 6]);
    p.swap(1, 6).unwrap();
    assert_eq!(p.cells(), &start);
}

#[test]
fn swap_out_of_range_is_refused() {
    let mut p = arrangement(3, &[1, 0, 2, 3, 4, 5, 6, 7, 8]);
    assert_eq!(p.swap(0, 9), Err(PuzzleError::IndexOutOfRange));
    assert_eq!(p.swap(12, 1), Err(PuzzleError::IndexOutOfRange));
    assert_eq!(p.cells(), &[1, 0, 2, 3, 4, 5, 6, 7, 8]);
}

#[test]
fn is_solved_both_ways() {
    assert!(Permutation::identity(3).is_solved());
    assert!(!arrangement(3, &[0, 1, 2, 3, 4, 5, 6, 8, 7]).is_solved());
    assert!(!arrangement(3, &[8, 1, 2, 3, 4, 5, 6, 7, 0]).is_solved());
}

#[test]
fn scenario_swap_solves() {
    let mut p = arrangement(3, &[2, 1, 0, 3, 4, 5, 6, 7, 8]);
    assert!(!p.is_solved());
    p.swap(0, 2).unwrap();
    assert_eq!(p.cells(), &[0, 1, 2, 3, 4, 5, 6, 7, 8]);
    assert!(p.is_solved());
}

#[test]
fn render_is_deterministic() {
    let ts = TileSet::build(&sample_image(300, 300), 3).unwrap();
    let p = arrangement(3, &[3, 8, 1, 0, 6, 2, 7, 4, 5]);
    let cfg = Decoration::classic();
    let a = render(&ts, &p, &cfg);
    let b = render(&ts, &p, &cfg);
    assert_eq!((a.width, a.height), (b.width, b.height));
    assert_eq!(a.pixels, b.pixels);
}

#[test]
fn render_places_tiles_and_decorations() {
    let ts = TileSet::build(&sample_image(300, 300), 3).unwrap();
    let p = arrangement(3, &[3, 8, 1, 0, 6, 2, 7, 4, 5]);
    let img = render(&ts, &p, &Decoration::classic());
    assert_eq!((img.width, img.height), (300, 300));
    // Cell 1 (top middle) shows tile 8, whose source corner is (200, 200).
    assert_eq!(img.pixel(100 + 90, 90), pattern(200 + 90, 200 + 90));
    // Cell 4 (centre) shows tile 6, whose source corner is (0, 200).
    assert_eq!(img.pixel(190, 190), pattern(90, 290));
    // Borders: the outer edge, and the rings of cell 4 reaching back into
    // cell 3; cell 3's own outward rings were covered by cell 4's tile.
    assert_eq!(img.pixel(0, 50), BLACK);
    assert_eq!(img.pixel(299, 299), BLACK);
    assert_eq!(img.pixel(100, 150), BLACK);
    assert_eq!(img.pixel(96, 150), BLACK);
    // Cell 3 shows tile 0, whose source corner is (0, 0).
    assert_eq!(img.pixel(95, 150), pattern(95, 50));
    assert_eq!(img.pixel(104, 150), pattern(4, 250));
    // Label box of cell 4: from (110, 110), 70 by 70 pixels.
    assert_eq!(img.pixel(110, 110), BLACK);
    assert_eq!(img.pixel(179, 179), BLACK);
    assert_eq!(img.pixel(180, 179), pattern(80, 279));
}

#[test]
fn later_tile_covers_earlier_border() {
    // A 90 by 90 picture: cells of 30 pixels, borders 2 thick, label boxes
    // 20 by 20 pixels.
    let ts = TileSet::build(&sample_image(90, 90), 3).unwrap();
    let p = Permutation::identity(3);
    let cfg = Decoration { border_thickness: 2, border_color: BLACK, text_color: BLACK, glyph_width: 0, font_size: 0 };
    let img = render(&ts, &p, &cfg);
    // Cell 0's outer ring reaches column 31, inside cell 1, whose tile is
    // drawn afterwards; cell 1's own rings reach columns 30 and 29.
    assert_eq!(img.pixel(31, 5), pattern(31, 5));
    assert_eq!(img.pixel(30, 5), BLACK);
    assert_eq!(img.pixel(29, 5), BLACK);
    assert_eq!(img.pixel(28, 5), pattern(28, 5));
    // Cell 4's rings reach back into cell 3 and stay there.
    assert_eq!(img.pixel(29, 35), BLACK);
    assert_eq!(img.pixel(28, 35), pattern(28, 35));
    // Label box of cell 0: columns and rows 10 to 29.
    assert_eq!(img.pixel(10, 10), BLACK);
    assert_eq!(img.pixel(27, 27), BLACK);
    assert_eq!(img.pixel(9, 10), pattern(9, 10));
}

#[test]
fn labels_count_cells_from_one() {
    let ts = TileSet::build(&sample_image(300, 300), 3).unwrap();
    let ls = labels(&ts);
    assert_eq!(ls.len(), 9);
    assert_eq!(ls[0], Label { number: 1, x: 20, y: 20 });
    assert_eq!(ls[5], Label { number: 6, x: 220, y: 120 });
    assert_eq!(ls[8], Label { number: 9, x: 220, y: 220 });
}

#[test]
fn digits_are_counted() {
    assert_eq!(count_digits(0), 1);
    assert_eq!(count_digits(9), 1);
    assert_eq!(count_digits(10), 2);
    assert_eq!(count_digits(12345), 5);
    assert_eq!(count_digits(usize::MAX), usize::MAX.to_string().len());
}

#[test]
fn scenario_start_from_seed() {
    let mut engine = PuzzleEngine::new(Decoration::classic());
    let mut rng = StdRng::seed_from_u64(42);
    let img = engine.start(&sample_image(300, 300), &mut rng).unwrap();
    assert_eq!((img.width, img.height), (300, 300));
    let cells = engine.cells().unwrap().to_vec();
    assert_eq!(cells, vec![5, 2, 6, 0, 7, 3, 8, 4, 1]);
}

#[test]
fn start_refuses_small_image() {
    let mut engine = PuzzleEngine::new(Decoration::classic());
    let mut rng = StdRng::seed_from_u64(1);
    assert!(matches!(engine.start(&sample_image(2, 300), &mut rng), Err(PuzzleError::InvalidImage)));
    assert_eq!(engine.phase(), Phase::Idle);
    assert!(engine.cells().is_none());
    assert!(engine.current_composite().is_none());
}

#[test]
fn move_while_idle_is_refused() {
    let mut engine = PuzzleEngine::new(Decoration::classic());
    assert!(matches!(engine.apply_move(0, 1, 5), Err(PuzzleError::InvalidState)));
}

fn started(seed: u64) -> PuzzleEngine {
    let mut engine = PuzzleEngine::new(Decoration::classic());
    let mut seed = seed;
    loop {
        let mut rng = StdRng::seed_from_u64(seed);
        engine.start(&sample_image(90, 90), &mut rng).unwrap();
        if engine.phase() == Phase::InProgress {
            return engine;
        }
        seed += 1;
    }
}

#[test]
fn scenario_move_out_of_range() {
    let mut engine = started(3);
    let before = engine.cells().unwrap().to_vec();
    assert!(matches!(engine.apply_move(9, 0, 1), Err(PuzzleError::IndexOutOfRange)));
    assert!(matches!(engine.apply_move(0, 9, 1), Err(PuzzleError::IndexOutOfRange)));
    assert_eq!(engine.cells().unwrap(), &before[..]);
    assert_eq!(engine.phase(), Phase::InProgress);
}

#[test]
fn scenario_moves_are_sequential() {
    let mut engine = started(11);
    let start = engine.cells().unwrap().to_vec();
    let mut expected = start.clone();
    expected.swap(0, 1);
    let first = engine.apply_move(0, 1, 100);
    if let Ok((_, true)) = first {
        return;
    }
    assert_eq!(engine.cells().unwrap(), &expected[..]);
    expected.swap(1, 2);
    let second = engine.apply_move(1, 2, 200);
    assert!(second.is_ok());
    assert_eq!(engine.cells().unwrap(), &expected[..]);
    let (img, _) = second.unwrap();
    assert_eq!(img.pixels, engine.current_composite().unwrap().pixels);
}

#[test]
fn solving_ends_puzzle_and_scores() {
    let mut engine = started(5);
    assert_eq!(engine.score_for(77), 0);
    let mut last = None;
    for target in 0..9 {
        let cells = engine.cells().unwrap().to_vec();
        let from = cells.iter().position(|&t| t == target).unwrap();
        if from != target {
            last = Some(engine.apply_move(target, from, 77).unwrap());
        }
    }
    let (img, solved) = last.unwrap();
    assert!(solved);
    assert_eq!((img.width, img.height), (90, 90));
    assert_eq!(engine.phase(), Phase::Solved);
    assert_eq!(engine.cells().unwrap(), &[0, 1, 2, 3, 4, 5, 6, 7, 8]);
    assert_eq!(engine.score_for(77), 1);
    assert_eq!(engine.score_for(78), 0);
    assert!(matches!(engine.apply_move(0, 1, 77), Err(PuzzleError::InvalidState)));
    engine.increment_score(78);
    engine.increment_score(78);
    assert_eq!(engine.score_for(78), 2);
    // A new puzzle keeps the scores.
    let mut rng = StdRng::seed_from_u64(9);
    engine.start(&sample_image(90, 90), &mut rng).unwrap();
    assert_eq!(engine.score_for(77), 1);
}

#[test]
fn scramble_image_records_positions() {
    let mut positions = vec![];
    let mut rng = StdRng::seed_from_u64(42);
    let cfg = Decoration::classic();
    let img = scramble_image(&sample_image(300, 300), &mut positions, &mut rng, &cfg).unwrap();
    assert_eq!((img.width, img.height), (300, 300));
    assert_eq!(positions, vec![5, 2, 6, 0, 7, 3, 8, 4, 1]);
    // Cell 0 shows tile 5, whose source corner is (200, 100).
    assert_eq!(img.pixel(90, 90), pattern(290, 190));
    let mut kept = vec![7, 7];
    let small = scramble_image(&sample_image(300, 2), &mut kept, &mut rng, &cfg);
    assert!(matches!(small, Err(PuzzleError::InvalidImage)));
    assert_eq!(kept, vec![7, 7]);
}

#[test]
fn current_labels_follow_the_board() {
    let mut engine = PuzzleEngine::new(Decoration::classic());
    assert!(engine.current_labels().is_none());
    let mut rng = StdRng::seed_from_u64(2);
    engine.start(&sample_image(300, 300), &mut rng).unwrap();
    let ls = engine.current_labels().unwrap();
    assert_eq!(ls.len(), 9);
    assert_eq!(ls[4], Label { number: 5, x: 120, y: 120 });
}

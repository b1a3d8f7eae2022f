use cspuz::bench::yajilin::{clue_candidates, clues_from_cspuz_rs, clues_to_cspuz_rs, YajilinDirection};
use cspuz::bench::{check_grid_answer, BenchmarkError, BoolGridEdgesIrrefutableFacts};
use cspuz::complex_constraints::partitions;
use cspuz::graph::BoolGridEdgesIrrefutableFacts as GridFacts;
use cspuz::items::Arrow;
use cspuz::polyomino::{normalize_and_merge_pieces, pentominoes, tetrominoes};
use cspuz::solver2::ndarray::{IndexRange, NdArray};

#[test]
fn test_partitions() {
    let result = partitions(9, 3, 1, 7);
    let expected = vec![
        vec![true, true, false, false, false, true, false],
        vec![true, false, true, false, true, false, false],
        vec![false, true, true, true, false, false, false],
    ];
    assert_eq!(result, expected);
}

#[test]
fn test_partitions_none() {
    assert!(partitions(100, 3, 1, 7).is_empty());
    assert_eq!(partitions(0, 0, 1, 3), vec![vec![false, false, false]]);
}

#[test]
fn test_normalize_and_merge_tetrominoes() {
    let (pieces, counts) = normalize_and_merge_pieces(&tetrominoes());
    assert_eq!(pieces.len(), 5);
    assert_eq!(counts, vec![1, 1, 1, 1, 1]);

    let mut doubled = tetrominoes();
    doubled.extend(tetrominoes());
    let (pieces2, counts2) = normalize_and_merge_pieces(&doubled);
    assert_eq!(pieces2, pieces);
    assert_eq!(counts2, vec![2, 2, 2, 2, 2]);
}

#[test]
fn test_normalize_rotated_piece() {
    let l = vec![vec![true, true, true], vec![true, false, false]];
    let l_rotated = vec![vec![true, true], vec![false, true], vec![false, true]];
    let (pieces, counts) = normalize_and_merge_pieces(&vec![l, l_rotated]);
    assert_eq!(pieces.len(), 1);
    assert_eq!(counts, vec![2]);
}

#[test]
fn test_pentominoes_distinct() {
    let (pieces, counts) = normalize_and_merge_pieces(&pentominoes());
    assert_eq!(pieces.len(), 12);
    assert!(counts.iter().all(|&c| c == 1));
}

fn grid(h: usize, w: usize) -> NdArray<(usize, usize), i32> {
    NdArray {
        shape: (h, w),
        data: (0..(h * w) as i32).collect(),
    }
}

#[test]
fn test_ndarray_slices() {
    let g = grid(3, 4);
    assert_eq!(g.shape(), (3, 4));
    let row = g.slice_fixed_y((1, IndexRange { start: Some(1), end: None }));
    assert_eq!(row.data, vec![5, 6, 7]);
    let col = g.slice_fixed_x((IndexRange { start: None, end: Some(2) }, 3));
    assert_eq!(col.data, vec![3, 7]);
    let sub = g.slice((IndexRange { start: Some(1), end: Some(3) }, IndexRange { start: Some(2), end: None }));
    assert_eq!(sub.shape, (2, 2));
    assert_eq!(sub.data, vec![6, 7, 10, 11]);
    let empty = g.slice_fixed_y((0, IndexRange { start: Some(3), end: Some(1) }));
    assert!(empty.data.is_empty());
    assert_eq!(g.flatten().data.len(), 12);
    assert_eq!(g.reshape((4, 3)).shape, (4, 3));
}

#[test]
fn test_ndarray_neighbors_and_arrows() {
    let g = grid(3, 3);
    assert_eq!(g.four_neighbor_indices((0, 0)), vec![(1, 0), (0, 1)]);
    assert_eq!(g.four_neighbor_indices((1, 1)), vec![(0, 1), (1, 0), (2, 1), (1, 2)]);
    assert_eq!(g.four_neighbors((2, 2)).data, vec![5, 7]);
    assert_eq!(g.pointing_cells((1, 1), Arrow::Up).unwrap().data, vec![1]);
    assert_eq!(g.pointing_cells((1, 1), Arrow::Down).unwrap().data, vec![7]);
    assert_eq!(g.pointing_cells((1, 1), Arrow::Left).unwrap().data, vec![3]);
    assert_eq!(g.pointing_cells((1, 1), Arrow::Right).unwrap().data, vec![5]);
    assert!(g.pointing_cells((1, 1), Arrow::Unspecified).is_none());
    let dflt = NdArray { shape: (), data: vec![-1] };
    assert_eq!(g.at_offset((0, 0), (-1, 0), NdArray { shape: (), data: vec![-1] }).data, dflt.data);
    assert_eq!(g.at_offset((0, 0), (2, 1), dflt).data, vec![7]);
    let flat = g.flatten();
    assert_eq!(flat.reverse().data[0], 8);
    assert_eq!(flat.at(4).data, vec![4]);
    assert_eq!(flat.slice(IndexRange { start: Some(7), end: None }).data, vec![7, 8]);
}

#[test]
fn test_clue_candidates() {
    let c = clue_candidates(0, 1, 3, 3);
    // None, Up: 0; Down: 0..=1; Left: 0..=1; Right: 0..=1
    assert_eq!(c.len(), 1 + 1 + 2 + 2 + 2);
    assert_eq!(c[0], None);
    assert_eq!(c[1], Some((Arrow::Up, 0)));
    assert_eq!(c[2], Some((Arrow::Down, 0)));
    assert_eq!(c[3], Some((Arrow::Down, 1)));
    assert_eq!(c[7], Some((Arrow::Right, 1)));
}

#[test]
fn test_yajilin_clue_round_trip() {
    let clues = vec![vec![Some((YajilinDirection::Left, 2)), None], vec![None, Some((YajilinDirection::Up, 0))]];
    let converted = clues_to_cspuz_rs(&clues);
    assert_eq!(converted[0][0], Some((Arrow::Left, 2)));
    assert_eq!(converted[1][1], Some((Arrow::Up, 0)));
    assert_eq!(clues_from_cspuz_rs(&converted), clues);
}

#[test]
fn test_grid_facts_conversion() {
    let facts = BoolGridEdgesIrrefutableFacts {
        horizontal: vec![vec![Some(true), None]],
        vertical: vec![vec![Some(false)], vec![None]],
    };
    let converted: GridFacts = facts.to_cspuz_rs();
    assert_eq!(converted.horizontal, facts.horizontal);
    assert_eq!(converted.vertical, facts.vertical);
    let back = BoolGridEdgesIrrefutableFacts::from_cspuz_rs(&converted);
    assert_eq!(back.vertical, facts.vertical);
}

#[test]
fn test_check_grid_answer() {
    let a = Some(vec![vec![Some(true), None]]);
    let b = Some(vec![vec![Some(true), None]]);
    let c = Some(vec![vec![Some(false), None]]);
    assert_eq!(check_grid_answer(&a, &b), Ok(()));
    assert_eq!(check_grid_answer(&a, &c), Err(BenchmarkError::AnswerMismatch));
    assert_eq!(check_grid_answer(&None, &None), Ok(()));
    assert_eq!(check_grid_answer(&a, &None), Err(BenchmarkError::AnswerMismatch));
}

#[test]
fn test_pointing_cells_order() {
    let g = grid(4, 4);
    assert_eq!(g.pointing_cells((3, 2), Arrow::Up).unwrap().data, vec![2, 6, 10]);
    assert_eq!(g.pointing_cells((0, 1), Arrow::Down).unwrap().data, vec![5, 9, 13]);
    assert_eq!(g.pointing_cells((2, 3), Arrow::Left).unwrap().data, vec![8, 9, 10]);
    assert_eq!(g.pointing_cells((1, 0), Arrow::Right).unwrap().data, vec![5, 6, 7]);
    assert!(g.pointing_cells((0, 0), Arrow::Up).unwrap().data.is_empty());
}

#[test]
fn test_piece_shapes() {
    let t = tetrominoes();
    assert_eq!(t[0], vec![vec![true, true, true, true]]);
    assert_eq!(t[4], vec![vec![true, true], vec![true, true]]);
    let p = pentominoes();
    assert_eq!(p[1], vec![vec![true]; 5]);
    assert_eq!(
        p[0],
        vec![vec![false, false, true], vec![true, true, true], vec![false, true, false]]
    );
    for piece in t.iter() {
        assert_eq!(piece.iter().flatten().filter(|&&c| c).count(), 4);
    }
    for piece in p.iter() {
        assert_eq!(piece.iter().flatten().filter(|&&c| c).count(), 5);
    }
}

#[test]
fn test_partitions_complete() {
    // every 4-subset of 0..=9 with sum 15 is listed, in lexicographic order
    let r = partitions(15, 4, 0, 9);
    let mut expected = vec![];
    for mask in 0u32..(1 << 10) {
        if mask.count_ones() == 4 && (0..10).filter(|&b| mask >> b & 1 == 1).sum::<u32>() == 15 {
            expected.push((0..10).map(|b| mask >> b & 1 == 1).collect::<Vec<bool>>());
        }
    }
    assert_eq!(r.len(), expected.len());
    for row in &expected {
        assert!(r.contains(row));
    }
    let keys: Vec<Vec<usize>> = r
        .iter()
        .map(|row| (0..10).filter(|&b| row[b]).collect())
        .collect();
    let mut sorted = keys.clone();
    sorted.sort();
    assert_eq!(keys, sorted);
}

#[test]
fn test_partitions_negative_values_skipped() {
    // {-3, -2} adds up to -5, but a value above what is left of the sum is
    // never tried
    assert!(partitions(-5, 2, -3, -2).is_empty());
}

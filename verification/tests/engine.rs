use flatten_towers::field::PlayingField;
use flatten_towers::mask::PlayingFieldMask;
use flatten_towers::tower::{Tower, Rect};
use flatten_towers::rng::Rng;

fn five_by_one_after_full_flatten() -> PlayingField {
    // A 5x1 field whose single tower at (0,0) still has flattened height 5:
    // only its origin is occupied, the solution covers the whole row.
    PlayingField {
        width: 5,
        height: 1,
        area: 5,
        towers: vec![
            Tower { x: 0, y: 0, height: 5, flattened_height: 5, bounds: Rect { x: 0, y: 0, w: 1, h: 1 } },
        ],
        field: vec![Some(0), None, None, None, None],
        field_solution: vec![Some(0), Some(0), Some(0), Some(0), Some(0)],
        mask: None,
    }
}

#[test]
fn one_by_one_generation_is_immediately_solved() {
    let mut pf = PlayingField::new(1, 1, None);
    let mut rng = Rng::new_with_seed([7, 11, 13, 17]);
    pf.init_with_random_towers(&mut rng);
    assert_eq!(pf.towers.len(), 1);
    assert_eq!(pf.towers[0].x, 0);
    assert_eq!(pf.towers[0].y, 0);
    assert_eq!(pf.towers[0].height, 1);
    assert_eq!(pf.towers[0].flattened_height, 1);
    assert!(pf.is_solved());
}

#[test]
fn flatten_towards_covers_two_tiles() {
    let mut pf = five_by_one_after_full_flatten();
    let tiles = pf.calc_flatten_towards_xys((0, 0), (1, 0), 2).unwrap();
    assert_eq!(tiles, vec![(1, 0), (2, 0)]);
    assert!(pf.flatten((0, 0), tiles));
    assert_eq!(pf.towers[0].flattened_height, 3);
    assert_eq!(pf.field[1], Some(0));
    assert_eq!(pf.field[2], Some(0));
    assert_eq!(pf.field[3], None);
}

#[test]
fn deflatten_towards_reclaims_farthest_tile_first() {
    let mut pf = five_by_one_after_full_flatten();
    let tiles = pf.calc_flatten_towards_xys((0, 0), (1, 0), 2).unwrap();
    assert!(pf.flatten((0, 0), tiles));
    let back = pf.calc_deflatten_towards_xys((0, 0), (1, 0), 1).unwrap();
    assert_eq!(back, vec![(2, 0)]);
    assert!(pf.deflatten((0, 0), back));
    assert_eq!(pf.towers[0].flattened_height, 4);
    assert_eq!(pf.field[2], None);
    assert_eq!(pf.field[1], Some(0));
}

#[test]
fn flatten_query_rejects_diagonal_and_foreign_destinations() {
    let mut pf = PlayingField::new(3, 3, None);
    let mut rng = Rng::new_with_seed([1, 2, 3, 4]);
    pf.init_with_random_towers(&mut rng);
    let before_field = pf.field.clone();
    // diagonal destination
    assert!(pf.calc_flatten_xys((0, 0), (1, 1)).is_none());
    // destination equal to the origin tile
    assert!(pf.calc_flatten_xys((0, 0), (0, 0)).is_none());
    // a destination owned by a different tower fails whenever the ray
    // crosses it; walk every pair and make sure no query ever lands on a
    // tile of another tower
    for x in 0..3i32 {
        for y in 0..3i32 {
            if let Some(tiles) = pf.calc_flatten_xys((0, 0), (x, y)) {
                for (tx, ty) in tiles {
                    assert_eq!(pf.field[(tx + ty * 3) as usize], None);
                }
            }
        }
    }
    assert_eq!(pf.field, before_field);
}

#[test]
fn flatten_exact_destination_round_trip_restores_state() {
    let mut pf = five_by_one_after_full_flatten();
    let tiles = pf.calc_flatten_xys((0, 0), (3, 0)).unwrap();
    assert_eq!(tiles, vec![(1, 0), (2, 0), (3, 0)]);
    assert!(pf.flatten((0, 0), tiles.clone()));
    assert_eq!(pf.towers[0].flattened_height, 2);
    // the reverse query aimed at the first covered tile reclaims them all
    let back = pf.calc_deflatten_xys((0, 0), (1, 0)).unwrap();
    assert_eq!(back, tiles);
    assert!(pf.deflatten((0, 0), back));
    assert_eq!(pf.towers[0].flattened_height, 5);
    assert_eq!(pf.field, vec![Some(0), None, None, None, None]);
}

#[test]
fn flatten_query_respects_height_contingent() {
    let mut pf = five_by_one_after_full_flatten();
    pf.towers[0].flattened_height = 3;
    // two spare tiles cannot reach a destination three tiles away
    assert!(pf.calc_flatten_xys((0, 0), (3, 0)).is_none());
    assert!(pf.calc_flatten_xys((0, 0), (2, 0)).is_some());
    // a fully flattened tower cannot flatten at all
    pf.towers[0].flattened_height = 1;
    assert!(pf.calc_flatten_xys((0, 0), (1, 0)).is_none());
    assert!(pf.calc_flatten_towards_xys((0, 0), (1, 0), 1).is_none());
}

#[test]
fn flatten_with_empty_list_is_a_failed_no_op() {
    let mut pf = five_by_one_after_full_flatten();
    assert!(!pf.flatten((0, 0), Vec::new()));
    assert!(!pf.deflatten((0, 0), Vec::new()));
    assert_eq!(pf.towers[0].flattened_height, 5);
}

#[test]
fn flatten_towards_stops_early_at_boundary() {
    let mut pf = five_by_one_after_full_flatten();
    // asking for ten tiles still only covers what the row holds
    let tiles = pf.calc_flatten_towards_xys((0, 0), (1, 0), 10).unwrap();
    assert_eq!(tiles, vec![(1, 0), (2, 0), (3, 0), (4, 0)]);
}

#[test]
fn set_to_solution_state_solves_and_mirrors_solution() {
    let mut pf = PlayingField::new(6, 4, None);
    let mut rng = Rng::new_with_seed([5, 6, 7, 8]);
    pf.init_with_random_towers(&mut rng);
    pf.set_to_solution_state();
    assert!(pf.is_solved());
    assert_eq!(pf.field, pf.field_solution);
    for tw in &pf.towers {
        assert_eq!(tw.flattened_height, 1);
    }
}

#[test]
fn reset_to_start_state_occupies_exactly_the_origins() {
    let mut pf = PlayingField::new(6, 4, None);
    let mut rng = Rng::new_with_seed([9, 10, 11, 12]);
    pf.init_with_random_towers(&mut rng);
    pf.set_to_solution_state();
    pf.reset_to_start_state();
    let mut origins = vec![false; pf.area];
    for tw in &pf.towers {
        origins[tw.x + tw.y * pf.width] = true;
    }
    for i in 0..pf.area {
        if origins[i] {
            assert!(pf.field[i].is_some());
        } else {
            assert_eq!(pf.field[i], None);
        }
    }
    for (t, tw) in pf.towers.iter().enumerate() {
        assert_eq!(tw.flattened_height, tw.height);
        assert_eq!(pf.field[tw.x + tw.y * pf.width], Some(t));
    }
}

#[test]
fn generation_covers_every_playable_tile_exactly() {
    let mut pf = PlayingField::new(8, 5, None);
    let mut rng = Rng::new_with_seed([21, 22, 23, 24]);
    pf.init_with_random_towers(&mut rng);
    // coverage: every tile belongs to a tower in the solution
    for i in 0..pf.area {
        let t = pf.field_solution[i].expect("unassigned tile");
        assert!(t < pf.towers.len());
    }
    // height accounting: each tower's height equals its solution tile count
    for (t, tw) in pf.towers.iter().enumerate() {
        let owned = pf.field_solution.iter().filter(|e| **e == Some(t)).count();
        assert_eq!(tw.height as usize, owned);
        assert_eq!(tw.flattened_height, tw.height);
        assert_eq!(pf.field_solution[tw.x + tw.y * pf.width], Some(t));
    }
}

#[test]
fn generation_leaves_masked_tiles_empty() {
    let mut mask = PlayingFieldMask::new(4, 3);
    mask.mask[5] = false;
    mask.mask[6] = false;
    let mut pf = PlayingField::new(4, 3, Some(mask));
    let mut rng = Rng::new_with_seed([31, 32, 33, 34]);
    pf.init_with_random_towers(&mut rng);
    assert_eq!(pf.field_solution[5], None);
    assert_eq!(pf.field_solution[6], None);
    assert_eq!(pf.field[5], None);
    assert_eq!(pf.field[6], None);
    for i in 0..pf.area {
        if i != 5 && i != 6 {
            assert!(pf.field_solution[i].is_some());
        }
    }
}

#[test]
fn recalc_tower_bounds_spans_the_probed_rays() {
    let mut pf = five_by_one_after_full_flatten();
    let tiles = pf.calc_flatten_towards_xys((0, 0), (1, 0), 3).unwrap();
    assert!(pf.flatten((0, 0), tiles));
    // flatten refreshed the bounds: the tower now spans tiles 0..=3
    assert_eq!(pf.towers[0].bounds, Rect { x: 0, y: 0, w: 4, h: 1 });
    // each edge of the rectangle touches an owned tile
    assert_eq!(pf.field[0], Some(0));
    assert_eq!(pf.field[3], Some(0));
    let back = pf.calc_deflatten_towards_xys((0, 0), (1, 0), 2).unwrap();
    assert!(pf.deflatten((0, 0), back));
    assert_eq!(pf.towers[0].bounds, Rect { x: 0, y: 0, w: 2, h: 1 });
}

#[test]
fn is_inside_matches_the_field_rectangle() {
    let pf = PlayingField::new(5, 4, None);
    assert!(pf.is_inside(0, 0));
    assert!(pf.is_inside(4, 3));
    assert!(!pf.is_inside(5, 0));
    assert!(!pf.is_inside(0, 4));
    assert!(!pf.is_inside(-1, 0));
    assert!(pf.is_inside_xy((2, 2)));
    assert!(!pf.is_inside_xy((2, -1)));
}

#[test]
fn deflatten_query_requires_shared_ownership() {
    let pf = five_by_one_after_full_flatten();
    // (1,0) is empty, so it cannot be deflattened from (0,0)
    assert!(pf.calc_deflatten_xys((0, 0), (1, 0)).is_none());
    // nothing of the tower extends right of its origin yet
    assert!(pf.calc_deflatten_towards_xys((0, 0), (1, 0), 1).is_none());
    // diagonal destinations are rejected
    assert!(pf.calc_deflatten_xys((0, 0), (1, 1)).is_none());
}

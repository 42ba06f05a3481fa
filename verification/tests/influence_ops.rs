//! Tests of the influence engine: territory claiming, the point distance
//! field, competitive growth, and the registry invariant.

use empire_map::world::World;

/// A cost vector with Plain at 1 and everything else prohibitive.
fn plain_costs() -> Vec<u32> {
    let mut c = vec![99999u32; 8];
    c[3] = 1;
    c
}

/// The registry invariant: an owned tile has a committed cost, an unowned
/// tile has none, and every owner is a registered empire.
fn assert_consistent(w: &World) {
    for i in 0..w.owners.len() {
        assert_eq!(w.owners[i] != 0, w.dist_vector[i] != u32::MAX, "tile {i}");
        if w.owners[i] != 0 {
            assert!(w.empires.contains_key(&w.owners[i]), "tile {i}");
        }
    }
}

#[test]
fn seeding_center_with_budget_four_claims_five_tiles() {
    let mut w = World::new("PPP\nPPP\nPPP\n", None);
    let ok = w.add_empire(1, 1, 1, 0xFF0000FF, 4, plain_costs());
    assert!(ok);
    assert_eq!(w.owners, vec![0, 1, 0, 1, 1, 1, 0, 1, 0]);
    assert_eq!(w.dist_vector[4], 0);
    for i in [1usize, 3, 5, 7] {
        assert_eq!(w.dist_vector[i], 1);
    }
    for i in [0usize, 2, 6, 8] {
        assert_eq!(w.owners[i], 0);
        assert_eq!(w.dist_vector[i], u32::MAX);
    }
    assert_consistent(&w);
}

#[test]
fn water_is_traversed_but_never_claimed() {
    let mut w = World::new("PWP\nPPP\n", None);
    let mut costs = plain_costs();
    costs[1] = 1; // cheap water keeps the transition penalty small
    let ok = w.add_empire(0, 0, 1, 0xFF00FF00, 50, costs);
    assert!(ok);
    // Tile 1 is water: pathing may cross it, ownership never lands on it.
    assert_eq!(w.owners[1], 0);
    assert_eq!(w.dist_vector[1], u32::MAX);
    assert_consistent(&w);
}

#[test]
fn capital_on_water_fails_with_documented_side_effect() {
    let mut w = World::new("WP\n", None);
    let ok = w.add_empire(0, 0, 9, 0xFF0000FF, 3, plain_costs());
    assert!(!ok);
    // The failure still wrote the capital's owner and cost, and registered
    // nothing: the one documented inconsistency of the operations surface.
    assert_eq!(w.owners[0], 9);
    assert_eq!(w.dist_vector[0], 0);
    assert!(!w.empires.contains_key(&9));
    assert_eq!(w.owners[1], 0);
}

#[test]
fn repeated_claims_never_raise_committed_costs() {
    let mut w = World::new("PPPP\nPPPP\n", None);
    assert!(w.add_empire(0, 0, 1, 1, 3, plain_costs()));
    let before = w.dist_vector.clone();
    w.calc_teritory(0, 1, 8);
    for i in 0..before.len() {
        assert!(w.dist_vector[i] <= before[i], "tile {i}");
    }
    assert_consistent(&w);
}

#[test]
fn cheaper_committed_tiles_are_never_overwritten() {
    let mut w = World::new("PPPP\n", None);
    assert!(w.add_empire(0, 0, 1, 1, 4, plain_costs()));
    let owners_before = w.owners.clone();
    let dist_before = w.dist_vector.clone();
    // A rival seeded on the far side with expensive ground cannot take
    // tiles already secured more cheaply.
    let mut dear = vec![99999u32; 8];
    dear[3] = 50;
    assert!(w.add_empire(3, 0, 2, 2, 4, dear));
    for i in 0..3 {
        assert_eq!(w.owners[i], owners_before[i], "tile {i}");
        assert_eq!(w.dist_vector[i], dist_before[i], "tile {i}");
    }
    assert_eq!(w.owners[3], 2);
    assert_consistent(&w);
}

#[test]
fn point_distance_field_starts_at_zero_and_steps_by_cost() {
    let mut w = World::new("PPP\nPPP\n", None);
    w.djisktra_dist_point(0, 0, 0, plain_costs());
    assert_eq!(w.dist_map, vec![0, 1, 2, 1, 2, 3]);
}

#[test]
fn point_distance_field_is_fully_recomputed() {
    let mut w = World::new("PP\nPP\n", None);
    w.djisktra_dist_point(0, 0, 0, plain_costs());
    assert_eq!(w.dist_map, vec![0, 1, 1, 2]);
    w.djisktra_dist_point(1, 1, 0, plain_costs());
    // Nothing of the first field leaks into the second.
    assert_eq!(w.dist_map, vec![2, 1, 1, 0]);
}

#[test]
fn point_distance_field_ignores_ownership() {
    let mut w = World::new("PPP\n", None);
    assert!(w.add_empire(0, 0, 1, 1, 3, plain_costs()));
    w.djisktra_dist_point(2, 0, 0, plain_costs());
    assert_eq!(w.dist_map, vec![2, 1, 0]);
    // And it never touches owners or committed costs.
    assert_eq!(w.owners, vec![1, 1, 1]);
}

#[test]
fn transition_penalty_charges_water_crossings() {
    let mut w = World::new("PWP\n", None);
    let mut costs = vec![99999u32; 8];
    costs[1] = 2; // water
    costs[3] = 1; // plain
    w.djisktra_dist_point(0, 0, 0, costs);
    // Onto the water tile: move 2 plus penalty 3*2 = 8.
    assert_eq!(w.dist_map[1], 8);
    // Back onto land: move 1 plus penalty 6 more.
    assert_eq!(w.dist_map[2], 15);
}

#[test]
fn auto_grow_splits_a_corridor_with_lower_id_taking_the_tie() {
    let mut w = World::new("PPPPP\n", None);
    assert!(w.add_empire(0, 0, 1, 1, 0, plain_costs()));
    assert!(w.add_empire(4, 0, 2, 2, 0, plain_costs()));
    assert_eq!(w.owners, vec![1, 0, 0, 0, 2]);
    w.auto_grow(2);
    // The center tile costs 2 from either side; the tie goes to the lower
    // empire id, deterministically.
    assert_eq!(w.owners, vec![1, 1, 1, 2, 2]);
    assert_eq!(w.dist_vector, vec![0, 1, 2, 1, 0]);
    assert_consistent(&w);
}

#[test]
fn auto_grow_lets_cheaper_claims_win_contested_ground() {
    let mut w = World::new("PPPP\n", None);
    assert!(w.add_empire(0, 0, 1, 1, 0, plain_costs()));
    let mut dear = vec![99999u32; 8];
    dear[3] = 5;
    assert!(w.add_empire(3, 0, 2, 2, 0, dear));
    w.auto_grow(3);
    assert_eq!(w.owners, vec![1, 1, 1, 2]);
    assert_consistent(&w);
}

#[test]
fn auto_grow_respects_each_empires_budget() {
    let mut w = World::new("PPPPPPP\n", None);
    assert!(w.add_empire(0, 0, 1, 1, 0, plain_costs()));
    w.auto_grow(2);
    assert_eq!(w.owners, vec![1, 1, 1, 0, 0, 0, 0]);
    w.auto_grow(1);
    assert_eq!(w.owners, vec![1, 1, 1, 1, 0, 0, 0]);
    assert_consistent(&w);
}

#[test]
fn auto_grow_never_claims_water_and_does_not_grow_through_it() {
    let mut w = World::new("PWP\n", None);
    let mut costs = plain_costs();
    costs[1] = 1;
    assert!(w.add_empire(0, 0, 1, 1, 0, costs));
    w.auto_grow(10);
    // The water tile is not liveable: it is not claimed, and growth does
    // not pass through it, so the far plain stays unowned.
    assert_eq!(w.owners, vec![1, 0, 0]);
    assert_consistent(&w);
}

#[test]
fn auto_grow_treats_saturated_costs_as_unreachable() {
    let mut w = World::new("PP\n", None);
    let mut costs = plain_costs();
    costs[3] = u32::MAX;
    assert!(w.add_empire(0, 0, 1, 1, 0, costs));
    w.auto_grow(5);
    // The entry cost saturates at the sentinel, which never claims.
    assert_eq!(w.owners, vec![1, 0]);
    assert_eq!(w.dist_vector[1], u32::MAX);
    assert_consistent(&w);
}

#[test]
fn claims_take_the_cheapest_tiles_first() {
    // Forest costs 10, plain costs 1: with budget 2 the claim spreads
    // along the cheap plain to the right, not into the forest.
    let mut w = World::new("FPPP\n", None);
    let mut costs = vec![99999u32; 8];
    costs[3] = 1; // plain
    costs[6] = 10; // forest
    assert!(w.add_empire(1, 0, 1, 1, 2, costs));
    assert_eq!(w.owners, vec![0, 1, 1, 1]);
    assert_eq!(w.dist_vector, vec![u32::MAX, 0, 1, 2]);
    assert_consistent(&w);
}

#[test]
fn claim_ties_go_to_the_smaller_tile_index() {
    // Both neighbors of the center cost 1; with budget 1 the smaller
    // index is claimed first, deterministically.
    let mut w = World::new("PPP\n", None);
    assert!(w.add_empire(1, 0, 1, 1, 1, plain_costs()));
    assert_eq!(w.owners, vec![1, 1, 0]);
    assert_consistent(&w);
}

#[test]
fn empty_map_yields_an_empty_world() {
    let mut w = World::new("", None);
    assert_eq!(w.width(), 0);
    assert_eq!(w.height(), 0);
    assert!(w.tiles.is_empty());
    assert_eq!(w.export_map_to_string(), "");
    w.auto_grow(5);
    assert!(w.owners.is_empty());
    assert_consistent(&w);
}

#[test]
fn generous_budget_claims_every_reachable_liveable_tile() {
    // When the budget does not cut the search short, completeness holds:
    // every liveable tile reachable from the capital is claimed.
    let mut w = World::new("PPPP
PWPP
PPPP
", None);
    let mut costs = plain_costs();
    costs[1] = 1;
    assert!(w.add_empire(0, 0, 1, 1, 100, costs));
    for i in 0..w.owners.len() {
        if i == 5 {
            assert_eq!(w.owners[i], 0, "water tile {i}");
        } else {
            assert_eq!(w.owners[i], 1, "tile {i}");
        }
    }
    assert_consistent(&w);
}

#[test]
fn auto_grow_with_ample_budget_claims_the_whole_frontier() {
    // With budget to spare, no candidate cheaper than the committed costs
    // is left unclaimed: the whole reachable field is divided up.
    let mut w = World::new("PPPPPP
", None);
    assert!(w.add_empire(0, 0, 1, 1, 0, plain_costs()));
    assert!(w.add_empire(5, 0, 2, 2, 0, plain_costs()));
    w.auto_grow(5);
    assert_eq!(w.owners, vec![1, 1, 1, 2, 2, 2]);
    assert_eq!(w.dist_vector, vec![0, 1, 2, 2, 1, 0]);
    assert_consistent(&w);
}

#[test]
fn delete_empire_resets_owner_and_cost_in_lockstep() {
    let mut w = World::new("PPP\n", None);
    assert!(w.add_empire(0, 0, 1, 1, 3, plain_costs()));
    assert_eq!(w.owners, vec![1, 1, 1]);
    w.delete_empire(1);
    assert!(w.owners.iter().all(|&o| o == 0));
    assert!(w.dist_vector.iter().all(|&d| d == u32::MAX));
    assert!(!w.empires.contains_key(&1));
    assert_consistent(&w);
}

#[test]
fn set_empire_color_recolors_only_that_empire() {
    let mut w = World::new("PP\n", None);
    assert!(w.add_empire(0, 0, 1, 0xFF000001, 1, plain_costs()));
    w.set_empire_color(1, 0xFFABCDEF);
    assert_eq!(w.empires[&1].color, 0xFFABCDEF);
    // Unknown identifiers change nothing.
    w.set_empire_color(99, 0xFF111111);
    assert!(!w.empires.contains_key(&99));
    w.render_ownership();
    assert_eq!(w.get_ownership_buffer_ptr()[0], 0xFFABCDEF);
}

#[test]
fn set_empire_settings_changes_future_growth_costs() {
    let mut w = World::new("PPP\n", None);
    assert!(w.add_empire(0, 0, 1, 1, 0, plain_costs()));
    let mut costs = vec![99999u32; 8];
    costs[3] = 7;
    w.set_empire_settings(1, costs);
    assert_eq!(w.empires[&1].costs[3], 7);
    w.auto_grow(1);
    assert_eq!(w.dist_vector, vec![0, 7, u32::MAX]);
    assert_consistent(&w);
}

#[test]
fn registry_invariant_survives_an_operation_sequence() {
    let mut w = World::new("PPPP\nPWPP\nPPPP\n", None);
    assert!(w.add_empire(0, 0, 1, 0xFF0000FF, 2, plain_costs()));
    assert_consistent(&w);
    assert!(w.add_empire(3, 2, 2, 0xFF00FF00, 2, plain_costs()));
    assert_consistent(&w);
    w.auto_grow(2);
    assert_consistent(&w);
    w.set_empire_color(1, 0xFFFFFFFF);
    assert_consistent(&w);
    w.delete_empire(2);
    assert_consistent(&w);
    w.auto_grow(1);
    assert_consistent(&w);
}

//! Tests of world construction, text import/export, rendering, and the
//! brush edits.

use empire_map::render::heat_map_color;
use empire_map::resource::Resource;
use empire_map::terrain::Terrain;
use empire_map::world::World;

#[test]
fn create_parses_dimensions_and_tiles() {
    let w = World::new("PWP\nMFI\n", None);
    assert_eq!(w.width(), 3);
    assert_eq!(w.height(), 2);
    assert_eq!(
        w.tiles,
        vec![
            Terrain::Plain,
            Terrain::Water,
            Terrain::Plain,
            Terrain::Mountain,
            Terrain::Forest,
            Terrain::Ice,
        ]
    );
    assert!(w.owners.iter().all(|&o| o == 0));
    assert!(w.dist_vector.iter().all(|&d| d == u32::MAX));
    assert!(w.dist_map.iter().all(|&d| d == u32::MAX));
    assert!(w.empires.is_empty());
}

#[test]
fn create_skips_blank_lines_and_crlf() {
    let w = World::new("\nPP\r\n\nWW\r\n\n", None);
    assert_eq!(w.width(), 2);
    assert_eq!(w.height(), 2);
    assert_eq!(
        w.tiles,
        vec![Terrain::Plain, Terrain::Plain, Terrain::Water, Terrain::Water]
    );
}

#[test]
fn create_trims_line_padding() {
    let w = World::new("  PW \nMF\t\n", None);
    assert_eq!(w.width(), 2);
    assert_eq!(w.height(), 2);
    assert_eq!(
        w.tiles,
        vec![Terrain::Plain, Terrain::Water, Terrain::Mountain, Terrain::Forest]
    );
}

#[test]
fn unknown_characters_become_unknown_terrain() {
    let w = World::new("PXq\n", None);
    assert_eq!(
        w.tiles,
        vec![Terrain::Plain, Terrain::Unknown, Terrain::Unknown]
    );
}

#[test]
fn resource_map_parses_when_dimensions_match() {
    let w = World::new("PP\nPP\n", Some("g.\n.v\n".to_string()));
    assert_eq!(
        w.resources,
        vec![Resource::Gold, Resource::Empty, Resource::Empty, Resource::Wine]
    );
}

#[test]
fn mismatched_resource_map_falls_back_to_empty() {
    let w = World::new("PP\nPP\n", Some("g.v\n".to_string()));
    assert_eq!(w.resources, vec![Resource::Empty; 4]);
}

#[test]
fn export_writes_one_line_per_row() {
    let w = World::new("PW\nMI\n", None);
    assert_eq!(w.export_map_to_string(), "PW\nMI\n");
}

#[test]
fn export_then_create_reproduces_tiles() {
    let original = World::new("PWRM\nDFI?\nPPPP\n", None);
    let text = original.export_map_to_string();
    let reparsed = World::new(&text, None);
    assert_eq!(reparsed.tiles, original.tiles);
    assert_eq!(reparsed.width(), original.width());
    assert_eq!(reparsed.height(), original.height());
}

#[test]
fn unknown_terrain_round_trips_as_question_mark() {
    let original = World::new("PX\nWI\n", None);
    let text = original.export_map_to_string();
    assert_eq!(text, "P?\nWI\n");
    let reparsed = World::new(&text, None);
    assert_eq!(reparsed.tiles, original.tiles);
}

#[test]
fn terrain_render_runs_at_creation() {
    let w = World::new("PW\n", None);
    let buf = w.get_terrain_buffer_ptr();
    assert_eq!(buf[0], Terrain::Plain.get_color());
    assert_eq!(buf[1], Terrain::Water.get_color());
}

#[test]
fn render_resources_colors_each_tile() {
    let mut w = World::new("PP\n", Some("g.\n".to_string()));
    w.render_resources();
    let buf = w.get_resource_buffer_ptr();
    assert_eq!(buf[0], Resource::Gold.get_color());
    assert_eq!(buf[1], 0x00000000);
}

#[test]
fn render_ownership_uses_empire_color_and_sentinels() {
    let mut w = World::new("PPP\n", None);
    let ok = w.add_empire(0, 0, 5, 0xFFAA55CC, 1, vec![9999, 25, 10, 1, 80, 60, 20, 100]);
    assert!(ok);
    // A dangling owner the registry does not contain renders opaque white.
    w.owners[2] = 77;
    w.render_ownership();
    let buf = w.get_ownership_buffer_ptr();
    assert_eq!(buf[0], 0xFFAA55CC);
    assert_eq!(buf[2], 0xFFFFFFFF);
    // An unowned tile renders fully transparent.
    w.owners[2] = 0;
    w.render_ownership();
    assert_eq!(w.get_ownership_buffer_ptr()[2], 0x00000000);
}

#[test]
fn heat_ramp_hits_its_five_stops() {
    assert_eq!(heat_map_color(0, 4), 0xFF0000FF); // red
    assert_eq!(heat_map_color(1, 4), 0xFF00FFFF); // yellow
    assert_eq!(heat_map_color(2, 4), 0xFF00FF00); // green
    assert_eq!(heat_map_color(3, 4), 0xFFFFFF00); // cyan
    assert_eq!(heat_map_color(4, 4), 0xFF8B0000); // dark blue
    assert_eq!(heat_map_color(5, 0), 0xFF000000); // no scale: black
}

#[test]
fn render_dist_map_normalizes_by_field_maximum() {
    let mut w = World::new("PPP\n", None);
    w.djisktra_dist_point(0, 0, 0, vec![9999, 25, 10, 1, 80, 60, 20, 100]);
    assert_eq!(w.dist_map, vec![0, 1, 2]);
    w.render_dist_map(None);
    let buf = w.get_dist_buffer_ptr();
    assert_eq!(buf[0], 0xFF0000FF);
    assert_eq!(buf[1], 0xFF00FF00);
    assert_eq!(buf[2], 0xFF8B0000);
}

#[test]
fn render_dist_map_leaves_unreachable_transparent() {
    let mut w = World::new("PWP\n", None);
    // Water is prohibitively expensive: the far side stays unreached only
    // if costs saturate, so use a huge water cost with a tiny grid.
    w.djisktra_dist_point(0, 0, 0, vec![9999, u32::MAX, 10, 1, 80, 60, 20, 100]);
    assert_eq!(w.dist_map[0], 0);
    assert_eq!(w.dist_map[1], u32::MAX);
    assert_eq!(w.dist_map[2], u32::MAX);
    w.render_dist_map(Some(10));
    let buf = w.get_dist_buffer_ptr();
    assert_eq!(buf[1], 0x00000000);
    assert_eq!(buf[2], 0x00000000);
}

#[test]
fn brush_diameter_one_touches_only_center() {
    let mut w = World::new("PPP\nPPP\nPPP\n", None);
    w.paint_terrain_brush(1, 1, 1, 'W');
    for (i, &t) in w.tiles.iter().enumerate() {
        if i == 4 {
            assert_eq!(t, Terrain::Water);
        } else {
            assert_eq!(t, Terrain::Plain);
        }
    }
    assert_eq!(w.get_terrain_buffer_ptr()[4], Terrain::Water.get_color());
}

#[test]
fn brush_diameter_four_covers_radius_two_disc() {
    let mut w = World::new("PPPPP\nPPPPP\nPPPPP\nPPPPP\nPPPPP\n", None);
    w.paint_terrain_brush(2, 2, 4, 'D');
    let mut painted = 0;
    for y in 0i32..5 {
        for x in 0i32..5 {
            let dx = x - 2;
            let dy = y - 2;
            let expect = dx * dx + dy * dy <= 4;
            let got = w.tiles[(y * 5 + x) as usize] == Terrain::Desert;
            assert_eq!(got, expect, "tile ({x},{y})");
            if got {
                painted += 1;
            }
        }
    }
    assert_eq!(painted, 13);
}

#[test]
fn brush_accepts_lowercase_terrain_codes() {
    let mut w = World::new("P\n", None);
    w.paint_terrain_brush(0, 0, 1, 'w');
    assert_eq!(w.tiles[0], Terrain::Water);
}

#[test]
fn brush_is_clipped_to_the_grid() {
    let mut w = World::new("PP\nPP\n", None);
    w.paint_terrain_brush(0, 0, 9, 'M');
    assert!(w.tiles.iter().all(|&t| t == Terrain::Mountain));
}

#[test]
fn resource_brush_paints_disc_and_buffer() {
    let mut w = World::new("PPP\nPPP\nPPP\n", None);
    w.paint_resource_brush(1, 1, 3, 'g');
    assert_eq!(w.resources[4], Resource::Gold);
    assert_eq!(w.resources[1], Resource::Gold);
    assert_eq!(w.resources[0], Resource::Empty);
    assert_eq!(w.get_resource_buffer_ptr()[4], Resource::Gold.get_color());
    // Ownership and distance state are untouched.
    assert!(w.owners.iter().all(|&o| o == 0));
    assert!(w.dist_vector.iter().all(|&d| d == u32::MAX));
}

//! Tests of the terrain and resource models: character and numeric codes,
//! classification, colors, and strategic values.

use empire_map::resource::Resource;
use empire_map::terrain::Terrain;

#[test]
fn terrain_char_codes_round_trip() {
    let cases = [
        ('W', Terrain::Water),
        ('R', Terrain::River),
        ('P', Terrain::Plain),
        ('M', Terrain::Mountain),
        ('D', Terrain::Desert),
        ('F', Terrain::Forest),
        ('I', Terrain::Ice),
    ];
    for (c, t) in cases {
        assert_eq!(Terrain::from_char(c), t);
        assert_eq!(t.to_char(), c);
        assert_eq!(Terrain::from_char(t.to_char()), t);
    }
    assert_eq!(Terrain::from_char('x'), Terrain::Unknown);
    assert_eq!(Terrain::from_char('?'), Terrain::Unknown);
    assert_eq!(Terrain::Unknown.to_char(), '?');
    assert_eq!(Terrain::from_char(Terrain::Unknown.to_char()), Terrain::Unknown);
}

#[test]
fn terrain_numeric_codes() {
    assert_eq!(Terrain::from_u8(1), Terrain::Water);
    assert_eq!(Terrain::from_u8(2), Terrain::River);
    assert_eq!(Terrain::from_u8(3), Terrain::Plain);
    assert_eq!(Terrain::from_u8(4), Terrain::Mountain);
    assert_eq!(Terrain::from_u8(5), Terrain::Desert);
    assert_eq!(Terrain::from_u8(6), Terrain::Forest);
    assert_eq!(Terrain::from_u8(7), Terrain::Ice);
    assert_eq!(Terrain::from_u8(0), Terrain::Unknown);
    assert_eq!(Terrain::from_u8(99), Terrain::Unknown);
}

#[test]
fn terrain_classification() {
    assert!(!Terrain::Water.is_liveable());
    assert!(!Terrain::Unknown.is_liveable());
    assert!(Terrain::River.is_liveable());
    assert!(Terrain::Plain.is_liveable());
    assert!(Terrain::Mountain.is_liveable());
    assert!(Terrain::Desert.is_liveable());
    assert!(Terrain::Forest.is_liveable());
    assert!(Terrain::Ice.is_liveable());

    assert!(Terrain::Water.is_watery());
    assert!(Terrain::River.is_watery());
    assert!(!Terrain::Plain.is_watery());
    assert!(!Terrain::Ice.is_watery());
    assert!(!Terrain::Unknown.is_watery());
}

#[test]
fn terrain_colors() {
    assert_eq!(Terrain::Water.get_color(), 0xFFDB9538);
    assert_eq!(Terrain::Plain.get_color(), 0xFF408035);
    assert_eq!(Terrain::Unknown.get_color(), 0xFF000000);
}

#[test]
fn resource_char_codes_round_trip() {
    let cases = [
        ('g', Resource::Gold),
        ('s', Resource::Silver),
        ('*', Resource::Gems),
        ('c', Resource::Coal),
        ('C', Resource::Cows),
        ('w', Resource::Wheat),
        ('f', Resource::Fish),
        ('S', Resource::Silk),
        ('!', Resource::Spices),
        ('v', Resource::Wine),
    ];
    for (c, r) in cases {
        assert_eq!(Resource::from_char(c), r);
        assert_eq!(r.to_char(), c);
    }
    assert_eq!(Resource::from_char('.'), Resource::Empty);
    assert_eq!(Resource::from_char('q'), Resource::Empty);
    assert_eq!(Resource::Empty.to_char(), '.');
}

#[test]
fn resource_numeric_codes() {
    for v in 0u8..=10 {
        assert_eq!(Resource::from_u8(v).to_u8(), v);
    }
    assert_eq!(Resource::from_u8(200), Resource::Empty);
    assert_eq!(Resource::Gold.to_u8(), 1);
    assert_eq!(Resource::Wine.to_u8(), 10);
}

#[test]
fn resource_values_and_colors() {
    assert_eq!(Resource::Gold.get_value(), 100);
    assert_eq!(Resource::Gems.get_value(), 150);
    assert_eq!(Resource::Empty.get_value(), 0);
    assert_eq!(Resource::Gold.get_color(), 0xFF00D7FF);
    assert_eq!(Resource::Empty.get_color(), 0x00000000);
}

#[test]
fn empire_record_holds_its_parts() {
    let e = empire_map::empire::Empire::new(7, 0xFF123456, 25, [9, 8, 7, 6, 5, 4, 3, 2], 11);
    assert_eq!(e.id, 7);
    assert_eq!(e.color, 0xFF123456);
    assert_eq!(e.size, 25);
    assert_eq!(e.cap_index, 11);
    assert_eq!(e.costs, [9, 8, 7, 6, 5, 4, 3, 2]);
}

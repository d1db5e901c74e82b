use entity_db::colormap::Colormap;

#[test]
fn colormap_wire_round_trip() {
    for c in Colormap::variants() {
        assert_eq!(Colormap::from_u8(c.to_u8()), Some(c));
    }
    assert_eq!(Colormap::from_u8(0), None);
    assert_eq!(Colormap::from_u8(8), None);
    assert_eq!(Colormap::from_u8(255), None);
}

#[test]
fn colormap_defaults_and_names() {
    assert_eq!(Colormap::default(), Colormap::Turbo);
    assert_eq!(Colormap::Grayscale.to_u8(), 1);
    assert_eq!(Colormap::CyanToYellow.to_u8(), 7);
    assert_eq!(Colormap::Viridis.name(), "Viridis");
    assert_eq!(Colormap::variants().len(), 7);
    assert_eq!(Colormap::Turbo.heap_size_bytes(), 0);
    assert!(Colormap::is_pod());
}

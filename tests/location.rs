use fit_to_json::location::{json_shape, JsonShape, OutputLocation};

#[test]
fn new_picks_directory_or_file() {
    assert_eq!(
        OutputLocation::new("out".to_string(), true),
        OutputLocation::LocalDirectory("out".to_string())
    );
    assert_eq!(
        OutputLocation::new("all.json".to_string(), false),
        OutputLocation::LocalFile("all.json".to_string())
    );
    assert_eq!(OutputLocation::from_output(None, false), OutputLocation::Inplace);
}

#[test]
fn only_a_file_collects_all() {
    assert!(OutputLocation::LocalFile("a.json".to_string()).collects_all());
    assert!(!OutputLocation::Inplace.collects_all());
    assert!(!OutputLocation::LocalDirectory("d".to_string()).collects_all());
}

#[test]
fn output_names() {
    assert_eq!(OutputLocation::Inplace.output_name("runs/a.fit"), Some("runs/a.json".to_string()));
    assert_eq!(
        OutputLocation::LocalDirectory("out".to_string()).output_name("runs/a.fit"),
        Some("out/a.json".to_string())
    );
    assert_eq!(OutputLocation::LocalDirectory("out".to_string()).output_name(".."), None);
    assert_eq!(
        OutputLocation::LocalFile("all.json".to_string()).output_name("runs/a.fit"),
        Some("all.json".to_string())
    );
}

#[test]
fn shape_follows_count() {
    assert_eq!(json_shape(1), JsonShape::Single);
    assert_eq!(json_shape(0), JsonShape::Array);
    assert_eq!(json_shape(3), JsonShape::Array);
}

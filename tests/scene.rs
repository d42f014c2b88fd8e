use rtw::sphere::{select_root, validate_radius};
use rtw::texture::checker_cell_is_even;
use rtw::keys::coordinate_key;
use rtw::{render_scene, RenderConfig, RtwError, Scene};

fn config() -> RenderConfig {
    RenderConfig { multi_threaded: true, output_file: "out.ppm".to_owned() }
}

#[test]
fn render_scene_knows_both_scenes() {
    let job = render_scene("random", &config()).unwrap();
    assert_eq!(job.scene, Scene::Random);
    assert!(job.multi_threaded);
    assert_eq!(job.output_file, "out.ppm");
    assert_eq!(render_scene("test", &config()).unwrap().scene, Scene::Test);
}

#[test]
fn render_scene_refuses_unknown_names() {
    assert_eq!(
        render_scene("nowhere", &config()).err(),
        Some(RtwError::SceneNotFound("nowhere".to_owned()))
    );
    assert!(render_scene("", &config()).is_err());
    assert!(render_scene("Random", &config()).is_err());
}

#[test]
fn radius_must_be_positive() {
    assert_eq!(validate_radius(1.0f64.to_bits()), Ok(1.0f64.to_bits()));
    assert_eq!(validate_radius(f64::INFINITY.to_bits()), Ok(f64::INFINITY.to_bits()));
    for bad in [0.0f64, -0.0, -1.0, f64::NAN, f64::NEG_INFINITY] {
        assert_eq!(validate_radius(bad.to_bits()), Err(RtwError::InvalidRadius(bad.to_bits())));
    }
}

#[test]
fn nearer_root_is_preferred() {
    assert_eq!(select_root(3, 7, &(0..10)), Some(3));
    assert_eq!(select_root(3, 7, &(4..10)), Some(7));
    assert_eq!(select_root(3, 7, &(0..3)), None);
    assert_eq!(select_root(3, 7, &(8..10)), None);
}

#[test]
fn ray_from_outside_unit_sphere_hits_at_one() {
    // A ray from (0,0,2) along -z meets the unit sphere at the origin at t = 1 and t = 3.
    let near = coordinate_key(1.0f64.to_bits());
    let far = coordinate_key(3.0f64.to_bits());
    let interval = coordinate_key(0.001f64.to_bits())..coordinate_key(f64::INFINITY.to_bits());
    assert_eq!(select_root(near, far, &interval), Some(near));
}

#[test]
fn checker_cells_alternate() {
    assert!(checker_cell_is_even(0, 0, 0));
    assert!(!checker_cell_is_even(1, 0, 0));
    assert!(!checker_cell_is_even(-1, 0, 0));
    assert!(checker_cell_is_even(-1, 1, 2));
    assert!(checker_cell_is_even(i32::MAX, i32::MAX, 0));
}

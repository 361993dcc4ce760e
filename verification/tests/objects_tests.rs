use karang_lestari::fixed::{Fx, FX_SCALE};
use karang_lestari::objects::{ObjectDefinition, ObjectManager, OrientationType};

fn fx(x: f64) -> Fx {
    Fx { raw: (x * FX_SCALE as f64).round() as i64 }
}

fn def(name: &str, path: &str) -> ObjectDefinition {
    ObjectDefinition {
        name: name.to_string(),
        path: path.to_string(),
        orientation_type: OrientationType::HorizontalFree,
        size_x: fx(0.5),
        size_y: fx(1.0),
        scale_min: fx(0.66),
        scale_max: fx(1.5),
    }
}

#[test]
fn lookup_finds_registered_objects_and_nothing_else() {
    let m = ObjectManager::new(vec![def("tendrils", "models/tendrils.glb"), def("brain", "models/brain.glb")]);
    let found = m.get(&"brain".to_string()).unwrap();
    assert_eq!(found.object_definition.path, "models/brain.glb");
    assert_eq!(found.model_handle, 0);
    assert!(m.get(&"kelp".to_string()).is_none());
}

#[test]
fn a_later_definition_replaces_an_earlier_one_of_the_same_name() {
    let m = ObjectManager::new(vec![def("tendrils", "models/old.glb"), def("tendrils", "models/new.glb")]);
    assert_eq!(m.objects.len(), 1);
    assert_eq!(m.get(&"tendrils".to_string()).unwrap().object_definition.path, "models/new.glb");
}

#[test]
fn the_catalog_keeps_placement_data() {
    let m = ObjectManager::new(vec![def("tendrils", "models/tendrils.glb")]);
    let d = m.get(&"tendrils".to_string()).unwrap();
    assert_eq!(d.object_definition.size_x.raw, fx(0.5).raw);
    assert_eq!(d.object_definition.size_y.raw, fx(1.0).raw);
    assert!(matches!(d.object_definition.orientation_type, OrientationType::HorizontalFree));
}

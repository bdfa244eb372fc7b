use smallcat::entity::Arrow;
use smallcat::entity::Object;

#[test]
fn objects_are_equal_by_name() {
    let a = Object::new("X".to_string());
    let b = Object::new("X".to_string());
    let c = Object::new("Y".to_string());
    assert_eq!(a, b);
    assert_ne!(a, c);
    assert_eq!(a.name(), "X");
}

#[test]
fn arrows_are_equal_by_all_fields() {
    let f = Arrow {
        name: "f".to_string(),
        domain: 0,
        codomain: 1,
        equals: vec![(2, 3)],
    };
    let same = Arrow {
        name: "f".to_string(),
        domain: 0,
        codomain: 1,
        equals: vec![(2, 3)],
    };
    let other_name = Arrow {
        name: "g".to_string(),
        domain: 0,
        codomain: 1,
        equals: vec![(2, 3)],
    };
    let other_ends = Arrow {
        name: "f".to_string(),
        domain: 1,
        codomain: 0,
        equals: vec![(2, 3)],
    };
    let other_equals = Arrow {
        name: "f".to_string(),
        domain: 0,
        codomain: 1,
        equals: vec![(3, 2)],
    };
    let shorter_equals = Arrow {
        name: "f".to_string(),
        domain: 0,
        codomain: 1,
        equals: vec![],
    };
    assert_eq!(f, same);
    assert_ne!(f, other_name);
    assert_ne!(f, other_ends);
    assert_ne!(f, other_equals);
    assert_ne!(f, shorter_equals);
    assert_eq!(f.name(), "f");
}

#[test]
fn clones_compare_equal() {
    let f = Arrow {
        name: "f".to_string(),
        domain: 0,
        codomain: 1,
        equals: vec![(2, 3), (4, 5)],
    };
    assert_eq!(f.clone(), f);
    let o = Object::new("X".to_string());
    assert_eq!(o.clone(), o);
}

use smallcat::category::Category;
use smallcat::entity::Arrow;
use smallcat::entity::ArrowDesc;
use smallcat::entity::Object;
use smallcat::errors::CatError;

fn xyz_category() -> Category {
    let objects = vec![
        Object::new("X".to_string()),
        Object::new("Y".to_string()),
        Object::new("Z".to_string()),
    ];
    let descs = vec![
        ArrowDesc::plain("x".to_string(), "X".to_string(), "X".to_string()),
        ArrowDesc::plain("y".to_string(), "Y".to_string(), "Y".to_string()),
        ArrowDesc::plain("z".to_string(), "Z".to_string(), "Z".to_string()),
        ArrowDesc::plain("f".to_string(), "X".to_string(), "Y".to_string()),
        ArrowDesc::plain("g".to_string(), "Y".to_string(), "Z".to_string()),
        ArrowDesc {
            name: "h".to_string(),
            domain: "X".to_string(),
            codomain: "Z".to_string(),
            equals: vec![("f".to_string(), "g".to_string())],
        },
    ];
    Category::build(objects, descs).unwrap()
}

#[test]
fn round_trip_declared_composition() {
    let cat = xyz_category();
    let f = cat.arrow_named(&"f".to_string()).unwrap().clone();
    let g = cat.arrow_named(&"g".to_string()).unwrap().clone();
    let h = cat.arrow_named(&"h".to_string()).unwrap().clone();
    let composed = cat.compose(&f, &g).unwrap();
    assert_eq!(composed, h);
    assert_eq!(composed.name, "h");
    match cat.compose(&g, &f) {
        Err(CatError::DomainMismatch(a, b)) => {
            assert_eq!(a, "g");
            assert_eq!(b, "f");
        },
        other => panic!("expected DomainMismatch, got {:?}", other),
    }
}

#[test]
fn self_composition_of_identity() {
    let cat = xyz_category();
    let x = cat.arrow_named(&"x".to_string()).unwrap().clone();
    let composed = cat.compose(&x, &x).unwrap();
    assert_eq!(composed, x);
}

#[test]
fn self_composition_of_plain_endomorphism() {
    let objects = vec![Object::new("X".to_string())];
    let descs = vec![
        ArrowDesc::plain("x".to_string(), "X".to_string(), "X".to_string()),
        ArrowDesc::plain("e".to_string(), "X".to_string(), "X".to_string()),
    ];
    let cat = Category::build(objects, descs).unwrap();
    let e = cat.arrow_named(&"e".to_string()).unwrap().clone();
    // No equals table entry exists for (e, e); the same-arrow shortcut alone
    // resolves it.
    let composed = cat.compose(&e, &e).unwrap();
    assert_eq!(composed, e);
}

#[test]
fn domain_and_codomain_lookups() {
    let cat = xyz_category();
    let f = cat.arrow_named(&"f".to_string()).unwrap().clone();
    assert_eq!(cat.domain(&f).unwrap().name, "X");
    assert_eq!(cat.codomain(&f).unwrap().name, "Y");
}

#[test]
fn foreign_arrow_is_rejected() {
    let cat = xyz_category();
    let stray = Arrow {
        name: "stray".to_string(),
        domain: 0,
        codomain: 0,
        equals: vec![],
    };
    assert!(matches!(
        cat.domain(&stray),
        Err(CatError::ArrowNotInCategory(_))
    ));
    assert!(matches!(
        cat.codomain(&stray),
        Err(CatError::ArrowNotInCategory(_))
    ));
    let f = cat.arrow_named(&"f".to_string()).unwrap().clone();
    assert!(matches!(
        cat.compose(&stray, &f),
        Err(CatError::ArrowNotInCategory(_))
    ));
    assert!(matches!(
        cat.compose(&f, &stray),
        Err(CatError::ArrowNotInCategory(_))
    ));
}

#[test]
fn identity_returns_the_unique_candidate() {
    let cat = xyz_category();
    let x_obj = Object::new("X".to_string());
    let id = cat.identity(&x_obj).unwrap();
    assert_eq!(id.name, "x");
    assert_eq!(id.domain, id.codomain);
}

#[test]
fn identity_of_unknown_object() {
    let cat = xyz_category();
    let stranger = Object::new("W".to_string());
    match cat.identity(&stranger) {
        Err(CatError::UnknownObject(n)) => assert_eq!(n, "W"),
        other => panic!("expected UnknownObject, got {:?}", other),
    }
}

#[test]
fn identity_missing() {
    let objects = vec![Object::new("X".to_string()), Object::new("Y".to_string())];
    let descs = vec![ArrowDesc::plain(
        "f".to_string(),
        "X".to_string(),
        "Y".to_string(),
    )];
    let cat = Category::build(objects, descs).unwrap();
    let x_obj = Object::new("X".to_string());
    match cat.identity(&x_obj) {
        Err(CatError::NoIdentity(n)) => assert_eq!(n, "X"),
        other => panic!("expected NoIdentity, got {:?}", other),
    }
}

#[test]
fn identity_ambiguous() {
    let objects = vec![Object::new("X".to_string())];
    let descs = vec![
        ArrowDesc::plain("a1".to_string(), "X".to_string(), "X".to_string()),
        ArrowDesc::plain("a2".to_string(), "X".to_string(), "X".to_string()),
    ];
    let cat = Category::build(objects, descs).unwrap();
    let x_obj = Object::new("X".to_string());
    match cat.identity(&x_obj) {
        Err(CatError::AmbiguousIdentity(n)) => assert_eq!(n, "X"),
        other => panic!("expected AmbiguousIdentity, got {:?}", other),
    }
}

#[test]
fn build_rejects_unknown_object() {
    let objects = vec![Object::new("X".to_string())];
    let descs = vec![ArrowDesc::plain(
        "f".to_string(),
        "X".to_string(),
        "W".to_string(),
    )];
    match Category::build(objects, descs) {
        Err(CatError::UnknownObject(n)) => assert_eq!(n, "W"),
        other => panic!("expected UnknownObject, got {:?}", other),
    }
}

#[test]
fn build_rejects_unknown_arrow() {
    let objects = vec![Object::new("X".to_string())];
    let descs = vec![ArrowDesc {
        name: "e".to_string(),
        domain: "X".to_string(),
        codomain: "X".to_string(),
        equals: vec![("e".to_string(), "missing".to_string())],
    }];
    match Category::build(objects, descs) {
        Err(CatError::UnknownArrow(n)) => assert_eq!(n, "missing"),
        other => panic!("expected UnknownArrow, got {:?}", other),
    }
}

#[test]
fn undeclared_composition_is_an_error_not_a_panic() {
    let objects = vec![
        Object::new("X".to_string()),
        Object::new("Y".to_string()),
        Object::new("Z".to_string()),
    ];
    let descs = vec![
        ArrowDesc::plain("f".to_string(), "X".to_string(), "Y".to_string()),
        ArrowDesc::plain("g".to_string(), "Y".to_string(), "Z".to_string()),
    ];
    let cat = Category::build(objects, descs).unwrap();
    let f = cat.arrow_named(&"f".to_string()).unwrap().clone();
    let g = cat.arrow_named(&"g".to_string()).unwrap().clone();
    match cat.compose(&f, &g) {
        Err(CatError::UndeclaredComposition(a, b)) => {
            assert_eq!(a, "f");
            assert_eq!(b, "g");
        },
        other => panic!("expected UndeclaredComposition, got {:?}", other),
    }
}

#[test]
fn stores_keep_insertion_order() {
    let cat = xyz_category();
    let object_names: Vec<&str> = cat.objects().iter().map(|o| o.name.as_str()).collect();
    assert_eq!(object_names, vec!["X", "Y", "Z"]);
    let arrow_names: Vec<&str> = cat.arrows().iter().map(|a| a.name.as_str()).collect();
    assert_eq!(arrow_names, vec!["x", "y", "z", "f", "g", "h"]);
}

#[test]
fn first_declared_composite_wins() {
    // Two arrows both declare the pair (f, g); iteration order picks the
    // first one.
    let objects = vec![
        Object::new("X".to_string()),
        Object::new("Y".to_string()),
        Object::new("Z".to_string()),
    ];
    let descs = vec![
        ArrowDesc::plain("f".to_string(), "X".to_string(), "Y".to_string()),
        ArrowDesc::plain("g".to_string(), "Y".to_string(), "Z".to_string()),
        ArrowDesc {
            name: "h1".to_string(),
            domain: "X".to_string(),
            codomain: "Z".to_string(),
            equals: vec![("f".to_string(), "g".to_string())],
        },
        ArrowDesc {
            name: "h2".to_string(),
            domain: "X".to_string(),
            codomain: "Z".to_string(),
            equals: vec![("f".to_string(), "g".to_string())],
        },
    ];
    let cat = Category::build(objects, descs).unwrap();
    let f = cat.arrow_named(&"f".to_string()).unwrap().clone();
    let g = cat.arrow_named(&"g".to_string()).unwrap().clone();
    assert_eq!(cat.compose(&f, &g).unwrap().name, "h1");
}

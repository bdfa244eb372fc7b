use smallcat::category::Category;
use smallcat::entity::ArrowDesc;
use smallcat::entity::Object;
use smallcat::errors::CatError;

/// A chain X -> Y -> Z -> W with every composite that the associativity of
/// `f`, `g`, `k` needs declared on both sides.
fn chain_category(with_right_side: bool) -> Category {
    let objects = vec![
        Object::new("X".to_string()),
        Object::new("Y".to_string()),
        Object::new("Z".to_string()),
        Object::new("W".to_string()),
    ];
    let mut fgk_equals = vec![("fg".to_string(), "k".to_string())];
    if with_right_side {
        fgk_equals.push(("f".to_string(), "gk".to_string()));
    }
    let descs = vec![
        ArrowDesc::plain("f".to_string(), "X".to_string(), "Y".to_string()),
        ArrowDesc::plain("g".to_string(), "Y".to_string(), "Z".to_string()),
        ArrowDesc::plain("k".to_string(), "Z".to_string(), "W".to_string()),
        ArrowDesc {
            name: "fg".to_string(),
            domain: "X".to_string(),
            codomain: "Z".to_string(),
            equals: vec![("f".to_string(), "g".to_string())],
        },
        ArrowDesc {
            name: "gk".to_string(),
            domain: "Y".to_string(),
            codomain: "W".to_string(),
            equals: vec![("g".to_string(), "k".to_string())],
        },
        ArrowDesc {
            name: "fgk".to_string(),
            domain: "X".to_string(),
            codomain: "W".to_string(),
            equals: fgk_equals,
        },
    ];
    Category::build(objects, descs).unwrap()
}

#[test]
fn associativity_holds_when_fully_declared() {
    let cat = chain_category(true);
    let f = cat.arrow_named(&"f".to_string()).unwrap().clone();
    let g = cat.arrow_named(&"g".to_string()).unwrap().clone();
    let k = cat.arrow_named(&"k".to_string()).unwrap().clone();
    assert!(cat.associative(&f, &g, &k));
}

#[test]
fn associativity_check_is_faithful_to_undeclared_sides() {
    // `(f;g);k = fgk` is declared but `f;(g;k)` is not: the check must
    // evaluate to false, never throw.
    let cat = chain_category(false);
    let f = cat.arrow_named(&"f".to_string()).unwrap().clone();
    let g = cat.arrow_named(&"g".to_string()).unwrap().clone();
    let k = cat.arrow_named(&"k".to_string()).unwrap().clone();
    assert!(!cat.associative(&f, &g, &k));
}

#[test]
fn associativity_check_is_faithful_to_wrong_direction() {
    // With `f;g = h` declared, a check needing the undeclared `g;f`
    // evaluates to false, never throws.
    let objects = vec![
        Object::new("X".to_string()),
        Object::new("Y".to_string()),
        Object::new("Z".to_string()),
    ];
    let descs = vec![
        ArrowDesc::plain("f".to_string(), "X".to_string(), "Y".to_string()),
        ArrowDesc::plain("g".to_string(), "Y".to_string(), "Z".to_string()),
        ArrowDesc {
            name: "h".to_string(),
            domain: "X".to_string(),
            codomain: "Z".to_string(),
            equals: vec![("f".to_string(), "g".to_string())],
        },
    ];
    let cat = Category::build(objects, descs).unwrap();
    let f = cat.arrow_named(&"f".to_string()).unwrap().clone();
    let g = cat.arrow_named(&"g".to_string()).unwrap().clone();
    let h = cat.arrow_named(&"h".to_string()).unwrap().clone();
    assert!(matches!(
        cat.compose(&g, &f),
        Err(CatError::DomainMismatch(_, _))
    ));
    assert!(!cat.associative(&g, &f, &h));
}

fn unit_category() -> Category {
    let objects = vec![Object::new("X".to_string()), Object::new("Y".to_string())];
    let descs = vec![
        ArrowDesc::plain("x".to_string(), "X".to_string(), "X".to_string()),
        ArrowDesc::plain("y".to_string(), "Y".to_string(), "Y".to_string()),
        ArrowDesc {
            name: "f".to_string(),
            domain: "X".to_string(),
            codomain: "Y".to_string(),
            equals: vec![
                ("x".to_string(), "f".to_string()),
                ("f".to_string(), "y".to_string()),
            ],
        },
        ArrowDesc::plain("g".to_string(), "X".to_string(), "Y".to_string()),
    ];
    Category::build(objects, descs).unwrap()
}

#[test]
fn unit_laws_hold_when_declared() {
    let cat = unit_category();
    let f = cat.arrow_named(&"f".to_string()).unwrap().clone();
    let x_obj = Object::new("X".to_string());
    let y_obj = Object::new("Y".to_string());
    assert!(cat.left_unit(&x_obj, &f));
    assert!(cat.right_unit(&y_obj, &f));
}

#[test]
fn unit_laws_hold_for_the_identity_itself() {
    // compose(x, x) resolves to x by the same-arrow shortcut, so the unit
    // laws hold for an identity arrow with no declared table entry at all.
    let cat = unit_category();
    let x = cat.arrow_named(&"x".to_string()).unwrap().clone();
    let x_obj = Object::new("X".to_string());
    assert!(cat.left_unit(&x_obj, &x));
    assert!(cat.right_unit(&x_obj, &x));
    assert!(cat.associative(&x, &x, &x));
}

#[test]
fn unit_checks_are_faithful() {
    let cat = unit_category();
    let f = cat.arrow_named(&"f".to_string()).unwrap().clone();
    let g = cat.arrow_named(&"g".to_string()).unwrap().clone();
    let x_obj = Object::new("X".to_string());
    let y_obj = Object::new("Y".to_string());
    // g declares no unit compositions at all: both checks fail, none throws.
    assert!(!cat.left_unit(&x_obj, &g));
    assert!(!cat.right_unit(&y_obj, &g));
    // The identity of the wrong end does not even type-check against f.
    assert!(!cat.left_unit(&y_obj, &f));
    assert!(!cat.right_unit(&x_obj, &f));
    // An unknown object fails the identity lookup, and the check is false.
    let stranger = Object::new("W".to_string());
    assert!(!cat.left_unit(&stranger, &f));
    assert!(!cat.right_unit(&stranger, &f));
}

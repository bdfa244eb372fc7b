use smallcat::category::Category;
use smallcat::entity::ArrowDesc;
use smallcat::entity::Object;

#[test]
fn describe_lists_objects_and_arrows() {
    let objects = vec![
        Object::new("X".to_string()),
        Object::new("Y".to_string()),
        Object::new("Z".to_string()),
    ];
    let descs = vec![
        ArrowDesc::plain("f".to_string(), "X".to_string(), "Y".to_string()),
        ArrowDesc::plain("g".to_string(), "Y".to_string(), "Z".to_string()),
        ArrowDesc {
            name: "h".to_string(),
            domain: "X".to_string(),
            codomain: "Z".to_string(),
            equals: vec![("f".to_string(), "g".to_string())],
        },
    ];
    let cat = Category::build(objects, descs).unwrap();
    assert_eq!(
        cat.describe(),
        "objects: [X, Y, Z], arrows: [f: X -> Y, g: Y -> Z, h: X -> Z]"
    );
}

#[test]
fn describe_of_the_empty_category() {
    let cat = Category::build(vec![], vec![]).unwrap();
    assert_eq!(cat.describe(), "objects: [], arrows: []");
}

#[test]
fn describe_of_a_single_loop() {
    let objects = vec![Object::new("X".to_string())];
    let descs = vec![ArrowDesc::plain(
        "x".to_string(),
        "X".to_string(),
        "X".to_string(),
    )];
    let cat = Category::build(objects, descs).unwrap();
    assert_eq!(cat.describe(), "objects: [X], arrows: [x: X -> X]");
}

use smallcat::category::Category;
use smallcat::entity::ArrowDesc;
use smallcat::entity::Object;
use smallcat::errors::CatError;

/// The record object with three attribute arrows, as a schema before
/// normalization: identities included for every object, as the builder
/// synthesizes nothing.
fn person_category() -> Category {
    let objects = vec![
        Object::new("Person".to_string()),
        Object::new("String".to_string()),
        Object::new("Integer".to_string()),
    ];
    let descs = vec![
        ArrowDesc::plain("Person".to_string(), "Person".to_string(), "Person".to_string()),
        ArrowDesc::plain("String".to_string(), "String".to_string(), "String".to_string()),
        ArrowDesc::plain("Integer".to_string(), "Integer".to_string(), "Integer".to_string()),
        ArrowDesc::plain("first_name".to_string(), "Person".to_string(), "String".to_string()),
        ArrowDesc::plain("last_name".to_string(), "Person".to_string(), "String".to_string()),
        ArrowDesc::plain("age".to_string(), "Person".to_string(), "Integer".to_string()),
    ];
    Category::build(objects, descs).unwrap()
}

fn classify_name_or_age(s: String) -> String {
    if s.contains("name") {
        "name".to_string()
    } else {
        "age".to_string()
    }
}

#[test]
fn split_partitions_completely_and_disjointly() {
    let cat = person_category();
    let groups = cat.split_scheme(&"Person".to_string(), classify_name_or_age);
    assert_eq!(groups.len(), 2);

    assert_eq!(groups[0].key, "name");
    let name_objects: Vec<&str> = groups[0]
        .category
        .objects()
        .iter()
        .map(|o| o.name.as_str())
        .collect();
    assert_eq!(name_objects, vec!["Person", "String"]);
    let name_arrows: Vec<&str> = groups[0]
        .category
        .arrows()
        .iter()
        .map(|a| a.name.as_str())
        .collect();
    assert_eq!(name_arrows, vec!["first_name", "last_name"]);

    assert_eq!(groups[1].key, "age");
    let age_objects: Vec<&str> = groups[1]
        .category
        .objects()
        .iter()
        .map(|o| o.name.as_str())
        .collect();
    assert_eq!(age_objects, vec!["Person", "Integer"]);
    let age_arrows: Vec<&str> = groups[1]
        .category
        .arrows()
        .iter()
        .map(|a| a.name.as_str())
        .collect();
    assert_eq!(age_arrows, vec!["age"]);

    // Every qualifying arrow of the input appears in exactly one group.
    for qualifying in ["first_name", "last_name", "age"] {
        let mut hits = 0;
        for group in &groups {
            if group
                .category
                .arrows()
                .iter()
                .any(|a| a.name == qualifying)
            {
                hits += 1;
            }
        }
        assert_eq!(hits, 1, "arrow {} must land in exactly one group", qualifying);
    }
}

#[test]
fn split_arrows_keep_domain_and_codomain_names() {
    let cat = person_category();
    let groups = cat.split_scheme(&"Person".to_string(), classify_name_or_age);
    let name_cat = &groups[0].category;
    let first = name_cat.arrow_named(&"first_name".to_string()).unwrap().clone();
    assert_eq!(name_cat.domain(&first).unwrap().name, "Person");
    assert_eq!(name_cat.codomain(&first).unwrap().name, "String");
    // Declared compositions are not carried over.
    assert!(first.equals.is_empty());
}

#[test]
fn split_keeps_self_arrows_and_identities_out() {
    // The identity of the table object is self-referential and must not
    // qualify; the identities of the other objects have the wrong domain.
    let cat = person_category();
    let groups = cat.split_scheme(&"Person".to_string(), classify_name_or_age);
    for group in &groups {
        for arrow in group.category.arrows() {
            assert_ne!(arrow.name, "Person");
            assert_ne!(arrow.name, "String");
            assert_ne!(arrow.name, "Integer");
        }
    }
}

#[test]
fn split_output_misses_identities_by_construction() {
    // The splitter synthesizes no identity arrows: a later identity lookup
    // on an output store reports the absence as NoIdentity.
    let cat = person_category();
    let groups = cat.split_scheme(&"Person".to_string(), classify_name_or_age);
    let person_obj = Object::new("Person".to_string());
    assert!(matches!(
        groups[0].category.identity(&person_obj),
        Err(CatError::NoIdentity(_))
    ));
}

#[test]
fn split_by_keys_dedups_equal_arrows() {
    let objects = vec![Object::new("P".to_string()), Object::new("S".to_string())];
    let descs = vec![
        ArrowDesc::plain("dup".to_string(), "P".to_string(), "S".to_string()),
        ArrowDesc::plain("dup".to_string(), "P".to_string(), "S".to_string()),
        ArrowDesc::plain("other".to_string(), "P".to_string(), "S".to_string()),
    ];
    let cat = Category::build(objects, descs).unwrap();
    let keys = vec!["k".to_string(), "k".to_string(), "k".to_string()];
    let groups = cat.split_by_keys(&"P".to_string(), &keys);
    assert_eq!(groups.len(), 1);
    let arrow_names: Vec<&str> = groups[0]
        .category
        .arrows()
        .iter()
        .map(|a| a.name.as_str())
        .collect();
    assert_eq!(arrow_names, vec!["dup", "other"]);
}

#[test]
fn split_groups_come_in_first_seen_key_order() {
    let objects = vec![Object::new("P".to_string()), Object::new("S".to_string())];
    let descs = vec![
        ArrowDesc::plain("a".to_string(), "P".to_string(), "S".to_string()),
        ArrowDesc::plain("b".to_string(), "P".to_string(), "S".to_string()),
        ArrowDesc::plain("c".to_string(), "P".to_string(), "S".to_string()),
        ArrowDesc::plain("d".to_string(), "P".to_string(), "S".to_string()),
    ];
    let cat = Category::build(objects, descs).unwrap();
    let keys = vec![
        "two".to_string(),
        "one".to_string(),
        "two".to_string(),
        "one".to_string(),
    ];
    let groups = cat.split_by_keys(&"P".to_string(), &keys);
    assert_eq!(groups.len(), 2);
    assert_eq!(groups[0].key, "two");
    assert_eq!(groups[1].key, "one");
    let two_arrows: Vec<&str> = groups[0]
        .category
        .arrows()
        .iter()
        .map(|a| a.name.as_str())
        .collect();
    assert_eq!(two_arrows, vec!["a", "c"]);
    let one_arrows: Vec<&str> = groups[1]
        .category
        .arrows()
        .iter()
        .map(|a| a.name.as_str())
        .collect();
    assert_eq!(one_arrows, vec!["b", "d"]);
}

#[test]
fn split_of_object_without_attributes_is_empty() {
    let cat = person_category();
    let groups = cat.split_scheme(&"String".to_string(), classify_name_or_age);
    assert_eq!(groups.len(), 0);
    let strangers = cat.split_scheme(&"Nowhere".to_string(), classify_name_or_age);
    assert_eq!(strangers.len(), 0);
}

#[test]
fn split_leaves_the_input_intact() {
    let cat = person_category();
    let before: Vec<String> = cat.arrows().iter().map(|a| a.name.clone()).collect();
    let _groups = cat.split_scheme(&"Person".to_string(), classify_name_or_age);
    let after: Vec<String> = cat.arrows().iter().map(|a| a.name.clone()).collect();
    assert_eq!(before, after);
}

use speedyf::save::{
    import_steps, page_requires_mutation, removal_order, rotation_after, PageChanges, PageStep,
};

#[test]
fn consecutive_source_pages_import_in_one_step() {
    let steps = import_steps(&vec![Some(0), Some(1), Some(4), None, Some(2), None, None]);
    assert_eq!(
        steps,
        vec![
            PageStep::Import { pages: "1,2,5".into(), at: 0, count: 3 },
            PageStep::Blank { at: 3 },
            PageStep::Import { pages: "3".into(), at: 4, count: 1 },
            PageStep::Blank { at: 5 },
            PageStep::Blank { at: 6 },
        ]
    );
}

#[test]
fn a_reordered_or_duplicated_page_is_listed_as_often_as_it_appears() {
    let steps = import_steps(&vec![Some(9), Some(9), Some(0)]);
    assert_eq!(steps, vec![PageStep::Import { pages: "10,10,1".into(), at: 0, count: 3 }]);
    assert!(import_steps(&vec![]).is_empty());
}

#[test]
fn rotation_adds_and_wraps_to_a_quarter_turn() {
    assert_eq!(rotation_after(0, 90), 90);
    assert_eq!(rotation_after(270, 180), 90);
    assert_eq!(rotation_after(90, 270), 0);
    assert_eq!(rotation_after(180, 0), 180);
    // an angle that is no quarter turn leaves the page unrotated
    assert_eq!(rotation_after(0, 45), 0);
}

#[test]
fn annotations_are_removed_once_each_highest_first() {
    assert_eq!(removal_order(&vec![2, 7, 2, 0, 5]), vec![7, 5, 2, 0]);
    assert!(removal_order(&vec![]).is_empty());
}

#[test]
fn unchanged_imported_pages_do_not_require_a_mutation_pass() {
    let mut page = PageChanges {
        rotation: 0,
        annotations: 0,
        texts: 0,
        images: 0,
        dropped_annotations: 0,
    };
    assert!(!page_requires_mutation(&page));

    page.rotation = 90;
    assert!(page_requires_mutation(&page));
    page.rotation = 0;
    page.texts = 1;
    assert!(page_requires_mutation(&page));
    page.texts = 0;
    page.rotation = 360;
    assert!(!page_requires_mutation(&page));
}

use semver_bump::error::Error;
use semver_bump::selection::{bump_selected, Selection};
use semver_bump::{replace, replace_by_line, Segment, Version};

#[test]
fn numbers_count_from_one() {
    assert_eq!(Selection::from_numbers(1, None), Some(Selection::InText { index: 0 }));
    assert_eq!(Selection::from_numbers(7, None), Some(Selection::InText { index: 6 }));
    assert_eq!(
        Selection::from_numbers(1, Some(1)),
        Some(Selection::OnLine { line_index: 0, index: 0 })
    );
    assert_eq!(
        Selection::from_numbers(3, Some(12)),
        Some(Selection::OnLine { line_index: 11, index: 2 })
    );
    assert_eq!(
        Selection::from_numbers(65535, Some(65535)),
        Some(Selection::OnLine { line_index: 65534, index: 65534 })
    );
}

#[test]
fn number_zero_names_nothing() {
    assert_eq!(Selection::from_numbers(0, None), None);
    assert_eq!(Selection::from_numbers(0, Some(1)), None);
    assert_eq!(Selection::from_numbers(1, Some(0)), None);
    assert_eq!(Selection::from_numbers(0, Some(0)), None);
}

#[test]
fn selection_in_text_is_a_global_replace() {
    let input = "pkg1 = 3.0.0\npkg2 = 1.2.3".to_string();
    let selection = Selection::from_numbers(2, None).unwrap();
    assert_eq!(
        bump_selected(&input, Segment::Minor, selection),
        Ok(("pkg1 = 3.0.0\npkg2 = 1.3.0".to_string(), Version::new(1, 2, 3), Version::new(1, 3, 0)))
    );
    assert_eq!(
        bump_selected(&input, Segment::Minor, selection),
        replace(&input, Segment::Minor, 1)
    );
}

#[test]
fn selection_on_line_is_a_replace_by_line() {
    let input = "pkg1 = 3.0.0\npkg2 = 5.4.3\npkg3 = 1.2.3\n".to_string();
    let selection = Selection::from_numbers(1, Some(3)).unwrap();
    assert_eq!(
        bump_selected(&input, Segment::Patch, selection),
        Ok((
            "pkg1 = 3.0.0\npkg2 = 5.4.3\npkg3 = 1.2.4\n".to_string(),
            Version::new(1, 2, 3),
            Version::new(1, 2, 4)
        ))
    );
    assert_eq!(
        bump_selected(&input, Segment::Patch, selection),
        replace_by_line(&input, Segment::Patch, 0, 2)
    );
}

#[test]
fn selection_of_what_is_not_there_is_not_found() {
    let input = "1.2.3\n4.5.6".to_string();
    assert_eq!(
        bump_selected(&input, Segment::Patch, Selection::InText { index: 2 }),
        Err(Error::NoSemverFound)
    );
    assert_eq!(
        bump_selected(&input, Segment::Patch, Selection::OnLine { line_index: 2, index: 0 }),
        Err(Error::NoSemverFound)
    );
    assert_eq!(
        bump_selected(&input, Segment::Patch, Selection::OnLine { line_index: 1, index: 1 }),
        Err(Error::NoSemverFound)
    );
}

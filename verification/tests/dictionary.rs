use olap_engine::dimension::dictionary::Dictionary;

#[test]
fn a_dictionary_numbers_names_from_one() {
    let mut names = Dictionary::new();
    assert_eq!(names.get_or_create("north"), 1);
    assert_eq!(names.get_or_create("south"), 2);
    assert_eq!(names.get_or_create("north"), 1);
    assert_eq!(names.get_or_create("North"), 3);
}

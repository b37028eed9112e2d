use word_unscrambler::filters::BasicWordFilters;

#[test]
fn test_new_basic_word_filters() {
    let filters = BasicWordFilters::new("p", "op", "o");

    assert_eq!(filters.contains, "o".to_owned());
    assert_eq!(filters.starts_with, "p".to_owned());
    assert_eq!(filters.ends_with, "op".to_owned());
}

#[test]
fn test_passes_filter() {
    let filters = BasicWordFilters::new("app", "ion", "cat");

    assert!(filters.passes_filters("application"));
    assert!(!filters.passes_filters("apple"));
    assert!(!filters.passes_filters("caution"));
    assert!(!filters.passes_filters("bobcat"));
}

#[test]
fn test_new_word_unscrambler_filters() {
    let filters = BasicWordFilters::new("p", "op", "o");

    assert_eq!(filters.contains, "o".to_owned());
    assert_eq!(filters.starts_with, "p".to_owned());
    assert_eq!(filters.ends_with, "op".to_owned());
}

#[test]
fn test_check_word_validity() {
    let filters = BasicWordFilters::new("app", "ion", "cat");

    assert!(filters.passes_filters("application"));
    assert!(!filters.passes_filters("apple"));
    assert!(!filters.passes_filters("caution"));
    assert!(!filters.passes_filters("bobcat"));
}

#[test]
fn default_filters_pass_everything() {
    let filters = BasicWordFilters::default();
    assert!(filters.passes_filters(""));
    assert!(filters.passes_filters("anything"));
}

#[test]
fn filters_longer_than_the_word_fail() {
    let filters = BasicWordFilters::new("", "", "catalog");
    assert!(!filters.passes_filters("cat"));
    let filters = BasicWordFilters::new("", "long", "");
    assert!(!filters.passes_filters("ng"));
    let filters = BasicWordFilters::new("", "", "at");
    assert!(filters.passes_filters("cat"));
    assert!(!filters.passes_filters("tca"));
}

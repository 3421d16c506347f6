use pillars_well::gems::{GemPalette, GemType, GEM_TYPE_COUNT};

#[test]
fn from_index_names_each_category() {
    assert_eq!(GemType::from_index(0), GemType::Red);
    assert_eq!(GemType::from_index(1), GemType::Pink);
    assert_eq!(GemType::from_index(2), GemType::Blue);
    assert_eq!(GemType::from_index(3), GemType::Green);
    assert_eq!(GemType::from_index(4), GemType::Yellow);
    assert_eq!(GemType::from_index(5), GemType::Orange);
}

#[test]
fn gem_type_count_matches_the_categories() {
    assert_eq!(GEM_TYPE_COUNT, 6);
}

#[test]
fn sample_random_varies() {
    // the sampler draws from the process-wide random source; over many draws
    // a single category coming back every time is (astronomically) unlikely
    let first = GemPalette::sample_random();
    let mut saw_other = false;
    for _ in 0..200 {
        if GemPalette::sample_random() != first {
            saw_other = true;
        }
    }
    assert!(saw_other, "two hundred draws never left one category");
}

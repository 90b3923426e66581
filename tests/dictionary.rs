use bogglesolver::Trie;

#[test]
fn empty_index_has_no_prefix() {
    let t = Trie::new();
    assert!(!t.is_prefix_or_word(""));
    assert!(!t.is_prefix_or_word("A"));
    assert!(!t.is_word(""));
}

#[test]
fn prefixes_and_words() {
    let mut t = Trie::new();
    t.insert("CAT");
    t.insert("CAR");
    assert!(t.is_prefix_or_word(""));
    assert!(t.is_prefix_or_word("C"));
    assert!(t.is_prefix_or_word("CA"));
    assert!(t.is_prefix_or_word("CAT"));
    assert!(!t.is_prefix_or_word("CATS"));
    assert!(!t.is_prefix_or_word("D"));
    assert!(t.is_word("CAT"));
    assert!(t.is_word("CAR"));
    assert!(!t.is_word("CA"));
    assert!(!t.is_word("C"));
    assert!(!t.is_word("CART"));
}

#[test]
fn inserting_twice_changes_nothing() {
    let mut once = Trie::new();
    once.insert("DOG");
    let mut twice = Trie::new();
    twice.insert("DOG");
    twice.insert("DOG");
    for s in ["", "D", "DO", "DOG", "DOGS", "X"] {
        assert_eq!(once.is_word(s), twice.is_word(s));
        assert_eq!(once.is_prefix_or_word(s), twice.is_prefix_or_word(s));
    }
}

#[test]
fn word_inside_a_longer_word() {
    let mut t = Trie::new();
    t.insert("TOES");
    t.insert("TO");
    assert!(t.is_word("TO"));
    assert!(!t.is_word("TOE"));
    assert!(t.is_prefix_or_word("TOE"));
}

#[test]
fn empty_word_marks_the_root() {
    let mut t = Trie::new();
    t.insert("");
    assert!(t.is_word(""));
    assert!(t.is_prefix_or_word(""));
    assert!(!t.is_prefix_or_word("A"));
}

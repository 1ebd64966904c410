use joaat_reverser::{calculate_brute_boundaries, find_preimages, hash, is_preimage, undo_finalization};

fn lowercase() -> Vec<char> {
    ('a'..='z').collect()
}

#[test]
fn hashing() {
    assert_eq!(hash("hello"), 0xc8fd181b);
    assert_eq!(hash("thisisasuperlongstringanditcontainssomereallycoolstuff"), 0x7adcfe15);
    assert_eq!(hash("Здравствуйте"), 0xe69f4c94);
}

#[test]
fn reverse_adder() {
    let hash = undo_finalization(0xb779a091);
    assert!(is_preimage("adder", hash));
}

#[test]
fn finds_adder_exactly() {
    let preimages = find_preimages(0xb779a091, 5, lowercase());
    assert_eq!(preimages, vec!["adder".to_string()]);
}

#[test]
fn empty_hash_matches_initial_state() {
    assert!(is_preimage("", undo_finalization(hash(""))));
}

#[test]
fn validator_accepts_own_hash() {
    for s in ["a", "zz", "adder", "Hello, world!", "0123456789"] {
        assert!(is_preimage(s, undo_finalization(hash(s))));
    }
}

#[test]
fn validator_rejects_wrong_target() {
    let target = undo_finalization(hash("adder"));
    assert!(!is_preimage("addex", target));
    assert!(!is_preimage("adde", target));
}

#[test]
fn search_is_complete_on_small_space() {
    let target = hash("dog");
    let preimages = find_preimages(target, 3, lowercase());
    assert!(preimages.contains(&"dog".to_string()));
}

#[test]
fn search_is_sound() {
    let target = hash("ab");
    let preimages = find_preimages(target, 2, lowercase());
    assert!(!preimages.is_empty());
    for p in &preimages {
        assert_eq!(p.len(), 2);
        assert_eq!(hash(p), target);
        assert!(p.chars().all(|c| c.is_ascii_lowercase()));
    }
}

#[test]
fn search_crosses_pruned_depths() {
    let target = hash("abcd");
    let preimages = find_preimages(target, 4, lowercase());
    assert!(preimages.contains(&"abcd".to_string()));
    for p in &preimages {
        assert_eq!(hash(p), target);
    }
}

#[test]
fn search_is_deterministic() {
    let target = hash("cat");
    let first = find_preimages(target, 3, lowercase());
    let second = find_preimages(target, 3, lowercase());
    assert_eq!(first, second);
}

#[test]
fn collision_results_keep_worker_order() {
    // two distinct preimages; workers are joined in ascending order of the
    // pinned last character, so "apma" comes before "emae"
    assert_eq!(hash("apma"), 0x56ac8863);
    assert_eq!(hash("emae"), 0x56ac8863);
    let preimages = find_preimages(0x56ac8863, 4, lowercase());
    assert_eq!(preimages, vec!["apma".to_string(), "emae".to_string()]);
}

#[test]
fn length_one_search() {
    let preimages = find_preimages(hash("q"), 1, lowercase());
    assert_eq!(preimages, vec!["q".to_string()]);
}

#[test]
fn no_preimage_yields_empty_list() {
    // 'A' lies below the lowercase code range, so nothing can match
    let preimages = find_preimages(hash("A"), 1, lowercase());
    assert!(preimages.is_empty());
}

#[test]
fn first_position_uses_code_range_not_membership() {
    // the first character is recovered by value and only checked against
    // the alphabet's code range, so a gapped alphabet still yields "b"
    let preimages = find_preimages(hash("b"), 1, vec!['a', 'c']);
    assert_eq!(preimages, vec!["b".to_string()]);
}

#[test]
fn brute_boundaries_hook_is_callable() {
    calculate_brute_boundaries(&['a', 'b'], 4);
}

use scrabble_agent::agent::Agent;
use scrabble_agent::anagrams::{Anagram, Anagrams};
use scrabble_agent::rack::Rack;
use scrabble_agent::scores::ScoreGroups;
use scrabble_agent::trieguy::TrieTree;
use scrabble_agent::weighted_group::WeightedGroups;

fn tree_of(words: &[&str]) -> TrieTree {
    let mut tree = TrieTree::new();
    for w in words {
        tree.insert(w);
    }
    tree
}

fn rack_of(letters: &[char]) -> Rack {
    Rack { letters: letters.to_vec(), weighted_groups: WeightedGroups::new() }
}

fn words_of(anagrams: &Anagrams) -> Vec<(String, u32)> {
    anagrams.anagrams.iter().map(|a| (a.word.clone(), a.score)).collect()
}

#[test]
fn trie_insert_then_search() {
    let mut tree = TrieTree::new();
    assert!(!tree.search("CAT"));
    tree.insert("CAT");
    assert!(tree.search("CAT"));
    tree.insert("DOG");
    assert!(tree.search("CAT"));
    assert!(tree.search("DOG"));
}

#[test]
fn trie_prefix_is_not_a_word() {
    let mut tree = TrieTree::new();
    tree.insert("CATS");
    assert!(!tree.search("C"));
    assert!(!tree.search("CA"));
    assert!(!tree.search("CAT"));
    assert!(tree.search("CATS"));
    assert!(!tree.search("CATSX"));
    assert!(!tree.search("DOG"));
}

#[test]
fn trie_empty_string_is_never_held() {
    let mut tree = TrieTree::new();
    assert!(!tree.search(""));
    tree.insert("");
    assert!(!tree.search(""));
    tree.insert("AT");
    assert!(!tree.search(""));
    assert!(!tree.search("A"));
    assert!(tree.search("AT"));
}

#[test]
fn insert_all_builds_the_whole_word_list() {
    let mut tree = TrieTree::new();
    let words = vec!["CAT".to_string(), "".to_string(), "CATS".to_string(), "DOG".to_string()];
    tree.insert_all(&words);
    assert!(tree.search("CAT"));
    assert!(tree.search("CATS"));
    assert!(tree.search("DOG"));
    assert!(!tree.search(""));
    assert!(!tree.search("DO"));
}

#[test]
fn score_tables_agree_on_letter_values() {
    let sg = ScoreGroups::new();
    let wg = WeightedGroups::new();
    for (c, v) in [
        ('A', 1),
        ('E', 1),
        ('D', 2),
        ('C', 3),
        ('F', 4),
        ('K', 5),
        ('X', 8),
        ('Q', 10),
        ('Z', 10),
        ('_', 0),
    ] {
        assert_eq!(sg.get_score(c), v);
        assert_eq!(wg.get_score(c), v);
    }
}

#[test]
fn estimate_score_adds_bonus_only_past_four_letters() {
    let anagrams = Anagrams::new();
    assert_eq!(anagrams.estimate_score("CATS".to_string()), 6);
    assert_eq!(anagrams.estimate_score("QUILT".to_string()), 24);
    assert_eq!(anagrams.estimate_score("EEEEE".to_string()), 6);
    assert_eq!(anagrams.estimate_score(String::new()), 0);
}

#[test]
fn generate_finds_cats_beside_unused_filler() {
    // the X tiles left in hand weigh 1 each, so the bound at the CATS node
    // is 1, which CATS (6) clears
    let tree = tree_of(&["CATS"]);
    let mut rack = rack_of(&['C', 'A', 'T', 'S', 'X', 'X', 'X']);
    let mut anagrams = Anagrams::new();
    anagrams.generate(String::new(), &mut rack, &tree);
    let found = words_of(&anagrams);
    assert!(found.contains(&("CATS".to_string(), 6)));
}

#[test]
fn generate_filters_words_under_the_threshold() {
    // three E tiles left in hand weigh 12 each, bounding the node at 19,
    // which TOIL (4) misses
    let tree = tree_of(&["TOIL"]);
    let mut rack = rack_of(&['T', 'O', 'I', 'L', 'E', 'E', 'E']);
    let mut anagrams = Anagrams::new();
    anagrams.generate(String::new(), &mut rack, &tree);
    assert!(anagrams.anagrams.is_empty());
}

#[test]
fn generate_keeps_high_scores_and_drops_low_ones() {
    // LATS (4) misses its leftover bound of 10, QATS (13) clears its 11
    let tree = tree_of(&["LATS", "QATS"]);
    let mut rack = rack_of(&['Q', 'A', 'T', 'S', 'E', 'X', 'L']);
    let mut anagrams = Anagrams::new();
    anagrams.generate(String::new(), &mut rack, &tree);
    let found = words_of(&anagrams);
    assert!(found.contains(&("QATS".to_string(), 13)));
    assert!(!found.iter().any(|(w, _)| w == "LATS"));
}

#[test]
fn generate_records_each_derivation_without_deduplication() {
    let tree = tree_of(&["TOOT"]);
    let mut rack = rack_of(&['T', 'O', 'O', 'T', 'X', 'X', 'X']);
    let mut anagrams = Anagrams::new();
    anagrams.generate(String::new(), &mut rack, &tree);
    let count = anagrams.anagrams.iter().filter(|a| a.word == "TOOT").count();
    assert_eq!(count, 4);
    assert!(anagrams.anagrams.iter().all(|a| a.word != "TOOT" || a.score == 4));
}

#[test]
fn generate_substitutes_the_alphabet_for_a_wildcard() {
    let tree = tree_of(&["CATS"]);
    let mut rack = rack_of(&['C', 'A', 'T', '_', 'X', 'X', 'X']);
    let mut anagrams = Anagrams::new();
    anagrams.generate(String::new(), &mut rack, &tree);
    let count = anagrams.anagrams.iter().filter(|a| a.word == "CATS").count();
    assert_eq!(count, 1);
    assert!(anagrams.anagrams.iter().all(|a| a.word != "CATS" || a.score == 6));
}

#[test]
fn generate_on_empty_rack_yields_no_move() {
    let tree = tree_of(&["CATS"]);
    let mut rack = rack_of(&[]);
    let mut anagrams = Anagrams::new();
    anagrams.generate(String::new(), &mut rack, &tree);
    assert!(anagrams.anagrams.is_empty());
    assert!(anagrams.find_best_move().is_none());
}

#[test]
fn generate_with_no_matching_subword_yields_no_move() {
    let tree = tree_of(&["CATS"]);
    let mut rack = rack_of(&['X', 'X', 'X', 'X', 'X', 'X', 'X']);
    let mut anagrams = Anagrams::new();
    anagrams.generate(String::new(), &mut rack, &tree);
    assert!(anagrams.anagrams.is_empty());
    assert!(anagrams.find_best_move().is_none());
}

#[test]
fn best_anagram_ranks_by_score_then_length() {
    let mut anagrams = Anagrams::new();
    anagrams.anagrams.push(Anagram::new("ABCD".to_string(), 5));
    anagrams.anagrams.push(Anagram::new("EFGH".to_string(), 7));
    anagrams.anagrams.push(Anagram::new("IJKLM".to_string(), 7));
    let best = anagrams.get_best_anagram().unwrap();
    assert_eq!(best.word, "IJKLM");
    assert_eq!(best.score, 7);
}

#[test]
fn best_anagram_on_empty_set_is_none() {
    let anagrams = Anagrams::new();
    assert!(anagrams.get_best_anagram().is_none());
}

#[test]
fn five_letter_word_with_best_letter_first_starts_at_three() {
    let mut anagrams = Anagrams::new();
    anagrams.anagrams.push(Anagram::new("QUILT".to_string(), 24));
    let m = anagrams.find_best_move().unwrap();
    assert_eq!(m.word, "QUILT");
    assert_eq!(m.starting_element, 3);
}

#[test]
fn five_letter_word_with_best_letter_elsewhere_starts_at_six() {
    let mut anagrams = Anagrams::new();
    anagrams.anagrams.push(Anagram::new("AQAAA".to_string(), 0));
    let m = anagrams.find_best_move().unwrap();
    assert_eq!(m.starting_element, 6);
}

#[test]
fn six_letter_word_offsets_follow_the_table() {
    for (word, offset) in [("ZAAAAA", 3), ("AZAAAA", 2), ("AAAAAZ", 5), ("AAZAAA", 4)] {
        let mut anagrams = Anagrams::new();
        anagrams.anagrams.push(Anagram::new(word.to_string(), 0));
        let m = anagrams.find_best_move().unwrap();
        assert_eq!(m.starting_element, offset, "word {}", word);
    }
}

#[test]
fn seven_letter_word_offsets_follow_the_table() {
    for (word, offset) in [
        ("ZAAAAAA", 3),
        ("AZAAAAA", 2),
        ("AAZAAAA", 1),
        ("AAAZAAA", 3),
        ("AAAAZAA", 4),
        ("AAAAAZA", 5),
    ] {
        let mut anagrams = Anagrams::new();
        anagrams.anagrams.push(Anagram::new(word.to_string(), 0));
        let m = anagrams.find_best_move().unwrap();
        assert_eq!(m.starting_element, offset, "word {}", word);
    }
}

#[test]
fn short_word_starts_on_the_centre_square() {
    let mut agent = Agent::new();
    let m = agent.find_best_move(&Anagram::new("CAT".to_string(), 5));
    assert_eq!(m.starting_element, 6);
    assert_eq!(agent.board.score, 5);
    assert_eq!(m.anagram.word, "CAT");
}

#[test]
fn agent_places_quilt_and_doubles_the_q() {
    let mut agent = Agent::new();
    let m = agent.find_best_move(&Anagram::new("QUILT".to_string(), 24));
    assert_eq!(m.starting_element, 3);
    assert_eq!(agent.board.score, 24);
}

#[test]
fn final_score_doubles_the_chosen_letter() {
    let agent = Agent::new();
    assert_eq!(agent.get_final_score("QUILT", 0), 24);
    assert_eq!(agent.get_final_score("QUILT", 4), 15);
}

#[test]
fn make_move_writes_the_word_onto_the_row() {
    let mut agent = Agent::new();
    let ok = agent.make_move(&Anagram::new("HELLO".to_string(), 20), 6);
    assert!(ok);
    let expected = ['H', 'E', 'L', 'L', 'O'];
    for (i, c) in expected.iter().enumerate() {
        assert_eq!(agent.board.spaces[6 + i], Some(*c));
    }
    for i in 0..6 {
        assert_eq!(agent.board.spaces[i], None);
    }
    for i in 11..13 {
        assert_eq!(agent.board.spaces[i], None);
    }
}

#[test]
fn make_move_refuses_a_word_past_the_row_end() {
    let mut agent = Agent::new();
    let ok = agent.make_move(&Anagram::new("HELLO".to_string(), 20), 10);
    assert!(!ok);
    for i in 0..13 {
        assert_eq!(agent.board.spaces[i], None);
    }
}

#[test]
fn fresh_rack_has_seven_legal_tiles() {
    for _ in 0..20 {
        let rack = Rack::new();
        assert_eq!(rack.letters.len(), 7);
        let wildcards = rack.letters.iter().filter(|c| **c == '_').count();
        assert!(wildcards <= 2);
        let bag_alphabet = "JKUXZBCFHMPVWY_GDLSUNRTOAIE";
        assert!(rack.letters.iter().all(|c| bag_alphabet.contains(*c)));
        assert!(rack.letters.iter().all(|c| *c != 'Q'));
    }
}

#[test]
fn fresh_agent_has_an_empty_board() {
    let agent = Agent::new();
    assert_eq!(agent.board.spaces.len(), 13);
    assert!(agent.board.spaces.iter().all(|s| s.is_none()));
    assert_eq!(agent.board.score, 0);
    assert_eq!(agent.rack.letters.len(), 7);
}

#[test]
fn cloned_anagram_keeps_word_and_score() {
    let a = Anagram::new("CATS".to_string(), 6);
    let b = a.clone();
    assert_eq!(b.word, "CATS");
    assert_eq!(b.score, 6);
}

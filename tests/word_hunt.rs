use word_hunt::dictionary::load_words;
use word_hunt::ranking::{compare_rank, record};
use word_hunt::solve_words;
use word_hunt::solver::Solver;
use word_hunt::trie_node::TrieNode;

fn grid(rows: &[&[&str]]) -> Vec<Vec<String>> {
    rows.iter()
        .map(|row| row.iter().map(|c| c.to_string()).collect())
        .collect()
}

fn dictionary_of(words: &[&str]) -> TrieNode {
    let mut dictionary = TrieNode::new();
    for w in words {
        dictionary.insert(w);
    }
    dictionary
}

fn sample_board() -> Vec<Vec<String>> {
    grid(&[
        &["o", "e", "t", "w"],
        &["i", "a", "r", "s"],
        &["y", "t", "o", "p"],
        &["r", "w", "b", "s"],
    ])
}

const SAMPLE_WORDS: &str = "tar\ntars\ntear\ntears\ntop\ntops\near\nears\n";

#[test]
fn find_all_words() {
    // Load the dictionary.
    let mut dictionary = TrieNode::new();
    load_words(&mut dictionary, SAMPLE_WORDS);

    let board = sample_board();

    // Find all words on the board.
    let words = solve_words(&dictionary, board);

    println!("Found {} words:", words.len());
    for word in &words {
        println!("{}", word);
    }

    assert!(words.contains(&"ear".to_string()));
    assert!(words.contains(&"ears".to_string()));
    assert!(words.contains(&"tar".to_string()));
    assert!(words.contains(&"tars".to_string()));
    assert!(words.contains(&"tear".to_string()));
    assert!(words.contains(&"tears".to_string()));
    assert!(words.contains(&"top".to_string()));
    assert!(words.contains(&"tops".to_string()));
}

#[test]
fn sample_board_exact_order() {
    let mut dictionary = TrieNode::new();
    load_words(&mut dictionary, SAMPLE_WORDS);
    let words = solve_words(&dictionary, sample_board());
    assert_eq!(
        words,
        vec!["tears", "ears", "tars", "tear", "tops", "ear", "tar", "top"]
    );
}

#[test]
fn solver_find_all_words_matches_solve_words() {
    let dictionary = dictionary_of(&["tear", "top", "rat", "rope"]);
    let solver = Solver::new(&dictionary);
    let board = sample_board();
    assert_eq!(solver.find_all_words(&board), vec!["tear", "rat", "top"]);
    assert_eq!(solve_words(&dictionary, board), vec!["tear", "rat", "top"]);
}

#[test]
fn trie_queries() {
    let trie = dictionary_of(&["cat", "car", "dog"]);
    assert!(trie.is_word("cat"));
    assert!(trie.is_word("car"));
    assert!(!trie.is_word("ca"));
    assert!(!trie.is_word("cats"));
    assert!(trie.has_prefix("ca"));
    assert!(trie.has_prefix("do"));
    assert!(trie.has_prefix("dog"));
    assert!(!trie.has_prefix("dot"));
    assert!(!trie.has_prefix("x"));
}

#[test]
fn empty_prefix_always_matches() {
    let empty = TrieNode::new();
    assert!(empty.has_prefix(""));
    assert!(!empty.has_prefix("a"));
    assert!(!empty.is_word(""));
    assert!(!empty.is_word("a"));
}

#[test]
fn empty_word_can_be_stored() {
    let mut trie = TrieNode::new();
    trie.insert("");
    assert!(trie.is_word(""));
    assert!(!trie.has_prefix("a"));
}

#[test]
fn insertion_is_idempotent() {
    let once = dictionary_of(&["tea"]);
    let thrice = dictionary_of(&["tea", "tea", "tea"]);
    for s in ["", "t", "te", "tea", "teas", "x"] {
        assert_eq!(once.has_prefix(s), thrice.has_prefix(s));
        assert_eq!(once.is_word(s), thrice.is_word(s));
    }
}

#[test]
fn prefix_monotone_and_words_are_prefixes() {
    let trie = dictionary_of(&["plan", "plane"]);
    assert!(!trie.has_prefix("px"));
    assert!(!trie.has_prefix("pxa"));
    assert!(trie.is_word("plan"));
    assert!(trie.has_prefix("plan"));
}

#[test]
fn non_ascii_words() {
    let trie = dictionary_of(&["été"]);
    assert!(trie.is_word("été"));
    assert!(trie.has_prefix("ét"));
    assert!(!trie.has_prefix("et"));
}

#[test]
fn clone_is_independent() {
    let mut source = dictionary_of(&["ant"]);
    let copy = source.clone();
    source.insert("bee");
    assert!(copy.is_word("ant"));
    assert!(!copy.is_word("bee"));
    assert!(source.is_word("bee"));
}

#[test]
fn solver_keeps_its_snapshot() {
    let mut dictionary = dictionary_of(&["zoo"]);
    let solver = Solver::new(&dictionary);
    dictionary.insert("top");
    let board = sample_board();
    assert_eq!(solver.find_all_words(&board), Vec::<String>::new());
    assert_eq!(solve_words(&dictionary, sample_board()), vec!["top"]);
}

#[test]
fn load_words_lowercases_and_splits_lines() {
    let mut dictionary = TrieNode::new();
    load_words(&mut dictionary, "Apple\r\nBANANA\n\n\ncherry");
    assert!(dictionary.is_word("apple"));
    assert!(dictionary.is_word("banana"));
    assert!(dictionary.is_word("cherry"));
    assert!(!dictionary.is_word("Apple"));
    assert!(!dictionary.is_word("apple\r"));
    assert!(!dictionary.is_word(""));
}

#[test]
fn load_words_empty_contents_changes_nothing() {
    let mut dictionary = dictionary_of(&["kiwi"]);
    load_words(&mut dictionary, "");
    assert!(dictionary.is_word("kiwi"));
    assert!(!dictionary.has_prefix("a"));
    load_words(&mut dictionary, "\n\n");
    assert!(!dictionary.is_word(""));
}

#[test]
fn short_words_are_filtered() {
    let dictionary = dictionary_of(&["ea", "ear", "a"]);
    let words = solve_words(&dictionary, sample_board());
    assert_eq!(words, vec!["ear"]);
}

#[test]
fn word_on_two_paths_appears_once() {
    let dictionary = dictionary_of(&["aba"]);
    let board = grid(&[&["a", "b", "a"]]);
    assert_eq!(solve_words(&dictionary, board), vec!["aba"]);
}

#[test]
fn cells_are_not_reused_within_a_path() {
    let dictionary = dictionary_of(&["aba", "abab"]);
    let board = grid(&[&["a", "b"]]);
    assert_eq!(solve_words(&dictionary, board), Vec::<String>::new());
}

#[test]
fn empty_dictionary_finds_nothing() {
    let dictionary = TrieNode::new();
    assert_eq!(solve_words(&dictionary, sample_board()), Vec::<String>::new());
}

#[test]
fn empty_board_finds_nothing() {
    let dictionary = dictionary_of(&["tea"]);
    assert_eq!(solve_words(&dictionary, Vec::new()), Vec::<String>::new());
}

#[test]
fn diagonal_steps_count() {
    let dictionary = dictionary_of(&["cab", "cba"]);
    let board = grid(&[&["c", "x"], &["b", "a"]]);
    assert_eq!(solve_words(&dictionary, board), vec!["cab", "cba"]);
}

#[test]
fn multi_character_cells() {
    let dictionary = dictionary_of(&["quit", "quite"]);
    let board = grid(&[&["qu", "i"], &["e", "t"]]);
    assert_eq!(solve_words(&dictionary, board), vec!["quite", "quit"]);
}

#[test]
fn rows_of_different_lengths() {
    let dictionary = dictionary_of(&["ant", "tan"]);
    let board = grid(&[&["a"], &["n", "t"]]);
    assert_eq!(solve_words(&dictionary, board), vec!["ant", "tan"]);
}

#[test]
fn compare_rank_orders_by_length_then_text() {
    let a: Vec<char> = "tears".chars().collect();
    let b: Vec<char> = "ears".chars().collect();
    let c: Vec<char> = "tars".chars().collect();
    assert_eq!(compare_rank(&a, &b), -1);
    assert_eq!(compare_rank(&b, &a), 1);
    assert_eq!(compare_rank(&b, &c), -1);
    assert_eq!(compare_rank(&c, &b), 1);
    assert_eq!(compare_rank(&c, &c.clone()), 0);
}

#[test]
fn record_keeps_order_and_drops_repeats() {
    let mut words: Vec<Vec<char>> = Vec::new();
    for w in ["top", "tears", "ear", "top", "ears"] {
        record(&mut words, w.chars().collect());
    }
    let texts: Vec<String> = words.iter().map(|w| w.iter().collect()).collect();
    assert_eq!(texts, vec!["tears", "ears", "ear", "top"]);
}

use std::collections::BTreeMap;

use scrabble::cross_checks::CrossChecks;
use scrabble::generation::ScoredScrabblePlay;
use scrabble::{
    board_from_plays, generate_plays, load_dawg, Dawg, Direction, Position, ScrabbleBoard,
    ScrabbleError, ScrabblePlay, ScrabbleRack,
};

/// The words of the dictionary that these tests run against.
const WORDS: &[&str] = &[
    "hello", "cafe", "ah", "fe", "el", "becalmed", "sty", "runty", "rusty", "rutty", "rub", "ruc",
    "rud", "rue", "rug", "rum", "run", "rut", "he", "be", "bed", "ace", "aa", "ab", "ad", "ae",
    "dzo", "gnu", "ivy", "jin", "kip", "lux", "mix", "nix", "oxy", "pix", "quiz", "tux", "up",
    "vim", "wiz", "xi", "yin", "zit",
];

struct TrieNode {
    children: BTreeMap<char, usize>,
    terminal: bool,
}

/// Packs `words` as a trie in the edge format: the root block first, then the blocks of the
/// other nodes in breadth-first order.
fn dictionary_image(words: &[&str]) -> Vec<u8> {
    let mut nodes = vec![TrieNode { children: BTreeMap::new(), terminal: false }];
    for word in words {
        let mut node = 0;
        for ch in word.chars() {
            node = match nodes[node].children.get(&ch) {
                Some(&child) => child,
                None => {
                    nodes.push(TrieNode { children: BTreeMap::new(), terminal: false });
                    let child = nodes.len() - 1;
                    nodes[node].children.insert(ch, child);
                    child
                }
            };
        }
        nodes[node].terminal = true;
    }
    let mut order = vec![0];
    let mut block_start: Vec<Option<u32>> = vec![None; nodes.len()];
    let mut next_edge: u32 = 0;
    let mut i = 0;
    while i < order.len() {
        let node = order[i];
        block_start[node] = Some(next_edge);
        next_edge += nodes[node].children.len() as u32;
        for (_, &child) in &nodes[node].children {
            if !nodes[child].children.is_empty() {
                order.push(child);
            }
        }
        i += 1;
    }
    let mut bytes = Vec::new();
    for &node in &order {
        let count = nodes[node].children.len();
        for (k, (&ch, &child)) in nodes[node].children.iter().enumerate() {
            let target = if nodes[child].children.is_empty() {
                u32::MAX
            } else {
                block_start[child].unwrap()
            };
            bytes.push(ch as u8);
            bytes.push(nodes[child].terminal as u8);
            bytes.push((k + 1 == count) as u8);
            bytes.push(0);
            bytes.extend_from_slice(&target.to_le_bytes());
        }
    }
    bytes
}

fn test_dawg() -> Dawg {
    load_dawg(&dictionary_image(WORDS)).unwrap()
}

fn root_children(dawg: &Dawg) -> String {
    let mut root_children: Vec<char> = Vec::new();
    dawg.apply_to_child_edges(dawg.root(), |edge| (&mut root_children).push(edge.letter));
    root_children.iter().collect()
}

#[test]
fn data_structures_test_load_dawg() {
    let dawg = test_dawg();
    assert!(dawg.contains("hello"));
    assert!(!dawg.contains("helloworld"));
    let root_children = root_children(&dawg);
    assert_eq!(root_children, "abcdefghijklmnopqrstuvwxyz")
}

#[test]
fn dawg_test_load_dawg() {
    let dawg = test_dawg();
    assert!(dawg.contains("hello"));
    assert!(!dawg.contains("helloworld"));
    let root_children = root_children(&dawg);
    assert_eq!(root_children, "abcdefghijklmnopqrstuvwxyz")
}

#[test]
fn test_load_dawg2() {
    let dawg = test_dawg();
    let _k = dawg.walk_from_node(dawg.root(), "pplea");
}

#[test]
fn trie_test_load_dawg() {
    let dawg = test_dawg();
    assert!(dawg.contains("hello"));
    assert!(!dawg.contains("helloworld"));
}

#[test]
fn test_create() {
    let dawg = test_dawg();
    assert_eq!(CrossChecks::create(&dawg, "he", "lo").letters(), "l");
    assert_eq!(CrossChecks::create(&dawg, "he", "oo").letters(), "");
    assert_eq!(CrossChecks::create(&dawg, "hl", "lo").letters(), "");
}

#[test]
fn test_create_2() {
    let dawg = test_dawg();
    assert_eq!(CrossChecks::create(&dawg, "ru", "ty").letters(), "nst");
    assert_eq!(CrossChecks::create(&dawg, "ru", "").letters(), "bcdegmnt");
    assert_eq!(CrossChecks::create(&dawg, "", "ty").letters(), "s");
}

fn get_test_board() -> ScrabbleBoard {
    let existing_plays: Vec<ScrabblePlay> = vec![ScrabblePlay {
        start: Position { row: 7, col: 7 },
        direction: Direction::Horizontal,
        word: "hello".to_string(),
    }];
    board_from_plays(&existing_plays)
}

fn best_play_for_board(rack_contents: &str, board: &ScrabbleBoard) -> ScoredScrabblePlay {
    let dawg = test_dawg();
    let max_n_plays = 5;
    let rack = ScrabbleRack::new(rack_contents).unwrap();
    let plays = generate_plays(&dawg, &rack, board, max_n_plays);
    assert_eq!(plays.len(), max_n_plays);
    plays[0].clone()
}

fn best_play_for_test_board(rack_contents: &str) -> ScoredScrabblePlay {
    let board = get_test_board();
    best_play_for_board(rack_contents, &board)
}

#[test]
fn test_play_gen_1() {
    let best_play = best_play_for_test_board("abcdefg");
    assert_eq!(best_play.play.start, Position { row: 6, col: 6 });
    assert_eq!(best_play.play.direction, Direction::Horizontal);
    assert_eq!(best_play.play.word, "cafe");
    assert_eq!(best_play.score, 32);
}

#[test]
fn test_play_gen_2() {
    let best_play = best_play_for_test_board("abcde__");
    assert_eq!(best_play.play.start, Position { row: 3, col: 10 });
    assert_eq!(best_play.play.direction, Direction::Vertical);
    assert_eq!(best_play.play.word, "becalmed");
    assert_eq!(best_play.score, 110);
}

#[test]
fn cross_checks_sum_the_neighbour_points() {
    let dawg = test_dawg();
    let checks = CrossChecks::create(&dawg, "he", "lo");
    assert_eq!(checks.cross_sum, 7);
    assert!(checks.allows('l'));
    assert!(!checks.allows('x'));
    let blocked = CrossChecks::create(&dawg, "he", "oo");
    assert_eq!(blocked.letters(), "");
    assert_eq!(blocked.cross_sum, 4 + 1 + 1 + 1);
}

#[test]
fn cross_checks_match_dictionary_words() {
    let dawg = test_dawg();
    let cases = [("ru", "ty"), ("ru", ""), ("", "ty"), ("he", "lo"), ("c", "fe"), ("", "h")];
    for (preceding, following) in cases {
        let checks = CrossChecks::create(&dawg, preceding, following);
        for c in 'a'..='z' {
            let word = format!("{}{}{}", preceding, c, following);
            assert_eq!(checks.allows(c), dawg.contains(&word), "{}", word);
        }
    }
}

#[test]
fn contains_needs_a_word_terminator() {
    let dawg = test_dawg();
    assert!(dawg.contains("becalmed"));
    assert!(!dawg.contains("becalm"));
    assert!(!dawg.contains("hell"));
    assert!(!dawg.contains(""));
    assert!(dawg.walk_from_node(dawg.root(), "hell").is_some());
    assert!(dawg.walk_from_node(dawg.root(), "").is_none());
}

#[test]
fn walk_from_prior_edge_continues_a_walk() {
    let dawg = test_dawg();
    let edge = dawg.walk_from_node(dawg.root(), "hel").unwrap();
    assert_eq!(edge.letter, 'l');
    let last = dawg.walk_from_prior_edge(edge, "lo").unwrap();
    assert_eq!(last.letter, 'o');
    assert!(last.word_terminator);
    assert_eq!(dawg.walk_from_prior_edge(edge, ""), Some(edge));
    assert!(dawg.walk_from_prior_edge(edge, "x").is_none());
}

#[test]
fn leaving_edge_scans_one_block() {
    let dawg = test_dawg();
    let z = dawg.leaving_edge(dawg.root(), 'z').unwrap();
    assert_eq!(z.letter, 'z');
    assert!(z.node_terminator);
    assert!(dawg.leaving_edge(dawg.root(), '_').is_none());
    assert_eq!(dawg.child_edges(dawg.root()).len(), 26);
}

#[test]
fn first_edge_of_a_trie_image() {
    let dawg = test_dawg();
    let first = dawg.edges[0];
    assert_eq!(first.letter, 'a');
    assert!(!first.word_terminator);
    assert!(!first.node_terminator);
    assert_eq!(first.target.0, 26);
}

#[test]
fn malformed_images_are_rejected() {
    let mut bytes = dictionary_image(WORDS);
    bytes.push(0);
    assert!(matches!(load_dawg(&bytes), Err(ScrabbleError::MalformedDictionary)));
    let mut bytes = dictionary_image(&["ab"]);
    let n = (bytes.len() / 8) as u32;
    bytes[4..8].copy_from_slice(&n.to_le_bytes());
    assert!(matches!(load_dawg(&bytes), Err(ScrabbleError::MalformedDictionary)));
    assert!(load_dawg(&[]).is_ok());
}

#[test]
fn empty_board_top_play_covers_the_centre() {
    let dawg = test_dawg();
    let rack = ScrabbleRack::new("abcdefg").unwrap();
    let board = ScrabbleBoard::default();
    let plays = generate_plays(&dawg, &rack, &board, 5);
    assert_eq!(plays.len(), 5);
    for play in &plays {
        assert_eq!(play.play.word, "cafe");
        assert_eq!(play.score, 18);
    }
}

#[test]
fn no_legal_play_gives_an_empty_list() {
    let dawg = test_dawg();
    let rack = ScrabbleRack::new("q").unwrap();
    let board = get_test_board();
    assert!(generate_plays(&dawg, &rack, &board, 5).is_empty());
}

#[test]
fn plays_are_ordered_by_score() {
    let dawg = test_dawg();
    let rack = ScrabbleRack::new("abcdefg").unwrap();
    let board = get_test_board();
    let plays = generate_plays(&dawg, &rack, &board, 100);
    assert_eq!(plays.len(), 20);
    for pair in plays.windows(2) {
        assert!(pair[0].score >= pair[1].score);
    }
    assert_eq!(plays[1].play.word, "fe");
    assert_eq!(plays[1].score, 20);
}

/// The premium multipliers (letter, word) of an empty square.
fn premium(row: usize, col: usize) -> (u64, u64) {
    let x = if row <= 7 { 7 - row } else { row - 7 };
    let y = if col <= 7 { 7 - col } else { col - 7 };
    if x == y {
        match x {
            1 => (2, 1),
            2 => (3, 1),
            7 => (1, 3),
            _ => (1, 2),
        }
    } else if x % 7 == 0 || y % 7 == 0 {
        if (x + y) % 7 == 4 { (2, 1) } else { (1, 1) }
    } else if x + 4 == y || y + 4 == x {
        if (x + y) % 7 == 1 { (3, 1) } else { (2, 1) }
    } else {
        (1, 1)
    }
}

fn points(word: &str) -> u64 {
    word.chars().map(|c| scrabble::scoring::letter_value(c) as u64).sum()
}

/// Every legal play by trying each word of the dictionary at each place: the word keeps the
/// tiles it crosses, is bounded by empty squares, places at least one tile, covers an
/// anchor, draws its tiles from the rack (a blank for a missing letter), and each cross-word
/// it forms is a word. Scored by the textbook rules.
fn all_legal_plays(board: &ScrabbleBoard, rack: &str) -> Vec<(String, Direction, usize, usize, u64)> {
    let tile = |r: usize, c: usize| board.get(Position { row: r, col: c });
    let empty_board = (0..15).all(|r| (0..15).all(|c| tile(r, c).is_none()));
    let is_anchor = |r: usize, c: usize| {
        if tile(r, c).is_some() {
            return false;
        }
        if empty_board {
            return r == 7 && c == 7;
        }
        (r > 0 && tile(r - 1, c).is_some())
            || (r < 14 && tile(r + 1, c).is_some())
            || (c > 0 && tile(r, c - 1).is_some())
            || (c < 14 && tile(r, c + 1).is_some())
    };
    let mut result = Vec::new();
    for direction in [Direction::Horizontal, Direction::Vertical] {
        let at = |aisle: usize, cross: usize| match direction {
            Direction::Horizontal => (aisle, cross),
            Direction::Vertical => (cross, aisle),
        };
        let across = |r: usize, c: usize| -> (String, String) {
            let (mut before, mut after) = (Vec::new(), String::new());
            let step = |r: usize, c: usize, k: i64| -> Option<(usize, usize)> {
                let (r2, c2) = match direction {
                    Direction::Horizontal => (r as i64 + k, c as i64),
                    Direction::Vertical => (r as i64, c as i64 + k),
                };
                if (0..15).contains(&r2) && (0..15).contains(&c2) {
                    Some((r2 as usize, c2 as usize))
                } else {
                    None
                }
            };
            let mut k = -1;
            while let Some((r2, c2)) = step(r, c, k) {
                match tile(r2, c2) {
                    Some(t) => before.push(t),
                    None => break,
                }
                k -= 1;
            }
            let mut k = 1;
            while let Some((r2, c2)) = step(r, c, k) {
                match tile(r2, c2) {
                    Some(t) => after.push(t),
                    None => break,
                }
                k += 1;
            }
            (before.iter().rev().collect(), after)
        };
        for aisle in 0..15 {
            for start in 0..15 {
                for word in WORDS {
                    let len = word.len();
                    if start + len > 15 {
                        continue;
                    }
                    if start > 0 && tile(at(aisle, start - 1).0, at(aisle, start - 1).1).is_some() {
                        continue;
                    }
                    if start + len < 15 && tile(at(aisle, start + len).0, at(aisle, start + len).1).is_some() {
                        continue;
                    }
                    let mut counts: BTreeMap<char, usize> = BTreeMap::new();
                    for t in rack.chars() {
                        *counts.entry(t).or_insert(0) += 1;
                    }
                    let (mut ok, mut placed, mut covers) = (true, 0, false);
                    let (mut cross_total, mut primary, mut multiplier) = (0u64, 0u64, 1u64);
                    for (i, ch) in word.chars().enumerate() {
                        let (r, c) = at(aisle, start + i);
                        match tile(r, c) {
                            Some(t) => {
                                if t != ch {
                                    ok = false;
                                    break;
                                }
                                primary += points(&ch.to_string());
                            }
                            None => {
                                covers |= is_anchor(r, c);
                                if counts.get(&ch).copied().unwrap_or(0) > 0 {
                                    *counts.get_mut(&ch).unwrap() -= 1;
                                } else if counts.get(&'_').copied().unwrap_or(0) > 0 {
                                    *counts.get_mut(&'_').unwrap() -= 1;
                                } else {
                                    ok = false;
                                    break;
                                }
                                placed += 1;
                                let (lm, wm) = premium(r, c);
                                let letter = lm * points(&ch.to_string());
                                primary += letter;
                                multiplier *= wm;
                                let (before, after) = across(r, c);
                                if !before.is_empty() || !after.is_empty() {
                                    if !WORDS.contains(&format!("{}{}{}", before, ch, after).as_str()) {
                                        ok = false;
                                        break;
                                    }
                                    cross_total += (points(&before) + points(&after) + letter) * wm;
                                }
                            }
                        }
                    }
                    if ok && placed > 0 && covers {
                        let bonus = if placed == 7 { 50 } else { 0 };
                        let (r, c) = at(aisle, start);
                        let score = cross_total + primary * multiplier + bonus;
                        result.push((word.to_string(), direction, r, c, score));
                    }
                }
            }
        }
    }
    result.sort_by(|a, b| format!("{:?}", a).cmp(&format!("{:?}", b)));
    result
}

fn generated_plays(board: &ScrabbleBoard, rack: &str) -> Vec<(String, Direction, usize, usize, u64)> {
    let dawg = test_dawg();
    let rack = ScrabbleRack::new(rack).unwrap();
    let plays = generate_plays(&dawg, &rack, board, usize::MAX);
    let mut result: Vec<_> = plays
        .into_iter()
        .map(|p| (p.play.word, p.play.direction, p.play.start.row, p.play.start.col, p.score))
        .collect();
    result.sort_by(|a, b| format!("{:?}", a).cmp(&format!("{:?}", b)));
    result
}

#[test]
fn generator_finds_each_legal_play_once() {
    let mut board = get_test_board();
    for rack in ["abcdefg", "abcde__", "rust", "_"] {
        assert_eq!(generated_plays(&board, rack), all_legal_plays(&board, rack), "{}", rack);
    }
    board.add_word("cafe", Position { row: 6, col: 6 }, Direction::Horizontal);
    for rack in ["abcdefg", "ruby__"] {
        assert_eq!(generated_plays(&board, rack), all_legal_plays(&board, rack), "{}", rack);
    }
    let empty = ScrabbleBoard::default();
    assert_eq!(generated_plays(&empty, "abcdef_"), all_legal_plays(&empty, "abcdef_"));
}

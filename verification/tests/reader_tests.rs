use slow_align::alignment::AlgnHard;
use slow_align::cli::split_param_groups;
use slow_align::reader::{dict_line_ids, load_lines, load_sent, parse_gold_line, swapped_pairs, tokenize};
use slow_align::vocab::{vocab_rev, Vocab};

fn sorted(a: &AlgnHard) -> Vec<(usize, usize)> {
    let mut v = a.to_vec();
    v.sort();
    v
}

#[test]
fn vocab_assigns_ids_in_order_of_first_appearance() {
    let mut v = Vocab::new();
    assert_eq!(v.len(), 0);
    assert_eq!(v.get_or_insert("das"), 0);
    assert_eq!(v.get_or_insert("Haus"), 1);
    assert_eq!(v.get_or_insert("das"), 0);
    assert_eq!(v.len(), 2);
    assert_eq!(v.get("Haus"), Some(1));
    assert_eq!(v.get("haus"), None);
    assert_eq!(v.word(1), "Haus");
}

#[test]
fn vocab_handles_many_words_and_hash_collisions() {
    let mut v = Vocab::new();
    for i in 0..2000 {
        assert_eq!(v.get_or_insert(&format!("w{}", i)), i);
    }
    for i in 0..2000 {
        assert_eq!(v.get(&format!("w{}", i)), Some(i));
        assert_eq!(v.get_or_insert(&format!("w{}", i)), i);
    }
    assert_eq!(v.len(), 2000);
}

#[test]
fn vocab_rev_inverts_the_vocabulary() {
    let mut v = Vocab::new();
    v.get_or_insert("a");
    v.get_or_insert("b");
    let rev = vocab_rev(&v);
    assert_eq!(rev.len(), 2);
    assert_eq!(rev.get(&0).map(|s| s.as_str()), Some("a"));
    assert_eq!(rev.get(&1).map(|s| s.as_str()), Some("b"));
    assert_eq!(rev.get(&2), None);
}

#[test]
fn tokenize_decodes_back_to_the_words() {
    let mut v = Vocab::new();
    let ids = tokenize("a rose is a rose", &mut v);
    assert_eq!(ids, vec![0, 1, 2, 0, 1]);
    let words: Vec<String> = ids.iter().map(|&i| v.word(i)).collect();
    assert_eq!(words, vec!["a", "rose", "is", "a", "rose"]);
}

#[test]
fn load_sent_pairs_lines_and_builds_two_vocabularies() {
    let (sents, (v1, v2)) = load_sent("a b a\nc", "x\ny y");
    assert_eq!(sents, vec![(vec![0, 1, 0], vec![0]), (vec![2], vec![1, 1])]);
    assert_eq!(v1.len(), 3);
    assert_eq!(v2.len(), 2);
    assert_eq!(v1.get("c"), Some(2));
    assert_eq!(v2.get("y"), Some(1));
}

#[test]
fn load_sent_stops_at_the_shorter_text() {
    let (sents, (v1, v2)) = load_sent("a\nb\nc", "x");
    assert_eq!(sents.len(), 1);
    assert_eq!(v1.len(), 1);
    assert_eq!(v2.len(), 1);
    let (sents, _) = load_sent("a\n", "x\n");
    assert_eq!(sents, vec![(vec![0], vec![0]), (vec![], vec![])]);
}

#[test]
fn load_lines_skips_and_takes() {
    let l1: Vec<String> = ["a", "b c", "d", "e"].iter().map(|s| s.to_string()).collect();
    let l2: Vec<String> = ["1", "2", "3"].iter().map(|s| s.to_string()).collect();
    let (sents, (v1, v2)) = load_lines(&l1, &l2, 1, 5);
    assert_eq!(sents, vec![(vec![0, 1], vec![0]), (vec![2], vec![1])]);
    assert_eq!(v1.word(0), "b");
    assert_eq!(v2.word(1), "3");
    let (sents, _) = load_lines(&l1, &l2, 0, 1);
    assert_eq!(sents.len(), 1);
    let (sents, _) = load_lines(&l1, &l2, 7, usize::MAX);
    assert!(sents.is_empty());
    let (sents, _) = load_lines(&l1, &l2, 0, usize::MAX);
    assert_eq!(sents.len(), 3);
}

#[test]
fn parse_gold_line_reads_sure_and_possible_links() {
    let (sure, poss) = parse_gold_line("0-1 2?3  4-4 word", false).unwrap();
    assert_eq!(sorted(&sure), vec![(0, 1), (4, 4)]);
    assert_eq!(sorted(&poss), vec![(2, 3)]);
    let (sure, poss) = parse_gold_line("", false).unwrap();
    assert!(sure.is_empty() && poss.is_empty());
}

#[test]
fn parse_gold_line_one_indexed() {
    let (sure, poss) = parse_gold_line("1-2 3?1", true).unwrap();
    assert_eq!(sorted(&sure), vec![(0, 1)]);
    assert_eq!(sorted(&poss), vec![(2, 0)]);
    assert!(parse_gold_line("0-1", true).is_none());
}

#[test]
fn parse_gold_line_rejects_malformed_links() {
    assert!(parse_gold_line("1-2-3", false).is_none());
    assert!(parse_gold_line("a-1", false).is_none());
    assert!(parse_gold_line("-", false).is_none());
    assert!(parse_gold_line("1?", false).is_none());
    assert!(parse_gold_line("1-2?3", false).is_none());
}

#[test]
fn split_param_groups_reads_the_default_recipe() {
    let groups = split_param_groups("[0.0],[0.0],[1.0],[0.8],[0.0,0.1],[0.95],[0.8]");
    assert_eq!(groups.len(), 7);
    assert_eq!(groups[4], vec!["0.0", "0.1"]);
    assert_eq!(groups[6], vec!["0.8"]);
}

#[test]
fn split_param_groups_ignores_spaces_and_empty_values() {
    assert_eq!(split_param_groups(" [ 1, 2 ] , [3,,]"), vec![vec!["1", "2"], vec!["3"]]);
    assert_eq!(split_param_groups("[]"), vec![Vec::<String>::new()]);
    assert!(split_param_groups("no groups").is_empty());
    assert_eq!(split_param_groups("x[1]"), vec![vec!["1"]]);
}

#[test]
fn dict_line_ids_reads_probability_and_words() {
    let mut v1 = Vocab::new();
    let mut v2 = Vocab::new();
    let r = dict_line_ids("0\t0.75\thouse\tHaus", &mut v1, &mut v2);
    assert_eq!(r, Some(("0.75".to_string(), 0, 0)));
    let r = dict_line_ids("0 0.25 the Haus", &mut v1, &mut v2);
    assert_eq!(r, Some(("0.25".to_string(), 1, 0)));
    assert_eq!(v1.len(), 2);
    assert_eq!(v2.len(), 1);
    assert_eq!(v1.word(1), "the");
}

#[test]
fn dict_line_ids_rejects_short_lines() {
    let mut v1 = Vocab::new();
    let mut v2 = Vocab::new();
    assert_eq!(dict_line_ids("0 0.5 house", &mut v1, &mut v2), None);
    assert_eq!(v1.len(), 0);
    assert_eq!(v2.len(), 0);
}

#[test]
fn swapped_pairs_exchanges_sides() {
    let sents = vec![(vec![0, 1], vec![2]), (vec![], vec![3, 4])];
    let r = swapped_pairs(&sents);
    assert_eq!(r, vec![(vec![2], vec![0, 1]), (vec![3, 4], vec![])]);
    assert_eq!(swapped_pairs(&r), sents);
}

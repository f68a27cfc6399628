use chat_rules::experiments::transforms::{
    apply_case_flips, censor_used_words, collect_lowercase_words, corrupt_at_random, corrupt_with,
    elephant_in_the_room, english_degree_censor, even_steven, first_corrupt_at_random,
    first_corrupt_with, first_corrupt_with_draws, gluttony, ordered, palindrome, random_case, remove_vowels,
    replace_uncommon_words, replace_uncommon_words_any_case, replace_unknown_words,
    replace_unknown_words_at_random, research_document, reverse_text,
};
use chat_rules::utils::filter::{split_into_word_vec, Section};

fn s(t: &str) -> String {
    String::from(t)
}

fn words(t: &str) -> Vec<String> {
    split_into_word_vec(&s(t))
        .into_iter()
        .filter_map(|sec| match sec {
            Section::Word(w) => Some(w),
            Section::SpaceOrPunc(_) => None,
        })
        .collect()
}

fn list(v: &[&str]) -> Vec<String> {
    v.iter().map(|x| x.to_string()).collect()
}

#[test]
fn reverse_reads_backwards() {
    assert_eq!(reverse_text(&s("abc d")), "d cba");
    assert_eq!(reverse_text(&s("")), "");
}

#[test]
fn reversing_twice_gives_text_back() {
    let t = s("R\u{e9}sum\u{e9}, ok?");
    assert_eq!(reverse_text(&reverse_text(&t)), t);
}

#[test]
fn remove_vowels_drops_small_and_capital_vowels() {
    assert_eq!(remove_vowels(&s("Hello World, AEIOU")), "Hll Wrld, ");
    assert_eq!(remove_vowels(&s("Apple pie")), "ppl p");
}

#[test]
fn remove_vowels_twice_changes_nothing_more() {
    let once = remove_vowels(&s("education is great"));
    assert_eq!(once, "dctn s grt");
    assert_eq!(remove_vowels(&once), once);
}

#[test]
fn case_flips_follow_the_flags() {
    assert_eq!(apply_case_flips(&s("abC!"), &vec![true, false, false, true]), "Abc!");
}

#[test]
fn case_flips_take_last_char_of_mapping() {
    // 'ß' in capitals is "SS"; the last character is kept
    assert_eq!(apply_case_flips(&s("\u{df}"), &vec![true]), "S");
}

#[test]
fn random_case_keeps_letters() {
    let out = random_case(&s("Hello There"));
    assert_eq!(out.to_lowercase(), "hello there");
    assert_eq!(out.chars().count(), 11);
}

#[test]
fn even_steven_keeps_even_messages() {
    assert_eq!(even_steven(&s("one two")), "one two");
    assert_eq!(even_steven(&s("")), "");
}

#[test]
fn even_steven_censors_every_other_word_of_odd_messages() {
    assert_eq!(even_steven(&s("one two three")), "*** two *****");
    assert_eq!(even_steven(&s("hi")), "**");
}

#[test]
fn gluttony_censors_words_without_exactly_one_vowel() {
    assert_eq!(gluttony(&s("cat sky tree, dog!")), "cat *** ****, dog!");
}

#[test]
fn gluttony_counts_capital_vowels() {
    assert_eq!(gluttony(&s("cat tree Apple")), "cat **** *****");
    assert_eq!(gluttony(&s("Art ART")), "Art ART");
}

#[test]
fn gluttony_leaves_only_one_vowel_words() {
    let out = gluttony(&s("a bee can fly over the sea"));
    assert_eq!(words(&out), vec!["a", "can", "the"]);
}

#[test]
fn elephant_kept_when_mentioned() {
    assert_eq!(elephant_in_the_room(&s("An ELEPHANT here")), "An ELEPHANT here");
    assert_eq!(elephant_in_the_room(&s("elephants")), "elephants");
}

#[test]
fn elephant_replaces_message_otherwise() {
    assert_eq!(elephant_in_the_room(&s("hello there")), "Elephant");
    assert_eq!(elephant_in_the_room(&s("")), "Elephant");
}

#[test]
fn research_document_replaces_pronouns() {
    assert_eq!(research_document(&s("I saw Her, and THEY saw me.")), "derek saw derek, and derek saw derek.");
    assert_eq!(research_document(&s("Igloo hero")), "Igloo hero");
}

#[test]
fn ordered_sorts_words_in_place() {
    assert_eq!(ordered(&s("banana, Apple cherry!")), "Apple, banana cherry!");
}

#[test]
fn ordered_is_stable_for_equal_keys() {
    assert_eq!(ordered(&s("b B a b")), "a b B b");
}

#[test]
fn ordered_result_is_sorted() {
    let out = ordered(&s("zeta Alpha mid beta Zulu"));
    let w = words(&out);
    for i in 1..w.len() {
        assert!(w[i - 1].to_lowercase() <= w[i].to_lowercase());
    }
    assert_eq!(w.len(), 5);
}

#[test]
fn palindrome_keeps_palindromes() {
    assert_eq!(palindrome(&s("Abba")), "Abba");
    assert_eq!(palindrome(&s("a,b.a!")), "a,b.a!");
}

#[test]
fn palindrome_mirrors_other_messages() {
    assert_eq!(palindrome(&s("abc")), "aba");
    // the space is not left out
    assert_eq!(palindrome(&s("ab a")), "abba");
    // punctuation is left out of the mirrored text
    assert_eq!(palindrome(&s("ab, c!")), "abba");
    assert_eq!(palindrome(&s("")), "");
}

#[test]
fn palindrome_result_reads_the_same_backwards() {
    for t in ["Hello there", "xyz!", "Madam, I'm Adam", "q"] {
        let out = palindrome(&s(t));
        let kept: String = out.chars().filter(|c| !",.<>';:[]{}#~/!\"\u{a3}$%^&*()".contains(*c)).collect();
        let back: String = kept.chars().rev().collect();
        assert_eq!(back.to_lowercase(), kept.to_lowercase());
        assert_eq!(palindrome(&out), out);
    }
}

#[test]
fn lowercase_words_of_history() {
    let got = collect_lowercase_words(&list(&["Hi there", "YES, no"]));
    assert_eq!(got, vec!["hi", "there", "yes", "no"]);
}

#[test]
fn hive_mind_replaces_unknown_words_by_chosen_ones() {
    let known = list(&["elephant", "hello"]);
    let out = replace_unknown_words(&s("hello world!"), &known, &vec![0, 0, 1, 0]);
    assert_eq!(out, "hello hello!");
}

#[test]
fn hive_mind_compares_words_as_written() {
    let known = list(&["elephant", "hello"]);
    let out = replace_unknown_words(&s("Hello"), &known, &vec![0]);
    assert_eq!(out, "elephant");
}

#[test]
fn hive_mind_at_random_uses_known_words() {
    let known = list(&["elephant", "cat"]);
    let out = replace_unknown_words_at_random(&s("dog and cat"), &known);
    for w in words(&out) {
        assert!(known.contains(&w));
    }
}

#[test]
fn simplicity_keeps_common_words_in_any_case() {
    let common = list(&["the", "big", "dog"]);
    let out = replace_uncommon_words(&s("The huge DOG"), &common, &vec![0, 0, 1, 0, 0]);
    assert_eq!(out, "The big DOG");
}

#[test]
fn first_simplicity_matches_in_small_letters() {
    let common = list(&["The", "dog"]);
    let out = replace_uncommon_words_any_case(&s("the cat"), &common, &vec![0, 0, 1]);
    assert_eq!(out, "the dog");
}

#[test]
fn unique_censors_used_words() {
    let used = list(&["hello", "there"]);
    assert_eq!(censor_used_words(&s("Hello new THERE"), &used), "***** new *****");
}

#[test]
fn english_degree_counts_and_censors() {
    let all = list(&["extraordinary", "short"]);
    let (text, total, passing) = english_degree_censor(&s("Extraordinary short words"), &all);
    assert_eq!(text, "Extraordinary ***** *****");
    assert_eq!(total, 3);
    assert_eq!(passing, 1);
}

#[test]
fn english_degree_of_text_without_words() {
    let (text, total, passing) = english_degree_censor(&s("!!"), &Vec::new());
    assert_eq!((text.as_str(), total, passing), ("!!", 0, 0));
}

#[test]
fn corruption_swaps_neighbours() {
    let rolls = vec![(0, true), (2, true), (2, false), (0, false), (3, true), (1, true), (1, false), (0, true), (0, true), (3, false)];
    let out = corrupt_with(&s("abcd"), &rolls);
    // step by step: bacd, badc, bdac, bdac, bdac, bdac... computed by hand below
    let mut c: Vec<char> = "abcd".chars().collect();
    for (r, flip) in rolls {
        let other = if flip { if r != c.len() - 1 { r + 1 } else { r } } else if r != 0 { r - 1 } else { r };
        c.swap(r, other);
    }
    assert_eq!(out, c.into_iter().collect::<String>());
}

#[test]
fn corruption_keeps_characters() {
    let out = corrupt_at_random(&s("hello world"));
    let mut a: Vec<char> = out.chars().collect();
    let mut b: Vec<char> = "hello world".chars().collect();
    a.sort();
    b.sort();
    assert_eq!(a, b);
}

#[test]
fn corruption_of_one_character() {
    assert_eq!(corrupt_at_random(&s("x")), "x");
}

#[test]
fn first_corruption_swaps_neighbours() {
    let rolls = vec![(0, true); 10];
    assert_eq!(first_corrupt_with(&s("ab"), &rolls), "ab");
    let rolls2 = vec![(1, false), (0, true), (1, true), (0, true), (1, false), (0, true), (0, true), (1, true), (1, false), (0, true)];
    let mut c: Vec<char> = "abc".chars().collect();
    for (r, flip) in rolls2.clone() {
        let other = if flip { r + 1 } else { r - 1 };
        c.swap(r, other);
    }
    assert_eq!(first_corrupt_with(&s("abc"), &rolls2), c.into_iter().collect::<String>());
}

#[test]
fn first_corruption_with_draws_stops_on_a_move_left_of_the_start() {
    let mut draws = vec![(1, true); 10];
    assert_eq!(first_corrupt_with_draws(&s("abc"), &draws), Some(first_corrupt_with(&s("abc"), &draws)));
    assert_eq!(first_corrupt_with_draws(&s("abc"), &draws), Some(s("abc")));
    draws[7] = (0, false);
    assert_eq!(first_corrupt_with_draws(&s("abc"), &draws), None);
    let mut ok = vec![(0, true); 10];
    ok[9] = (1, true);
    assert_eq!(first_corrupt_with_draws(&s("ab"), &vec![(0, true); 10]), Some(s("ab")));
    assert_eq!(first_corrupt_with_draws(&s("abc"), &ok), Some(first_corrupt_with(&s("abc"), &ok)));
    assert_eq!(first_corrupt_with_draws(&s("abc"), &ok), Some(s("bca")));
}

#[test]
fn first_corruption_at_random_keeps_characters_or_stops() {
    for _ in 0..20 {
        if let Some(out) = first_corrupt_at_random(&s("abcdef")) {
            let mut a: Vec<char> = out.chars().collect();
            a.sort();
            assert_eq!(a, vec!['a', 'b', 'c', 'd', 'e', 'f']);
        }
    }
}

#[test]
fn even_steven_leaves_second_fourth_words() {
    let out = even_steven(&s("a bb ccc dddd eeeee"));
    assert_eq!(out, "* bb *** dddd *****");
    assert_eq!(words(&out), vec!["bb", "dddd"]);
}

#[test]
fn unique_leaves_only_unused_words() {
    let used = list(&["red", "blue"]);
    let out = censor_used_words(&s("Red green, BLUE yellow"), &used);
    assert_eq!(words(&out), vec!["green", "yellow"]);
}

#[test]
fn simplicity_leaves_only_common_words() {
    let common = list(&["a", "cat", "sat"]);
    let out = replace_uncommon_words(&s("A dog sat"), &common, &vec![0, 0, 1, 0, 0]);
    assert_eq!(out, "A cat sat");
    for w in words(&out) {
        assert!(common.contains(&w) || common.contains(&w.to_lowercase()));
    }
}

#[test]
fn english_degree_censored_text_keeps_passing_words() {
    let all = list(&["wonderfully", "remarkable"]);
    let (text, _, _) = english_degree_censor(&s("wonderfully odd, Remarkable stuff"), &all);
    assert_eq!(words(&text), vec!["wonderfully", "Remarkable"]);
}

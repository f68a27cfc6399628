use chat_rules::experiments::base::rules as base;
use chat_rules::experiments::restrictions::rules as restr;

fn bmsg(t: &str) -> base::Message {
    base::Message { text: t.to_string(), by: String::from("ann"), message_type: base::MessageType::User, time: 7 }
}

fn rmsg(t: &str) -> restr::Message {
    restr::Message { text: t.to_string(), by: String::from("bob"), message_type: restr::MessageType::System, time: 9 }
}

#[test]
fn base_reversed_keeps_author_and_time() {
    let m = base::reversed(bmsg("abc"));
    assert_eq!(m.text, "cba");
    assert_eq!(m.by, "ann");
    assert_eq!(m.time, 7);
    assert!(matches!(m.message_type, base::MessageType::User));
}

#[test]
fn base_fck_vwls() {
    assert_eq!(base::fck_vwls(bmsg("banana split")).text, "bnn splt");
}

#[test]
fn restrictions_fck_vwls() {
    let m = restr::fck_vwls(rmsg("queue"));
    assert_eq!(m.text, "q");
    assert_eq!(m.by, "bob");
}

#[test]
fn base_hopeless_sarcastic_keeps_letters() {
    let m = base::hopeless_sarcastic(bmsg("MiXeD"));
    assert_eq!(m.text.to_lowercase(), "mixed");
}

#[test]
fn restrictions_hopeless_sarcastic_keeps_letters() {
    let m = restr::hopeless_sarcastic(rmsg("abc"));
    assert_eq!(m.text.to_uppercase(), "ABC");
}

#[test]
fn base_palindrome() {
    assert_eq!(base::palindrome(bmsg("Never odd or even")).text, "Never odddo reveN");
    assert_eq!(base::palindrome(bmsg("racecar")).text, "racecar");
}

#[test]
fn base_and_restrictions_even_steven() {
    assert_eq!(base::even_steven(bmsg("a b c")).text, "* b *");
    assert_eq!(restr::even_steven(rmsg("a b")).text, "a b");
}

#[test]
fn base_hive_mind_words_come_from_last_thirty_messages() {
    let mut history: Vec<base::Message> = (0..31).map(|i| bmsg(&format!("Word{}", i))).collect();
    history.push(bmsg("late"));
    let words = base::hive_mind_word_list(&history);
    assert_eq!(words.len(), 31);
    assert_eq!(words[0], "elephant");
    assert_eq!(words[1], "word2");
    assert_eq!(words[30], "late");
}

#[test]
fn base_hive_mind_words_with_short_history() {
    let history = vec![bmsg("One two"), bmsg("three")];
    let words = base::hive_mind_word_list(&history);
    assert_eq!(words, vec!["elephant", "one", "two", "three"]);
}

#[test]
fn restrictions_hive_mind_words_come_from_last_thirty_messages() {
    let history: Vec<restr::Message> = (0..32).map(|i| rmsg(&format!("W{}", i))).collect();
    let words = restr::hive_mind_word_list(&history);
    assert_eq!(words.len(), 31);
    assert_eq!(words[0], "elephant");
    assert_eq!(words[1], "w2");
    assert_eq!(words[30], "w31");
}

#[test]
fn hive_mind_replaces_by_history_words() {
    let history = vec![bmsg("cats rule")];
    let m = base::hive_mind(bmsg("cats and dogs"), &history);
    let allowed = ["elephant", "cats", "rule"];
    for w in m.text.split(' ') {
        assert!(allowed.contains(&w), "{}", w);
    }
    assert!(m.text.starts_with("cats "));
    let r = restr::hive_mind(rmsg("x"), &Vec::new());
    assert_eq!(r.text, "elephant");
}

#[test]
fn gluttony_both_versions() {
    assert_eq!(base::gluttony(bmsg("hat hoot")).text, "hat ****");
    assert_eq!(restr::gluttony(rmsg("hat hoot")).text, "hat ****");
}

#[test]
fn elephant_both_versions() {
    assert_eq!(base::elephant_in_the_room(bmsg("nope")).text, "Elephant");
    assert_eq!(restr::elephant_in_the_room(rmsg("big Elephant")).text, "big Elephant");
}

#[test]
fn base_simplicity_replaces_uncommon_words() {
    let common = vec![String::from("The"), String::from("dog")];
    let m = base::simplicity(bmsg("the zebra"), &common);
    assert!(m.text == "the The" || m.text == "the dog");
}

#[test]
fn restrictions_simplicity_replaces_uncommon_words() {
    let common = vec![String::from("the"), String::from("dog")];
    let m = restr::simplicity(rmsg("THE dog cat"), &common);
    assert!(m.text == "THE dog the" || m.text == "THE dog dog");
}

#[test]
fn simplicity_with_no_common_word_and_no_word() {
    assert_eq!(restr::simplicity(rmsg("!! ."), &Vec::new()).text, "!! .");
}

#[test]
fn research_document_both_versions() {
    assert_eq!(base::research_document(bmsg("you and me")).text, "derek and derek");
    assert_eq!(restr::research_document(rmsg("Our plan")).text, "derek plan");
}

#[test]
fn restrictions_english_degree() {
    let all = vec![String::from("wonderfully"), String::from("dictionary")];
    let (m, total, passing) = restr::english_degree(&rmsg("Wonderfully made dictionary"), &all);
    assert_eq!(m.text, "Wonderfully **** dictionary");
    assert_eq!((total, passing), (3, 2));
    assert_eq!(m.by, "bob");
}

#[test]
fn ordered_both_versions() {
    assert_eq!(base::ordered(bmsg("c b a")).text, "a b c");
    assert_eq!(restr::ordered(rmsg("Zed apple")).text, "apple Zed");
}

#[test]
fn base_unique_uses_last_ten_messages() {
    let mut history: Vec<base::Message> = vec![bmsg("old")];
    for i in 0..10 {
        history.push(bmsg(&format!("new{}", i)));
    }
    assert_eq!(base::unique(bmsg("old NEW3 fresh"), &history).text, "old **** fresh");
}

#[test]
fn base_unique_with_short_or_empty_history() {
    let history = vec![bmsg("Alpha beta"), bmsg("gamma")];
    assert_eq!(base::unique(bmsg("alpha gamma BETA delta"), &history).text, "***** ***** **** delta");
    assert_eq!(base::unique(bmsg("alpha"), &Vec::new()).text, "alpha");
}

#[test]
fn restrictions_unique_uses_last_ten_messages() {
    let mut history: Vec<restr::Message> = vec![rmsg("old")];
    for i in 0..10 {
        history.push(rmsg(&format!("new{}", i)));
    }
    assert_eq!(restr::unique(rmsg("old NEW3 fresh"), &history).text, "old **** fresh");
}

#[test]
fn restrictions_unique_with_fewer_than_ten_messages() {
    let history = vec![rmsg("Alpha"), rmsg("beta")];
    assert_eq!(restr::unique(rmsg("alpha BETA gamma"), &history).text, "***** **** gamma");
    assert_eq!(restr::unique(rmsg("alpha"), &Vec::new()).text, "alpha");
}

#[test]
fn fck_vwls_removes_capital_vowels() {
    assert_eq!(base::fck_vwls(bmsg("Apple pie")).text, "ppl p");
    assert_eq!(restr::fck_vwls(rmsg("Apple pie")).text, "ppl p");
}

#[test]
fn gluttony_counts_capital_vowels_in_both_versions() {
    assert_eq!(base::gluttony(bmsg("cat tree Apple")).text, "cat **** *****");
    assert_eq!(restr::gluttony(rmsg("cat tree Apple")).text, "cat **** *****");
}

#[test]
fn restrictions_corruption_keeps_characters() {
    let m = restr::corruption(rmsg("abcdef"));
    let mut c: Vec<char> = m.text.chars().collect();
    c.sort();
    assert_eq!(c, vec!['a', 'b', 'c', 'd', 'e', 'f']);
}

#[test]
fn base_corruption_keeps_characters_when_it_runs() {
    for _ in 0..10 {
        if let Some(m) = base::corruption(bmsg("xy")) {
            assert!(m.text == "xy" || m.text == "yx");
        }
    }
}

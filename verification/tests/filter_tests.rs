use chat_rules::utils::filter::{
    censore_message, combine_section_vec_into_string, is_punc_char, parse_word_list,
    split_into_word_vec, stand_censore, swear_censore, Section,
};

fn runs(v: &Vec<Section>) -> Vec<(bool, String)> {
    v.iter()
        .map(|s| match s {
            Section::Word(w) => (true, w.clone()),
            Section::SpaceOrPunc(p) => (false, p.clone()),
        })
        .collect()
}

fn owned(v: &[(bool, &str)]) -> Vec<(bool, String)> {
    v.iter().map(|(b, s)| (*b, s.to_string())).collect()
}

#[test]
fn split_cuts_words_and_separators() {
    let text = String::from("Hello, world!");
    let v = split_into_word_vec(&text);
    assert_eq!(runs(&v), owned(&[(true, "Hello"), (false, ", "), (true, "world"), (false, "!")]));
}

#[test]
fn split_of_empty_text_is_empty() {
    let v = split_into_word_vec(&String::new());
    assert!(v.is_empty());
}

#[test]
fn split_drops_leading_empty_word() {
    let v = split_into_word_vec(&String::from("  hi"));
    assert_eq!(runs(&v), owned(&[(false, "  "), (true, "hi")]));
}

#[test]
fn split_treats_pound_sign_as_separator() {
    let v = split_into_word_vec(&String::from("a\u{a3}b"));
    assert_eq!(runs(&v), owned(&[(true, "a"), (false, "\u{a3}"), (true, "b")]));
    assert!(is_punc_char('\u{a3}'));
    assert!(!is_punc_char('_'));
}

#[test]
fn split_then_combine_gives_text_back() {
    for t in ["", "one", "  lead and trail  ", "a,b;c[d]e{f}#~/!\"$%^&*()g", "caf\u{e9} \u{a3}5"] {
        let text = String::from(t);
        assert_eq!(combine_section_vec_into_string(split_into_word_vec(&text)), text);
    }
}

#[test]
fn split_runs_alternate_and_are_not_empty() {
    let v = runs(&split_into_word_vec(&String::from("a  b..c d!")));
    for (i, (w, s)) in v.iter().enumerate() {
        assert!(!s.is_empty());
        assert!(s.chars().all(|c| is_punc_char(c) != *w));
        if i + 1 < v.len() {
            assert_ne!(*w, v[i + 1].0);
        }
    }
}

#[test]
fn combine_joins_in_order() {
    let v = vec![
        Section::SpaceOrPunc(String::from("> ")),
        Section::Word(String::from("hi")),
        Section::SpaceOrPunc(String::from("!")),
    ];
    assert_eq!(combine_section_vec_into_string(v), "> hi!");
}

#[test]
fn stand_censore_puts_one_star_per_byte() {
    let mut s = String::from("h\u{e9}llo");
    stand_censore(&mut s);
    assert_eq!(s, "******");
    let mut e = String::new();
    stand_censore(&mut e);
    assert_eq!(e, "");
}

#[test]
fn swear_censore_puts_one_underscore_per_byte() {
    let mut s = String::from("abc");
    swear_censore(&mut s);
    assert_eq!(s, "___");
}

#[test]
fn censore_message_censors_words_holding_a_swear() {
    let swears = vec![String::from("darn")];
    assert_eq!(censore_message(String::from("you darned fool, darn!"), &swears), "you ______ fool, ____!");
}

#[test]
fn censore_message_is_case_sensitive() {
    let swears = vec![String::from("darn")];
    assert_eq!(censore_message(String::from("Darn it"), &swears), "Darn it");
}

#[test]
fn censore_message_without_swears_keeps_message() {
    assert_eq!(censore_message(String::from("all clean here."), &Vec::new()), "all clean here.");
}

#[test]
fn censore_message_with_empty_swear_censors_every_word() {
    let swears = vec![String::from("")];
    assert_eq!(censore_message(String::from("ab, c"), &swears), "__, _");
}

#[test]
fn censored_words_hold_no_swear() {
    let swears = vec![String::from("bad"), String::from("worse")];
    let out = censore_message(String::from("badly worsened good"), &swears);
    for s in runs(&split_into_word_vec(&out)) {
        if s.0 {
            assert!(!s.1.contains("bad") && !s.1.contains("worse"));
        }
    }
    assert_eq!(out, "_____ ________ good");
}

#[test]
fn word_list_is_lowercased_and_trimmed() {
    let words = parse_word_list("Apple\n  Banana \r\nCHERRY\n");
    assert_eq!(words, vec!["apple", "banana", "cherry", ""]);
}

#[test]
fn word_list_of_empty_file_has_one_empty_entry() {
    assert_eq!(parse_word_list(""), vec![String::new()]);
}

#[test]
fn well_formed_runs_are_split_back_into_themselves() {
    let v = vec![
        Section::Word(String::from("ab")),
        Section::SpaceOrPunc(String::from(", ")),
        Section::Word(String::from("c")),
    ];
    let text = combine_section_vec_into_string(v);
    assert_eq!(runs(&split_into_word_vec(&text)), owned(&[(true, "ab"), (false, ", "), (true, "c")]));
}

#[test]
fn censoring_keeps_the_cut_into_words() {
    let swears = vec![String::from("xx")];
    let out = censore_message(String::from("axxb, ok"), &swears);
    assert_eq!(runs(&split_into_word_vec(&out)), owned(&[(true, "____"), (false, ", "), (true, "ok")]));
}

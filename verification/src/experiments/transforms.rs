use vstd::prelude::*;
use crate::text::{utf8_len, repeat_char, chars_of, string_from_chars, upper_last,
    lower_last, char_upper_last, char_lower_last, lowercase, to_lowercase, contains_seq, contains_str};
use crate::random::{random_bool, random_below};
use crate::utils::filter::{Section, sections_of, concat_sections, sections_view,
    split_into_word_vec, combine_section_vec_into_string, stand_censore,
    strings_view, is_punc, is_punc_char, word_runs};

verus! {

/// The vowels `a`, `e`, `i`, `o`, `u`, in small letters or in capitals.
pub open spec fn is_vowel(c: char) -> bool {
    ||| c == 'a' || c == 'e' || c == 'i' || c == 'o' || c == 'u'
    ||| c == 'A' || c == 'E' || c == 'I' || c == 'O' || c == 'U'
}

/// The text without its vowels.
pub open spec fn without_vowels(text: Seq<char>) -> Seq<char> {
    text.filter(|c: char| !is_vowel(c))
}

fn is_vowel_char(c: char) -> (b: bool)
    ensures
        b == is_vowel(c),
{
    c == 'a' || c == 'e' || c == 'i' || c == 'o' || c == 'u'
        || c == 'A' || c == 'E' || c == 'I' || c == 'O' || c == 'U'
}

/// How many words come before run `i`.
pub open spec fn words_before(secs: Seq<(bool, Seq<char>)>, i: int) -> nat {
    word_runs(secs.take(i)).len()
}

/// The runs with the text of each word run `i` replaced by `f(i, text)`.
pub open spec fn map_words(
    secs: Seq<(bool, Seq<char>)>,
    f: spec_fn(int, Seq<char>) -> Seq<char>,
) -> Seq<(bool, Seq<char>)> {
    Seq::new(secs.len(), |i: int| if secs[i].0 { (true, f(i, secs[i].1)) } else { secs[i] })
}

/// The text `w` censored with `*`s, one per byte.
pub open spec fn stars(w: Seq<char>) -> Seq<char> {
    repeat_char('*', utf8_len(w) as nat)
}

/// Joins the sections, putting `repl[i]` in place of each word section `i`.
fn rebuild(sects: &Vec<Section>, repl: &Vec<String>) -> (msg: String)
    requires
        repl@.len() == sects@.len(),
    ensures
        msg@ == concat_sections(Seq::new(
            sects@.len(),
            |i: int| if sects@[i]@.0 { (true, repl@[i]@) } else { sects@[i]@ },
        )),
{
    let ghost target = Seq::new(
        sects@.len(),
        |i: int| if sects@[i]@.0 { (true, repl@[i]@) } else { sects@[i]@ },
    );
    let n = sects.len();
    let mut out: Vec<Section> = Vec::new();
    for i in 0..n
        invariant
            n == sects@.len(),
            repl@.len() == n,
            target == Seq::new(
                sects@.len(),
                |i: int| if sects@[i]@.0 { (true, repl@[i]@) } else { sects@[i]@ },
            ),
            sections_view(out@) == target.take(i as int),
    {
        let ghost before = out@;
        let sec = match &sects[i] {
            Section::Word(_) => Section::Word(repl[i].clone()),
            Section::SpaceOrPunc(s) => Section::SpaceOrPunc(s.clone()),
        };
        assert(sec@ == target[i as int]);
        out.push(sec);
        assert(sections_view(out@) =~= sections_view(before).push(sec@));
        assert(target.take(i as int).push(target[i as int]) =~= target.take(i + 1));
    }
    assert(target.take(n as int) =~= target);
    combine_section_vec_into_string(out)
}

/// The text read backwards.
pub fn reverse_text(text: &String) -> (r: String)
    ensures
        r@ == text@.reverse(),
{
    let chars = chars_of(text.as_str());
    let n = chars.len();
    let mut rev: Vec<char> = Vec::new();
    for i in 0..n
        invariant
            n == chars@.len(),
            chars@ == text@,
            rev@.len() == i,
            forall|j: int| 0 <= j < i ==> rev@[j] == chars@[n - 1 - j],
    {
        rev.push(chars[n - 1 - i]);
    }
    assert(rev@ =~= text@.reverse());
    string_from_chars(rev.as_slice())
}

/// The text without its vowels, small or capital.
pub fn remove_vowels(text: &String) -> (r: String)
    ensures
        r@ == without_vowels(text@),
{
    let chars = chars_of(text.as_str());
    let n = chars.len();
    let mut kept: Vec<char> = Vec::new();
    for i in 0..n
        invariant
            n == chars@.len(),
            chars@ == text@,
            kept@ == text@.take(i as int).filter(|c: char| !is_vowel(c)),
    {
        let c = chars[i];
        proof {
            text@.take(i as int).lemma_filter_push(c, |c: char| !is_vowel(c));
            assert(text@.take(i as int).push(c) =~= text@.take(i + 1));
        }
        if !is_vowel_char(c) {
            kept.push(c);
        }
    }
    assert(text@.take(n as int) =~= text@);
    string_from_chars(kept.as_slice())
}

/// The characters of `text`, each in capitals where `flips` holds at its place and in
/// small letters elsewhere.
pub open spec fn case_flipped(text: Seq<char>, flips: Seq<bool>) -> Seq<char> {
    Seq::new(text.len(), |i: int| if flips[i] { upper_last(text[i]) } else { lower_last(text[i]) })
}

/// The text with character `i` put in capitals where `flips[i]` holds and in small
/// letters elsewhere (the last character of the case mapping of each).
pub fn apply_case_flips(text: &String, flips: &Vec<bool>) -> (r: String)
    requires
        flips@.len() == text@.len(),
    ensures
        r@ == case_flipped(text@, flips@),
{
    let chars = chars_of(text.as_str());
    let n = chars.len();
    let mut out: Vec<char> = Vec::new();
    for i in 0..n
        invariant
            n == chars@.len(),
            chars@ == text@,
            flips@.len() == n,
            out@.len() == i,
            forall|j: int| 0 <= j < i ==> out@[j] == if flips@[j] { upper_last(text@[j]) } else {
                lower_last(text@[j])
            },
    {
        let c = if flips[i] { char_upper_last(chars[i]) } else { char_lower_last(chars[i]) };
        out.push(c);
    }
    let r = string_from_chars(out.as_slice());
    assert(r@ =~= case_flipped(text@, flips@));
    r
}

/// Puts each character of the text at random in capitals or in small letters.
pub fn random_case(text: &String) -> (r: String)
    ensures
        exists|flips: Seq<bool>| flips.len() == text@.len() && r@ == #[trigger] case_flipped(text@, flips),
{
    let n = chars_of(text.as_str()).len();
    let mut flips: Vec<bool> = Vec::new();
    for i in 0..n
        invariant
            flips@.len() == i,
    {
        flips.push(random_bool());
    }
    let r = apply_case_flips(text, &flips);
    assert(r@ == case_flipped(text@, flips@));
    r
}

pub(crate) proof fn lemma_word_runs_step(secs: Seq<(bool, Seq<char>)>, i: int)
    requires
        0 <= i < secs.len(),
    ensures
        word_runs(secs.take(i + 1)) == if secs[i].0 {
            word_runs(secs.take(i)).push(secs[i].1)
        } else {
            word_runs(secs.take(i))
        },
{
    assert(secs.take(i + 1).drop_last() =~= secs.take(i));
}

/// A word run makes the list of word texts non-empty.
pub(crate) proof fn lemma_word_runs_nonempty(secs: Seq<(bool, Seq<char>)>, i: int)
    requires
        0 <= i < secs.len(),
        secs[i].0,
    ensures
        word_runs(secs).len() > 0,
    decreases secs.len(),
{
    if i < secs.len() - 1 {
        lemma_word_runs_nonempty(secs.drop_last(), i);
    }
}

/// Counts the word sections.
fn count_words(sects: &Vec<Section>) -> (n: usize)
    ensures
        n == word_runs(sections_view(sects@)).len(),
{
    let ghost secs = sections_view(sects@);
    let len = sects.len();
    let mut count: usize = 0;
    for i in 0..len
        invariant
            len == sects@.len(),
            secs == sections_view(sects@),
            count == word_runs(secs.take(i as int)).len(),
            count <= i,
    {
        proof { lemma_word_runs_step(secs, i as int); }
        if let Section::Word(_) = &sects[i] {
            count = count + 1;
        }
    }
    assert(secs.take(len as int) =~= secs);
    count
}

/// The rule text of "Even Steven": a text with an even number of words stays; otherwise
/// the first, third, fifth, ... word is censored with `*`s.
pub open spec fn even_steven_text(text: Seq<char>) -> Seq<char> {
    let secs = sections_of(text);
    if word_runs(secs).len() % 2 == 0 {
        text
    } else {
        concat_sections(
            map_words(secs, |i: int, w: Seq<char>| if words_before(secs, i) % 2 == 0 { stars(w) } else { w }),
        )
    }
}

/// "Even Steven": with an odd number of words, every other word (from the first) is censored.
pub fn even_steven(text: &String) -> (r: String)
    ensures
        r@ == even_steven_text(text@),
{
    let sects = split_into_word_vec(text);
    let ghost secs = sections_of(text@);
    let count = count_words(&sects);
    if count % 2 == 0 {
        return text.clone();
    }
    let ghost f = |i: int, w: Seq<char>| if words_before(secs, i) % 2 == 0 { stars(w) } else { w };
    let n = sects.len();
    let mut repl: Vec<String> = Vec::new();
    let mut rank: usize = 0;
    for i in 0..n
        invariant
            n == sects@.len(),
            secs == sections_view(sects@),
            f == (|i: int, w: Seq<char>| if words_before(secs, i) % 2 == 0 { stars(w) } else { w }),
            rank == words_before(secs, i as int),
            rank <= i,
            repl@.len() == i,
            forall|j: int| 0 <= j < i && secs[j].0 ==> #[trigger] repl@[j]@ == f(j, secs[j].1),
    {
        proof { lemma_word_runs_step(secs, i as int); }
        match &sects[i] {
            Section::Word(w) => {
                let mut s = w.clone();
                if rank % 2 == 0 {
                    stand_censore(&mut s);
                }
                repl.push(s);
                rank = rank + 1;
            }
            Section::SpaceOrPunc(_) => {
                repl.push(String::new());
            }
        }
    }
    let r = rebuild(&sects, &repl);
    assert(Seq::new(sects@.len(), |i: int| if sects@[i]@.0 { (true, repl@[i]@) } else { sects@[i]@ })
        =~= map_words(secs, f));
    r
}

/// How many vowels, small or capital, `w` holds.
pub open spec fn vowel_count(w: Seq<char>) -> nat {
    w.filter(|c: char| is_vowel(c)).len()
}

fn count_vowels(w: &String) -> (n: usize)
    ensures
        n == vowel_count(w@),
{
    let chars = chars_of(w.as_str());
    let len = chars.len();
    let mut n: usize = 0;
    for i in 0..len
        invariant
            len == chars@.len(),
            chars@ == w@,
            n == vowel_count(w@.take(i as int)),
            n <= i,
    {
        proof {
            w@.take(i as int).lemma_filter_push(chars@[i as int], |c: char| is_vowel(c));
            assert(w@.take(i as int).push(chars@[i as int]) =~= w@.take(i + 1));
        }
        if is_vowel_char(chars[i]) {
            n = n + 1;
        }
    }
    assert(w@.take(len as int) =~= w@);
    n
}

/// The rule text of "Gluttony": each word without exactly one vowel is censored with `*`s.
pub open spec fn gluttony_text(text: Seq<char>) -> Seq<char> {
    concat_sections(map_words(sections_of(text), |i: int, w: Seq<char>| if vowel_count(w) != 1 { stars(w) } else { w }))
}

/// "Gluttony": words that do not hold exactly one vowel are censored.
pub fn gluttony(text: &String) -> (r: String)
    ensures
        r@ == gluttony_text(text@),
{
    let sects = split_into_word_vec(text);
    let ghost secs = sections_of(text@);
    let ghost f = |i: int, w: Seq<char>| if vowel_count(w) != 1 { stars(w) } else { w };
    let n = sects.len();
    let mut repl: Vec<String> = Vec::new();
    for i in 0..n
        invariant
            n == sects@.len(),
            secs == sections_view(sects@),
            f == (|i: int, w: Seq<char>| if vowel_count(w) != 1 { stars(w) } else { w }),
            repl@.len() == i,
            forall|j: int| 0 <= j < i && secs[j].0 ==> #[trigger] repl@[j]@ == f(j, secs[j].1),
    {
        match &sects[i] {
            Section::Word(w) => {
                let mut s = w.clone();
                if count_vowels(&s) != 1 {
                    stand_censore(&mut s);
                }
                repl.push(s);
            }
            Section::SpaceOrPunc(_) => {
                repl.push(String::new());
            }
        }
    }
    let r = rebuild(&sects, &repl);
    assert(Seq::new(sects@.len(), |i: int| if sects@[i]@.0 { (true, repl@[i]@) } else { sects@[i]@ })
        =~= map_words(secs, f));
    r
}

/// The word `elephant`.
pub open spec fn elephant_word() -> Seq<char> {
    seq!['e', 'l', 'e', 'p', 'h', 'a', 'n', 't']
}

/// The word `Elephant`.
pub open spec fn capital_elephant_word() -> Seq<char> {
    seq!['E', 'l', 'e', 'p', 'h', 'a', 'n', 't']
}

/// The rule text of "The elephant in the room": a text that mentions `elephant`, in any
/// case, stays; any other becomes `Elephant`.
pub open spec fn elephant_text(text: Seq<char>) -> Seq<char> {
    if contains_seq(lowercase(text), elephant_word()) {
        text
    } else {
        capital_elephant_word()
    }
}

/// "The elephant in the room": the message must mention the elephant.
pub fn elephant_in_the_room(text: &String) -> (r: String)
    ensures
        r@ == elephant_text(text@),
{
    let lower = to_lowercase(text.as_str());
    proof {
        reveal_strlit("elephant");
        reveal_strlit("Elephant");
        assert("elephant"@ =~= elephant_word());
        assert("Elephant"@ =~= capital_elephant_word());
    }
    if contains_str(lower.as_str(), "elephant") {
        text.clone()
    } else {
        String::from_str("Elephant")
    }
}

/// The personal pronouns of "Research document".
pub open spec fn pronouns() -> Seq<Seq<char>> {
    seq![
        "I"@, "me"@, "you"@, "he"@, "she"@, "they"@, "them"@, "him"@, "her"@, "hers"@, "his"@,
        "its"@, "theirs"@, "our"@, "your"@,
    ]
}

/// The name that replaces pronouns.
pub open spec fn derek_word() -> Seq<char> {
    seq!['d', 'e', 'r', 'e', 'k']
}

/// Whether `w` equals one of `list` once both are put in small letters.
pub open spec fn matches_lowercase(list: Seq<Seq<char>>, w: Seq<char>) -> bool {
    exists|k: int| 0 <= k < list.len() && lowercase(#[trigger] list[k]) == lowercase(w)
}

/// The rule text of "Research document": each word that is a personal pronoun (in any
/// case) becomes `derek`.
pub open spec fn research_document_text(text: Seq<char>) -> Seq<char> {
    concat_sections(
        map_words(sections_of(text), |i: int, w: Seq<char>| if matches_lowercase(pronouns(), w) { derek_word() } else { w }),
    )
}

/// Whether `w`, in small letters, equals one of `list` in small letters.
fn lowercase_member(list: &Vec<&str>, w: &String) -> (b: bool)
    ensures
        b == matches_lowercase(list@.map_values(|s: &str| s@), w@),
{
    let ghost lv = list@.map_values(|s: &str| s@);
    let lw = to_lowercase(w.as_str());
    let n = list.len();
    for k in 0..n
        invariant
            n == list@.len(),
            lv == list@.map_values(|s: &str| s@),
            lw@ == lowercase(w@),
            forall|t: int| 0 <= t < k ==> lowercase(#[trigger] lv[t]) != lowercase(w@),
    {
        let lk = to_lowercase(list[k]);
        if lk == lw {
            assert(lowercase(lv[k as int]) == lowercase(w@));
            return true;
        }
    }
    false
}

/// "Research document": personal pronouns are replaced by the name derek.
pub fn research_document(text: &String) -> (r: String)
    ensures
        r@ == research_document_text(text@),
{
    let word_list: Vec<&str> = vec![
        "I", "me", "you", "he", "she", "they", "them", "him", "her", "hers", "his", "its",
        "theirs", "our", "your",
    ];
    assert(word_list@.map_values(|s: &str| s@) =~= pronouns());
    let sects = split_into_word_vec(text);
    let ghost secs = sections_of(text@);
    let ghost f = |i: int, w: Seq<char>| if matches_lowercase(pronouns(), w) { derek_word() } else { w };
    proof {
        reveal_strlit("derek");
        assert("derek"@ =~= derek_word());
    }
    let n = sects.len();
    let mut repl: Vec<String> = Vec::new();
    for i in 0..n
        invariant
            n == sects@.len(),
            secs == sections_view(sects@),
            word_list@.map_values(|s: &str| s@) == pronouns(),
            "derek"@ == derek_word(),
            f == (|i: int, w: Seq<char>| if matches_lowercase(pronouns(), w) { derek_word() } else { w }),
            repl@.len() == i,
            forall|j: int| 0 <= j < i && secs[j].0 ==> #[trigger] repl@[j]@ == f(j, secs[j].1),
    {
        match &sects[i] {
            Section::Word(w) => {
                if lowercase_member(&word_list, w) {
                    repl.push(String::from_str("derek"));
                } else {
                    repl.push(w.clone());
                }
            }
            Section::SpaceOrPunc(_) => {
                repl.push(String::new());
            }
        }
    }
    let r = rebuild(&sects, &repl);
    assert(Seq::new(sects@.len(), |i: int| if sects@[i]@.0 { (true, repl@[i]@) } else { sects@[i]@ })
        =~= map_words(secs, f));
    r
}

/// The words of `t`, each in small letters.
pub open spec fn lowercase_words(t: Seq<char>) -> Seq<Seq<char>> {
    word_runs(sections_of(t)).map_values(|w: Seq<char>| lowercase(w))
}

/// The words of all the texts, in order, each in small letters.
pub open spec fn history_words(texts: Seq<Seq<char>>) -> Seq<Seq<char>> {
    texts.map_values(|t: Seq<char>| lowercase_words(t)).flatten()
}

/// The words of all the texts, in order, each in small letters.
pub fn collect_lowercase_words(texts: &Vec<String>) -> (words: Vec<String>)
    ensures
        strings_view(words@) == history_words(strings_view(texts@)),
{
    let ghost tv = strings_view(texts@);
    let n = texts.len();
    let mut words: Vec<String> = Vec::new();
    for k in 0..n
        invariant
            n == texts@.len(),
            tv == strings_view(texts@),
            strings_view(words@) == history_words(tv.take(k as int)),
    {
        let sects = split_into_word_vec(&texts[k]);
        let ghost secs = sections_of(tv[k as int]);
        let ghost base = strings_view(words@);
        let m = sects.len();
        for i in 0..m
            invariant
                m == sects@.len(),
                secs == sections_view(sects@),
                strings_view(words@) == base + word_runs(secs.take(i as int)).map_values(
                    |w: Seq<char>| lowercase(w),
                ),
        {
            proof { lemma_word_runs_step(secs, i as int); }
            let ghost wv = strings_view(words@);
            if let Section::Word(w) = &sects[i] {
                let l = to_lowercase(w.as_str());
                words.push(l);
                assert(strings_view(words@) =~= wv.push(l@));
            }
            assert(word_runs(secs.take(i + 1)).map_values(|w: Seq<char>| lowercase(w))
                =~= if secs[i as int].0 {
                    word_runs(secs.take(i as int)).map_values(|w: Seq<char>| lowercase(w)).push(
                        lowercase(secs[i as int].1),
                    )
                } else {
                    word_runs(secs.take(i as int)).map_values(|w: Seq<char>| lowercase(w))
                });
        }
        assert(secs.take(m as int) =~= secs);
        proof {
            let ts = tv.take(k as int).map_values(|t: Seq<char>| lowercase_words(t));
            ts.lemma_flatten_push(lowercase_words(tv[k as int]));
            assert(tv.take(k + 1).map_values(|t: Seq<char>| lowercase_words(t))
                =~= ts.push(lowercase_words(tv[k as int])));
        }
    }
    assert(tv.take(n as int) =~= tv);
    words
}

/// The runs of `secs`, each word run `i` for which `marked` holds being replaced by
/// `list[picks[i]]`.
pub open spec fn replace_marked(
    secs: Seq<(bool, Seq<char>)>,
    marked: spec_fn(Seq<char>) -> bool,
    list: Seq<Seq<char>>,
    picks: Seq<usize>,
) -> Seq<(bool, Seq<char>)> {
    map_words(secs, |i: int, w: Seq<char>| if marked(w) { list[picks[i] as int] } else { w })
}

/// Whether `picks` holds a valid index into a list of `len` words for each marked word run.
pub open spec fn picks_valid(
    secs: Seq<(bool, Seq<char>)>,
    marked: spec_fn(Seq<char>) -> bool,
    len: nat,
    picks: Seq<usize>,
) -> bool {
    &&& picks.len() == secs.len()
    &&& forall|i: int| 0 <= i < secs.len() && secs[i].0 && marked(secs[i].1) ==> #[trigger] picks[i] < len
}

/// Puts `list[picks[i]]` in place of each word section `i` with `marks[i]`.
fn fill_marked(sects: &Vec<Section>, marks: &Vec<bool>, list: &Vec<String>, picks: &Vec<usize>) -> (r: String)
    requires
        marks@.len() == sects@.len(),
        picks@.len() == sects@.len(),
        forall|i: int| 0 <= i < sects@.len() && sects@[i]@.0 && marks@[i] ==> #[trigger] picks@[i] < list@.len(),
    ensures
        r@ == concat_sections(map_words(
            sections_view(sects@),
            |i: int, w: Seq<char>| if marks@[i] { list@[picks@[i] as int]@ } else { w },
        )),
{
    let ghost secs = sections_view(sects@);
    let ghost f = |i: int, w: Seq<char>| if marks@[i] { list@[picks@[i] as int]@ } else { w };
    let n = sects.len();
    let mut repl: Vec<String> = Vec::new();
    for i in 0..n
        invariant
            n == sects@.len(),
            secs == sections_view(sects@),
            marks@.len() == n,
            picks@.len() == n,
            forall|i: int| 0 <= i < sects@.len() && sects@[i]@.0 && marks@[i] ==> #[trigger] picks@[i] < list@.len(),
            f == (|i: int, w: Seq<char>| if marks@[i] { list@[picks@[i] as int]@ } else { w }),
            repl@.len() == i,
            forall|j: int| 0 <= j < i && secs[j].0 ==> #[trigger] repl@[j]@ == f(j, secs[j].1),
    {
        match &sects[i] {
            Section::Word(w) => {
                assert(sects@[i as int]@.0);
                if marks[i] {
                    repl.push(list[picks[i]].clone());
                } else {
                    repl.push(w.clone());
                }
            }
            Section::SpaceOrPunc(_) => {
                repl.push(String::new());
            }
        }
    }
    let r = rebuild(&sects, &repl);
    assert(Seq::new(sects@.len(), |i: int| if sects@[i]@.0 { (true, repl@[i]@) } else { sects@[i]@ })
        =~= map_words(secs, f));
    r
}

/// Whether `w` is one of `list`.
fn member(list: &Vec<String>, w: &String) -> (b: bool)
    ensures
        b == strings_view(list@).contains(w@),
{
    let n = list.len();
    for k in 0..n
        invariant
            n == list@.len(),
            forall|t: int| 0 <= t < k ==> list@[t]@ != w@,
    {
        if list[k] == *w {
            assert(strings_view(list@)[k as int] == w@);
            return true;
        }
    }
    assert forall|t: int| 0 <= t < strings_view(list@).len() implies strings_view(list@)[t] != w@ by {
        assert(strings_view(list@)[t] == list@[t]@);
    }
    false
}

/// Whether `w`, in small letters, equals one of `list` in small letters.
fn member_lowercase(list: &Vec<String>, w: &String) -> (b: bool)
    ensures
        b == matches_lowercase(strings_view(list@), w@),
{
    let ghost lv = strings_view(list@);
    let lw = to_lowercase(w.as_str());
    let n = list.len();
    for k in 0..n
        invariant
            n == list@.len(),
            lv == strings_view(list@),
            lw@ == lowercase(w@),
            forall|t: int| 0 <= t < k ==> lowercase(#[trigger] lv[t]) != lowercase(w@),
    {
        let lk = to_lowercase(list[k].as_str());
        if lk == lw {
            assert(lowercase(lv[k as int]) == lowercase(w@));
            return true;
        }
    }
    false
}

/// Whether a word is unknown to "Hive mind": it is not, as written, in `list`.
pub open spec fn not_in(list: Seq<Seq<char>>) -> spec_fn(Seq<char>) -> bool {
    |w: Seq<char>| !list.contains(w)
}

/// Whether a word is unknown to "Simplicity": its small-letter form is not in `list`.
pub open spec fn lowercase_not_in(list: Seq<Seq<char>>) -> spec_fn(Seq<char>) -> bool {
    |w: Seq<char>| !list.contains(lowercase(w))
}

/// Whether no word of `list` equals it once both are in small letters.
pub open spec fn no_lowercase_match(list: Seq<Seq<char>>) -> spec_fn(Seq<char>) -> bool {
    |w: Seq<char>| !matches_lowercase(list, w)
}

/// The test that tells the words to replace.
#[derive(Clone, Copy)]
enum UnknownTest {
    NotListed,
    LowercaseNotListed,
    NoLowercaseMatch,
}

/// The words that `test` marks, against `list`.
spec fn marked_by(test: UnknownTest, list: Seq<Seq<char>>) -> spec_fn(Seq<char>) -> bool {
    match test {
        UnknownTest::NotListed => not_in(list),
        UnknownTest::LowercaseNotListed => lowercase_not_in(list),
        UnknownTest::NoLowercaseMatch => no_lowercase_match(list),
    }
}

/// The marks of the word sections under `test`.
fn unknown_marks(sects: &Vec<Section>, list: &Vec<String>, test: UnknownTest) -> (marks: Vec<bool>)
    ensures
        marks@.len() == sects@.len(),
        forall|i: int| 0 <= i < sects@.len() && !sects@[i]@.0 ==> !#[trigger] marks@[i],
        forall|i: int| 0 <= i < sects@.len() && sects@[i]@.0 ==> #[trigger] marks@[i] == marked_by(test, strings_view(list@))(sects@[i]@.1),
{
    let n = sects.len();
    let mut marks: Vec<bool> = Vec::new();
    for i in 0..n
        invariant
            n == sects@.len(),
            marks@.len() == i,
            forall|j: int| 0 <= j < i && !sects@[j]@.0 ==> !#[trigger] marks@[j],
            forall|j: int| 0 <= j < i && sects@[j]@.0 ==> #[trigger] marks@[j] == marked_by(test, strings_view(list@))(sects@[j]@.1),
    {
        match &sects[i] {
            Section::Word(w) => {
                let m = match test {
                    UnknownTest::NotListed => !member(list, w),
                    UnknownTest::LowercaseNotListed => {
                        let l = to_lowercase(w.as_str());
                        !member(list, &l)
                    }
                    UnknownTest::NoLowercaseMatch => !member_lowercase(list, w),
                };
                marks.push(m);
            }
            Section::SpaceOrPunc(_) => {
                marks.push(false);
            }
        }
    }
    marks
}

/// Replaces the unknown words of `text` (unknown under `test`) by words of `list`
/// chosen by `picks`.
fn replace_unknown(text: &String, list: &Vec<String>, picks: &Vec<usize>, test: UnknownTest) -> (r: String)
    requires
        picks_valid(
            sections_of(text@),
            marked_by(test, strings_view(list@)),
            list@.len(),
            picks@,
        ),
    ensures
        r@ == concat_sections(replace_marked(
            sections_of(text@),
            marked_by(test, strings_view(list@)),
            strings_view(list@),
            picks@,
        )),
{
    let ghost marked = marked_by(test, strings_view(list@));
    let sects = split_into_word_vec(text);
    let ghost secs = sections_of(text@);
    let marks = unknown_marks(&sects, list, test);
    assert forall|i: int| 0 <= i < sects@.len() && sects@[i]@.0 && marks@[i] implies #[trigger] picks@[i] < list@.len() by {
        assert(secs[i] == sects@[i]@);
    }
    let r = fill_marked(&sects, &marks, list, picks);
    assert(map_words(secs, |i: int, w: Seq<char>| if marks@[i] { list@[picks@[i] as int]@ } else { w })
        =~= replace_marked(secs, marked, strings_view(list@), picks@)) by {
        assert forall|i: int| 0 <= i < secs.len() && secs[i].0 implies marks@[i] == marked(secs[i].1) by {
            assert(secs[i] == sects@[i]@);
        }
    }
    r
}

/// Draws, for each unknown word of `text` (under `test`), a random index into a
/// list of `len` words.
fn draw_picks(text: &String, list: &Vec<String>, test: UnknownTest) -> (picks: Vec<usize>)
    requires
        list@.len() > 0 || word_runs(sections_of(text@)).len() == 0,
    ensures
        picks_valid(
            sections_of(text@),
            marked_by(test, strings_view(list@)),
            list@.len(),
            picks@,
        ),
{
    let sects = split_into_word_vec(text);
    let ghost secs = sections_of(text@);
    let marks = unknown_marks(&sects, list, test);
    let n = sects.len();
    assert forall|j: int| 0 <= j < n && #[trigger] marks@[j] implies sects@[j]@.0 by {}
    let mut picks: Vec<usize> = Vec::new();
    for i in 0..n
        invariant
            n == sects@.len(),
            marks@.len() == n,
            secs == sections_view(sects@),
            forall|j: int| 0 <= j < n && #[trigger] marks@[j] ==> sects@[j]@.0,
            list@.len() > 0 || word_runs(secs).len() == 0,
            picks@.len() == i,
            forall|j: int| 0 <= j < i && marks@[j] ==> #[trigger] picks@[j] < list@.len(),
    {
        if marks[i] {
            proof { lemma_word_runs_nonempty(secs, i as int); }
            picks.push(random_below(list.len()));
        } else {
            picks.push(0);
        }
    }
    assert forall|i: int| 0 <= i < secs.len() && secs[i].0 && marked_by(test, strings_view(list@))(secs[i].1)
        implies #[trigger] picks@[i] < list@.len() by {
        assert(secs[i] == sects@[i]@);
    }
    picks
}

/// The rule text of "Hive mind": each word that is not, as written, one of `list` is
/// replaced by `list[picks[i]]`.
pub open spec fn hive_mind_text(text: Seq<char>, list: Seq<Seq<char>>, picks: Seq<usize>) -> Seq<char> {
    concat_sections(replace_marked(sections_of(text), not_in(list), list, picks))
}

/// "Hive mind" with the random choices given: each word that is not one of `list` is
/// replaced by the word of `list` that `picks` names for its section.
pub fn replace_unknown_words(text: &String, list: &Vec<String>, picks: &Vec<usize>) -> (r: String)
    requires
        picks_valid(sections_of(text@), not_in(strings_view(list@)), list@.len(), picks@),
    ensures
        r@ == hive_mind_text(text@, strings_view(list@), picks@),
{
    replace_unknown(text, list, picks, UnknownTest::NotListed)
}

/// "Hive mind": each word that is not one of `list` is replaced by a random word of `list`.
pub fn replace_unknown_words_at_random(text: &String, list: &Vec<String>) -> (r: String)
    requires
        list@.len() > 0,
    ensures
        exists|picks: Seq<usize>|
            picks_valid(sections_of(text@), not_in(strings_view(list@)), list@.len(), picks)
            && r@ == #[trigger] hive_mind_text(text@, strings_view(list@), picks),
{
    let picks = draw_picks(text, list, UnknownTest::NotListed);
    let r = replace_unknown_words(text, list, &picks);
    assert(r@ == hive_mind_text(text@, strings_view(list@), picks@));
    r
}

/// The rule text of "Simplicity": each word whose small-letter form is not one of `common`
/// is replaced by `common[picks[i]]`.
pub open spec fn simplicity_text(text: Seq<char>, common: Seq<Seq<char>>, picks: Seq<usize>) -> Seq<char> {
    concat_sections(replace_marked(sections_of(text), lowercase_not_in(common), common, picks))
}

/// "Simplicity" with the random choices given.
pub fn replace_uncommon_words(text: &String, common: &Vec<String>, picks: &Vec<usize>) -> (r: String)
    requires
        picks_valid(sections_of(text@), lowercase_not_in(strings_view(common@)), common@.len(), picks@),
    ensures
        r@ == simplicity_text(text@, strings_view(common@), picks@),
{
    replace_unknown(text, common, picks, UnknownTest::LowercaseNotListed)
}

/// "Simplicity": each word whose small-letter form is not one of `common` is replaced by
/// a random word of `common`. With no common word at all, only a text without words can
/// go through.
pub fn replace_uncommon_words_at_random(text: &String, common: &Vec<String>) -> (r: String)
    requires
        common@.len() > 0 || word_runs(sections_of(text@)).len() == 0,
    ensures
        exists|picks: Seq<usize>|
            picks_valid(sections_of(text@), lowercase_not_in(strings_view(common@)), common@.len(), picks)
            && r@ == #[trigger] simplicity_text(text@, strings_view(common@), picks),
{
    let picks = draw_picks(text, common, UnknownTest::LowercaseNotListed);
    let r = replace_uncommon_words(text, common, &picks);
    assert(r@ == simplicity_text(text@, strings_view(common@), picks@));
    r
}

/// The rule text of the first "Simplicity": each word that equals no word of `common` once
/// both are in small letters is replaced by `common[picks[i]]`.
pub open spec fn simplicity_any_case_text(text: Seq<char>, common: Seq<Seq<char>>, picks: Seq<usize>) -> Seq<char> {
    concat_sections(replace_marked(sections_of(text), no_lowercase_match(common), common, picks))
}

/// The first "Simplicity" with the random choices given.
pub fn replace_uncommon_words_any_case(text: &String, common: &Vec<String>, picks: &Vec<usize>) -> (r: String)
    requires
        picks_valid(sections_of(text@), no_lowercase_match(strings_view(common@)), common@.len(), picks@),
    ensures
        r@ == simplicity_any_case_text(text@, strings_view(common@), picks@),
{
    replace_unknown(text, common, picks, UnknownTest::NoLowercaseMatch)
}

/// The first "Simplicity": each word matching no word of `common` (in small letters) is
/// replaced by a random word of `common`.
pub fn replace_uncommon_words_any_case_at_random(text: &String, common: &Vec<String>) -> (r: String)
    requires
        common@.len() > 0 || word_runs(sections_of(text@)).len() == 0,
    ensures
        exists|picks: Seq<usize>|
            picks_valid(sections_of(text@), no_lowercase_match(strings_view(common@)), common@.len(), picks)
            && r@ == #[trigger] simplicity_any_case_text(text@, strings_view(common@), picks),
{
    let picks = draw_picks(text, common, UnknownTest::NoLowercaseMatch);
    let r = replace_uncommon_words_any_case(text, common, &picks);
    assert(r@ == simplicity_any_case_text(text@, strings_view(common@), picks@));
    r
}

/// The rule text of "Unique": each word that equals one of `used` once both are in small
/// letters is censored with `*`s.
pub open spec fn unique_text(text: Seq<char>, used: Seq<Seq<char>>) -> Seq<char> {
    concat_sections(
        map_words(sections_of(text), |i: int, w: Seq<char>| if matches_lowercase(used, w) { stars(w) } else { w }),
    )
}

/// "Unique": words already used (in any case) are censored.
pub fn censor_used_words(text: &String, used: &Vec<String>) -> (r: String)
    ensures
        r@ == unique_text(text@, strings_view(used@)),
{
    let sects = split_into_word_vec(text);
    let ghost secs = sections_of(text@);
    let ghost uv = strings_view(used@);
    let ghost f = |i: int, w: Seq<char>| if matches_lowercase(uv, w) { stars(w) } else { w };
    let n = sects.len();
    let mut repl: Vec<String> = Vec::new();
    for i in 0..n
        invariant
            n == sects@.len(),
            secs == sections_view(sects@),
            uv == strings_view(used@),
            f == (|i: int, w: Seq<char>| if matches_lowercase(uv, w) { stars(w) } else { w }),
            repl@.len() == i,
            forall|j: int| 0 <= j < i && secs[j].0 ==> #[trigger] repl@[j]@ == f(j, secs[j].1),
    {
        match &sects[i] {
            Section::Word(w) => {
                let mut s = w.clone();
                if member_lowercase(used, &s) {
                    stand_censore(&mut s);
                }
                repl.push(s);
            }
            Section::SpaceOrPunc(_) => {
                repl.push(String::new());
            }
        }
    }
    let r = rebuild(&sects, &repl);
    assert(Seq::new(sects@.len(), |i: int| if sects@[i]@.0 { (true, repl@[i]@) } else { sects@[i]@ })
        =~= map_words(secs, f));
    r
}

/// Whether a word counts for "English degree": longer than 8 bytes, and in `all_words` in
/// small letters.
pub open spec fn passes_degree(all_words: Seq<Seq<char>>, w: Seq<char>) -> bool {
    utf8_len(w) > 8 && all_words.contains(lowercase(w))
}

/// The rule text of "English degree" when too few words pass: the words that do not pass
/// are censored with `*`s.
pub open spec fn degree_censored_text(text: Seq<char>, all_words: Seq<Seq<char>>) -> Seq<char> {
    concat_sections(
        map_words(sections_of(text), |i: int, w: Seq<char>| if passes_degree(all_words, w) { w } else { stars(w) }),
    )
}

/// "English degree", its counting and censoring: gives the text with the failing words
/// censored, the number of words, and the number of words that pass. Whether the message
/// keeps its text or takes the censored one is decided on the ratio of the two counts.
pub fn english_degree_censor(text: &String, all_words: &Vec<String>) -> (res: (String, usize, usize))
    ensures
        res.0@ == degree_censored_text(text@, strings_view(all_words@)),
        res.1 == word_runs(sections_of(text@)).len(),
        res.2 == word_runs(sections_of(text@)).filter(|w: Seq<char>| passes_degree(strings_view(all_words@), w)).len(),
{
    let sects = split_into_word_vec(text);
    let ghost secs = sections_of(text@);
    let ghost av = strings_view(all_words@);
    let ghost pass = |w: Seq<char>| passes_degree(av, w);
    let ghost f = |i: int, w: Seq<char>| if passes_degree(av, w) { w } else { stars(w) };
    let n = sects.len();
    let mut repl: Vec<String> = Vec::new();
    let mut total: usize = 0;
    let mut passing: usize = 0;
    for i in 0..n
        invariant
            n == sects@.len(),
            secs == sections_view(sects@),
            av == strings_view(all_words@),
            pass == (|w: Seq<char>| passes_degree(av, w)),
            f == (|i: int, w: Seq<char>| if passes_degree(av, w) { w } else { stars(w) }),
            total == word_runs(secs.take(i as int)).len(),
            passing == word_runs(secs.take(i as int)).filter(pass).len(),
            passing <= total <= i,
            repl@.len() == i,
            forall|j: int| 0 <= j < i && secs[j].0 ==> #[trigger] repl@[j]@ == f(j, secs[j].1),
    {
        proof {
            lemma_word_runs_step(secs, i as int);
            word_runs(secs.take(i as int)).lemma_filter_push(secs[i as int].1, pass);
            word_runs(secs.take(i as int)).filter(pass).lemma_filter_len(pass);
        }
        match &sects[i] {
            Section::Word(w) => {
                total = total + 1;
                let mut s = w.clone();
                let ok = if byte_len_gt(&s, 8) {
                    let l = to_lowercase(s.as_str());
                    member(all_words, &l)
                } else {
                    false
                };
                if ok {
                    passing = passing + 1;
                } else {
                    stand_censore(&mut s);
                }
                repl.push(s);
            }
            Section::SpaceOrPunc(_) => {
                repl.push(String::new());
            }
        }
    }
    assert(secs.take(n as int) =~= secs);
    let r = rebuild(&sects, &repl);
    assert(Seq::new(sects@.len(), |i: int| if sects@[i]@.0 { (true, repl@[i]@) } else { sects@[i]@ })
        =~= map_words(secs, f));
    (r, total, passing)
}

/// Whether the UTF-8 encoding of `s` is longer than `k` bytes.
fn byte_len_gt(s: &String, k: usize) -> (b: bool)
    ensures
        b == (utf8_len(s@) > k),
{
    crate::text::byte_len(s) > k
}

/// `a` comes before or equals `b` in lexicographic order of code points (which is the
/// byte order of their UTF-8 encodings, the order of `String`).
pub open spec fn lex_le(a: Seq<char>, b: Seq<char>) -> bool
    decreases a.len(),
{
    if a.len() == 0 {
        true
    } else if b.len() == 0 {
        false
    } else if a[0] != b[0] {
        a[0] < b[0]
    } else {
        lex_le(a.drop_first(), b.drop_first())
    }
}

fn lex_le_chars(a: &Vec<char>, b: &Vec<char>) -> (r: bool)
    ensures
        r == lex_le(a@, b@),
{
    let mut i: usize = 0;
    assert(a@.skip(0) =~= a@);
    assert(b@.skip(0) =~= b@);
    while i < a.len() && i < b.len()
        invariant
            i <= a@.len(),
            i <= b@.len(),
            lex_le(a@, b@) == lex_le(a@.skip(i as int), b@.skip(i as int)),
        decreases a@.len() - i,
    {
        if a[i] != b[i] {
            return a[i] < b[i];
        }
        assert(a@.skip(i as int).drop_first() =~= a@.skip(i + 1));
        assert(b@.skip(i as int).drop_first() =~= b@.skip(i + 1));
        i = i + 1;
    }
    i == a.len()
}

/// `s` with `w` put after the last entry whose small-letter form does not come after
/// that of `w` (and after no entry that does).
pub open spec fn insert_by_lower(s: Seq<Seq<char>>, w: Seq<char>) -> Seq<Seq<char>>
    decreases s.len(),
{
    if s.len() == 0 {
        seq![w]
    } else if lex_le(lowercase(s.last()), lowercase(w)) {
        s.push(w)
    } else {
        insert_by_lower(s.drop_last(), w).push(s.last())
    }
}

/// The words sorted by their small-letter forms; words with the same form keep their
/// order (a stable sort).
pub open spec fn sort_by_lower(ws: Seq<Seq<char>>) -> Seq<Seq<char>>
    decreases ws.len(),
{
    if ws.len() == 0 {
        seq![]
    } else {
        insert_by_lower(sort_by_lower(ws.drop_last()), ws.last())
    }
}

proof fn lemma_insert_by_lower_at(s: Seq<Seq<char>>, w: Seq<char>, j: int)
    requires
        0 <= j <= s.len(),
        forall|t: int| j <= t < s.len() ==> !lex_le(lowercase(#[trigger] s[t]), lowercase(w)),
        j == 0 || lex_le(lowercase(s[j - 1]), lowercase(w)),
    ensures
        insert_by_lower(s, w) == s.take(j).push(w) + s.skip(j),
    decreases s.len(),
{
    if s.len() == 0 {
        assert(s.take(j).push(w) + s.skip(j) =~= seq![w]);
    } else if j == s.len() {
        assert(s.take(j).push(w) + s.skip(j) =~= s.push(w));
    } else {
        assert(!lex_le(lowercase(s[s.len() - 1]), lowercase(w)));
        lemma_insert_by_lower_at(s.drop_last(), w, j);
        assert(s.drop_last().take(j).push(w) + s.drop_last().skip(j) + seq![s.last()]
            =~= s.take(j).push(w) + s.skip(j));
    }
}

/// The rule text of "Ordered": the words, sorted by their small-letter forms, take the
/// places of the words of the text.
pub open spec fn ordered_text(text: Seq<char>) -> Seq<char> {
    let secs = sections_of(text);
    let sorted = sort_by_lower(word_runs(secs));
    concat_sections(map_words(secs, |i: int, w: Seq<char>| sorted[words_before(secs, i) as int]))
}

pub(crate) proof fn lemma_insert_by_lower_len(s: Seq<Seq<char>>, w: Seq<char>)
    ensures
        insert_by_lower(s, w).len() == s.len() + 1,
    decreases s.len(),
{
    if s.len() > 0 {
        lemma_insert_by_lower_len(s.drop_last(), w);
    }
}

pub(crate) proof fn lemma_sort_by_lower_len(ws: Seq<Seq<char>>)
    ensures
        sort_by_lower(ws).len() == ws.len(),
    decreases ws.len(),
{
    if ws.len() > 0 {
        lemma_sort_by_lower_len(ws.drop_last());
        lemma_insert_by_lower_len(sort_by_lower(ws.drop_last()), ws.last());
    }
}

/// Sorts the words of the sections by their small-letter forms (stable).
fn sorted_words(sects: &Vec<Section>) -> (sorted: Vec<String>)
    ensures
        strings_view(sorted@) == sort_by_lower(word_runs(sections_view(sects@))),
{
    let ghost secs = sections_view(sects@);
    let n = sects.len();
    let mut sorted: Vec<String> = Vec::new();
    let mut keys: Vec<Vec<char>> = Vec::new();
    for i in 0..n
        invariant
            n == sects@.len(),
            secs == sections_view(sects@),
            strings_view(sorted@) == sort_by_lower(word_runs(secs.take(i as int))),
            keys@.len() == sorted@.len(),
            forall|t: int| 0 <= t < keys@.len() ==> #[trigger] keys@[t]@ == lowercase(sorted@[t]@),
    {
        proof { lemma_word_runs_step(secs, i as int); }
        if let Section::Word(w) = &sects[i] {
            let lw = to_lowercase(w.as_str());
            let k = chars_of(lw.as_str());
            let ghost sv = strings_view(sorted@);
            let mut j = sorted.len();
            while j > 0 && !lex_le_chars(&keys[j - 1], &k)
                invariant
                    j <= sorted@.len(),
                    keys@.len() == sorted@.len(),
                    sv == strings_view(sorted@),
                    k@ == lowercase(w@),
                    forall|t: int| 0 <= t < keys@.len() ==> #[trigger] keys@[t]@ == lowercase(sorted@[t]@),
                    forall|t: int| j <= t < sv.len() ==> !lex_le(lowercase(#[trigger] sv[t]), lowercase(w@)),
                decreases j,
            {
                assert(sv[j - 1] == sorted@[j - 1]@);
                j = j - 1;
            }
            proof {
                if j > 0 {
                    assert(sv[j - 1] == sorted@[j - 1]@);
                }
                lemma_insert_by_lower_at(sv, w@, j as int);
                assert(word_runs(secs.take(i as int)).push(w@).drop_last() =~= word_runs(secs.take(i as int)));
            }
            let ghost old_keys = keys@;
            let ghost old_sorted = sorted@;
            sorted.insert(j, w.clone());
            keys.insert(j, k);
            assert(strings_view(sorted@) =~= sv.take(j as int).push(w@) + sv.skip(j as int));
            assert forall|t: int| 0 <= t < keys@.len() implies #[trigger] keys@[t]@ == lowercase(sorted@[t]@) by {
                if t < j {
                    assert(keys@[t] == old_keys[t] && sorted@[t] == old_sorted[t]);
                } else if t == j {
                } else {
                    assert(keys@[t] == old_keys[t - 1] && sorted@[t] == old_sorted[t - 1]);
                }
            }
        }
    }
    assert(secs.take(n as int) =~= secs);
    sorted
}

pub(crate) proof fn lemma_words_before_bound(secs: Seq<(bool, Seq<char>)>, i: int)
    requires
        0 <= i < secs.len(),
        secs[i].0,
    ensures
        words_before(secs, i) < word_runs(secs).len(),
    decreases secs.len(),
{
    if i == secs.len() - 1 {
        assert(secs.take(i) =~= secs.drop_last());
    } else {
        lemma_words_before_bound(secs.drop_last(), i);
        assert(secs.drop_last().take(i) =~= secs.take(i));
    }
}

/// "Ordered": the words are put in alphabetical order (of their small-letter forms), each
/// in a place where a word stood.
pub fn ordered(text: &String) -> (r: String)
    ensures
        r@ == ordered_text(text@),
{
    let sects = split_into_word_vec(text);
    let ghost secs = sections_of(text@);
    let sorted = sorted_words(&sects);
    let ghost sv = sort_by_lower(word_runs(secs));
    proof { lemma_sort_by_lower_len(word_runs(secs)); }
    let ghost f = |i: int, w: Seq<char>| sv[words_before(secs, i) as int];
    let n = sects.len();
    let mut repl: Vec<String> = Vec::new();
    let mut rank: usize = 0;
    for i in 0..n
        invariant
            n == sects@.len(),
            secs == sections_view(sects@),
            sv == strings_view(sorted@),
            sv.len() == word_runs(secs).len(),
            f == (|i: int, w: Seq<char>| sv[words_before(secs, i) as int]),
            rank == words_before(secs, i as int),
            rank <= i,
            repl@.len() == i,
            forall|j: int| 0 <= j < i && secs[j].0 ==> #[trigger] repl@[j]@ == f(j, secs[j].1),
    {
        proof { lemma_word_runs_step(secs, i as int); }
        match &sects[i] {
            Section::Word(_) => {
                proof { lemma_words_before_bound(secs, i as int); }
                assert(sv[rank as int] == sorted@[rank as int]@);
                repl.push(sorted[rank].clone());
                rank = rank + 1;
            }
            Section::SpaceOrPunc(_) => {
                repl.push(String::new());
            }
        }
    }
    let r = rebuild(&sects, &repl);
    assert(Seq::new(sects@.len(), |i: int| if sects@[i]@.0 { (true, repl@[i]@) } else { sects@[i]@ })
        =~= map_words(secs, f));
    r
}

/// The characters that "Palindrome" leaves out: the separators other than the space.
pub open spec fn palindrome_ignored(c: char) -> bool {
    is_punc(c) && c != ' '
}

/// The characters that "Palindrome" keeps: the text with the characters it leaves out
/// taken away.
pub open spec fn palindrome_kept(text: Seq<char>) -> Seq<char> {
    text.filter(|c: char| !palindrome_ignored(c))
}

/// `k` with its first half mirrored onto its second half: place `i` holds `k[i]` up to the
/// middle and `k[len - 1 - i]` after it.
pub open spec fn mirrored(k: Seq<char>) -> Seq<char> {
    Seq::new(k.len(), |i: int| if i <= k.len() - 1 - i { k[i] } else { k[k.len() - 1 - i] })
}

/// The rule text of "Palindrome": when the text, punctuation left out, reads the same
/// backwards once put in small letters, it stays; otherwise it becomes its characters,
/// punctuation left out, with the first half mirrored onto the second.
pub open spec fn palindrome_text(text: Seq<char>) -> Seq<char> {
    let kept = palindrome_kept(text);
    if lowercase(kept.reverse()) == lowercase(kept) {
        text
    } else {
        mirrored(kept)
    }
}

/// "Palindrome": a message that is no palindrome is made one by mirroring its first half.
pub fn palindrome(text: &String) -> (r: String)
    ensures
        r@ == palindrome_text(text@),
{
    let chars = chars_of(text.as_str());
    let n = chars.len();
    let mut kept: Vec<char> = Vec::new();
    for i in 0..n
        invariant
            n == chars@.len(),
            chars@ == text@,
            kept@ == text@.take(i as int).filter(|c: char| !palindrome_ignored(c)),
    {
        let c = chars[i];
        proof {
            text@.take(i as int).lemma_filter_push(c, |c: char| !palindrome_ignored(c));
            assert(text@.take(i as int).push(c) =~= text@.take(i + 1));
        }
        if !(is_punc_char(c) && c != ' ') {
            kept.push(c);
        }
    }
    assert(text@.take(n as int) =~= text@);
    let forwards = string_from_chars(kept.as_slice());
    let backwards = reverse_text(&forwards);
    let lower_back = to_lowercase(backwards.as_str());
    let lower_fwd = to_lowercase(forwards.as_str());
    if lower_back == lower_fwd {
        text.clone()
    } else {
        let k = kept.len();
        let mut out: Vec<char> = Vec::new();
        for i in 0..k
            invariant
                k == kept@.len(),
                out@.len() == i,
                forall|j: int| 0 <= j < i ==> #[trigger] out@[j] == mirrored(kept@)[j],
        {
            if i <= k - 1 - i {
                out.push(kept[i]);
            } else {
                out.push(kept[k - 1 - i]);
            }
        }
        assert(out@ =~= mirrored(kept@));
        string_from_chars(out.as_slice())
    }
}

/// Swaps the characters at `a` and `b`.
pub open spec fn swap_chars(c: Seq<char>, a: int, b: int) -> Seq<char> {
    c.update(a, c[b]).update(b, c[a])
}

/// One move of "Corruption": the character at `roll.0` swaps with its right neighbour
/// when `roll.1` holds and with its left neighbour otherwise, staying put at an end.
pub open spec fn corruption_step(c: Seq<char>, roll: (usize, bool)) -> Seq<char> {
    let r = roll.0 as int;
    let other = if roll.1 {
        if r != c.len() - 1 { r + 1 } else { r }
    } else {
        if r != 0 { r - 1 } else { r }
    };
    swap_chars(c, r, other)
}

/// The moves of "Corruption" made one after the other.
pub open spec fn corrupted(c: Seq<char>, rolls: Seq<(usize, bool)>) -> Seq<char>
    decreases rolls.len(),
{
    if rolls.len() == 0 {
        c
    } else {
        corruption_step(corrupted(c, rolls.drop_last()), rolls.last())
    }
}

/// Whether `rolls` are ten moves at positions of a text of `n` characters.
pub open spec fn corruption_rolls_valid(n: nat, rolls: Seq<(usize, bool)>) -> bool {
    &&& rolls.len() == 10
    &&& forall|k: int| 0 <= k < rolls.len() ==> (#[trigger] rolls[k]).0 < n
}

proof fn lemma_corrupted_len(c: Seq<char>, rolls: Seq<(usize, bool)>)
    requires
        forall|k: int| 0 <= k < rolls.len() ==> (#[trigger] rolls[k]).0 < c.len(),
    ensures
        corrupted(c, rolls).len() == c.len(),
    decreases rolls.len(),
{
    if rolls.len() > 0 {
        lemma_corrupted_len(c, rolls.drop_last());
    }
}

/// "Corruption" with the random moves given: ten swaps of neighbouring characters.
pub fn corrupt_with(text: &String, rolls: &Vec<(usize, bool)>) -> (r: String)
    requires
        text@.len() > 0,
        corruption_rolls_valid(text@.len(), rolls@),
    ensures
        r@ == corrupted(text@, rolls@),
{
    let mut chars = chars_of(text.as_str());
    let n = chars.len();
    for k in 0..10
        invariant
            n == text@.len(),
            n > 0,
            corruption_rolls_valid(text@.len(), rolls@),
            chars@ == corrupted(text@, rolls@.take(k as int)),
            chars@.len() == n,
    {
        let (r, flip) = rolls[k];
        let mut other = r;
        if flip {
            if other != n - 1 {
                other = other + 1;
            }
        } else {
            if other != 0 {
                other = other - 1;
            }
        }
        let a = chars[r];
        let b = chars[other];
        chars.set(r, b);
        chars.set(other, a);
        assert(rolls@.take(k + 1).drop_last() =~= rolls@.take(k as int));
        assert(chars@ =~= corruption_step(corrupted(text@, rolls@.take(k as int)), rolls@[k as int]));
    }
    assert(rolls@.take(10) =~= rolls@);
    string_from_chars(chars.as_slice())
}

/// "Corruption": ten random swaps of neighbouring characters. The text must not be empty.
pub fn corrupt_at_random(text: &String) -> (r: String)
    requires
        text@.len() > 0,
    ensures
        exists|rolls: Seq<(usize, bool)>|
            corruption_rolls_valid(text@.len(), rolls) && r@ == #[trigger] corrupted(text@, rolls),
{
    let n = chars_of(text.as_str()).len();
    let mut rolls: Vec<(usize, bool)> = Vec::new();
    for k in 0..10
        invariant
            n == text@.len(),
            n > 0,
            rolls@.len() == k,
            forall|t: int| 0 <= t < k ==> (#[trigger] rolls@[t]).0 < n,
    {
        let r = random_below(n);
        let flip = random_bool();
        rolls.push((r, flip));
    }
    let r = corrupt_with(text, &rolls);
    assert(r@ == corrupted(text@, rolls@));
    r
}

/// One move of the first "Corruption": the character at `roll.0` swaps with its right
/// neighbour when `roll.1` holds and with its left neighbour otherwise.
pub open spec fn first_corruption_step(c: Seq<char>, roll: (usize, bool)) -> Seq<char> {
    let r = roll.0 as int;
    swap_chars(c, r, if roll.1 { r + 1 } else { r - 1 })
}

/// The moves of the first "Corruption" made one after the other.
pub open spec fn first_corrupted(c: Seq<char>, rolls: Seq<(usize, bool)>) -> Seq<char>
    decreases rolls.len(),
{
    if rolls.len() == 0 {
        c
    } else {
        first_corruption_step(first_corrupted(c, rolls.drop_last()), rolls.last())
    }
}

/// Whether `rolls` are ten moves of the first "Corruption" on a text of `n` characters:
/// each at a position before the last, and none to the left of the first character
/// (where the index computation would go below zero).
pub open spec fn first_corruption_rolls_valid(n: nat, rolls: Seq<(usize, bool)>) -> bool {
    &&& rolls.len() == 10
    &&& forall|k: int| 0 <= k < rolls.len() ==> (#[trigger] rolls[k]).0 + 1 < n
    &&& forall|k: int| 0 <= k < rolls.len() ==> ((#[trigger] rolls[k]).0 == 0 ==> rolls[k].1)
}

/// The first "Corruption" with the random moves given.
pub fn first_corrupt_with(text: &String, rolls: &Vec<(usize, bool)>) -> (r: String)
    requires
        first_corruption_rolls_valid(text@.len(), rolls@),
    ensures
        r@ == first_corrupted(text@, rolls@),
{
    let mut chars = chars_of(text.as_str());
    let n = chars.len();
    for k in 0..10
        invariant
            n == text@.len(),
            first_corruption_rolls_valid(text@.len(), rolls@),
            chars@ == first_corrupted(text@, rolls@.take(k as int)),
            chars@.len() == n,
    {
        let (r, flip) = rolls[k];
        let other = if flip { r + 1 } else { r - 1 };
        let a = chars[r];
        let b = chars[other];
        chars.set(r, b);
        chars.set(other, a);
        assert(rolls@.take(k + 1).drop_last() =~= rolls@.take(k as int));
        assert(chars@ =~= first_corruption_step(first_corrupted(text@, rolls@.take(k as int)), rolls@[k as int]));
    }
    assert(rolls@.take(10) =~= rolls@);
    string_from_chars(chars.as_slice())
}

/// Whether `draws` are ten draws of the first "Corruption" on a text of `n` characters:
/// each at a position before the last.
pub open spec fn first_draws_valid(n: nat, draws: Seq<(usize, bool)>) -> bool {
    &&& draws.len() == 10
    &&& forall|k: int| 0 <= k < draws.len() ==> (#[trigger] draws[k]).0 + 1 < n
}

/// Whether one of `draws` would move the first character to the left, where the index
/// computation goes below zero.
pub open spec fn first_draws_fail(draws: Seq<(usize, bool)>) -> bool {
    exists|k: int| 0 <= k < draws.len() && (#[trigger] draws[k]).0 == 0 && !draws[k].1
}

/// What the first "Corruption" gives for `draws`: nothing when one of them fails,
/// otherwise the text after the ten moves.
pub open spec fn first_corruption_outcome(text: Seq<char>, draws: Seq<(usize, bool)>) -> Option<Seq<char>> {
    if first_draws_fail(draws) { None } else { Some(first_corrupted(text, draws)) }
}

/// The text of an optional string.
pub open spec fn optional_text(r: Option<String>) -> Option<Seq<char>> {
    match r {
        Some(s) => Some(s@),
        None => None,
    }
}

/// The first "Corruption" with the draws given: `None` when one of them would move the
/// first character to the left, otherwise the text after the ten moves.
pub fn first_corrupt_with_draws(text: &String, draws: &Vec<(usize, bool)>) -> (r: Option<String>)
    requires
        first_draws_valid(text@.len(), draws@),
    ensures
        r is None <==> first_draws_fail(draws@),
        r matches Some(s) ==> s@ == first_corrupted(text@, draws@),
        optional_text(r) == first_corruption_outcome(text@, draws@),
{
    for k in 0..10
        invariant
            first_draws_valid(text@.len(), draws@),
            forall|t: int| 0 <= t < k ==> ((#[trigger] draws@[t]).0 == 0 ==> draws@[t].1),
    {
        let (p, flip) = draws[k];
        if p == 0 && !flip {
            assert(draws@[k as int].0 == 0 && !draws@[k as int].1);
            return None;
        }
    }
    assert(first_corruption_rolls_valid(text@.len(), draws@));
    Some(first_corrupt_with(text, draws))
}

/// The first "Corruption" with random draws. The text needs two characters at least. A
/// draw that would move the first character to the left (where the index would go below
/// zero) ends it with `None`.
pub fn first_corrupt_at_random(text: &String) -> (r: Option<String>)
    requires
        text@.len() >= 2,
    ensures
        exists|draws: Seq<(usize, bool)>|
            first_draws_valid(text@.len(), draws)
            && optional_text(r) == #[trigger] first_corruption_outcome(text@, draws),
{
    let n = chars_of(text.as_str()).len();
    let mut draws: Vec<(usize, bool)> = Vec::new();
    for k in 0..10
        invariant
            n == text@.len(),
            n >= 2,
            draws@.len() == k,
            forall|t: int| 0 <= t < k ==> (#[trigger] draws@[t]).0 + 1 < n,
    {
        let p = random_below(n - 1);
        let flip = random_bool();
        draws.push((p, flip));
    }
    let r = first_corrupt_with_draws(text, &draws);
    assert(optional_text(r) == first_corruption_outcome(text@, draws@));
    r
}

} // verus!

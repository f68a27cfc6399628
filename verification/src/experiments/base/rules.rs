use vstd::prelude::*;
use crate::utils::filter::{sections_of, strings_view, word_runs};
use crate::experiments::transforms::{
    reverse_text, remove_vowels, without_vowels, random_case, case_flipped, palindrome_text,
    even_steven_text, hive_mind_text, not_in, picks_valid, history_words, elephant_word,
    collect_lowercase_words, replace_unknown_words_at_random, gluttony_text, elephant_text,
    simplicity_any_case_text, no_lowercase_match, replace_uncommon_words_any_case_at_random,
    research_document_text, ordered_text, unique_text, censor_used_words, first_corrupted,
    first_draws_valid, first_draws_fail, first_corruption_outcome, optional_text, first_corrupt_at_random,
};

verus! {

/// Who wrote a message.
#[derive(Clone, Copy, Debug)]
pub enum MessageType {
    User,
    System,
}

/// A chat message.
#[derive(Clone, Debug)]
pub struct Message {
    pub text: String,
    pub by: String,
    pub message_type: MessageType,
    pub time: u64,
}

/// `msg` with its text replaced by `text`; author, type and time stay.
pub open spec fn with_text(msg: Message, new: Message, text: Seq<char>) -> bool {
    &&& new.text@ == text
    &&& new.by == msg.by
    &&& new.message_type == msg.message_type
    &&& new.time == msg.time
}

/// The texts of the messages.
pub open spec fn texts_of(history: Seq<Message>) -> Seq<Seq<char>> {
    history.map_values(|m: Message| m.text@)
}

fn replace_text(msg: Message, text: String) -> (r: Message)
    ensures
        with_text(msg, r, text@),
{
    Message { text, by: msg.by, message_type: msg.message_type, time: msg.time }
}

/// The texts of `history[lo..hi]`.
fn texts_between(history: &Vec<Message>, lo: usize, hi: usize) -> (texts: Vec<String>)
    requires
        lo <= hi <= history@.len(),
    ensures
        strings_view(texts@) == texts_of(history@).subrange(lo as int, hi as int),
{
    let mut texts: Vec<String> = Vec::new();
    for i in lo..hi
        invariant
            lo <= hi <= history@.len(),
            strings_view(texts@) == texts_of(history@).subrange(lo as int, i as int),
    {
        let ghost before = strings_view(texts@);
        texts.push(history[i].text.clone());
        assert(strings_view(texts@) =~= before.push(history@[i as int].text@));
        assert(texts_of(history@).subrange(lo as int, i + 1) =~= texts_of(history@).subrange(
            lo as int,
            i as int,
        ).push(history@[i as int].text@));
    }
    texts
}

/// "Reversed": the text is read backwards.
pub fn reversed(msg: Message) -> (r: Message)
    ensures
        with_text(msg, r, msg.text@.reverse()),
{
    let t = reverse_text(&msg.text);
    replace_text(msg, t)
}

/// "Fck Vwls": all vowels, small and capital, are removed.
pub fn fck_vwls(msg: Message) -> (r: Message)
    ensures
        with_text(msg, r, without_vowels(msg.text@)),
{
    let t = remove_vowels(&msg.text);
    replace_text(msg, t)
}

/// "Hopeless sacrastic": each character is put at random in capitals or small letters.
pub fn hopeless_sarcastic(msg: Message) -> (r: Message)
    ensures
        exists|flips: Seq<bool>| flips.len() == msg.text@.len()
            && with_text(msg, r, #[trigger] case_flipped(msg.text@, flips)),
{
    let t = random_case(&msg.text);
    let ghost flips = choose|flips: Seq<bool>| flips.len() == msg.text@.len() && t@ == #[trigger] case_flipped(msg.text@, flips);
    let r = replace_text(msg, t);
    assert(with_text(msg, r, case_flipped(msg.text@, flips)));
    r
}

/// "Palindrome": a message that does not read the same backwards is made to, by mirroring
/// its first half.
pub fn palindrome(msg: Message) -> (r: Message)
    ensures
        with_text(msg, r, palindrome_text(msg.text@)),
{
    let t = crate::experiments::transforms::palindrome(&msg.text);
    replace_text(msg, t)
}

/// "Even Steven": with an odd number of words, every other word is censored.
pub fn even_steven(msg: Message) -> (r: Message)
    ensures
        with_text(msg, r, even_steven_text(msg.text@)),
{
    let t = crate::experiments::transforms::even_steven(&msg.text);
    replace_text(msg, t)
}

/// The words "Hive mind" accepts: `elephant`, then the words (in small letters) of the
/// last thirty messages of the history.
pub open spec fn hive_words(history: Seq<Message>) -> Seq<Seq<char>> {
    let lo = if history.len() < 30 { 0 } else { history.len() - 30 };
    seq![elephant_word()] + history_words(texts_of(history).subrange(lo, history.len() as int))
}

/// The words "Hive mind" accepts, built from the history.
pub fn hive_mind_word_list(msg_history: &Vec<Message>) -> (words: Vec<String>)
    ensures
        strings_view(words@) == hive_words(msg_history@),
{
    let len = msg_history.len();
    let lo = if len < 30 { 0 } else { len - 30 };
    let texts = texts_between(msg_history, lo, len);
    let mut rest = collect_lowercase_words(&texts);
    let mut words: Vec<String> = Vec::new();
    words.push(String::from_str("elephant"));
    proof {
        reveal_strlit("elephant");
        assert("elephant"@ =~= elephant_word());
    }
    let ghost first = strings_view(words@);
    let ghost others = strings_view(rest@);
    words.append(&mut rest);
    assert(strings_view(words@) =~= first + others);
    words
}

/// "Hive mind": each word that is not one of the words the history accepts is replaced by
/// a random one of them.
pub fn hive_mind(msg: Message, msg_history: &Vec<Message>) -> (r: Message)
    ensures
        exists|picks: Seq<usize>|
            picks_valid(sections_of(msg.text@), not_in(hive_words(msg_history@)), hive_words(msg_history@).len(), picks)
            && with_text(msg, r, #[trigger] hive_mind_text(msg.text@, hive_words(msg_history@), picks)),
{
    let list = hive_mind_word_list(msg_history);
    let t = replace_unknown_words_at_random(&msg.text, &list);
    let ghost lv = strings_view(list@);
    let ghost picks = choose|picks: Seq<usize>|
        picks_valid(sections_of(msg.text@), not_in(lv), lv.len(), picks)
        && t@ == #[trigger] hive_mind_text(msg.text@, lv, picks);
    let r = replace_text(msg, t);
    assert(with_text(msg, r, hive_mind_text(msg.text@, lv, picks)));
    r
}

/// "Gluttony": words without exactly one vowel are censored.
pub fn gluttony(msg: Message) -> (r: Message)
    ensures
        with_text(msg, r, gluttony_text(msg.text@)),
{
    let t = crate::experiments::transforms::gluttony(&msg.text);
    replace_text(msg, t)
}

/// "The elephant in the room": a message that does not mention the elephant becomes `Elephant`.
pub fn elephant_in_the_room(msg: Message) -> (r: Message)
    ensures
        with_text(msg, r, elephant_text(msg.text@)),
{
    let t = crate::experiments::transforms::elephant_in_the_room(&msg.text);
    replace_text(msg, t)
}

/// "Simplicity": each word that matches none of `common` (in small letters) is replaced by
/// a random one of `common`.
pub fn simplicity(msg: Message, common: &Vec<String>) -> (r: Message)
    requires
        common@.len() > 0 || word_runs(sections_of(msg.text@)).len() == 0,
    ensures
        exists|picks: Seq<usize>|
            picks_valid(sections_of(msg.text@), no_lowercase_match(strings_view(common@)), common@.len(), picks)
            && with_text(msg, r, #[trigger] simplicity_any_case_text(msg.text@, strings_view(common@), picks)),
{
    let t = replace_uncommon_words_any_case_at_random(&msg.text, common);
    let ghost cv = strings_view(common@);
    let ghost picks = choose|picks: Seq<usize>|
        picks_valid(sections_of(msg.text@), no_lowercase_match(cv), common@.len(), picks)
        && t@ == #[trigger] simplicity_any_case_text(msg.text@, cv, picks);
    let r = replace_text(msg, t);
    assert(with_text(msg, r, simplicity_any_case_text(msg.text@, cv, picks)));
    r
}

/// "Research document": personal pronouns are replaced by the name derek.
pub fn research_document(msg: Message) -> (r: Message)
    ensures
        with_text(msg, r, research_document_text(msg.text@)),
{
    let t = crate::experiments::transforms::research_document(&msg.text);
    replace_text(msg, t)
}

/// "Ordered": the words are put in alphabetical order.
pub fn ordered(msg: Message) -> (r: Message)
    ensures
        with_text(msg, r, ordered_text(msg.text@)),
{
    let t = crate::experiments::transforms::ordered(&msg.text);
    replace_text(msg, t)
}

/// The words "Unique" forbids: the words (in small letters) of the last ten messages of
/// the history, or of all of them where it holds fewer.
pub open spec fn unique_words(history: Seq<Message>) -> Seq<Seq<char>> {
    let lo = if history.len() < 10 { 0 } else { history.len() - 10 };
    history_words(texts_of(history).subrange(lo, history.len() as int))
}

/// "Unique": words used in the last ten messages are censored.
pub fn unique(msg: Message, msg_history: &Vec<Message>) -> (r: Message)
    ensures
        with_text(msg, r, unique_text(msg.text@, unique_words(msg_history@))),
{
    let len = msg_history.len();
    let lo = if len < 10 { 0 } else { len - 10 };
    let texts = texts_between(msg_history, lo, len);
    let used = collect_lowercase_words(&texts);
    let t = censor_used_words(&msg.text, &used);
    replace_text(msg, t)
}

/// "Corruption": ten random swaps of neighbouring characters. The text needs two characters
/// at least; a draw that would move the first character to the left gives `None`.
pub fn corruption(msg: Message) -> (r: Option<Message>)
    requires
        msg.text@.len() >= 2,
    ensures
        exists|draws: Seq<(usize, bool)>|
            first_draws_valid(msg.text@.len(), draws) && (#[trigger] first_draws_fail(draws) <==> r is None)
            && (r matches Some(m) ==> with_text(msg, m, first_corrupted(msg.text@, draws))),
{
    let out = first_corrupt_at_random(&msg.text);
    let ghost draws = choose|draws: Seq<(usize, bool)>|
        first_draws_valid(msg.text@.len(), draws)
        && optional_text(out) == #[trigger] first_corruption_outcome(msg.text@, draws);
    match out {
        Some(t) => {
            let r = replace_text(msg, t);
            assert(with_text(msg, r, first_corrupted(msg.text@, draws)));
            assert(first_draws_fail(draws) <==> false);
            Some(r)
        }
        None => {
            assert(first_draws_fail(draws));
            None
        }
    }
}

} // verus!

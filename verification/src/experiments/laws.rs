use vstd::prelude::*;
use crate::text::{utf8_len, repeat_char, lowercase};
use crate::utils::filter::{sections_of, concat_sections, is_punc, word_runs, well_formed_sections,
    split_runs_are_well_formed, loose_sections, words_of_concat, all_of_kind, sections_of_concat};
use crate::experiments::transforms::{
    is_vowel, without_vowels, words_before, map_words, stars, vowel_count, gluttony_text,
    matches_lowercase, unique_text, passes_degree, degree_censored_text, swap_chars, corrupted,
    first_corrupted, derek_word, pronouns, research_document_text, replace_marked, picks_valid,
    not_in, hive_mind_text, lowercase_not_in, simplicity_text, lex_le, insert_by_lower,
    sort_by_lower, ordered_text, even_steven_text, lemma_word_runs_step, lemma_words_before_bound,
    lemma_sort_by_lower_len, lemma_insert_by_lower_len, palindrome_ignored, palindrome_kept, mirrored,
    palindrome_text,
};

verus! {

/// Joins of runs with the same texts are the same.
proof fn lemma_concat_same_texts(q1: Seq<(bool, Seq<char>)>, q2: Seq<(bool, Seq<char>)>)
    requires
        q1.len() == q2.len(),
        forall|i: int| 0 <= i < q1.len() ==> (#[trigger] q1[i]).1 == q2[i].1,
    ensures
        concat_sections(q1) == concat_sections(q2),
    decreases q1.len(),
{
    if q1.len() > 0 {
        lemma_concat_same_texts(q1.drop_last(), q2.drop_last());
        assert(q1[q1.len() - 1].1 == q2[q2.len() - 1].1);
    }
}

/// The runs with each word `w` for which `keep(w)` fails turned into a separator run of
/// `c`s, one per byte of `w`.
pub open spec fn censor_runs(
    secs: Seq<(bool, Seq<char>)>,
    keep: spec_fn(Seq<char>) -> bool,
    c: char,
) -> Seq<(bool, Seq<char>)> {
    Seq::new(
        secs.len(),
        |i: int| if secs[i].0 && !keep(secs[i].1) {
            (false, repeat_char(c, utf8_len(secs[i].1) as nat))
        } else {
            secs[i]
        },
    )
}

proof fn lemma_censor_runs_loose(secs: Seq<(bool, Seq<char>)>, keep: spec_fn(Seq<char>) -> bool, c: char)
    requires
        well_formed_sections(secs),
        is_punc(c),
    ensures
        loose_sections(censor_runs(secs, keep, c)),
{
    let q = censor_runs(secs, keep, c);
    assert forall|i: int| 0 <= i < q.len() implies all_of_kind((#[trigger] q[i]).1, q[i].0) by {
        assert forall|j: int| 0 <= j < q[i].1.len() implies is_punc(#[trigger] q[i].1[j]) == !q[i].0 by {
            if !(secs[i].0 && !keep(secs[i].1)) {
                assert(is_punc(secs[i].1[j]) == !secs[i].0);
            }
        }
    }
    assert forall|i: int| 0 <= i < q.len() - 1 && (#[trigger] q[i]).0 implies !q[i + 1].0 && q[i + 1].1.len() > 0 by {
        assert(secs[i].0 != secs[i + 1].0);
        assert(secs[i + 1].1.len() > 0);
    }
}

proof fn lemma_word_runs_censor(secs: Seq<(bool, Seq<char>)>, keep: spec_fn(Seq<char>) -> bool, c: char)
    ensures
        word_runs(censor_runs(secs, keep, c)) == word_runs(secs).filter(keep),
    decreases secs.len(),
{
    reveal_with_fuel(Seq::filter, 1);
    if secs.len() > 0 {
        lemma_word_runs_censor(secs.drop_last(), keep, c);
        assert(censor_runs(secs, keep, c).drop_last() =~= censor_runs(secs.drop_last(), keep, c));
        let w = secs.last();
        if w.0 {
            word_runs(secs.drop_last()).lemma_filter_push(w.1, keep);
        }
    }
}

/// Censoring words with a separator character and cutting the result into runs again
/// leaves exactly the kept words, in order.
proof fn lemma_censored_words(text: Seq<char>, keep: spec_fn(Seq<char>) -> bool, c: char)
    requires
        is_punc(c),
    ensures
        word_runs(sections_of(concat_sections(map_words(
            sections_of(text),
            |i: int, w: Seq<char>| if keep(w) { w } else { repeat_char(c, utf8_len(w) as nat) },
        )))) == word_runs(sections_of(text)).filter(keep),
{
    let secs = sections_of(text);
    split_runs_are_well_formed(text);
    let q = censor_runs(secs, keep, c);
    let m = map_words(secs, |i: int, w: Seq<char>| if keep(w) { w } else { repeat_char(c, utf8_len(w) as nat) });
    lemma_concat_same_texts(q, m);
    lemma_censor_runs_loose(secs, keep, c);
    words_of_concat(q);
    lemma_word_runs_censor(secs, keep, c);
}

/// "Gluttony" leaves exactly the words with one vowel: the words of its result are the
/// words of the text that hold exactly one vowel, in order.
pub proof fn gluttony_keeps_one_vowel_words(text: Seq<char>)
    ensures
        word_runs(sections_of(gluttony_text(text))) == word_runs(sections_of(text)).filter(
            |w: Seq<char>| vowel_count(w) == 1,
        ),
{
    let keep = |w: Seq<char>| vowel_count(w) == 1;
    lemma_censored_words(text, keep, '*');
    assert(map_words(sections_of(text), |i: int, w: Seq<char>| if vowel_count(w) != 1 { stars(w) } else { w })
        =~= map_words(sections_of(text), |i: int, w: Seq<char>| if keep(w) { w } else { repeat_char('*', utf8_len(w) as nat) }));
}

/// "Unique" leaves no used word: the words of its result are the words of the text that
/// match none of `used` in small letters, in order.
pub proof fn unique_drops_used_words(text: Seq<char>, used: Seq<Seq<char>>)
    ensures
        word_runs(sections_of(unique_text(text, used))) == word_runs(sections_of(text)).filter(
            |w: Seq<char>| !matches_lowercase(used, w),
        ),
{
    let keep = |w: Seq<char>| !matches_lowercase(used, w);
    lemma_censored_words(text, keep, '*');
    assert(map_words(sections_of(text), |i: int, w: Seq<char>| if matches_lowercase(used, w) { stars(w) } else { w })
        =~= map_words(sections_of(text), |i: int, w: Seq<char>| if keep(w) { w } else { repeat_char('*', utf8_len(w) as nat) }));
}

/// The censored text of "English degree" holds exactly the passing words, in order.
pub proof fn degree_keeps_passing_words(text: Seq<char>, all_words: Seq<Seq<char>>)
    ensures
        word_runs(sections_of(degree_censored_text(text, all_words))) == word_runs(sections_of(text)).filter(
            |w: Seq<char>| passes_degree(all_words, w),
        ),
{
    let keep = |w: Seq<char>| passes_degree(all_words, w);
    lemma_censored_words(text, keep, '*');
    assert(map_words(sections_of(text), |i: int, w: Seq<char>| if passes_degree(all_words, w) { w } else { stars(w) })
        =~= map_words(sections_of(text), |i: int, w: Seq<char>| if keep(w) { w } else { repeat_char('*', utf8_len(w) as nat) }));
}

/// Reading a text backwards twice gives it back ("Reversed" undoes itself).
pub proof fn reversing_twice_is_identity(text: Seq<char>)
    ensures
        text.reverse().reverse() == text,
{
    assert(text.reverse().reverse() =~= text);
}

/// After "Fck Vwls" no vowel is left, and applying it again changes nothing.
pub proof fn fck_vwls_leaves_no_vowel(text: Seq<char>)
    ensures
        forall|i: int| 0 <= i < without_vowels(text).len() ==> !is_vowel(#[trigger] without_vowels(text)[i]),
        without_vowels(without_vowels(text)) == without_vowels(text),
{
    let pred = |c: char| !is_vowel(c);
    let r = text.filter(pred);
    assert forall|i: int| 0 <= i < r.len() implies !is_vowel(#[trigger] r[i]) by {
        text.lemma_filter_pred(pred, i);
    }
    lemma_filter_all(r, pred);
}

/// What "Palindrome" gives reads the same backwards, punctuation left out and put in small
/// letters, and applying it again changes nothing.
pub proof fn palindrome_result_is_palindrome(text: Seq<char>)
    ensures
        lowercase(palindrome_kept(palindrome_text(text)).reverse())
            == lowercase(palindrome_kept(palindrome_text(text))),
        palindrome_text(palindrome_text(text)) == palindrome_text(text),
{
    let kept = palindrome_kept(text);
    if lowercase(kept.reverse()) != lowercase(kept) {
        let pred = |c: char| !palindrome_ignored(c);
        let m = mirrored(kept);
        assert forall|i: int| 0 <= i < m.len() implies pred(#[trigger] m[i]) by {
            if i <= kept.len() - 1 - i {
                text.lemma_filter_pred(pred, i);
            } else {
                text.lemma_filter_pred(pred, kept.len() - 1 - i);
            }
        }
        lemma_filter_all(m, pred);
        assert(m.reverse() =~= m);
    }
}

/// The order of "Ordered" puts a word before every longer word it begins: a proper prefix
/// comes first, and the longer word does not come before it.
pub proof fn lex_order_puts_prefix_first(a: Seq<char>, b: Seq<char>)
    requires
        a.len() < b.len(),
        a == b.take(a.len() as int),
    ensures
        lex_le(a, b),
        !lex_le(b, a),
    decreases a.len(),
{
    if a.len() > 0 {
        assert(a[0] == b.take(a.len() as int)[0]);
        assert(a.drop_first() =~= b.drop_first().take(a.drop_first().len() as int));
        lex_order_puts_prefix_first(a.drop_first(), b.drop_first());
    }
}

/// Otherwise the order of "Ordered" is decided by the first place where the two words
/// differ: the one with the smaller character there comes first.
pub proof fn lex_order_decided_by_first_difference(a: Seq<char>, b: Seq<char>, i: int)
    requires
        0 <= i < a.len(),
        i < b.len(),
        a.take(i) == b.take(i),
        a[i] != b[i],
    ensures
        lex_le(a, b) <==> a[i] < b[i],
    decreases i,
{
    if i > 0 {
        assert(a[0] == a.take(i)[0]);
        assert(b[0] == b.take(i)[0]);
        assert(a.drop_first().take(i - 1) =~= b.drop_first().take(i - 1)) by {
            assert forall|j: int| 0 <= j < i - 1 implies a.drop_first()[j] == b.drop_first()[j] by {
                assert(a.take(i)[j + 1] == a[j + 1]);
                assert(b.take(i)[j + 1] == b[j + 1]);
                assert(a.take(i)[j + 1] == b.take(i)[j + 1]);
            }
        }
        lex_order_decided_by_first_difference(a.drop_first(), b.drop_first(), i - 1);
    }
}

/// Every word comes before or equals itself in the order of "Ordered".
pub proof fn lex_order_is_reflexive(a: Seq<char>)
    ensures
        lex_le(a, a),
    decreases a.len(),
{
    if a.len() > 0 {
        lex_order_is_reflexive(a.drop_first());
    }
}

/// A word passes "English degree" exactly when it is longer than eight bytes and its
/// small-letter form is one of the listed words; the censored text holds exactly those
/// words, in order.
pub proof fn degree_passes_only_long_listed_words(text: Seq<char>, all_words: Seq<Seq<char>>, w: Seq<char>)
    ensures
        passes_degree(all_words, w) <==> (utf8_len(w) > 8 && all_words.contains(lowercase(w))),
        word_runs(sections_of(degree_censored_text(text, all_words))) == word_runs(sections_of(text)).filter(
            |v: Seq<char>| utf8_len(v) > 8 && all_words.contains(lowercase(v)),
        ),
{
    degree_keeps_passing_words(text, all_words);
    assert(word_runs(sections_of(text)).filter(|v: Seq<char>| passes_degree(all_words, v))
        =~= word_runs(sections_of(text)).filter(|v: Seq<char>| utf8_len(v) > 8 && all_words.contains(lowercase(v))))
    by {
        let p1 = |v: Seq<char>| passes_degree(all_words, v);
        let p2 = |v: Seq<char>| utf8_len(v) > 8 && all_words.contains(lowercase(v));
        assert(p1 =~= p2);
    }
}

/// The pronouns that "Research document" replaces are the fifteen words I, me, you, he,
/// she, they, them, him, her, hers, his, its, theirs, our, your, in any case: a word is
/// replaced by `derek` exactly when its small-letter form is that of one of them.
pub proof fn research_document_pronouns_are_the_fifteen(text: Seq<char>, w: Seq<char>)
    ensures
        derek_word() == "derek"@,
        matches_lowercase(pronouns(), w) <==> {
            ||| lowercase(w) == lowercase("I"@)
            ||| lowercase(w) == lowercase("me"@)
            ||| lowercase(w) == lowercase("you"@)
            ||| lowercase(w) == lowercase("he"@)
            ||| lowercase(w) == lowercase("she"@)
            ||| lowercase(w) == lowercase("they"@)
            ||| lowercase(w) == lowercase("them"@)
            ||| lowercase(w) == lowercase("him"@)
            ||| lowercase(w) == lowercase("her"@)
            ||| lowercase(w) == lowercase("hers"@)
            ||| lowercase(w) == lowercase("his"@)
            ||| lowercase(w) == lowercase("its"@)
            ||| lowercase(w) == lowercase("theirs"@)
            ||| lowercase(w) == lowercase("our"@)
            ||| lowercase(w) == lowercase("your"@)
        },
        word_runs(sections_of(research_document_text(text))) == word_runs(sections_of(text)).map_values(
            |v: Seq<char>| if matches_lowercase(pronouns(), v) { derek_word() } else { v },
        ),
{
    if matches_lowercase(pronouns(), w) {
        let k = choose|k: int| 0 <= k < pronouns().len() && lowercase(#[trigger] pronouns()[k]) == lowercase(w);
        assert(0 <= k < 15);
    } else {
        assert forall|k: int| 0 <= k < 15 implies lowercase(#[trigger] pronouns()[k]) != lowercase(w) by {}
            assert(pronouns()[0] == "I"@);
            assert(pronouns()[1] == "me"@);
            assert(pronouns()[2] == "you"@);
            assert(pronouns()[3] == "he"@);
            assert(pronouns()[4] == "she"@);
            assert(pronouns()[5] == "they"@);
            assert(pronouns()[6] == "them"@);
            assert(pronouns()[7] == "him"@);
            assert(pronouns()[8] == "her"@);
            assert(pronouns()[9] == "hers"@);
            assert(pronouns()[10] == "his"@);
            assert(pronouns()[11] == "its"@);
            assert(pronouns()[12] == "theirs"@);
            assert(pronouns()[13] == "our"@);
            assert(pronouns()[14] == "your"@);
    }
    research_document_replaces_pronouns(text);
    reveal_strlit("derek");
    assert(derek_word() =~= "derek"@);
}

/// Filtering a sequence all of whose elements pass changes nothing.
proof fn lemma_filter_all(s: Seq<char>, pred: spec_fn(char) -> bool)
    requires
        forall|i: int| 0 <= i < s.len() ==> pred(#[trigger] s[i]),
    ensures
        s.filter(pred) == s,
    decreases s.len(),
{
    reveal_with_fuel(Seq::filter, 1);
    if s.len() > 0 {
        lemma_filter_all(s.drop_last(), pred);
        assert(pred(s[s.len() - 1]));
        assert(s.drop_last().push(s.last()) =~= s);
    }
}

proof fn lemma_swap_multiset(c: Seq<char>, a: int, b: int)
    requires
        0 <= a < c.len(),
        0 <= b < c.len(),
    ensures
        swap_chars(c, a, b).len() == c.len(),
        swap_chars(c, a, b).to_multiset() == c.to_multiset(),
{
    broadcast use vstd::seq_lib::group_to_multiset_ensures, vstd::multiset::group_multiset_axioms;
    let t = c.update(a, c[b]);
    vstd::seq_lib::to_multiset_update(c, a, c[b]);
    vstd::seq_lib::to_multiset_update(t, b, c[a]);
    assert(t[b] == c[b]);
    assert(c.to_multiset().contains(c[b])) by {
        vstd::seq_lib::to_multiset_contains(c, c[b]);
        assert(c.contains(c[b]));
    }
    assert(c.to_multiset().insert(c[b]).remove(c[a]).insert(c[a]).remove(c[b]) =~= c.to_multiset());
}

/// "Corruption" only moves characters: the text keeps its length and its characters.
pub proof fn corruption_keeps_characters(text: Seq<char>, rolls: Seq<(usize, bool)>)
    requires
        text.len() > 0,
        forall|k: int| 0 <= k < rolls.len() ==> (#[trigger] rolls[k]).0 < text.len(),
    ensures
        corrupted(text, rolls).len() == text.len(),
        corrupted(text, rolls).to_multiset() == text.to_multiset(),
    decreases rolls.len(),
{
    if rolls.len() > 0 {
        corruption_keeps_characters(text, rolls.drop_last());
        let prev = corrupted(text, rolls.drop_last());
        let roll = rolls.last();
        assert(rolls[rolls.len() - 1] == roll);
        let r = roll.0 as int;
        let other = if roll.1 {
            if r != prev.len() - 1 { r + 1 } else { r }
        } else {
            if r != 0 { r - 1 } else { r }
        };
        lemma_swap_multiset(prev, r, other);
    }
}

/// The first "Corruption" only moves characters: the text keeps its length and its
/// characters.
pub proof fn first_corruption_keeps_characters(text: Seq<char>, rolls: Seq<(usize, bool)>)
    requires
        forall|k: int| 0 <= k < rolls.len() ==> (#[trigger] rolls[k]).0 + 1 < text.len(),
        forall|k: int| 0 <= k < rolls.len() ==> ((#[trigger] rolls[k]).0 == 0 ==> rolls[k].1),
    ensures
        first_corrupted(text, rolls).len() == text.len(),
        first_corrupted(text, rolls).to_multiset() == text.to_multiset(),
    decreases rolls.len(),
{
    if rolls.len() > 0 {
        first_corruption_keeps_characters(text, rolls.drop_last());
        let prev = first_corrupted(text, rolls.drop_last());
        let roll = rolls.last();
        assert(rolls[rolls.len() - 1] == roll);
        let r = roll.0 as int;
        lemma_swap_multiset(prev, r, if roll.1 { r + 1 } else { r - 1 });
    }
}

proof fn lemma_map_words_well_formed(secs: Seq<(bool, Seq<char>)>, f: spec_fn(int, Seq<char>) -> Seq<char>)
    requires
        well_formed_sections(secs),
        forall|i: int| 0 <= i < secs.len() && (#[trigger] secs[i]).0
            ==> f(i, secs[i].1).len() > 0 && all_of_kind(f(i, secs[i].1), true),
    ensures
        well_formed_sections(map_words(secs, f)),
{
    let q = map_words(secs, f);
    assert forall|i: int| 0 <= i < q.len() implies (#[trigger] q[i]).1.len() > 0 by {
        assert(secs[i].1.len() > 0);
    }
    assert forall|i: int, j: int| 0 <= i < q.len() && 0 <= j < q[i].1.len()
        implies is_punc(#[trigger] q[i].1[j]) == !q[i].0 by {
        if secs[i].0 {
            assert(all_of_kind(f(i, secs[i].1), true));
        } else {
            assert(is_punc(secs[i].1[j]) == !secs[i].0);
        }
    }
    assert forall|i: int| 0 <= i < q.len() - 1 implies (#[trigger] q[i]).0 != q[i + 1].0 by {
        assert(secs[i].0 != secs[i + 1].0);
    }
}

/// Every word of a list of runs is the text of one of its word runs.
proof fn lemma_word_runs_member(q: Seq<(bool, Seq<char>)>, k: int)
    requires
        0 <= k < word_runs(q).len(),
    ensures
        exists|i: int| 0 <= i < q.len() && (#[trigger] q[i]).0 && q[i].1 == word_runs(q)[k],
    decreases q.len(),
{
    if q.len() > 0 {
        let front = q.drop_last();
        if k < word_runs(front).len() {
            lemma_word_runs_member(front, k);
            let i = choose|i: int| 0 <= i < front.len() && (#[trigger] front[i]).0 && front[i].1 == word_runs(front)[k];
            assert(q[i] == front[i]);
        } else {
            assert(q[q.len() - 1].0);
        }
    }
}

/// Replacing each word `w` by `g(w)` replaces the list of words in the same way.
proof fn lemma_word_runs_map(secs: Seq<(bool, Seq<char>)>, g: spec_fn(Seq<char>) -> Seq<char>)
    ensures
        word_runs(map_words(secs, |i: int, w: Seq<char>| g(w))) == word_runs(secs).map_values(g),
    decreases secs.len(),
{
    if secs.len() > 0 {
        lemma_word_runs_map(secs.drop_last(), g);
        assert(map_words(secs, |i: int, w: Seq<char>| g(w)).drop_last()
            =~= map_words(secs.drop_last(), |i: int, w: Seq<char>| g(w)));
        assert(word_runs(secs).map_values(g) =~= if secs.last().0 {
            word_runs(secs.drop_last()).map_values(g).push(g(secs.last().1))
        } else {
            word_runs(secs.drop_last()).map_values(g)
        });
    }
}

/// The word `derek` holds no separator.
proof fn lemma_derek_is_word()
    ensures
        derek_word().len() > 0,
        all_of_kind(derek_word(), true),
{
    assert forall|j: int| 0 <= j < derek_word().len() implies is_punc(#[trigger] derek_word()[j]) == !true by {}
}

/// "Research document" replaces each personal pronoun, and nothing else: the words of its
/// result are the words of the text with each pronoun turned into `derek`.
pub proof fn research_document_replaces_pronouns(text: Seq<char>)
    ensures
        word_runs(sections_of(research_document_text(text))) == word_runs(sections_of(text)).map_values(
            |w: Seq<char>| if matches_lowercase(pronouns(), w) { derek_word() } else { w },
        ),
{
    let secs = sections_of(text);
    let g = |w: Seq<char>| if matches_lowercase(pronouns(), w) { derek_word() } else { w };
    let f = |i: int, w: Seq<char>| g(w);
    split_runs_are_well_formed(text);
    lemma_derek_is_word();
    assert forall|i: int| 0 <= i < secs.len() && (#[trigger] secs[i]).0
        implies f(i, secs[i].1).len() > 0 && all_of_kind(f(i, secs[i].1), true) by {
        assert forall|j: int| 0 <= j < secs[i].1.len() implies is_punc(#[trigger] secs[i].1[j]) == !secs[i].0 by {}
    }
    lemma_map_words_well_formed(secs, f);
    let q = map_words(secs, f);
    assert(q =~= map_words(secs, |i: int, w: Seq<char>| if matches_lowercase(pronouns(), w) { derek_word() } else { w }));
    sections_of_concat(q);
    lemma_word_runs_map(secs, g);
}

/// Replacing the marked words by words of `list` that hold no separator and are not
/// empty keeps the cut of the text: each run stays a run.
proof fn lemma_replace_marked_runs(
    text: Seq<char>,
    marked: spec_fn(Seq<char>) -> bool,
    list: Seq<Seq<char>>,
    picks: Seq<usize>,
)
    requires
        picks_valid(sections_of(text), marked, list.len(), picks),
        forall|k: int| 0 <= k < list.len() ==> (#[trigger] list[k]).len() > 0 && all_of_kind(list[k], true),
    ensures
        sections_of(concat_sections(replace_marked(sections_of(text), marked, list, picks)))
            == replace_marked(sections_of(text), marked, list, picks),
{
    let secs = sections_of(text);
    split_runs_are_well_formed(text);
    let f = |i: int, w: Seq<char>| if marked(w) { list[picks[i] as int] } else { w };
    assert forall|i: int| 0 <= i < secs.len() && (#[trigger] secs[i]).0
        implies f(i, secs[i].1).len() > 0 && all_of_kind(f(i, secs[i].1), true) by {
        if marked(secs[i].1) {
            assert(picks[i] < list.len());
            assert(list[picks[i] as int].len() > 0 && all_of_kind(list[picks[i] as int], true));
        } else {
            assert forall|j: int| 0 <= j < secs[i].1.len() implies is_punc(#[trigger] secs[i].1[j]) == !secs[i].0 by {}
        }
    }
    lemma_map_words_well_formed(secs, f);
    sections_of_concat(map_words(secs, f));
}

/// After "Hive mind" every word is one of the accepted words, when the accepted words are
/// words (not empty, without separators).
pub proof fn hive_mind_words_are_accepted(text: Seq<char>, list: Seq<Seq<char>>, picks: Seq<usize>)
    requires
        picks_valid(sections_of(text), not_in(list), list.len(), picks),
        forall|k: int| 0 <= k < list.len() ==> (#[trigger] list[k]).len() > 0 && all_of_kind(list[k], true),
    ensures
        forall|k: int| 0 <= k < word_runs(sections_of(hive_mind_text(text, list, picks))).len()
            ==> list.contains(#[trigger] word_runs(sections_of(hive_mind_text(text, list, picks)))[k]),
{
    let q = replace_marked(sections_of(text), not_in(list), list, picks);
    lemma_replace_marked_runs(text, not_in(list), list, picks);
    assert forall|k: int| 0 <= k < word_runs(q).len() implies list.contains(#[trigger] word_runs(q)[k]) by {
        lemma_word_runs_member(q, k);
        let i = choose|i: int| 0 <= i < q.len() && (#[trigger] q[i]).0 && q[i].1 == word_runs(q)[k];
        let secs = sections_of(text);
        if not_in(list)(secs[i].1) {
            assert(picks[i] < list.len());
            assert(list[picks[i] as int] == q[i].1);
        }
    }
}

/// After "Simplicity" every word is common: one of `common`, or a word whose small-letter
/// form is one of `common` (when the common words hold no separator and are not empty).
pub proof fn simplicity_words_are_common(text: Seq<char>, common: Seq<Seq<char>>, picks: Seq<usize>)
    requires
        picks_valid(sections_of(text), lowercase_not_in(common), common.len(), picks),
        forall|k: int| 0 <= k < common.len() ==> (#[trigger] common[k]).len() > 0 && all_of_kind(common[k], true),
    ensures
        forall|k: int| 0 <= k < word_runs(sections_of(simplicity_text(text, common, picks))).len()
            ==> ({
                let w = #[trigger] word_runs(sections_of(simplicity_text(text, common, picks)))[k];
                common.contains(w) || common.contains(lowercase(w))
            }),
{
    let q = replace_marked(sections_of(text), lowercase_not_in(common), common, picks);
    lemma_replace_marked_runs(text, lowercase_not_in(common), common, picks);
    assert forall|k: int| 0 <= k < word_runs(q).len() implies ({
        let w = #[trigger] word_runs(q)[k];
        common.contains(w) || common.contains(lowercase(w))
    }) by {
        lemma_word_runs_member(q, k);
        let i = choose|i: int| 0 <= i < q.len() && (#[trigger] q[i]).0 && q[i].1 == word_runs(q)[k];
        let secs = sections_of(text);
        if lowercase_not_in(common)(secs[i].1) {
            assert(picks[i] < common.len());
            assert(common[picks[i] as int] == q[i].1);
        }
    }
}

/// Any two texts are ordered one way or the other.
proof fn lemma_lex_le_total(a: Seq<char>, b: Seq<char>)
    ensures
        lex_le(a, b) || lex_le(b, a),
    decreases a.len(),
{
    if a.len() > 0 && b.len() > 0 && a[0] == b[0] {
        lemma_lex_le_total(a.drop_first(), b.drop_first());
    }
}

/// The order of texts is transitive.
proof fn lemma_lex_le_transitive(a: Seq<char>, b: Seq<char>, c: Seq<char>)
    requires
        lex_le(a, b),
        lex_le(b, c),
    ensures
        lex_le(a, c),
    decreases a.len(),
{
    if a.len() > 0 && b.len() > 0 && c.len() > 0 && a[0] == b[0] && b[0] == c[0] {
        lemma_lex_le_transitive(a.drop_first(), b.drop_first(), c.drop_first());
    }
}

/// The words are in order of their small-letter forms.
pub open spec fn sorted_by_lower(s: Seq<Seq<char>>) -> bool {
    forall|i: int, j: int| 0 <= i < j < s.len() ==> lex_le(lowercase(#[trigger] s[i]), lowercase(#[trigger] s[j]))
}

proof fn lemma_insert_by_lower_members(s: Seq<Seq<char>>, w: Seq<char>, k: int)
    requires
        0 <= k < insert_by_lower(s, w).len(),
    ensures
        insert_by_lower(s, w)[k] == w || s.contains(insert_by_lower(s, w)[k]),
    decreases s.len(),
{
    lemma_insert_by_lower_len(s, w);
    if s.len() > 0 && !lex_le(lowercase(s.last()), lowercase(w)) {
        let r = insert_by_lower(s.drop_last(), w);
        lemma_insert_by_lower_len(s.drop_last(), w);
        if k < r.len() {
            lemma_insert_by_lower_members(s.drop_last(), w, k);
            if r[k] != w {
                let t = choose|t: int| 0 <= t < s.drop_last().len() && s.drop_last()[t] == r[k];
                assert(s[t] == r[k]);
            }
        } else {
            assert(s[s.len() - 1] == s.last());
        }
    } else if s.len() > 0 {
        if k < s.len() {
            assert(s[k] == insert_by_lower(s, w)[k]);
        }
    }
}

proof fn lemma_insert_by_lower_sorted(s: Seq<Seq<char>>, w: Seq<char>)
    requires
        sorted_by_lower(s),
    ensures
        sorted_by_lower(insert_by_lower(s, w)),
    decreases s.len(),
{
    lemma_insert_by_lower_len(s, w);
    if s.len() > 0 {
        let last = s.last();
        if lex_le(lowercase(last), lowercase(w)) {
            let r = s.push(w);
            assert forall|i: int, j: int| 0 <= i < j < r.len() implies lex_le(lowercase(#[trigger] r[i]), lowercase(#[trigger] r[j])) by {
                if j == r.len() - 1 {
                    if i < s.len() - 1 {
                        assert(lex_le(lowercase(s[i]), lowercase(s[s.len() - 1])));
                        lemma_lex_le_transitive(lowercase(s[i]), lowercase(last), lowercase(w));
                    }
                } else {
                    assert(r[i] == s[i] && r[j] == s[j]);
                }
            }
        } else {
            let front = s.drop_last();
            assert(sorted_by_lower(front)) by {
                assert forall|i: int, j: int| 0 <= i < j < front.len() implies lex_le(lowercase(#[trigger] front[i]), lowercase(#[trigger] front[j])) by {
                    assert(front[i] == s[i] && front[j] == s[j]);
                }
            }
            lemma_insert_by_lower_sorted(front, w);
            let r0 = insert_by_lower(front, w);
            lemma_insert_by_lower_len(front, w);
            let r = r0.push(last);
            lemma_lex_le_total(lowercase(last), lowercase(w));
            assert forall|i: int, j: int| 0 <= i < j < r.len() implies lex_le(lowercase(#[trigger] r[i]), lowercase(#[trigger] r[j])) by {
                if j == r.len() - 1 {
                    lemma_insert_by_lower_members(front, w, i);
                    assert(r[i] == r0[i]);
                    if r0[i] != w {
                        let t = choose|t: int| 0 <= t < front.len() && front[t] == r0[i];
                        assert(s[t] == r0[i]);
                        assert(lex_le(lowercase(s[t]), lowercase(s[s.len() - 1])));
                    }
                } else {
                    assert(r[i] == r0[i] && r[j] == r0[j]);
                }
            }
        }
    }
}

proof fn lemma_insert_by_lower_multiset(s: Seq<Seq<char>>, w: Seq<char>)
    ensures
        insert_by_lower(s, w).to_multiset() == s.to_multiset().insert(w),
    decreases s.len(),
{
    broadcast use vstd::seq_lib::group_to_multiset_ensures, vstd::multiset::group_multiset_axioms;
    if s.len() == 0 {
        assert(seq![w] =~= Seq::<Seq<char>>::empty().push(w));
    } else if !lex_le(lowercase(s.last()), lowercase(w)) {
        lemma_insert_by_lower_multiset(s.drop_last(), w);
        assert(s.drop_last().push(s.last()) =~= s);
        assert(s.drop_last().to_multiset().insert(w).insert(s.last())
            =~= s.drop_last().to_multiset().insert(s.last()).insert(w));
    }
}

/// The stable sort of "Ordered" puts the words in order of their small-letter forms, and
/// keeps every word (as many times as it occurs).
pub proof fn sort_by_lower_sorts(ws: Seq<Seq<char>>)
    ensures
        sorted_by_lower(sort_by_lower(ws)),
        sort_by_lower(ws).to_multiset() == ws.to_multiset(),
    decreases ws.len(),
{
    broadcast use vstd::seq_lib::group_to_multiset_ensures;
    if ws.len() > 0 {
        sort_by_lower_sorts(ws.drop_last());
        lemma_insert_by_lower_sorted(sort_by_lower(ws.drop_last()), ws.last());
        lemma_insert_by_lower_multiset(sort_by_lower(ws.drop_last()), ws.last());
        assert(ws.drop_last().push(ws.last()) =~= ws);
    }
}

proof fn lemma_word_runs_ranked(secs: Seq<(bool, Seq<char>)>, s: Seq<Seq<char>>)
    requires
        word_runs(secs).len() <= s.len(),
    ensures
        word_runs(map_words(secs, |i: int, w: Seq<char>| s[words_before(secs, i) as int]))
            == s.take(word_runs(secs).len() as int),
    decreases secs.len(),
{
    if secs.len() == 0 {
        assert(s.take(0) =~= seq![]);
    } else {
        let front = secs.drop_last();
        let n = secs.len() - 1;
        lemma_word_runs_step(secs, n);
        assert(secs.take(n) =~= front);
        assert(secs.take(n + 1) =~= secs);
        lemma_word_runs_ranked(front, s);
        assert forall|i: int| 0 <= i < n implies words_before(secs, i) == words_before(front, i) by {
            assert(secs.take(i) =~= front.take(i));
        }
        assert(map_words(secs, |i: int, w: Seq<char>| s[words_before(secs, i) as int]).drop_last()
            =~= map_words(front, |i: int, w: Seq<char>| s[words_before(front, i) as int]));
        if secs.last().0 {
            assert(s.take(word_runs(front).len() as int).push(s[word_runs(front).len() as int])
                =~= s.take(word_runs(secs).len() as int));
        }
    }
}

/// "Ordered" puts the words in alphabetical order and changes nothing else: the words of
/// its result are the words of the text, sorted (stably) by their small-letter forms.
pub proof fn ordered_sorts_words(text: Seq<char>)
    ensures
        word_runs(sections_of(ordered_text(text))) == sort_by_lower(word_runs(sections_of(text))),
        sorted_by_lower(word_runs(sections_of(ordered_text(text)))),
        word_runs(sections_of(ordered_text(text))).to_multiset() == word_runs(sections_of(text)).to_multiset(),
{
    broadcast use vstd::seq_lib::group_to_multiset_ensures;
    let secs = sections_of(text);
    let ws = word_runs(secs);
    let sorted = sort_by_lower(ws);
    split_runs_are_well_formed(text);
    lemma_sort_by_lower_len(ws);
    sort_by_lower_sorts(ws);
    let f = |i: int, w: Seq<char>| sorted[words_before(secs, i) as int];
    assert forall|i: int| 0 <= i < secs.len() && (#[trigger] secs[i]).0
        implies f(i, secs[i].1).len() > 0 && all_of_kind(f(i, secs[i].1), true) by {
        lemma_words_before_bound(secs, i);
        let x = sorted[words_before(secs, i) as int];
        assert(sorted.contains(x));
        vstd::seq_lib::to_multiset_contains(sorted, x);
        vstd::seq_lib::to_multiset_contains(ws, x);
        assert(ws.contains(x));
        let k = choose|k: int| 0 <= k < ws.len() && ws[k] == x;
        lemma_word_runs_member(secs, k);
        let t = choose|t: int| 0 <= t < secs.len() && (#[trigger] secs[t]).0 && secs[t].1 == ws[k];
        assert forall|j: int| 0 <= j < x.len() implies is_punc(#[trigger] x[j]) == !true by {
            assert(is_punc(secs[t].1[j]) == !secs[t].0);
        }
    }
    lemma_map_words_well_formed(secs, f);
    sections_of_concat(map_words(secs, f));
    lemma_word_runs_ranked(secs, sorted);
    assert(sorted.take(ws.len() as int) =~= sorted);
}

/// The runs with each word that `keep` refuses, given how many words come before it,
/// turned into a separator run of `*`s, one per byte.
pub open spec fn censor_ranked(secs: Seq<(bool, Seq<char>)>, keep: spec_fn(int, Seq<char>) -> bool) -> Seq<(bool, Seq<char>)> {
    Seq::new(
        secs.len(),
        |i: int| if secs[i].0 && !keep(words_before(secs, i) as int, secs[i].1) {
            (false, stars(secs[i].1))
        } else {
            secs[i]
        },
    )
}

/// The words `keep` accepts, given their positions.
pub open spec fn filter_ranked(ws: Seq<Seq<char>>, keep: spec_fn(int, Seq<char>) -> bool) -> Seq<Seq<char>>
    decreases ws.len(),
{
    if ws.len() == 0 {
        seq![]
    } else {
        let r = filter_ranked(ws.drop_last(), keep);
        if keep(ws.len() - 1, ws.last()) { r.push(ws.last()) } else { r }
    }
}

proof fn lemma_censor_ranked_loose(secs: Seq<(bool, Seq<char>)>, keep: spec_fn(int, Seq<char>) -> bool)
    requires
        well_formed_sections(secs),
    ensures
        loose_sections(censor_ranked(secs, keep)),
{
    let q = censor_ranked(secs, keep);
    assert forall|i: int| 0 <= i < q.len() implies all_of_kind((#[trigger] q[i]).1, q[i].0) by {
        assert forall|j: int| 0 <= j < q[i].1.len() implies is_punc(#[trigger] q[i].1[j]) == !q[i].0 by {
            if !(secs[i].0 && !keep(words_before(secs, i) as int, secs[i].1)) {
                assert(is_punc(secs[i].1[j]) == !secs[i].0);
            }
        }
    }
    assert forall|i: int| 0 <= i < q.len() - 1 && (#[trigger] q[i]).0 implies !q[i + 1].0 && q[i + 1].1.len() > 0 by {
        assert(secs[i].0 != secs[i + 1].0);
        assert(secs[i + 1].1.len() > 0);
    }
}

proof fn lemma_word_runs_censor_ranked(secs: Seq<(bool, Seq<char>)>, keep: spec_fn(int, Seq<char>) -> bool)
    ensures
        word_runs(censor_ranked(secs, keep)) == filter_ranked(word_runs(secs), keep),
    decreases secs.len(),
{
    if secs.len() > 0 {
        let front = secs.drop_last();
        let n = secs.len() - 1;
        lemma_word_runs_censor_ranked(front, keep);
        assert forall|i: int| 0 <= i < n implies words_before(secs, i) == words_before(front, i) by {
            assert(secs.take(i) =~= front.take(i));
        }
        assert(censor_ranked(secs, keep).drop_last() =~= censor_ranked(front, keep));
        assert(secs.take(n) =~= front);
        if secs.last().0 {
            assert(word_runs(secs).drop_last() =~= word_runs(front));
        }
    }
}

proof fn lemma_filter_odd_ranks(ws: Seq<Seq<char>>)
    ensures
        filter_ranked(ws, |r: int, w: Seq<char>| r % 2 == 1) =~= Seq::new(ws.len() / 2, |k: int| ws[2 * k + 1]),
    decreases ws.len(),
{
    if ws.len() > 0 {
        lemma_filter_odd_ranks(ws.drop_last());
    }
}

/// "Even Steven" on a text with an odd number of words leaves exactly the second, fourth,
/// ... words (and a text with an even number of words unchanged).
pub proof fn even_steven_keeps_every_other_word(text: Seq<char>)
    ensures
        word_runs(sections_of(text)).len() % 2 == 0 ==> even_steven_text(text) == text,
        word_runs(sections_of(text)).len() % 2 == 1 ==> word_runs(sections_of(even_steven_text(text)))
            == Seq::new(
                word_runs(sections_of(text)).len() / 2,
                |k: int| word_runs(sections_of(text))[2 * k + 1],
            ),
{
    let secs = sections_of(text);
    if word_runs(secs).len() % 2 == 1 {
        let keep = |r: int, w: Seq<char>| r % 2 == 1;
        split_runs_are_well_formed(text);
        let q = censor_ranked(secs, keep);
        let m = map_words(secs, |i: int, w: Seq<char>| if words_before(secs, i) % 2 == 0 { stars(w) } else { w });
        lemma_concat_same_texts(q, m);
        lemma_censor_ranked_loose(secs, keep);
        words_of_concat(q);
        lemma_word_runs_censor_ranked(secs, keep);
        lemma_filter_odd_ranks(word_runs(secs));
    }
}

} // verus!

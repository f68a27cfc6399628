use vstd::prelude::*;
use crate::text::{push_char, utf8_len, repeat_char, byte_len, repeated, chars_of, contains_seq, contains_str, split_on, split_at_char, lowercase, to_lowercase, trim_seq, trim};

verus! {

/// A run of a message: either a word, or a run of spaces and punctuation.
#[derive(Clone, Debug)]
pub enum Section {
    Word(String),
    SpaceOrPunc(String),
}

impl View for Section {
    /// Whether the run is a word, and its characters.
    type V = (bool, Seq<char>);

    open spec fn view(&self) -> (bool, Seq<char>) {
        match self {
            Section::Word(s) => (true, s@),
            Section::SpaceOrPunc(s) => (false, s@),
        }
    }
}

/// The characters that separate words: `" .,<>';:[]{}#~/!\"£$%^&*()"`.
pub open spec fn is_punc(c: char) -> bool {
    ||| c == ' ' ||| c == '.' ||| c == ',' ||| c == '<' ||| c == '>'
    ||| c == '\'' ||| c == ';' ||| c == ':' ||| c == '[' ||| c == ']'
    ||| c == '{' ||| c == '}' ||| c == '#' ||| c == '~' ||| c == '/'
    ||| c == '!' ||| c == '"' ||| c == '\u{a3}' ||| c == '$' ||| c == '%'
    ||| c == '^' ||| c == '&' ||| c == '*' ||| c == '(' ||| c == ')'
}

/// The separators are exactly the twenty-five characters of
/// `" .,<>';:[]{}#~/!\"\u{a3}$%^&*()"`: each of them separates words, and no other character does.
pub proof fn separators_are_the_listed_characters(c: char)
    ensures
        is_punc(c) <==> " .,<>';:[]{}#~/!\"\u{a3}$%^&*()"@.contains(c),
{
    reveal_strlit(" .,<>';:[]{}#~/!\"\u{a3}$%^&*()");
    let lit = " .,<>';:[]{}#~/!\"\u{a3}$%^&*()"@;
    assert(lit.len() == 25);
    if is_punc(c) {
        assert(lit[0] == ' ');
        assert(lit[1] == '.');
        assert(lit[2] == ',');
        assert(lit[3] == '<');
        assert(lit[4] == '>');
        assert(lit[5] == '\'');
        assert(lit[6] == ';');
        assert(lit[7] == ':');
        assert(lit[8] == '[');
        assert(lit[9] == ']');
        assert(lit[10] == '{');
        assert(lit[11] == '}');
        assert(lit[12] == '#');
        assert(lit[13] == '~');
        assert(lit[14] == '/');
        assert(lit[15] == '!');
        assert(lit[16] == '"');
        assert(lit[17] == '\u{a3}');
        assert(lit[18] == '$');
        assert(lit[19] == '%');
        assert(lit[20] == '^');
        assert(lit[21] == '&');
        assert(lit[22] == '*');
        assert(lit[23] == '(');
        assert(lit[24] == ')');
    }
    if lit.contains(c) {
        let i = choose|i: int| 0 <= i < lit.len() && lit[i] == c;
        assert(lit[0] == ' ');
        assert(lit[1] == '.');
        assert(lit[2] == ',');
        assert(lit[3] == '<');
        assert(lit[4] == '>');
        assert(lit[5] == '\'');
        assert(lit[6] == ';');
        assert(lit[7] == ':');
        assert(lit[8] == '[');
        assert(lit[9] == ']');
        assert(lit[10] == '{');
        assert(lit[11] == '}');
        assert(lit[12] == '#');
        assert(lit[13] == '~');
        assert(lit[14] == '/');
        assert(lit[15] == '!');
        assert(lit[16] == '"');
        assert(lit[17] == '\u{a3}');
        assert(lit[18] == '$');
        assert(lit[19] == '%');
        assert(lit[20] == '^');
        assert(lit[21] == '&');
        assert(lit[22] == '*');
        assert(lit[23] == '(');
        assert(lit[24] == ')');
    }
}

/// Whether `c` separates words.
pub fn is_punc_char(c: char) -> (b: bool)
    ensures
        b == is_punc(c),
{
    c == ' ' || c == '.' || c == ',' || c == '<' || c == '>'
    || c == '\'' || c == ';' || c == ':' || c == '[' || c == ']'
    || c == '{' || c == '}' || c == '#' || c == '~' || c == '/'
    || c == '!' || c == '"' || c == '\u{a3}' || c == '$' || c == '%'
    || c == '^' || c == '&' || c == '*' || c == '(' || c == ')'
}

/// The maximal runs of `s`: each run is `(true, w)` for a word `w` (no separator in it)
/// or `(false, p)` for a run `p` of separators.
pub open spec fn sections_of(s: Seq<char>) -> Seq<(bool, Seq<char>)>
    decreases s.len(),
{
    if s.len() == 0 {
        seq![]
    } else {
        let rest = sections_of(s.drop_last());
        let c = s.last();
        let w = !is_punc(c);
        if rest.len() > 0 && rest.last().0 == w {
            rest.update(rest.len() - 1, (w, rest.last().1.push(c)))
        } else {
            rest.push((w, seq![c]))
        }
    }
}

/// The texts of the runs, one after the other.
pub open spec fn concat_sections(secs: Seq<(bool, Seq<char>)>) -> Seq<char>
    decreases secs.len(),
{
    if secs.len() == 0 {
        seq![]
    } else {
        concat_sections(secs.drop_last()) + secs.last().1
    }
}

/// The view of a vector of sections.
pub open spec fn sections_view(v: Seq<Section>) -> Seq<(bool, Seq<char>)> {
    v.map_values(|s: Section| s@)
}

/// Each run is non-empty, a word holds no separator, a separator run holds only
/// separators, and two neighbouring runs are of different kinds.
pub open spec fn well_formed_sections(secs: Seq<(bool, Seq<char>)>) -> bool {
    &&& forall|i: int| 0 <= i < secs.len() ==> (#[trigger] secs[i]).1.len() > 0
    &&& forall|i: int, j: int| 0 <= i < secs.len() && 0 <= j < secs[i].1.len()
            ==> is_punc(#[trigger] secs[i].1[j]) == !secs[i].0
    &&& forall|i: int| 0 <= i < secs.len() - 1 ==> (#[trigger] secs[i]).0 != secs[i + 1].0
}

/// Joining the runs of a text gives the text back.
pub proof fn combining_split_gives_text_back(s: Seq<char>)
    ensures
        concat_sections(sections_of(s)) == s,
    decreases s.len(),
{
    if s.len() > 0 {
        let rest = sections_of(s.drop_last());
        combining_split_gives_text_back(s.drop_last());
        let c = s.last();
        let w = !is_punc(c);
        if rest.len() > 0 && rest.last().0 == w {
            let r2 = rest.update(rest.len() - 1, (w, rest.last().1.push(c)));
            assert(r2.drop_last() =~= rest.drop_last());
            assert(concat_sections(rest) == concat_sections(rest.drop_last()) + rest.last().1);
        } else {
            assert(rest.push((w, seq![c])).drop_last() =~= rest);
        }
        assert(s =~= s.drop_last().push(c));
    }
}

/// The runs of any text are well formed.
pub proof fn split_runs_are_well_formed(s: Seq<char>)
    ensures
        well_formed_sections(sections_of(s)),
    decreases s.len(),
{
    if s.len() > 0 {
        split_runs_are_well_formed(s.drop_last());
        let rest = sections_of(s.drop_last());
        let c = s.last();
        let w = !is_punc(c);
        let r = sections_of(s);
        if rest.len() > 0 && rest.last().0 == w {
            assert forall|i: int, j: int| 0 <= i < r.len() && 0 <= j < r[i].1.len()
                implies is_punc(#[trigger] r[i].1[j]) == !r[i].0 by {
                if i == r.len() - 1 {
                    if j < rest.last().1.len() {
                        assert(r[i].1[j] == rest[i].1[j]);
                    }
                } else {
                    assert(r[i] == rest[i]);
                }
            }
        } else {
            assert forall|i: int, j: int| 0 <= i < r.len() && 0 <= j < r[i].1.len()
                implies is_punc(#[trigger] r[i].1[j]) == !r[i].0 by {
                if i < r.len() - 1 {
                    assert(r[i] == rest[i]);
                }
            }
        }
    }
}

/// Every character of `b` is of the kind `word` (a word character when `word` holds, a
/// separator otherwise).
pub open spec fn all_of_kind(b: Seq<char>, word: bool) -> bool {
    forall|j: int| 0 <= j < b.len() ==> is_punc(#[trigger] b[j]) == !word
}

/// The last run of a non-empty text is of the kind of its last character.
proof fn lemma_last_section_kind(a: Seq<char>)
    requires
        a.len() > 0,
    ensures
        sections_of(a).len() > 0,
        sections_of(a).last().0 == !is_punc(a.last()),
    decreases a.len(),
{
}

/// Appending a run of one kind to a text that does not end with that kind adds the run.
proof fn lemma_sections_append_run(a: Seq<char>, b: Seq<char>, word: bool)
    requires
        b.len() > 0,
        all_of_kind(b, word),
        a.len() == 0 || is_punc(a.last()) == word,
    ensures
        sections_of(a + b) == sections_of(a).push((word, b)),
    decreases b.len(),
{
    if b.len() == 1 {
        assert((a + b).drop_last() =~= a);
        assert(b =~= seq![b[0]]);
        if a.len() > 0 {
            lemma_last_section_kind(a);
        }
    } else {
        let b1 = b.drop_last();
        assert(all_of_kind(b1, word)) by {
            assert forall|j: int| 0 <= j < b1.len() implies is_punc(#[trigger] b1[j]) == !word by {
                assert(b1[j] == b[j]);
            }
        }
        lemma_sections_append_run(a, b1, word);
        assert((a + b).drop_last() =~= a + b1);
        assert(b1.push(b.last()) =~= b);
        assert(is_punc(b[b.len() - 1]) == !word);
    }
}

/// Appending separators to a text does not change its words.
proof fn lemma_sections_append_punc_words(a: Seq<char>, b: Seq<char>)
    requires
        all_of_kind(b, false),
    ensures
        word_runs(sections_of(a + b)) == word_runs(sections_of(a)),
    decreases b.len(),
{
    if b.len() == 0 {
        assert(a + b =~= a);
    } else {
        let b1 = b.drop_last();
        assert(all_of_kind(b1, false)) by {
            assert forall|j: int| 0 <= j < b1.len() implies is_punc(#[trigger] b1[j]) == !false by {
                assert(b1[j] == b[j]);
            }
        }
        lemma_sections_append_punc_words(a, b1);
        assert((a + b).drop_last() =~= a + b1);
        assert(is_punc(b[b.len() - 1]));
        let rest = sections_of(a + b1);
        if rest.len() > 0 && rest.last().0 == false {
            let r2 = rest.update(rest.len() - 1, (false, rest.last().1.push(b.last())));
            assert(r2.drop_last() =~= rest.drop_last());
            assert(rest.drop_last().push(rest.last()) =~= rest);
        } else {
            assert(rest.push((false, seq![b.last()])).drop_last() =~= rest);
        }
    }
}

/// The texts of the word runs, in order.
pub open spec fn word_runs(secs: Seq<(bool, Seq<char>)>) -> Seq<Seq<char>>
    decreases secs.len(),
{
    if secs.len() == 0 {
        seq![]
    } else {
        let r = word_runs(secs.drop_last());
        if secs.last().0 {
            r.push(secs.last().1)
        } else {
            r
        }
    }
}

/// Runs of the right kinds, word runs not empty, and each word run followed (if by
/// anything) by a non-empty separator run; other separator runs may be empty and
/// separator runs may follow one another.
pub open spec fn loose_sections(q: Seq<(bool, Seq<char>)>) -> bool {
    &&& forall|i: int| 0 <= i < q.len() ==> all_of_kind((#[trigger] q[i]).1, q[i].0)
    &&& forall|i: int| 0 <= i < q.len() && (#[trigger] q[i]).0 ==> q[i].1.len() > 0
    &&& forall|i: int| 0 <= i < q.len() - 1 && (#[trigger] q[i]).0 ==> !q[i + 1].0 && q[i + 1].1.len() > 0
}

/// A well-formed list of runs is the one the text it joins to is cut into: the cutting
/// into maximal runs is the only well-formed one.
pub proof fn sections_of_concat(q: Seq<(bool, Seq<char>)>)
    requires
        well_formed_sections(q),
    ensures
        sections_of(concat_sections(q)) == q,
    decreases q.len(),
{
    if q.len() > 0 {
        let front = q.drop_last();
        assert(well_formed_sections(front)) by {
            assert forall|i: int, j: int| 0 <= i < front.len() && 0 <= j < front[i].1.len()
                implies is_punc(#[trigger] front[i].1[j]) == !front[i].0 by {
                assert(front[i] == q[i]);
            }
        }
        sections_of_concat(front);
        let a = concat_sections(front);
        let last = q.last();
        assert(all_of_kind(last.1, last.0)) by {
            assert forall|j: int| 0 <= j < last.1.len() implies is_punc(#[trigger] last.1[j]) == !last.0 by {
                assert(q[q.len() - 1] == last);
            }
        }
        assert(last.1.len() > 0) by { assert(q[q.len() - 1] == last); }
        if a.len() > 0 {
            lemma_last_section_kind(a);
            assert(sections_of(a).last() == front.last());
            assert(front.last().1.len() > 0) by { assert(q[q.len() - 2] == front.last()); }
            lemma_concat_last(front);
            assert(a.last() == front.last().1.last());
            assert(is_punc(front.last().1.last()) == !front.last().0) by {
                assert(q[q.len() - 2] == front.last());
                assert(front.last().1.last() == q[q.len() - 2].1[q[q.len() - 2].1.len() - 1]);
            }
            assert(front.last().0 != last.0) by { assert(q[q.len() - 2] == front.last()); }
        }
        lemma_sections_append_run(a, last.1, last.0);
        assert(front.push(last) =~= q);
    }
}

proof fn lemma_concat_last(q: Seq<(bool, Seq<char>)>)
    requires
        q.len() > 0,
        q.last().1.len() > 0,
    ensures
        concat_sections(q).len() > 0,
        concat_sections(q).last() == q.last().1.last(),
{
}

/// Joining runs that are loosely well formed and cutting the result into runs again keeps
/// the words: empty separator runs vanish and neighbouring separator runs merge, and
/// nothing else changes.
pub proof fn words_of_concat(q: Seq<(bool, Seq<char>)>)
    requires
        loose_sections(q),
    ensures
        word_runs(sections_of(concat_sections(q))) == word_runs(q),
    decreases q.len(),
{
    if q.len() > 0 {
        let front = q.drop_last();
        assert(loose_sections(front)) by {
            assert forall|i: int| 0 <= i < front.len() implies all_of_kind((#[trigger] front[i]).1, front[i].0) by {
                assert(front[i] == q[i]);
            }
            assert forall|i: int| 0 <= i < front.len() && (#[trigger] front[i]).0 implies front[i].1.len() > 0 by {
                assert(front[i] == q[i]);
            }
            assert forall|i: int| 0 <= i < front.len() - 1 && (#[trigger] front[i]).0 implies !front[i + 1].0 && front[i + 1].1.len() > 0 by {
                assert(front[i] == q[i]);
                assert(front[i + 1] == q[i + 1]);
            }
        }
        words_of_concat(front);
        let a = concat_sections(front);
        let last = q.last();
        assert(q[q.len() - 1] == last);
        assert(all_of_kind(last.1, last.0));
        if last.0 {
            if front.len() > 0 {
                assert(q[q.len() - 2] == front.last());
            }
            lemma_words_append_word(front, last.1);
        } else {
            lemma_sections_append_punc_words(a, last.1);
        }
    }
}

/// The text joined from runs whose last run is a separator run (or no run) ends with no
/// word character; appending a word then adds that word.
proof fn lemma_words_append_word(front: Seq<(bool, Seq<char>)>, b: Seq<char>)
    requires
        loose_sections(front),
        front.len() > 0 ==> !front.last().0,
        b.len() > 0,
        all_of_kind(b, true),
    ensures
        word_runs(sections_of(concat_sections(front) + b)) == word_runs(sections_of(concat_sections(front))).push(b),
{
    let a = concat_sections(front);
    lemma_concat_ends_without_word(front);
    lemma_sections_append_run(a, b, true);
    assert(sections_of(a).push((true, b)).drop_last() =~= sections_of(a));
}

/// A join of loose runs whose last run is a separator run ends with a separator (or is empty).
proof fn lemma_concat_ends_without_word(q: Seq<(bool, Seq<char>)>)
    requires
        loose_sections(q),
        q.len() > 0 ==> !q.last().0,
    ensures
        concat_sections(q).len() == 0 || is_punc(concat_sections(q).last()),
    decreases q.len(),
{
    if q.len() > 0 {
        let last = q.last();
        assert(q[q.len() - 1] == last);
        if last.1.len() > 0 {
            assert(is_punc(last.1[last.1.len() - 1]));
            assert(concat_sections(q).last() == last.1.last());
        } else {
            let front = q.drop_last();
            assert(concat_sections(q) =~= concat_sections(front));
            assert(loose_sections(front)) by {
                assert forall|i: int| 0 <= i < front.len() implies all_of_kind((#[trigger] front[i]).1, front[i].0) by {
                    assert(front[i] == q[i]);
                }
                assert forall|i: int| 0 <= i < front.len() && (#[trigger] front[i]).0 implies front[i].1.len() > 0 by {
                    assert(front[i] == q[i]);
                }
                assert forall|i: int| 0 <= i < front.len() - 1 && (#[trigger] front[i]).0 implies !front[i + 1].0 by {
                    assert(front[i] == q[i]);
                    assert(front[i + 1] == q[i + 1]);
                }
            }
            if front.len() > 0 {
                // a word run is followed by a non-empty separator run, so the run before
                // this empty one is a separator run too
                assert(q[q.len() - 2] == front.last());
                assert(!front.last().0);
            }
            lemma_concat_ends_without_word(front);
        }
    }
}

/// Joins the texts of the sections, in order.
pub fn combine_section_vec_into_string(msg_section: Vec<Section>) -> (msg: String)
    ensures
        msg@ == concat_sections(sections_view(msg_section@)),
{
    let mut msg = String::new();
    let n = msg_section.len();
    for i in 0..n
        invariant
            n == msg_section@.len(),
            msg@ == concat_sections(sections_view(msg_section@.take(i as int))),
    {
        let ghost before = msg@;
        match &msg_section[i] {
            Section::Word(string) => {
                msg.append(string.as_str());
            }
            Section::SpaceOrPunc(string) => {
                msg.append(string.as_str());
            }
        }
        assert(sections_view(msg_section@.take(i + 1)).drop_last()
            =~= sections_view(msg_section@.take(i as int)));
    }
    assert(msg_section@.take(n as int) =~= msg_section@);
    msg
}

/// Cuts a text into its maximal runs of word characters and of separators.
pub fn split_into_word_vec(text: &String) -> (vec: Vec<Section>)
    ensures
        sections_view(vec@) == sections_of(text@),
{
    let chars = chars_of(text.as_str());
    let n = chars.len();
    let mut vec: Vec<Section> = Vec::new();
    let mut cur_word: bool = true;
    let mut cur = String::new();
    let ghost mut lead: Seq<(bool, Seq<char>)> = seq![];
    for k in 0..n
        invariant
            n == chars@.len(),
            chars@ == text@,
            k == 0 ==> vec@.len() == 0 && cur_word && cur@.len() == 0,
            k > 0 ==> ({
                let secs = sections_of(chars@.take(k as int));
                &&& secs.len() > 0
                &&& sections_view(vec@) == lead + secs.drop_last()
                &&& (cur_word, cur@) == secs.last()
            }),
            lead.len() == 0 || lead =~= seq![(true, Seq::<char>::empty())],
            lead.len() > 0 ==> text@.len() > 0 && is_punc(text@[0]),
            lead.len() == 0 && k > 0 ==> !is_punc(text@[0]),
    {
        let c = chars[k];
        let w = !is_punc_char(c);
        let ghost prefix = chars@.take(k as int);
        let ghost next = chars@.take(k + 1);
        assert(next.drop_last() =~= prefix);
        if k == 0 {
            if w {
                push_char(&mut cur, c);
            } else {
                assert(cur@ =~= Seq::<char>::empty());
                vec.push(Section::Word(cur));
                proof { lead = seq![(true, Seq::<char>::empty())]; }
                cur = String::new();
                push_char(&mut cur, c);
                cur_word = false;
                assert(sections_view(vec@) =~= lead);
            }
            assert(sections_of(prefix) =~= seq![]);
            assert(sections_of(next) =~= seq![(w, seq![c])]);
            assert(sections_of(next).drop_last() =~= seq![]);
            assert(cur@ =~= seq![c]);
        } else if w == cur_word {
            push_char(&mut cur, c);
            assert(sections_of(next).drop_last() =~= sections_of(prefix).drop_last());
        } else {
            let ghost old_vec = sections_view(vec@);
            if cur_word {
                vec.push(Section::Word(cur));
            } else {
                vec.push(Section::SpaceOrPunc(cur));
            }
            assert(sections_view(vec@) =~= old_vec.push(sections_of(prefix).last()));
            assert(sections_of(next).drop_last() =~= sections_of(prefix));
            assert(lead + sections_of(prefix).drop_last().push(sections_of(prefix).last())
                =~= lead + sections_of(prefix));
            cur = String::new();
            push_char(&mut cur, c);
            cur_word = w;
            assert(cur@ =~= seq![c]);
        }
    }
    let ghost before = sections_view(vec@);
    let ghost last = (cur_word, cur@);
    if cur_word {
        vec.push(Section::Word(cur));
    } else {
        vec.push(Section::SpaceOrPunc(cur));
    }
    assert(chars@.take(n as int) =~= text@);
    if n == 0 {
        assert(text@ =~= Seq::<char>::empty());
        assert(sections_of(text@) =~= seq![]);
    } else {
        let ghost secs = sections_of(text@);
        assert(sections_view(vec@) =~= before.push(last));
        assert(secs.drop_last().push(secs.last()) =~= secs);
        assert(sections_view(vec@) =~= lead + sections_of(text@));
    }
    proof {
        if n > 0 {
            split_runs_are_well_formed(text@);
        }
    }
    let first_empty = match &vec[0] {
        Section::Word(string) => string.as_str().is_empty(),
        Section::SpaceOrPunc(_) => false,
    };
    assert(sections_view(vec@)[0] == vec@[0]@);
    assert(first_empty == (vec@[0]@.0 && vec@[0]@.1.len() == 0));
    if first_empty {
        let ghost v0 = vec@;
        vec.remove(0);
        assert(sections_view(vec@) =~= sections_view(v0).drop_first());
        assert(sections_view(vec@) =~= sections_of(text@));
    } else {
        assert(lead.len() == 0);
        assert(sections_view(vec@) =~= sections_of(text@));
    }
    vec
}

/// Replaces every character of `msg` by `*`, one per byte of its UTF-8 encoding.
pub fn stand_censore(msg: &mut String)
    ensures
        final(msg)@ == repeat_char('*', utf8_len(old(msg)@) as nat),
{
    let original_len = byte_len(msg);
    *msg = repeated('*', original_len);
}

/// Replaces every character of `msg` by `_`, one per byte of its UTF-8 encoding.
pub fn swear_censore(msg: &mut String)
    ensures
        final(msg)@ == repeat_char('_', utf8_len(old(msg)@) as nat),
{
    let original_len = byte_len(msg);
    *msg = repeated('_', original_len);
}

/// The texts of a list of strings.
pub open spec fn strings_view(v: Seq<String>) -> Seq<Seq<char>> {
    v.map_values(|s: String| s@)
}

/// Whether one of `swears` occurs in `word`.
pub open spec fn has_swear(word: Seq<char>, swears: Seq<Seq<char>>) -> bool {
    exists|k: int| 0 <= k < swears.len() && contains_seq(word, #[trigger] swears[k])
}

/// The runs of a message after censoring: a word in which a swear occurs becomes `_`s.
pub open spec fn censor_swears(secs: Seq<(bool, Seq<char>)>, swears: Seq<Seq<char>>) -> Seq<(bool, Seq<char>)> {
    Seq::new(
        secs.len(),
        |i: int|
            if secs[i].0 && has_swear(secs[i].1, swears) {
                (true, repeat_char('_', utf8_len(secs[i].1) as nat))
            } else {
                secs[i]
            },
    )
}

/// Whether one of `swears` occurs in `word`.
fn contains_any(word: &String, swears: &Vec<String>) -> (b: bool)
    ensures
        b == has_swear(word@, strings_view(swears@)),
{
    let n = swears.len();
    for k in 0..n
        invariant
            n == swears@.len(),
            forall|t: int| 0 <= t < k ==> !contains_seq(word@, #[trigger] swears@[t]@),
    {
        if contains_str(word.as_str(), swears[k].as_str()) {
            assert(contains_seq(word@, strings_view(swears@)[k as int]));
            return true;
        }
    }
    assert forall|t: int| 0 <= t < strings_view(swears@).len()
        implies !contains_seq(word@, #[trigger] strings_view(swears@)[t]) by {
        assert(strings_view(swears@)[t] == swears@[t]@);
    }
    false
}

/// Censors, with `_`, each word of `msg` in which one of `swears` occurs.
pub fn censore_message(msg: String, swears: &Vec<String>) -> (res: String)
    ensures
        res@ == concat_sections(censor_swears(sections_of(msg@), strings_view(swears@))),
{
    let sects = split_into_word_vec(&msg);
    let ghost secs = sections_of(msg@);
    let ghost target = censor_swears(secs, strings_view(swears@));
    let n = sects.len();
    let mut out: Vec<Section> = Vec::new();
    for i in 0..n
        invariant
            n == sects@.len(),
            sections_view(sects@) == secs,
            target == censor_swears(secs, strings_view(swears@)),
            sections_view(out@) == target.take(i as int),
    {
        let ghost before = out@;
        match &sects[i] {
            Section::Word(string) => {
                let mut s = string.clone();
                assert(s@ == secs[i as int].1);
                if contains_any(&s, swears) {
                    swear_censore(&mut s);
                }
                out.push(Section::Word(s));
            }
            Section::SpaceOrPunc(string) => {
                out.push(Section::SpaceOrPunc(string.clone()));
            }
        }
        assert(sections_view(out@) =~= target.take(i as int).push(target[i as int]));
        assert(target.take(i as int).push(target[i as int]) =~= target.take(i + 1));
    }
    assert(target.take(n as int) =~= target);
    combine_section_vec_into_string(out)
}

/// The entries of a word-list file: one per line, in small letters, without the white space around them.
pub open spec fn word_list_of(contents: Seq<char>) -> Seq<Seq<char>> {
    split_on(contents, '\n').map_values(|line: Seq<char>| trim_seq(lowercase(line)))
}

/// Reads a word list (the banned words, the most common words, all words) from the
/// text of its file.
pub fn parse_word_list(contents: &str) -> (words: Vec<String>)
    ensures
        strings_view(words@) == word_list_of(contents@),
{
    let lines = split_at_char(contents, '\n');
    let ghost lv = lines@.map_values(|p: String| p@);
    let n = lines.len();
    let mut words: Vec<String> = Vec::new();
    for i in 0..n
        invariant
            n == lines@.len(),
            lv == lines@.map_values(|p: String| p@),
            lv == split_on(contents@, '\n'),
            strings_view(words@) == word_list_of(contents@).take(i as int),
    {
        let lower = to_lowercase(lines[i].as_str());
        let t = trim(lower.as_str());
        let w = String::from_str(t);
        assert(lv[i as int] == lines@[i as int]@);
        assert(strings_view(words@.push(w)) =~= strings_view(words@).push(w@));
        words.push(w);
        assert(word_list_of(contents@).take(i as int).push(word_list_of(contents@)[i as int])
            =~= word_list_of(contents@).take(i + 1));
    }
    assert(word_list_of(contents@).take(n as int) =~= word_list_of(contents@));
    words
}

/// A run takes no more UTF-8 bytes than the text it is part of.
proof fn lemma_run_bytes_bound(secs: Seq<(bool, Seq<char>)>, i: int)
    requires
        0 <= i < secs.len(),
    ensures
        vstd::utf8::encode_utf8(secs[i].1).len() <= vstd::utf8::encode_utf8(concat_sections(secs)).len(),
    decreases secs.len(),
{
    crate::text::lemma_encode_utf8_concat(concat_sections(secs.drop_last()), secs.last().1);
    if i < secs.len() - 1 {
        lemma_run_bytes_bound(secs.drop_last(), i);
    }
}

/// Each word of `secs` turned into `_`s where a swear occurs in it.
pub open spec fn censor_word(w: Seq<char>, swears: Seq<Seq<char>>) -> Seq<char> {
    if has_swear(w, swears) { repeat_char('_', utf8_len(w) as nat) } else { w }
}

proof fn lemma_word_runs_censor_swears(secs: Seq<(bool, Seq<char>)>, swears: Seq<Seq<char>>)
    ensures
        word_runs(censor_swears(secs, swears)) == word_runs(secs).map_values(|w: Seq<char>| censor_word(w, swears)),
    decreases secs.len(),
{
    if secs.len() > 0 {
        lemma_word_runs_censor_swears(secs.drop_last(), swears);
        assert(censor_swears(secs, swears).drop_last() =~= censor_swears(secs.drop_last(), swears));
        assert(word_runs(secs).map_values(|w: Seq<char>| censor_word(w, swears)) =~= if secs.last().0 {
            word_runs(secs.drop_last()).map_values(|w: Seq<char>| censor_word(w, swears)).push(censor_word(secs.last().1, swears))
        } else {
            word_runs(secs.drop_last()).map_values(|w: Seq<char>| censor_word(w, swears))
        });
    }
}

/// The runs of a censored message are well formed, so cutting the censored text into runs
/// gives them back. (The message is taken to fit in memory.)
proof fn lemma_censored_runs_well_formed(msg: Seq<char>, swears: Seq<Seq<char>>)
    requires
        vstd::utf8::encode_utf8(msg).len() <= usize::MAX,
    ensures
        well_formed_sections(censor_swears(sections_of(msg), swears)),
        sections_of(concat_sections(censor_swears(sections_of(msg), swears)))
            == censor_swears(sections_of(msg), swears),
{
    let secs = sections_of(msg);
    let q = censor_swears(secs, swears);
    split_runs_are_well_formed(msg);
    combining_split_gives_text_back(msg);
    assert forall|i: int| 0 <= i < q.len() implies (#[trigger] q[i]).1.len() > 0 by {
        if secs[i].0 && has_swear(secs[i].1, swears) {
            lemma_run_bytes_bound(secs, i);
            crate::text::lemma_utf8_len_bounds(secs[i].1);
        }
    }
    assert forall|i: int, j: int| 0 <= i < q.len() && 0 <= j < q[i].1.len()
        implies is_punc(#[trigger] q[i].1[j]) == !q[i].0 by {
        if !(secs[i].0 && has_swear(secs[i].1, swears)) {
            assert(is_punc(secs[i].1[j]) == !secs[i].0);
        }
    }
    assert forall|i: int| 0 <= i < q.len() - 1 implies (#[trigger] q[i]).0 != q[i + 1].0 by {
        assert(secs[i].0 != secs[i + 1].0);
    }
    sections_of_concat(q);
}

/// Censoring swears keeps the cut of a message into words: the words of the result are
/// the words of the message, each one in which a swear occurs turned into `_`s (one per
/// byte). Where no swear is made of `_`s only, no word of the result holds a swear. (The
/// message is taken to fit in memory: its UTF-8 bytes can be counted in a `usize`.)
pub proof fn censoring_replaces_swear_words(msg: Seq<char>, swears: Seq<Seq<char>>)
    requires
        vstd::utf8::encode_utf8(msg).len() <= usize::MAX,
    ensures
        word_runs(sections_of(concat_sections(censor_swears(sections_of(msg), swears))))
            == word_runs(sections_of(msg)).map_values(|w: Seq<char>| censor_word(w, swears)),
        (forall|k: int| 0 <= k < swears.len() ==> exists|j: int| 0 <= j < (#[trigger] swears[k]).len() && swears[k][j] != '_')
            ==> forall|k: int| 0 <= k < word_runs(sections_of(concat_sections(censor_swears(sections_of(msg), swears)))).len()
                ==> !has_swear(#[trigger] word_runs(sections_of(concat_sections(censor_swears(sections_of(msg), swears))))[k], swears),
{
    let secs = sections_of(msg);
    lemma_censored_runs_well_formed(msg, swears);
    lemma_word_runs_censor_swears(secs, swears);
    if forall|k: int| 0 <= k < swears.len() ==> exists|j: int| 0 <= j < (#[trigger] swears[k]).len() && swears[k][j] != '_' {
        let ws = word_runs(secs).map_values(|w: Seq<char>| censor_word(w, swears));
        assert forall|k: int| 0 <= k < ws.len() implies !has_swear(#[trigger] ws[k], swears) by {
            let w = word_runs(secs)[k];
            if has_swear(w, swears) {
                let u = repeat_char('_', utf8_len(w) as nat);
                assert(ws[k] == u);
                if has_swear(u, swears) {
                    let t = choose|t: int| 0 <= t < swears.len() && contains_seq(u, #[trigger] swears[t]);
                    let p = swears[t];
                    let i = choose|i: int| 0 <= i && i + p.len() <= u.len() && #[trigger] u.subrange(i, i + p.len()) == p;
                    let j = choose|j: int| 0 <= j < p.len() && p[j] != '_';
                    assert(u.subrange(i, i + p.len())[j] == u[i + j]);
                }
            }
        }
    }
}

/// Censoring a message twice with the same swears gives what censoring it once gives: a
/// censored word is made of `_`s, which censor to themselves. (The message is taken to fit
/// in memory: its UTF-8 bytes can be counted in a `usize`.)
pub proof fn censoring_twice_is_censoring_once(msg: Seq<char>, swears: Seq<Seq<char>>)
    requires
        vstd::utf8::encode_utf8(msg).len() <= usize::MAX,
    ensures
        concat_sections(censor_swears(sections_of(concat_sections(censor_swears(sections_of(msg), swears))), swears))
            == concat_sections(censor_swears(sections_of(msg), swears)),
{
    let secs = sections_of(msg);
    let q = censor_swears(secs, swears);
    lemma_censored_runs_well_formed(msg, swears);
    assert forall|i: int| 0 <= i < q.len() implies #[trigger] censor_swears(q, swears)[i] == q[i] by {
        if q[i].0 && has_swear(q[i].1, swears) {
            if secs[i].0 && has_swear(secs[i].1, swears) {
                let u = q[i].1;
                assert(vstd::utf8::is_ascii_chars(u));
                vstd::utf8::is_ascii_chars_encode_utf8(u);
                assert(repeat_char('_', utf8_len(u) as nat) =~= u);
            }
        }
    }
    assert(censor_swears(q, swears) =~= q);
}

/// The entries of a word list carry no white space around them.
pub proof fn word_list_entries_are_trimmed(contents: Seq<char>)
    ensures
        forall|k: int| 0 <= k < word_list_of(contents).len() ==> ({
            let e = #[trigger] word_list_of(contents)[k];
            e.len() == 0 || (!crate::text::is_white_space(e[0]) && !crate::text::is_white_space(e.last()))
        }),
{
    assert forall|k: int| 0 <= k < word_list_of(contents).len() implies ({
        let e = #[trigger] word_list_of(contents)[k];
        e.len() == 0 || (!crate::text::is_white_space(e[0]) && !crate::text::is_white_space(e.last()))
    }) by {
        crate::text::trimmed_has_no_outer_space(lowercase(split_on(contents, '\n')[k]));
    }
}

} // verus!

use vstd::prelude::*;

verus! {

/// `String::push`: the contract claims that the string's characters afterwards are the
/// old ones followed by `c`.
#[verifier::external_body]
pub(crate) fn push_char(s: &mut String, c: char)
    ensures
        final(s)@ == old(s)@.push(c),
{
    s.push(c);
}

/// The characters of `s`, in order.
pub fn chars_of(s: &str) -> (v: Vec<char>)
    ensures
        v@ == s@,
{
    let mut v: Vec<char> = Vec::new();
    for c in it: s.chars()
        invariant
            v@ == it.seq().take(it.index() as int),
    {
        v.push(c);
    }
    v
}

/// A string holding exactly the characters of `v`.
pub fn string_from_chars(v: &[char]) -> (s: String)
    ensures
        s@ == v@,
{
    let mut s = String::new();
    let n = v.len();
    for i in 0..n
        invariant
            n == v@.len(),
            s@ == v@.take(i as int),
    {
        push_char(&mut s, v[i]);
        assert(v@.take(i as int).push(v@[i as int]) =~= v@.take(i + 1));
    }
    assert(v@.take(n as int) =~= v@);
    s
}

/// The number of bytes of the UTF-8 encoding of `s` (what `str::len` returns).
pub open spec fn utf8_len(s: Seq<char>) -> usize {
    vstd::utf8::encode_utf8(s).len() as usize
}

/// `n` copies of the character `c`.
pub open spec fn repeat_char(c: char, n: nat) -> Seq<char> {
    Seq::new(n, |i: int| c)
}

/// The UTF-8 byte length of a string.
pub fn byte_len(s: &String) -> (n: usize)
    ensures
        n == utf8_len(s@),
{
    s.as_str().len()
}

/// A string made of `n` copies of `c`.
pub fn repeated(c: char, n: usize) -> (s: String)
    ensures
        s@ == repeat_char(c, n as nat),
{
    let mut s = String::new();
    for i in 0..n
        invariant
            s@ == repeat_char(c, i as nat),
    {
        push_char(&mut s, c);
        assert(repeat_char(c, i as nat).push(c) =~= repeat_char(c, (i + 1) as nat));
    }
    s
}

/// Whether `p` occurs in `s` as a run of consecutive characters.
pub open spec fn contains_seq(s: Seq<char>, p: Seq<char>) -> bool {
    exists|i: int| 0 <= i && i + p.len() <= s.len() && #[trigger] s.subrange(i, i + p.len()) == p
}

/// Whether `p` occurs at position `i` of `s`.
fn occurs_at(s: &Vec<char>, p: &Vec<char>, i: usize) -> (b: bool)
    requires
        i + p@.len() <= s@.len(),
    ensures
        b == (s@.subrange(i as int, i + p@.len()) == p@),
{
    let m = p.len();
    for j in 0..m
        invariant
            m == p@.len(),
            i + m <= s.len(),
            forall|t: int| 0 <= t < j ==> s@[i + t] == p@[t],
    {
        if s[i + j] != p[j] {
            assert(s@.subrange(i as int, i + p@.len())[j as int] != p@[j as int]);
            return false;
        }
    }
    assert(s@.subrange(i as int, i + p@.len()) =~= p@);
    true
}

/// Whether `pattern` occurs in `s` (what `str::contains` with a string pattern answers).
pub fn contains_str(s: &str, pattern: &str) -> (b: bool)
    ensures
        b == contains_seq(s@, pattern@),
{
    let sv = chars_of(s);
    let pv = chars_of(pattern);
    if pv.len() > sv.len() {
        return false;
    }
    let last = sv.len() - pv.len();
    for i in 0..last
        invariant
            last == sv@.len() - pv@.len(),
            sv@ == s@,
            pv@ == pattern@,
            pv@.len() <= sv@.len(),
            forall|t: int| 0 <= t < i ==> #[trigger] s@.subrange(t, t + pattern@.len()) != pattern@,
    {
        if occurs_at(&sv, &pv, i) {
            return true;
        }
    }
    occurs_at(&sv, &pv, last)
}

/// What `str::to_lowercase` returns for a string with characters `s`.
pub uninterp spec fn lowercase(s: Seq<char>) -> Seq<char>;

/// `c` with the letters `A`..`Z` mapped to `a`..`z`.
pub open spec fn ascii_lower(c: char) -> char {
    if 'A' <= c && c <= 'Z' {
        ((c as u32) + 32) as char
    } else {
        c
    }
}

/// `c` with the letters `a`..`z` mapped to `A`..`Z`.
pub open spec fn ascii_upper(c: char) -> char {
    if 'a' <= c && c <= 'z' {
        ((c as u32) - 32) as char
    } else {
        c
    }
}

/// `str::to_lowercase`. Its result is named by `lowercase`; of a string of ASCII
/// characters the documentation gives the result: each of `A`..`Z` becomes its small letter.
#[verifier::external_body]
pub(crate) fn to_lowercase(s: &str) -> (r: String)
    ensures
        r@ == lowercase(s@),
        vstd::utf8::is_ascii_chars(s@) ==> r@ == s@.map_values(|c: char| ascii_lower(c)),
{
    s.to_lowercase()
}

/// The characters that `char::to_uppercase` yields for `c`.
pub uninterp spec fn uppercase_of(c: char) -> Seq<char>;

/// The characters that `char::to_lowercase` yields for `c`.
pub uninterp spec fn lowercase_of(c: char) -> Seq<char>;

/// `char::to_uppercase`, collected into a string. Its result is named by `uppercase_of`;
/// the documentation says it yields one character at least, and of an ASCII character its
/// capital letter (or the character itself).
#[verifier::external_body]
fn char_to_uppercase(c: char) -> (r: String)
    ensures
        r@ == uppercase_of(c),
        r@.len() > 0,
        (c as u32) < 128 ==> r@ == seq![ascii_upper(c)],
{
    c.to_uppercase().to_string()
}

/// `char::to_lowercase`, collected into a string. Its result is named by `lowercase_of`;
/// the documentation says it yields one character at least, and of an ASCII character its
/// small letter (or the character itself).
#[verifier::external_body]
fn char_to_lowercase(c: char) -> (r: String)
    ensures
        r@ == lowercase_of(c),
        r@.len() > 0,
        (c as u32) < 128 ==> r@ == seq![ascii_lower(c)],
{
    c.to_lowercase().to_string()
}

/// The last character of the capital form of `c`.
pub open spec fn upper_last(c: char) -> char {
    uppercase_of(c).last()
}

/// The last character of the small form of `c`.
pub open spec fn lower_last(c: char) -> char {
    lowercase_of(c).last()
}

/// The last character of the capital form of `c`.
pub fn char_upper_last(c: char) -> (r: char)
    ensures
        r == upper_last(c),
{
    let v = chars_of(char_to_uppercase(c).as_str());
    v[v.len() - 1]
}

/// The last character of the small form of `c`.
pub fn char_lower_last(c: char) -> (r: char)
    ensures
        r == lower_last(c),
{
    let v = chars_of(char_to_lowercase(c).as_str());
    v[v.len() - 1]
}

/// The characters with the Unicode property `White_Space`, which is what `char::is_whitespace` tests.
pub open spec fn is_white_space(c: char) -> bool {
    let u = c as u32;
    ||| 0x09 <= u <= 0x0d
    ||| u == 0x20 ||| u == 0x85 ||| u == 0xa0 ||| u == 0x1680
    ||| 0x2000 <= u <= 0x200a
    ||| u == 0x2028 ||| u == 0x2029 ||| u == 0x202f ||| u == 0x205f ||| u == 0x3000
}

/// `s` without its leading and trailing white space.
pub open spec fn trim_seq(s: Seq<char>) -> Seq<char>
    decreases s.len(),
{
    if s.len() > 0 && is_white_space(s[0]) {
        trim_seq(s.drop_first())
    } else if s.len() > 0 && is_white_space(s.last()) {
        trim_seq(s.drop_last())
    } else {
        s
    }
}

/// `str::trim`: the contract claims, after the documentation, that the result is the
/// string without its leading and trailing characters of the Unicode `White_Space` set.
#[verifier::external_body]
pub(crate) fn trim(s: &str) -> (r: &str)
    ensures
        r@ == trim_seq(s@),
{
    s.trim()
}

/// The pieces of `s` between occurrences of `sep`, as `str::split` gives them
/// (an empty text gives one empty piece).
pub open spec fn split_on(s: Seq<char>, sep: char) -> Seq<Seq<char>>
    decreases s.len(),
{
    if s.len() == 0 {
        seq![seq![]]
    } else {
        let r = split_on(s.drop_last(), sep);
        if s.last() == sep {
            r.push(seq![])
        } else {
            r.update(r.len() - 1, r.last().push(s.last()))
        }
    }
}

pub proof fn lemma_split_on_nonempty(s: Seq<char>, sep: char)
    ensures
        split_on(s, sep).len() > 0,
    decreases s.len(),
{
    if s.len() > 0 {
        lemma_split_on_nonempty(s.drop_last(), sep);
    }
}

/// Cuts `s` at each occurrence of `sep`.
pub fn split_at_char(s: &str, sep: char) -> (pieces: Vec<String>)
    ensures
        pieces@.map_values(|p: String| p@) == split_on(s@, sep),
{
    let chars = chars_of(s);
    let n = chars.len();
    let mut pieces: Vec<String> = Vec::new();
    let mut cur = String::new();
    for k in 0..n
        invariant
            n == chars@.len(),
            chars@ == s@,
            pieces@.map_values(|p: String| p@).push(cur@) == split_on(chars@.take(k as int), sep),
    {
        let c = chars[k];
        let ghost prefix = chars@.take(k as int);
        assert(chars@.take(k + 1).drop_last() =~= prefix);
        proof { lemma_split_on_nonempty(prefix, sep); }
        let ghost old_pieces = pieces@.map_values(|p: String| p@);
        let ghost old_cur = cur@;
        if c == sep {
            pieces.push(cur);
            cur = String::new();
            assert(pieces@.map_values(|p: String| p@) =~= old_pieces.push(old_cur));
            assert(pieces@.map_values(|p: String| p@).push(cur@) =~= split_on(prefix, sep).push(seq![]));
        } else {
            push_char(&mut cur, c);
            assert(pieces@.map_values(|p: String| p@).push(cur@) =~= split_on(prefix, sep).update(
                split_on(prefix, sep).len() - 1, old_cur.push(c)));
        }
    }
    let ghost old_pieces = pieces@.map_values(|p: String| p@);
    let ghost old_cur = cur@;
    pieces.push(cur);
    assert(pieces@.map_values(|p: String| p@) =~= old_pieces.push(old_cur));
    assert(chars@.take(n as int) =~= s@);
    pieces
}

/// `line` without one trailing carriage return.
pub open spec fn strip_cr(line: Seq<char>) -> Seq<char> {
    if line.len() > 0 && line.last() == '\r' {
        line.drop_last()
    } else {
        line
    }
}

/// The lines of `s` as `str::lines` gives them: cut at each `\n`, a `\r` just before a
/// `\n` dropped, and no empty last line after a final `\n`.
pub open spec fn lines_of(s: Seq<char>) -> Seq<Seq<char>> {
    let p = split_on(s, '\n');
    let firsts = p.drop_last().map_values(|l: Seq<char>| strip_cr(l));
    if p.last().len() > 0 {
        firsts.push(p.last())
    } else {
        firsts
    }
}

/// The lines of `s` (`str::lines`).
pub fn lines(s: &str) -> (ls: Vec<String>)
    ensures
        ls@.map_values(|l: String| l@) == lines_of(s@),
{
    let pieces = split_at_char(s, '\n');
    let ghost pv = pieces@.map_values(|p: String| p@);
    proof { lemma_split_on_nonempty(s@, '\n'); }
    let n = pieces.len();
    let mut ls: Vec<String> = Vec::new();
    for i in 0..n - 1
        invariant
            n == pieces@.len(),
            n > 0,
            pv == pieces@.map_values(|p: String| p@),
            pv == split_on(s@, '\n'),
            ls@.map_values(|l: String| l@) == pv.drop_last().take(i as int).map_values(|l: Seq<char>| strip_cr(l)),
    {
        let chars = chars_of(pieces[i].as_str());
        let m = chars.len();
        let l = if m > 0 && chars[m - 1] == '\r' {
            proof { assert(chars@.take(m - 1) =~= chars@.drop_last()); }
            string_from_chars(&chars.as_slice()[0..m - 1])
        } else {
            pieces[i].clone()
        };
        let ghost before = ls@.map_values(|l: String| l@);
        ls.push(l);
        assert(ls@.map_values(|l: String| l@) =~= before.push(strip_cr(pv[i as int])));
        assert(pv.drop_last().take(i + 1).map_values(|l: Seq<char>| strip_cr(l))
            =~= pv.drop_last().take(i as int).map_values(|l: Seq<char>| strip_cr(l)).push(strip_cr(pv[i as int])));
    }
    assert(pv.drop_last().take(n - 1) =~= pv.drop_last());
    if !pieces[n - 1].as_str().is_empty() {
        let ghost before = ls@.map_values(|l: String| l@);
        ls.push(pieces[n - 1].clone());
        assert(ls@.map_values(|l: String| l@) =~= before.push(pv.last()));
    }
    ls
}

/// The lines joined, each followed by `\n`.
pub open spec fn join_lines(ls: Seq<Seq<char>>) -> Seq<char>
    decreases ls.len(),
{
    if ls.len() == 0 {
        seq![]
    } else {
        join_lines(ls.drop_last()) + ls.last().push('\n')
    }
}

proof fn lemma_split_on_append_free(a: Seq<char>, x: Seq<char>, sep: char)
    requires
        !x.contains(sep),
    ensures
        split_on(a + x, sep) == split_on(a, sep).update(
            split_on(a, sep).len() - 1,
            split_on(a, sep).last() + x,
        ),
    decreases x.len(),
{
    lemma_split_on_nonempty(a, sep);
    if x.len() == 0 {
        assert(a + x =~= a);
        assert(split_on(a, sep).last() + x =~= split_on(a, sep).last());
        assert(split_on(a, sep).update(split_on(a, sep).len() - 1, split_on(a, sep).last())
            =~= split_on(a, sep));
    } else {
        let y = x.drop_last();
        assert(!y.contains(sep)) by {
            if y.contains(sep) {
                let k = choose|k: int| 0 <= k < y.len() && y[k] == sep;
                assert(x[k] == sep);
            }
        }
        lemma_split_on_append_free(a, y, sep);
        assert((a + x).drop_last() =~= a + y);
        assert((a + x).last() == x.last());
        assert(x[x.len() - 1] != sep);
        assert((split_on(a, sep).last() + y).push(x.last()) =~= split_on(a, sep).last() + x);
    }
}

proof fn lemma_split_on_join(ls: Seq<Seq<char>>)
    requires
        forall|k: int| 0 <= k < ls.len() ==> !(#[trigger] ls[k]).contains('\n'),
    ensures
        split_on(join_lines(ls), '\n') == ls.push(seq![]),
    decreases ls.len(),
{
    if ls.len() == 0 {
        assert(split_on(seq![], '\n') =~= seq![seq![]]);
    } else {
        let front = ls.drop_last();
        let x = ls.last();
        lemma_split_on_join(front);
        let j = join_lines(front);
        lemma_split_on_append_free(j, x, '\n');
        assert(j + x.push('\n') =~= (j + x).push('\n'));
        assert((j + x).push('\n').drop_last() =~= j + x);
        assert(front.push(seq![]).update(front.len() as int, Seq::<char>::empty() + x) =~= ls);
        assert(ls.push(seq![]) =~= split_on(j + x, '\n').push(seq![]));
    }
}

/// Joining lines free of `\n`, each followed by `\n`, and cutting the result into lines
/// again gives the lines, each without one trailing `\r`.
pub proof fn lemma_lines_of_join(ls: Seq<Seq<char>>)
    requires
        forall|k: int| 0 <= k < ls.len() ==> !(#[trigger] ls[k]).contains('\n'),
    ensures
        lines_of(join_lines(ls)) == ls.map_values(|l: Seq<char>| strip_cr(l)),
{
    lemma_split_on_join(ls);
    assert(ls.push(seq![]).drop_last() =~= ls);
}

/// Whether two strings hold the same characters.
pub fn str_eq(a: &str, b: &str) -> (r: bool)
    ensures
        r == (a@ == b@),
{
    let av = chars_of(a);
    let bv = chars_of(b);
    if av.len() != bv.len() {
        return false;
    }
    let n = av.len();
    for i in 0..n
        invariant
            n == av@.len(),
            n == bv@.len(),
            av@ == a@,
            bv@ == b@,
            forall|t: int| 0 <= t < i ==> av@[t] == bv@[t],
    {
        if av[i] != bv[i] {
            assert(a@[i as int] != b@[i as int]);
            return false;
        }
    }
    assert(av@ =~= bv@);
    true
}

/// A text without the separator is a single piece.
pub proof fn lemma_split_on_single(s: Seq<char>, sep: char)
    requires
        !s.contains(sep),
    ensures
        split_on(s, sep) == seq![s],
    decreases s.len(),
{
    if s.len() > 0 {
        assert(!s.drop_last().contains(sep)) by {
            if s.drop_last().contains(sep) {
                let t = choose|t: int| 0 <= t < s.drop_last().len() && s.drop_last()[t] == sep;
                assert(s[t] == sep);
            }
        }
        lemma_split_on_single(s.drop_last(), sep);
        assert(s.last() != sep) by {
            if s.last() == sep {
                assert(s[s.len() - 1] == sep);
            }
        }
        assert(s.drop_last().push(s.last()) =~= s);
        assert(seq![s.drop_last()].update(0, s.drop_last().push(s.last())) =~= seq![s]);
    } else {
        assert(s =~= seq![]);
    }
}

/// Splitting at a separator: the pieces before it, then the pieces after it.
pub proof fn lemma_split_on_at_sep(a: Seq<char>, b: Seq<char>, sep: char)
    ensures
        split_on(a.push(sep) + b, sep) == split_on(a, sep) + split_on(b, sep),
    decreases b.len(),
{
    let s = a.push(sep) + b;
    if b.len() == 0 {
        assert(s =~= a.push(sep));
        assert(a.push(sep).drop_last() =~= a);
        assert(split_on(a, sep).push(seq![]) =~= split_on(a, sep) + seq![seq![]]);
    } else {
        lemma_split_on_at_sep(a, b.drop_last(), sep);
        assert(s.drop_last() =~= a.push(sep) + b.drop_last());
        assert(s.last() == b.last());
        lemma_split_on_nonempty(b.drop_last(), sep);
        let r1 = split_on(a, sep);
        let r2 = split_on(b.drop_last(), sep);
        if b.last() == sep {
            assert((r1 + r2).push(seq![]) =~= r1 + r2.push(seq![]));
        } else {
            assert((r1 + r2).update((r1 + r2).len() - 1, (r1 + r2).last().push(b.last()))
                =~= r1 + r2.update(r2.len() - 1, r2.last().push(b.last())));
        }
    }
}

/// No piece of a split holds the separator.
pub proof fn lemma_split_on_no_sep(s: Seq<char>, sep: char)
    ensures
        forall|k: int| 0 <= k < split_on(s, sep).len() ==> !(#[trigger] split_on(s, sep)[k]).contains(sep),
    decreases s.len(),
{
    if s.len() > 0 {
        lemma_split_on_no_sep(s.drop_last(), sep);
        lemma_split_on_nonempty(s.drop_last(), sep);
        let r = split_on(s.drop_last(), sep);
        let c = s.last();
        if c != sep {
            assert forall|k: int| 0 <= k < split_on(s, sep).len() implies !(#[trigger] split_on(s, sep)[k]).contains(sep) by {
                if k == r.len() - 1 {
                    let piece = r.last().push(c);
                    if piece.contains(sep) {
                        let t = choose|t: int| 0 <= t < piece.len() && piece[t] == sep;
                        if t < r.last().len() {
                            assert(r.last()[t] == sep);
                            assert(r[r.len() - 1].contains(sep));
                        }
                    }
                }
            }
        } else {
            assert forall|k: int| 0 <= k < split_on(s, sep).len() implies !(#[trigger] split_on(s, sep)[k]).contains(sep) by {
                if k == r.len() {
                    let e: Seq<char> = seq![];
                    assert(split_on(s, sep)[k] =~= e);
                }
            }
        }
    }
}

/// No line holds a `\n`.
pub proof fn lemma_lines_no_newline(s: Seq<char>)
    ensures
        forall|k: int| 0 <= k < lines_of(s).len() ==> !(#[trigger] lines_of(s)[k]).contains('\n'),
{
    lemma_split_on_no_sep(s, '\n');
    lemma_split_on_nonempty(s, '\n');
    let p = split_on(s, '\n');
    assert forall|k: int| 0 <= k < lines_of(s).len() implies !(#[trigger] lines_of(s)[k]).contains('\n') by {
        let l = lines_of(s)[k];
        assert(!p[k].contains('\n'));
        if k < p.len() - 1 {
            assert(l == strip_cr(p[k]));
            if l.contains('\n') {
                let t = choose|t: int| 0 <= t < l.len() && l[t] == '\n';
                assert(p[k][t] == '\n');
            }
        } else {
            assert(l == p.last());
        }
    }
}

/// A text of `n` characters takes between `n` and `4 * n` bytes in UTF-8.
pub proof fn lemma_utf8_len_bounds(s: Seq<char>)
    ensures
        s.len() <= vstd::utf8::encode_utf8(s).len() <= 4 * s.len(),
    decreases s.len(),
{
    if s.len() > 0 {
        lemma_utf8_len_bounds(s.drop_first());
    }
}

/// The UTF-8 encoding of two texts one after the other is their encodings one after the
/// other.
pub proof fn lemma_encode_utf8_concat(a: Seq<char>, b: Seq<char>)
    ensures
        vstd::utf8::encode_utf8(a + b) == vstd::utf8::encode_utf8(a) + vstd::utf8::encode_utf8(b),
    decreases a.len(),
{
    if a.len() == 0 {
        assert(a + b =~= b);
        assert(vstd::utf8::encode_utf8(a) =~= Seq::<u8>::empty());
        assert(vstd::utf8::encode_utf8(a) + vstd::utf8::encode_utf8(b) =~= vstd::utf8::encode_utf8(b));
    } else {
        lemma_encode_utf8_concat(a.drop_first(), b);
        assert((a + b).drop_first() =~= a.drop_first() + b);
        assert((a + b)[0] == a[0]);
        let e = vstd::utf8::encode_scalar(a[0] as u32);
        assert(e + (vstd::utf8::encode_utf8(a.drop_first()) + vstd::utf8::encode_utf8(b))
            =~= (e + vstd::utf8::encode_utf8(a.drop_first())) + vstd::utf8::encode_utf8(b));
    }
}

/// A trimmed text neither begins nor ends with white space.
pub proof fn trimmed_has_no_outer_space(s: Seq<char>)
    ensures
        trim_seq(s).len() == 0 || (!is_white_space(trim_seq(s)[0]) && !is_white_space(trim_seq(s).last())),
    decreases s.len(),
{
    if s.len() > 0 && is_white_space(s[0]) {
        trimmed_has_no_outer_space(s.drop_first());
    } else if s.len() > 0 && is_white_space(s.last()) {
        trimmed_has_no_outer_space(s.drop_last());
    }
}

} // verus!

//! Naming of textbooks: the slug that identifies a file within its folder
//! and the title shown for it, both derived from the file name's stem.

use vstd::prelude::*;
use vstd::string::StringExecFns;
use crate::text::{
    alphanumeric, chars_of, lowercase, string_of, uppercase, uppercase_of, whitespace,
};

verus! {

/// Whether the mark at position `i` is set; positions without a mark count
/// as not set.
pub open spec fn marked(marks: Seq<bool>, i: int) -> bool {
    0 <= i < marks.len() && marks[i]
}

/// A character as it appears in a slug: letters, digits, `-` and `_` stay,
/// anything else becomes `-`. `letter` says whether the character is a
/// letter or a digit.
pub open spec fn slug_char(c: char, letter: bool) -> char {
    if letter || c == '-' || c == '_' {
        c
    } else {
        '-'
    }
}

/// Every character of `s` replaced by its slug form, where `letters` marks
/// the letters and digits of `s`.
pub open spec fn dashed(s: Seq<char>, letters: Seq<bool>) -> Seq<char> {
    Seq::new(s.len(), |i: int| slug_char(s[i], marked(letters, i)))
}

/// `s` without its leading dashes.
pub open spec fn trim_start_dashes(s: Seq<char>) -> Seq<char>
    decreases s.len(),
{
    if s.len() > 0 && s[0] == '-' {
        trim_start_dashes(s.drop_first())
    } else {
        s
    }
}

/// `s` without its trailing dashes.
pub open spec fn trim_end_dashes(s: Seq<char>) -> Seq<char>
    decreases s.len(),
{
    if s.len() > 0 && s.last() == '-' {
        trim_end_dashes(s.drop_last())
    } else {
        s
    }
}

/// `s` without leading and trailing dashes.
pub open spec fn trim_dashes(s: Seq<char>) -> Seq<char> {
    trim_end_dashes(trim_start_dashes(s))
}

/// The slug form of a text in lower case whose letters and digits are
/// marked: every other character but `-` and `_` replaced by `-`, then the
/// dashes trimmed at both ends.
pub open spec fn slug_form(lower: Seq<char>, letters: Seq<bool>) -> Seq<char> {
    trim_dashes(dashed(lower, letters))
}

/// For each character of `s`, whether it is a letter or a digit.
pub open spec fn letters_of(s: Seq<char>) -> Seq<bool> {
    Seq::new(s.len(), |i: int| alphanumeric(s[i]))
}

/// The sanitized form of a file stem: lower-cased, every character outside
/// letters, digits, `-` and `_` replaced by `-`, dashes trimmed at both ends.
pub open spec fn sanitized(name: Seq<char>) -> Seq<char> {
    slug_form(lowercase(name), letters_of(lowercase(name)))
}

/// If the first `i` characters are dashes and the next one is not, trimming
/// at the start drops exactly those `i`.
proof fn lemma_trim_start(s: Seq<char>, i: int)
    requires
        0 <= i <= s.len(),
        forall|k: int| 0 <= k < i ==> s[k] == '-',
        i == s.len() || s[i] != '-',
    ensures
        trim_start_dashes(s) == s.skip(i),
    decreases i,
{
    if i > 0 {
        lemma_trim_start(s.drop_first(), i - 1);
        assert(s.drop_first().skip(i - 1) =~= s.skip(i));
    } else {
        assert(s.skip(0) =~= s);
    }
}

/// If the characters from `j` on are dashes and the one before is not,
/// trimming at the end keeps exactly the first `j`.
proof fn lemma_trim_end(s: Seq<char>, j: int)
    requires
        0 <= j <= s.len(),
        forall|k: int| j <= k < s.len() ==> s[k] == '-',
        j == 0 || s[j - 1] != '-',
    ensures
        trim_end_dashes(s) == s.take(j),
    decreases s.len() - j,
{
    if j < s.len() {
        lemma_trim_end(s.drop_last(), j);
        assert(s.drop_last().take(j) =~= s.take(j));
    } else {
        assert(s.take(j) =~= s);
    }
}

/// The slug form of the lower-case text `lower`, where `letters` marks its
/// letters and digits.
pub fn slug_from(lower: &Vec<char>, letters: &Vec<bool>) -> (slug: String)
    ensures
        slug@ == slug_form(lower@, letters@),
{
    let n: usize = lower.len();
    let mut mapped: Vec<char> = Vec::new();
    let mut k: usize = 0;
    while k < n
        invariant
            n == lower.len(),
            k <= n,
            mapped.len() == k,
            forall|p: int| 0 <= p < k ==> mapped@[p] == slug_char(lower@[p], marked(letters@, p)),
        decreases n - k,
    {
        let c: char = lower[k];
        if (k < letters.len() && letters[k]) || c == '-' || c == '_' {
            mapped.push(c);
        } else {
            mapped.push('-');
        }
        k += 1;
    }
    assert(mapped@ =~= dashed(lower@, letters@));
    let mut start: usize = 0;
    while start < n && mapped[start] == '-'
        invariant
            n == mapped.len(),
            start <= n,
            forall|p: int| 0 <= p < start ==> mapped@[p] == '-',
        decreases n - start,
    {
        start += 1;
    }
    let mut end: usize = n;
    while end > start && mapped[end - 1] == '-'
        invariant
            n == mapped.len(),
            start <= end <= n,
            forall|p: int| end <= p < n ==> mapped@[p] == '-',
        decreases end,
    {
        end -= 1;
    }
    proof {
        lemma_trim_start(mapped@, start as int);
        let rest = mapped@.skip(start as int);
        lemma_trim_end(rest, end - start);
        assert(rest.take(end - start) =~= mapped@.subrange(start as int, end as int));
    }
    string_of(&mapped, start, end)
}

/// The sanitized form of a file stem, used as the second half of a slug.
pub fn sanitize_slug(name: &str) -> (slug: String)
    ensures
        slug@ == sanitized(name@),
{
    let lower = name.to_lowercase();
    let chars = chars_of(lower.as_str());
    let mut letters: Vec<bool> = Vec::new();
    let mut k: usize = 0;
    while k < chars.len()
        invariant
            k <= chars.len(),
            letters.len() == k,
            forall|p: int| 0 <= p < k ==> letters@[p] == alphanumeric(chars@[p]),
        decreases chars.len() - k,
    {
        letters.push(chars[k].is_alphanumeric());
        k += 1;
    }
    assert(letters@ =~= letters_of(chars@));
    slug_from(&chars, &letters)
}

/// The words of `s`, where `breaks` marks the characters that separate
/// words: the maximal runs of unmarked characters, in order. Reading `s`
/// from the left, an unmarked character extends the current word when its
/// predecessor is unmarked too, and starts a new word otherwise.
pub open spec fn words(s: Seq<char>, breaks: Seq<bool>) -> Seq<Seq<char>>
    decreases s.len(),
{
    if s.len() == 0 {
        Seq::empty()
    } else {
        let before = words(s.drop_last(), breaks);
        let last = s.len() - 1;
        if marked(breaks, last) {
            before
        } else if last >= 1 && !marked(breaks, last - 1) && before.len() > 0 {
            before.drop_last().push(before.last().push(s.last()))
        } else {
            before.push(seq![s.last()])
        }
    }
}

/// A word with `upper` in place of its first character; the rest is
/// unchanged. The empty word stays empty.
pub open spec fn capitalized(word: Seq<char>, upper: Seq<char>) -> Seq<char> {
    if word.len() == 0 {
        word
    } else {
        upper + word.skip(1)
    }
}

/// The words of `ws` joined by single spaces.
pub open spec fn joined(ws: Seq<Seq<char>>) -> Seq<char>
    decreases ws.len(),
{
    if ws.len() == 0 {
        Seq::empty()
    } else if ws.len() == 1 {
        ws[0]
    } else {
        joined(ws.drop_last()) + seq![' '] + ws.last()
    }
}

/// Characters that separate the words of a title: `-`, `_` and white space.
pub open spec fn word_break(c: char) -> bool {
    c == '-' || c == '_' || whitespace(c)
}

/// For each character of `s`, whether it separates words.
pub open spec fn breaks_of(s: Seq<char>) -> Seq<bool> {
    Seq::new(s.len(), |i: int| word_break(s[i]))
}

/// A word with its first character in upper case.
pub open spec fn title_word(word: Seq<char>) -> Seq<char> {
    if word.len() == 0 {
        word
    } else {
        capitalized(word, uppercase(word[0]))
    }
}

/// The title of a file stem: its words, each with its first character in
/// upper case, joined by single spaces.
pub open spec fn title_of(stem: Seq<char>) -> Seq<char> {
    let ws = words(stem, breaks_of(stem));
    joined(Seq::new(ws.len(), |i: int| title_word(ws[i])))
}

/// What a vector of words stands for.
pub open spec fn word_rows(ws: Seq<Vec<char>>) -> Seq<Seq<char>> {
    Seq::new(ws.len(), |i: int| ws[i]@)
}

/// What a vector of strings stands for.
pub open spec fn string_rows(ws: Seq<String>) -> Seq<Seq<char>> {
    Seq::new(ws.len(), |i: int| ws[i]@)
}

/// No word is empty, and a text that ends in an unmarked character has at
/// least one word.
pub proof fn lemma_words_nonempty(s: Seq<char>, breaks: Seq<bool>)
    ensures
        forall|i: int|
            0 <= i < words(s, breaks).len() ==> (#[trigger] words(s, breaks)[i]).len() > 0,
        s.len() > 0 && !marked(breaks, s.len() - 1) ==> words(s, breaks).len() > 0,
    decreases s.len(),
{
    if s.len() > 0 {
        let before = words(s.drop_last(), breaks);
        lemma_words_nonempty(s.drop_last(), breaks);
        assert forall|i: int| 0 <= i < words(s, breaks).len() implies (#[trigger] words(
            s,
            breaks,
        )[i]).len() > 0 by {
            if i < before.len() - 1 {
                assert(words(s, breaks)[i] == before[i]);
            } else if i < before.len() && words(s, breaks).len() > before.len() {
                assert(words(s, breaks)[i] == before[i]);
            }
        }
    }
}

/// The words of `chars`, where `breaks` marks the characters that separate
/// words.
pub fn split_words(chars: &Vec<char>, breaks: &Vec<bool>) -> (ws: Vec<Vec<char>>)
    ensures
        word_rows(ws@) == words(chars@, breaks@),
{
    let n: usize = chars.len();
    let mut ws: Vec<Vec<char>> = Vec::new();
    let mut current: Vec<char> = Vec::new();
    let mut i: usize = 0;
    assert(chars@.take(0) =~= Seq::empty());
    assert(word_rows(ws@) =~= Seq::empty());
    while i < n
        invariant
            n == chars.len(),
            i <= n,
            words(chars@.take(i as int), breaks@) == if current.len() > 0 {
                word_rows(ws@).push(current@)
            } else {
                word_rows(ws@)
            },
            current.len() > 0 <==> i > 0 && !marked(breaks@, i - 1),
        decreases n - i,
    {
        assert(chars@.take(i + 1).drop_last() =~= chars@.take(i as int));
        assert(chars@.take(i + 1).last() == chars@[i as int]);
        let ghost done = word_rows(ws@);
        let ghost word = current@;
        if i < breaks.len() && breaks[i] {
            if current.len() > 0 {
                ws.push(current);
                current = Vec::new();
                assert(word_rows(ws@) =~= done.push(word));
            }
        } else {
            current.push(chars[i]);
            proof {
                if word.len() > 0 {
                    assert(done.push(word).drop_last().push(
                        done.push(word).last().push(chars@[i as int]),
                    ) =~= done.push(current@));
                } else {
                    assert(current@ =~= seq![chars@[i as int]]);
                }
            }
        }
        i += 1;
    }
    assert(chars@.take(n as int) =~= chars@);
    if current.len() > 0 {
        let ghost done = word_rows(ws@);
        let ghost word = current@;
        ws.push(current);
        assert(word_rows(ws@) =~= done.push(word));
    }
    ws
}

/// `word` with `upper` in place of its first character.
pub fn capitalize(word: &Vec<char>, upper: &str) -> (r: String)
    ensures
        r@ == capitalized(word@, upper@),
{
    if word.len() == 0 {
        return String::new();
    }
    let rest = string_of(word, 1, word.len());
    assert(word@.subrange(1, word.len() as int) =~= word@.skip(1));
    String::from_str(upper).concat(rest.as_str())
}

/// The words of `ws` joined by single spaces.
pub fn join_words(ws: &Vec<String>) -> (r: String)
    ensures
        r@ == joined(string_rows(ws@)),
{
    let ghost rows = string_rows(ws@);
    let mut r = String::new();
    let mut i: usize = 0;
    assert(rows.take(0) =~= Seq::empty());
    while i < ws.len()
        invariant
            i <= ws.len(),
            rows == string_rows(ws@),
            r@ == joined(rows.take(i as int)),
        decreases ws.len() - i,
    {
        assert(rows.take(i + 1).drop_last() =~= rows.take(i as int));
        assert(rows.take(i + 1).last() == rows[i as int]);
        let ghost before = r@;
        if i > 0 {
            r.push(' ');
        }
        r.append(ws[i].as_str());
        assert(i > 0 ==> r@ =~= before + seq![' '] + rows[i as int]);
        assert(i == 0 ==> r@ =~= rows[0]);
        i += 1;
    }
    assert(rows.take(i as int) =~= rows);
    r
}

/// The display title of a file stem.
pub fn title_from_stem(stem: &str) -> (title: String)
    ensures
        title@ == title_of(stem@),
{
    let chars = chars_of(stem);
    let mut breaks: Vec<bool> = Vec::new();
    let mut k: usize = 0;
    while k < chars.len()
        invariant
            k <= chars.len(),
            breaks.len() == k,
            forall|p: int| 0 <= p < k ==> breaks@[p] == word_break(chars@[p]),
        decreases chars.len() - k,
    {
        let c: char = chars[k];
        breaks.push(c == '-' || c == '_' || c.is_whitespace());
        k += 1;
    }
    assert(breaks@ =~= breaks_of(chars@));
    let ws = split_words(&chars, &breaks);
    let ghost found = words(stem@, breaks_of(stem@));
    let mut titled: Vec<String> = Vec::new();
    let mut i: usize = 0;
    while i < ws.len()
        invariant
            i <= ws.len(),
            found == word_rows(ws@),
            found == words(stem@, breaks_of(stem@)),
            titled.len() == i,
            forall|p: int| 0 <= p < i ==> (#[trigger] titled@[p])@ == title_word(found[p]),
        decreases ws.len() - i,
    {
        proof {
            lemma_words_nonempty(stem@, breaks_of(stem@));
            assert(found[i as int] == ws@[i as int]@);
        }
        let upper = uppercase_of(ws[i][0]);
        titled.push(capitalize(&ws[i], upper.as_str()));
        i += 1;
    }
    assert(string_rows(titled@) =~= Seq::new(found.len(), |i: int| title_word(found[i])));
    join_words(&titled)
}

} // verus!

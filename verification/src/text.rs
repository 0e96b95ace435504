//! Lines and whitespace-separated words of a text, over sequences of
//! characters.

use vstd::prelude::*;
use vstd::slice::slice_subrange;

verus! {

/// The five characters that separate words: space, tab, line feed, form feed
/// and carriage return.
pub open spec fn is_space(c: char) -> bool {
    c == ' ' || c == '\t' || c == '\n' || c == '\x0C' || c == '\r'
}

/// Number of characters from `from` up to the next line feed or the end.
pub open spec fn line_len(s: Seq<char>, from: int) -> nat
    decreases s.len() - from,
{
    if from < 0 || from >= s.len() || s[from] == '\n' {
        0
    } else {
        1 + line_len(s, from + 1)
    }
}

/// A line without the carriage return at its end, if it has one there.
pub open spec fn without_return(line: Seq<char>) -> Seq<char> {
    if line.len() > 0 && line.last() == '\r' {
        line.drop_last()
    } else {
        line
    }
}

/// The lines of `s` that begin at or after `from`. A line ends at a line feed
/// or at the end of the text; a line feed that ends the text opens no further
/// line. A carriage return just before the line feed belongs to the line's
/// end, not to the line.
pub open spec fn lines_from(s: Seq<char>, from: int) -> Seq<Seq<char>>
    decreases s.len() - from,
{
    if from < 0 || from >= s.len() {
        Seq::empty()
    } else {
        let end = from + line_len(s, from);
        proof {
            lemma_line_len_bound(s, from);
        }
        if end < s.len() {
            seq![without_return(s.subrange(from, end))] + lines_from(s, end + 1)
        } else {
            seq![s.subrange(from, end)]
        }
    }
}

/// All lines of `s`.
pub open spec fn lines(s: Seq<char>) -> Seq<Seq<char>> {
    lines_from(s, 0)
}

/// Number of characters from `from` up to the next space or the end.
pub open spec fn word_len(s: Seq<char>, from: int) -> nat
    decreases s.len() - from,
{
    if from < 0 || from >= s.len() || is_space(s[from]) {
        0
    } else {
        1 + word_len(s, from + 1)
    }
}

/// The words of `s` that begin at or after `from`: the maximal runs of
/// characters that are not spaces, in order.
pub open spec fn words_from(s: Seq<char>, from: int) -> Seq<Seq<char>>
    decreases s.len() - from,
{
    if from < 0 || from >= s.len() {
        Seq::empty()
    } else if is_space(s[from]) {
        words_from(s, from + 1)
    } else {
        let end = from + word_len(s, from);
        proof {
            lemma_word_len_bound(s, from);
        }
        seq![s.subrange(from, end)] + words_from(s, end)
    }
}

/// All words of `s`.
pub open spec fn words(s: Seq<char>) -> Seq<Seq<char>> {
    words_from(s, 0)
}

/// Whether `s` begins with `prefix`.
pub open spec fn has_prefix(s: Seq<char>, prefix: Seq<char>) -> bool {
    prefix.len() <= s.len() && s.subrange(0, prefix.len() as int) == prefix
}

/// A line ends within the text, at a line feed unless the text ends there,
/// and holds no line feed.
pub proof fn lemma_line_len_bound(s: Seq<char>, from: int)
    requires
        0 <= from <= s.len(),
    ensures
        from + line_len(s, from) <= s.len(),
        from + line_len(s, from) < s.len() ==> s[from + line_len(s, from)] == '\n',
        forall|k: int| from <= k < from + line_len(s, from) ==> s[k] != '\n',
    decreases s.len() - from,
{
    if from < s.len() && s[from] != '\n' {
        lemma_line_len_bound(s, from + 1);
    }
}

/// A word ends within the text, at a space unless the text ends there, and
/// holds no space.
pub proof fn lemma_word_len_bound(s: Seq<char>, from: int)
    requires
        0 <= from <= s.len(),
    ensures
        from + word_len(s, from) <= s.len(),
        from + word_len(s, from) < s.len() ==> is_space(s[from + word_len(s, from)]),
        forall|k: int| from <= k < from + word_len(s, from) ==> !is_space(s[k]),
    decreases s.len() - from,
{
    if from < s.len() && !is_space(s[from]) {
        lemma_word_len_bound(s, from + 1);
    }
}

/// Whether `c` separates words.
pub fn char_is_space(c: char) -> (b: bool)
    ensures
        b == is_space(c),
{
    c == ' ' || c == '\t' || c == '\n' || c == '\x0C' || c == '\r'
}

/// End of the line that begins at `from`: the index of the next line feed, or
/// the length of the text.
pub fn line_end(text: &[char], from: usize) -> (end: usize)
    requires
        from <= text@.len(),
    ensures
        end == from + line_len(text@, from as int),
        end <= text@.len(),
{
    let mut end: usize = from;
    while end < text.len() && text[end] != '\n'
        invariant
            from <= end <= text@.len(),
            end + line_len(text@, end as int) == from + line_len(text@, from as int),
        decreases text@.len() - end,
    {
        end += 1;
    }
    proof {
        lemma_line_len_bound(text@, from as int);
    }
    end
}

/// End of the word that begins at `from`: the index of the next space, or the
/// length of the text.
pub fn word_end(text: &[char], from: usize) -> (end: usize)
    requires
        from <= text@.len(),
    ensures
        end == from + word_len(text@, from as int),
        end <= text@.len(),
{
    let mut end: usize = from;
    while end < text.len() && !char_is_space(text[end])
        invariant
            from <= end <= text@.len(),
            end + word_len(text@, end as int) == from + word_len(text@, from as int),
        decreases text@.len() - end,
    {
        end += 1;
    }
    proof {
        lemma_word_len_bound(text@, from as int);
    }
    end
}

/// What a list of slices holds, slice by slice.
pub open spec fn slices_view(found: Seq<&[char]>) -> Seq<Seq<char>> {
    Seq::new(found.len(), |i: int| found[i]@)
}

/// The words of a line, as one slice of the line for each.
pub fn split_words<'a>(line: &'a [char]) -> (found: Vec<&'a [char]>)
    ensures
        slices_view(found@) == words(line@),
{
    let mut found: Vec<&'a [char]> = Vec::new();
    let mut pos: usize = 0;
    assert(slices_view(found@) + words(line@) =~= words(line@));
    while pos < line.len()
        invariant
            pos <= line@.len(),
            words(line@) == slices_view(found@) + words_from(line@, pos as int),
        decreases line@.len() - pos,
    {
        if char_is_space(line[pos]) {
            pos += 1;
        } else {
            let end = word_end(line, pos);
            let word = slice_subrange(line, pos, end);
            let ghost before = slices_view(found@);
            found.push(word);
            assert(slices_view(found@) =~= before.push(word@));
            assert(before.push(word@) + words_from(line@, end as int) =~= before + (seq![word@]
                + words_from(line@, end as int)));
            pos = end;
        }
    }
    assert(slices_view(found@) + Seq::<Seq<char>>::empty() =~= slices_view(found@));
    found
}

/// The lines of a text, as one slice of the text for each.
pub fn split_lines<'a>(text: &'a [char]) -> (found: Vec<&'a [char]>)
    ensures
        slices_view(found@) == lines(text@),
{
    let mut found: Vec<&'a [char]> = Vec::new();
    let mut pos: usize = 0;
    assert(slices_view(found@) + lines(text@) =~= lines(text@));
    while pos < text.len()
        invariant
            pos <= text@.len(),
            lines(text@) == slices_view(found@) + lines_from(text@, pos as int),
        decreases text@.len() - pos,
    {
        let end = line_end(text, pos);
        let stop: usize = if end < text.len() && end > pos && text[end - 1] == '\r' {
            end - 1
        } else {
            end
        };
        let line = slice_subrange(text, pos, stop);
        let ghost before = slices_view(found@);
        found.push(line);
        assert(slices_view(found@) =~= before.push(line@));
        if end < text.len() {
            assert(line@ =~= without_return(text@.subrange(pos as int, end as int)));
            assert(before.push(line@) + lines_from(text@, end + 1) =~= before + (seq![line@]
                + lines_from(text@, end + 1)));
            pos = end + 1;
        } else {
            assert(before.push(line@) + lines_from(text@, end as int) =~= before + seq![line@]);
            pos = end;
        }
    }
    assert(slices_view(found@) + Seq::<Seq<char>>::empty() =~= slices_view(found@));
    found
}

/// The characters of a string, in order.
pub fn chars_of(s: &str) -> (chars: Vec<char>)
    ensures
        chars@ == s@,
{
    let mut chars: Vec<char> = Vec::new();
    let mut it = s.chars();
    for c in iter: it
        invariant
            chars@ == iter.seq().take(iter.index()),
    {
        chars.push(c);
    }
    chars
}

/// Whether `line` begins with `prefix`.
pub fn starts_with(line: &[char], prefix: &[char]) -> (b: bool)
    ensures
        b == has_prefix(line@, prefix@),
{
    if prefix.len() > line.len() {
        return false;
    }
    let mut i: usize = 0;
    while i < prefix.len()
        invariant
            i <= prefix@.len() <= line@.len(),
            line@.subrange(0, i as int) == prefix@.subrange(0, i as int),
        decreases prefix@.len() - i,
    {
        if line[i] != prefix[i] {
            assert(line@.subrange(0, prefix@.len() as int)[i as int] != prefix@[i as int]);
            return false;
        }
        assert(line@.subrange(0, i + 1) =~= line@.subrange(0, i as int).push(line@[i as int]));
        assert(prefix@.subrange(0, i + 1) =~= prefix@.subrange(0, i as int).push(
            prefix@[i as int],
        ));
        i += 1;
    }
    assert(prefix@.subrange(0, i as int) =~= prefix@);
    true
}

} // verus!

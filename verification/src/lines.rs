//! Lines of a table's text and the line ending it uses.

use vstd::prelude::*;

verus! {

/// Position of the first line feed of `s`, or the length of `s` if it has none.
pub open spec fn line_end(s: Seq<char>) -> nat
    decreases s.len(),
{
    if s.len() == 0 || s[0] == '\n' {
        0
    } else {
        1 + line_end(s.drop_first())
    }
}

/// `s` without the carriage return at its end, if there is one.
pub open spec fn strip_cr(s: Seq<char>) -> Seq<char> {
    if s.len() > 0 && s.last() == '\r' {
        s.drop_last()
    } else {
        s
    }
}

/// The lines of `text`. A line ends with a line feed, or with a carriage
/// return followed by a line feed; neither belongs to the line. The last
/// line needs no line ending, and nothing follows a final line ending.
pub open spec fn split_lines(text: Seq<char>) -> Seq<Seq<char>>
    decreases text.len(),
{
    if text.len() == 0 {
        Seq::<Seq<char>>::empty()
    } else {
        let end = line_end(text);
        if end >= text.len() {
            seq![text]
        } else {
            seq![strip_cr(text.take(end as int))] + split_lines(text.skip(end as int + 1))
        }
    }
}

/// A carriage return at position `i` of `text` is followed by a line feed.
pub open spec fn crlf_at(text: Seq<char>, i: int) -> bool {
    0 <= i < text.len() - 1 && text[i] == '\r' && text[i + 1] == '\n'
}

/// `text` holds a carriage return directly followed by a line feed.
pub open spec fn contains_crlf(text: Seq<char>) -> bool {
    exists|i: int| crlf_at(text, i)
}

/// The line ending of a table: `"\r\n"` if that sequence occurs anywhere in
/// its text, else `"\n"`.
pub open spec fn line_terminator(text: Seq<char>) -> Seq<char> {
    if contains_crlf(text) {
        seq!['\r', '\n']
    } else {
        seq!['\n']
    }
}

/// The text of each line.
pub open spec fn char_views(lines: Seq<Vec<char>>) -> Seq<Seq<char>> {
    Seq::new(lines.len(), |k: int| lines[k]@)
}

/// The first line of a text ends within the text, at a line feed if the
/// text holds one, and holds no line feed itself.
pub proof fn lemma_line_end_bound(s: Seq<char>)
    ensures
        line_end(s) <= s.len(),
        line_end(s) < s.len() ==> s[line_end(s) as int] == '\n',
        forall|i: int| 0 <= i < line_end(s) ==> s[i] != '\n',
    decreases s.len(),
{
    if !(s.len() == 0 || s[0] == '\n') {
        let rest = s.drop_first();
        lemma_line_end_bound(rest);
        assert forall|i: int| 0 <= i < line_end(s) implies s[i] != '\n' by {
            if i > 0 {
                assert(s[i] == rest[i - 1]);
            }
        }
    }
}

/// A text that is not empty has a line.
pub proof fn lemma_text_has_line(text: Seq<char>)
    requires
        text.len() > 0,
    ensures
        split_lines(text).len() >= 1,
{
}

/// A text in which something follows a line feed has two lines at least.
pub proof fn lemma_line_feed_makes_two_lines(text: Seq<char>, at: int)
    requires
        0 <= at,
        at + 1 < text.len(),
        text[at] == '\n',
    ensures
        split_lines(text).len() >= 2,
{
    lemma_line_end_bound(text);
    let end = line_end(text) as int;
    assert(end <= at);
    lemma_text_has_line(text.skip(end + 1));
}

/// Copies the characters of `text` from `start` up to `end`.
pub fn copy_range(text: &Vec<char>, start: usize, end: usize) -> (part: Vec<char>)
    requires
        start <= end <= text.len(),
    ensures
        part@ == text@.subrange(start as int, end as int),
{
    let mut part: Vec<char> = Vec::new();
    let mut i: usize = start;
    while i < end
        invariant
            start <= i <= end <= text.len(),
            part@ == text@.subrange(start as int, i as int),
        decreases end - i,
    {
        part.push(text[i]);
        proof {
            assert(text@.subrange(start as int, i as int).push(text@[i as int])
                =~= text@.subrange(start as int, i + 1));
        }
        i += 1;
    }
    part
}

/// Splits `text` into its lines.
pub fn lines_of(text: &Vec<char>) -> (lines: Vec<Vec<char>>)
    ensures
        char_views(lines@) == split_lines(text@),
{
    let n: usize = text.len();
    let mut lines: Vec<Vec<char>> = Vec::new();
    let mut start: usize = 0;
    let mut i: usize = 0;
    proof {
        assert(text@.skip(0) =~= text@);
        assert(char_views(lines@) + split_lines(text@) =~= split_lines(text@));
    }
    while i < n
        invariant
            n == text.len(),
            start <= i <= n,
            split_lines(text@) == char_views(lines@) + split_lines(text@.skip(start as int)),
            line_end(text@.skip(start as int)) == (i - start) + line_end(text@.skip(i as int)),
        decreases n - i,
    {
        let ghost tail = text@.skip(start as int);
        proof {
            assert(text@.skip(i as int).drop_first() =~= text@.skip(i + 1));
            assert(text@.skip(i as int)[0] == text@[i as int]);
        }
        if text[i] == '\n' {
            let end: usize = if i > start && text[i - 1] == '\r' {
                i - 1
            } else {
                i
            };
            let line = copy_range(text, start, end);
            proof {
                assert(line_end(tail) == i - start);
                assert(tail.take(i - start) =~= text@.subrange(start as int, i as int));
                assert(line@ =~= strip_cr(tail.take(i - start)));
                assert(tail.skip(i - start + 1) =~= text@.skip(i + 1));
                assert(char_views(lines@.push(line)) =~= char_views(lines@).push(line@));
                assert(char_views(lines@).push(line@) + split_lines(text@.skip(i + 1))
                    =~= char_views(lines@) + split_lines(tail));
            }
            lines.push(line);
            start = i + 1;
        }
        i += 1;
    }
    if start < n {
        let line = copy_range(text, start, n);
        proof {
            let tail = text@.skip(start as int);
            assert(text@.skip(n as int).len() == 0);
            assert(line_end(tail) == n - start);
            assert(line@ =~= tail);
            assert(char_views(lines@.push(line)) =~= char_views(lines@).push(line@));
            assert(char_views(lines@).push(line@) =~= char_views(lines@) + split_lines(tail));
        }
        lines.push(line);
    } else {
        proof {
            assert(split_lines(text@.skip(start as int)) =~= Seq::<Seq<char>>::empty());
            assert(char_views(lines@) + Seq::<Seq<char>>::empty() =~= char_views(lines@));
        }
    }
    lines
}

/// Tells whether `text` uses `"\r\n"` anywhere.
pub fn has_crlf(text: &Vec<char>) -> (found: bool)
    ensures
        found == contains_crlf(text@),
{
    let n: usize = text.len();
    let mut i: usize = 1;
    while i < n
        invariant
            n == text.len(),
            1 <= i,
            forall|j: int| 0 <= j < i - 1 ==> !crlf_at(text@, j),
        decreases n - i,
    {
        if text[i - 1] == '\r' && text[i] == '\n' {
            assert(crlf_at(text@, i - 1));
            return true;
        }
        i += 1;
    }
    false
}

} // verus!

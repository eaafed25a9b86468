//! Byte ranges of lines within a document.

use std::ops::{Range, RangeInclusive};
use vstd::prelude::*;
use vstd::string::StringSliceAdditionalSpecFns;
use vstd::utf8::*;

verus! {

/// The byte of a line feed.
pub const LINE_FEED: u8 = 10;

/// The byte of a carriage return.
pub const CARRIAGE_RETURN: u8 = 13;

/// The lower bound of an inclusive range.
///
/// Trusted: `RangeInclusive::start` returns the bound the range was made with.
pub assume_specification<Idx>[ RangeInclusive::<Idx>::start ](range: &RangeInclusive<Idx>) -> (start:
    &Idx)
    ensures
        *start == range@.start,
;

/// The upper bound of an inclusive range.
///
/// Trusted: `RangeInclusive::end` returns the bound the range was made with.
pub assume_specification<Idx>[ RangeInclusive::<Idx>::end ](range: &RangeInclusive<Idx>) -> (end:
    &Idx)
    ensures
        *end == range@.end,
;

/// Number of line feeds among `bytes`.
pub open spec fn count_line_feeds(bytes: Seq<u8>) -> nat
    decreases bytes.len(),
{
    if bytes.len() == 0 {
        0
    } else {
        count_line_feeds(bytes.drop_last()) + if bytes.last() == LINE_FEED {
            1nat
        } else {
            0nat
        }
    }
}

/// Number of the line, counted from one, that the byte at position `i` belongs to.
pub open spec fn line_of(bytes: Seq<u8>, i: int) -> nat {
    1 + count_line_feeds(bytes.take(i))
}

/// The byte at position `i` is the line feed that ends line `line`.
pub open spec fn ends_line(bytes: Seq<u8>, i: int, line: nat) -> bool {
    0 <= i < bytes.len() && bytes[i] == LINE_FEED && line_of(bytes, i) == line
}

/// The byte at position `i` is the first of line `line`, which is not empty.
pub open spec fn begins_line(bytes: Seq<u8>, i: int, line: nat) -> bool {
    &&& 0 <= i < bytes.len()
    &&& bytes[i] != LINE_FEED
    &&& (i == 0 || bytes[i - 1] == LINE_FEED)
    &&& line_of(bytes, i) == line
}

/// Position of the line feed that ends line `last`, or the length of
/// `bytes` where no line feed ends that line.
pub open spec fn line_stop(bytes: Seq<u8>, last: nat) -> int {
    if exists|i: int| ends_line(bytes, i, last) {
        choose|i: int| ends_line(bytes, i, last)
    } else {
        bytes.len() as int
    }
}

/// Where the span of the lines up to `last` ends: before the line ending of
/// line `last`, be it `"\n"` or `"\r\n"`, or at the end of `bytes`.
pub open spec fn span_end(bytes: Seq<u8>, last: nat) -> int {
    let stop = line_stop(bytes, last);
    if 0 < stop < bytes.len() && bytes[stop - 1] == CARRIAGE_RETURN {
        stop - 1
    } else {
        stop
    }
}

/// Position `i` lies before the end of line `last` and begins line `first`.
pub open spec fn begins_span(bytes: Seq<u8>, i: int, first: nat, last: nat) -> bool {
    i < line_stop(bytes, last) && begins_line(bytes, i, first)
}

/// Where the span of the lines from `first` to `last` begins: at the first
/// byte of line `first`. It is zero where that line is empty, is missing or
/// comes after line `last`.
pub open spec fn span_start(bytes: Seq<u8>, first: nat, last: nat) -> int {
    if exists|i: int| begins_span(bytes, i, first, last) {
        choose|i: int| begins_span(bytes, i, first, last)
    } else {
        0
    }
}

/// Line numbers never decrease along the document, and grow behind a line feed.
pub proof fn lemma_line_of_monotonic(bytes: Seq<u8>, a: int, b: int)
    requires
        0 <= a <= b <= bytes.len(),
    ensures
        line_of(bytes, a) <= line_of(bytes, b),
        a < b && bytes[a] == LINE_FEED ==> line_of(bytes, a) < line_of(bytes, b),
    decreases b - a,
{
    if a < b {
        lemma_line_of_monotonic(bytes, a, b - 1);
        assert(bytes.take(b).drop_last() =~= bytes.take(b - 1));
        assert(bytes.take(b).last() == bytes[b - 1]);
    }
}

/// At most one line feed ends a given line.
pub proof fn lemma_ends_line_unique(bytes: Seq<u8>, i: int, j: int, line: nat)
    requires
        ends_line(bytes, i, line),
        ends_line(bytes, j, line),
    ensures
        i == j,
{
    if i < j {
        lemma_line_of_monotonic(bytes, i, j);
    } else if j < i {
        lemma_line_of_monotonic(bytes, j, i);
    }
}

/// At most one byte begins a given line.
pub proof fn lemma_begins_line_unique(bytes: Seq<u8>, i: int, j: int, line: nat)
    requires
        begins_line(bytes, i, line),
        begins_line(bytes, j, line),
    ensures
        i == j,
{
    if i < j {
        lemma_line_of_monotonic(bytes, i, j - 1);
        lemma_line_of_monotonic(bytes, j - 1, j);
    } else if j < i {
        lemma_line_of_monotonic(bytes, j, i - 1);
        lemma_line_of_monotonic(bytes, i - 1, i);
    }
}

/// The byte behind a one-byte character starts a character, or is the end.
pub proof fn lemma_boundary_after_ascii(bytes: Seq<u8>, i: int)
    requires
        valid_utf8(bytes),
        0 <= i < bytes.len(),
        bytes[i] < 0x80,
    ensures
        is_char_boundary(bytes, i),
        is_char_boundary(bytes, i + 1),
    decreases bytes.len(),
{
    is_char_boundary_iff_not_is_continuation_byte(bytes, i);
    let width = length_of_first_scalar(bytes);
    let rest = pop_first_scalar(bytes);
    if i == 0 {
        assert(width == 1);
        assert(is_char_boundary(rest, 0));
        reveal_with_fuel(is_char_boundary, 2);
    } else {
        reveal_with_fuel(is_char_boundary, 2);
        assert(i >= width);
        assert(rest[i - width] == bytes[i]);
        lemma_boundary_after_ascii(rest, i - width);
    }
}

/// The span of a range of lines lies within the document, does not end
/// before it begins, and cuts no character in two.
pub proof fn lemma_span_bounds(bytes: Seq<u8>, first: nat, last: nat)
    requires
        valid_utf8(bytes),
    ensures
        0 <= span_start(bytes, first, last) <= span_end(bytes, last) <= bytes.len(),
        span_end(bytes, last) <= line_stop(bytes, last) <= bytes.len(),
        is_char_boundary(bytes, span_start(bytes, first, last)),
        is_char_boundary(bytes, span_end(bytes, last)),
{
    is_char_boundary_start_end_of_seq(bytes);
    let stop = line_stop(bytes, last);
    if exists|i: int| ends_line(bytes, i, last) {
        assert(ends_line(bytes, stop, last));
        lemma_boundary_after_ascii(bytes, stop);
        if stop > 0 && bytes[stop - 1] == CARRIAGE_RETURN {
            lemma_boundary_after_ascii(bytes, stop - 1);
        }
    }
    if exists|i: int| begins_span(bytes, i, first, last) {
        let start = span_start(bytes, first, last);
        assert(begins_span(bytes, start, first, last));
        if start > 0 {
            lemma_boundary_after_ascii(bytes, start - 1);
        }
    }
}

/// Between a position on one line and a position on a later line stands
/// the line feed that ends any line from the one up to the other.
pub proof fn lemma_line_ends_between(bytes: Seq<u8>, a: int, b: int, line: nat)
    requires
        0 <= a <= b <= bytes.len(),
        line_of(bytes, a) <= line < line_of(bytes, b),
    ensures
        exists|e: int| a <= e < b && ends_line(bytes, e, line),
    decreases b - a,
{
    assert(a < b);
    assert(bytes.take(b).drop_last() =~= bytes.take(b - 1));
    assert(bytes.take(b).last() == bytes[b - 1]);
    if line < line_of(bytes, b - 1) {
        lemma_line_ends_between(bytes, a, b - 1, line);
        let e = choose|e: int| a <= e < b - 1 && ends_line(bytes, e, line);
        assert(a <= e < b && ends_line(bytes, e, line));
    } else {
        assert(ends_line(bytes, b - 1, line));
    }
}

/// The span of the lines from `first` to `last`, where line `first` begins
/// at position `i` and line `last` at position `j`, before the span ends:
/// the span begins at `i`, and a line feed within it stands before `j`.
pub proof fn lemma_span_of_lines(bytes: Seq<u8>, first: nat, last: nat, i: int, j: int)
    requires
        first < last,
        begins_line(bytes, i, first),
        begins_line(bytes, j, last),
        j < span_end(bytes, last),
    ensures
        span_start(bytes, first, last) == i,
        i < j - 1,
        bytes[j - 1] == LINE_FEED,
{
    if j <= i {
        lemma_line_of_monotonic(bytes, j, i);
    }
    assert(begins_span(bytes, i, first, last));
    let start = span_start(bytes, first, last);
    assert(begins_span(bytes, start, first, last));
    lemma_begins_line_unique(bytes, start, i, first);
}

/// The span of lines that end with line `last` ends before a later line begins.
pub proof fn lemma_span_ends_before(bytes: Seq<u8>, last: nat, j: int, next: nat, i: int)
    requires
        begins_line(bytes, j, last),
        last < next,
        begins_line(bytes, i, next),
    ensures
        span_end(bytes, last) < i,
{
    if i <= j {
        lemma_line_of_monotonic(bytes, i, j);
    }
    lemma_line_ends_between(bytes, j, i, last);
    let e = choose|e: int| j <= e < i && ends_line(bytes, e, last);
    let stop = line_stop(bytes, last);
    assert(ends_line(bytes, stop, last));
    lemma_ends_line_unique(bytes, stop, e, last);
}

/// Get the byte offset range of `doc` that corresponds to the inclusive
/// range of lines. Lines are counted from one.
pub fn get_range_from_lines(doc: &str, lines: RangeInclusive<usize>) -> (range: Range<usize>)
    ensures
        range.start == span_start(doc.spec_bytes(), lines@.start as nat, lines@.end as nat),
        range.end == span_end(doc.spec_bytes(), lines@.end as nat),
        range.start <= range.end <= doc.spec_bytes().len(),
        is_char_boundary(doc.spec_bytes(), range.start as int),
        is_char_boundary(doc.spec_bytes(), range.end as int),
{
    let first: usize = *lines.start();
    let last: usize = *lines.end();
    let bytes = doc.as_bytes();
    let n: usize = bytes.len();
    let ghost all = doc.spec_bytes();
    proof {
        encode_utf8_valid_utf8(doc@);
        is_char_boundary_start_end_of_seq(all);
        assert(all.take(0) =~= Seq::<u8>::empty());
    }
    let mut seen: usize = 0;
    let mut line_start: bool = true;
    let mut start_offset: usize = 0;
    let mut index: usize = 0;
    while index < n
        invariant
            n == all.len(),
            all == doc.spec_bytes(),
            bytes@ == all,
            valid_utf8(all),
            first == lines@.start,
            last == lines@.end,
            index <= n,
            seen <= index,
            seen == count_line_feeds(all.take(index as int)),
            line_start == (index == 0 || all[index - 1] == LINE_FEED),
            forall|i: int| 0 <= i < index ==> !ends_line(all, i, last as nat),
            start_offset <= index,
            start_offset == 0 || begins_line(all, start_offset as int, first as nat),
            forall|i: int|
                0 <= i < index && begins_line(all, i, first as nat) ==> i == start_offset,
            is_char_boundary(all, start_offset as int),
        decreases n - index,
    {
        proof {
            assert(all.take(index + 1).drop_last() =~= all.take(index as int));
            assert(all.take(index + 1).last() == all[index as int]);
        }
        if bytes[index] == LINE_FEED {
            if last >= 1 && seen == last - 1 {
                proof {
                    assert(ends_line(all, index as int, last as nat));
                    assert forall|i: int| ends_line(all, i, last as nat) implies i == index by {
                        lemma_ends_line_unique(all, i, index as int, last as nat);
                    }
                    assert(line_stop(all, last as nat) == index);
                    lemma_boundary_after_ascii(all, index as int);
                    if start_offset != 0 {
                        assert(begins_span(all, start_offset as int, first as nat, last as nat));
                    }
                    assert forall|i: int|
                        begins_span(all, i, first as nat, last as nat) implies i == start_offset by {}
                    if index > 0 && all[index - 1] == CARRIAGE_RETURN {
                        lemma_boundary_after_ascii(all, index - 1);
                    }
                }
                if index > 0 && bytes[index - 1] == CARRIAGE_RETURN {
                    return start_offset..index - 1;
                }
                return start_offset..index;
            }
            seen += 1;
            line_start = true;
        } else {
            if line_start && first >= 1 && seen == first - 1 {
                proof {
                    if index > 0 {
                        lemma_boundary_after_ascii(all, index - 1);
                    }
                    assert(begins_line(all, index as int, first as nat));
                    assert forall|i: int| begins_line(all, i, first as nat) implies i == index by {
                        lemma_begins_line_unique(all, i, index as int, first as nat);
                    }
                }
                start_offset = index;
            }
            line_start = false;
        }
        index += 1;
    }
    proof {
        assert(line_stop(all, last as nat) == n);
        if start_offset != 0 {
            assert(begins_span(all, start_offset as int, first as nat, last as nat));
        }
        assert forall|i: int|
            begins_span(all, i, first as nat, last as nat) implies i == start_offset by {}
    }
    start_offset..n
}

} // verus!

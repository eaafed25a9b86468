//! Character-level helpers shared by the tokenizer and the formatter.

use vstd::prelude::*;
use vstd::string::StringExecFns;

verus! {

/// Characters with the Unicode `White_Space` property.
pub open spec fn is_whitespace(c: char) -> bool {
    let n = c as u32;
    ||| 0x09 <= n <= 0x0D
    ||| n == 0x20
    ||| n == 0x85
    ||| n == 0xA0
    ||| n == 0x1680
    ||| 0x2000 <= n <= 0x200A
    ||| n == 0x2028
    ||| n == 0x2029
    ||| n == 0x202F
    ||| n == 0x205F
    ||| n == 0x3000
}

/// Executable test for [`is_whitespace`].
pub fn char_is_whitespace(c: char) -> (r: bool)
    ensures
        r == is_whitespace(c),
{
    let n: u32 = c as u32;
    (0x09 <= n && n <= 0x0D) || n == 0x20 || n == 0x85 || n == 0xA0 || n == 0x1680 || (0x2000 <= n
        && n <= 0x200A) || n == 0x2028 || n == 0x2029 || n == 0x202F || n == 0x205F || n == 0x3000
}

/// The characters of a string slice, in order.
pub fn to_chars(s: &str) -> (chars: Vec<char>)
    ensures
        chars@ == s@,
{
    let mut chars: Vec<char> = Vec::new();
    for c in it: s.chars()
        invariant
            chars@ == it.seq().take(it.index() as int),
            it.seq() == s@,
    {
        chars.push(c);
    }
    chars
}

/// Collects characters into an owned string.
///
/// Trusted: `String`'s `FromIterator<&char>` impl; the string holds exactly
/// the given characters, in order.
#[verifier::external_body]
pub(crate) fn string_from_chars(chars: &Vec<char>) -> (s: String)
    ensures
        s@ == chars@,
{
    chars.iter().collect()
}

/// Number of whitespace characters at the start of `s`.
pub open spec fn leading_whitespace(s: Seq<char>) -> nat
    decreases s.len(),
{
    if s.len() > 0 && is_whitespace(s[0]) {
        1 + leading_whitespace(s.drop_first())
    } else {
        0
    }
}

/// Number of whitespace characters at the end of `s`.
pub open spec fn trailing_whitespace(s: Seq<char>) -> nat
    decreases s.len(),
{
    if s.len() > 0 && is_whitespace(s.last()) {
        1 + trailing_whitespace(s.drop_last())
    } else {
        0
    }
}

/// `s` without its leading and trailing whitespace.
pub open spec fn trim(s: Seq<char>) -> Seq<char> {
    let rest = s.skip(leading_whitespace(s) as int);
    rest.take(rest.len() - trailing_whitespace(rest))
}

/// The leading whitespace of a text is no longer than the text.
pub proof fn lemma_leading_whitespace_bound(s: Seq<char>)
    ensures
        leading_whitespace(s) <= s.len(),
    decreases s.len(),
{
    if s.len() > 0 && is_whitespace(s[0]) {
        lemma_leading_whitespace_bound(s.drop_first());
    }
}

/// The trailing whitespace of a text is no longer than the text.
pub proof fn lemma_trailing_whitespace_bound(s: Seq<char>)
    ensures
        trailing_whitespace(s) <= s.len(),
    decreases s.len(),
{
    if s.len() > 0 && is_whitespace(s.last()) {
        lemma_trailing_whitespace_bound(s.drop_last());
    }
}

/// The leading whitespace of a text ends at its first character that is not
/// whitespace, or with the text.
pub proof fn lemma_leading_whitespace(s: Seq<char>)
    ensures
        leading_whitespace(s) <= s.len(),
        forall|j: int| 0 <= j < leading_whitespace(s) ==> is_whitespace(#[trigger] s[j]),
        leading_whitespace(s) < s.len() ==> !is_whitespace(s[leading_whitespace(s) as int]),
    decreases s.len(),
{
    if s.len() > 0 && is_whitespace(s[0]) {
        let rest = s.drop_first();
        lemma_leading_whitespace(rest);
        assert forall|j: int| 0 <= j < leading_whitespace(s) implies is_whitespace(
            #[trigger] s[j],
        ) by {
            if j > 0 {
                assert(s[j] == rest[j - 1]);
            }
        }
    }
}

/// The trailing whitespace of a text begins behind its last character that
/// is not whitespace, or with the text.
pub proof fn lemma_trailing_whitespace(s: Seq<char>)
    ensures
        trailing_whitespace(s) <= s.len(),
        forall|j: int|
            s.len() - trailing_whitespace(s) <= j < s.len() ==> is_whitespace(#[trigger] s[j]),
        trailing_whitespace(s) < s.len() ==> !is_whitespace(
            s[s.len() - trailing_whitespace(s) - 1],
        ),
    decreases s.len(),
{
    if s.len() > 0 && is_whitespace(s.last()) {
        let init = s.drop_last();
        lemma_trailing_whitespace(init);
        assert forall|j: int|
            s.len() - trailing_whitespace(s) <= j < s.len() implies is_whitespace(
            #[trigger] s[j],
        ) by {
            if j < s.len() - 1 {
                assert(s[j] == init[j]);
            }
        }
    }
}

/// A run of whitespace at the start of a text that a character follows
/// which is not whitespace is the leading whitespace of the text.
pub proof fn lemma_leading_whitespace_is(s: Seq<char>, n: int)
    requires
        0 <= n <= s.len(),
        forall|j: int| 0 <= j < n ==> is_whitespace(#[trigger] s[j]),
        n < s.len() ==> !is_whitespace(s[n]),
    ensures
        leading_whitespace(s) == n,
{
    lemma_leading_whitespace(s);
    let found = leading_whitespace(s) as int;
    if found < n {
        assert(is_whitespace(s[found]));
    } else if n < found {
        assert(is_whitespace(s[n]));
    }
}

/// A run of whitespace at the end of a text that follows a character which
/// is not whitespace is the trailing whitespace of the text.
pub proof fn lemma_trailing_whitespace_is(s: Seq<char>, n: int)
    requires
        0 <= n <= s.len(),
        forall|j: int| s.len() - n <= j < s.len() ==> is_whitespace(#[trigger] s[j]),
        n < s.len() ==> !is_whitespace(s[s.len() - n - 1]),
    ensures
        trailing_whitespace(s) == n,
{
    lemma_trailing_whitespace(s);
    let found = trailing_whitespace(s) as int;
    if found < n {
        assert(is_whitespace(s[s.len() - found - 1]));
    } else if n < found {
        assert(is_whitespace(s[s.len() - n - 1]));
    }
}

/// A trimmed text is a part of the text, and whitespace neither begins nor
/// ends it.
pub proof fn lemma_trim_is_part(s: Seq<char>)
    ensures
        leading_whitespace(s) + trim(s).len() <= s.len(),
        trim(s) == s.subrange(
            leading_whitespace(s) as int,
            (leading_whitespace(s) + trim(s).len()) as int,
        ),
        trim(s).len() > 0 ==> !is_whitespace(trim(s)[0]) && !is_whitespace(trim(s).last()),
        leading_whitespace(s) > 0 ==> is_whitespace(s[leading_whitespace(s) - 1]),
{
    lemma_leading_whitespace(s);
    let rest = s.skip(leading_whitespace(s) as int);
    lemma_trailing_whitespace(rest);
    assert(trim(s) =~= s.subrange(
        leading_whitespace(s) as int,
        (leading_whitespace(s) + trim(s).len()) as int,
    ));
    if trim(s).len() > 0 {
        assert(trim(s)[0] == s[leading_whitespace(s) as int]);
        assert(trim(s).last() == rest[rest.len() - trailing_whitespace(rest) - 1]);
    }
}

/// Spaces around a text that whitespace neither begins nor ends are trimmed
/// away, and nothing else.
pub proof fn lemma_trim_padded(before: nat, content: Seq<char>, after: nat)
    requires
        content.len() > 0 ==> !is_whitespace(content[0]) && !is_whitespace(content.last()),
    ensures
        trim(repeated(' ', before) + content + repeated(' ', after)) == content,
{
    let padded = repeated(' ', before) + content + repeated(' ', after);
    if content.len() == 0 {
        lemma_leading_whitespace_is(padded, padded.len() as int);
        assert(padded.skip(padded.len() as int) =~= Seq::<char>::empty());
        assert(trim(padded) =~= content);
    } else {
        assert(padded[before as int] == content[0]);
        lemma_leading_whitespace_is(padded, before as int);
        let rest = padded.skip(before as int);
        assert(rest =~= content + repeated(' ', after));
        assert(rest[content.len() - 1] == content.last());
        lemma_trailing_whitespace_is(rest, after as int);
        assert(rest.take(rest.len() - after) =~= content);
    }
}

/// Removes leading and trailing whitespace.
pub fn trim_chars(chars: &Vec<char>) -> (trimmed: Vec<char>)
    ensures
        trimmed@ == trim(chars@),
{
    let n: usize = chars.len();
    let mut start: usize = 0;
    assert(chars@.skip(0) =~= chars@);
    while start < n && char_is_whitespace(chars[start])
        invariant
            n == chars.len(),
            start <= n,
            leading_whitespace(chars@) == start + leading_whitespace(chars@.skip(start as int)),
        decreases n - start,
    {
        proof {
            assert(chars@.skip(start as int).drop_first() =~= chars@.skip(start + 1));
        }
        start += 1;
    }
    let ghost rest = chars@.skip(start as int);
    assert(leading_whitespace(chars@) == start) by {
        if start < n {
            assert(rest[0] == chars@[start as int]);
        }
    }
    let mut end: usize = n;
    assert(rest.take(n - start) =~= rest);
    while end > start && char_is_whitespace(chars[end - 1])
        invariant
            n == chars.len(),
            start <= end <= n,
            rest == chars@.skip(start as int),
            trailing_whitespace(rest) == (n - end) + trailing_whitespace(rest.take(end - start)),
        decreases end - start,
    {
        proof {
            assert(rest.take(end - start).drop_last() =~= rest.take(end - start - 1));
            assert(rest.take(end - start).last() == chars@[end - 1]);
        }
        end -= 1;
    }
    assert(trailing_whitespace(rest) == n - end) by {
        if end > start {
            assert(rest.take(end - start).last() == chars@[end - 1]);
        }
    }
    let mut trimmed: Vec<char> = Vec::new();
    let mut i: usize = start;
    while i < end
        invariant
            start <= i <= end <= n,
            n == chars.len(),
            trimmed@ == chars@.subrange(start as int, i as int),
        decreases end - i,
    {
        trimmed.push(chars[i]);
        proof {
            assert(chars@.subrange(start as int, i as int).push(chars@[i as int])
                =~= chars@.subrange(start as int, i + 1));
        }
        i += 1;
    }
    proof {
        assert(chars@.subrange(start as int, end as int) =~= rest.take(rest.len() - (n - end)));
    }
    trimmed
}

/// `n` copies of the character `c`.
pub open spec fn repeated(c: char, n: nat) -> Seq<char> {
    Seq::new(n, |i: int| c)
}

/// Appends `n` copies of `c` to `out`.
pub fn push_repeated(out: &mut Vec<char>, c: char, n: usize)
    ensures
        final(out)@ == old(out)@ + repeated(c, n as nat),
{
    let mut i: usize = 0;
    assert(out@ =~= old(out)@ + repeated(c, 0));
    while i < n
        invariant
            i <= n,
            out@ == old(out)@ + repeated(c, i as nat),
        decreases n - i,
    {
        out.push(c);
        i += 1;
        assert(out@ =~= old(out)@ + repeated(c, i as nat));
    }
}

/// Appends the characters of `text` to `out`.
pub fn push_str(out: &mut Vec<char>, text: &str)
    ensures
        final(out)@ == old(out)@ + text@,
{
    let chars = to_chars(text);
    let mut i: usize = 0;
    assert(out@ =~= old(out)@ + chars@.take(0));
    while i < chars.len()
        invariant
            i <= chars.len(),
            out@ == old(out)@ + chars@.take(i as int),
        decreases chars.len() - i,
    {
        out.push(chars[i]);
        i += 1;
        assert(out@ =~= old(out)@ + chars@.take(i as int));
    }
    assert(chars@.take(chars.len() as int) =~= chars@);
}

/// The characters of `s` that are not whitespace, in order.
pub open spec fn visible(s: Seq<char>) -> Seq<char> {
    s.filter(|c: char| !is_whitespace(c))
}

/// The visible characters of a text in two parts are those of the first
/// part followed by those of the second.
pub proof fn lemma_visible_concat(a: Seq<char>, b: Seq<char>)
    ensures
        visible(a + b) == visible(a) + visible(b),
{
    Seq::filter_distributes_over_add(a, b, |c: char| !is_whitespace(c));
}

/// Spaces hold no visible character.
pub proof fn lemma_visible_spaces(n: nat)
    ensures
        visible(repeated(' ', n)) == Seq::<char>::empty(),
    decreases n,
{
    reveal(Seq::filter);
    if n > 0 {
        assert(repeated(' ', n).drop_last() =~= repeated(' ', (n - 1) as nat));
        lemma_visible_spaces((n - 1) as nat);
    }
}

/// Whitespace at the start of a text holds no visible character.
pub proof fn lemma_visible_skip_whitespace(s: Seq<char>)
    ensures
        visible(s.skip(leading_whitespace(s) as int)) == visible(s),
    decreases s.len(),
{
    if s.len() > 0 && is_whitespace(s[0]) {
        let rest = s.drop_first();
        lemma_visible_skip_whitespace(rest);
        lemma_leading_whitespace_bound(rest);
        assert(s.skip(leading_whitespace(s) as int) =~= rest.skip(leading_whitespace(rest) as int));
        assert(s =~= seq![s[0]] + rest);
        lemma_visible_concat(seq![s[0]], rest);
        reveal_with_fuel(Seq::filter, 3);
        assert(seq![s[0]].drop_last() =~= Seq::<char>::empty());
        assert(visible(seq![s[0]]) =~= Seq::<char>::empty());
        assert(visible(s) =~= visible(rest));
    } else {
        assert(s.skip(0) =~= s);
    }
}

/// Whitespace at the end of a text holds no visible character.
pub proof fn lemma_visible_drop_whitespace(s: Seq<char>)
    ensures
        visible(s.take(s.len() - trailing_whitespace(s))) == visible(s),
    decreases s.len(),
{
    reveal(Seq::filter);
    if s.len() > 0 && is_whitespace(s.last()) {
        let init = s.drop_last();
        lemma_visible_drop_whitespace(init);
        lemma_trailing_whitespace_bound(init);
        assert(s.take(s.len() - trailing_whitespace(s)) =~= init.take(
            init.len() - trailing_whitespace(init),
        ));
    } else {
        assert(s.take(s.len() as int) =~= s);
    }
}

/// Trimming removes whitespace only: the visible characters of a text and
/// of the trimmed text are the same, in the same order.
pub proof fn lemma_trim_keeps_visible(s: Seq<char>)
    ensures
        visible(trim(s)) == visible(s),
{
    lemma_visible_skip_whitespace(s);
    lemma_visible_drop_whitespace(s.skip(leading_whitespace(s) as int));
}

/// The text of each string.
pub open spec fn string_views(parts: Seq<String>) -> Seq<Seq<char>> {
    Seq::new(parts.len(), |k: int| parts[k]@)
}

/// Appending a string appends its text.
pub proof fn lemma_string_views_push(parts: Seq<String>, part: String)
    ensures
        string_views(parts.push(part)) == string_views(parts).push(part@),
{
    assert(string_views(parts.push(part)) =~= string_views(parts).push(part@));
}

/// The parts in order, with `sep` between every two neighbours.
pub open spec fn join(parts: Seq<Seq<char>>, sep: Seq<char>) -> Seq<char>
    decreases parts.len(),
{
    if parts.len() == 0 {
        Seq::<char>::empty()
    } else if parts.len() == 1 {
        parts[0]
    } else {
        join(parts.drop_last(), sep) + sep + parts.last()
    }
}

/// Parts with the same visible characters, joined by the same separator,
/// give texts with the same visible characters.
pub proof fn lemma_visible_join(a: Seq<Seq<char>>, b: Seq<Seq<char>>, sep: Seq<char>)
    requires
        a.len() == b.len(),
        forall|k: int| 0 <= k < a.len() ==> visible(#[trigger] a[k]) == visible(b[k]),
    ensures
        visible(join(a, sep)) == visible(join(b, sep)),
    decreases a.len(),
{
    if a.len() == 1 {
        assert(visible(a[0]) == visible(b[0]));
    } else if a.len() >= 2 {
        let a_init = a.drop_last();
        let b_init = b.drop_last();
        assert forall|k: int| 0 <= k < a_init.len() implies visible(#[trigger] a_init[k])
            == visible(b_init[k]) by {
            assert(visible(a[k]) == visible(b[k]));
        }
        lemma_visible_join(a_init, b_init, sep);
        assert(visible(a[a.len() - 1]) == visible(b[a.len() - 1]));
        lemma_visible_concat(join(a_init, sep), sep);
        lemma_visible_concat(join(a_init, sep) + sep, a.last());
        lemma_visible_concat(join(b_init, sep), sep);
        lemma_visible_concat(join(b_init, sep) + sep, b.last());
    }
}

/// Concatenates `parts`, placing `sep` between every two of them.
pub fn join_strings(parts: &Vec<String>, sep: &str) -> (joined: String)
    ensures
        joined@ == join(string_views(parts@), sep@),
{
    let mut joined = String::new();
    let mut i: usize = 0;
    assert(string_views(parts@).take(0) =~= Seq::<Seq<char>>::empty());
    while i < parts.len()
        invariant
            i <= parts.len(),
            joined@ == join(string_views(parts@).take(i as int), sep@),
        decreases parts.len() - i,
    {
        let ghost before = string_views(parts@).take(i as int);
        let ghost after = string_views(parts@).take(i + 1);
        proof {
            assert(after.drop_last() =~= before);
            assert(after.last() == parts@[i as int]@);
        }
        if i > 0 {
            joined.append(sep);
        }
        joined.append(parts[i].as_str());
        proof {
            if i == 0 {
                assert(joined@ =~= after[0]);
            }
        }
        i += 1;
    }
    assert(string_views(parts@).take(parts.len() as int) =~= string_views(parts@));
    joined
}

} // verus!

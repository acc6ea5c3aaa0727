//! Text as sequences of characters: searching, comparing and splitting.
//!
//! Specifications speak of `Seq<char>`; the executable functions work on
//! character slices, and `chars_of` / `string_of` convert from and to strings.

use vstd::prelude::*;
use vstd::slice::slice_subrange;

verus! {

// Strings and characters

/// Taken on trust from the documentation of `String::push`: the string
/// afterwards is the string before with the character at its end.
pub assume_specification[ String::push ](s: &mut String, c: char)
    ensures
        final(s)@ == old(s)@.push(c),
;

/// The characters of a string, in order.
pub fn chars_of(s: &str) -> (out: Vec<char>)
    ensures
        out@ == s@,
{
    let mut out: Vec<char> = Vec::new();
    for c in it: s.chars()
        invariant
            out@ == it.seq().take(it.index()),
            it.seq() == s@,
    {
        out.push(c);
    }
    out
}

/// The string made of the given characters, in order.
pub fn string_of(chars: &[char]) -> (out: String)
    ensures
        out@ == chars@,
{
    let mut out = String::new();
    let mut i: usize = 0;
    while i < chars.len()
        invariant
            i <= chars.len(),
            out@ == chars@.take(i as int),
        decreases chars.len() - i,
    {
        out.push(chars[i]);
        i += 1;
    }
    out
}

/// The views of a list of character buffers, in order.
pub open spec fn views(v: Seq<Vec<char>>) -> Seq<Seq<char>> {
    v.map_values(|x: Vec<char>| x@)
}

/// The views of a list of strings, in order.
pub open spec fn string_views(v: Seq<String>) -> Seq<Seq<char>> {
    v.map_values(|s: String| s@)
}

/// Turns each buffer of characters into a string.
pub fn strings_of(parts: &Vec<Vec<char>>) -> (out: Vec<String>)
    ensures
        string_views(out@) == views(parts@),
{
    let mut out: Vec<String> = Vec::new();
    let mut i: usize = 0;
    while i < parts.len()
        invariant
            i <= parts.len(),
            string_views(out@) == views(parts@).take(i as int),
        decreases parts.len() - i,
    {
        let s = string_of(&parts[i]);
        proof {
            let before = string_views(out@);
            assert(string_views(out@.push(s)) =~= before.push(s@));
            assert(before.push(s@) =~= views(parts@).take(i + 1));
        }
        out.push(s);
        i += 1;
    }
    assert(views(parts@).take(i as int) =~= views(parts@));
    out
}

/// A copy of the characters of `s` from `from` up to, not including, `to`.
pub fn copy_range(s: &[char], from: usize, to: usize) -> (out: Vec<char>)
    requires
        from <= to <= s.len(),
    ensures
        out@ == s@.subrange(from as int, to as int),
{
    let mut out: Vec<char> = Vec::new();
    let mut i: usize = from;
    while i < to
        invariant
            from <= i <= to <= s.len(),
            out@ == s@.subrange(from as int, i as int),
        decreases to - i,
    {
        out.push(s[i]);
        i += 1;
    }
    out
}

/// Appends the items of `more` to `out`.
pub fn push_all<T: Copy>(out: &mut Vec<T>, more: &[T])
    ensures
        final(out)@ == old(out)@ + more@,
{
    let mut i: usize = 0;
    assert(out@ =~= old(out)@ + more@.take(0));
    while i < more.len()
        invariant
            i <= more.len(),
            out@ == old(out)@ + more@.take(i as int),
        decreases more.len() - i,
    {
        assert((old(out)@ + more@.take(i as int)).push(more@[i as int]) =~= old(out)@ + more@.take(
            i + 1,
        ));
        out.push(more[i]);
        i += 1;
    }
    assert(more@.take(i as int) =~= more@);
}

// Searching and comparing

/// The number of characters of `s` that stand before its first `c`,
/// or the length of `s` where it holds no `c`.
pub open spec fn first_index(s: Seq<char>, c: char) -> nat
    decreases s.len(),
{
    if s.len() == 0 || s[0] == c {
        0
    } else {
        1 + first_index(s.skip(1), c)
    }
}

/// `first_index` stays within `s`, nothing before it is `c`, and where it is
/// inside `s` it points at a `c`.
pub proof fn lemma_first_index(s: Seq<char>, c: char)
    ensures
        first_index(s, c) <= s.len(),
        forall|j: int| 0 <= j < first_index(s, c) ==> s[j] != c,
        first_index(s, c) < s.len() ==> s[first_index(s, c) as int] == c,
        first_index(s, c) < s.len() <==> s.contains(c),
    decreases s.len(),
{
    if s.len() == 0 || s[0] == c {
    } else {
        let t = s.skip(1);
        lemma_first_index(t, c);
        assert forall|j: int| 0 <= j < first_index(s, c) implies s[j] != c by {
            if j > 0 {
                assert(s[j] == t[j - 1]);
            }
        }
        if first_index(s, c) < s.len() {
            assert(s[first_index(s, c) as int] == t[first_index(t, c) as int]);
        }
        if s.contains(c) {
            let k = choose|k: int| 0 <= k < s.len() && s[k] == c;
            assert(t[k - 1] == c);
            assert(t.contains(c));
        }
    }
}

/// The index of the first `c` in `s` at or after `from`, or the length of `s`
/// where none follows.
pub fn find_char(s: &[char], from: usize, c: char) -> (at: usize)
    requires
        from <= s.len(),
    ensures
        from <= at <= s.len(),
        at - from == first_index(s@.skip(from as int), c),
{
    let mut i: usize = from;
    while i < s.len() && s[i] != c
        invariant
            from <= i <= s.len(),
            first_index(s@.skip(from as int), c) == (i - from) + first_index(s@.skip(i as int), c),
        decreases s.len() - i,
    {
        proof {
            assert(s@.skip(i as int).skip(1) =~= s@.skip(i + 1));
        }
        i += 1;
    }
    assert(first_index(s@.skip(i as int), c) == 0);
    i
}

/// The index just behind `prefix` where `s` begins with it, else nothing.
pub fn prefix_end(s: &[char], prefix: &str) -> (end: Option<usize>)
    ensures
        end is Some == prefix@.is_prefix_of(s@),
        end is Some ==> end->0 == prefix@.len(),
{
    let mut i: usize = 0;
    for c in it: prefix.chars()
        invariant
            it.seq() == prefix@,
            i == it.index(),
            i <= s.len(),
            forall|j: int| 0 <= j < i ==> s@[j] == prefix@[j],
    {
        if i >= s.len() || s[i] != c {
            assert(!prefix@.is_prefix_of(s@)) by {
                if prefix@.is_prefix_of(s@) {
                    assert(prefix@[i as int] == s@.subrange(0, prefix@.len() as int)[i as int]);
                }
            }
            return None;
        }
        i += 1;
    }
    assert(prefix@ =~= s@.subrange(0, prefix@.len() as int));
    Some(i)
}

/// Whether `s` begins with the characters of `prefix`.
pub fn starts_with(s: &[char], prefix: &str) -> (yes: bool)
    ensures
        yes == prefix@.is_prefix_of(s@),
{
    prefix_end(s, prefix).is_some()
}

/// Whether `s` ends with the characters of `suffix`.
pub fn ends_with(s: &[char], suffix: &str) -> (yes: bool)
    ensures
        yes == suffix@.is_suffix_of(s@),
{
    let k = suffix.unicode_len();
    if k > s.len() {
        return false;
    }
    let tail = slice_subrange(s, s.len() - k, s.len());
    let yes = starts_with(tail, suffix);
    assert(tail@.subrange(0, k as int) =~= tail@);
    yes
}

/// Whether `s` holds exactly the characters of `other`.
pub fn same_text(s: &[char], other: &str) -> (yes: bool)
    ensures
        yes == (s@ == other@),
{
    let yes = starts_with(s, other);
    let k = other.unicode_len();
    assert(s@.subrange(0, s@.len() as int) =~= s@);
    yes && s.len() == k
}

/// Whether `pattern` stands in `s` at index `at`.
pub fn matches_at(s: &[char], at: usize, pattern: &[char]) -> (yes: bool)
    requires
        at <= s.len(),
    ensures
        yes == pattern@.is_prefix_of(s@.skip(at as int)),
{
    if pattern.len() > s.len() - at {
        return false;
    }
    let ghost rest = s@.skip(at as int);
    let mut i: usize = 0;
    while i < pattern.len()
        invariant
            at <= s.len(),
            pattern.len() <= s.len() - at,
            i <= pattern.len(),
            rest == s@.skip(at as int),
            forall|j: int| 0 <= j < i ==> pattern@[j] == rest[j],
        decreases pattern.len() - i,
    {
        if s[at + i] != pattern[i] {
            assert(!pattern@.is_prefix_of(rest)) by {
                if pattern@.is_prefix_of(rest) {
                    assert(pattern@[i as int] == rest.subrange(0, pattern@.len() as int)[i as int]);
                }
            }
            return false;
        }
        i += 1;
    }
    assert(pattern@ =~= rest.subrange(0, pattern@.len() as int));
    true
}

// Lines

/// `s` without its last character where that is a carriage return.
pub open spec fn without_cr(s: Seq<char>) -> Seq<char> {
    if s.len() > 0 && s.last() == '\r' {
        s.drop_last()
    } else {
        s
    }
}

/// The lines of `s`. A line ends at a line feed, which is left out together
/// with a carriage return that stands directly before it. What follows the
/// last line feed is a line of its own unless it is empty, and it keeps a
/// carriage return at its end.
pub open spec fn lines(s: Seq<char>) -> Seq<Seq<char>>
    decreases s.len(),
{
    let n = first_index(s, '\n');
    if s.len() == 0 {
        Seq::empty()
    } else if n >= s.len() {
        seq![s]
    } else {
        seq![without_cr(s.take(n as int))] + lines(s.skip(n as int + 1))
    }
}

/// Splits `s` into its lines.
pub fn split_lines(s: &[char]) -> (out: Vec<Vec<char>>)
    ensures
        views(out@) == lines(s@),
{
    let mut out: Vec<Vec<char>> = Vec::new();
    let mut start: usize = 0;
    proof {
        assert(s@.skip(0) =~= s@);
        assert(views(out@) + lines(s@) =~= lines(s@));
    }
    while start < s.len()
        invariant
            start <= s.len(),
            views(out@) + lines(s@.skip(start as int)) == lines(s@),
        decreases s.len() - start,
    {
        let end = find_char(s, start, '\n');
        let ghost rest = s@.skip(start as int);
        let ghost before = views(out@);
        if end < s.len() {
            let stop = if end > start && s[end - 1] == '\r' {
                end - 1
            } else {
                end
            };
            let line = copy_range(s, start, stop);
            proof {
                assert(rest.take(end - start) =~= s@.subrange(start as int, end as int));
                assert(rest.skip(end - start + 1) =~= s@.skip(end + 1));
                assert(line@ =~= without_cr(s@.subrange(start as int, end as int)));
                assert(views(out@.push(line)) =~= before.push(line@));
                assert(before.push(line@) + lines(s@.skip(end + 1)) =~= before + lines(rest));
            }
            out.push(line);
            start = end + 1;
        } else {
            let line = copy_range(s, start, end);
            proof {
                assert(line@ =~= rest);
                assert(views(out@.push(line)) =~= before.push(line@));
                assert(lines(s@.skip(end as int)) =~= Seq::<Seq<char>>::empty());
                assert(before.push(line@) + lines(s@.skip(end as int)) =~= before + lines(rest));
            }
            out.push(line);
            start = end;
        }
    }
    assert(views(out@) + lines(s@.skip(start as int)) =~= views(out@));
    out
}

// Pieces between separators

/// The pieces of `s` between occurrences of `sep`, empty ones included: one
/// more piece than `s` holds separators.
pub open spec fn pieces(s: Seq<char>, sep: char) -> Seq<Seq<char>>
    decreases s.len(),
{
    let n = first_index(s, sep);
    if n >= s.len() {
        seq![s]
    } else {
        seq![s.take(n as int)] + pieces(s.skip(n as int + 1), sep)
    }
}

/// Splits `s` at every `sep`.
pub fn split_at(s: &[char], sep: char) -> (out: Vec<Vec<char>>)
    ensures
        views(out@) == pieces(s@, sep),
{
    let mut out: Vec<Vec<char>> = Vec::new();
    let mut start: usize = 0;
    proof {
        assert(s@.skip(0) =~= s@);
        assert(views(out@) + pieces(s@, sep) =~= pieces(s@, sep));
    }
    loop
        invariant_except_break
            start <= s.len(),
            views(out@) + pieces(s@.skip(start as int), sep) == pieces(s@, sep),
        ensures
            views(out@) == pieces(s@, sep),
        decreases s.len() - start,
    {
        let end = find_char(s, start, sep);
        let piece = copy_range(s, start, end);
        let ghost rest = s@.skip(start as int);
        let ghost before = views(out@);
        proof {
            assert(rest.take(end - start) =~= s@.subrange(start as int, end as int));
            assert(views(out@.push(piece)) =~= before.push(piece@));
        }
        out.push(piece);
        if end < s.len() {
            proof {
                assert(rest.skip(end - start + 1) =~= s@.skip(end + 1));
                assert(before.push(piece@) + pieces(s@.skip(end + 1), sep) =~= before + pieces(
                    rest,
                    sep,
                ));
            }
            start = end + 1;
        } else {
            proof {
                assert(piece@ =~= rest);
                assert(before.push(piece@) =~= before + pieces(rest, sep));
            }
            break ;
        }
    }
    out
}

/// What follows the last `c` in `s`; all of `s` where it holds no `c`.
pub open spec fn after_last(s: Seq<char>, c: char) -> Seq<char>
    decreases s.len(),
{
    if s.len() == 0 || s.last() == c {
        Seq::empty()
    } else {
        after_last(s.drop_last(), c).push(s.last())
    }
}

/// The index at which the part of `s` behind its last `c` begins: 0 where `s`
/// holds no `c`.
pub fn last_part_start(s: &[char], c: char) -> (at: usize)
    ensures
        at <= s.len(),
        s@.skip(at as int) == after_last(s@, c),
{
    let mut i: usize = s.len();
    assert(s@.take(i as int) =~= s@);
    while i > 0 && s[i - 1] != c
        invariant
            i <= s.len(),
            after_last(s@, c) == after_last(s@.take(i as int), c) + s@.skip(i as int),
        decreases i,
    {
        proof {
            let head = s@.take(i as int);
            assert(head.drop_last() =~= s@.take(i - 1));
            assert(after_last(head.drop_last(), c).push(head.last()) + s@.skip(i as int)
                =~= after_last(s@.take(i - 1), c) + s@.skip(i - 1));
        }
        i -= 1;
    }
    assert(after_last(s@.take(i as int), c) =~= Seq::<char>::empty());
    assert(Seq::<char>::empty() + s@.skip(i as int) =~= s@.skip(i as int));
    i
}

/// A text that holds no `c` is all behind its last `c`.
pub proof fn lemma_after_last_without(s: Seq<char>, c: char)
    requires
        !s.contains(c),
    ensures
        after_last(s, c) == s,
    decreases s.len(),
{
    if s.len() > 0 {
        assert(s.contains(s.last()));
        let front = s.drop_last();
        assert(!front.contains(c)) by {
            if front.contains(c) {
                let k = choose|k: int| 0 <= k < front.len() && front[k] == c;
                assert(s[k] == c);
            }
        }
        lemma_after_last_without(front, c);
        assert(front.push(s.last()) =~= s);
    }
}

/// What is behind the last `c` of a text is behind the last `c` of every
/// part of it that begins right behind a `c`.
pub proof fn lemma_after_last_skips(s: Seq<char>, c: char, i: int)
    requires
        0 <= i < s.len(),
        s[i] == c,
    ensures
        after_last(s, c) == after_last(s.skip(i + 1), c),
    decreases s.len(),
{
    let rest = s.skip(i + 1);
    if s.last() == c {
        if rest.len() > 0 {
            assert(rest.last() == s.last());
        }
    } else {
        assert(rest.len() > 0);
        assert(rest.last() == s.last());
        assert(rest.drop_last() =~= s.drop_last().skip(i + 1));
        lemma_after_last_skips(s.drop_last(), c, i);
    }
}

/// What is behind the last separator is the last of the pieces.
pub proof fn lemma_after_last_is_last_piece(s: Seq<char>, sep: char)
    ensures
        pieces(s, sep).len() > 0,
        after_last(s, sep) == pieces(s, sep).last(),
    decreases s.len(),
{
    lemma_first_index(s, sep);
    let n = first_index(s, sep) as int;
    if n >= s.len() {
        lemma_after_last_without(s, sep);
    } else {
        lemma_after_last_is_last_piece(s.skip(n + 1), sep);
        lemma_after_last_skips(s, sep, n);
    }
}

// Words

/// The characters that separate words: space, tab, line feed, form feed and
/// carriage return.
pub open spec fn is_space(c: char) -> bool {
    c == ' ' || c == '\t' || c == '\n' || c == '\x0C' || c == '\r'
}

/// Whether `c` separates words.
pub fn separates_words(c: char) -> (yes: bool)
    ensures
        yes == is_space(c),
{
    c == ' ' || c == '\t' || c == '\n' || c == '\x0C' || c == '\r'
}

/// The length of the longest prefix of `s` that holds no white space.
pub open spec fn word_len(s: Seq<char>) -> nat
    decreases s.len(),
{
    if s.len() == 0 || is_space(s[0]) {
        0
    } else {
        1 + word_len(s.skip(1))
    }
}

/// A word never reaches beyond the text it stands in.
pub proof fn lemma_word_len(s: Seq<char>)
    ensures
        word_len(s) <= s.len(),
        s.len() > 0 && !is_space(s[0]) ==> word_len(s) > 0,
    decreases s.len(),
{
    if s.len() > 0 && !is_space(s[0]) {
        lemma_word_len(s.skip(1));
    }
}

/// The index just behind the word that begins at `from`.
pub fn word_end(s: &[char], from: usize) -> (at: usize)
    requires
        from <= s.len(),
    ensures
        from <= at <= s.len(),
        at - from == word_len(s@.skip(from as int)),
{
    let mut i: usize = from;
    while i < s.len() && !separates_words(s[i])
        invariant
            from <= i <= s.len(),
            word_len(s@.skip(from as int)) == (i - from) + word_len(s@.skip(i as int)),
        decreases s.len() - i,
    {
        proof {
            assert(s@.skip(i as int).skip(1) =~= s@.skip(i + 1));
        }
        i += 1;
    }
    assert(word_len(s@.skip(i as int)) == 0);
    i
}

/// The words of `s`: its longest runs of characters other than white space,
/// in order. No word is empty.
pub open spec fn words(s: Seq<char>) -> Seq<Seq<char>>
    decreases s.len(),
{
    if s.len() == 0 {
        Seq::empty()
    } else if is_space(s[0]) {
        words(s.skip(1))
    } else {
        proof {
            lemma_word_len(s);
        }
        let n = word_len(s);
        seq![s.take(n as int)] + words(s.skip(n as int))
    }
}

/// Splits `s` into its words.
pub fn split_words(s: &[char]) -> (out: Vec<Vec<char>>)
    ensures
        views(out@) == words(s@),
{
    let mut out: Vec<Vec<char>> = Vec::new();
    let mut start: usize = 0;
    proof {
        assert(s@.skip(0) =~= s@);
        assert(views(out@) + words(s@) =~= words(s@));
    }
    while start < s.len()
        invariant
            start <= s.len(),
            views(out@) + words(s@.skip(start as int)) == words(s@),
        decreases s.len() - start,
    {
        let ghost rest = s@.skip(start as int);
        if separates_words(s[start]) {
            proof {
                assert(rest.skip(1) =~= s@.skip(start + 1));
            }
            start += 1;
        } else {
            let end = word_end(s, start);
            let word = copy_range(s, start, end);
            let ghost before = views(out@);
            proof {
                lemma_word_len(rest);
                assert(rest.take(end - start) =~= s@.subrange(start as int, end as int));
                assert(rest.skip(end - start) =~= s@.skip(end as int));
                assert(views(out@.push(word)) =~= before.push(word@));
                assert(before.push(word@) + words(s@.skip(end as int)) =~= before + words(rest));
            }
            out.push(word);
            start = end;
        }
    }
    assert(views(out@) + words(s@.skip(start as int)) =~= views(out@));
    out
}

// Replacing

/// `s` with every occurrence of `pattern` replaced by `with`. Occurrences are
/// found from the left and do not overlap. An empty pattern occurs nowhere.
pub open spec fn replaced(s: Seq<char>, pattern: Seq<char>, with: Seq<char>) -> Seq<char>
    decreases s.len(),
{
    if s.len() == 0 || pattern.len() == 0 {
        s
    } else if pattern.is_prefix_of(s) {
        with + replaced(s.skip(pattern.len() as int), pattern, with)
    } else {
        seq![s[0]] + replaced(s.skip(1), pattern, with)
    }
}

/// Replaces every occurrence of `pattern` in `s` by `with`.
pub fn replace_all(s: &[char], pattern: &[char], with: &[char]) -> (out: Vec<char>)
    ensures
        out@ == replaced(s@, pattern@, with@),
{
    let mut out: Vec<char> = Vec::new();
    if pattern.len() == 0 {
        push_all(&mut out, s);
        assert(Seq::<char>::empty() + s@ =~= s@);
        return out;
    }
    let mut i: usize = 0;
    assert(s@.skip(0) =~= s@);
    assert(out@ + replaced(s@, pattern@, with@) =~= replaced(s@, pattern@, with@));
    while i < s.len()
        invariant
            i <= s.len(),
            pattern.len() > 0,
            out@ + replaced(s@.skip(i as int), pattern@, with@) == replaced(s@, pattern@, with@),
        decreases s.len() - i,
    {
        let ghost rest = s@.skip(i as int);
        let ghost before = out@;
        if matches_at(s, i, pattern) {
            push_all(&mut out, with);
            proof {
                assert(rest.skip(pattern@.len() as int) =~= s@.skip(i + pattern@.len()));
                assert((before + with@) + replaced(s@.skip(i + pattern@.len()), pattern@, with@)
                    =~= before + replaced(rest, pattern@, with@));
            }
            i += pattern.len();
        } else {
            out.push(s[i]);
            proof {
                assert(rest.skip(1) =~= s@.skip(i + 1));
                assert(before.push(s@[i as int]) + replaced(s@.skip(i + 1), pattern@, with@)
                    =~= before + replaced(rest, pattern@, with@));
            }
            i += 1;
        }
    }
    assert(out@ + replaced(s@.skip(i as int), pattern@, with@) =~= out@);
    out
}

// Occurrences

/// Whether `needle` stands somewhere in `s`.
pub open spec fn occurs_in(needle: Seq<char>, s: Seq<char>) -> bool {
    exists|i: int| 0 <= i <= s.len() && needle.is_prefix_of(#[trigger] s.skip(i))
}

/// Every text stands in itself.
pub proof fn lemma_occurs_in_self(s: Seq<char>)
    ensures
        occurs_in(s, s),
{
    assert(s.skip(0) =~= s);
    assert(s =~= s.subrange(0, s.len() as int));
    assert(s.is_prefix_of(s.skip(0)));
}

/// What stands in a part of a text stands in the text.
pub proof fn lemma_occurs_in_part(needle: Seq<char>, before: Seq<char>, s: Seq<char>, after: Seq<char>)
    requires
        occurs_in(needle, s),
    ensures
        occurs_in(needle, before + s + after),
{
    let i = choose|i: int| 0 <= i <= s.len() && needle.is_prefix_of(#[trigger] s.skip(i));
    let whole = before + s + after;
    let at = before.len() + i;
    assert(needle =~= whole.skip(at).subrange(0, needle.len() as int)) by {
        assert(needle =~= s.skip(i).subrange(0, needle.len() as int));
    }
    assert(needle.is_prefix_of(whole.skip(at)));
}

/// Standing in a text carries over: what stands in `b` stands in every text
/// that `b` stands in.
pub proof fn lemma_occurs_in_chain(a: Seq<char>, b: Seq<char>, c: Seq<char>)
    requires
        occurs_in(a, b),
        occurs_in(b, c),
    ensures
        occurs_in(a, c),
{
    let j = choose|j: int| 0 <= j <= c.len() && b.is_prefix_of(#[trigger] c.skip(j));
    let before = c.take(j);
    let after = c.skip(j + b.len());
    assert(b =~= c.skip(j).subrange(0, b.len() as int));
    assert(c =~= before + b + after);
    lemma_occurs_in_part(a, before, b, after);
}

/// Where the pattern stands in a text, its replacement stands in the result
/// of replacing.
pub proof fn lemma_replaced_shows_replacement(s: Seq<char>, pattern: Seq<char>, with: Seq<char>)
    requires
        pattern.len() > 0,
        occurs_in(pattern, s),
    ensures
        occurs_in(with, replaced(s, pattern, with)),
    decreases s.len(),
{
    let i = choose|i: int| 0 <= i <= s.len() && pattern.is_prefix_of(#[trigger] s.skip(i));
    assert(s.len() > 0);
    if pattern.is_prefix_of(s) {
        let rest = replaced(s.skip(pattern.len() as int), pattern, with);
        assert((with + rest).skip(0) =~= with + rest);
        assert(with =~= (with + rest).subrange(0, with.len() as int));
        assert(with.is_prefix_of((with + rest).skip(0)));
    } else {
        assert(i > 0) by {
            if i == 0 {
                assert(s.skip(0) =~= s);
            }
        }
        assert(s.skip(1).skip(i - 1) =~= s.skip(i));
        lemma_replaced_shows_replacement(s.skip(1), pattern, with);
        let rest = replaced(s.skip(1), pattern, with);
        lemma_occurs_in_part(with, seq![s[0]], rest, Seq::empty());
        assert(seq![s[0]] + rest + Seq::<char>::empty() =~= seq![s[0]] + rest);
    }
}

} // verus!

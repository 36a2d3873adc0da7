//! Lines, words and other parts of text, as sequences of characters.
use vstd::prelude::*;
use vstd::slice::slice_subrange;

verus! {

/// Whether `s` begins with `prefix`.
pub open spec fn starts_with(s: Seq<char>, prefix: Seq<char>) -> bool {
    prefix.len() <= s.len() && s.take(prefix.len() as int) == prefix
}

/// Whether `pattern` occurs in `s`.
pub open spec fn contains(s: Seq<char>, pattern: Seq<char>) -> bool {
    exists|k: int| 0 <= k <= s.len() && starts_with(#[trigger] s.skip(k), pattern)
}

/// The number of characters before the first line feed.
pub open spec fn line_len(s: Seq<char>) -> nat
    decreases s.len(),
{
    if s.len() == 0 || s[0] == '\n' {
        0
    } else {
        1 + line_len(s.skip(1))
    }
}

/// `s` without a carriage return at its end.
pub open spec fn strip_return(s: Seq<char>) -> Seq<char> {
    if s.len() > 0 && s.last() == '\r' {
        s.drop_last()
    } else {
        s
    }
}

/// The first line of `s`, without its line ending: a line feed, or a carriage
/// return and a line feed. At the end of the text a line needs no ending.
pub open spec fn first_line(s: Seq<char>) -> Seq<char> {
    let k = line_len(s);
    if k < s.len() {
        strip_return(s.take(k as int))
    } else {
        s
    }
}

/// What follows the first line and its ending.
pub open spec fn after_line(s: Seq<char>) -> Seq<char> {
    let k = line_len(s);
    if k < s.len() {
        s.skip(k as int + 1)
    } else {
        Seq::empty()
    }
}

/// The lines of `s`.
pub open spec fn lines(s: Seq<char>) -> Seq<Seq<char>>
    decreases s.len(),
{
    if s.len() == 0 {
        Seq::empty()
    } else {
        seq![first_line(s)] + lines(after_line(s))
    }
}

/// Whether a character is white space by its Unicode property.
pub open spec fn is_white_space(c: char) -> bool {
    let n = c as u32;
    ||| 0x9 <= n <= 0xd
    ||| n == 0x20
    ||| n == 0x85
    ||| n == 0xa0
    ||| n == 0x1680
    ||| 0x2000 <= n <= 0x200a
    ||| n == 0x2028
    ||| n == 0x2029
    ||| n == 0x202f
    ||| n == 0x205f
    ||| n == 0x3000
}

/// The number of characters before the first white space.
pub open spec fn word_len(s: Seq<char>) -> nat
    decreases s.len(),
{
    if s.len() == 0 || is_white_space(s[0]) {
        0
    } else {
        1 + word_len(s.skip(1))
    }
}

/// A word ends within its text.
pub proof fn lemma_word_len_bound(s: Seq<char>)
    ensures
        word_len(s) <= s.len(),
    decreases s.len(),
{
    if s.len() > 0 && !is_white_space(s[0]) {
        lemma_word_len_bound(s.skip(1));
    }
}

/// The words of `s`: what white space separates.
pub open spec fn words(s: Seq<char>) -> Seq<Seq<char>>
    decreases s.len(),
{
    if s.len() == 0 {
        Seq::empty()
    } else if is_white_space(s[0]) {
        words(s.skip(1))
    } else {
        proof {
            lemma_word_len_bound(s);
        }
        seq![s.take(word_len(s) as int)] + words(s.skip(word_len(s) as int))
    }
}

/// `s` without the double quotes at its start.
pub open spec fn trim_quotes_start(s: Seq<char>) -> Seq<char>
    decreases s.len(),
{
    if s.len() > 0 && s[0] == '"' {
        trim_quotes_start(s.skip(1))
    } else {
        s
    }
}

/// `s` without the double quotes at its end.
pub open spec fn trim_quotes_end(s: Seq<char>) -> Seq<char>
    decreases s.len(),
{
    if s.len() > 0 && s.last() == '"' {
        trim_quotes_end(s.drop_last())
    } else {
        s
    }
}

/// `s` without the double quotes at either end.
pub open spec fn trim_quotes(s: Seq<char>) -> Seq<char> {
    trim_quotes_end(trim_quotes_start(s))
}

/// The decimal digits of `n`.
pub open spec fn decimal(n: nat) -> Seq<char>
    decreases n,
{
    if n < 10 {
        seq![('0' as u8 + n) as char]
    } else {
        decimal(n / 10).push(('0' as u8 + n % 10) as char)
    }
}

/// The characters of each string.
pub open spec fn views(strings: Seq<String>) -> Seq<Seq<char>> {
    Seq::new(strings.len(), |i: int| strings[i]@)
}

/// Text behind a line feed does not change the lines before it.
proof fn lemma_line_len_of_join(a: Seq<char>, b: Seq<char>)
    requires
        a.len() > 0,
        a.last() == '\n',
    ensures
        line_len(a) < a.len(),
        line_len(a + b) == line_len(a),
    decreases a.len(),
{
    if a[0] != '\n' {
        lemma_line_len_of_join(a.skip(1), b);
        assert((a + b).skip(1) =~= a.skip(1) + b);
    }
}

/// The lines of two texts, the first of which is empty or ends in a line feed,
/// are the lines of the text that joins them.
pub proof fn lemma_lines_join(a: Seq<char>, b: Seq<char>)
    requires
        a.len() > 0 ==> a.last() == '\n',
    ensures
        lines(a + b) == lines(a) + lines(b),
    decreases a.len(),
{
    if a.len() == 0 {
        assert(a + b =~= b);
        assert(lines(a) + lines(b) =~= lines(b));
    } else {
        lemma_line_len_of_join(a, b);
        let k = line_len(a) as int;
        assert((a + b).take(k) =~= a.take(k));
        assert((a + b).skip(k + 1) =~= a.skip(k + 1) + b);
        if a.skip(k + 1).len() > 0 {
            assert(a.skip(k + 1).last() == a.last());
        }
        lemma_lines_join(a.skip(k + 1), b);
        assert(lines(a + b) =~= lines(a) + lines(b));
    }
}

/// The lower case form of a text, by the Unicode rules of the standard
/// library.
pub uninterp spec fn lowercase(s: Seq<char>) -> Seq<char>;

/// `str::to_lowercase` returns the lower case form of the text, which depends
/// on the text alone.
pub assume_specification[ str::to_lowercase ](s: &str) -> (lowered: String)
    ensures
        lowered@ == lowercase(s@),
;

/// `String::push` appends one character.
pub assume_specification[ String::push ](s: &mut String, c: char)
    ensures
        final(s)@ == old(s)@.push(c),
;

/// The characters of a text.
pub fn chars_of(s: &str) -> (chars: Vec<char>)
    ensures
        chars@ == s@,
{
    let mut chars: Vec<char> = Vec::new();
    for c in iter: s.chars()
        invariant
            iter.seq() == s@,
            chars@ == s@.take(iter.index() as int),
    {
        chars.push(c);
        assert(chars@ =~= s@.take(iter.index() + 1));
    }
    assert(s@.take(s@.len() as int) =~= s@);
    chars
}

/// Appends characters to a string.
pub fn push_chars(s: &mut String, chars: &[char])
    ensures
        final(s)@ == old(s)@ + chars@,
{
    let mut i: usize = 0;
    assert(s@ =~= old(s)@ + chars@.take(0));
    while i < chars.len()
        invariant
            i <= chars@.len(),
            s@ == old(s)@ + chars@.take(i as int),
        decreases chars.len() - i,
    {
        s.push(chars[i]);
        i = i + 1;
        assert(s@ =~= old(s)@ + chars@.take(i as int));
    }
    assert(chars@.take(i as int) =~= chars@);
}

/// Appends the decimal digits of `n` to a string.
pub fn push_decimal(s: &mut String, n: u32)
    ensures
        final(s)@ == old(s)@ + decimal(n as nat),
    decreases n,
{
    if n >= 10 {
        push_decimal(s, n / 10);
    }
    let digit: u8 = 48 + (n % 10) as u8;
    s.push(digit as char);
    assert(s@ =~= old(s)@ + decimal(n as nat));
}

/// Whether `s` begins with `prefix`.
pub fn has_prefix(s: &[char], prefix: &str) -> (found: bool)
    ensures
        found == starts_with(s@, prefix@),
{
    let wanted = chars_of(prefix);
    if wanted.len() > s.len() {
        return false;
    }
    let mut i: usize = 0;
    while i < wanted.len()
        invariant
            i <= wanted@.len() <= s@.len(),
            wanted@ == prefix@,
            forall|j: int| 0 <= j < i ==> s@[j] == wanted@[j],
        decreases wanted.len() - i,
    {
        if s[i] != wanted[i] {
            assert(s@.take(prefix@.len() as int)[i as int] != prefix@[i as int]);
            return false;
        }
        i = i + 1;
    }
    assert(s@.take(prefix@.len() as int) =~= prefix@);
    true
}

/// Whether two texts are the same.
pub fn same_text(a: &str, b: &str) -> (same: bool)
    ensures
        same == (a@ == b@),
{
    let chars = chars_of(a);
    if has_prefix(&chars, b) && chars_of(b).len() == chars.len() {
        assert(a@.take(a@.len() as int) =~= a@);
        true
    } else {
        assert(a@.take(a@.len() as int) =~= a@);
        false
    }
}

/// What follows `prefix` in `s`, if `s` begins with it.
pub fn after_prefix<'a>(s: &'a [char], prefix: &str) -> (rest: Option<&'a [char]>)
    ensures
        rest is Some <==> starts_with(s@, prefix@),
        rest matches Some(chars) ==> chars@ == s@.skip(prefix@.len() as int),
{
    if has_prefix(s, prefix) {
        let len: usize = chars_of(prefix).len();
        Some(slice_subrange(s, len, s.len()))
    } else {
        None
    }
}

/// Whether `pattern` occurs in `s`.
pub fn has_text(s: &[char], pattern: &str) -> (found: bool)
    ensures
        found == contains(s@, pattern@),
{
    let len: usize = s.len();
    let mut k: usize = 0;
    while k < len
        invariant
            k <= len,
            len == s@.len(),
            forall|j: int| 0 <= j < k ==> !starts_with(#[trigger] s@.skip(j), pattern@),
        decreases len - k,
    {
        let rest = slice_subrange(s, k, len);
        assert(rest@ == s@.skip(k as int));
        if has_prefix(rest, pattern) {
            return true;
        }
        k = k + 1;
    }
    let rest = slice_subrange(s, len, len);
    assert(rest@ == s@.skip(len as int));
    has_prefix(rest, pattern)
}

/// Whether a character is white space.
pub fn white_space(c: char) -> (white: bool)
    ensures
        white == is_white_space(c),
{
    let n: u32 = c as u32;
    (n >= 0x9 && n <= 0xd) || n == 0x20 || n == 0x85 || n == 0xa0 || n == 0x1680 || (n >= 0x2000
        && n <= 0x200a) || n == 0x2028 || n == 0x2029 || n == 0x202f || n == 0x205f || n == 0x3000
}

/// The first line of the text from `pos` on, and where the next line begins.
pub fn next_line(s: &[char], pos: usize) -> (line: (&[char], usize))
    requires
        pos < s@.len(),
    ensures
        line.0@ == first_line(s@.skip(pos as int)),
        pos < line.1 <= s@.len(),
        s@.skip(line.1 as int) == after_line(s@.skip(pos as int)),
{
    let len: usize = s.len();
    let mut end: usize = pos;
    let ghost rest = s@.skip(pos as int);
    while end < len && s[end] != '\n'
        invariant
            pos <= end <= len,
            len == s@.len(),
            rest == s@.skip(pos as int),
            line_len(rest) == (end - pos) + line_len(s@.skip(end as int)),
        decreases len - end,
    {
        assert(s@.skip(end as int).skip(1) =~= s@.skip(end + 1));
        end = end + 1;
    }
    assert(line_len(rest) == end - pos);
    if end < len {
        assert(s@.skip(end + 1) =~= rest.skip((end - pos) + 1));
        assert(s@.subrange(pos as int, end as int) =~= rest.take(end - pos));
        if end > pos && s[end - 1] == '\r' {
            assert(s@.subrange(pos as int, end - 1) =~= rest.take(end - pos).drop_last());
            (slice_subrange(s, pos, end - 1), end + 1)
        } else {
            (slice_subrange(s, pos, end), end + 1)
        }
    } else {
        assert(s@.subrange(pos as int, end as int) =~= rest);
        assert(s@.skip(end as int) =~= Seq::empty());
        (slice_subrange(s, pos, end), end)
    }
}

/// The first word of the text from `pos` on, if there is one, and where it
/// ends.
pub fn next_word(s: &[char], pos: usize) -> (word: Option<(&[char], usize)>)
    requires
        pos <= s@.len(),
    ensures
        word is None <==> words(s@.skip(pos as int)).len() == 0,
        word matches Some((chars, end)) ==> {
            &&& pos < end <= s@.len()
            &&& words(s@.skip(pos as int)) == seq![chars@] + words(s@.skip(end as int))
        },
{
    let len: usize = s.len();
    let mut start: usize = pos;
    while start < len && white_space(s[start])
        invariant
            pos <= start <= len,
            len == s@.len(),
            words(s@.skip(pos as int)) == words(s@.skip(start as int)),
        decreases len - start,
    {
        assert(s@.skip(start as int).skip(1) =~= s@.skip(start + 1));
        start = start + 1;
    }
    if start == len {
        return None;
    }
    let mut end: usize = start;
    let ghost rest = s@.skip(start as int);
    while end < len && !white_space(s[end])
        invariant
            start <= end <= len,
            len == s@.len(),
            rest == s@.skip(start as int),
            word_len(rest) == (end - start) + word_len(s@.skip(end as int)),
        decreases len - end,
    {
        assert(s@.skip(end as int).skip(1) =~= s@.skip(end + 1));
        end = end + 1;
    }
    assert(word_len(rest) == end - start);
    assert(s@.subrange(start as int, end as int) =~= rest.take(end - start));
    assert(s@.skip(end as int) =~= rest.skip(end - start));
    Some((slice_subrange(s, start, end), end))
}

/// `s` without the double quotes at either end.
pub fn without_quotes(s: &[char]) -> (inner: &[char])
    ensures
        inner@ == trim_quotes(s@),
{
    let len: usize = s.len();
    let mut start: usize = 0;
    assert(s@.skip(0) =~= s@);
    while start < len && s[start] == '"'
        invariant
            start <= len,
            len == s@.len(),
            trim_quotes_start(s@) == trim_quotes_start(s@.skip(start as int)),
        decreases len - start,
    {
        assert(s@.skip(start as int).skip(1) =~= s@.skip(start + 1));
        start = start + 1;
    }
    let ghost rest = s@.skip(start as int);
    let mut end: usize = len;
    assert(s@.subrange(start as int, end as int) =~= rest);
    while end > start && s[end - 1] == '"'
        invariant
            start <= end <= len,
            len == s@.len(),
            trim_quotes_end(rest) == trim_quotes_end(s@.subrange(start as int, end as int)),
        decreases end - start,
    {
        assert(s@.subrange(start as int, end as int).drop_last() =~= s@.subrange(
            start as int,
            end - 1,
        ));
        end = end - 1;
    }
    slice_subrange(s, start, end)
}

/// A text begins with another exactly if its first characters are those of the
/// other, one by one.
pub proof fn lemma_starts_with(s: Seq<char>, prefix: Seq<char>)
    ensures
        starts_with(s, prefix) <==> prefix.len() <= s.len() && forall|i: int|
            0 <= i < prefix.len() ==> #[trigger] s[i] == prefix[i],
{
    if prefix.len() <= s.len() {
        if forall|i: int| 0 <= i < prefix.len() ==> #[trigger] s[i] == prefix[i] {
            assert(s.take(prefix.len() as int) =~= prefix);
        }
        if starts_with(s, prefix) {
            assert forall|i: int| 0 <= i < prefix.len() implies #[trigger] s[i] == prefix[i] by {
                assert(s.take(prefix.len() as int)[i] == prefix[i]);
            }
        }
    }
}

/// A text contains whatever stands anywhere in it, whole and in one piece.
pub proof fn lemma_contains_part(before: Seq<char>, pattern: Seq<char>, after: Seq<char>)
    ensures
        contains(before + pattern + after, pattern),
{
    let s = before + pattern + after;
    let k = before.len() as int;
    assert(s.skip(k).take(pattern.len() as int) =~= pattern);
    assert(starts_with(s.skip(k), pattern));
}

/// A text contains nothing but what stands in it.
pub proof fn lemma_contained_part(s: Seq<char>, pattern: Seq<char>) -> (parts: (
    Seq<char>,
    Seq<char>,
))
    requires
        contains(s, pattern),
    ensures
        s == parts.0 + pattern + parts.1,
{
    let k = choose|k: int| 0 <= k <= s.len() && starts_with(#[trigger] s.skip(k), pattern);
    let parts = (s.take(k), s.skip(k + pattern.len()));
    assert(s.skip(k).take(pattern.len() as int) == pattern);
    assert forall|i: int| 0 <= i < pattern.len() implies s[k + i] == pattern[i] by {
        assert(s.skip(k).take(pattern.len() as int)[i] == pattern[i]);
    }
    assert(s =~= parts.0 + pattern + parts.1);
    parts
}

/// A line feed ends a line, and a carriage return before it belongs to the
/// ending; what follows is lines of its own.
pub proof fn lemma_line_feed_ends_line(line: Seq<char>, rest: Seq<char>)
    requires
        forall|i: int| 0 <= i < line.len() ==> line[i] != '\n',
    ensures
        lines(line.push('\n') + rest) == seq![
            if line.len() > 0 && line.last() == '\r' {
                line.drop_last()
            } else {
                line
            },
        ] + lines(rest),
{
    let s = line.push('\n') + rest;
    lemma_line_len(line, seq!['\n'] + rest);
    assert(s =~= line + (seq!['\n'] + rest));
    assert(s.take(line.len() as int) =~= line);
    assert(s.skip(line.len() as int + 1) =~= rest);
}

/// The end of the text ends a line too; no text has no lines.
pub proof fn lemma_text_end_ends_line(line: Seq<char>)
    requires
        forall|i: int| 0 <= i < line.len() ==> line[i] != '\n',
    ensures
        lines(line) == (if line.len() == 0 {
            Seq::<Seq<char>>::empty()
        } else {
            seq![line]
        }),
{
    lemma_line_len(line, Seq::empty());
    assert(line + Seq::empty() =~= line);
    assert(lines(after_line(line)) =~= Seq::empty());
    assert(lines(line) =~= (if line.len() == 0 {
        Seq::<Seq<char>>::empty()
    } else {
        seq![line]
    }));
}

/// The length of a line without a line feed, before a line feed or the end.
proof fn lemma_line_len(line: Seq<char>, rest: Seq<char>)
    requires
        forall|i: int| 0 <= i < line.len() ==> line[i] != '\n',
        rest.len() > 0 ==> rest[0] == '\n',
    ensures
        line_len(line + rest) == line.len(),
    decreases line.len(),
{
    if line.len() > 0 {
        assert((line + rest).skip(1) =~= line.skip(1) + rest);
        lemma_line_len(line.skip(1), rest);
    } else {
        assert(line + rest =~= rest);
    }
}

/// White space is the tab, the line feed and the three controls behind it, the
/// space, the next line control, the no-break space, and the spaces and
/// separators of other blocks; nothing else.
pub proof fn lemma_white_space(c: char)
    ensures
        is_white_space(c) <==> (c == '\t' || c == '\n' || c == '\u{b}' || c == '\u{c}' || c == '\r'
            || c == ' ' || c == '\u{85}' || c == '\u{a0}' || c == '\u{1680}' || c == '\u{2000}' || c
            == '\u{2001}' || c == '\u{2002}' || c == '\u{2003}' || c == '\u{2004}' || c == '\u{2005}'
            || c == '\u{2006}' || c == '\u{2007}' || c == '\u{2008}' || c == '\u{2009}' || c
            == '\u{200a}' || c == '\u{2028}' || c == '\u{2029}' || c == '\u{202f}' || c == '\u{205f}'
            || c == '\u{3000}'),
{
}

/// White space between words is no part of them, however much there is.
pub proof fn lemma_white_space_separates(c: char, rest: Seq<char>)
    requires
        is_white_space(c),
    ensures
        words(seq![c] + rest) == words(rest),
{
    assert((seq![c] + rest).skip(1) =~= rest);
}

/// Characters without white space among them are one word, of any length, up
/// to the next white space or the end.
pub proof fn lemma_word(word: Seq<char>, rest: Seq<char>)
    requires
        word.len() > 0,
        forall|i: int| 0 <= i < word.len() ==> !is_white_space(#[trigger] word[i]),
        rest.len() > 0 ==> is_white_space(rest[0]),
    ensures
        words(word + rest) == seq![word] + words(rest),
{
    lemma_word_len(word, rest);
    assert((word + rest)[0] == word[0]);
    assert((word + rest).take(word.len() as int) =~= word);
    assert((word + rest).skip(word.len() as int) =~= rest);
}

/// The length of a word before white space or the end.
proof fn lemma_word_len(word: Seq<char>, rest: Seq<char>)
    requires
        forall|i: int| 0 <= i < word.len() ==> !is_white_space(#[trigger] word[i]),
        rest.len() > 0 ==> is_white_space(rest[0]),
    ensures
        word_len(word + rest) == word.len(),
    decreases word.len(),
{
    if word.len() > 0 {
        assert((word + rest).skip(1) =~= word.skip(1) + rest);
        assert((word + rest)[0] == word[0]);
        assert forall|i: int| 0 <= i < word.skip(1).len() implies !is_white_space(
            #[trigger] word.skip(1)[i],
        ) by {
            assert(word.skip(1)[i] == word[i + 1]);
        }
        lemma_word_len(word.skip(1), rest);
    } else {
        assert(word + rest =~= rest);
    }
}

/// No text has no words.
pub proof fn lemma_no_words()
    ensures
        words(Seq::<char>::empty()) == Seq::<Seq<char>>::empty(),
{
}

/// A double quote more at the start or at the end makes no difference, and a
/// text without one at either end is left alone.
pub proof fn lemma_quotes_trimmed(s: Seq<char>)
    ensures
        trim_quotes(seq!['"'] + s) == trim_quotes(s),
        trim_quotes(s.push('"')) == trim_quotes(s),
        s.len() == 0 || (s[0] != '"' && s.last() != '"') ==> trim_quotes(s) == s,
{
    assert((seq!['"'] + s).skip(1) =~= s);
    lemma_quote_at_end(s);
}

/// A double quote more at the end is trimmed.
proof fn lemma_quote_at_end(s: Seq<char>)
    ensures
        trim_quotes(s.push('"')) == trim_quotes(s),
    decreases s.len(),
{
    let longer = s.push('"');
    if s.len() > 0 && s[0] == '"' {
        assert(longer.skip(1) =~= s.skip(1).push('"'));
        lemma_quote_at_end(s.skip(1));
    } else if s.len() == 0 {
        assert(longer.skip(1) =~= s);
        assert(trim_quotes_start(longer) == trim_quotes_start(s));
    } else {
        assert(longer.drop_last() =~= s);
    }
}

/// A number below ten is one digit; another digit is appended to the digits of
/// what it counts the tens of.
pub proof fn lemma_decimal(tens: nat, digit: nat)
    requires
        digit < 10,
    ensures
        decimal(digit) == seq![seq!['0', '1', '2', '3', '4', '5', '6', '7', '8', '9'][digit as int]],
        tens > 0 ==> decimal(10 * tens + digit) == decimal(tens).push(
            seq!['0', '1', '2', '3', '4', '5', '6', '7', '8', '9'][digit as int],
        ),
{
    assert((10 * tens + digit) / 10 == tens);
    assert((10 * tens + digit) % 10 == digit);
}

/// The characters of each string stand at its place.
pub proof fn lemma_views(strings: Seq<String>)
    ensures
        views(strings).len() == strings.len(),
        forall|i: int| 0 <= i < strings.len() ==> #[trigger] views(strings)[i] == strings[i]@,
{
}

} // verus!

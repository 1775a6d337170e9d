//! Characters, lines and tokens of a source text.
//!
//! A text is modelled as a `Seq<char>`. The executable functions work on the
//! characters of a text held in a slice and answer with [`Span`]s, so that
//! nothing is copied before a caller asks for it.

use vstd::prelude::*;

verus! {

/// Whether `c` separates tokens: the code points with the Unicode property
/// `White_Space`.
pub open spec fn is_space(c: char) -> bool {
    let u = c as u32;
    ||| 0x09 <= u <= 0x0D
    ||| u == 0x20
    ||| u == 0x85
    ||| u == 0xA0
    ||| u == 0x1680
    ||| 0x2000 <= u <= 0x200A
    ||| u == 0x2028
    ||| u == 0x2029
    ||| u == 0x202F
    ||| u == 0x205F
    ||| u == 0x3000
}

/// Whether `pattern` stands in `s` at index `at`.
pub open spec fn occurs_at(s: Seq<char>, pattern: Seq<char>, at: int) -> bool {
    &&& 0 <= at
    &&& at + pattern.len() <= s.len()
    &&& s.subrange(at, at + pattern.len()) == pattern
}

/// Whether `pattern` stands somewhere in `s`. The empty pattern stands in
/// every text.
pub open spec fn occurs(s: Seq<char>, pattern: Seq<char>) -> bool {
    exists|at: int| occurs_at(s, pattern, at)
}

/// The number of characters of `s` before its first line feed; its length
/// where it holds none.
pub open spec fn line_len(s: Seq<char>) -> nat
    decreases s.len(),
{
    if s.len() == 0 || s[0] == '\n' {
        0
    } else {
        1 + line_len(s.drop_first())
    }
}

/// The lines of `s`: the stretches between line feeds, in order. A line feed
/// at the very end opens no further line, and the empty text has no line. A
/// carriage return before a line feed stays in its line, where it is
/// whitespace like any other.
pub open spec fn lines(s: Seq<char>) -> Seq<Seq<char>>
    decreases s.len(),
    via lines_decreases
{
    if s.len() == 0 {
        Seq::empty()
    } else if line_len(s) == s.len() {
        seq![s]
    } else {
        seq![s.take(line_len(s) as int)] + lines(s.skip((line_len(s) + 1) as int))
    }
}

#[via_fn]
proof fn lines_decreases(s: Seq<char>) {
    lemma_line_len_bound(s);
}

/// The number of characters of `s` before its first whitespace; its length
/// where it holds none.
pub open spec fn word_len(s: Seq<char>) -> nat
    decreases s.len(),
{
    if s.len() == 0 || is_space(s[0]) {
        0
    } else {
        1 + word_len(s.drop_first())
    }
}

/// The tokens of `s`: its maximal stretches free of whitespace, in order.
pub open spec fn tokens(s: Seq<char>) -> Seq<Seq<char>>
    decreases s.len(),
    via tokens_decreases
{
    if s.len() == 0 {
        Seq::empty()
    } else if is_space(s[0]) {
        tokens(s.drop_first())
    } else {
        seq![s.take(word_len(s) as int)] + tokens(s.skip(word_len(s) as int))
    }
}

#[via_fn]
proof fn tokens_decreases(s: Seq<char>) {
    lemma_word_len_bound(s);
}

/// `s` without the occurrences of `c` at its start.
pub open spec fn trim_start_matches(s: Seq<char>, c: char) -> Seq<char>
    decreases s.len(),
{
    if s.len() > 0 && s[0] == c {
        trim_start_matches(s.drop_first(), c)
    } else {
        s
    }
}

/// `s` without the occurrences of `c` at its end.
pub open spec fn trim_end_matches(s: Seq<char>, c: char) -> Seq<char>
    decreases s.len(),
{
    if s.len() > 0 && s.last() == c {
        trim_end_matches(s.drop_last(), c)
    } else {
        s
    }
}

/// `s` without the occurrences of `c` at its start and at its end.
pub open spec fn trim_matches(s: Seq<char>, c: char) -> Seq<char> {
    trim_end_matches(trim_start_matches(s, c), c)
}

/// `s` without one `c` at its end, where it ends in `c`.
pub open spec fn strip_suffix(s: Seq<char>, c: char) -> Seq<char> {
    if s.len() > 0 && s.last() == c {
        s.drop_last()
    } else {
        s
    }
}

/// A stretch of a text: the characters from `start` up to, not including,
/// `end`.
#[derive(Debug, Clone, Copy, PartialEq, Eq)]
pub struct Span {
    pub start: usize,
    pub end: usize,
}

impl Span {
    /// Whether the span lies within `s`.
    pub open spec fn within(self, s: Seq<char>) -> bool {
        self.start <= self.end <= s.len()
    }

    /// The characters of `s` that the span covers.
    pub open spec fn of(self, s: Seq<char>) -> Seq<char> {
        s.subrange(self.start as int, self.end as int)
    }
}

/// Whether every span of `spans` lies within `s`.
pub open spec fn all_within(s: Seq<char>, spans: Seq<Span>) -> bool {
    forall|k: int| 0 <= k < spans.len() ==> (#[trigger] spans[k]).within(s)
}

/// The stretches of `s` that `spans` cover, in the order of `spans`.
pub open spec fn cut(s: Seq<char>, spans: Seq<Span>) -> Seq<Seq<char>> {
    Seq::new(spans.len(), |k: int| spans[k].of(s))
}

/// A line ends within the text.
pub proof fn lemma_line_len_bound(s: Seq<char>)
    ensures
        line_len(s) <= s.len(),
        line_len(s) < s.len() ==> s[line_len(s) as int] == '\n',
        forall|i: int| 0 <= i < line_len(s) ==> s[i] != '\n',
    decreases s.len(),
{
    if s.len() == 0 || s[0] == '\n' {
    } else {
        let rest = s.drop_first();
        lemma_line_len_bound(rest);
        assert forall|i: int| 0 <= i < line_len(s) implies s[i] != '\n' by {
            if i > 0 {
                assert(s[i] == rest[i - 1]);
            }
        }
    }
}

/// A word ends within the text, before the first whitespace.
pub proof fn lemma_word_len_bound(s: Seq<char>)
    ensures
        word_len(s) <= s.len(),
        s.len() > 0 && !is_space(s[0]) ==> word_len(s) >= 1,
        word_len(s) < s.len() ==> is_space(s[word_len(s) as int]),
        forall|i: int| 0 <= i < word_len(s) ==> !is_space(s[i]),
    decreases s.len(),
{
    if s.len() == 0 || is_space(s[0]) {
    } else {
        let rest = s.drop_first();
        lemma_word_len_bound(rest);
        assert forall|i: int| 0 <= i < word_len(s) implies !is_space(s[i]) by {
            if i > 0 {
                assert(s[i] == rest[i - 1]);
            }
        }
    }
}

/// The place of the first line feed fixes the length of the first line.
pub proof fn lemma_line_len_is(s: Seq<char>, n: nat)
    requires
        n <= s.len(),
        forall|i: int| 0 <= i < n ==> s[i] != '\n',
        n < s.len() ==> s[n as int] == '\n',
    ensures
        line_len(s) == n,
    decreases s.len(),
{
    if n > 0 {
        let rest = s.drop_first();
        assert forall|i: int| 0 <= i < n - 1 implies rest[i] != '\n' by {
            assert(rest[i] == s[i + 1]);
        }
        lemma_line_len_is(rest, (n - 1) as nat);
    }
}

/// The place of the first whitespace fixes the length of the first word.
pub proof fn lemma_word_len_is(s: Seq<char>, n: nat)
    requires
        n <= s.len(),
        forall|i: int| 0 <= i < n ==> !is_space(s[i]),
        n < s.len() ==> is_space(s[n as int]),
    ensures
        word_len(s) == n,
    decreases s.len(),
{
    if n > 0 {
        let rest = s.drop_first();
        assert forall|i: int| 0 <= i < n - 1 implies !is_space(rest[i]) by {
            assert(rest[i] == s[i + 1]);
        }
        lemma_word_len_is(rest, (n - 1) as nat);
    }
}

/// Whether `s` could be a token: it is not empty and holds no whitespace.
pub open spec fn is_word(s: Seq<char>) -> bool {
    &&& s.len() > 0
    &&& forall|i: int| 0 <= i < s.len() ==> !is_space(s[i])
}

/// Every token is a word.
pub proof fn lemma_tokens_are_words(s: Seq<char>)
    ensures
        forall|k: int| 0 <= k < tokens(s).len() ==> is_word(#[trigger] tokens(s)[k]),
    decreases s.len(),
{
    if s.len() == 0 {
        assert(tokens(s).len() == 0);
    } else if is_space(s[0]) {
        lemma_tokens_are_words(s.drop_first());
        assert(tokens(s) == tokens(s.drop_first()));
    } else {
        lemma_word_len_bound(s);
        let n = word_len(s) as int;
        let rest = s.skip(n);
        lemma_tokens_are_words(rest);
        assert forall|k: int| 0 <= k < tokens(s).len() implies is_word(
            #[trigger] tokens(s)[k],
        ) by {
            if k == 0 {
                assert(tokens(s)[0] == s.take(n));
            } else {
                assert(tokens(s)[k] == tokens(rest)[k - 1]);
            }
        }
    }
}

/// Every token stands in the text it was taken from.
pub proof fn lemma_tokens_occur(s: Seq<char>)
    ensures
        forall|k: int| 0 <= k < tokens(s).len() ==> occurs(s, #[trigger] tokens(s)[k]),
    decreases s.len(),
{
    if s.len() == 0 {
    } else if is_space(s[0]) {
        let rest = s.drop_first();
        lemma_tokens_occur(rest);
        assert forall|k: int| 0 <= k < tokens(s).len() implies occurs(
            s,
            #[trigger] tokens(s)[k],
        ) by {
            let token = tokens(rest)[k];
            let at = choose|at: int| occurs_at(rest, token, at);
            assert(s.subrange(at + 1, at + 1 + token.len()) =~= rest.subrange(
                at,
                at + token.len(),
            ));
            assert(occurs_at(s, token, at + 1));
        }
    } else {
        lemma_word_len_bound(s);
        let n = word_len(s) as int;
        let rest = s.skip(n);
        lemma_tokens_occur(rest);
        assert forall|k: int| 0 <= k < tokens(s).len() implies occurs(
            s,
            #[trigger] tokens(s)[k],
        ) by {
            if k == 0 {
                assert(s.subrange(0, n) =~= s.take(n));
                assert(occurs_at(s, tokens(s)[0], 0));
            } else {
                let token = tokens(rest)[k - 1];
                let at = choose|at: int| occurs_at(rest, token, at);
                assert(s.subrange(at + n, at + n + token.len()) =~= rest.subrange(
                    at,
                    at + token.len(),
                ));
                assert(occurs_at(s, token, at + n));
            }
        }
    }
}

/// No line holds a line feed.
pub proof fn lemma_lines_hold_no_line_feed(s: Seq<char>)
    ensures
        forall|k: int| 0 <= k < lines(s).len() ==> !(#[trigger] lines(s)[k]).contains('\n'),
    decreases s.len(),
{
    if s.len() == 0 {
    } else {
        lemma_line_len_bound(s);
        let n = line_len(s) as int;
        if n < s.len() {
            let rest = s.skip(n + 1);
            lemma_lines_hold_no_line_feed(rest);
            assert forall|k: int| 0 <= k < lines(s).len() implies !(#[trigger] lines(
                s,
            )[k]).contains('\n') by {
                if k == 0 {
                    assert(lines(s)[0] == s.take(n));
                } else {
                    assert(lines(s)[k] == lines(rest)[k - 1]);
                }
            }
        } else {
            assert(lines(s)[0] == s);
        }
    }
}

/// The text whose lines are `lines`: each line, and a line feed after it.
pub open spec fn unlines(lines: Seq<Seq<char>>) -> Seq<char>
    decreases lines.len(),
{
    if lines.len() == 0 {
        Seq::empty()
    } else {
        lines[0] + seq!['\n'] + unlines(lines.drop_first())
    }
}

/// The lines of a text, put together again, are the text, with a line feed
/// at its end where it had none.
pub proof fn lemma_lines_rejoin(s: Seq<char>)
    ensures
        unlines(lines(s)) == if s.len() == 0 || s.last() == '\n' {
            s
        } else {
            s + seq!['\n']
        },
    decreases s.len(),
{
    if s.len() == 0 {
        assert(lines(s).len() == 0);
    } else {
        lemma_line_len_bound(s);
        let n = line_len(s) as int;
        if n == s.len() {
            assert(lines(s) == seq![s]);
            assert(lines(s).drop_first() =~= Seq::<Seq<char>>::empty());
            assert(unlines(lines(s).drop_first()) =~= Seq::<char>::empty());
            assert(unlines(lines(s)) =~= s + seq!['\n']);
        } else {
            let rest = s.skip(n + 1);
            lemma_lines_rejoin(rest);
            assert(lines(s).drop_first() =~= lines(rest));
            assert(lines(s)[0] == s.take(n));
            assert(s =~= s.take(n) + seq!['\n'] + rest);
            if rest.len() == 0 || rest.last() == '\n' {
                assert(unlines(lines(s)) =~= s);
            } else {
                assert(unlines(lines(s)) =~= s + seq!['\n']);
            }
        }
    }
}

/// A row of texts without line feeds, put together, has these texts as its
/// lines.
pub proof fn lemma_lines_of_unlines(rows: Seq<Seq<char>>)
    requires
        forall|k: int| 0 <= k < rows.len() ==> !(#[trigger] rows[k]).contains('\n'),
    ensures
        lines(unlines(rows)) == rows,
    decreases rows.len(),
{
    if rows.len() == 0 {
        assert(lines(unlines(rows)) =~= rows);
    } else {
        let first = rows[0];
        let rest = rows.drop_first();
        let text = unlines(rows);
        assert forall|k: int| 0 <= k < rest.len() implies !(#[trigger] rest[k]).contains('\n') by {
            assert(rest[k] == rows[k + 1]);
        }
        lemma_lines_of_unlines(rest);
        assert forall|i: int| 0 <= i < first.len() implies text[i] != '\n' by {
            assert(text[i] == first[i]);
            assert(!first.contains('\n'));
        }
        assert(text[first.len() as int] == '\n');
        lemma_line_len_is(text, first.len());
        assert(text.take(first.len() as int) =~= first);
        assert(text.skip((first.len() + 1) as int) =~= unlines(rest));
        assert(lines(text) =~= seq![first] + rest);
        assert(seq![first] + rest =~= rows);
    }
}

/// The text of the given words: each word, and a blank after it.
pub open spec fn unwords(words: Seq<Seq<char>>) -> Seq<char>
    decreases words.len(),
{
    if words.len() == 0 {
        Seq::empty()
    } else {
        words[0] + seq![' '] + unwords(words.drop_first())
    }
}

/// A row of words, put together, has these words as its tokens.
pub proof fn lemma_tokens_of_unwords(words: Seq<Seq<char>>)
    requires
        forall|k: int| 0 <= k < words.len() ==> is_word(#[trigger] words[k]),
    ensures
        tokens(unwords(words)) == words,
    decreases words.len(),
{
    if words.len() == 0 {
        assert(tokens(unwords(words)) =~= words);
    } else {
        let first = words[0];
        let rest = words.drop_first();
        let text = unwords(words);
        assert forall|k: int| 0 <= k < rest.len() implies is_word(#[trigger] rest[k]) by {
            assert(rest[k] == words[k + 1]);
        }
        lemma_tokens_of_unwords(rest);
        assert(is_word(first));
        assert forall|i: int| 0 <= i < first.len() implies !is_space(text[i]) by {
            assert(text[i] == first[i]);
        }
        assert(text[first.len() as int] == ' ');
        lemma_word_len_is(text, first.len());
        let after = text.skip(first.len() as int);
        assert(text.take(first.len() as int) =~= first);
        assert(after[0] == ' ');
        assert(after.drop_first() =~= unwords(rest));
        assert(tokens(after) == tokens(unwords(rest)));
        assert(tokens(text) =~= seq![first] + rest);
        assert(seq![first] + rest =~= words);
    }
}

/// Tells whether `c` separates tokens.
pub fn is_whitespace(c: char) -> (b: bool)
    ensures
        b == is_space(c),
{
    let u: u32 = c as u32;
    (0x09 <= u && u <= 0x0D) || u == 0x20 || u == 0x85 || u == 0xA0 || u == 0x1680 || (0x2000 <= u
        && u <= 0x200A) || u == 0x2028 || u == 0x2029 || u == 0x202F || u == 0x205F || u == 0x3000
}

/// The characters of `s`, one element each.
pub fn to_chars(s: &str) -> (chars: Vec<char>)
    ensures
        chars@ == s@,
{
    let mut chars: Vec<char> = Vec::new();
    for c in it: s.chars()
        invariant
            chars@ == it.seq().take(it.index()),
            it.seq() == s@,
    {
        chars.push(c);
    }
    chars
}

/// Tells whether `c` stands in `text`.
pub fn contains_char(text: &[char], c: char) -> (found: bool)
    ensures
        found == text@.contains(c),
{
    let mut i: usize = 0;
    while i < text.len()
        invariant
            i <= text.len(),
            forall|k: int| 0 <= k < i ==> text@[k] != c,
        decreases text.len() - i,
    {
        if text[i] == c {
            return true;
        }
        i += 1;
    }
    false
}

/// Tells whether `pattern` stands in `text` at index `at`.
pub fn matches_at(text: &[char], pattern: &[char], at: usize) -> (found: bool)
    ensures
        found == occurs_at(text@, pattern@, at as int),
{
    if at > text.len() || pattern.len() > text.len() - at {
        return false;
    }
    let mut j: usize = 0;
    while j < pattern.len()
        invariant
            j <= pattern.len(),
            at + pattern.len() <= text.len(),
            forall|k: int| 0 <= k < j ==> text@[at + k] == pattern@[k],
        decreases pattern.len() - j,
    {
        if text[at + j] != pattern[j] {
            proof {
                let found = text@.subrange(at as int, at + pattern.len());
                assert(found[j as int] != pattern@[j as int]);
            }
            return false;
        }
        j += 1;
    }
    assert(text@.subrange(at as int, at + pattern.len()) =~= pattern@);
    true
}

/// Tells whether `pattern` stands somewhere in `text`.
pub fn contains(text: &[char], pattern: &[char]) -> (found: bool)
    ensures
        found == occurs(text@, pattern@),
{
    if pattern.len() > text.len() {
        return false;
    }
    let last: usize = text.len() - pattern.len();
    let mut at: usize = 0;
    loop
        invariant
            at <= last,
            last == text.len() - pattern.len(),
            forall|k: int| 0 <= k < at ==> !occurs_at(text@, pattern@, k),
        decreases last - at,
    {
        if matches_at(text, pattern, at) {
            return true;
        }
        if at == last {
            return false;
        }
        at += 1;
    }
}

/// The spans of the lines of `text`, in order.
pub fn line_spans(text: &[char]) -> (spans: Vec<Span>)
    ensures
        all_within(text@, spans@),
        cut(text@, spans@) == lines(text@),
{
    let n = text.len();
    let mut spans: Vec<Span> = Vec::new();
    let mut start: usize = 0;
    assert(text@.skip(0) =~= text@);
    assert(cut(text@, spans@) + lines(text@) =~= lines(text@));
    while start < n
        invariant
            n == text.len(),
            start <= n,
            all_within(text@, spans@),
            lines(text@) == cut(text@, spans@) + lines(text@.skip(start as int)),
        decreases n - start,
    {
        let mut end: usize = start;
        while end < n && text[end] != '\n'
            invariant
                n == text.len(),
                start <= end <= n,
                forall|k: int| start <= k < end ==> text@[k] != '\n',
            decreases n - end,
        {
            end += 1;
        }
        let span = Span { start, end };
        proof {
            let rest = text@.skip(start as int);
            lemma_line_len_is(rest, (end - start) as nat);
            assert(rest.take(end - start) =~= span.of(text@));
            assert(cut(text@, spans@.push(span)) =~= cut(text@, spans@) + seq![span.of(text@)]);
            if end < n {
                assert(rest.skip(end - start + 1) =~= text@.skip(end + 1));
            } else {
                assert(rest =~= span.of(text@));
                assert(lines(text@.skip(n as int)) =~= Seq::<Seq<char>>::empty());
            }
        }
        spans.push(span);
        start = if end < n { end + 1 } else { n };
    }
    assert(lines(text@.skip(start as int)) =~= Seq::<Seq<char>>::empty());
    spans
}

/// The spans of the tokens of `text`, in order.
pub fn token_spans(text: &[char]) -> (spans: Vec<Span>)
    ensures
        all_within(text@, spans@),
        cut(text@, spans@) == tokens(text@),
{
    let n = text.len();
    let mut spans: Vec<Span> = Vec::new();
    let mut start: usize = 0;
    assert(text@.skip(0) =~= text@);
    assert(cut(text@, spans@) + tokens(text@) =~= tokens(text@));
    while start < n
        invariant
            n == text.len(),
            start <= n,
            all_within(text@, spans@),
            tokens(text@) == cut(text@, spans@) + tokens(text@.skip(start as int)),
        decreases n - start,
    {
        if is_whitespace(text[start]) {
            assert(text@.skip(start as int).drop_first() =~= text@.skip(start + 1));
            start += 1;
        } else {
            let mut end: usize = start + 1;
            while end < n && !is_whitespace(text[end])
                invariant
                    n == text.len(),
                    start < end <= n,
                    forall|k: int| start <= k < end ==> !is_space(text@[k]),
                decreases n - end,
            {
                end += 1;
            }
            let span = Span { start, end };
            proof {
                let rest = text@.skip(start as int);
                lemma_word_len_is(rest, (end - start) as nat);
                assert(rest.take(end - start) =~= span.of(text@));
                assert(rest.skip(end - start) =~= text@.skip(end as int));
                assert(cut(text@, spans@.push(span)) =~= cut(text@, spans@) + seq![
                    span.of(text@),
                ]);
            }
            spans.push(span);
            start = end;
        }
    }
    assert(tokens(text@.skip(start as int)) =~= Seq::<Seq<char>>::empty());
    spans
}

/// Tells whether the stretch of `text` under `span` reads `pattern`.
pub fn span_equals(text: &[char], span: Span, pattern: &[char]) -> (same: bool)
    requires
        span.within(text@),
    ensures
        same == (span.of(text@) == pattern@),
{
    if span.end - span.start != pattern.len() {
        assert(span.of(text@).len() != pattern@.len());
        return false;
    }
    matches_at(text, pattern, span.start)
}

/// The span left of `span` once the occurrences of `c` at its start and at
/// its end are dropped.
pub fn trim_span(text: &[char], span: Span, c: char) -> (trimmed: Span)
    requires
        span.within(text@),
    ensures
        trimmed.within(text@),
        trimmed.of(text@) == trim_matches(span.of(text@), c),
{
    let mut start: usize = span.start;
    while start < span.end && text[start] == c
        invariant
            span.within(text@),
            span.start <= start <= span.end,
            trim_start_matches(span.of(text@), c) == trim_start_matches(
                text@.subrange(start as int, span.end as int),
                c,
            ),
        decreases span.end - start,
    {
        assert(text@.subrange(start as int, span.end as int).drop_first() =~= text@.subrange(
            start + 1,
            span.end as int,
        ));
        start += 1;
    }
    let mut end: usize = span.end;
    while start < end && text[end - 1] == c
        invariant
            span.within(text@),
            start <= end <= span.end,
            trim_matches(span.of(text@), c) == trim_end_matches(
                text@.subrange(start as int, end as int),
                c,
            ),
        decreases end - start,
    {
        assert(text@.subrange(start as int, end as int).drop_last() =~= text@.subrange(
            start as int,
            end - 1,
        ));
        end -= 1;
    }
    Span { start, end }
}

/// The span left of `span` once one `c` at its end is dropped.
pub fn strip_suffix_span(text: &[char], span: Span, c: char) -> (stripped: Span)
    requires
        span.within(text@),
    ensures
        stripped.within(text@),
        stripped.of(text@) == strip_suffix(span.of(text@), c),
{
    if span.start < span.end && text[span.end - 1] == c {
        assert(span.of(text@).drop_last() =~= text@.subrange(span.start as int, span.end - 1));
        Span { start: span.start, end: span.end - 1 }
    } else {
        span
    }
}

} // verus!

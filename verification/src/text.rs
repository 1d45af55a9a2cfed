use vstd::prelude::*;

verus! {

/// The characters of `s`, in order.
pub(crate) fn chars_of(s: &str) -> (chars: Vec<char>)
    ensures
        chars@ == s@,
{
    broadcast use vstd::string::group_string_axioms;
    let mut chars: Vec<char> = Vec::new();
    for c in it: s.chars()
        invariant
            chars@ == it.seq().take(it.index()),
    {
        chars.push(c);
    }
    chars
}

/// Whether `c` is white space in the sense of Unicode's `White_Space`
/// property.
pub open spec fn is_white(c: char) -> bool {
    ||| '\u{9}' <= c <= '\u{d}'
    ||| c == ' '
    ||| c == '\u{85}'
    ||| c == '\u{a0}'
    ||| c == '\u{1680}'
    ||| '\u{2000}' <= c <= '\u{200a}'
    ||| c == '\u{2028}'
    ||| c == '\u{2029}'
    ||| c == '\u{202f}'
    ||| c == '\u{205f}'
    ||| c == '\u{3000}'
}

/// Whether `c` is white space in the sense of Unicode's `White_Space`
/// property.
pub(crate) fn is_white_space(c: char) -> (white: bool)
    ensures
        white == is_white(c),
{
    ('\u{9}' <= c && c <= '\u{d}') || c == ' ' || c == '\u{85}' || c == '\u{a0}'
        || c == '\u{1680}' || ('\u{2000}' <= c && c <= '\u{200a}') || c == '\u{2028}'
        || c == '\u{2029}' || c == '\u{202f}' || c == '\u{205f}' || c == '\u{3000}'
}

/// The characters at which a scan stops.
pub enum Delimiter {
    /// `\n`, which ends a line.
    LineFeed,
    /// `#`, which starts a comment.
    CommentMark,
    /// Any white space, which ends a word.
    WhiteSpace,
}

/// Whether `c` is a character of the kind `delimiter`.
pub open spec fn is_delimiter(c: char, delimiter: Delimiter) -> bool {
    match delimiter {
        Delimiter::LineFeed => c == '\n',
        Delimiter::CommentMark => c == '#',
        Delimiter::WhiteSpace => is_white(c),
    }
}

/// The number of characters of `s` before its first character of the kind
/// `delimiter`; the length of `s` when it has none.
pub open spec fn run_length(s: Seq<char>, delimiter: Delimiter) -> nat
    decreases s.len(),
{
    if s.len() == 0 || is_delimiter(s[0], delimiter) {
        0
    } else {
        1 + run_length(s.drop_first(), delimiter)
    }
}

/// A run is no longer than the text it is taken from.
pub proof fn lemma_run_length_bound(s: Seq<char>, delimiter: Delimiter)
    ensures
        run_length(s, delimiter) <= s.len(),
    decreases s.len(),
{
    if s.len() > 0 && !is_delimiter(s[0], delimiter) {
        lemma_run_length_bound(s.drop_first(), delimiter);
    }
}

/// The run of `s` ends at `k` when no character before `k` is a delimiter
/// and `k` is the end of `s` or a delimiter.
pub proof fn lemma_run_length_at(s: Seq<char>, delimiter: Delimiter, k: int)
    requires
        0 <= k <= s.len(),
        forall|i: int| 0 <= i < k ==> !is_delimiter(#[trigger] s[i], delimiter),
        k == s.len() || is_delimiter(s[k], delimiter),
    ensures
        run_length(s, delimiter) == k,
    decreases k,
{
    if k > 0 {
        let rest = s.drop_first();
        assert forall|i: int| 0 <= i < k - 1 implies !is_delimiter(#[trigger] rest[i], delimiter) by {
            assert(rest[i] == s[i + 1]);
        }
        assert(!is_delimiter(s[0], delimiter));
        lemma_run_length_at(rest, delimiter, k - 1);
    }
}

/// What the run of `s` up to `delimiter` is: no character before its end is
/// a delimiter, and it ends at the end of `s` or at a delimiter.
pub proof fn lemma_run_length_facts(s: Seq<char>, delimiter: Delimiter)
    ensures
        run_length(s, delimiter) <= s.len(),
        forall|j: int|
            0 <= j < run_length(s, delimiter) ==> !is_delimiter(#[trigger] s[j], delimiter),
        run_length(s, delimiter) == s.len() || is_delimiter(
            s[run_length(s, delimiter) as int],
            delimiter,
        ),
    decreases s.len(),
{
    if s.len() > 0 && !is_delimiter(s[0], delimiter) {
        let rest = s.drop_first();
        lemma_run_length_facts(rest, delimiter);
        assert forall|j: int| 0 <= j < run_length(s, delimiter) implies !is_delimiter(
            #[trigger] s[j],
            delimiter,
        ) by {
            if j > 0 {
                assert(s[j] == rest[j - 1]);
            }
        }
    }
}

/// Replacing a character by one that is a delimiter exactly when it is does
/// not move the end of the run.
pub proof fn lemma_run_length_update(s: Seq<char>, delimiter: Delimiter, i: int, c: char)
    requires
        0 <= i < s.len(),
        is_delimiter(s[i], delimiter) == is_delimiter(c, delimiter),
    ensures
        run_length(s.update(i, c), delimiter) == run_length(s, delimiter),
{
    let t = s.update(i, c);
    let k = run_length(s, delimiter) as int;
    lemma_run_length_facts(s, delimiter);
    assert forall|j: int| 0 <= j < k implies !is_delimiter(#[trigger] t[j], delimiter) by {
        assert(!is_delimiter(s[j], delimiter));
    }
    if k < s.len() {
        assert(is_delimiter(t[k], delimiter));
    }
    lemma_run_length_at(t, delimiter, k);
}

/// The words of `s`: its maximal runs of characters that are not white
/// space, in order.
pub open spec fn words(s: Seq<char>) -> Seq<Seq<char>>
    decreases s.len(),
{
    if s.len() == 0 {
        seq![]
    } else if is_white(s[0]) {
        words(s.drop_first())
    } else {
        let n = run_length(s, Delimiter::WhiteSpace) as int;
        proof {
            lemma_run_length_bound(s, Delimiter::WhiteSpace);
        }
        seq![s.take(n)] + words(s.skip(n))
    }
}

/// Whether no character of `s` is of the kind `delimiter`.
pub open spec fn free_of(s: Seq<char>, delimiter: Delimiter) -> bool {
    forall|i: int| 0 <= i < s.len() ==> !is_delimiter(#[trigger] s[i], delimiter)
}

/// A text without white space that is not empty is one word.
pub proof fn lemma_one_word(word: Seq<char>)
    requires
        word.len() > 0,
        free_of(word, Delimiter::WhiteSpace),
    ensures
        words(word) == seq![word],
{
    lemma_run_length_at(word, Delimiter::WhiteSpace, word.len() as int);
    assert(word.take(word.len() as int) =~= word);
    assert(word.skip(word.len() as int) =~= Seq::<char>::empty());
    assert(!is_white(word[0]));
    assert(words(Seq::<char>::empty()) =~= Seq::<Seq<char>>::empty());
    assert(seq![word] + Seq::<Seq<char>>::empty() =~= seq![word]);
}

/// Two words with one space between them are those two words.
pub proof fn lemma_two_words(first: Seq<char>, second: Seq<char>)
    requires
        first.len() > 0,
        second.len() > 0,
        free_of(first, Delimiter::WhiteSpace),
        free_of(second, Delimiter::WhiteSpace),
    ensures
        words(first + seq![' '] + second) == seq![first, second],
{
    let s = first + seq![' '] + second;
    assert forall|i: int| 0 <= i < first.len() implies !is_delimiter(
        #[trigger] s[i],
        Delimiter::WhiteSpace,
    ) by {
        assert(s[i] == first[i]);
    }
    assert(s[first.len() as int] == ' ');
    lemma_run_length_at(s, Delimiter::WhiteSpace, first.len() as int);
    assert(s.take(first.len() as int) =~= first);
    let tail = s.skip(first.len() as int);
    assert(tail[0] == ' ');
    assert(tail.drop_first() =~= second);
    lemma_one_word(second);
    assert(!is_white(s[0]));
    assert(words(s) == seq![first] + words(tail));
    assert(words(tail) == words(second));
    assert(seq![first] + seq![second] =~= seq![first, second]);
}

/// A text free of `delimiter` is one run.
pub proof fn lemma_run_length_whole(s: Seq<char>, delimiter: Delimiter)
    requires
        free_of(s, delimiter),
    ensures
        run_length(s, delimiter) == s.len(),
{
    lemma_run_length_at(s, delimiter, s.len() as int);
}

/// Replacing one white-space character by another keeps the words.
pub proof fn lemma_words_update(s: Seq<char>, i: int, c: char)
    requires
        0 <= i < s.len(),
        is_white(s[i]),
        is_white(c),
    ensures
        words(s.update(i, c)) == words(s),
    decreases s.len(),
{
    let t = s.update(i, c);
    if i == 0 {
        assert(t.drop_first() =~= s.drop_first());
    } else if is_white(s[0]) {
        assert(t.drop_first() =~= s.drop_first().update(i - 1, c));
        lemma_words_update(s.drop_first(), i - 1, c);
    } else {
        let n = run_length(s, Delimiter::WhiteSpace) as int;
        lemma_run_length_update(s, Delimiter::WhiteSpace, i, c);
        lemma_run_length_facts(s, Delimiter::WhiteSpace);
        assert(n <= i) by {
            if n > i {
                assert(!is_delimiter(s[i], Delimiter::WhiteSpace));
            }
        }
        assert(t.take(n) =~= s.take(n));
        if n < s.len() {
            assert(t.skip(n) =~= s.skip(n).update(i - n, c));
            assert(s.skip(n)[i - n] == s[i]);
            lemma_words_update(s.skip(n), i - n, c);
        }
    }
}

/// Law: every ASCII character that is space, tab, line feed, vertical
/// tab, form feed or carriage return is white space, and no other ASCII
/// character is.
pub proof fn lemma_ascii_white_space(c: char)
    requires
        (c as u32) < 128,
    ensures
        is_white(c) <==> (c == ' ' || c == '\t' || c == '\n' || c == '\u{b}' || c == '\u{c}'
            || c == '\r'),
{
}

/// Whether `c` is a character of the kind `delimiter`.
pub(crate) fn is_delimiter_char(c: char, delimiter: &Delimiter) -> (found: bool)
    ensures
        found == is_delimiter(c, *delimiter),
{
    match delimiter {
        Delimiter::LineFeed => c == '\n',
        Delimiter::CommentMark => c == '#',
        Delimiter::WhiteSpace => is_white_space(c),
    }
}

/// The position of the first character of the kind `delimiter` in
/// `chars[from..to]`, or `to` when there is none.
pub(crate) fn scan_to(chars: &Vec<char>, from: usize, to: usize, delimiter: Delimiter) -> (end: usize)
    requires
        from <= to <= chars.len(),
    ensures
        from <= end <= to,
        end - from == run_length(chars@.subrange(from as int, to as int), delimiter),
{
    let mut i = from;
    while i < to && !is_delimiter_char(chars[i], &delimiter)
        invariant
            from <= i <= to <= chars.len(),
            forall|j: int| from <= j < i ==> !is_delimiter(#[trigger] chars@[j], delimiter),
        decreases to - i,
    {
        i = i + 1;
    }
    proof {
        let s = chars@.subrange(from as int, to as int);
        assert forall|j: int| 0 <= j < i - from implies !is_delimiter(#[trigger] s[j], delimiter) by {
            assert(s[j] == chars@[from + j]);
        }
        if i < to {
            assert(s[i - from] == chars@[i as int]);
        }
        lemma_run_length_at(s, delimiter, i - from);
    }
    i
}

/// The first word of `chars[from..to]`, as its start and end, and the words
/// after it; or `None` when that range holds no word.
pub(crate) fn next_word(chars: &Vec<char>, from: usize, to: usize) -> (found: Option<(usize, usize)>)
    requires
        from <= to <= chars.len(),
    ensures
        found matches Some((start, end)) ==> {
            &&& from <= start < end <= to
            &&& words(chars@.subrange(from as int, to as int)) == seq![
                chars@.subrange(start as int, end as int),
            ] + words(chars@.subrange(end as int, to as int))
        },
        found is None ==> words(chars@.subrange(from as int, to as int)) == Seq::<Seq<char>>::empty(),
{
    let mut i = from;
    while i < to && is_white_space(chars[i])
        invariant
            from <= i <= to <= chars.len(),
            words(chars@.subrange(from as int, to as int)) == words(chars@.subrange(i as int, to as int)),
        decreases to - i,
    {
        assert(chars@.subrange(i as int, to as int).drop_first() =~= chars@.subrange(i + 1, to as int));
        i = i + 1;
    }
    if i == to {
        return None;
    }
    let end = scan_to(chars, i, to, Delimiter::WhiteSpace);
    proof {
        let s = chars@.subrange(i as int, to as int);
        let n = end - i;
        assert(s.take(n) =~= chars@.subrange(i as int, end as int));
        assert(s.skip(n) =~= chars@.subrange(end as int, to as int));
        assert(s[0] == chars@[i as int]);
    }
    Some((i, end))
}

/// `s` without the white space it starts with.
pub open spec fn trim_start(s: Seq<char>) -> Seq<char>
    decreases s.len(),
{
    if s.len() > 0 && is_white(s[0]) {
        trim_start(s.drop_first())
    } else {
        s
    }
}

/// `s` without the white space it ends with.
pub open spec fn trim_end(s: Seq<char>) -> Seq<char>
    decreases s.len(),
{
    if s.len() > 0 && is_white(s.last()) {
        trim_end(s.drop_last())
    } else {
        s
    }
}

/// `s` without the white space it starts or ends with.
pub open spec fn trimmed(s: Seq<char>) -> Seq<char> {
    trim_end(trim_start(s))
}

/// Whether every character of `s` is white space.
pub open spec fn all_white(s: Seq<char>) -> bool {
    forall|i: int| 0 <= i < s.len() ==> is_white(#[trigger] s[i])
}

/// White space in front changes nothing once the start is trimmed.
pub proof fn lemma_trim_start_after_white(front: Seq<char>, s: Seq<char>)
    requires
        all_white(front),
    ensures
        trim_start(front + s) == trim_start(s),
    decreases front.len(),
{
    if front.len() == 0 {
        assert(front + s =~= s);
    } else {
        assert((front + s).drop_first() =~= front.drop_first() + s);
        assert((front + s)[0] == front[0]);
        lemma_trim_start_after_white(front.drop_first(), s);
    }
}

/// White space at the back changes nothing once the end is trimmed.
pub proof fn lemma_trim_end_before_white(s: Seq<char>, back: Seq<char>)
    requires
        all_white(back),
    ensures
        trim_end(s + back) == trim_end(s),
    decreases back.len(),
{
    if back.len() == 0 {
        assert(s + back =~= s);
    } else {
        assert((s + back).drop_last() =~= s + back.drop_last());
        assert((s + back).last() == back.last());
        lemma_trim_end_before_white(s, back.drop_last());
    }
}

/// Trimming the start of `s` followed by white space: the white space stays
/// after what is left of `s`, and all goes when `s` is all white space.
pub proof fn lemma_trim_start_then_white(s: Seq<char>, back: Seq<char>)
    requires
        all_white(back),
    ensures
        trim_start(s).len() > 0 ==> trim_start(s + back) == trim_start(s) + back,
        trim_start(s).len() == 0 ==> trim_start(s + back).len() == 0,
    decreases s.len(),
{
    if s.len() == 0 {
        assert(s + back =~= back);
        lemma_trim_start_after_white(back, Seq::<char>::empty());
        assert(back + Seq::<char>::empty() =~= back);
    } else if is_white(s[0]) {
        assert((s + back).drop_first() =~= s.drop_first() + back);
        lemma_trim_start_then_white(s.drop_first(), back);
    }
}

/// Law: white space around a text does not change the text once trimmed.
pub proof fn lemma_trimmed_ignores_white_around(front: Seq<char>, s: Seq<char>, back: Seq<char>)
    requires
        all_white(front),
        all_white(back),
    ensures
        trimmed(front + s + back) == trimmed(s),
{
    assert(front + s + back =~= front + (s + back));
    lemma_trim_start_after_white(front, s + back);
    lemma_trim_start_then_white(s, back);
    if trim_start(s).len() > 0 {
        lemma_trim_end_before_white(trim_start(s), back);
    }
}

/// The bounds of `chars` without the white space it starts or ends with.
pub(crate) fn trim_bounds(chars: &Vec<char>) -> (bounds: (usize, usize))
    ensures
        bounds.0 <= bounds.1 <= chars.len(),
        chars@.subrange(bounds.0 as int, bounds.1 as int) == trimmed(chars@),
{
    let length = chars.len();
    let mut start: usize = 0;
    assert(chars@.subrange(0, length as int) =~= chars@);
    while start < length && is_white_space(chars[start])
        invariant
            start <= length == chars.len(),
            trim_start(chars@) == trim_start(chars@.subrange(start as int, length as int)),
        decreases length - start,
    {
        assert(chars@.subrange(start as int, length as int).drop_first() =~= chars@.subrange(
            start + 1,
            length as int,
        ));
        start = start + 1;
    }
    let mut end = length;
    while end > start && is_white_space(chars[end - 1])
        invariant
            start <= end <= length == chars.len(),
            trimmed(chars@) == trim_end(chars@.subrange(start as int, end as int)),
        decreases end,
    {
        assert(chars@.subrange(start as int, end as int).drop_last() =~= chars@.subrange(
            start as int,
            end - 1,
        ));
        end = end - 1;
    }
    (start, end)
}

} // verus!

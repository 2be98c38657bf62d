//! Character-level text primitives shared by the other modules.
//!
//! Text is modelled as `Seq<char>`. The spec functions say what trimming,
//! splitting and joining mean; the executable functions compute them on
//! `Vec<char>` and slices of it, where every position is reached in constant
//! time; the proof functions at the end state how splitting and joining
//! relate.

use vstd::prelude::*;

verus! {

/// `String::push` appends one character to the end of the string.
pub assume_specification[ String::push ](s: &mut String, ch: char)
    ensures
        final(s)@ == old(s)@.push(ch),
;

/// Whitespace as `char::is_whitespace` has it, the Unicode property
/// `White_Space`: the characters that trimming removes and that separate
/// the tokens of a command line.
pub open spec fn is_whitespace(c: char) -> bool {
    ||| '\u{9}' <= c <= '\u{d}'
    ||| c == ' '
    ||| c == '\u{85}'
    ||| c == '\u{a0}'
    ||| c == '\u{1680}'
    ||| '\u{2000}' <= c <= '\u{200a}'
    ||| c == '\u{2028}'
    ||| c == '\u{2029}'
    ||| c == '\u{202f}'
    ||| c == '\u{205f}'
    ||| c == '\u{3000}'
}

/// Decides [`is_whitespace`].
pub fn whitespace(c: char) -> (b: bool)
    ensures
        b == is_whitespace(c),
{
    ('\u{9}' <= c && c <= '\u{d}')
        || c == ' '
        || c == '\u{85}'
        || c == '\u{a0}'
        || c == '\u{1680}'
        || ('\u{2000}' <= c && c <= '\u{200a}')
        || c == '\u{2028}'
        || c == '\u{2029}'
        || c == '\u{202f}'
        || c == '\u{205f}'
        || c == '\u{3000}'
}

/// What cuts a text into pieces: one given character, or any whitespace.
#[derive(Clone, Copy)]
pub enum Separator {
    Char(char),
    Whitespace,
}

impl Separator {
    /// Whether `c` is a separator.
    pub open spec fn matches(self, c: char) -> bool {
        match self {
            Separator::Char(sep) => c == sep,
            Separator::Whitespace => is_whitespace(c),
        }
    }

    /// Decides [`Separator::matches`].
    pub fn is_match(self, c: char) -> (b: bool)
        ensures
            b == self.matches(c),
    {
        match self {
            Separator::Char(sep) => c == sep,
            Separator::Whitespace => whitespace(c),
        }
    }
}

/// The pieces of `s` between separators, in order. Read from the left, every
/// separator closes a piece and opens a new, empty one; any other character
/// extends the piece that is open. There is always at least one piece, and
/// `n` separators give `n + 1` pieces, empty ones included.
pub open spec fn split(s: Seq<char>, sep: Separator) -> Seq<Seq<char>>
    decreases s.len(),
{
    if s.len() == 0 {
        seq![Seq::empty()]
    } else {
        let before = split(s.drop_last(), sep);
        if sep.matches(s.last()) {
            before.push(Seq::empty())
        } else {
            before.drop_last().push(before.last().push(s.last()))
        }
    }
}

/// The position of the first `c` in `s` at or behind position `from`.
pub open spec fn find_from(s: Seq<char>, c: char, from: int) -> Option<int>
    decreases s.len() - from,
{
    if from < 0 || from >= s.len() {
        None
    } else if s[from] == c {
        Some(from)
    } else {
        find_from(s, c, from + 1)
    }
}

/// The position of the first `c` in `s`.
pub open spec fn find(s: Seq<char>, c: char) -> Option<int> {
    find_from(s, c, 0)
}

/// `s` without its leading whitespace.
pub open spec fn trim_start(s: Seq<char>) -> Seq<char>
    decreases s.len(),
{
    if s.len() > 0 && is_whitespace(s.first()) {
        trim_start(s.drop_first())
    } else {
        s
    }
}

/// `s` without its trailing whitespace.
pub open spec fn trim_end(s: Seq<char>) -> Seq<char>
    decreases s.len(),
{
    if s.len() > 0 && is_whitespace(s.last()) {
        trim_end(s.drop_last())
    } else {
        s
    }
}

/// `s` without leading and trailing whitespace.
pub open spec fn trim(s: Seq<char>) -> Seq<char> {
    trim_end(trim_start(s))
}

/// The parts written one after another with `sep` between neighbours.
pub open spec fn join(parts: Seq<Seq<char>>, sep: Seq<char>) -> Seq<char>
    decreases parts.len(),
{
    if parts.len() == 0 {
        Seq::empty()
    } else if parts.len() == 1 {
        parts[0]
    } else {
        join(parts.drop_last(), sep) + sep + parts.last()
    }
}

/// The text of an optional string.
pub open spec fn optional_text(s: Option<String>) -> Option<Seq<char>> {
    match s {
        Some(s) => Some(s@),
        None => None,
    }
}

/// The text of an optional string slice.
pub open spec fn optional_str(s: Option<&str>) -> Option<Seq<char>> {
    match s {
        Some(s) => Some(s@),
        None => None,
    }
}

/// The views of a sequence of character vectors.
pub open spec fn texts(v: Seq<Vec<char>>) -> Seq<Seq<char>> {
    v.map_values(|t: Vec<char>| t@)
}

/// Copies the characters of `s` into a vector.
pub fn to_chars(s: &str) -> (chars: Vec<char>)
    ensures
        chars@ == s@,
{
    let mut chars: Vec<char> = Vec::new();
    let it = s.chars();
    for c in iter: it
        invariant
            chars@ == iter.seq().take(iter.index() as int),
            iter.seq() == s@,
    {
        chars.push(c);
    }
    chars
}

/// Builds a string from characters.
pub fn to_string(chars: &[char]) -> (s: String)
    ensures
        s@ == chars@,
{
    let mut s = String::new();
    for i in 0..chars.len()
        invariant
            s@ == chars@.take(i as int),
    {
        s.push(chars[i]);
    }
    s
}

/// Copies the characters of `s` from position `from` up to `to`.
pub(crate) fn part(s: &[char], from: usize, to: usize) -> (part: Vec<char>)
    requires
        from <= to <= s@.len(),
    ensures
        part@ == s@.subrange(from as int, to as int),
{
    let mut part: Vec<char> = Vec::new();
    for i in from..to
        invariant
            from <= to <= s@.len(),
            part@ == s@.subrange(from as int, i as int),
    {
        part.push(s[i]);
    }
    part
}

/// Appends the characters of `more` to `text`.
pub fn append(text: &mut Vec<char>, more: &[char])
    ensures
        final(text)@ == old(text)@ + more@,
{
    for i in 0..more.len()
        invariant
            text@ == old(text)@ + more@.take(i as int),
    {
        text.push(more[i]);
    }
    proof {
        assert(more@.take(more@.len() as int) == more@);
    }
}

/// Whether two texts hold the same characters.
pub fn same(a: &[char], b: &[char]) -> (eq: bool)
    ensures
        eq == (a@ =~= b@),
{
    if a.len() != b.len() {
        return false;
    }
    for i in 0..a.len()
        invariant
            a@.len() == b@.len(),
            a@.take(i as int) == b@.take(i as int),
    {
        if a[i] != b[i] {
            return false;
        }
        proof {
            assert(a@.take(i + 1) == a@.take(i as int).push(a@[i as int]));
            assert(b@.take(i + 1) == b@.take(i as int).push(b@[i as int]));
        }
    }
    proof {
        assert(a@.take(a@.len() as int) == a@);
        assert(b@.take(b@.len() as int) == b@);
    }
    true
}

/// Computes [`find`].
pub fn find_char(s: &[char], c: char) -> (at: Option<usize>)
    ensures
        match at {
            Some(i) => i < s@.len() && find(s@, c) == Some(i as int),
            None => find(s@, c) is None,
        },
{
    for i in 0..s.len()
        invariant
            find(s@, c) == find_from(s@, c, i as int),
    {
        if s[i] == c {
            return Some(i);
        }
    }
    None
}

/// Computes [`trim`].
pub fn trim_chars(s: &[char]) -> (trimmed: Vec<char>)
    ensures
        trimmed@ == trim(s@),
{
    let mut from: usize = 0;
    proof {
        assert(s@.skip(0) == s@);
    }
    while from < s.len() && whitespace(s[from])
        invariant
            from <= s.len(),
            trim_start(s@) == trim_start(s@.skip(from as int)),
        decreases s.len() - from,
    {
        proof {
            assert(s@.skip(from as int).drop_first() == s@.skip(from + 1));
        }
        from += 1;
    }
    let mut to: usize = s.len();
    proof {
        assert(s@.subrange(from as int, to as int) == s@.skip(from as int));
    }
    while to > from && whitespace(s[to - 1])
        invariant
            from <= to <= s.len(),
            trim(s@) == trim_end(s@.subrange(from as int, to as int)),
        decreases to,
    {
        proof {
            assert(s@.subrange(from as int, to as int).drop_last() == s@.subrange(
                from as int,
                to - 1,
            ));
        }
        to -= 1;
    }
    part(s, from, to)
}

/// Computes [`split`].
pub fn split_chars(s: &[char], sep: Separator) -> (parts: Vec<Vec<char>>)
    ensures
        texts(parts@) == split(s@, sep),
        parts@.len() == split(s@, sep).len(),
        forall|i: int| 0 <= i < parts@.len() ==> (#[trigger] parts@[i])@ == split(s@, sep)[i],
{
    let mut parts: Vec<Vec<char>> = Vec::new();
    let mut open: Vec<char> = Vec::new();
    for i in 0..s.len()
        invariant
            texts(parts@).push(open@) == split(s@.take(i as int), sep),
    {
        proof {
            assert(s@.take(i + 1).drop_last() == s@.take(i as int));
        }
        let c = s[i];
        if sep.is_match(c) {
            parts.push(open);
            open = Vec::new();
        } else {
            open.push(c);
        }
    }
    parts.push(open);
    proof {
        assert(s@.take(s@.len() as int) == s@);
        assert forall|i: int| 0 <= i < parts@.len() implies (#[trigger] parts@[i])@ == split(
            s@,
            sep,
        )[i] by {
            assert(texts(parts@)[i] == parts@[i]@);
        }
    }
    parts
}

/// Splitting always gives at least one piece.
pub proof fn lemma_split_has_a_piece(s: Seq<char>, sep: Separator)
    ensures
        split(s, sep).len() >= 1,
    decreases s.len(),
{
    if s.len() > 0 {
        lemma_split_has_a_piece(s.drop_last(), sep);
    }
}

/// A text without separators is its own single piece.
pub proof fn lemma_split_without_separator(s: Seq<char>, sep: Separator)
    requires
        forall|i: int| 0 <= i < s.len() ==> !sep.matches(#[trigger] s[i]),
    ensures
        split(s, sep) == seq![s],
    decreases s.len(),
{
    if s.len() > 0 {
        lemma_split_without_separator(s.drop_last(), sep);
        assert(!sep.matches(s[s.len() - 1]));
        assert(s.drop_last().push(s.last()) == s);
        assert(seq![s.drop_last()].drop_last().push(s) == seq![s]);
    } else {
        assert(s == Seq::<char>::empty());
    }
}

/// Splitting happens at every separator: the pieces of a text that holds
/// the separator `at` between `left` and `right` are the pieces of `left`
/// followed by the pieces of `right`.
pub proof fn lemma_split_at_separator(left: Seq<char>, at: char, right: Seq<char>, sep: Separator)
    requires
        sep.matches(at),
    ensures
        split(left.push(at) + right, sep) == split(left, sep) + split(right, sep),
    decreases right.len(),
{
    let whole = left.push(at) + right;
    if right.len() == 0 {
        assert(whole == left.push(at));
        assert(whole.drop_last() == left);
        assert(split(left, sep).push(Seq::empty()) == split(left, sep) + seq![
            Seq::<char>::empty(),
        ]);
    } else {
        let shorter = right.drop_last();
        lemma_split_at_separator(left, at, shorter, sep);
        lemma_split_has_a_piece(shorter, sep);
        assert(whole.drop_last() == left.push(at) + shorter);
        assert(whole.last() == right.last());
        let l = split(left, sep);
        let r = split(shorter, sep);
        if sep.matches(right.last()) {
            assert((l + r).push(Seq::empty()) == l + r.push(Seq::empty()));
        } else {
            assert((l + r).drop_last() == l + r.drop_last());
            assert((l + r).last() == r.last());
            assert((l + r.drop_last()).push(r.last().push(right.last())) == l
                + r.drop_last().push(r.last().push(right.last())));
        }
    }
}

/// No piece holds a separator.
pub proof fn lemma_pieces_hold_no_separator(s: Seq<char>, sep: Separator)
    ensures
        forall|i: int, j: int|
            0 <= i < split(s, sep).len() && 0 <= j < split(s, sep)[i].len() ==> !sep.matches(
                #[trigger] split(s, sep)[i][j],
            ),
    decreases s.len(),
{
    if s.len() > 0 {
        lemma_pieces_hold_no_separator(s.drop_last(), sep);
        lemma_split_has_a_piece(s.drop_last(), sep);
        let before = split(s.drop_last(), sep);
        let pieces = split(s, sep);
        assert forall|i: int, j: int|
            0 <= i < pieces.len() && 0 <= j < pieces[i].len() implies !sep.matches(
            #[trigger] pieces[i][j],
        ) by {
            if i < before.len() - 1 {
                assert(pieces[i] == before[i]);
                assert(!sep.matches(before[i][j]));
            } else if i == before.len() - 1 && !sep.matches(s.last()) {
                if j < before[i].len() {
                    assert(!sep.matches(before[i][j]));
                }
            } else if i == before.len() - 1 {
                assert(pieces[i] == before[i]);
                assert(!sep.matches(before[i][j]));
            }
        }
    }
}

/// Splitting undoes joining: parts that hold no separator, joined by one
/// separator character, split into themselves.
pub proof fn lemma_split_of_join(parts: Seq<Seq<char>>, at: char, sep: Separator)
    requires
        parts.len() > 0,
        sep.matches(at),
        forall|i: int, j: int|
            0 <= i < parts.len() && 0 <= j < parts[i].len() ==> !sep.matches(
                #[trigger] parts[i][j],
            ),
    ensures
        split(join(parts, seq![at]), sep) == parts,
    decreases parts.len(),
{
    let last = parts.last();
    assert forall|j: int| 0 <= j < last.len() implies !sep.matches(#[trigger] last[j]) by {
        assert(!sep.matches(parts[parts.len() - 1][j]));
    }
    lemma_split_without_separator(last, sep);
    if parts.len() == 1 {
        assert(parts == seq![last]);
    } else {
        let front = parts.drop_last();
        assert forall|i: int, j: int|
            0 <= i < front.len() && 0 <= j < front[i].len() implies !sep.matches(
            #[trigger] front[i][j],
        ) by {
            assert(!sep.matches(parts[i][j]));
        }
        lemma_split_of_join(front, at, sep);
        let joined = join(front, seq![at]);
        lemma_split_at_separator(joined, at, last, sep);
        assert(join(parts, seq![at]) == joined.push(at) + last);
        assert(front + seq![last] == parts);
    }
}

/// Trimming leaves a text as it is if it neither starts nor ends with
/// whitespace.
pub proof fn lemma_trim_of_trimmed(s: Seq<char>)
    requires
        s.len() > 0 ==> !is_whitespace(s.first()) && !is_whitespace(s.last()),
    ensures
        trim(s) == s,
{
}

} // verus!

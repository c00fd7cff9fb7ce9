//! Text as sequences of characters: splitting, trimming, searching, bytes.
//!
//! Every routine works on a slice of characters and says, over the
//! mathematical sequence it stands for, exactly what comes out.

use vstd::prelude::*;
use vstd::slice::slice_subrange;

verus! {

// ---- Standard-library calls --------------------------------------------------

/// `String::push`: appends one character and leaves the rest as it was.
pub assume_specification[ String::push ](s: &mut String, ch: char)
    ensures
        final(s)@ == old(s)@.push(ch),
;

/// Whether a character has the Unicode `White_Space` property.
pub uninterp spec fn white_space(c: char) -> bool;

/// `char::is_whitespace`: the `White_Space` property, which among the ASCII
/// characters holds of the space and of U+0009 to U+000D.
pub assume_specification[ char::is_whitespace ](c: char) -> (r: bool)
    ensures
        r == white_space(c),
        (c as u32) < 128 ==> r == (c == ' ' || 9 <= (c as u32) <= 13),
;

/// Whether a character is a letter or a number by Unicode.
pub uninterp spec fn alphanumeric(c: char) -> bool;

/// `char::is_alphanumeric`: the letters and numbers of Unicode, which among the
/// ASCII characters are `0`-`9`, `A`-`Z` and `a`-`z`.
pub assume_specification[ char::is_alphanumeric ](c: char) -> (r: bool)
    ensures
        r == alphanumeric(c),
        (c as u32) < 128 ==> r == (('0' <= c && c <= '9') || ('A' <= c && c <= 'Z') || ('a' <= c && c
            <= 'z')),
;

/// What a text becomes when its letters are made lowercase.
pub uninterp spec fn lowercase(s: Seq<char>) -> Seq<char>;

/// The lowercase of an ASCII character.
pub open spec fn ascii_lower(c: char) -> char {
    if 'A' <= c && c <= 'Z' {
        (c as u32 + 32) as char
    } else {
        c
    }
}

/// `str::to_lowercase`: the Unicode lowercase mapping of a text, in which every
/// character gives at least one. On an ASCII text it maps `A`-`Z` to `a`-`z` and
/// leaves the rest alone.
pub assume_specification[ str::to_lowercase ](s: &str) -> (r: String)
    ensures
        r@ == lowercase(s@),
        s@.len() <= r@.len(),
        vstd::utf8::is_ascii_chars(s@) ==> r@ == s@.map_values(|c: char| ascii_lower(c)),
;

/// What bytes read as, with what is not UTF-8 in them replaced.
pub uninterp spec fn lossy_text(bytes: Seq<u8>) -> Seq<char>;

/// `String::from_utf8_lossy`: the text that bytes hold, in which what is not
/// valid UTF-8 is replaced by U+FFFD. Valid UTF-8 is decoded as it is.
#[verifier::external_body]
pub(crate) fn lossy(bytes: &[u8]) -> (r: String)
    ensures
        r@ == lossy_text(bytes@),
        vstd::utf8::valid_utf8(bytes@) ==> r@ == vstd::utf8::decode_utf8(bytes@),
{
    String::from_utf8_lossy(bytes).into_owned()
}

// ---- Characters and strings --------------------------------------------------

/// The text that an optional string holds.
pub open spec fn text_in(s: Option<String>) -> Option<Seq<char>> {
    match s {
        Some(t) => Some(t@),
        None => None,
    }
}

/// A copy of an optional string.
pub fn copy_text(s: &Option<String>) -> (r: Option<String>)
    ensures
        text_in(r) == text_in(*s),
{
    match s {
        Some(t) => Some(t.clone()),
        None => None,
    }
}

/// The texts that a list of strings holds.
pub open spec fn texts(v: Seq<String>) -> Seq<Seq<char>> {
    v.map_values(|s: String| s@)
}

/// The texts that a list of character slices holds.
pub open spec fn slices(v: Seq<&[char]>) -> Seq<Seq<char>> {
    v.map_values(|s: &[char]| s@)
}

/// The characters of `s`, in order.
pub fn chars_of(s: &str) -> (v: Vec<char>)
    ensures
        v@ == s@,
{
    let mut v: Vec<char> = Vec::new();
    for c in it: s.chars()
        invariant
            it.seq() == s@,
            v@ == it.seq().take(it.index()),
    {
        v.push(c);
    }
    v
}

/// The string made of the characters of `v`.
pub fn string_of(v: &[char]) -> (s: String)
    ensures
        s@ == v@,
{
    let mut s = String::new();
    push_chars(&mut s, v);
    s
}

/// Appends the characters of `v` to `s`.
pub fn push_chars(s: &mut String, v: &[char])
    ensures
        final(s)@ == old(s)@ + v@,
{
    let ghost before = s@;
    let mut i: usize = 0;
    while i < v.len()
        invariant
            i <= v@.len(),
            s@ == before + v@.take(i as int),
        decreases v@.len() - i,
    {
        s.push(v[i]);
        i += 1;
        assert(v@.take(i as int) =~= v@.take(i - 1).push(v@[i - 1]));
    }
    assert(v@.take(i as int) =~= v@);
}

/// Appends `t` to `s`.
pub fn push_text(s: &mut String, t: &str)
    ensures
        final(s)@ == old(s)@ + t@,
{
    let ghost before = s@;
    for c in it: t.chars()
        invariant
            it.seq() == t@,
            s@ == before + it.seq().take(it.index()),
    {
        s.push(c);
    }
    assert(t@.take(t@.len() as int) =~= t@);
}

/// `s` without its last character, if it has one.
pub open spec fn shortened(s: Seq<char>) -> Seq<char> {
    if s.len() > 0 { s.drop_last() } else { s }
}

/// `s` without its last character, if it has one.
pub fn shorten(s: &str) -> (r: String)
    ensures
        r@ == shortened(s@),
{
    let v = chars_of(s);
    if v.len() > 0 {
        assert(v@.subrange(0, v@.len() - 1) =~= v@.drop_last());
        string_of(slice_subrange(v.as_slice(), 0, v.len() - 1))
    } else {
        s.to_string()
    }
}

/// Whether two character slices hold the same text.
pub fn same(a: &[char], b: &[char]) -> (r: bool)
    ensures
        r == (a@ == b@),
{
    if a.len() != b.len() {
        return false;
    }
    let mut i: usize = 0;
    while i < a.len()
        invariant
            i <= a@.len(),
            a@.len() == b@.len(),
            forall|j: int| 0 <= j < i ==> a@[j] == b@[j],
        decreases a@.len() - i,
    {
        if a[i] != b[i] {
            return false;
        }
        i += 1;
    }
    assert(a@ =~= b@);
    true
}

/// Whether a character slice holds the text of `t`.
pub fn is_text(a: &[char], t: &str) -> (r: bool)
    ensures
        r == (a@ == t@),
{
    let b = chars_of(t);
    same(a, b.as_slice())
}

/// Whether two strings hold the same text.
pub fn same_text(a: &str, b: &str) -> (r: bool)
    ensures
        r == (a@ == b@),
{
    let v = chars_of(a);
    is_text(v.as_slice(), b)
}

// ---- Prefixes ----------------------------------------------------------------

/// Whether `s` begins with `p`.
pub open spec fn begins(s: Seq<char>, p: Seq<char>) -> bool {
    p.len() <= s.len() && s.take(p.len() as int) == p
}

/// A text that begins with another has its first character.
pub proof fn lemma_begins_first(s: Seq<char>, p: Seq<char>)
    requires
        p.len() > 0,
    ensures
        begins(s, p) ==> s[0] == p[0],
{
    if begins(s, p) {
        assert(s.take(p.len() as int)[0] == s[0]);
    }
}

/// A text begins with those that are its prefixes.
pub proof fn lemma_prefix(line: Seq<char>, p: Seq<char>)
    ensures
        begins(line, p) <==> p.is_prefix_of(line),
{
    if begins(line, p) {
        assert(line.subrange(0, p.len() as int) =~= line.take(p.len() as int));
    }
    if p.is_prefix_of(line) {
        assert(line.take(p.len() as int) =~= p);
    }
}

/// `s` without as many leading copies of `p` as it has.
pub open spec fn without_leading(s: Seq<char>, p: Seq<char>) -> Seq<char>
    decreases s.len(),
{
    if p.len() > 0 && begins(s, p) {
        without_leading(s.skip(p.len() as int), p)
    } else {
        s
    }
}

/// Whether `s` ends in `tail`.
pub open spec fn ends(s: Seq<char>, tail: Seq<char>) -> bool {
    tail.len() <= s.len() && s.skip(s.len() - tail.len()) == tail
}

/// Whether `s` ends in the text of `tail`.
pub fn ends_with(s: &[char], tail: &str) -> (r: bool)
    ensures
        r == ends(s@, tail@),
{
    let v = chars_of(tail);
    if v.len() > s.len() {
        return false;
    }
    same(slice_subrange(s, s.len() - v.len(), s.len()), v.as_slice())
}

/// Whether `s` begins with the text of `p`.
pub fn starts_with(s: &[char], p: &str) -> (r: bool)
    ensures
        r == begins(s@, p@),
{
    let v = chars_of(p);
    if v.len() > s.len() {
        return false;
    }
    same(slice_subrange(s, 0, v.len()), v.as_slice())
}

/// What follows the prefix `p` in `s`, if `s` begins with it.
pub fn strip_prefix<'a>(s: &'a [char], p: &str) -> (r: Option<&'a [char]>)
    ensures
        r is Some <==> begins(s@, p@),
        r matches Some(t) ==> t@ == s@.skip(p@.len() as int),
{
    let v = chars_of(p);
    if v.len() > s.len() {
        return None;
    }
    if same(slice_subrange(s, 0, v.len()), v.as_slice()) {
        Some(slice_subrange(s, v.len(), s.len()))
    } else {
        None
    }
}

/// `s` without its leading copies of `p`, however many there are.
pub fn strip_leading<'a>(s: &'a [char], p: &str) -> (r: &'a [char])
    requires
        p@.len() > 0,
    ensures
        r@ == without_leading(s@, p@),
{
    let mut t = s;
    loop
        invariant
            p@.len() > 0,
            without_leading(s@, p@) == without_leading(t@, p@),
        decreases t@.len(),
    {
        match strip_prefix(t, p) {
            Some(u) => { t = u; },
            None => { return t; },
        }
    }
}

// ---- Trimming ----------------------------------------------------------------

/// `s` without its leading white space.
pub open spec fn trimmed_start(s: Seq<char>) -> Seq<char>
    decreases s.len(),
{
    if s.len() > 0 && white_space(s[0]) {
        trimmed_start(s.skip(1))
    } else {
        s
    }
}

/// `s` without its trailing white space.
pub open spec fn trimmed_end(s: Seq<char>) -> Seq<char>
    decreases s.len(),
{
    if s.len() > 0 && white_space(s.last()) {
        trimmed_end(s.drop_last())
    } else {
        s
    }
}

/// `s` without leading and trailing white space.
pub open spec fn trimmed(s: Seq<char>) -> Seq<char> {
    trimmed_end(trimmed_start(s))
}

/// `s` without its leading white space.
pub fn trim_start(s: &[char]) -> (r: &[char])
    ensures
        r@ == trimmed_start(s@),
{
    let mut i: usize = 0;
    assert(s@.skip(0) =~= s@);
    while i < s.len() && s[i].is_whitespace()
        invariant
            i <= s@.len(),
            trimmed_start(s@) == trimmed_start(s@.skip(i as int)),
        decreases s@.len() - i,
    {
        i += 1;
        assert(s@.skip(i - 1).skip(1) =~= s@.skip(i as int));
    }
    slice_subrange(s, i, s.len())
}

/// `s` without its trailing white space.
pub fn trim_end(s: &[char]) -> (r: &[char])
    ensures
        r@ == trimmed_end(s@),
{
    let mut n = s.len();
    assert(s@.take(n as int) =~= s@);
    while n > 0 && s[n - 1].is_whitespace()
        invariant
            n <= s@.len(),
            trimmed_end(s@) == trimmed_end(s@.take(n as int)),
        decreases n,
    {
        n -= 1;
        assert(s@.take(n + 1).drop_last() =~= s@.take(n as int));
    }
    slice_subrange(s, 0, n)
}

/// `s` without leading and trailing white space.
pub fn trim(s: &[char]) -> (r: &[char])
    ensures
        r@ == trimmed(s@),
{
    trim_end(trim_start(s))
}

/// Leading white space is removed, nothing is added.
pub proof fn lemma_trimmed_start_len(s: Seq<char>)
    ensures
        trimmed_start(s).len() <= s.len(),
        trimmed_start(s).len() > 0 ==> !white_space(trimmed_start(s)[0]),
    decreases s.len(),
{
    if s.len() > 0 && white_space(s[0]) {
        lemma_trimmed_start_len(s.skip(1));
    }
}

// ---- Splitting ---------------------------------------------------------------

/// How many characters of `s` come before the first `c` (all of them if none is `c`).
pub open spec fn run_before(s: Seq<char>, c: char) -> nat
    decreases s.len(),
{
    if s.len() == 0 || s[0] == c {
        0
    } else {
        1 + run_before(s.skip(1), c)
    }
}

/// The run before `c` is no longer than the text, and stops at a `c`.
pub proof fn lemma_run_before(s: Seq<char>, c: char)
    ensures
        run_before(s, c) <= s.len(),
        run_before(s, c) < s.len() ==> s[run_before(s, c) as int] == c,
        forall|i: int| 0 <= i < run_before(s, c) ==> s[i] != c,
    decreases s.len(),
{
    if s.len() > 0 && s[0] != c {
        lemma_run_before(s.skip(1), c);
        assert forall|i: int| 0 <= i < run_before(s, c) implies s[i] != c by {
            if i > 0 {
                assert(s.skip(1)[i - 1] == s[i]);
            }
        }
    }
}

/// A text whose first `n` characters are not `c`, and that ends or goes on with
/// `c` after them, has a run of `n` before `c`.
pub proof fn lemma_run_before_is(s: Seq<char>, c: char, n: int)
    requires
        0 <= n <= s.len(),
        forall|i: int| 0 <= i < n ==> s[i] != c,
        n < s.len() ==> s[n] == c,
    ensures
        run_before(s, c) == n,
{
    lemma_run_before(s, c);
    let r = run_before(s, c) as int;
    if r < n {
        assert(s[r] != c);
    } else if n < r {
        assert(s[n] != c);
    }
}

/// The lines of two texts in a row, the first of which ends with a whole line.
pub proof fn lemma_lines_in_a_row(a: Seq<char>, b: Seq<char>)
    requires
        a.len() == 0 || a.last() == '\n',
    ensures
        lines_of(a + b) == lines_of(a) + lines_of(b),
    decreases a.len(),
{
    if a.len() == 0 {
        assert(a + b =~= b);
        assert(lines_of(a) + lines_of(b) =~= lines_of(b));
    } else {
        let n = run_before(a, '\n') as int;
        lemma_run_before(a, '\n');
        if n >= a.len() {
            assert(a[a.len() - 1] != '\n');
        }
        lemma_run_before_is(a + b, '\n', n);
        let rest = a.skip(n + 1);
        assert((a + b).take(n) =~= a.take(n));
        assert((a + b).skip(n + 1) =~= rest + b);
        lemma_lines_in_a_row(rest, b);
        assert(lines_of(a + b) =~= lines_of(a) + lines_of(b));
    }
}

/// The pieces of `s` between the occurrences of `c`: one more than there are.
pub open spec fn pieces(s: Seq<char>, c: char) -> Seq<Seq<char>>
    decreases s.len(),
{
    let n = run_before(s, c) as int;
    if n >= s.len() {
        seq![s]
    } else {
        seq![s.take(n)] + pieces(s.skip(n + 1), c)
    }
}

/// A line without its carriage return, if it ends in one.
pub open spec fn without_return(l: Seq<char>) -> Seq<char> {
    if l.len() > 0 && l.last() == '\r' {
        l.drop_last()
    } else {
        l
    }
}

/// The lines of `s`: a newline, or a carriage return and a newline, ends one.
/// What follows the last newline is a line if it is not empty.
pub open spec fn lines_of(s: Seq<char>) -> Seq<Seq<char>>
    decreases s.len(),
{
    if s.len() == 0 {
        seq![]
    } else {
        let n = run_before(s, '\n') as int;
        if n >= s.len() {
            seq![s]
        } else {
            seq![without_return(s.take(n))] + lines_of(s.skip(n + 1))
        }
    }
}

/// How many characters of `s` come before the first white space.
pub open spec fn word_len(s: Seq<char>) -> nat
    decreases s.len(),
{
    if s.len() == 0 || white_space(s[0]) {
        0
    } else {
        1 + word_len(s.skip(1))
    }
}

/// A word is no longer than the text it starts.
pub proof fn lemma_word_len(s: Seq<char>)
    ensures
        word_len(s) <= s.len(),
    decreases s.len(),
{
    if s.len() > 0 && !white_space(s[0]) {
        lemma_word_len(s.skip(1));
    }
}

/// The words of `s`: its maximal runs without white space.
pub open spec fn words_of(s: Seq<char>) -> Seq<Seq<char>>
    decreases s.len(),
{
    proof {
        lemma_trimmed_start_len(s);
        lemma_word_len(trimmed_start(s));
    }
    let t = trimmed_start(s);
    if t.len() == 0 {
        seq![]
    } else {
        seq![t.take(word_len(t) as int)] + words_of(t.skip(word_len(t) as int))
    }
}

/// The end of the run before `c` that starts at `from`.
pub fn find_char(s: &[char], from: usize, c: char) -> (r: usize)
    requires
        from <= s@.len(),
    ensures
        from <= r <= s@.len(),
        r - from == run_before(s@.skip(from as int), c),
        r < s@.len() ==> s@[r as int] == c,
{
    let mut i = from;
    while i < s.len() && s[i] != c
        invariant
            from <= i <= s@.len(),
            forall|j: int| from <= j < i ==> s@[j] != c,
        decreases s@.len() - i,
    {
        i += 1;
    }
    proof {
        lemma_run_before_is(s@.skip(from as int), c, i - from);
    }
    i
}

/// The pieces of `s` between the occurrences of `c`.
pub fn split(s: &[char], c: char) -> (v: Vec<&[char]>)
    ensures
        slices(v@) == pieces(s@, c),
{
    let mut v: Vec<&[char]> = Vec::new();
    let mut pos: usize = 0;
    assert(s@.skip(0) =~= s@);
    assert(slices(v@) =~= seq![]);
    loop
        invariant
            pos <= s@.len(),
            pieces(s@, c) == slices(v@) + pieces(s@.skip(pos as int), c),
        decreases s@.len() - pos,
    {
        let end = find_char(s, pos, c);
        let piece = slice_subrange(s, pos, end);
        let ghost before = v@;
        v.push(piece);
        assert(slices(v@) =~= slices(before).push(piece@));
        proof {
            let rest = s@.skip(pos as int);
            assert(piece@ =~= rest.take(end - pos));
            if end < s.len() {
                assert(rest.skip(end - pos + 1) =~= s@.skip(end + 1));
                assert(pieces(rest, c) == seq![piece@] + pieces(s@.skip(end + 1), c));
            } else {
                assert(piece@ =~= rest);
                assert(pieces(rest, c) == seq![piece@]);
            }
        }
        if end == s.len() {
            assert(slices(v@) =~= pieces(s@, c));
            return v;
        }
        assert(pieces(s@, c) =~= slices(v@) + pieces(s@.skip(end + 1), c));
        pos = end + 1;
    }
}

/// The lines of `s`.
pub fn lines(s: &[char]) -> (v: Vec<&[char]>)
    ensures
        slices(v@) == lines_of(s@),
{
    let mut v: Vec<&[char]> = Vec::new();
    let mut pos: usize = 0;
    assert(s@.skip(0) =~= s@);
    assert(slices(v@) =~= seq![]);
    assert(lines_of(s@) =~= slices(v@) + lines_of(s@.skip(0)));
    while pos < s.len()
        invariant
            pos <= s@.len(),
            lines_of(s@) == slices(v@) + lines_of(s@.skip(pos as int)),
        decreases s@.len() - pos,
    {
        let end = find_char(s, pos, '\n');
        let ghost rest = s@.skip(pos as int);
        let ghost before = v@;
        assert(rest.take(end - pos) =~= s@.subrange(pos as int, end as int));
        if end == s.len() {
            v.push(slice_subrange(s, pos, end));
            assert(slices(v@) =~= slices(before).push(rest));
            assert(slices(v@) =~= lines_of(s@));
            return v;
        }
        let stop = if end > pos && s[end - 1] == '\r' { end - 1 } else { end };
        v.push(slice_subrange(s, pos, stop));
        proof {
            let line = s@.subrange(pos as int, stop as int);
            assert(line =~= without_return(rest.take(end - pos)));
            assert(slices(v@) =~= slices(before).push(line));
            assert(rest.skip(end - pos + 1) =~= s@.skip(end + 1));
            assert(lines_of(rest) == seq![line] + lines_of(s@.skip(end + 1)));
            assert(lines_of(s@) =~= slices(v@) + lines_of(s@.skip(end + 1)));
        }
        pos = end + 1;
    }
    assert(lines_of(s@.skip(pos as int)) =~= seq![]);
    assert(slices(v@) =~= lines_of(s@));
    v
}

/// The words of `s`.
pub fn words(s: &[char]) -> (v: Vec<&[char]>)
    ensures
        slices(v@) == words_of(s@),
{
    let mut v: Vec<&[char]> = Vec::new();
    let mut rest = s;
    assert(slices(v@) =~= seq![]);
    assert(words_of(s@) =~= slices(v@) + words_of(rest@));
    loop
        invariant
            words_of(s@) == slices(v@) + words_of(rest@),
        decreases rest@.len(),
    {
        let t = trim_start(rest);
        proof {
            lemma_trimmed_start_len(rest@);
        }
        if t.len() == 0 {
            assert(words_of(rest@) =~= seq![]);
            assert(slices(v@) =~= words_of(s@));
            return v;
        }
        let mut n: usize = 0;
        assert(t@.skip(0) =~= t@);
        while n < t.len() && !t[n].is_whitespace()
            invariant
                n <= t@.len(),
                word_len(t@) == n + word_len(t@.skip(n as int)),
                t@.len() > 0,
            decreases t@.len() - n,
        {
            n += 1;
            assert(t@.skip(n - 1).skip(1) =~= t@.skip(n as int));
        }
        let ghost before = v@;
        let ghost old_rest = rest@;
        v.push(slice_subrange(t, 0, n));
        rest = slice_subrange(t, n, t.len());
        proof {
            assert(word_len(t@) == n);
            assert(slices(v@) =~= slices(before).push(t@.take(n as int)));
            assert(words_of(old_rest) == seq![t@.take(n as int)] + words_of(rest@));
            assert(words_of(s@) =~= slices(v@) + words_of(rest@));
            assert(n > 0);
        }
    }
}

// ---- Searching ---------------------------------------------------------------

/// Whether `needle` stands in `hay` at index `i`.
pub open spec fn occurs_at(hay: Seq<char>, needle: Seq<char>, i: int) -> bool {
    0 <= i && i + needle.len() <= hay.len() && hay.subrange(i, i + needle.len()) == needle
}

/// Whether `needle` stands anywhere in `hay`.
pub open spec fn occurs(hay: Seq<char>, needle: Seq<char>) -> bool {
    exists|i: int| occurs_at(hay, needle, i)
}

/// The first index from `from` on at which `needle` stands in `hay`.
pub open spec fn first_occurrence(hay: Seq<char>, needle: Seq<char>, from: int) -> Option<int>
    decreases hay.len() + 1 - from,
{
    if from < 0 || from + needle.len() > hay.len() {
        None
    } else if occurs_at(hay, needle, from) {
        Some(from)
    } else {
        first_occurrence(hay, needle, from + 1)
    }
}

/// The first occurrence is an occurrence, and none comes before it.
pub proof fn lemma_first_occurrence(hay: Seq<char>, needle: Seq<char>, from: int)
    requires
        0 <= from,
    ensures
        first_occurrence(hay, needle, from) matches Some(i) ==> from <= i && occurs_at(hay, needle, i),
        first_occurrence(hay, needle, from) matches Some(i) ==> forall|j: int|
            from <= j < i ==> !occurs_at(hay, needle, j),
        first_occurrence(hay, needle, from) is None ==> forall|j: int|
            from <= j ==> !occurs_at(hay, needle, j),
    decreases hay.len() + 1 - from,
{
    if from + needle.len() <= hay.len() && !occurs_at(hay, needle, from) {
        lemma_first_occurrence(hay, needle, from + 1);
    }
}

/// The first index from `from` on at which `needle` stands in `hay`.
pub fn find_from(hay: &[char], needle: &[char], from: usize) -> (r: Option<usize>)
    ensures
        r is Some <==> first_occurrence(hay@, needle@, from as int) is Some,
        r matches Some(i) ==> first_occurrence(hay@, needle@, from as int) == Some(i as int),
        r matches Some(i) ==> from <= i && i + needle@.len() <= hay@.len(),
{
    if needle.len() > hay.len() {
        return None;
    }
    let size = hay.len();
    let last = size - needle.len();
    let mut i = from;
    while i <= last
        invariant
            from <= i,
            size == hay@.len(),
            last + needle@.len() == size,
            first_occurrence(hay@, needle@, from as int) == first_occurrence(hay@, needle@, i as int),
        decreases last + 1 - i,
    {
        if same(slice_subrange(hay, i, i + needle.len()), needle) {
            return Some(i);
        }
        if i == last {
            assert(first_occurrence(hay@, needle@, i + 1) is None);
            return None;
        }
        i += 1;
    }
    None
}

/// Whether `needle` stands anywhere in `hay`.
pub fn contains(hay: &[char], needle: &[char]) -> (r: bool)
    ensures
        r == occurs(hay@, needle@),
{
    proof {
        lemma_first_occurrence(hay@, needle@, 0);
    }
    match find_from(hay, needle, 0) {
        Some(i) => {
            assert(occurs_at(hay@, needle@, i as int));
            true
        },
        None => {
            assert forall|i: int| !occurs_at(hay@, needle@, i) by {}
            false
        },
    }
}

/// Whether the character `c` stands anywhere in `s`.
pub fn has_char(s: &[char], c: char) -> (r: bool)
    ensures
        r == s@.contains(c),
{
    let i = find_char(s, 0, c);
    assert(s@.skip(0) =~= s@);
    if i < s.len() {
        true
    } else {
        proof {
            lemma_run_before(s@, c);
        }
        false
    }
}

/// The lowercase of a character slice.
pub fn lowered(s: &[char]) -> (r: Vec<char>)
    ensures
        r@ == lowercase(s@),
        r@.len() >= s@.len(),
{
    let t = string_of(s);
    let l = t.as_str().to_lowercase();
    chars_of(l.as_str())
}

// ---- Replacing and joining ---------------------------------------------------

/// `s` with every `c` replaced by the text `by`.
pub open spec fn replaced(s: Seq<char>, c: char, by: Seq<char>) -> Seq<char>
    decreases s.len(),
{
    if s.len() == 0 {
        seq![]
    } else {
        replaced(s.drop_last(), c, by) + (if s.last() == c { by } else { seq![s.last()] })
    }
}

/// The texts of `v`, one after the other, with `sep` between them.
pub open spec fn joined(v: Seq<Seq<char>>, sep: Seq<char>) -> Seq<char>
    decreases v.len(),
{
    if v.len() == 0 {
        seq![]
    } else if v.len() == 1 {
        v[0]
    } else {
        joined(v.drop_last(), sep) + sep + v.last()
    }
}

/// `s` with every `c` replaced by `by`.
pub fn replace(s: &[char], c: char, by: &str) -> (r: String)
    ensures
        r@ == replaced(s@, c, by@),
{
    let mut r = String::new();
    let mut i: usize = 0;
    assert(s@.take(0) =~= seq![]);
    while i < s.len()
        invariant
            i <= s@.len(),
            r@ == replaced(s@.take(i as int), c, by@),
        decreases s@.len() - i,
    {
        let ghost before = r@;
        if s[i] == c {
            push_text(&mut r, by);
        } else {
            r.push(s[i]);
        }
        i += 1;
        proof {
            assert(s@.take(i as int).drop_last() =~= s@.take(i - 1));
            assert(r@ =~= before + (if s@[i - 1] == c { by@ } else { seq![s@[i - 1]] }));
        }
    }
    assert(s@.take(i as int) =~= s@);
    r
}

/// The strings of `v`, one after the other, with `sep` between them.
pub fn join(v: &[String], sep: &str) -> (r: String)
    ensures
        r@ == joined(texts(v@), sep@),
{
    let mut r = String::new();
    let mut i: usize = 0;
    assert(texts(v@).take(0) =~= seq![]);
    while i < v.len()
        invariant
            i <= v@.len(),
            r@ == joined(texts(v@).take(i as int), sep@),
        decreases v@.len() - i,
    {
        let ghost before = r@;
        if i > 0 {
            push_text(&mut r, sep);
        }
        push_text(&mut r, v[i].as_str());
        i += 1;
        proof {
            let t = texts(v@).take(i as int);
            assert(t.drop_last() =~= texts(v@).take(i - 1));
            assert(t.last() == v@[i - 1]@);
            if i > 1 {
                assert(r@ =~= before + sep@ + t.last());
            } else {
                assert(r@ =~= t[0]);
            }
        }
    }
    assert(texts(v@).take(i as int) =~= texts(v@));
    r
}

/// A copy of a list of strings.
pub fn copy_strings(v: &[String]) -> (r: Vec<String>)
    ensures
        r@ == v@,
{
    let mut r: Vec<String> = Vec::new();
    let mut i: usize = 0;
    while i < v.len()
        invariant
            i <= v@.len(),
            r@ == v@.take(i as int),
        decreases v@.len() - i,
    {
        r.push(v[i].clone());
        i += 1;
        assert(v@.take(i as int) =~= v@.take(i - 1).push(v@[i - 1]));
    }
    assert(v@.take(i as int) =~= v@);
    r
}

// ---- Bytes -------------------------------------------------------------------

/// How many bytes the UTF-8 form of `c` takes.
pub open spec fn char_width(c: char) -> nat {
    if (c as u32) < 0x80 {
        1
    } else if (c as u32) < 0x800 {
        2
    } else if (c as u32) < 0x10000 {
        3
    } else {
        4
    }
}

/// How many bytes the UTF-8 form of `s` takes.
pub open spec fn byte_len(s: Seq<char>) -> nat
    decreases s.len(),
{
    if s.len() == 0 {
        0
    } else {
        byte_len(s.drop_last()) + char_width(s.last())
    }
}

/// Whether the byte offset `b` falls between two characters of `s`, or at an end of it.
pub open spec fn is_boundary(s: Seq<char>, b: int) -> bool {
    exists|k: int| 0 <= k <= s.len() && byte_len(#[trigger] s.take(k)) == b
}

/// The number of characters of `s` before the byte offset `b`.
pub open spec fn chars_before(s: Seq<char>, b: int) -> int
    recommends
        is_boundary(s, b),
{
    choose|k: int| 0 <= k <= s.len() && byte_len(#[trigger] s.take(k)) == b
}

/// More characters take more bytes.
pub proof fn lemma_byte_len_grows(s: Seq<char>, j: int, k: int)
    requires
        0 <= j <= k <= s.len(),
    ensures
        byte_len(s.take(j)) + (k - j) <= byte_len(s.take(k)) <= byte_len(s.take(j)) + 4 * (k - j),
    decreases k - j,
{
    if j < k {
        lemma_byte_len_grows(s, j, k - 1);
        assert(s.take(k).drop_last() =~= s.take(k - 1));
    }
}

/// A byte offset stands before one character at most.
pub proof fn lemma_boundary_unique(s: Seq<char>, b: int, k: int)
    requires
        0 <= k <= s.len(),
        byte_len(s.take(k)) == b,
    ensures
        is_boundary(s, b),
        chars_before(s, b) == k,
{
    let j = chars_before(s, b);
    assert(0 <= j <= s.len() && byte_len(s.take(j)) == b);
    if j < k {
        lemma_byte_len_grows(s, j, k);
    } else if k < j {
        lemma_byte_len_grows(s, k, j);
    }
}

/// The bytes of two texts in a row are the bytes of the one and of the other.
pub proof fn lemma_byte_len_add(a: Seq<char>, b: Seq<char>)
    ensures
        byte_len(a + b) == byte_len(a) + byte_len(b),
    decreases b.len(),
{
    if b.len() == 0 {
        assert(a + b =~= a);
    } else {
        lemma_byte_len_add(a, b.drop_last());
        assert((a + b).drop_last() =~= a + b.drop_last());
    }
}

/// The byte length is that of the UTF-8 encoding.
pub proof fn byte_len_is_utf8_length(s: Seq<char>)
    ensures
        byte_len(s) == vstd::utf8::encode_utf8(s).len(),
    decreases s.len(),
{
    if s.len() > 0 {
        byte_len_is_utf8_length(s.drop_first());
        lemma_byte_len_add(seq![s[0]], s.drop_first());
        assert(seq![s[0]] + s.drop_first() =~= s);
        let one = seq![s[0]];
        assert(one.drop_last() =~= seq![]);
        assert(byte_len(one.drop_last()) == 0);
        assert(byte_len(one) == char_width(s[0]));
        vstd::utf8::char_is_scalar(s[0]);
        assert(vstd::utf8::encode_scalar(s[0] as u32).len() == char_width(s[0]));
    }
}

/// The UTF-8 width of a character.
pub fn width_of(c: char) -> (w: usize)
    ensures
        w == char_width(c),
{
    let n = c as u32;
    if n < 0x80 {
        1
    } else if n < 0x800 {
        2
    } else if n < 0x10000 {
        3
    } else {
        4
    }
}

/// How many bytes the UTF-8 form of `s` takes.
pub fn bytes_in(s: &[char]) -> (n: u128)
    ensures
        n == byte_len(s@),
        n <= 4 * s@.len(),
{
    let mut n: u128 = 0;
    let mut i: usize = 0;
    assert(s@.take(0) =~= seq![]);
    while i < s.len()
        invariant
            i <= s@.len(),
            n == byte_len(s@.take(i as int)),
            n <= 4 * i,
        decreases s@.len() - i,
    {
        n += width_of(s[i]) as u128;
        i += 1;
        assert(s@.take(i as int).drop_last() =~= s@.take(i - 1));
    }
    assert(s@.take(i as int) =~= s@);
    n
}

/// The number of characters of `s` before the byte offset `b`, if it falls
/// between two of them or at an end.
pub fn boundary(s: &[char], b: u128) -> (r: Option<usize>)
    ensures
        r is Some <==> is_boundary(s@, b as int),
        r matches Some(k) ==> k <= s@.len() && k == chars_before(s@, b as int) && byte_len(
            s@.take(k as int),
        ) == b,
{
    let mut n: u128 = 0;
    let mut i: usize = 0;
    assert(s@.take(0) =~= seq![]);
    while i < s.len() && n < b
        invariant
            i <= s@.len(),
            n == byte_len(s@.take(i as int)),
            n <= 4 * i,
            forall|k: int| 0 <= k < i ==> byte_len(#[trigger] s@.take(k)) < b,
        decreases s@.len() - i,
    {
        n += width_of(s[i]) as u128;
        i += 1;
        assert(s@.take(i as int).drop_last() =~= s@.take(i - 1));
    }
    if n == b {
        proof {
            lemma_boundary_unique(s@, b as int, i as int);
        }
        Some(i)
    } else {
        proof {
            assert forall|k: int| 0 <= k <= s@.len() implies byte_len(#[trigger] s@.take(k)) != b by {
                if k > i {
                    lemma_byte_len_grows(s@, i as int, k);
                }
            }
        }
        None
    }
}

// ---- What splitting and trimming promise -------------------------------------

/// Whether a text is white space only.
pub open spec fn is_blank(s: Seq<char>) -> bool {
    forall|i: int| 0 <= i < s.len() ==> white_space(#[trigger] s[i])
}

/// Whether a text has no white space.
pub open spec fn is_word(s: Seq<char>) -> bool {
    s.len() > 0 && forall|i: int| 0 <= i < s.len() ==> !white_space(#[trigger] s[i])
}

/// Whether a text has no newline.
pub open spec fn is_single(s: Seq<char>) -> bool {
    forall|i: int| 0 <= i < s.len() ==> #[trigger] s[i] != '\n'
}

/// Lines one after the other, each with a newline behind it.
pub open spec fn terminated(v: Seq<Seq<char>>) -> Seq<char>
    decreases v.len(),
{
    if v.len() == 0 {
        Seq::empty()
    } else {
        terminated(v.drop_last()) + v.last() + seq!['\n']
    }
}

/// What comes before the first of a character, and what comes after it.
pub proof fn run_ends_at_the_first(a: Seq<char>, c: char, b: Seq<char>)
    requires
        forall|i: int| 0 <= i < a.len() ==> #[trigger] a[i] != c,
    ensures
        run_before(a + seq![c] + b, c) == a.len(),
        run_before(a, c) == a.len(),
{
    let s = a + seq![c] + b;
    assert forall|i: int| 0 <= i < a.len() implies s[i] != c by {
        assert(s[i] == a[i]);
    }
    lemma_run_before_is(s, c, a.len() as int);
    lemma_run_before_is(a, c, a.len() as int);
}

/// A text splits at every occurrence of a character and nowhere else: what comes
/// before the first is a piece, and the rest splits by itself.
pub proof fn pieces_split(a: Seq<char>, c: char, b: Seq<char>)
    requires
        forall|i: int| 0 <= i < a.len() ==> #[trigger] a[i] != c,
    ensures
        pieces(a, c) == seq![a],
        pieces(a + seq![c] + b, c) == seq![a] + pieces(b, c),
{
    let s = a + seq![c] + b;
    run_ends_at_the_first(a, c, b);
    assert(s.take(a.len() as int) =~= a);
    assert(s.skip(a.len() as int + 1) =~= b);
}

/// Lines are read back as they were written: with newlines behind them, with a
/// return before the newline, and the last also with nothing behind it.
pub proof fn lines_are_read_back(v: Seq<Seq<char>>, last: Seq<char>)
    requires
        forall|i: int| 0 <= i < v.len() ==> is_single(#[trigger] v[i]),
        forall|i: int| 0 <= i < v.len() && (#[trigger] v[i]).len() > 0 ==> v[i].last() != '\r',
        is_single(last),
    ensures
        lines_of(terminated(v)) == v,
        last.len() > 0 ==> lines_of(terminated(v) + last) == v.push(last),
        lines_of(terminated(v) + (last + seq!['\r', '\n'])) == v.push(last),
    decreases v.len(),
{
    let all = terminated(v);
    if v.len() > 0 {
        let (init, line) = (v.drop_last(), v.last());
        assert forall|i: int| 0 <= i < init.len() implies is_single(#[trigger] init[i]) && (init[i].len() > 0
            ==> init[i].last() != '\r') by {
            assert(init[i] == v[i]);
        }
        lines_are_read_back(init, last);
        assert(is_single(v[v.len() - 1]));
        let tail = line + seq!['\n'];
        run_ends_at_the_first(line, '\n', Seq::empty());
        assert(tail =~= line + seq!['\n'] + Seq::<char>::empty());
        assert(tail.take(line.len() as int) =~= line);
        assert(tail.skip(line.len() as int + 1) =~= Seq::empty());
        assert(lines_of(Seq::<char>::empty()) =~= Seq::empty());
        assert(without_return(line) == line);
        assert(lines_of(tail) =~= seq![line]);
        assert(all =~= terminated(init) + tail);
        assert(terminated(init).len() > 0 ==> terminated(init).last() == '\n');
        lemma_lines_in_a_row(terminated(init), tail);
        assert(init + seq![line] =~= v);
    } else {
        assert(lines_of(all) =~= v);
    }
    assert(all.len() > 0 ==> all.last() == '\n');
    lemma_lines_in_a_row(all, last);
    if last.len() > 0 {
        run_ends_at_the_first(last, '\n', Seq::empty());
        assert(v + seq![last] =~= v.push(last));
    }
    let ended = last + seq!['\r', '\n'];
    let cut = last.push('\r');
    run_ends_at_the_first(cut, '\n', Seq::empty());
    assert(ended =~= cut + seq!['\n'] + Seq::<char>::empty());
    assert(ended.take(cut.len() as int) =~= cut);
    assert(ended.skip(cut.len() as int + 1) =~= Seq::empty());
    assert(lines_of(Seq::<char>::empty()) =~= Seq::empty());
    assert(cut.drop_last() =~= last);
    assert(lines_of(ended) =~= seq![last]);
    lemma_lines_in_a_row(all, ended);
    assert(v + seq![last] =~= v.push(last));
}

/// White space around a text is trimmed away, and nothing else.
pub proof fn blanks_are_trimmed(a: Seq<char>, t: Seq<char>, b: Seq<char>)
    requires
        is_blank(a),
        is_blank(b),
        t.len() > 0 ==> !white_space(t[0]) && !white_space(t.last()),
    ensures
        trimmed(a + t + b) == t,
        trimmed_end(t + b) == t,
        t.len() > 0 ==> trimmed_start(a + t) == t,
    decreases a.len() + b.len(),
{
    if b.len() > 0 {
        let init = b.drop_last();
        assert forall|i: int| 0 <= i < init.len() implies white_space(#[trigger] init[i]) by {
            assert(init[i] == b[i]);
        }
        assert(white_space(b[b.len() - 1]));
        blanks_are_trimmed(Seq::empty(), t, init);
        assert((t + b).drop_last() =~= t + init);
        assert((t + b).last() == b.last());
    } else {
        assert(t + b =~= t);
    }
    lemma_blank_start(a, t + b);
    assert(a + t + b =~= a + (t + b));
    if t.len() > 0 {
        lemma_blank_start(a, t);
        assert(trimmed_start(t) == t);
        assert((t + b)[0] == t[0]);
    } else {
        assert(t + b =~= b);
        lemma_blank_start(b, Seq::empty());
        assert(b + Seq::<char>::empty() =~= b);
        assert(t =~= Seq::empty());
    }
}

proof fn lemma_blank_start(a: Seq<char>, t: Seq<char>)
    requires
        is_blank(a),
    ensures
        trimmed_start(a + t) == trimmed_start(t),
    decreases a.len(),
{
    if a.len() > 0 {
        let rest = a.skip(1);
        assert forall|i: int| 0 <= i < rest.len() implies white_space(#[trigger] rest[i]) by {
            assert(rest[i] == a[i + 1]);
        }
        lemma_blank_start(rest, t);
        assert(white_space(a[0]));
        assert((a + t)[0] == a[0]);
        assert((a + t).skip(1) =~= rest + t);
    } else {
        assert(a + t =~= t);
    }
}

proof fn lemma_word_len_is(w: Seq<char>, rest: Seq<char>)
    requires
        forall|i: int| 0 <= i < w.len() ==> !white_space(#[trigger] w[i]),
        rest.len() > 0 ==> white_space(rest[0]),
    ensures
        word_len(w + rest) == w.len(),
    decreases w.len(),
{
    if w.len() > 0 {
        let tail = w.skip(1);
        assert forall|i: int| 0 <= i < tail.len() implies !white_space(#[trigger] tail[i]) by {
            assert(tail[i] == w[i + 1]);
        }
        lemma_word_len_is(tail, rest);
        assert(!white_space(w[0]));
        assert((w + rest)[0] == w[0]);
        assert((w + rest).skip(1) =~= tail + rest);
    } else {
        assert(w + rest =~= rest);
    }
}

/// White space parts the words of a text and is in none of them: a word that the text
/// starts with, up to white space or the end, is the first.
pub proof fn words_are_parted(blank: Seq<char>, w: Seq<char>, rest: Seq<char>)
    requires
        is_blank(blank),
        is_word(w),
        rest.len() > 0 ==> white_space(rest[0]),
    ensures
        words_of(blank).len() == 0,
        words_of(blank + w + rest) == seq![w] + words_of(rest),
{
    lemma_blank_start(blank, Seq::empty());
    assert(blank + Seq::<char>::empty() =~= blank);
    let s = blank + w + rest;
    lemma_blank_start(blank, w + rest);
    assert(s =~= blank + (w + rest));
    assert(!white_space(w[0]));
    assert((w + rest)[0] == w[0]);
    let t = trimmed_start(s);
    assert(t == w + rest);
    lemma_word_len_is(w, rest);
    assert(t.take(w.len() as int) =~= w);
    assert(t.skip(w.len() as int) =~= rest);
}

/// Replacing acts on each character by itself.
pub proof fn replacing_acts_on_each(a: Seq<char>, b: Seq<char>, c: char, by: Seq<char>)
    ensures
        replaced(a + b, c, by) == replaced(a, c, by) + replaced(b, c, by),
        replaced(seq![c], c, by) == by,
        forall|d: char| d != c ==> #[trigger] replaced(seq![d], c, by) == seq![d],
    decreases b.len(),
{
    assert forall|d: char| #[trigger] replaced(seq![d], c, by) == (if d == c { by } else { seq![d] }) by {
        assert(seq![d].drop_last() =~= seq![]);
        reveal_with_fuel(replaced, 2);
        assert(replaced(seq![d], c, by) =~= (if d == c { by } else { seq![d] }));
    }
    if b.len() == 0 {
        assert(a + b =~= a);
        assert(replaced(a, c, by) + replaced(b, c, by) =~= replaced(a, c, by));
    } else {
        replacing_acts_on_each(a, b.drop_last(), c, by);
        assert((a + b).drop_last() =~= a + b.drop_last());
        assert((a + b).last() == b.last());
        assert(replaced(a + b, c, by) =~= replaced(a, c, by) + replaced(b, c, by));
    }
}

/// Joined texts: two lists in a row are joined as each is, with the separator between.
pub proof fn joining_in_a_row(a: Seq<Seq<char>>, b: Seq<Seq<char>>, sep: Seq<char>)
    requires
        a.len() > 0,
        b.len() > 0,
    ensures
        joined(a + b, sep) == joined(a, sep) + sep + joined(b, sep),
        joined(seq![a[0]], sep) == a[0],
    decreases b.len(),
{
    assert((a + b).last() == b.last());
    if b.len() == 1 {
        assert((a + b).drop_last() =~= a);
    } else {
        joining_in_a_row(a, b.drop_last(), sep);
        assert((a + b).drop_last() =~= a + b.drop_last());
        assert(joined(a + b, sep) =~= joined(a, sep) + sep + joined(b, sep));
    }
}

}

//! Text as a sequence of characters: the searching, trimming and joining that the rest of the
//! library is written with.

use vstd::prelude::*;
use vstd::string::*;

verus! {

// --- Library calls that are taken on trust ---

/// `String::push` puts one character behind the text it is called on.
pub assume_specification[ String::push ](s: &mut String, c: char)
    ensures
        final(s)@ == old(s)@.push(c),
;

/// `str::eq` answers whether two texts hold the same characters.
pub assume_specification[ <str as PartialEq<str>>::eq ](a: &str, b: &str) -> (r: bool)
    ensures
        r == (a@ == b@),
;

/// What `str::to_lowercase` makes of a text: every character in its small form by Unicode's
/// tables.
pub uninterp spec fn lowercased(s: Seq<char>) -> Seq<char>;

/// `str::to_lowercase` is a function of the text alone; its result goes by the name
/// [`lowercased`].
#[verifier::external_body]
pub(crate) fn lowercase(s: &str) -> (r: String)
    ensures
        r@ == lowercased(s@),
{
    s.to_lowercase()
}

// --- Lists of text ---

/// What a list of strings spells.
pub open spec fn texts(v: Seq<String>) -> Seq<Seq<char>> {
    v.map_values(|s: String| s@)
}

pub broadcast proof fn texts_push(v: Seq<String>, s: String)
    ensures
        #[trigger] texts(v.push(s)) == texts(v).push(s@),
{
    assert(texts(v.push(s)) =~= texts(v).push(s@));
}

pub broadcast proof fn texts_add(a: Seq<String>, b: Seq<String>)
    ensures
        #[trigger] texts(a + b) == texts(a) + texts(b),
{
    assert(texts(a + b) =~= texts(a) + texts(b));
}

/// A text with another behind it.
pub fn joined_to(head: &str, tail: String) -> (r: String)
    ensures
        r@ == head@ + tail@,
{
    let mut out = head.to_string();
    out.append(tail.as_str());
    out
}

/// The same text again.
pub fn copy(s: &String) -> (r: String)
    ensures
        r@ == s@,
{
    s.as_str().to_string()
}

/// What a text that may be missing spells.
pub open spec fn maybe_text(s: Option<String>) -> Option<Seq<char>> {
    match s {
        Some(t) => Some(t@),
        None => None,
    }
}

pub fn copy_maybe(s: &Option<String>) -> (r: Option<String>)
    ensures
        maybe_text(r) == maybe_text(*s),
{
    match s {
        Some(t) => Some(copy(t)),
        None => None,
    }
}

pub broadcast proof fn texts_len(v: Seq<String>)
    ensures
        #[trigger] texts(v).len() == v.len(),
{
}

/// The texts of `parts` in order, with `sep` between each two.
pub open spec fn joined(parts: Seq<Seq<char>>, sep: Seq<char>) -> Seq<char>
    decreases parts.len(),
{
    if parts.len() == 0 {
        Seq::empty()
    } else if parts.len() == 1 {
        parts[0]
    } else {
        joined(parts.drop_last(), sep) + sep + parts.last()
    }
}

pub fn join(parts: &Vec<String>, sep: &str) -> (r: String)
    ensures
        r@ == joined(texts(parts@), sep@),
{
    let mut out = String::new();
    let mut i: usize = 0;
    while i < parts.len()
        invariant
            i <= parts.len(),
            out@ == joined(texts(parts@).take(i as int), sep@),
        decreases parts.len() - i,
    {
        if i > 0 {
            out.append(sep);
        }
        out.append(parts[i].as_str());
        proof {
            let next = texts(parts@).take(i + 1);
            assert(next.drop_last() =~= texts(parts@).take(i as int));
            assert(next.last() == parts[i as int]@);
            if i == 0 {
                assert(out@ =~= parts[0]@);
            }
        }
        i += 1;
    }
    proof {
        assert(texts(parts@).take(parts.len() as int) =~= texts(parts@));
    }
    out
}

// --- Characters ---

/// The characters of a text.
pub fn chars_of(s: &str) -> (v: Vec<char>)
    ensures
        v@ == s@,
{
    let mut v: Vec<char> = Vec::new();
    for c in it: s.chars()
        invariant
            v@ =~= it.seq().take(it.index() as int),
            it.seq() == s@,
    {
        v.push(c);
    }
    v
}

/// The text that `c` spells between two positions.
pub fn text_between(c: &Vec<char>, from: usize, to: usize) -> (r: String)
    requires
        from <= to <= c.len(),
    ensures
        r@ == c@.subrange(from as int, to as int),
{
    let mut out = String::new();
    let mut i: usize = from;
    while i < to
        invariant
            from <= i <= to <= c.len(),
            out@ == c@.subrange(from as int, i as int),
        decreases to - i,
    {
        out.push(c[i]);
        i += 1;
        proof {
            assert(out@ =~= c@.subrange(from as int, i as int));
        }
    }
    out
}

pub fn text_of(c: &Vec<char>) -> (r: String)
    ensures
        r@ == c@,
{
    let r = text_between(c, 0, c.len());
    proof {
        assert(c@.subrange(0, c.len() as int) =~= c@);
    }
    r
}

/// The part of `c` between two positions.
pub fn chars_between(c: &Vec<char>, from: usize, to: usize) -> (r: Vec<char>)
    requires
        from <= to <= c.len(),
    ensures
        r@ == c@.subrange(from as int, to as int),
{
    let mut r: Vec<char> = Vec::new();
    let mut i: usize = from;
    while i < to
        invariant
            from <= i <= to <= c.len(),
            r@ == c@.subrange(from as int, i as int),
        decreases to - i,
    {
        r.push(c[i]);
        i += 1;
        proof {
            assert(r@ =~= c@.subrange(from as int, i as int));
        }
    }
    r
}

/// The characters Unicode counts as white space.
pub open spec fn white(c: char) -> bool {
    ||| 9 <= c as int <= 13
    ||| c as int == 0x20
    ||| c as int == 0x85
    ||| c as int == 0xa0
    ||| c as int == 0x1680
    ||| 0x2000 <= c as int <= 0x200a
    ||| c as int == 0x2028
    ||| c as int == 0x2029
    ||| c as int == 0x202f
    ||| c as int == 0x205f
    ||| c as int == 0x3000
}

pub fn is_white(c: char) -> (r: bool)
    ensures
        r == white(c),
{
    let n: u32 = c as u32;
    (9 <= n && n <= 13) || n == 0x20 || n == 0x85 || n == 0xa0 || n == 0x1680 || (0x2000 <= n && n
        <= 0x200a) || n == 0x2028 || n == 0x2029 || n == 0x202f || n == 0x205f || n == 0x3000
}

/// A small letter for each of the letters A to Z; every other character stays.
pub open spec fn small(c: char) -> char {
    if 'A' <= c <= 'Z' {
        (c as int + 32) as char
    } else {
        c
    }
}

pub open spec fn small_text(s: Seq<char>) -> Seq<char> {
    s.map_values(|c: char| small(c))
}

pub fn small_char(c: char) -> (r: char)
    ensures
        r == small(c),
{
    if 'A' <= c && c <= 'Z' {
        ((c as u8) + 32) as char
    } else {
        c
    }
}

pub fn small_chars(c: &Vec<char>) -> (r: Vec<char>)
    ensures
        r@ == small_text(c@),
{
    let mut r: Vec<char> = Vec::new();
    let mut i: usize = 0;
    while i < c.len()
        invariant
            i <= c.len(),
            r@ == small_text(c@).take(i as int),
        decreases c.len() - i,
    {
        r.push(small_char(c[i]));
        i += 1;
        proof {
            assert(r@ =~= small_text(c@).take(i as int));
        }
    }
    proof {
        assert(r@ =~= small_text(c@));
    }
    r
}

pub open spec fn hex_digit(c: char) -> bool {
    '0' <= c <= '9' || 'a' <= c <= 'f' || 'A' <= c <= 'F'
}

pub open spec fn alphanumeric(c: char) -> bool {
    '0' <= c <= '9' || 'a' <= c <= 'z' || 'A' <= c <= 'Z'
}

// --- Prefixes, suffixes, searching ---

pub open spec fn begins(s: Seq<char>, w: Seq<char>) -> bool {
    w.len() <= s.len() && s.take(w.len() as int) == w
}

pub open spec fn ends(s: Seq<char>, w: Seq<char>) -> bool {
    w.len() <= s.len() && s.skip(s.len() - w.len()) == w
}

/// `w` stands in `s` at position `i`.
pub open spec fn stands_at(s: Seq<char>, w: Seq<char>, i: int) -> bool {
    0 <= i && i + w.len() <= s.len() && s.subrange(i, i + w.len()) == w
}

/// `w` stands somewhere in `s`.
pub open spec fn holds(s: Seq<char>, w: Seq<char>) -> bool {
    exists|i: int| #[trigger] stands_at(s, w, i)
}

fn matches_at(s: &Vec<char>, w: &Vec<char>, i: usize) -> (r: bool)
    requires
        i + w.len() <= s.len(),
    ensures
        r == stands_at(s@, w@, i as int),
{
    let mut j: usize = 0;
    while j < w.len()
        invariant
            i + w.len() <= s.len(),
            j <= w.len(),
            forall|k: int| 0 <= k < j ==> s@[i + k] == w@[k],
        decreases w.len() - j,
    {
        if s[i + j] != w[j] {
            proof {
                assert(s@.subrange(i as int, i + w.len())[j as int] == s@[i + j]);
            }
            return false;
        }
        j += 1;
    }
    proof {
        assert(s@.subrange(i as int, i + w.len()) =~= w@);
    }
    true
}

pub fn starts(s: &str, w: &str) -> (r: bool)
    ensures
        r == begins(s@, w@),
{
    let a = chars_of(s);
    let b = chars_of(w);
    if b.len() > a.len() {
        return false;
    }
    proof {
        assert(a@.subrange(0, b.len() as int) =~= a@.take(b.len() as int));
    }
    matches_at(&a, &b, 0)
}

pub fn chars_end(a: &Vec<char>, w: &str) -> (r: bool)
    ensures
        r == ends(a@, w@),
{
    let b = chars_of(w);
    if b.len() > a.len() {
        return false;
    }
    proof {
        assert(a@.subrange(a.len() - b.len(), a.len() as int) =~= a@.skip(a.len() - b.len()));
    }
    matches_at(a, &b, a.len() - b.len())
}

pub fn contains(s: &str, w: &str) -> (r: bool)
    ensures
        r == holds(s@, w@),
{
    let a = chars_of(s);
    let b = chars_of(w);
    if b.len() > a.len() {
        proof {
            assert forall|k: int| !stands_at(s@, w@, k) by {}
        }
        return false;
    }
    let last: usize = a.len() - b.len();
    let mut i: usize = 0;
    while i <= last
        invariant
            a@ == s@,
            b@ == w@,
            b.len() <= a.len(),
            last == a.len() - b.len(),
            i <= last + 1,
            forall|k: int| 0 <= k < i ==> !stands_at(s@, w@, k),
        decreases last + 1 - i,
    {
        if matches_at(&a, &b, i) {
            return true;
        }
        if i == last {
            proof {
                assert forall|k: int| !stands_at(s@, w@, k) by {}
            }
            return false;
        }
        i += 1;
    }
    false
}

/// The first position from `i` on that holds `c`, or the length when none does.
pub open spec fn next_at(s: Seq<char>, c: char, i: int) -> int
    decreases s.len() - i,
{
    if i >= s.len() {
        s.len() as int
    } else if s[i] == c {
        i
    } else {
        next_at(s, c, i + 1)
    }
}

pub proof fn lemma_next_at(s: Seq<char>, c: char, i: int)
    requires
        0 <= i <= s.len(),
    ensures
        i <= next_at(s, c, i) <= s.len(),
        next_at(s, c, i) < s.len() ==> s[next_at(s, c, i)] == c,
        forall|k: int| i <= k < next_at(s, c, i) ==> s[k] != c,
    decreases s.len() - i,
{
    if i < s.len() && s[i] != c {
        lemma_next_at(s, c, i + 1);
    }
}

pub fn find_char(s: &Vec<char>, c: char, from: usize) -> (r: usize)
    requires
        from <= s.len(),
    ensures
        r == next_at(s@, c, from as int),
        from <= r <= s.len(),
        r < s.len() ==> s@[r as int] == c,
{
    let mut i: usize = from;
    while i < s.len() && s[i] != c
        invariant
            from <= i <= s.len(),
            next_at(s@, c, from as int) == next_at(s@, c, i as int),
        decreases s.len() - i,
    {
        i += 1;
    }
    i
}

// --- Trimming ---

/// Which characters a trim takes off.
pub enum CharSet {
    White,
    One(char),
    Two(char, char),
}

impl CharSet {
    pub open spec fn has(self, c: char) -> bool {
        match self {
            CharSet::White => white(c),
            CharSet::One(a) => c == a,
            CharSet::Two(a, b) => c == a || c == b,
        }
    }

    fn includes(&self, c: char) -> (r: bool)
        ensures
            r == self.has(c),
    {
        match self {
            CharSet::White => is_white(c),
            CharSet::One(a) => c == *a,
            CharSet::Two(a, b) => c == *a || c == *b,
        }
    }
}

pub open spec fn trim_front(s: Seq<char>, set: CharSet) -> Seq<char>
    decreases s.len(),
{
    if s.len() > 0 && set.has(s[0]) {
        trim_front(s.skip(1), set)
    } else {
        s
    }
}

pub open spec fn trim_back(s: Seq<char>, set: CharSet) -> Seq<char>
    decreases s.len(),
{
    if s.len() > 0 && set.has(s.last()) {
        trim_back(s.drop_last(), set)
    } else {
        s
    }
}

/// `s` without the characters of `set` at either end.
pub open spec fn trim_both(s: Seq<char>, set: CharSet) -> Seq<char> {
    trim_back(trim_front(s, set), set)
}

/// `s` without the white space at either end.
pub open spec fn trimmed(s: Seq<char>) -> Seq<char> {
    trim_both(s, CharSet::White)
}

/// Trimming the end of a text that stays at its end takes only from what stands behind.
pub proof fn lemma_trim_behind(a: Seq<char>, b: Seq<char>, set: CharSet)
    requires
        a.len() > 0,
        !set.has(a.last()),
    ensures
        trim_back(a + b, set) == a + trim_back(b, set),
    decreases b.len(),
{
    if b.len() == 0 {
        assert(a + b =~= a);
        assert(a + trim_back(b, set) =~= a);
    } else {
        assert((a + b).last() == b.last());
        assert((a + b).drop_last() =~= a + b.drop_last());
        if set.has(b.last()) {
            lemma_trim_behind(a, b.drop_last(), set);
        }
    }
}

pub fn front(s: Vec<char>, set: &CharSet) -> (r: Vec<char>)
    ensures
        r@ == trim_front(s@, *set),
{
    let mut i: usize = 0;
    proof {
        assert(s@.skip(0) =~= s@);
    }
    while i < s.len() && set.includes(s[i])
        invariant
            i <= s.len(),
            trim_front(s@, *set) == trim_front(s@.skip(i as int), *set),
        decreases s.len() - i,
    {
        proof {
            assert(s@.skip(i as int).skip(1) =~= s@.skip(i + 1));
        }
        i += 1;
    }
    let r = chars_between(&s, i, s.len());
    proof {
        assert(r@ =~= s@.skip(i as int));
    }
    r
}

pub fn back(s: Vec<char>, set: &CharSet) -> (r: Vec<char>)
    ensures
        r@ == trim_back(s@, *set),
{
    let mut n: usize = s.len();
    proof {
        assert(s@.take(n as int) =~= s@);
    }
    while n > 0 && set.includes(s[n - 1])
        invariant
            n <= s.len(),
            trim_back(s@, *set) == trim_back(s@.take(n as int), *set),
        decreases n,
    {
        proof {
            assert(s@.take(n as int).drop_last() =~= s@.take(n - 1));
        }
        n -= 1;
    }
    let r = chars_between(&s, 0, n);
    proof {
        assert(r@ =~= s@.take(n as int));
    }
    r
}

pub fn trim_chars(s: Vec<char>, set: &CharSet) -> (r: Vec<char>)
    ensures
        r@ == trim_both(s@, *set),
{
    back(front(s, set), set)
}

/// A text without the white space around it.
pub fn trim_text(s: &str) -> (r: String)
    ensures
        r@ == trimmed(s@),
{
    text_of(&trim_chars(chars_of(s), &CharSet::White))
}

/// Whether a text is white space throughout.
pub fn is_blank(s: &str) -> (r: bool)
    ensures
        r == (trimmed(s@).len() == 0),
{
    trim_chars(chars_of(s), &CharSet::White).len() == 0
}

// --- Splitting ---

/// The pieces of `s` between the occurrences of `sep`.
pub open spec fn pieces(s: Seq<char>, sep: char) -> Seq<Seq<char>>
    decreases s.len(),
{
    let n = next_at(s, sep, 0);
    if 0 <= n < s.len() {
        seq![s.take(n)] + pieces(s.skip(n + 1), sep)
    } else {
        seq![s]
    }
}

/// A text whose first separator comes right behind `a` is cut there.
pub proof fn lemma_pieces_split(a: Seq<char>, rest: Seq<char>, sep: char)
    requires
        !a.contains(sep),
    ensures
        pieces(a + seq![sep] + rest, sep) == seq![a] + pieces(rest, sep),
        pieces(a, sep) == seq![a],
{
    let s = a + seq![sep] + rest;
    lemma_next_at(s, sep, 0);
    lemma_next_at(a, sep, 0);
    let n = next_at(s, sep, 0);
    assert(s[a.len() as int] == sep);
    if n < a.len() {
        assert(a[n] == s[n]);
    }
    assert(s.take(n) =~= a);
    assert(s.skip(n + 1) =~= rest);
    let m = next_at(a, sep, 0);
    if m < a.len() {
        assert(a.contains(sep));
    }
}

/// What lists of characters spell.
pub open spec fn spelled(v: Seq<Vec<char>>) -> Seq<Seq<char>> {
    v.map_values(|c: Vec<char>| c@)
}

pub fn split(s: &Vec<char>, sep: char) -> (r: Vec<Vec<char>>)
    ensures
        spelled(r@) == pieces(s@, sep),
{
    let mut r: Vec<Vec<char>> = Vec::new();
    let mut from: usize = 0;
    proof {
        assert(s@.skip(0) =~= s@);
        assert(spelled(r@) + pieces(s@, sep) =~= pieces(s@, sep));
    }
    loop
        invariant
            from <= s.len(),
            spelled(r@) + pieces(s@.skip(from as int), sep) == pieces(s@, sep),
        decreases s.len() - from,
    {
        let at = find_char(s, sep, from);
        let ghost rest = s@.skip(from as int);
        proof {
            lemma_next_at_skip(s@, sep, from as int);
            lemma_next_at(rest, sep, 0);
        }
        let piece = chars_between(s, from, at);
        let ghost before = r@;
        r.push(piece);
        proof {
            assert(piece@ =~= rest.take(at - from));
            assert(spelled(r@) =~= spelled(before).push(piece@));
        }
        if at == s.len() {
            proof {
                assert(rest.take(at - from) =~= rest);
                assert(spelled(r@) =~= spelled(before) + seq![rest]);
            }
            return r;
        }
        proof {
            assert(rest.skip(at - from + 1) =~= s@.skip(at + 1));
            assert(spelled(before) + (seq![piece@] + pieces(s@.skip(at + 1), sep)) =~= spelled(r@)
                + pieces(s@.skip(at + 1), sep));
        }
        from = at + 1;
    }
}

pub proof fn lemma_next_at_skip(s: Seq<char>, c: char, from: int)
    requires
        0 <= from <= s.len(),
    ensures
        next_at(s.skip(from), c, 0) == next_at(s, c, from) - from,
{
    lemma_next_at_shift(s, c, from, 0);
}

proof fn lemma_next_at_shift(s: Seq<char>, c: char, from: int, i: int)
    requires
        0 <= from <= s.len(),
        0 <= i <= s.len() - from,
    ensures
        next_at(s.skip(from), c, i) == next_at(s, c, from + i) - from,
    decreases s.len() - from - i,
{
    if i < s.len() - from && s[from + i] != c {
        lemma_next_at_shift(s, c, from, i + 1);
    }
}

/// The first line of a text, without the white space around it; `None` where there is no text.
pub open spec fn first_line(s: Seq<char>) -> Option<Seq<char>> {
    if s.len() == 0 {
        None
    } else {
        Some(trimmed(s.take(next_at(s, '\n', 0))))
    }
}

pub fn line_at_front(s: &str) -> (r: Option<String>)
    ensures
        maybe_text(r) == first_line(s@),
{
    let chars = chars_of(s);
    if chars.len() == 0 {
        return None;
    }
    let end = find_char(&chars, '\n', 0);
    let line = chars_between(&chars, 0, end);
    proof {
        assert(line@ =~= s@.take(end as int));
    }
    Some(text_of(&trim_chars(line, &CharSet::White)))
}

/// The last of the first `k` lines that is not blank, without the white space around it.
pub open spec fn last_spoken(lines: Seq<Seq<char>>, k: int) -> Option<Seq<char>>
    decreases k,
{
    if k <= 0 {
        None
    } else if trimmed(lines[k - 1]).len() > 0 {
        Some(trimmed(lines[k - 1]))
    } else {
        last_spoken(lines, k - 1)
    }
}

/// How many characters stand before the first white space.
pub open spec fn word_len(s: Seq<char>) -> int
    decreases s.len(),
{
    if s.len() > 0 && !white(s[0]) {
        1 + word_len(s.skip(1))
    } else {
        0
    }
}

pub proof fn lemma_trim_front_len(s: Seq<char>, set: CharSet)
    ensures
        trim_front(s, set).len() <= s.len(),
        trim_front(s, set).len() > 0 ==> !set.has(trim_front(s, set)[0]),
    decreases s.len(),
{
    if s.len() > 0 && set.has(s[0]) {
        lemma_trim_front_len(s.skip(1), set);
    }
}

pub proof fn lemma_word_len(s: Seq<char>)
    ensures
        0 <= word_len(s) <= s.len(),
        s.len() > 0 && !white(s[0]) ==> word_len(s) > 0,
    decreases s.len(),
{
    if s.len() > 0 && !white(s[0]) {
        lemma_word_len(s.skip(1));
    }
}

/// The words of `s`: what stands between stretches of white space.
pub open spec fn words(s: Seq<char>) -> Seq<Seq<char>>
    decreases s.len(),
{
    let t = trim_front(s, CharSet::White);
    if t.len() == 0 {
        Seq::empty()
    } else {
        proof {
            lemma_trim_front_len(s, CharSet::White);
            lemma_word_len(t);
        }
        seq![t.take(word_len(t))] + words(t.skip(word_len(t)))
    }
}

fn word_run(t: &Vec<char>) -> (n: usize)
    ensures
        n == word_len(t@),
        n <= t.len(),
{
    let mut n: usize = 0;
    proof {
        assert(t@.skip(0) =~= t@);
        lemma_word_len(t@);
    }
    while n < t.len() && !is_white(t[n])
        invariant
            n <= t.len(),
            word_len(t@) == n + word_len(t@.skip(n as int)),
        decreases t.len() - n,
    {
        proof {
            assert(t@.skip(n as int).skip(1) =~= t@.skip(n + 1));
        }
        n += 1;
    }
    n
}

pub fn split_words(s: &Vec<char>) -> (r: Vec<Vec<char>>)
    ensures
        spelled(r@) == words(s@),
{
    let mut r: Vec<Vec<char>> = Vec::new();
    let mut rest = chars_between(s, 0, s.len());
    proof {
        assert(rest@ =~= s@);
        assert(spelled(r@) + words(s@) =~= words(s@));
    }
    loop
        invariant
            spelled(r@) + words(rest@) == words(s@),
        decreases rest.len(),
    {
        let ghost whole = rest@;
        let t = front(rest, &CharSet::White);
        proof {
            lemma_trim_front_len(whole, CharSet::White);
            lemma_word_len(t@);
        }
        if t.len() == 0 {
            proof {
                assert(spelled(r@) + words(whole) =~= spelled(r@));
            }
            return r;
        }
        let n = word_run(&t);
        let word = chars_between(&t, 0, n);
        let ghost before = r@;
        r.push(word);
        rest = chars_between(&t, n, t.len());
        proof {
            assert(word@ =~= t@.take(n as int));
            assert(rest@ =~= t@.skip(n as int));
            assert(spelled(r@) =~= spelled(before).push(word@));
            assert(spelled(before) + (seq![word@] + words(rest@)) =~= spelled(r@) + words(rest@));
        }
    }
}

// --- The order of texts ---

/// The place where one text comes before another: all is alike up to it, and there the first text
/// ends or has the smaller character.
pub open spec fn parts_at(a: Seq<char>, b: Seq<char>, k: int) -> bool {
    &&& 0 <= k < b.len()
    &&& k <= a.len()
    &&& forall|j: int| 0 <= j < k ==> #[trigger] a[j] == b[j]
    &&& k == a.len() || a[k] < b[k]
}

/// A text that sorts before another.
pub open spec fn sorts_before(a: Seq<char>, b: Seq<char>) -> bool {
    exists|k: int| parts_at(a, b, k)
}

/// Of two texts at most one sorts before the other, and none before itself.
pub proof fn lemma_one_way(a: Seq<char>, b: Seq<char>)
    requires
        sorts_before(a, b),
    ensures
        !sorts_before(b, a),
        a != b,
{
    let k = choose|k: int| parts_at(a, b, k);
    if sorts_before(b, a) {
        let m = choose|m: int| parts_at(b, a, m);
        if k < m {
            assert(b[k] == a[k]);
        } else if m < k {
            assert(a[m] == b[m]);
        }
    }
}

/// A text that sorts before a second sorts before whatever the second sorts before.
pub proof fn lemma_sorts_on(a: Seq<char>, b: Seq<char>, c: Seq<char>)
    requires
        sorts_before(a, b),
        sorts_before(b, c),
    ensures
        sorts_before(a, c),
{
    let k = choose|k: int| parts_at(a, b, k);
    let m = choose|m: int| parts_at(b, c, m);
    let at = if k < m {
        k
    } else {
        m
    };
    assert forall|j: int| 0 <= j < at implies #[trigger] a[j] == c[j] by {
        assert(a[j] == b[j]);
        assert(b[j] == c[j]);
    }
    if k < m {
        assert(b[k] == c[k]);
    } else if m < k {
        assert(a[m] == b[m]);
    }
    assert(parts_at(a, c, at));
}

/// Whether one text sorts before another, character by character.
pub fn comes_before(a: &str, b: &str) -> (r: bool)
    ensures
        r == sorts_before(a@, b@),
{
    let x = chars_of(a);
    let y = chars_of(b);
    let mut i: usize = 0;
    while i < x.len() && i < y.len() && x[i] == y[i]
        invariant
            i <= x.len(),
            i <= y.len(),
            forall|j: int| 0 <= j < i ==> #[trigger] x@[j] == y@[j],
        decreases x.len() - i,
    {
        i += 1;
    }
    let first = i < y.len() && (i == x.len() || x[i] < y[i]);
    proof {
        if first {
            assert(parts_at(a@, b@, i as int));
        } else if sorts_before(a@, b@) {
            let k = choose|k: int| parts_at(a@, b@, k);
            if i < k {
                assert(a@[i as int] == b@[i as int]);
            } else if k < i {
                assert(x@[k] == y@[k]);
            }
        }
    }
    first
}

/// Two pieces of one length order the texts that are alike in front of them.
pub proof fn lemma_piece_decides(
    head: Seq<char>,
    a: Seq<char>,
    b: Seq<char>,
    x: Seq<char>,
    y: Seq<char>,
)
    requires
        a.len() == b.len(),
        sorts_before(a, b),
    ensures
        sorts_before(head + a + x, head + b + y),
{
    let k = choose|k: int| parts_at(a, b, k);
    let s = head + a + x;
    let t = head + b + y;
    let at = head.len() + k;
    assert forall|j: int| 0 <= j < at implies #[trigger] s[j] == t[j] by {
        if j >= head.len() {
            assert(a[j - head.len()] == b[j - head.len()]);
        }
    }
    assert(s[at] == a[k] && t[at] == b[k]);
    assert(parts_at(s, t, at));
}

// --- What holds of words and lines ---

proof fn lemma_blank_front(blank: Seq<char>, s: Seq<char>, set: CharSet)
    requires
        forall|i: int| 0 <= i < blank.len() ==> set.has(#[trigger] blank[i]),
        s.len() > 0 ==> !set.has(s[0]),
    ensures
        trim_front(blank + s, set) == s,
    decreases blank.len(),
{
    if blank.len() == 0 {
        assert(blank + s =~= s);
    } else {
        assert((blank + s)[0] == blank[0]);
        assert((blank + s).skip(1) =~= blank.skip(1) + s);
        lemma_blank_front(blank.skip(1), s, set);
    }
}

proof fn lemma_word_ends(word: Seq<char>, s: Seq<char>)
    requires
        forall|i: int| 0 <= i < word.len() ==> !white(#[trigger] word[i]),
        s.len() > 0 ==> white(s[0]),
    ensures
        word_len(word + s) == word.len(),
    decreases word.len(),
{
    if word.len() == 0 {
        assert(word + s =~= s);
    } else {
        assert((word + s)[0] == word[0]);
        assert((word + s).skip(1) =~= word.skip(1) + s);
        lemma_word_ends(word.skip(1), s);
    }
}

/// White space parts words and belongs to none: a word that stands before white space or the end,
/// whatever white space stands before it, is the first, and what follows it holds the others.
pub proof fn law_white_space_parts_words(blank: Seq<char>, word: Seq<char>, s: Seq<char>)
    requires
        forall|i: int| 0 <= i < blank.len() ==> white(#[trigger] blank[i]),
        forall|i: int| 0 <= i < word.len() ==> !white(#[trigger] word[i]),
        s.len() > 0 ==> white(s[0]),
    ensures
        word.len() > 0 ==> words(blank + word + s) == seq![word] + words(s),
        words(blank) == Seq::<Seq<char>>::empty(),
{
    let none = Seq::<char>::empty();
    lemma_blank_front(blank, none, CharSet::White);
    assert(blank + none =~= blank);
    if word.len() > 0 {
        assert(blank + word + s =~= blank + (word + s));
        assert((word + s)[0] == word[0]);
        lemma_blank_front(blank, word + s, CharSet::White);
        lemma_word_ends(word, s);
        assert((word + s).take(word.len() as int) =~= word);
        assert((word + s).skip(word.len() as int) =~= s);
    }
}

/// The last line that says something is the one that is told, without the white space round it:
/// no line behind it says anything.
pub proof fn law_the_last_line_that_speaks_is_told(lines: Seq<Seq<char>>, k: int)
    requires
        0 <= k <= lines.len(),
    ensures
        last_spoken(lines, k) is None <==> forall|i: int|
            0 <= i < k ==> trimmed(#[trigger] lines[i]).len() == 0,
        forall|i: int|
            0 <= i < k && trimmed(#[trigger] lines[i]).len() > 0 && (forall|j: int|
                i < j < k ==> trimmed(#[trigger] lines[j]).len() == 0) ==> last_spoken(lines, k)
                == Some(trimmed(lines[i])),
    decreases k,
{
    if k > 0 {
        law_the_last_line_that_speaks_is_told(lines, k - 1);
    }
}

} // verus!

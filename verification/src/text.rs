//! Text as sequences of characters: white space, words, lines and numbers.
//!
//! Everything the transcript formats are made of. A string is spoken of by its
//! view, the sequence of its characters; the functions here say what they do to
//! that sequence.

use vstd::prelude::*;
use vstd::string::*;

verus! {

/// `String::push`: the character becomes the last one of the string.
pub assume_specification[ String::push ](s: &mut String, c: char)
    ensures
        final(s)@ == old(s)@.push(c),
;

/// The views of a sequence of strings.
pub open spec fn views(v: Seq<String>) -> Seq<Seq<char>> {
    Seq::new(v.len(), |i: int| v[i]@)
}

/// The view of an optional string.
pub open spec fn view_of(s: Option<String>) -> Option<Seq<char>> {
    match s {
        Some(t) => Some(t@),
        None => None,
    }
}

/// The characters of `s`, one by one.
pub fn chars_of(s: &str) -> (r: Vec<char>)
    ensures
        r@ == s@,
{
    let mut r: Vec<char> = Vec::new();
    for c in it: s.chars()
        invariant
            r@ == s@.take(it.index() as int),
            it.seq() == s@,
    {
        r.push(c);
    }
    assert(s@.take(s@.len() as int) == s@);
    r
}

/// The string made of the characters `from..to` of `chars`.
pub fn string_of(chars: &[char], from: usize, to: usize) -> (r: String)
    requires
        from <= to <= chars@.len(),
    ensures
        r@ == chars@.subrange(from as int, to as int),
{
    let mut r: String = String::new();
    let mut i: usize = from;
    while i < to
        invariant
            from <= i <= to <= chars@.len(),
            r@ == chars@.subrange(from as int, i as int),
        decreases to - i,
    {
        r.push(chars[i]);
        i += 1;
        assert(chars@.subrange(from as int, i as int) == chars@.subrange(
            from as int,
            i - 1,
        ).push(chars@[i - 1]));
    }
    r
}

/// Whether two texts are the same.
pub fn same(a: &str, b: &str) -> (r: bool)
    ensures
        r == (a@ == b@),
{
    a.to_owned() == b.to_owned()
}

// ---------------------------------------------------------------------------
// White space
// ---------------------------------------------------------------------------

/// Unicode's `White_Space` property.
pub open spec fn white(c: char) -> bool {
    let v = c as u32;
    ||| 0x09 <= v <= 0x0d
    ||| v == 0x20
    ||| v == 0x85
    ||| v == 0xa0
    ||| v == 0x1680
    ||| 0x2000 <= v <= 0x200a
    ||| v == 0x2028
    ||| v == 0x2029
    ||| v == 0x202f
    ||| v == 0x205f
    ||| v == 0x3000
}

/// Whether `c` has Unicode's `White_Space` property.
pub fn is_white(c: char) -> (r: bool)
    ensures
        r == white(c),
{
    let v: u32 = c as u32;
    (0x09 <= v && v <= 0x0d) || v == 0x20 || v == 0x85 || v == 0xa0 || v == 0x1680 || (0x2000 <= v
        && v <= 0x200a) || v == 0x2028 || v == 0x2029 || v == 0x202f || v == 0x205f || v == 0x3000
}

/// `s` without the white space it begins with.
pub open spec fn trim_start_of(s: Seq<char>) -> Seq<char>
    decreases s.len(),
{
    if s.len() > 0 && white(s[0]) {
        trim_start_of(s.skip(1))
    } else {
        s
    }
}

/// `s` without the white space it ends with.
pub open spec fn trim_end_of(s: Seq<char>) -> Seq<char>
    decreases s.len(),
{
    if s.len() > 0 && white(s.last()) {
        trim_end_of(s.drop_last())
    } else {
        s
    }
}

/// `s` without the white space at either end.
pub open spec fn trimmed(s: Seq<char>) -> Seq<char> {
    trim_end_of(trim_start_of(s))
}

/// Whether `s` neither begins nor ends with white space.
pub open spec fn tight(s: Seq<char>) -> bool {
    s.len() > 0 ==> !white(s[0]) && !white(s.last())
}

/// Whether `s` is white space and nothing else.
pub open spec fn blank(s: Seq<char>) -> bool {
    forall|i: int| 0 <= i < s.len() ==> white(#[trigger] s[i])
}

proof fn lemma_trim_start(s: Seq<char>)
    ensures
        trim_start_of(s).len() <= s.len(),
        trim_start_of(s) == s.skip(s.len() - trim_start_of(s).len()),
        blank(s.take(s.len() - trim_start_of(s).len())),
        trim_start_of(s).len() > 0 ==> !white(trim_start_of(s)[0]),
    decreases s.len(),
{
    if s.len() > 0 && white(s[0]) {
        let t = s.skip(1);
        lemma_trim_start(t);
        let k = t.len() - trim_start_of(t).len();
        assert(t.skip(k) == s.skip(k + 1));
        assert forall|i: int| 0 <= i < k + 1 implies white(#[trigger] s.take(k + 1)[i]) by {
            if i > 0 {
                assert(s.take(k + 1)[i] == t.take(k)[i - 1]);
            }
        }
    } else {
        assert(s.skip(0) == s);
    }
}

proof fn lemma_trim_end(s: Seq<char>)
    ensures
        trim_end_of(s).len() <= s.len(),
        trim_end_of(s) == s.take(trim_end_of(s).len() as int),
        blank(s.skip(trim_end_of(s).len() as int)),
        trim_end_of(s).len() > 0 ==> !white(trim_end_of(s).last()),
    decreases s.len(),
{
    if s.len() > 0 && white(s.last()) {
        let t = s.drop_last();
        lemma_trim_end(t);
        let k = trim_end_of(t).len() as int;
        assert(t.take(k) == s.take(k));
        assert forall|i: int| 0 <= i < s.skip(k).len() implies white(#[trigger] s.skip(k)[i]) by {
            if i < s.len() - k - 1 {
                assert(s.skip(k)[i] == t.skip(k)[i]);
            }
        }
    } else {
        assert(s.take(s.len() as int) == s);
    }
}

/// What is left of a text without the white space it ends with begins as it did.
pub proof fn lemma_trim_end_begins(s: Seq<char>)
    ensures
        trim_end_of(s).len() <= s.len(),
        trim_end_of(s).len() > 0 ==> trim_end_of(s)[0] == s[0],
{
    lemma_trim_end(s);
}

/// Trimming leaves a middle piece of the text, with white space alone on
/// either side of it.
pub proof fn lemma_trimmed(s: Seq<char>)
    ensures
        tight(trimmed(s)),
        exists|i: int, j: int|
            0 <= i <= j <= s.len() && trimmed(s) == #[trigger] s.subrange(i, j) && blank(s.take(i))
                && blank(s.skip(j)),
{
    let t = trim_start_of(s);
    lemma_trim_start(s);
    lemma_trim_end(t);
    let i = s.len() - t.len();
    let j = i + trimmed(s).len();
    assert(trimmed(s) == s.subrange(i, j));
    if trimmed(s).len() > 0 {
        assert(trimmed(s)[0] == t[0]);
    }
    if t.len() == 0 {
        assert(s.skip(j) == Seq::<char>::empty());
    } else {
        assert(s.skip(j) == t.skip(trimmed(s).len() as int));
    }
}

/// Text with no white space at its ends is left as it is.
pub proof fn lemma_trim_tight(s: Seq<char>)
    requires
        tight(s),
    ensures
        trimmed(s) == s,
{
}

/// White space alone trims to nothing, and nothing else does.
pub proof fn lemma_trim_blank(s: Seq<char>)
    ensures
        trimmed(s).len() == 0 <==> blank(s),
{
    lemma_trim_start(s);
    let t = trim_start_of(s);
    lemma_trim_end(t);
    if trimmed(s).len() == 0 {
        if t.len() > 0 {
            assert(t.skip(0) == t);
            assert(white(t.skip(0)[0]));
        }
        assert(s.take(s.len() as int) == s);
    }
    if blank(s) {
        if t.len() > 0 {
            assert(t[0] == s[s.len() - t.len()]);
        }
    }
}

/// `s` without the white space at either end.
pub fn trim(s: &str) -> (r: String)
    ensures
        r@ == trimmed(s@),
{
    let c: Vec<char> = chars_of(s);
    let n: usize = c.len();
    let mut i: usize = 0;
    assert(s@.skip(0) == s@);
    while i < n && is_white(c[i])
        invariant
            n == c@.len(),
            c@ == s@,
            i <= n,
            trim_start_of(s@) == trim_start_of(s@.skip(i as int)),
        decreases n - i,
    {
        assert(s@.skip(i as int).skip(1) == s@.skip(i + 1));
        i += 1;
    }
    let ghost t = s@.skip(i as int);
    assert(trim_start_of(s@) == t);
    let mut j: usize = n;
    assert(t.take(t.len() as int) == t);
    while i < j && is_white(c[j - 1])
        invariant
            n == c@.len(),
            c@ == s@,
            i <= j <= n,
            t == s@.skip(i as int),
            trim_end_of(t) == trim_end_of(t.take(j - i)),
        decreases j,
    {
        assert(t.take(j - i).drop_last() == t.take(j - i - 1));
        j -= 1;
    }
    assert(t.take(j - i) == s@.subrange(i as int, j as int));
    string_of(c.as_slice(), i, j)
}

/// Whether `s` is white space and nothing else.
pub fn is_blank(s: &str) -> (r: bool)
    ensures
        r == blank(s@),
{
    proof {
        lemma_trim_blank(s@);
    }
    trim(s).as_str().is_empty()
}

// ---------------------------------------------------------------------------
// Words
// ---------------------------------------------------------------------------

/// How many words `s` holds: the runs of characters that are not white space.
pub open spec fn word_count_of(s: Seq<char>) -> nat
    decreases s.len(),
{
    if s.len() == 0 {
        0
    } else {
        word_count_of(s.drop_last()) + if !white(s.last()) && (s.len() == 1 || white(
            s[s.len() - 2],
        )) {
            1nat
        } else {
            0nat
        }
    }
}

/// How many words, separated by white space, `s` holds.
pub fn word_count(s: &str) -> (r: usize)
    ensures
        r == word_count_of(s@),
{
    let c: Vec<char> = chars_of(s);
    let mut words: usize = 0;
    let mut inside: bool = false;
    for i in 0..c.len()
        invariant
            c@ == s@,
            words <= i,
            words == word_count_of(s@.take(i as int)),
            inside == (i > 0 && !white(s@[i - 1])),
    {
        assert(s@.take(i + 1).drop_last() == s@.take(i as int));
        let here: bool = !is_white(c[i]);
        if here && !inside {
            words += 1;
        }
        inside = here;
    }
    assert(s@.take(s@.len() as int) == s@);
    words
}

// ---------------------------------------------------------------------------
// Lines
// ---------------------------------------------------------------------------

/// Where the first line feed of `s` stands, or its length if it has none.
pub open spec fn line_end_of(s: Seq<char>) -> nat
    decreases s.len(),
{
    if s.len() == 0 || s[0] == '\n' {
        0
    } else {
        1 + line_end_of(s.skip(1))
    }
}

/// A line without the carriage return that belongs to its line feed.
pub open spec fn without_return(s: Seq<char>) -> Seq<char> {
    if s.len() > 0 && s.last() == '\r' {
        s.drop_last()
    } else {
        s
    }
}

/// The lines of a text, each without its line ending. A line ends with a line
/// feed, or with a carriage return and a line feed; the last one need not end.
pub open spec fn lines_of(s: Seq<char>) -> Seq<Seq<char>>
    decreases s.len(),
{
    if s.len() == 0 {
        Seq::empty()
    } else if line_end_of(s) >= s.len() {
        seq![s]
    } else {
        seq![without_return(s.take(line_end_of(s) as int))] + lines_of(
            s.skip(line_end_of(s) as int + 1),
        )
    }
}

/// The first line feed is where `line_end_of` says it is.
pub proof fn lemma_line_end(s: Seq<char>)
    ensures
        line_end_of(s) <= s.len(),
        line_end_of(s) < s.len() ==> s[line_end_of(s) as int] == '\n',
        forall|i: int| 0 <= i < line_end_of(s) ==> s[i] != '\n',
    decreases s.len(),
{
    if s.len() > 0 && s[0] != '\n' {
        let t = s.skip(1);
        lemma_line_end(t);
        assert forall|i: int| 0 <= i < line_end_of(s) implies s[i] != '\n' by {
            if i > 0 {
                assert(s[i] == t[i - 1]);
            }
        }
    }
}

/// A position before which there is no line feed, and at which there is one or
/// the text ends, is the first line's end.
pub proof fn lemma_line_end_is(s: Seq<char>, n: int)
    requires
        0 <= n <= s.len(),
        n < s.len() ==> s[n] == '\n',
        forall|i: int| 0 <= i < n ==> s[i] != '\n',
    ensures
        line_end_of(s) == n,
{
    lemma_line_end(s);
}

/// A line put in front of a text is the first of its lines.
pub proof fn lemma_lines_cons(line: Seq<char>, rest: Seq<char>)
    requires
        forall|i: int| 0 <= i < line.len() ==> line[i] != '\n',
    ensures
        lines_of(line + seq!['\n'] + rest) == seq![without_return(line)] + lines_of(rest),
{
    let s = line + seq!['\n'] + rest;
    lemma_line_end_is(s, line.len() as int);
    assert(s.take(line.len() as int) == line);
    assert(s.skip(line.len() as int + 1) == rest);
}

/// The lines of a text that ends its last line stand before those of what follows
/// it.
pub proof fn lemma_lines_add(a: Seq<char>, b: Seq<char>)
    requires
        a.len() > 0 ==> a.last() == '\n',
    ensures
        lines_of(a + b) == lines_of(a) + lines_of(b),
    decreases a.len(),
{
    if a.len() == 0 {
        assert(a + b == b);
        assert(lines_of(a) + lines_of(b) == lines_of(b));
    } else {
        lemma_line_end(a);
        let n = line_end_of(a) as int;
        assert(n < a.len());
        let first = a.take(n);
        let rest = a.skip(n + 1);
        assert(a == first + seq!['\n'] + rest);
        assert(a + b == first + seq!['\n'] + (rest + b));
        if rest.len() > 0 {
            assert(rest.last() == a.last());
        }
        lemma_lines_cons(first, rest + b);
        lemma_lines_cons(first, rest);
        lemma_lines_add(rest, b);
        assert(seq![without_return(first)] + (lines_of(rest) + lines_of(b)) == seq![
            without_return(first),
        ] + lines_of(rest) + lines_of(b));
    }
}

/// The lines of `s`, each without its line ending.
pub fn lines(s: &str) -> (r: Vec<String>)
    ensures
        views(r@) == lines_of(s@),
{
    let c: Vec<char> = chars_of(s);
    let n: usize = c.len();
    let mut r: Vec<String> = Vec::new();
    let mut from: usize = 0;
    assert(s@.skip(0) == s@);
    assert(views(r@) + lines_of(s@.skip(0)) == lines_of(s@));
    while from < n
        invariant
            n == c@.len(),
            c@ == s@,
            from <= n,
            views(r@) + lines_of(s@.skip(from as int)) == lines_of(s@),
        decreases n - from,
    {
        let ghost rest = s@.skip(from as int);
        let mut to: usize = from;
        while to < n && c[to] != '\n'
            invariant
                n == c@.len(),
                c@ == s@,
                from <= to <= n,
                forall|i: int| from <= i < to ==> c@[i] != '\n',
            decreases n - to,
        {
            to += 1;
        }
        let ghost before = r@;
        proof {
            lemma_line_end_is(rest, to - from);
        }
        if to == n {
            r.push(string_of(c.as_slice(), from, n));
            assert(r@.last()@ == rest);
            assert(views(r@) == views(before).push(rest));
            assert(views(r@) == lines_of(s@));
            assert(s@.skip(n as int) == Seq::<char>::empty());
            assert(views(r@) + lines_of(s@.skip(n as int)) == views(r@));
            from = n;
        } else {
            let end: usize = if to > from && c[to - 1] == '\r' {
                to - 1
            } else {
                to
            };
            r.push(string_of(c.as_slice(), from, end));
            assert(r@.last()@ == without_return(rest.take(to - from)));
            assert(views(r@) == views(before).push(without_return(rest.take(to - from))));
            assert(rest.skip(to - from + 1) == s@.skip(to + 1));
            assert(views(before).push(without_return(rest.take(to - from))) + lines_of(
                s@.skip(to + 1),
            ) == views(before) + (seq![without_return(rest.take(to - from))] + lines_of(
                s@.skip(to + 1),
            )));
            from = to + 1;
        }
    }
    assert(s@.skip(n as int) == Seq::<char>::empty());
    assert(views(r@) + lines_of(s@.skip(n as int)) == views(r@));
    r
}

// ---------------------------------------------------------------------------
// Joining
// ---------------------------------------------------------------------------

/// The parts one after another, with `sep` between neighbours.
pub open spec fn joined(parts: Seq<Seq<char>>, sep: Seq<char>) -> Seq<char>
    decreases parts.len(),
{
    if parts.len() == 0 {
        Seq::empty()
    } else if parts.len() == 1 {
        parts[0]
    } else {
        joined(parts.drop_last(), sep) + sep + parts.last()
    }
}

/// The parts one after another, with `sep` between neighbours.
pub fn join(parts: &Vec<String>, sep: &str) -> (r: String)
    ensures
        r@ == joined(views(parts@), sep@),
{
    let mut r: String = String::new();
    for i in 0..parts.len()
        invariant
            r@ == joined(views(parts@).take(i as int), sep@),
    {
        assert(views(parts@).take(i + 1).drop_last() == views(parts@).take(i as int));
        if i > 0 {
            r.append(sep);
        }
        r.append(parts[i].as_str());
        assert(views(parts@).take(i + 1).last() == parts@[i as int]@);
        if i == 0 {
            assert(r@ == parts@[0]@);
        }
    }
    assert(views(parts@).take(parts@.len() as int) == views(parts@));
    r
}

/// The first part stands first.
pub proof fn lemma_joined_cons(first: Seq<char>, rest: Seq<Seq<char>>, sep: Seq<char>)
    requires
        rest.len() > 0,
    ensures
        joined(seq![first] + rest, sep) == first + sep + joined(rest, sep),
    decreases rest.len(),
{
    let all = seq![first] + rest;
    assert(all.drop_last() == seq![first] + rest.drop_last());
    if rest.len() == 1 {
        assert(all.drop_last() == seq![first]);
        assert(joined(all.drop_last(), sep) == first);
    } else {
        lemma_joined_cons(first, rest.drop_last(), sep);
        let middle = joined(rest.drop_last(), sep);
        assert(first + sep + middle + sep + rest.last() == first + sep + (middle + sep
            + rest.last()));
    }
}

/// The parts of one list stand before those of another.
pub proof fn lemma_joined_add(a: Seq<Seq<char>>, b: Seq<Seq<char>>, sep: Seq<char>)
    requires
        a.len() > 0,
        b.len() > 0,
    ensures
        joined(a + b, sep) == joined(a, sep) + sep + joined(b, sep),
    decreases b.len(),
{
    assert((a + b).drop_last() == a + b.drop_last());
    assert((a + b).last() == b.last());
    if b.len() == 1 {
        assert(a + b.drop_last() == a);
    } else {
        lemma_joined_add(a, b.drop_last(), sep);
        let front = joined(b.drop_last(), sep);
        assert(joined(a, sep) + sep + front + sep + b.last() == joined(a, sep) + sep + (front + sep
            + b.last()));
    }
}

/// Lines that are joined with line feeds, and the last of which is ended, are
/// the lines of what they make.
pub proof fn lemma_lines_of_joined(lines: Seq<Seq<char>>)
    requires
        lines.len() > 0,
        forall|i: int| 0 <= i < lines.len() ==> free_of(#[trigger] lines[i], '\n'),
        forall|i: int| 0 <= i < lines.len() ==> without_return(#[trigger] lines[i]) == lines[i],
    ensures
        lines_of(joined(lines, seq!['\n']).push('\n')) == lines,
    decreases lines.len(),
{
    let first = lines[0];
    let rest = lines.skip(1);
    assert(lines == seq![first] + rest);
    assert(free_of(lines[0], '\n'));
    if rest.len() == 0 {
        assert(joined(lines, seq!['\n']).push('\n') == first + seq!['\n'] + Seq::<char>::empty());
        lemma_lines_cons(first, Seq::empty());
        assert(lines_of(Seq::<char>::empty()) == Seq::<Seq<char>>::empty());
    } else {
        assert forall|i: int| 0 <= i < rest.len() implies free_of(#[trigger] rest[i], '\n') by {
            assert(rest[i] == lines[i + 1]);
        }
        assert forall|i: int| 0 <= i < rest.len() implies without_return(#[trigger] rest[i])
            == rest[i] by {
            assert(rest[i] == lines[i + 1]);
        }
        lemma_lines_of_joined(rest);
        lemma_joined_cons(first, rest, seq!['\n']);
        let tail = joined(rest, seq!['\n']).push('\n');
        assert(joined(lines, seq!['\n']).push('\n') == first + seq!['\n'] + tail);
        lemma_lines_cons(first, tail);
    }
}

// ---------------------------------------------------------------------------
// Searching
// ---------------------------------------------------------------------------

/// Whether `needle` stands in `s` at position `i`.
pub open spec fn stands_at(s: Seq<char>, needle: Seq<char>, i: int) -> bool {
    0 <= i && i + needle.len() <= s.len() && s.subrange(i, i + needle.len()) == needle
}

/// Whether `needle` stands anywhere in `s`.
pub open spec fn holds(s: Seq<char>, needle: Seq<char>) -> bool {
    exists|i: int| stands_at(s, needle, i)
}

/// Whether `s` begins with `prefix`.
pub open spec fn begins_with(s: Seq<char>, prefix: Seq<char>) -> bool {
    stands_at(s, prefix, 0)
}

fn chars_stand_at(s: &Vec<char>, needle: &Vec<char>, i: usize) -> (r: bool)
    ensures
        r == stands_at(s@, needle@, i as int),
{
    if needle.len() > s.len() || i > s.len() - needle.len() {
        return false;
    }
    let mut k: usize = 0;
    while k < needle.len()
        invariant
            i + needle@.len() <= s.len(),
            k <= needle@.len(),
            forall|j: int| 0 <= j < k ==> s@[i + j] == needle@[j],
        decreases needle@.len() - k,
    {
        if s[i + k] != needle[k] {
            assert(s@.subrange(i as int, i + needle@.len())[k as int] != needle@[k as int]);
            return false;
        }
        k += 1;
    }
    assert(s@.subrange(i as int, i + needle@.len()) == needle@);
    true
}

/// Whether `needle` stands anywhere in `s`.
pub fn contains(s: &str, needle: &str) -> (r: bool)
    ensures
        r == holds(s@, needle@),
{
    let c: Vec<char> = chars_of(s);
    let d: Vec<char> = chars_of(needle);
    let mut i: usize = 0;
    while i < c.len()
        invariant
            c@ == s@,
            d@ == needle@,
            i <= c@.len(),
            forall|j: int| 0 <= j < i ==> !stands_at(s@, needle@, j),
        decreases c@.len() - i,
    {
        if chars_stand_at(&c, &d, i) {
            return true;
        }
        i += 1;
    }
    chars_stand_at(&c, &d, i)
}

/// Whether `s` begins with `prefix`.
pub fn starts_with(s: &str, prefix: &str) -> (r: bool)
    ensures
        r == begins_with(s@, prefix@),
{
    let c: Vec<char> = chars_of(s);
    let d: Vec<char> = chars_of(prefix);
    chars_stand_at(&c, &d, 0)
}

/// Whether `name` is one of `names`.
pub fn contains_name(names: &Vec<String>, name: &str) -> (r: bool)
    ensures
        r == views(names@).contains(name@),
{
    for i in 0..names.len()
        invariant
            forall|j: int| 0 <= j < i ==> names@[j]@ != name@,
    {
        if same(names[i].as_str(), name) {
            assert(views(names@)[i as int] == name@);
            return true;
        }
    }
    false
}

/// Whether `c` occurs nowhere in `s`.
pub open spec fn free_of(s: Seq<char>, c: char) -> bool {
    forall|i: int| 0 <= i < s.len() ==> s[i] != c
}

/// What occurs in neither of two texts does not occur in both together.
pub proof fn lemma_free_add(a: Seq<char>, b: Seq<char>, c: char)
    requires
        free_of(a, c),
        free_of(b, c),
    ensures
        free_of(a + b, c),
{
    assert forall|i: int| 0 <= i < (a + b).len() implies (a + b)[i] != c by {
        if i >= a.len() {
            assert((a + b)[i] == b[i - a.len()]);
        }
    }
}

/// Where the first `c` ends one text, it ends it in only one way.
pub proof fn lemma_split_first(
    a: Seq<char>,
    rest_a: Seq<char>,
    b: Seq<char>,
    rest_b: Seq<char>,
    c: char,
)
    requires
        free_of(a, c),
        free_of(b, c),
        a + seq![c] + rest_a == b + seq![c] + rest_b,
    ensures
        a == b,
        rest_a == rest_b,
{
    let s = a + seq![c] + rest_a;
    let t = b + seq![c] + rest_b;
    if a.len() < b.len() {
        assert(s[a.len() as int] == c);
        assert(t[a.len() as int] == b[a.len() as int]);
    }
    if b.len() < a.len() {
        assert(t[b.len() as int] == c);
        assert(s[b.len() as int] == a[b.len() as int]);
    }
    assert(a == s.take(a.len() as int));
    assert(b == t.take(b.len() as int));
    assert(rest_a == s.skip(a.len() as int + 1));
    assert(rest_b == t.skip(b.len() as int + 1));
}

/// What follows the last `c` of a text is only one thing.
pub proof fn lemma_split_last(
    rest_a: Seq<char>,
    a: Seq<char>,
    rest_b: Seq<char>,
    b: Seq<char>,
    c: char,
)
    requires
        free_of(a, c),
        free_of(b, c),
        rest_a + seq![c] + a == rest_b + seq![c] + b,
    ensures
        a == b,
        rest_a == rest_b,
{
    let s = rest_a + seq![c] + a;
    let t = rest_b + seq![c] + b;
    assert(s.len() == t.len());
    if a.len() < b.len() {
        assert(s[rest_a.len() as int] == c);
        assert(t[rest_a.len() as int] == b[rest_a.len() - rest_b.len() - 1]);
    }
    if b.len() < a.len() {
        assert(t[rest_b.len() as int] == c);
        assert(s[rest_b.len() as int] == a[rest_b.len() - rest_a.len() - 1]);
    }
    assert(rest_a.len() == rest_b.len());
    assert(rest_a == s.take(rest_a.len() as int));
    assert(rest_b == t.take(rest_b.len() as int));
    assert(a == s.skip(rest_a.len() as int + 1));
    assert(b == t.skip(rest_b.len() as int + 1));
}

/// What follows the last `c` of a text, and all of it where there is none.
pub open spec fn after_last(s: Seq<char>, c: char) -> Seq<char>
    decreases s.len(),
{
    if s.len() == 0 {
        s
    } else if s.last() == c {
        Seq::empty()
    } else {
        after_last(s.drop_last(), c).push(s.last())
    }
}

/// What follows the last `c` of a text, and all of it where there is none.
pub fn behind_last(s: &str, c: char) -> (r: String)
    ensures
        r@ == after_last(s@, c),
{
    let chars: Vec<char> = chars_of(s);
    let n: usize = chars.len();
    let mut from: usize = n;
    assert(s@.take(n as int) == s@);
    assert(after_last(s@.take(n as int), c) + s@.skip(n as int) == after_last(s@, c));
    while from > 0 && chars[from - 1] != c
        invariant
            n == chars@.len(),
            chars@ == s@,
            from <= n,
            after_last(s@.take(from as int), c) + s@.skip(from as int) == after_last(s@, c),
        decreases from,
    {
        let ghost here = s@.take(from as int);
        assert(here.drop_last() == s@.take(from - 1));
        assert(s@.skip(from - 1) == seq![here.last()] + s@.skip(from as int));
        assert(after_last(here.drop_last(), c).push(here.last()) + s@.skip(from as int)
            == after_last(here.drop_last(), c) + s@.skip(from - 1));
        from -= 1;
    }
    assert(after_last(s@.take(from as int), c) == Seq::<char>::empty());
    assert(Seq::<char>::empty() + s@.skip(from as int) == s@.skip(from as int));
    assert(s@.skip(from as int) == s@.subrange(from as int, n as int));
    string_of(chars.as_slice(), from, n)
}

// ---------------------------------------------------------------------------
// Letters
// ---------------------------------------------------------------------------

/// `c`, an ASCII capital made small.
pub open spec fn small(c: char) -> char {
    if 'A' <= c <= 'Z' {
        ((c as u8) + 32) as u8 as char
    } else {
        c
    }
}

/// `s` with its ASCII capitals made small.
pub open spec fn smalls(s: Seq<char>) -> Seq<char> {
    Seq::new(s.len(), |i: int| small(s[i]))
}

/// `s` with its ASCII capitals made small.
pub fn ascii_lowercase(s: &str) -> (r: String)
    ensures
        r@ == smalls(s@),
{
    let c: Vec<char> = chars_of(s);
    let mut r: String = String::new();
    for i in 0..c.len()
        invariant
            c@ == s@,
            r@ == smalls(s@).take(i as int),
    {
        let d: char = c[i];
        if 'A' <= d && d <= 'Z' {
            r.push(((d as u8) + 32) as char);
        } else {
            r.push(d);
        }
        assert(r@ == smalls(s@).take(i + 1));
    }
    assert(smalls(s@).take(s@.len() as int) == smalls(s@));
    r
}

// ---------------------------------------------------------------------------
// Numbers
// ---------------------------------------------------------------------------

/// The character that stands for a number below ten.
pub open spec fn digit(n: nat) -> char {
    (48 + n) as u8 as char
}

/// Whether `c` is one of `0` to `9`.
pub open spec fn is_digit(c: char) -> bool {
    '0' <= c <= '9'
}

/// A number in decimal, without leading zeros.
pub open spec fn decimal_of(n: nat) -> Seq<char>
    decreases n,
{
    if n < 10 {
        seq![digit(n)]
    } else {
        decimal_of(n / 10).push(digit(n % 10))
    }
}

/// A number in decimal, with a zero in front where it has one digit only.
pub open spec fn pad2_of(n: nat) -> Seq<char> {
    if n < 10 {
        seq!['0', digit(n)]
    } else {
        decimal_of(n)
    }
}

/// Whether every character of `s` is one of `0` to `9`.
pub open spec fn all_digits(s: Seq<char>) -> bool {
    forall|i: int| 0 <= i < s.len() ==> is_digit(#[trigger] s[i])
}

/// What a sequence of digits is worth.
pub open spec fn value_of(s: Seq<char>) -> nat
    decreases s.len(),
{
    if s.len() == 0 {
        0
    } else {
        value_of(s.drop_last()) * 10 + ((s.last() as u32 - 48) as nat)
    }
}

/// A number is what its decimal is worth.
pub proof fn lemma_decimal(n: nat)
    ensures
        decimal_of(n).len() >= 1,
        n >= 10 ==> decimal_of(n).len() >= 2,
        all_digits(decimal_of(n)),
        value_of(decimal_of(n)) == n,
    decreases n,
{
    if n >= 10 {
        lemma_decimal(n / 10);
        assert(decimal_of(n).drop_last() == decimal_of(n / 10));
        assert(digit(n % 10) as u32 == 48 + n % 10);
    } else {
        assert(decimal_of(n).drop_last() == Seq::<char>::empty());
        assert(value_of(Seq::<char>::empty()) == 0);
        assert(digit(n) as u32 == 48 + n);
    }
}

/// A number is written on one line.
pub proof fn lemma_number_on_one_line(n: nat)
    ensures
        free_of(decimal_of(n), '\n'),
        free_of(pad2_of(n), '\n'),
{
    lemma_decimal(n);
    assert forall|i: int| 0 <= i < decimal_of(n).len() implies decimal_of(n)[i] != '\n' by {
        assert(is_digit(decimal_of(n)[i]));
    }
    if n < 10 {
        assert(digit(n) as u32 == 48 + n);
    }
}

/// Below a hundred, the two digits are the tens and the ones.
pub proof fn lemma_pad2_digits(n: nat)
    requires
        n < 100,
    ensures
        pad2_of(n) == seq![digit(n / 10), digit(n % 10)],
{
    if n < 10 {
        assert(digit(0) as u32 == 48);
        assert(digit(n / 10) == '0');
    } else {
        assert(decimal_of(n / 10) == seq![digit(n / 10)]);
        assert(seq![digit(n / 10)].push(digit(n % 10)) == seq![digit(n / 10), digit(n % 10)]);
    }
}

/// Different numbers have different decimals.
pub proof fn lemma_decimal_injective(a: nat, b: nat)
    requires
        decimal_of(a) == decimal_of(b),
    ensures
        a == b,
{
    lemma_decimal(a);
    lemma_decimal(b);
}

/// `n` in decimal.
pub fn decimal(n: u64) -> (r: String)
    ensures
        r@ == decimal_of(n as nat),
    decreases n,
{
    if n < 10 {
        let mut r: String = String::new();
        r.push((48u8 + n as u8) as char);
        assert(r@ == seq![digit(n as nat)]);
        r
    } else {
        let mut r: String = decimal(n / 10);
        r.push((48u8 + (n % 10) as u8) as char);
        r
    }
}

/// `n`, which may be wider than 64 bits, in decimal.
pub fn decimal_wide(n: u128) -> (r: String)
    ensures
        r@ == decimal_of(n as nat),
    decreases n,
{
    if n < 10 {
        decimal(n as u64)
    } else {
        let mut r: String = decimal_wide(n / 10);
        r.push((48u8 + (n % 10) as u8) as char);
        r
    }
}

/// `n` in decimal, with a zero in front where it has one digit only.
pub fn pad2(n: u64) -> (r: String)
    ensures
        r@ == pad2_of(n as nat),
{
    if n < 10 {
        let mut r: String = String::new();
        r.push('0');
        r.push((48u8 + n as u8) as char);
        assert(r@ == seq!['0', digit(n as nat)]);
        r
    } else {
        decimal(n)
    }
}

/// The number that `s` writes out: digits, after a plus sign or none, worth no
/// more than a `u64` holds.
pub open spec fn u64_of(s: Seq<char>) -> Option<u64> {
    let digits = if s.len() > 0 && s[0] == '+' {
        s.skip(1)
    } else {
        s
    };
    if digits.len() > 0 && all_digits(digits) && value_of(digits) <= u64::MAX {
        Some(value_of(digits) as u64)
    } else {
        None
    }
}

proof fn lemma_value_grows(s: Seq<char>, n: int)
    requires
        0 <= n <= s.len(),
        all_digits(s),
    ensures
        value_of(s.take(n)) <= value_of(s),
    decreases s.len() - n,
{
    if n < s.len() {
        lemma_value_grows(s, n + 1);
        assert(s.take(n + 1).drop_last() == s.take(n));
        assert(is_digit(s[n]));
    } else {
        assert(s.take(n) == s);
    }
}

/// The number that `s` writes out, if it is one and fits.
pub fn parse_u64(s: &str) -> (r: Option<u64>)
    ensures
        r == u64_of(s@),
{
    let c: Vec<char> = chars_of(s);
    let n: usize = c.len();
    let start: usize = if n > 0 && c[0] == '+' {
        1
    } else {
        0
    };
    let ghost digits = s@.skip(start as int);
    assert(start == 0 ==> digits == s@);
    if start == n {
        return None;
    }
    let mut value: u64 = 0;
    let mut i: usize = start;
    assert(digits.take(0) == Seq::<char>::empty());
    while i < n
        invariant
            n == c@.len(),
            c@ == s@,
            start <= i <= n,
            digits == s@.skip(start as int),
            forall|j: int| 0 <= j < i - start ==> is_digit(#[trigger] digits[j]),
            value == value_of(digits.take(i - start)),
            digits == (if s@.len() > 0 && s@[0] == '+' {
                s@.skip(1)
            } else {
                s@
            }),
        decreases n - i,
    {
        let d: char = c[i];
        assert(d == digits[i - start]);
        if d < '0' || '9' < d {
            return None;
        }
        assert(digits.take(i - start + 1).drop_last() == digits.take(i - start));
        let ones: u64 = (d as u32 - 48) as u64;
        if value > (u64::MAX - ones) / 10 {
            proof {
                if all_digits(digits) {
                    lemma_value_grows(digits, i - start + 1);
                }
            }
            return None;
        }
        value = value * 10 + ones;
        i += 1;
    }
    assert(digits.take(n - start) == digits);
    Some(value)
}

// ---------------------------------------------------------------------------
// What the pieces are
// ---------------------------------------------------------------------------

/// Of ASCII's characters the space, the tab, the line feed, the vertical tab, the
/// form feed and the carriage return are white space, and no other.
pub proof fn law_white_space_of_ascii(c: char)
    requires
        c as u32 <= 127,
    ensures
        white(c) <==> c == ' ' || c == '\t' || c == '\n' || c == '\r' || c as u32 == 11 || c as u32
            == 12,
{
}

/// White space at the end is the end's: what stands before words does not change
/// what is trimmed off behind them.
pub proof fn lemma_trim_end_add(a: Seq<char>, b: Seq<char>)
    requires
        !blank(b),
    ensures
        trim_end_of(a + b) == a + trim_end_of(b),
    decreases b.len(),
{
    if b.len() == 0 {
        assert(blank(b));
    } else {
        assert((a + b).last() == b.last());
        assert((a + b).drop_last() == a + b.drop_last());
        if white(b.last()) {
            assert(!blank(b.drop_last())) by {
                if blank(b.drop_last()) {
                    assert forall|i: int| 0 <= i < b.len() implies white(#[trigger] b[i]) by {
                        if i < b.len() - 1 {
                            assert(b.drop_last()[i] == b[i]);
                        }
                    }
                }
            }
            lemma_trim_end_add(a, b.drop_last());
        }
    }
}

/// Trimming the end first changes nothing.
pub proof fn lemma_trim_of_trim_end(s: Seq<char>)
    ensures
        trimmed(trim_end_of(s)) == trimmed(s),
    decreases s.len(),
{
    lemma_trim_end(s);
    if blank(s) {
        lemma_trim_blank(s);
        let t = trim_end_of(s);
        assert(blank(t)) by {
            assert forall|i: int| 0 <= i < t.len() implies white(#[trigger] t[i]) by {
                assert(t[i] == s[i]);
            }
        }
        lemma_trim_blank(t);
        assert(trimmed(s) == trimmed(t));
    } else if white(s[0]) {
        let rest = s.skip(1);
        assert(s == seq![s[0]] + rest);
        assert(!blank(rest)) by {
            if blank(rest) {
                assert forall|i: int| 0 <= i < s.len() implies white(#[trigger] s[i]) by {
                    if i > 0 {
                        assert(rest[i - 1] == s[i]);
                    }
                }
            }
        }
        lemma_trim_end_add(seq![s[0]], rest);
        lemma_trim_of_trim_end(rest);
        let t = trim_end_of(s);
        assert(t.skip(1) == trim_end_of(rest));
        assert(trim_start_of(t) == trim_start_of(t.skip(1)));
    } else {
        let t = trim_end_of(s);
        lemma_trim_end_add(Seq::empty(), s);
        if t.len() > 0 {
            assert(t[0] == s[0]);
            assert(!white(t.last()));
        } else {
            assert(s.skip(0) == s);
            assert(white(s.skip(0)[0]));
        }
    }
}

/// One more word behind white space makes one word more; white space behind the
/// last word, or none at all, makes none.
pub proof fn law_words_are_counted(s: Seq<char>, gap: Seq<char>, word: Seq<char>)
    requires
        blank(gap),
        word.len() > 0,
        forall|i: int| 0 <= i < word.len() ==> !white(#[trigger] word[i]),
    ensures
        word_count_of(Seq::<char>::empty()) == 0,
        word_count_of(s + gap) == word_count_of(s),
        gap.len() > 0 || s.len() == 0 ==> word_count_of(s + gap + word) == word_count_of(s) + 1,
    decreases gap.len() + word.len(),
{
    if gap.len() == 0 {
        assert(s + gap == s);
    } else {
        assert((s + gap).drop_last() == s + gap.drop_last());
        assert((s + gap).last() == gap[gap.len() - 1]);
        assert forall|i: int| 0 <= i < gap.drop_last().len() implies white(
            #[trigger] gap.drop_last()[i],
        ) by {
            assert(gap.drop_last()[i] == gap[i]);
        }
        law_words_are_counted(s, gap.drop_last(), word);
    }
    if gap.len() > 0 || s.len() == 0 {
        let all = s + gap + word;
        let front = word.drop_last();
        assert(all.drop_last() == s + gap + front);
        assert(all.last() == word[word.len() - 1]);
        assert(!white(all.last()));
        if word.len() == 1 {
            assert(s + gap + front == s + gap);
            if gap.len() > 0 {
                assert(all[all.len() - 2] == gap[gap.len() - 1]);
                assert(white(all[all.len() - 2]));
            } else {
                assert(all.len() == 1);
            }
            assert(word_count_of(all) == word_count_of(all.drop_last()) + 1);
        } else {
            assert(all[all.len() - 2] == word[word.len() - 2]);
            assert forall|i: int| 0 <= i < front.len() implies !white(#[trigger] front[i]) by {
                assert(front[i] == word[i]);
            }
            law_words_are_counted(s, gap, front);
            assert(!white(all[all.len() - 2]));
            assert(word_count_of(all) == word_count_of(all.drop_last()));
        }
    }
}

/// A number that is written out reads back as that number.
pub proof fn law_numbers_read_back(n: u64)
    ensures
        u64_of(decimal_of(n as nat)) == Some(n),
{
    lemma_decimal(n as nat);
    assert(is_digit(decimal_of(n as nat)[0]));
}

/// Behind the last `c` of a text stands what follows it.
pub proof fn law_what_follows_the_last(front: Seq<char>, back: Seq<char>, c: char)
    requires
        free_of(back, c),
    ensures
        after_last(front + seq![c] + back, c) == back,
        after_last(back, c) == back,
    decreases back.len(),
{
    let all = front + seq![c] + back;
    if back.len() > 0 {
        assert(all.drop_last() == front + seq![c] + back.drop_last());
        assert(all.last() == back[back.len() - 1]);
        assert forall|i: int| 0 <= i < back.drop_last().len() implies back.drop_last()[i] != c by {
            assert(back.drop_last()[i] == back[i]);
        }
        law_what_follows_the_last(front, back.drop_last(), c);
        assert(back.drop_last().push(back.last()) == back);
    } else {
        assert(all.last() == c);
    }
}

/// A capital of ASCII has its small letter 32 characters on; any other character is
/// left as it is, and there are as many as before.
pub proof fn law_small_letters(s: Seq<char>, i: int)
    requires
        0 <= i < s.len(),
    ensures
        smalls(s).len() == s.len(),
        65 <= s[i] as u32 <= 90 ==> smalls(s)[i] as u32 == s[i] as u32 + 32,
        !(65 <= s[i] as u32 <= 90) ==> smalls(s)[i] == s[i],
{
}

/// Beyond ASCII white space is what separates words and lines in other scripts: the
/// next line, the spaces of every width, and the line and paragraph separators.
pub proof fn law_white_space_beyond_ascii(c: char)
    requires
        c as u32 > 127,
    ensures
        white(c) <==> {
            let v = c as u32;
            v == 133 || v == 160 || v == 5760 || (8192 <= v && v <= 8202) || v == 8232 || v == 8233
                || v == 8239 || v == 8287 || v == 12288
        },
{
}

/// A text that is white space and nothing else, and no other, trims to nothing; any
/// other begins and ends with a character of a word once it is trimmed, and what
/// was taken off is white space.
pub proof fn law_trimming(before: Seq<char>, words: Seq<char>, after: Seq<char>)
    requires
        blank(before),
        blank(after),
        words.len() > 0,
        !white(words[0]),
        !white(words.last()),
    ensures
        trimmed(before + words + after) == words,
        trimmed(before + after).len() == 0,
    decreases before.len() + after.len(),
{
    let all = before + words + after;
    if before.len() > 0 {
        let rest = before.skip(1);
        assert(white(before[0]));
        assert(all[0] == before[0]);
        assert(all.skip(1) == rest + words + after);
        assert forall|i: int| 0 <= i < rest.len() implies white(#[trigger] rest[i]) by {
            assert(rest[i] == before[i + 1]);
        }
        law_trimming(rest, words, after);
        assert(trim_start_of(all) == trim_start_of(all.skip(1)));
    } else {
        assert(all == words + after);
        assert(all[0] == words[0]);
        assert(trim_start_of(all) == all);
        if after.len() > 0 {
            let front = after.drop_last();
            assert(white(after[after.len() - 1]));
            assert(all.last() == after[after.len() - 1]);
            assert(all.drop_last() == words + front);
            assert(before + words + front == words + front);
            assert forall|i: int| 0 <= i < front.len() implies white(#[trigger] front[i]) by {
                assert(front[i] == after[i]);
            }
            law_trimming(before, words, front);
            assert(trim_start_of(words + front) == words + front) by {
                assert((words + front)[0] == words[0]);
            }
        } else {
            assert(all == words);
        }
    }
    assert(blank(before + after)) by {
        assert forall|i: int| 0 <= i < (before + after).len() implies white(
            #[trigger] (before + after)[i],
        ) by {
            if i < before.len() {
                assert((before + after)[i] == before[i]);
            } else {
                assert((before + after)[i] == after[i - before.len()]);
            }
        }
    }
    lemma_trim_blank(before + after);
}

/// One more digit makes a number ten times as great, and that much more.
pub proof fn lemma_one_more_digit(s: Seq<char>, n: nat)
    requires
        n < 10,
        all_digits(s),
    ensures
        all_digits(s.push(digit(n))),
        value_of(s.push(digit(n))) == value_of(s) * 10 + n,
{
    assert(digit(n) as u32 == 48 + n);
    assert(s.push(digit(n)).drop_last() == s);
}

/// A line ends with a line feed, or with a carriage return before it; the last one
/// need not end, and where nothing follows the last there is no other.
pub proof fn law_lines(line: Seq<char>, rest: Seq<char>)
    requires
        free_of(line, '\n'),
        line.len() > 0 ==> line.last() != '\r',
    ensures
        lines_of(line + seq!['\n'] + rest) == seq![line] + lines_of(rest),
        lines_of(line + seq!['\r', '\n'] + rest) == seq![line] + lines_of(rest),
        line.len() > 0 ==> lines_of(line) == seq![line],
        lines_of(Seq::<char>::empty()).len() == 0,
{
    lemma_lines_cons(line, rest);
    let longer = line.push('\r');
    assert(longer.drop_last() == line);
    assert(line + seq!['\r', '\n'] + rest == longer + seq!['\n'] + rest);
    assert forall|i: int| 0 <= i < longer.len() implies longer[i] != '\n' by {
        if i < line.len() {
            assert(longer[i] == line[i]);
        }
    }
    lemma_lines_cons(longer, rest);
    lemma_line_end_is(line, line.len() as int);
}

} // verus!

//! Text as sequences of characters.
//!
//! Every contract in this crate speaks of a string through its view, a `Seq<char>`. This
//! module defines the operations on such sequences that the description grammar and the
//! script layouts are written in, and the executable functions that compute them on
//! `Vec<char>` and `String`.

use vstd::prelude::*;
use vstd::string::*;

verus! {

// ---------------------------------------------------------------------------------------
// Strings and characters
// ---------------------------------------------------------------------------------------

/// `String::push` appends one character to the end of the string and changes nothing
/// else. Verus takes this on trust from the standard library's documentation.
pub assume_specification[ String::push ](s: &mut String, c: char)
    ensures
        final(s)@ == old(s)@.push(c),
;

/// The characters of `s`, in order.
pub fn chars_of(s: &str) -> (v: Vec<char>)
    ensures
        v@ == s@,
{
    let mut v: Vec<char> = Vec::new();
    for c in it: s.chars()
        invariant
            v@ == it.seq().take(it.index() as int),
            it.seq() == s@,
    {
        v.push(c);
    }
    v
}

/// A string made of the characters `v[from..to]`.
pub fn string_of_range(v: &Vec<char>, from: usize, to: usize) -> (s: String)
    requires
        from <= to <= v.len(),
    ensures
        s@ == v@.subrange(from as int, to as int),
{
    let mut s = String::new();
    let mut i: usize = from;
    while i < to
        invariant
            from <= i <= to <= v.len(),
            s@ == v@.subrange(from as int, i as int),
        decreases to - i,
    {
        s.push(v[i]);
        i += 1;
        assert(v@.subrange(from as int, i as int) =~= v@.subrange(from as int, i - 1).push(
            v@[i - 1],
        ));
    }
    s
}

/// A string made of the characters of `v`.
pub fn string_of(v: &Vec<char>) -> (s: String)
    ensures
        s@ == v@,
{
    let s = string_of_range(v, 0, v.len());
    assert(v@.subrange(0, v.len() as int) =~= v@);
    s
}

/// The characters `v[from..to]` as a vector of their own.
pub fn slice_of(v: &Vec<char>, from: usize, to: usize) -> (r: Vec<char>)
    requires
        from <= to <= v.len(),
    ensures
        r@ == v@.subrange(from as int, to as int),
{
    let mut r: Vec<char> = Vec::new();
    let mut i: usize = from;
    while i < to
        invariant
            from <= i <= to <= v.len(),
            r@ == v@.subrange(from as int, i as int),
        decreases to - i,
    {
        r.push(v[i]);
        i += 1;
        assert(v@.subrange(from as int, i as int) =~= v@.subrange(from as int, i - 1).push(
            v@[i - 1],
        ));
    }
    r
}

/// The views of the vectors in `v`.
pub open spec fn views(v: Seq<Vec<char>>) -> Seq<Seq<char>> {
    Seq::new(v.len(), |i: int| v[i]@)
}

/// The views of the strings in `v`.
pub open spec fn texts(v: Seq<String>) -> Seq<Seq<char>> {
    Seq::new(v.len(), |i: int| v[i]@)
}

/// Whether `v` spells `word`.
pub fn is_word(v: &Vec<char>, word: &str) -> (b: bool)
    ensures
        b == (v@ == word@),
{
    let w = chars_of(word);
    if v.len() != w.len() {
        return false;
    }
    let mut i: usize = 0;
    while i < v.len()
        invariant
            i <= v.len(),
            v.len() == w.len(),
            w@ == word@,
            forall|j: int| 0 <= j < i ==> v@[j] == w@[j],
        decreases v.len() - i,
    {
        if v[i] != w[i] {
            return false;
        }
        i += 1;
    }
    assert(v@ =~= w@);
    true
}

/// Whether the two strings hold the same characters.
pub fn same_text(a: &str, b: &str) -> (r: bool)
    ensures
        r == (a@ == b@),
{
    let v = chars_of(a);
    is_word(&v, b)
}

// ---------------------------------------------------------------------------------------
// Searching and splitting
// ---------------------------------------------------------------------------------------

/// The index of the first `c` in `s`, or `s.len()` where `s` holds none.
pub open spec fn first_index(s: Seq<char>, c: char) -> int
    decreases s.len(),
{
    if s.len() == 0 || s[0] == c {
        0
    } else {
        1 + first_index(s.skip(1), c)
    }
}

/// `first_index` lies within `0..=s.len()`, no `c` stands before it, and a `c` stands at it
/// unless it is `s.len()`.
pub proof fn lemma_first_index(s: Seq<char>, c: char)
    ensures
        0 <= first_index(s, c) <= s.len(),
        forall|j: int| 0 <= j < first_index(s, c) ==> s[j] != c,
        first_index(s, c) < s.len() ==> s[first_index(s, c)] == c,
    decreases s.len(),
{
    if s.len() == 0 || s[0] == c {
    } else {
        let t = s.skip(1);
        lemma_first_index(t, c);
        assert forall|j: int| 0 <= j < first_index(s, c) implies s[j] != c by {
            if j > 0 {
                assert(s[j] == t[j - 1]);
            }
        }
    }
}

/// An index with no `c` before it and a `c` at it (or the end of `s`) is `first_index`.
pub proof fn lemma_first_index_is(s: Seq<char>, c: char, i: int)
    requires
        0 <= i <= s.len(),
        forall|j: int| 0 <= j < i ==> s[j] != c,
        i < s.len() ==> s[i] == c,
    ensures
        first_index(s, c) == i,
    decreases s.len(),
{
    if s.len() == 0 || s[0] == c {
    } else {
        let t = s.skip(1);
        assert forall|j: int| 0 <= j < i - 1 implies t[j] != c by {
            assert(t[j] == s[j + 1]);
        }
        lemma_first_index_is(t, c, i - 1);
    }
}

/// The index of the first `c` in `v[from..]`, counted from the start of `v`; `v.len()`
/// where there is none.
pub fn find_from(v: &Vec<char>, from: usize, c: char) -> (i: usize)
    requires
        from <= v.len(),
    ensures
        from <= i <= v.len(),
        i - from == first_index(v@.skip(from as int), c),
{
    let mut i: usize = from;
    while i < v.len() && v[i] != c
        invariant
            from <= i <= v.len(),
            forall|j: int| from <= j < i ==> v@[j] != c,
        decreases v.len() - i,
    {
        i += 1;
    }
    proof {
        lemma_first_index_is(v@.skip(from as int), c, i - from);
    }
    i
}

/// The pieces of `s` between its separators: one more piece than `s` holds separators, each
/// free of `sep`, empty pieces included.
pub open spec fn split(s: Seq<char>, sep: char) -> Seq<Seq<char>>
    decreases s.len(),
{
    let i = first_index(s, sep);
    if 0 <= i < s.len() {
        seq![s.take(i)] + split(s.skip(i + 1), sep)
    } else {
        seq![s]
    }
}

/// The pieces of `v` between its separators.
pub fn split_at_each(v: &Vec<char>, sep: char) -> (pieces: Vec<Vec<char>>)
    ensures
        views(pieces@) == split(v@, sep),
{
    let mut pieces: Vec<Vec<char>> = Vec::new();
    let mut start: usize = 0;
    proof {
        assert(v@.skip(0) =~= v@);
        assert(views(pieces@) + split(v@, sep) =~= split(v@, sep));
    }
    loop
        invariant_except_break
            start <= v.len(),
            split(v@, sep) == views(pieces@) + split(v@.skip(start as int), sep),
        ensures
            views(pieces@) == split(v@, sep),
        decreases v.len() - start,
    {
        let end = find_from(v, start, sep);
        let piece = slice_of(v, start, end);
        let ghost rest = v@.skip(start as int);
        let ghost before = views(pieces@);
        pieces.push(piece);
        proof {
            assert(rest.take(end - start) =~= v@.subrange(start as int, end as int));
            assert(views(pieces@) =~= before + seq![rest.take(end - start)]);
        }
        if end == v.len() {
            proof {
                assert(rest.take(end - start) =~= rest);
                assert(split(rest, sep) == seq![rest]);
            }
            break;
        }
        proof {
            assert(rest.skip(end - start + 1) =~= v@.skip(end + 1));
            assert(split(rest, sep) == seq![rest.take(end - start)] + split(
                v@.skip(end + 1),
                sep,
            ));
            assert(before + (seq![rest.take(end - start)] + split(v@.skip(end + 1), sep))
                =~= (before + seq![rest.take(end - start)]) + split(v@.skip(end + 1), sep));
        }
        start = end + 1;
    }
    pieces
}

// ---------------------------------------------------------------------------------------
// Whitespace
// ---------------------------------------------------------------------------------------

/// Whether `c` is white space: a character that Unicode marks as `White_Space`.
pub open spec fn is_whitespace(c: char) -> bool {
    ||| c == ' '
    ||| ('\u{9}' <= c && c <= '\u{d}')
    ||| c == '\u{85}'
    ||| c == '\u{a0}'
    ||| c == '\u{1680}'
    ||| ('\u{2000}' <= c && c <= '\u{200a}')
    ||| c == '\u{2028}'
    ||| c == '\u{2029}'
    ||| c == '\u{202f}'
    ||| c == '\u{205f}'
    ||| c == '\u{3000}'
}

/// Whether `c` is white space.
pub fn is_space(c: char) -> (b: bool)
    ensures
        b == is_whitespace(c),
{
    c == ' ' || (c >= '\u{9}' && c <= '\u{d}') || c == '\u{85}' || c == '\u{a0}' || c
        == '\u{1680}' || (c >= '\u{2000}' && c <= '\u{200a}') || c == '\u{2028}' || c
        == '\u{2029}' || c == '\u{202f}' || c == '\u{205f}' || c == '\u{3000}'
}

/// `s` without the white space it starts with.
pub open spec fn trim_start(s: Seq<char>) -> Seq<char>
    decreases s.len(),
{
    if s.len() > 0 && is_whitespace(s[0]) {
        trim_start(s.skip(1))
    } else {
        s
    }
}

/// `s` without the white space it ends with.
pub open spec fn trim_end(s: Seq<char>) -> Seq<char>
    decreases s.len(),
{
    if s.len() > 0 && is_whitespace(s.last()) {
        trim_end(s.drop_last())
    } else {
        s
    }
}

/// `s` without the white space at either end.
pub open spec fn trim(s: Seq<char>) -> Seq<char> {
    trim_end(trim_start(s))
}

/// Whether `s` neither starts nor ends with white space.
pub open spec fn is_trimmed(s: Seq<char>) -> bool {
    s.len() > 0 ==> !is_whitespace(s[0]) && !is_whitespace(s.last())
}

/// Where `s[..a]` is white space and `s[a]` is not, `trim_start` drops exactly `s[..a]`.
pub proof fn lemma_trim_start_is(s: Seq<char>, a: int)
    requires
        0 <= a <= s.len(),
        forall|j: int| 0 <= j < a ==> is_whitespace(s[j]),
        a < s.len() ==> !is_whitespace(s[a]),
    ensures
        trim_start(s) == s.skip(a),
    decreases a,
{
    if a == 0 {
        assert(s.skip(0) =~= s);
    } else {
        let t = s.skip(1);
        assert forall|j: int| 0 <= j < a - 1 implies is_whitespace(t[j]) by {
            assert(t[j] == s[j + 1]);
        }
        lemma_trim_start_is(t, a - 1);
        assert(t.skip(a - 1) =~= s.skip(a));
    }
}

/// Where `s[b..]` is white space and `s[b - 1]` is not, `trim_end` keeps exactly `s[..b]`.
pub proof fn lemma_trim_end_is(s: Seq<char>, b: int)
    requires
        0 <= b <= s.len(),
        forall|j: int| b <= j < s.len() ==> is_whitespace(s[j]),
        b > 0 ==> !is_whitespace(s[b - 1]),
    ensures
        trim_end(s) == s.take(b),
    decreases s.len() - b,
{
    if b == s.len() {
        assert(s.take(b) =~= s);
    } else {
        let t = s.drop_last();
        lemma_trim_end_is(t, b);
        assert(t.take(b) =~= s.take(b));
    }
}

/// A trimmed sequence is left as it is.
pub proof fn lemma_trim_of_trimmed(s: Seq<char>)
    requires
        is_trimmed(s),
    ensures
        trim(s) == s,
{
    lemma_trim_start_is(s, 0);
    assert(s.skip(0) =~= s);
    lemma_trim_end_is(s, s.len() as int);
    assert(s.take(s.len() as int) =~= s);
}

/// What `trim` returns is trimmed.
pub proof fn lemma_trim_is_trimmed(s: Seq<char>)
    ensures
        is_trimmed(trim(s)),
        trim(s).len() <= s.len(),
{
    lemma_trim_start_shape(s);
    lemma_trim_end_shape(trim_start(s));
}

/// `trim_start` returns a suffix of `s` that does not start with white space.
pub proof fn lemma_trim_start_shape(s: Seq<char>)
    ensures
        trim_start(s).len() <= s.len(),
        trim_start(s) == s.skip(s.len() - trim_start(s).len()),
        trim_start(s).len() > 0 ==> !is_whitespace(trim_start(s)[0]),
    decreases s.len(),
{
    if s.len() > 0 && is_whitespace(s[0]) {
        let t = s.skip(1);
        lemma_trim_start_shape(t);
        assert(t.skip(t.len() - trim_start(t).len()) =~= s.skip(s.len() - trim_start(s).len()));
    } else {
        assert(s.skip(0) =~= s);
    }
}

/// `trim_end` returns a prefix of `s` that does not end with white space.
pub proof fn lemma_trim_end_shape(s: Seq<char>)
    ensures
        trim_end(s).len() <= s.len(),
        trim_end(s) == s.take(trim_end(s).len() as int),
        trim_end(s).len() > 0 ==> !is_whitespace(trim_end(s).last()),
    decreases s.len(),
{
    if s.len() > 0 && is_whitespace(s.last()) {
        let t = s.drop_last();
        lemma_trim_end_shape(t);
        assert(t.take(trim_end(t).len() as int) =~= s.take(trim_end(s).len() as int));
    } else {
        assert(s.take(s.len() as int) =~= s);
    }
}

/// `v[from..to]` without the white space at either end.
pub fn trimmed(v: &Vec<char>, from: usize, to: usize) -> (r: Vec<char>)
    requires
        from <= to <= v.len(),
    ensures
        r@ == trim(v@.subrange(from as int, to as int)),
{
    let mut a: usize = from;
    while a < to && is_space(v[a])
        invariant
            from <= a <= to <= v.len(),
            forall|j: int| from <= j < a ==> is_whitespace(v@[j]),
        decreases to - a,
    {
        a += 1;
    }
    let mut b: usize = to;
    while b > a && is_space(v[b - 1])
        invariant
            a <= b <= to <= v.len(),
            forall|j: int| b <= j < to ==> is_whitespace(v@[j]),
        decreases b,
    {
        b -= 1;
    }
    proof {
        let s = v@.subrange(from as int, to as int);
        lemma_trim_start_is(s, a - from);
        let t = s.skip(a - from);
        lemma_trim_end_is(t, b - a);
        assert(t.take(b - a) =~= v@.subrange(a as int, b as int));
    }
    slice_of(v, a, b)
}

// ---------------------------------------------------------------------------------------
// Quoting
// ---------------------------------------------------------------------------------------

/// `s` with a backslash put before each single quote, so that the text can stand inside a
/// single-quoted word of a shell script.
pub open spec fn escape_quotes(s: Seq<char>) -> Seq<char>
    decreases s.len(),
{
    if s.len() == 0 {
        s
    } else if s.last() == '\'' {
        escape_quotes(s.drop_last()).push('\\').push('\'')
    } else {
        escape_quotes(s.drop_last()).push(s.last())
    }
}

/// `v` with a backslash put before each single quote.
pub fn escaped(v: &Vec<char>) -> (r: Vec<char>)
    ensures
        r@ == escape_quotes(v@),
{
    let mut r: Vec<char> = Vec::new();
    let mut i: usize = 0;
    while i < v.len()
        invariant
            i <= v.len(),
            r@ == escape_quotes(v@.take(i as int)),
        decreases v.len() - i,
    {
        proof {
            assert(v@.take(i + 1).drop_last() =~= v@.take(i as int));
        }
        if v[i] == '\'' {
            r.push('\\');
        }
        r.push(v[i]);
        i += 1;
    }
    assert(v@.take(v.len() as int) =~= v@);
    r
}

/// `s` with the backslash taken away from before each single quote: what `escape_quotes`
/// was given, where `s` is what it returned.
pub open spec fn unescape_quotes(s: Seq<char>) -> Seq<char>
    decreases s.len(),
{
    if s.len() >= 2 && s[s.len() - 2] == '\\' && s.last() == '\'' {
        unescape_quotes(s.take(s.len() - 2)).push('\'')
    } else if s.len() >= 1 {
        unescape_quotes(s.drop_last()).push(s.last())
    } else {
        s
    }
}

/// Taking the backslashes away undoes putting them in.
pub proof fn lemma_unescape_of_escape(s: Seq<char>)
    ensures
        unescape_quotes(escape_quotes(s)) == s,
    decreases s.len(),
{
    if s.len() > 0 {
        let front = s.drop_last();
        lemma_unescape_of_escape(front);
        let e = escape_quotes(s);
        if s.last() == '\'' {
            assert(e.take(e.len() - 2) =~= escape_quotes(front));
        } else {
            assert(e.drop_last() =~= escape_quotes(front));
        }
        assert(front.push(s.last()) =~= s);
    }
}

/// `v` with the backslash taken away from before each single quote.
pub fn unescaped(v: &Vec<char>) -> (r: Vec<char>)
    ensures
        r@ == unescape_quotes(v@),
{
    let mut r: Vec<char> = Vec::new();
    let mut i: usize = 0;
    while i < v.len()
        invariant
            i <= v.len(),
            r@ == unescape_quotes(v@.take(i as int)),
        decreases v.len() - i,
    {
        let ghost upto = v@.take(i as int);
        let ghost next = v@.take(i + 1);
        proof {
            assert(next.drop_last() =~= upto);
        }
        if v[i] == '\'' && i > 0 && v[i - 1] == '\\' {
            proof {
                assert(upto.drop_last() =~= v@.take(i - 1));
                assert(next.take(next.len() - 2) =~= v@.take(i - 1));
                assert(r@.drop_last() =~= unescape_quotes(v@.take(i - 1)));
            }
            r.pop();
        }
        r.push(v[i]);
        i += 1;
    }
    assert(v@.take(v.len() as int) =~= v@);
    r
}

/// Escaping adds no white space at either end: the first character stays or becomes a
/// backslash, the last one stays.
pub proof fn lemma_escape_keeps_trimmed(s: Seq<char>)
    requires
        is_trimmed(s),
    ensures
        is_trimmed(escape_quotes(s)),
        escape_quotes(s).len() >= s.len(),
{
    lemma_escape_ends(s);
}

/// How what `escape_quotes` returns starts and ends.
proof fn lemma_escape_ends(s: Seq<char>)
    ensures
        escape_quotes(s).len() >= s.len(),
        s.len() > 0 ==> escape_quotes(s).last() == s.last(),
        s.len() > 0 ==> escape_quotes(s)[0] == (if s[0] == '\'' {
            '\\'
        } else {
            s[0]
        }),
    decreases s.len(),
{
    if s.len() > 0 {
        lemma_escape_ends(s.drop_last());
    }
}

// ---------------------------------------------------------------------------------------
// Joining, padding, numbers
// ---------------------------------------------------------------------------------------

/// The parts in order, with `sep` between each two neighbours.
pub open spec fn join(parts: Seq<Seq<char>>, sep: Seq<char>) -> Seq<char>
    decreases parts.len(),
{
    if parts.len() == 0 {
        Seq::empty()
    } else if parts.len() == 1 {
        parts[0]
    } else {
        join(parts.drop_last(), sep) + sep + parts.last()
    }
}

/// The strings in order, with `sep` between each two neighbours.
pub fn join_strings(parts: &Vec<String>, sep: &str) -> (r: String)
    ensures
        r@ == join(texts(parts@), sep@),
{
    let mut r = String::new();
    let mut i: usize = 0;
    while i < parts.len()
        invariant
            i <= parts.len(),
            r@ == join(texts(parts@).take(i as int), sep@),
        decreases parts.len() - i,
    {
        proof {
            assert(texts(parts@).take(i + 1).drop_last() =~= texts(parts@).take(i as int));
        }
        if i > 0 {
            r.append(sep);
        }
        r.append(parts[i].as_str());
        i += 1;
    }
    assert(texts(parts@).take(parts.len() as int) =~= texts(parts@));
    r
}

/// `n` spaces.
pub open spec fn spaces(n: nat) -> Seq<char> {
    Seq::new(n, |i: int| ' ')
}

/// `s`, followed by as many spaces as it takes to make it `width` characters long; `s`
/// itself where it is that long already.
pub open spec fn pad_to(s: Seq<char>, width: nat) -> Seq<char> {
    if s.len() >= width {
        s
    } else {
        s + spaces((width - s.len()) as nat)
    }
}

/// Appends `s` to `out`, padded with spaces to `width` characters.
pub fn append_padded(out: &mut String, s: &str, width: usize)
    ensures
        final(out)@ == old(out)@ + pad_to(s@, width as nat),
{
    let len = s.unicode_len();
    out.append(s);
    let mut n: usize = len;
    proof {
        assert(s@ + spaces(0) =~= s@);
    }
    while n < width
        invariant
            len <= n,
            n <= width || n == len,
            len == s@.len(),
            out@ == old(out)@ + (s@ + spaces((n - len) as nat)),
        decreases width - n,
    {
        out.push(' ');
        n += 1;
        proof {
            assert(spaces((n - len) as nat) =~= spaces((n - 1 - len) as nat).push(' '));
            assert(old(out)@ + (s@ + spaces((n - len) as nat)) =~= (old(out)@ + (s@ + spaces(
                (n - 1 - len) as nat,
            ))).push(' '));
        }
    }
    proof {
        assert(s@ + spaces(0) =~= s@);
    }
}

/// The character that stands for the digit `d`.
pub open spec fn digit(d: int) -> char {
    seq!['0', '1', '2', '3', '4', '5', '6', '7', '8', '9'][d]
}

/// `n` written in decimal, without leading zeros.
pub open spec fn decimal(n: nat) -> Seq<char>
    decreases n,
{
    if n < 10 {
        seq![digit(n as int)]
    } else {
        decimal(n / 10).push(digit((n % 10) as int))
    }
}

/// The character that stands for the digit `d`.
pub fn digit_char(d: usize) -> (c: char)
    requires
        d < 10,
    ensures
        c == digit(d as int),
{
    match d {
        0 => '0',
        1 => '1',
        2 => '2',
        3 => '3',
        4 => '4',
        5 => '5',
        6 => '6',
        7 => '7',
        8 => '8',
        _ => '9',
    }
}

/// Appends `n`, written in decimal, to `out`.
pub fn append_decimal(out: &mut String, n: usize)
    ensures
        final(out)@ == old(out)@ + decimal(n as nat),
    decreases n,
{
    if n >= 10 {
        append_decimal(out, n / 10);
    }
    out.push(digit_char(n % 10));
    proof {
        if n >= 10 {
            assert(old(out)@ + decimal(n as nat) =~= (old(out)@ + decimal((n / 10) as nat)).push(
                digit((n % 10) as int),
            ));
        } else {
            assert(old(out)@ + decimal(n as nat) =~= old(out)@.push(digit(n as int)));
        }
    }
}

/// `s` without the run of `c` that it starts with.
pub open spec fn strip_leading(s: Seq<char>, c: char) -> Seq<char>
    decreases s.len(),
{
    if s.len() > 0 && s[0] == c {
        strip_leading(s.skip(1), c)
    } else {
        s
    }
}

/// Where `s[..a]` is all `c` and `s[a]` is not, `strip_leading` drops exactly `s[..a]`.
pub proof fn lemma_strip_leading_is(s: Seq<char>, c: char, a: int)
    requires
        0 <= a <= s.len(),
        forall|j: int| 0 <= j < a ==> s[j] == c,
        a < s.len() ==> s[a] != c,
    ensures
        strip_leading(s, c) == s.skip(a),
    decreases a,
{
    if a == 0 {
        assert(s.skip(0) =~= s);
    } else {
        let t = s.skip(1);
        assert forall|j: int| 0 <= j < a - 1 implies t[j] == c by {
            assert(t[j] == s[j + 1]);
        }
        lemma_strip_leading_is(t, c, a - 1);
        assert(t.skip(a - 1) =~= s.skip(a));
    }
}

/// `s` without the run of `c` that it starts with.
pub fn stripped_of_leading(s: &str, c: char) -> (r: String)
    ensures
        r@ == strip_leading(s@, c),
{
    let v = chars_of(s);
    let mut a: usize = 0;
    while a < v.len() && v[a] == c
        invariant
            a <= v.len(),
            forall|j: int| 0 <= j < a ==> v@[j] == c,
        decreases v.len() - a,
    {
        a += 1;
    }
    proof {
        lemma_strip_leading_is(v@, c, a as int);
    }
    string_of_range(&v, a, v.len())
}

// ---------------------------------------------------------------------------------------
// Occurrences
// ---------------------------------------------------------------------------------------

/// Whether `needle` stands in `hay` at index `at`, character for character.
pub open spec fn occurs_at(needle: Seq<char>, hay: Seq<char>, at: int) -> bool {
    0 <= at && at + needle.len() <= hay.len() && hay.subrange(at, at + needle.len()) == needle
}

/// Whether `needle` stands somewhere in `hay`, character for character.
pub open spec fn occurs_in(needle: Seq<char>, hay: Seq<char>) -> bool {
    exists|at: int| occurs_at(needle, hay, at)
}

/// A text stands in whatever is built around it.
pub proof fn lemma_occurs_in_middle(before: Seq<char>, needle: Seq<char>, after: Seq<char>)
    ensures
        occurs_in(needle, before + needle + after),
{
    let hay = before + needle + after;
    assert(hay.subrange(before.len() as int, (before.len() + needle.len()) as int) =~= needle);
    assert(occurs_at(needle, hay, before.len() as int));
}

/// A text stands in what ends with it.
pub proof fn lemma_occurs_at_end(before: Seq<char>, needle: Seq<char>)
    ensures
        occurs_in(needle, before + needle),
{
    let hay = before + needle;
    assert(hay.subrange(before.len() as int, (before.len() + needle.len()) as int) =~= needle);
    assert(occurs_at(needle, hay, before.len() as int));
}

/// What stands in a text stands in the text with more after it.
pub proof fn lemma_occurs_with_more(needle: Seq<char>, hay: Seq<char>, after: Seq<char>)
    requires
        occurs_in(needle, hay),
    ensures
        occurs_in(needle, hay + after),
{
    let at = choose|at: int| occurs_at(needle, hay, at);
    assert((hay + after).subrange(at, at + needle.len()) =~= hay.subrange(at, at + needle.len()));
    assert(occurs_at(needle, hay + after, at));
}

/// What stands in a part of a text stands in the text.
pub proof fn lemma_occurs_in_chain(needle: Seq<char>, part: Seq<char>, hay: Seq<char>)
    requires
        occurs_in(needle, part),
        occurs_in(part, hay),
    ensures
        occurs_in(needle, hay),
{
    let inner = choose|at: int| occurs_at(needle, part, at);
    let outer = choose|at: int| occurs_at(part, hay, at);
    assert(hay.subrange(outer + inner, outer + inner + needle.len()) =~= hay.subrange(
        outer,
        outer + part.len(),
    ).subrange(inner, inner + needle.len()));
    assert(occurs_at(needle, hay, outer + inner));
}

/// Every part stands in the joined text.
pub proof fn lemma_part_occurs_in_join(parts: Seq<Seq<char>>, sep: Seq<char>, i: int)
    requires
        0 <= i < parts.len(),
    ensures
        occurs_in(parts[i], join(parts, sep)),
    decreases parts.len(),
{
    let empty = Seq::<char>::empty();
    if parts.len() == 1 {
        assert(empty + parts[0] + empty =~= parts[0]);
        lemma_occurs_in_middle(empty, parts[0], empty);
    } else if i == parts.len() - 1 {
        assert(join(parts, sep) =~= (join(parts.drop_last(), sep) + sep) + parts.last() + empty);
        lemma_occurs_in_middle(join(parts.drop_last(), sep) + sep, parts.last(), empty);
    } else {
        let front = join(parts.drop_last(), sep);
        lemma_part_occurs_in_join(parts.drop_last(), sep, i);
        assert(join(parts, sep) =~= empty + front + (sep + parts.last()));
        lemma_occurs_in_middle(empty, front, sep + parts.last());
        lemma_occurs_in_chain(parts[i], front, join(parts, sep));
    }
}

/// Whether `needle` stands in `hay` at index `at`.
fn matches_at(needle: &Vec<char>, hay: &Vec<char>, at: usize) -> (b: bool)
    requires
        at + needle.len() <= hay.len(),
    ensures
        b == occurs_at(needle@, hay@, at as int),
{
    let mut i: usize = 0;
    while i < needle.len()
        invariant
            i <= needle.len(),
            at + needle.len() <= hay.len(),
            forall|j: int| 0 <= j < i ==> hay@[at + j] == needle@[j],
        decreases needle.len() - i,
    {
        if hay[at + i] != needle[i] {
            assert(hay@.subrange(at as int, at + needle.len())[i as int] != needle@[i as int]);
            return false;
        }
        i += 1;
    }
    assert(hay@.subrange(at as int, at + needle.len()) =~= needle@);
    true
}

/// Whether `needle` stands somewhere in `hay`.
pub fn contains_text(hay: &str, needle: &str) -> (b: bool)
    ensures
        b == occurs_in(needle@, hay@),
{
    let h = chars_of(hay);
    let n = chars_of(needle);
    if n.len() > h.len() {
        return false;
    }
    let last = h.len() - n.len();
    let mut at: usize = 0;
    loop
        invariant
            at <= last,
            last == h.len() - n.len(),
            h@ == hay@,
            n@ == needle@,
            forall|k: int| 0 <= k < at ==> !occurs_at(n@, h@, k),
        decreases last - at,
    {
        if matches_at(&n, &h, at) {
            return true;
        }
        if at == last {
            return false;
        }
        at += 1;
    }
}

// ---------------------------------------------------------------------------------------
// Facts about cutting and joining
// ---------------------------------------------------------------------------------------

/// Whether `s` holds no `c`.
pub open spec fn free_of(s: Seq<char>, c: char) -> bool {
    forall|i: int| 0 <= i < s.len() ==> s[i] != c
}

/// Cutting a text gives at least one piece, and no piece holds the separator.
pub proof fn lemma_split_pieces(s: Seq<char>, sep: char)
    ensures
        split(s, sep).len() >= 1,
        forall|k: int| 0 <= k < split(s, sep).len() ==> free_of(#[trigger] split(s, sep)[k], sep),
    decreases s.len(),
{
    lemma_first_index(s, sep);
    let i = first_index(s, sep);
    if 0 <= i < s.len() {
        lemma_split_pieces(s.skip(i + 1), sep);
        let rest = split(s.skip(i + 1), sep);
        assert forall|k: int| 0 <= k < split(s, sep).len() implies free_of(
            #[trigger] split(s, sep)[k],
            sep,
        ) by {
            if k > 0 {
                assert(split(s, sep)[k] == rest[k - 1]);
            }
        }
    }
}

/// A character that a text does not hold is in none of its pieces.
pub proof fn lemma_split_keeps_free(s: Seq<char>, sep: char, c: char)
    requires
        free_of(s, c),
    ensures
        forall|k: int| 0 <= k < split(s, sep).len() ==> free_of(#[trigger] split(s, sep)[k], c),
    decreases s.len(),
{
    lemma_first_index(s, sep);
    let i = first_index(s, sep);
    if 0 <= i < s.len() {
        let tail = s.skip(i + 1);
        assert(free_of(tail, c)) by {
            assert forall|j: int| 0 <= j < tail.len() implies tail[j] != c by {
                assert(tail[j] == s[i + 1 + j]);
            }
        }
        lemma_split_keeps_free(tail, sep, c);
        let rest = split(tail, sep);
        assert forall|k: int| 0 <= k < split(s, sep).len() implies free_of(
            #[trigger] split(s, sep)[k],
            c,
        ) by {
            if k > 0 {
                assert(split(s, sep)[k] == rest[k - 1]);
            }
        }
    }
}

/// Joining can be read from the front: the first part, the separator, and the rest joined.
pub proof fn lemma_join_front(parts: Seq<Seq<char>>, sep: Seq<char>)
    requires
        parts.len() >= 2,
    ensures
        join(parts, sep) == parts[0] + sep + join(parts.skip(1), sep),
    decreases parts.len(),
{
    let front = parts.drop_last();
    let tail = parts.skip(1);
    if parts.len() == 2 {
        assert(join(front, sep) == parts[0]);
        assert(join(tail, sep) == parts[1]);
    } else {
        lemma_join_front(front, sep);
        assert(tail.drop_last() =~= front.skip(1));
        assert(join(parts, sep) =~= parts[0] + sep + (join(front.skip(1), sep) + sep
            + parts.last()));
    }
}

/// Cutting what was joined gives the parts back, where no part holds the separator.
pub proof fn lemma_split_of_join(parts: Seq<Seq<char>>, sep: char)
    requires
        parts.len() >= 1,
        forall|k: int| 0 <= k < parts.len() ==> free_of(#[trigger] parts[k], sep),
    ensures
        split(join(parts, seq![sep]), sep) == parts,
    decreases parts.len(),
{
    let joined = join(parts, seq![sep]);
    if parts.len() == 1 {
        lemma_first_index_is(parts[0], sep, parts[0].len() as int);
        assert(split(joined, sep) =~= parts);
    } else {
        let tail = parts.skip(1);
        let rest = join(tail, seq![sep]);
        lemma_join_front(parts, seq![sep]);
        assert(joined == parts[0] + seq![sep] + rest);
        let first = parts[0].len() as int;
        assert(free_of(parts[0], sep));
        lemma_first_index_is(joined, sep, first);
        assert(joined.take(first) =~= parts[0]);
        assert(joined.skip(first + 1) =~= rest);
        assert forall|k: int| 0 <= k < tail.len() implies free_of(#[trigger] tail[k], sep) by {
            assert(tail[k] == parts[k + 1]);
        }
        lemma_split_of_join(tail, sep);
        assert(split(joined, sep) =~= parts);
    }
}

/// A character that neither the parts nor the separator hold is not in the joined text.
pub proof fn lemma_join_keeps_free(parts: Seq<Seq<char>>, sep: Seq<char>, c: char)
    requires
        free_of(sep, c),
        forall|k: int| 0 <= k < parts.len() ==> free_of(#[trigger] parts[k], c),
    ensures
        free_of(join(parts, sep), c),
    decreases parts.len(),
{
    if parts.len() >= 2 {
        let front = parts.drop_last();
        assert forall|k: int| 0 <= k < front.len() implies free_of(#[trigger] front[k], c) by {
            assert(front[k] == parts[k]);
        }
        lemma_join_keeps_free(front, sep, c);
        assert(free_of(parts.last(), c));
    } else if parts.len() == 1 {
        assert(free_of(parts[0], c));
    }
}

/// A character that a text does not hold is not in what `trim` leaves of it.
pub proof fn lemma_trim_keeps_free(s: Seq<char>, c: char)
    requires
        free_of(s, c),
    ensures
        free_of(trim(s), c),
{
    lemma_trim_start_shape(s);
    lemma_trim_end_shape(trim_start(s));
    let start = s.len() - trim_start(s).len();
    assert forall|i: int| 0 <= i < trim(s).len() implies trim(s)[i] != c by {
        assert(trim(s)[i] == trim_start(s)[i]);
        assert(trim_start(s)[i] == s[start + i]);
    }
}

/// The two texts that are not empty, in their order.
pub open spec fn present(first: Seq<char>, second: Seq<char>) -> Seq<Seq<char>> {
    (if first.len() > 0 {
        seq![first]
    } else {
        Seq::empty()
    }) + (if second.len() > 0 {
        seq![second]
    } else {
        Seq::empty()
    })
}

/// Trimming two trimmed texts with one white space character between them leaves those of
/// the two that are not empty, with the character between them where both are left.
pub proof fn lemma_trim_of_pair(first: Seq<char>, between: char, second: Seq<char>)
    requires
        is_trimmed(first),
        is_trimmed(second),
        is_whitespace(between),
    ensures
        trim(first + seq![between] + second) == join(present(first, second), seq![between]),
{
    let whole = first + seq![between] + second;
    let parts = present(first, second);
    if first.len() > 0 && second.len() > 0 {
        assert(parts =~= seq![first, second]);
        assert(parts.drop_last() =~= seq![first]);
        assert(join(seq![first], seq![between]) == first);
        lemma_trim_start_is(whole, 0);
        assert(whole.skip(0) =~= whole);
        lemma_trim_end_is(whole, whole.len() as int);
        assert(whole.take(whole.len() as int) =~= whole);
    } else if first.len() > 0 {
        assert(parts =~= seq![first]);
        lemma_trim_start_is(whole, 0);
        assert(whole.skip(0) =~= whole);
        lemma_trim_end_is(whole, first.len() as int);
        assert(whole.take(first.len() as int) =~= first);
    } else if second.len() > 0 {
        assert(parts =~= seq![second]);
        lemma_trim_start_is(whole, 1);
        assert(whole.skip(1) =~= second);
        lemma_trim_end_is(second, second.len() as int);
        assert(second.take(second.len() as int) =~= second);
    } else {
        assert(parts =~= Seq::<Seq<char>>::empty());
        lemma_trim_start_is(whole, 1);
        assert(whole.skip(1) =~= Seq::<char>::empty());
    }
}

} // verus!

//! Reading puzzle input: characters, pieces between separators, lines and trimmed text.
//!
//! Everything here is stated over the sequence of characters that a string holds (`s@`).

use vstd::prelude::*;
use vstd::string::*;

verus! {

/// `String::push` appends one character to the end of the string and changes nothing else.
pub assume_specification[ String::push ](s: &mut String, c: char)
    ensures
        final(s)@ == old(s)@.push(c),
;

/// The character sequences of a list of string slices.
pub open spec fn views(v: Seq<&str>) -> Seq<Seq<char>> {
    v.map_values(|s: &str| s@)
}

/// The rows of a list of lists as sequences.
pub open spec fn nested<T>(v: Seq<Vec<T>>) -> Seq<Seq<T>> {
    v.map_values(|row: Vec<T>| row@)
}

/// The characters of `s`, in order.
pub fn chars(s: &str) -> (v: Vec<char>)
    ensures
        v@ == s@,
{
    let mut v: Vec<char> = Vec::new();
    for c in it: s.chars()
        invariant
            v@ == it.seq().take(it.index()),
            it.seq() == s@,
    {
        v.push(c);
    }
    v
}

/// A string made of the characters `v[from..to]`.
pub fn string_of(v: &Vec<char>, from: usize, to: usize) -> (s: String)
    requires
        from <= to <= v.len(),
    ensures
        s@ == v@.subrange(from as int, to as int),
{
    let mut s = String::new();
    let mut i: usize = from;
    while i < to
        invariant
            from <= i <= to <= v.len(),
            s@ == v@.subrange(from as int, i as int),
        decreases to - i,
    {
        s.push(v[i]);
        i += 1;
        assert(v@.subrange(from as int, i as int) =~= v@.subrange(from as int, i - 1).push(
            v@[i - 1],
        ));
    }
    s
}

/// Whether two strings hold the same characters.
pub fn same(a: &str, b: &str) -> (r: bool)
    ensures
        r == (a@ == b@),
{
    let x = chars(a);
    let y = chars(b);
    if x.len() != y.len() {
        return false;
    }
    let mut i: usize = 0;
    while i < x.len()
        invariant
            x@ == a@,
            y@ == b@,
            x.len() == y.len(),
            0 <= i <= x.len(),
            forall|j: int| 0 <= j < i ==> x@[j] == y@[j],
        decreases x.len() - i,
    {
        if x[i] != y[i] {
            return false;
        }
        i += 1;
    }
    assert(x@ =~= y@);
    true
}

/// The position of the first `c` in `s` at or after `from`; the length of `s` when there is none.
pub open spec fn index_from(s: Seq<char>, c: char, from: int) -> int
    decreases s.len() - from,
{
    if from < 0 || from >= s.len() {
        s.len() as int
    } else if s[from] == c {
        from
    } else {
        index_from(s, c, from + 1)
    }
}

/// `index_from` is the least position at or after `from` that holds `c`.
pub proof fn lemma_index_from(s: Seq<char>, c: char, from: int, k: int)
    requires
        0 <= from <= k <= s.len(),
        forall|j: int| from <= j < k ==> s[j] != c,
        k < s.len() ==> s[k] == c,
    ensures
        index_from(s, c, from) == k,
    decreases k - from,
{
    if from < k {
        lemma_index_from(s, c, from + 1, k);
    }
}

/// `index_from` lies between `from` and the length, and nothing before it is `c`.
pub proof fn lemma_index_from_bounds(s: Seq<char>, c: char, from: int)
    requires
        0 <= from <= s.len(),
    ensures
        from <= index_from(s, c, from) <= s.len(),
        forall|j: int| from <= j < index_from(s, c, from) ==> s[j] != c,
        index_from(s, c, from) < s.len() ==> s[index_from(s, c, from)] == c,
    decreases s.len() - from,
{
    if from < s.len() && s[from] != c {
        lemma_index_from_bounds(s, c, from + 1);
    }
}

/// The pieces of `s` from position `from` on that lie between occurrences of `sep`.
pub open spec fn pieces_from(s: Seq<char>, sep: char, from: int) -> Seq<Seq<char>>
    decreases s.len() - from,
{
    let k = index_from(s, sep, from);
    if from < 0 || from > s.len() {
        Seq::empty()
    } else if k >= s.len() || k < from {
        seq![s.subrange(from, s.len() as int)]
    } else {
        seq![s.subrange(from, k)] + pieces_from(s, sep, k + 1)
    }
}

/// The pieces of `s` that lie between occurrences of `sep`, empty ones included.
/// A string without `sep` is one piece; a string that ends in `sep` has an empty last piece.
pub open spec fn pieces(s: Seq<char>, sep: char) -> Seq<Seq<char>> {
    pieces_from(s, sep, 0)
}

/// Splits `s` at every `sep`, as `str::split` does.
pub fn split<'a>(s: &'a str, sep: char) -> (out: Vec<&'a str>)
    ensures
        views(out@) == pieces(s@, sep),
{
    let v = chars(s);
    let mut out: Vec<&'a str> = Vec::new();
    let mut start: usize = 0;
    let mut i: usize = 0;
    assert(views(out@) + pieces_from(s@, sep, 0) =~= pieces_from(s@, sep, 0));
    while i < v.len()
        invariant
            v@ == s@,
            0 <= start <= i <= v.len(),
            forall|j: int| start <= j < i ==> v@[j] != sep,
            views(out@) + pieces_from(s@, sep, start as int) == pieces_from(s@, sep, 0),
        decreases v.len() - i,
    {
        if v[i] == sep {
            let piece = s.substring_char(start, i);
            proof {
                lemma_index_from(s@, sep, start as int, i as int);
                assert(views(out@.push(piece)) =~= views(out@).push(piece@));
                assert(views(out@).push(piece@) + pieces_from(s@, sep, i + 1) =~= views(out@) + (
                seq![piece@] + pieces_from(s@, sep, i + 1)));
            }
            out.push(piece);
            start = i + 1;
        }
        i += 1;
    }
    let piece = s.substring_char(start, v.len());
    proof {
        lemma_index_from(s@, sep, start as int, v.len() as int);
        assert(views(out@.push(piece)) =~= views(out@).push(piece@));
        assert(views(out@).push(piece@) =~= views(out@) + seq![piece@]);
    }
    out.push(piece);
    out
}

/// The parts of `s` before and after its first `sep`, if it holds one.
pub open spec fn halves(s: Seq<char>, sep: char) -> Option<(Seq<char>, Seq<char>)> {
    let k = index_from(s, sep, 0);
    if 0 <= k < s.len() {
        Some((s.take(k), s.skip(k + 1)))
    } else {
        None
    }
}

/// Splits `s` at its first `sep`, as `str::split_once` does.
pub fn split_once<'a>(s: &'a str, sep: char) -> (r: Option<(&'a str, &'a str)>)
    ensures
        r is Some == halves(s@, sep) is Some,
        r matches Some(p) ==> halves(s@, sep) == Some((p.0@, p.1@)),
{
    let v = chars(s);
    let mut i: usize = 0;
    while i < v.len()
        invariant
            v@ == s@,
            0 <= i <= v.len(),
            forall|j: int| 0 <= j < i ==> v@[j] != sep,
        decreases v.len() - i,
    {
        if v[i] == sep {
            proof {
                lemma_index_from(s@, sep, 0, i as int);
            }
            let head = s.substring_char(0, i);
            let tail = s.substring_char(i + 1, v.len());
            return Some((head, tail));
        }
        i += 1;
    }
    proof {
        lemma_index_from(s@, sep, 0, v.len() as int);
    }
    None
}

/// The pieces of `s` between line feeds, without the empty ones.
pub open spec fn rows(s: Seq<char>) -> Seq<Seq<char>> {
    pieces(s, '\n').filter(|l: Seq<char>| l.len() > 0)
}

/// Keeps the slices that hold at least one character.
pub fn non_empty<'a>(v: Vec<&'a str>) -> (out: Vec<&'a str>)
    ensures
        views(out@) == views(v@).filter(|l: Seq<char>| l.len() > 0),
{
    let mut out: Vec<&'a str> = Vec::new();
    let ghost keep = |l: Seq<char>| l.len() > 0;
    let mut i: usize = 0;
    assert(views(v@).take(0) =~= Seq::<Seq<char>>::empty());
    while i < v.len()
        invariant
            0 <= i <= v.len(),
            keep == (|l: Seq<char>| l.len() > 0),
            views(out@) == views(v@).take(i as int).filter(keep),
        decreases v.len() - i,
    {
        let piece = v[i];
        proof {
            assert(views(v@).take(i + 1).drop_last() =~= views(v@).take(i as int));
            assert(views(v@).take(i + 1).last() == piece@);
            assert(views(out@.push(piece)) =~= views(out@).push(piece@));
            reveal(Seq::filter);
        }
        if !piece.is_empty() {
            out.push(piece);
        }
        i += 1;
    }
    assert(views(v@).take(v.len() as int) =~= views(v@));
    out
}

/// The non-empty lines of `s`, where lines end at `'\n'`.
pub fn rows_of<'a>(s: &'a str) -> (out: Vec<&'a str>)
    ensures
        views(out@) == rows(s@),
{
    non_empty(split(s, '\n'))
}

/// There is always a first piece.
pub proof fn lemma_pieces_not_empty(s: Seq<char>, sep: char, from: int)
    requires
        0 <= from <= s.len(),
    ensures
        pieces_from(s, sep, from).len() >= 1,
{
    lemma_index_from_bounds(s, sep, from);
}

/// `s` without the carriage return at its end, if it has one there.
pub open spec fn without_cr(s: Seq<char>) -> Seq<char> {
    if s.len() > 0 && s.last() == '\r' {
        s.drop_last()
    } else {
        s
    }
}

/// The lines of `s`: a line ends at a line feed, or at a carriage return with a line feed
/// behind it, or with `s`. What follows the last line feed is a line only if it holds a
/// character.
pub open spec fn lines_of(s: Seq<char>) -> Seq<Seq<char>> {
    let p = pieces(s, '\n');
    let n = if p.last().len() == 0 {
        p.len() - 1
    } else {
        p.len() as int
    };
    Seq::new(
        n as nat,
        |i: int|
            if i < p.len() - 1 {
                without_cr(p[i])
            } else {
                p[i]
            },
    )
}

/// Takes the carriage return from the end of `s`, if it has one there.
pub fn strip_cr<'a>(s: &'a str) -> (r: &'a str)
    ensures
        r@ == without_cr(s@),
{
    let v = chars(s);
    if v.len() > 0 && v[v.len() - 1] == '\r' {
        let r = s.substring_char(0, v.len() - 1);
        assert(r@ =~= without_cr(s@));
        r
    } else {
        s
    }
}

/// The lines of `s`, as `str::lines` gives them.
pub fn lines<'a>(s: &'a str) -> (out: Vec<&'a str>)
    ensures
        views(out@) == lines_of(s@),
{
    let parts = split(s, '\n');
    proof {
        lemma_pieces_not_empty(s@, '\n', 0);
    }
    let ghost p = pieces(s@, '\n');
    assert(forall|i: int| 0 <= i < parts.len() ==> #[trigger] parts@[i]@ == p[i]) by {
        assert(forall|i: int| 0 <= i < parts.len() ==> #[trigger] views(parts@)[i] == parts@[i]@);
    }
    let last = parts.len() - 1;
    let mut out: Vec<&'a str> = Vec::new();
    let mut i: usize = 0;
    while i < last
        invariant
            p == pieces(s@, '\n'),
            parts.len() == p.len(),
            last == parts.len() - 1,
            forall|k: int| 0 <= k < parts.len() ==> #[trigger] parts@[k]@ == p[k],
            0 <= i <= last,
            out.len() == i,
            forall|k: int| 0 <= k < i ==> #[trigger] out@[k]@ == without_cr(p[k]),
        decreases last - i,
    {
        let line = strip_cr(parts[i]);
        out.push(line);
        i += 1;
    }
    if !parts[last].is_empty() {
        out.push(parts[last]);
    }
    assert(views(out@) =~= lines_of(s@));
    out
}

/// Whether `c` is white space: a character with the property White_Space of Unicode.
pub open spec fn is_space(c: char) -> bool {
    let n = c as int;
    (0x09 <= n <= 0x0d) || n == 0x20 || n == 0x85 || n == 0xa0 || n == 0x1680 || (0x2000 <= n
        <= 0x200a) || n == 0x2028 || n == 0x2029 || n == 0x202f || n == 0x205f || n == 0x3000
}

/// Tells whether `c` is white space, as `char::is_whitespace` does.
pub fn is_whitespace(c: char) -> (r: bool)
    ensures
        r == is_space(c),
{
    let n = c as u32;
    (0x09 <= n && n <= 0x0d) || n == 0x20 || n == 0x85 || n == 0xa0 || n == 0x1680 || (0x2000 <= n
        && n <= 0x200a) || n == 0x2028 || n == 0x2029 || n == 0x202f || n == 0x205f || n == 0x3000
}

/// The position of the first character of `s` at or after `from` that is no white space; the
/// length of `s` when there is none.
pub open spec fn ink_from(s: Seq<char>, from: int) -> int
    decreases s.len() - from,
{
    if from < 0 || from >= s.len() {
        s.len() as int
    } else if !is_space(s[from]) {
        from
    } else {
        ink_from(s, from + 1)
    }
}

/// The position after the last character of `s` before `to` that is no white space; 0 when
/// there is none.
pub open spec fn ink_until(s: Seq<char>, to: int) -> int
    decreases to,
{
    if to <= 0 || to > s.len() {
        0
    } else if !is_space(s[to - 1]) {
        to
    } else {
        ink_until(s, to - 1)
    }
}

/// `s` without the white space at its two ends.
pub open spec fn trimmed(s: Seq<char>) -> Seq<char> {
    let from = ink_from(s, 0);
    let to = ink_until(s, s.len() as int);
    if from < to {
        s.subrange(from, to)
    } else {
        Seq::empty()
    }
}

/// `ink_from` is the first position from `from` on that holds no white space.
pub proof fn lemma_ink_from(s: Seq<char>, from: int, k: int)
    requires
        0 <= from <= k <= s.len(),
        forall|j: int| from <= j < k ==> is_space(s[j]),
        k < s.len() ==> !is_space(s[k]),
    ensures
        ink_from(s, from) == k,
    decreases k - from,
{
    if from < k {
        lemma_ink_from(s, from + 1, k);
    }
}

/// `ink_until` is the position after the last character before `to` that is no white space.
pub proof fn lemma_ink_until(s: Seq<char>, to: int, k: int)
    requires
        0 <= k <= to <= s.len(),
        forall|j: int| k <= j < to ==> is_space(s[j]),
        k > 0 ==> !is_space(s[k - 1]),
    ensures
        ink_until(s, to) == k,
    decreases to - k,
{
    if k < to {
        lemma_ink_until(s, to - 1, k);
    }
}

/// Takes the white space from the two ends of `s`, as `str::trim` does.
pub fn trim<'a>(s: &'a str) -> (r: &'a str)
    ensures
        r@ == trimmed(s@),
{
    let v = chars(s);
    let mut from: usize = 0;
    while from < v.len() && is_whitespace(v[from])
        invariant
            0 <= from <= v.len(),
            forall|j: int| 0 <= j < from ==> is_space(v@[j]),
        decreases v.len() - from,
    {
        from += 1;
    }
    let mut to: usize = v.len();
    while to > 0 && is_whitespace(v[to - 1])
        invariant
            0 <= to <= v.len(),
            forall|j: int| to <= j < v.len() ==> is_space(v@[j]),
        decreases to,
    {
        to -= 1;
    }
    proof {
        lemma_ink_from(s@, 0, from as int);
        lemma_ink_until(s@, s@.len() as int, to as int);
    }
    if from < to {
        s.substring_char(from, to)
    } else {
        s.substring_char(0, 0)
    }
}

/// Whether `pat` stands in `s` at position `i`.
pub open spec fn occurs(s: Seq<char>, pat: Seq<char>, i: int) -> bool {
    0 <= i && i + pat.len() <= s.len() && s.subrange(i, i + pat.len()) == pat
}

/// The first position at or after `from` at which `pat` stands in `s`; the length of `s` when
/// there is none.
pub open spec fn match_from(s: Seq<char>, pat: Seq<char>, from: int) -> int
    decreases s.len() - from,
{
    if from < 0 || from >= s.len() {
        s.len() as int
    } else if occurs(s, pat, from) {
        from
    } else {
        match_from(s, pat, from + 1)
    }
}

/// `match_from` is the first position from `from` on at which `pat` stands.
pub proof fn lemma_match_from(s: Seq<char>, pat: Seq<char>, from: int, k: int)
    requires
        0 <= from <= k <= s.len(),
        forall|j: int| from <= j < k ==> !occurs(s, pat, j),
        k < s.len() ==> occurs(s, pat, k),
    ensures
        match_from(s, pat, from) == k,
    decreases k - from,
{
    if from < k {
        lemma_match_from(s, pat, from + 1, k);
    }
}

/// `match_from` lies between `from` and the length of `s`; before the length, `pat` stands
/// there.
pub proof fn lemma_match_from_bounds(s: Seq<char>, pat: Seq<char>, from: int)
    requires
        0 <= from <= s.len(),
    ensures
        from <= match_from(s, pat, from) <= s.len(),
        match_from(s, pat, from) < s.len() ==> occurs(s, pat, match_from(s, pat, from)),
    decreases s.len() - from,
{
    if from < s.len() && !occurs(s, pat, from) {
        lemma_match_from_bounds(s, pat, from + 1);
    }
}

/// Tells whether `pat` stands in `v` at position `i`.
pub fn occurs_at(v: &Vec<char>, pat: &Vec<char>, i: usize) -> (r: bool)
    ensures
        r == occurs(v@, pat@, i as int),
{
    if pat.len() > v.len() || i > v.len() - pat.len() {
        return false;
    }
    let mut k: usize = 0;
    while k < pat.len()
        invariant
            i + pat.len() <= v.len(),
            0 <= k <= pat.len(),
            forall|j: int| 0 <= j < k ==> v@[i + j] == pat@[j],
        decreases pat.len() - k,
    {
        if v[i + k] != pat[k] {
            assert(v@.subrange(i as int, i + pat.len())[k as int] != pat@[k as int]);
            return false;
        }
        k += 1;
    }
    assert(v@.subrange(i as int, i + pat.len()) =~= pat@);
    true
}

/// The first position at or after `from` at which `pat` stands in `v`.
pub fn find(v: &Vec<char>, pat: &Vec<char>, from: usize) -> (r: usize)
    requires
        from <= v.len(),
    ensures
        r == match_from(v@, pat@, from as int),
        from <= r <= v.len(),
{
    let mut i: usize = from;
    while i < v.len()
        invariant
            from <= i <= v.len(),
            forall|j: int| from <= j < i ==> !occurs(v@, pat@, j),
        decreases v.len() - i,
    {
        if occurs_at(v, pat, i) {
            proof {
                lemma_match_from(v@, pat@, from as int, i as int);
            }
            return i;
        }
        i += 1;
    }
    proof {
        lemma_match_from(v@, pat@, from as int, v.len() as int);
    }
    i
}

/// The parts of `s` before and after the first place at which `pat` stands in it.
pub open spec fn halves_at(s: Seq<char>, pat: Seq<char>) -> Option<(Seq<char>, Seq<char>)> {
    let k = match_from(s, pat, 0);
    if 0 <= k < s.len() {
        Some((s.take(k), s.skip(k + pat.len())))
    } else {
        None
    }
}

/// Splits `s` at the first place at which `pat` stands, as `str::split_once` does.
pub fn split_once_at<'a>(s: &'a str, pat: &str) -> (r: Option<(&'a str, &'a str)>)
    requires
        pat@.len() > 0,
    ensures
        r is Some == halves_at(s@, pat@) is Some,
        r matches Some(p) ==> halves_at(s@, pat@) == Some((p.0@, p.1@)),
{
    let v = chars(s);
    let p = chars(pat);
    let k = find(&v, &p, 0);
    if k < v.len() {
        proof {
            lemma_match_from_bounds(s@, pat@, 0);
        }
        let head = s.substring_char(0, k);
        let tail = s.substring_char(k + p.len(), v.len());
        Some((head, tail))
    } else {
        None
    }
}

/// `s` from position `from` on without the places at which `pat` stands, taken from the left.
pub open spec fn without_from(s: Seq<char>, pat: Seq<char>, from: int) -> Seq<char>
    decreases s.len() - from,
{
    let k = match_from(s, pat, from);
    if from < 0 || from > s.len() {
        Seq::empty()
    } else if k >= s.len() || k < from || pat.len() == 0 || k + pat.len() > s.len() {
        s.subrange(from, s.len() as int)
    } else {
        s.subrange(from, k) + without_from(s, pat, k + pat.len())
    }
}

/// `s` without the places at which `pat` stands, taken from the left.
pub open spec fn without(s: Seq<char>, pat: Seq<char>) -> Seq<char> {
    without_from(s, pat, 0)
}

/// Takes every `pat` out of `s`, as `str::replace` does with an empty replacement.
pub fn remove(s: &str, pat: &str) -> (r: String)
    requires
        pat@.len() > 0,
    ensures
        r@ == without(s@, pat@),
{
    let v = chars(s);
    let p = chars(pat);
    let mut out = String::new();
    let mut from: usize = 0;
    let mut done = false;
    assert(out@ + without_from(s@, pat@, 0) =~= without_from(s@, pat@, 0));
    while !done
        invariant
            v@ == s@,
            p@ == pat@,
            p.len() > 0,
            0 <= from <= v.len(),
            !done ==> out@ + without_from(s@, pat@, from as int) == without(s@, pat@),
            done ==> out@ == without(s@, pat@),
        decreases
                v.len() - from + if done {
                    0int
                } else {
                    1int
                },
    {
        let k = find(&v, &p, from);
        proof {
            lemma_match_from_bounds(s@, pat@, from as int);
        }
        let ghost before = out@;
        let mut i: usize = from;
        while i < k
            invariant
                from <= i <= k <= v.len(),
                out@ == before + v@.subrange(from as int, i as int),
            decreases k - i,
        {
            out.push(v[i]);
            i += 1;
            assert(out@ =~= before + v@.subrange(from as int, i as int));
        }
        if k < v.len() {
            assert(before + v@.subrange(from as int, k as int) + without_from(
                s@,
                pat@,
                k + p.len(),
            ) =~= before + (v@.subrange(from as int, k as int) + without_from(
                s@,
                pat@,
                k + p.len(),
            )));
            from = k + p.len();
        } else {
            done = true;
        }
    }
    out
}

/// How many bytes a character takes up in a string.
pub open spec fn width(c: char) -> int {
    if (c as int) < 0x80 {
        1
    } else if (c as int) < 0x800 {
        2
    } else if (c as int) < 0x10000 {
        3
    } else {
        4
    }
}

/// Tells how many bytes a character takes up in a string.
pub fn width_of(c: char) -> (r: usize)
    ensures
        r == width(c),
{
    let n = c as u32;
    if n < 0x80 {
        1
    } else if n < 0x800 {
        2
    } else if n < 0x10000 {
        3
    } else {
        4
    }
}

/// The number of characters from position `from` on that take up `n` bytes together; `None`
/// when no number of characters does, because byte `n` lies within a character or after the
/// end.
pub open spec fn count_for(s: Seq<char>, from: int, n: int) -> Option<int>
    decreases s.len() - from,
{
    if n == 0 {
        Some(0)
    } else if n < 0 || from < 0 || from >= s.len() {
        None
    } else {
        match count_for(s, from + 1, n - width(s[from])) {
            Some(k) => Some(k + 1),
            None => None,
        }
    }
}

/// What is left of `s` after its first `n` bytes; `None` where a string cannot be cut there.
pub open spec fn after_bytes(s: Seq<char>, n: int) -> Option<Seq<char>> {
    match count_for(s, 0, n) {
        Some(k) => Some(s.skip(k)),
        None => None,
    }
}

/// Cuts the first `n` bytes off `s`, as `&s[n..]` does; `None` where that would fail.
pub fn skip_bytes<'a>(s: &'a str, n: usize) -> (r: Option<&'a str>)
    ensures
        r is Some == after_bytes(s@, n as int) is Some,
        r is Some ==> r->0@ == after_bytes(s@, n as int)->0,
{
    let v = chars(s);
    let mut left: usize = n;
    let mut k: usize = 0;
    while left > 0
        invariant
            v@ == s@,
            0 <= k <= v.len(),
            count_for(s@, 0, n as int) == match count_for(s@, k as int, left as int) {
                Some(j) => Some(j + k),
                None => None,
            },
        decreases v.len() - k,
    {
        if k >= v.len() {
            return None;
        }
        let w = width_of(v[k]);
        if w > left {
            assert(count_for(s@, k + 1, left - width(s@[k as int])) is None);
            return None;
        }
        left -= w;
        k += 1;
    }
    Some(s.substring_char(k, v.len()))
}

/// The first piece of `s` between white space that holds a character, if there is one.
pub open spec fn first_word(s: Seq<char>) -> Option<Seq<char>> {
    let from = ink_from(s, 0);
    if 0 <= from < s.len() {
        Some(s.subrange(from, space_from(s, from)))
    } else {
        None
    }
}

/// The position of the first white space in `s` at or after `from`; the length of `s` when
/// there is none.
pub open spec fn space_from(s: Seq<char>, from: int) -> int
    decreases s.len() - from,
{
    if from < 0 || from >= s.len() {
        s.len() as int
    } else if is_space(s[from]) {
        from
    } else {
        space_from(s, from + 1)
    }
}

/// `space_from` is the first position from `from` on that holds white space.
pub proof fn lemma_space_from(s: Seq<char>, from: int, k: int)
    requires
        0 <= from <= k <= s.len(),
        forall|j: int| from <= j < k ==> !is_space(s[j]),
        k < s.len() ==> is_space(s[k]),
    ensures
        space_from(s, from) == k,
    decreases k - from,
{
    if from < k {
        lemma_space_from(s, from + 1, k);
    }
}

/// The first piece of `s` between white space, as `split_whitespace().next()` gives it.
pub fn next_word<'a>(s: &'a str) -> (r: Option<&'a str>)
    ensures
        r is Some == first_word(s@) is Some,
        r is Some ==> r->0@ == first_word(s@)->0,
{
    let v = chars(s);
    let mut from: usize = 0;
    while from < v.len() && is_whitespace(v[from])
        invariant
            0 <= from <= v.len(),
            forall|j: int| 0 <= j < from ==> is_space(v@[j]),
        decreases v.len() - from,
    {
        from += 1;
    }
    proof {
        lemma_ink_from(s@, 0, from as int);
    }
    if from == v.len() {
        return None;
    }
    let mut to: usize = from;
    while to < v.len() && !is_whitespace(v[to])
        invariant
            from <= to <= v.len(),
            forall|j: int| from <= j < to ==> !is_space(v@[j]),
        decreases v.len() - to,
    {
        to += 1;
    }
    proof {
        lemma_space_from(s@, from as int, to as int);
    }
    Some(s.substring_char(from, to))
}

/// The pieces of `s` from position `from` on that lie between the places at which `pat`
/// stands, taken from the left.
pub open spec fn blocks_from(s: Seq<char>, pat: Seq<char>, from: int) -> Seq<Seq<char>>
    decreases s.len() - from,
{
    let k = match_from(s, pat, from);
    if from < 0 || from > s.len() {
        Seq::empty()
    } else if k >= s.len() || k < from || pat.len() == 0 || k + pat.len() > s.len() {
        seq![s.subrange(from, s.len() as int)]
    } else {
        seq![s.subrange(from, k)] + blocks_from(s, pat, k + pat.len())
    }
}

/// There is always a first piece.
pub proof fn lemma_blocks_not_empty(s: Seq<char>, pat: Seq<char>, from: int)
    requires
        0 <= from <= s.len(),
    ensures
        blocks_from(s, pat, from).len() >= 1,
{
}

/// The pieces of `s` that lie between the places at which `pat` stands.
pub open spec fn blocks(s: Seq<char>, pat: Seq<char>) -> Seq<Seq<char>> {
    blocks_from(s, pat, 0)
}

/// Splits `s` at every place at which `pat` stands, as `str::split` does with a string.
pub fn split_by<'a>(s: &'a str, pat: &str) -> (out: Vec<&'a str>)
    requires
        pat@.len() > 0,
    ensures
        views(out@) == blocks(s@, pat@),
{
    let v = chars(s);
    let p = chars(pat);
    let mut out: Vec<&'a str> = Vec::new();
    let mut from: usize = 0;
    let mut done = false;
    assert(views(out@) + blocks_from(s@, pat@, 0) =~= blocks_from(s@, pat@, 0));
    while !done
        invariant
            v@ == s@,
            p@ == pat@,
            p.len() > 0,
            0 <= from <= v.len(),
            !done ==> views(out@) + blocks_from(s@, pat@, from as int) == blocks(s@, pat@),
            done ==> views(out@) == blocks(s@, pat@),
        decreases
                v.len() - from + if done {
                    0int
                } else {
                    1int
                },
    {
        let k = find(&v, &p, from);
        proof {
            lemma_match_from_bounds(s@, pat@, from as int);
        }
        if k < v.len() {
            let piece = s.substring_char(from, k);
            proof {
                assert(views(out@.push(piece)) =~= views(out@).push(piece@));
                assert(views(out@).push(piece@) + blocks_from(s@, pat@, k + p.len()) =~= views(out@)
                    + (seq![piece@] + blocks_from(s@, pat@, k + p.len())));
            }
            out.push(piece);
            from = k + p.len();
        } else {
            let piece = s.substring_char(from, v.len());
            proof {
                assert(views(out@.push(piece)) =~= views(out@).push(piece@));
                assert(views(out@).push(piece@) =~= views(out@) + seq![piece@]);
            }
            out.push(piece);
            done = true;
        }
    }
    out
}

/// How many bytes the first `n` characters of `s` take up.
pub open spec fn bytes(s: Seq<char>, n: int) -> int
    decreases n,
{
    if n <= 0 {
        0
    } else {
        bytes(s, n - 1) + width(s[n - 1])
    }
}

/// The two parts of `s` before and after byte `n`; `None` where a string cannot be cut
/// there.
pub open spec fn cut(s: Seq<char>, n: int) -> Option<(Seq<char>, Seq<char>)> {
    match count_for(s, 0, n) {
        Some(k) => Some((s.take(k), s.skip(k))),
        None => None,
    }
}

/// Tells how many bytes `s` takes up, as `str::len` does; `None` where the number is too
/// large to be held.
pub fn byte_len(s: &str) -> (r: Option<usize>)
    ensures
        r is Some == (bytes(s@, s@.len() as int) <= usize::MAX),
        r matches Some(n) ==> n == bytes(s@, s@.len() as int),
{
    let v = chars(s);
    let mut total: usize = 0;
    let mut k: usize = 0;
    while k < v.len()
        invariant
            v@ == s@,
            0 <= k <= v.len(),
            total == bytes(s@, k as int),
        decreases v.len() - k,
    {
        let w = width_of(v[k]);
        if w > usize::MAX - total {
            proof {
                lemma_bytes_grow(s@, k + 1, s@.len() as int);
            }
            return None;
        }
        total += w;
        k += 1;
    }
    Some(total)
}

/// More characters take up more bytes, each of them at least one and at most four.
pub proof fn lemma_bytes_grow(s: Seq<char>, n: int, m: int)
    requires
        0 <= n <= m,
    ensures
        n <= bytes(s, n) <= 4 * n,
        bytes(s, n) + (m - n) <= bytes(s, m),
    decreases m,
{
    if m > 0 {
        if n < m {
            lemma_bytes_grow(s, n, m - 1);
        } else {
            lemma_bytes_grow(s, n - 1, m - 1);
        }
    }
}

/// Cuts `s` at byte `n`, as `str::split_at` does; `None` where that would fail.
pub fn cut_at<'a>(s: &'a str, n: usize) -> (r: Option<(&'a str, &'a str)>)
    ensures
        r is Some == cut(s@, n as int) is Some,
        r matches Some(p) ==> cut(s@, n as int) == Some((p.0@, p.1@)),
{
    let v = chars(s);
    let mut left: usize = n;
    let mut k: usize = 0;
    while left > 0
        invariant
            v@ == s@,
            0 <= k <= v.len(),
            count_for(s@, 0, n as int) == match count_for(s@, k as int, left as int) {
                Some(j) => Some(j + k),
                None => None,
            },
        decreases v.len() - k,
    {
        if k >= v.len() {
            return None;
        }
        let w = width_of(v[k]);
        if w > left {
            assert(count_for(s@, k + 1, left - width(s@[k as int])) is None);
            return None;
        }
        left -= w;
        k += 1;
    }
    Some((s.substring_char(0, k), s.substring_char(k, v.len())))
}

/// The lines of `s` that hold at least one character.
pub open spec fn filled(s: Seq<char>) -> Seq<Seq<char>> {
    lines_of(s).filter(|l: Seq<char>| l.len() > 0)
}

/// Splits `s` into lines and keeps those that hold at least one character.
pub fn filled_lines<'a>(s: &'a str) -> (out: Vec<&'a str>)
    ensures
        views(out@) == filled(s@),
{
    non_empty(lines(s))
}

/// Appends the characters of `t` to `s`.
pub fn push_all(s: &mut String, t: &str)
    ensures
        final(s)@ == old(s)@ + t@,
{
    let v = chars(t);
    let mut i: usize = 0;
    assert(s@ =~= old(s)@ + t@.take(0));
    while i < v.len()
        invariant
            v@ == t@,
            0 <= i <= v.len(),
            s@ == old(s)@ + t@.take(i as int),
        decreases v.len() - i,
    {
        s.push(v[i]);
        i += 1;
        assert(s@ =~= old(s)@ + t@.take(i as int));
    }
    assert(t@.take(v.len() as int) =~= t@);
}

} // verus!

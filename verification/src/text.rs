//! Text as the library sees it: sequences of `char`, with the byte length
//! that `str::len` reports, and the splitting, joining, trimming and
//! repeating that the planner's formats are made of.

use vstd::prelude::*;
use vstd::string::*;
use vstd::utf8::*;

verus! {

/// Appends one character to a string. This calls `String::push`, which std
/// documents as appending the given `char` to the end of the `String`; the
/// contract claims exactly that of the characters the string holds.
#[verifier::external_body]
fn push_char(s: &mut String, c: char)
    ensures
        final(s)@ == old(s)@.push(c),
{
    s.push(c)
}

/// The length in bytes of the UTF-8 encoding of a text, as `str::len`
/// reports it.
pub open spec fn str_len(s: Seq<char>) -> usize {
    encode_utf8(s).len() as usize
}

/// The characters of a string slice, one by one.
pub fn chars_of(s: &str) -> (v: Vec<char>)
    ensures
        v@ == s@,
{
    let n = s.unicode_len();
    let mut v: Vec<char> = Vec::new();
    let mut i: usize = 0;
    while i < n
        invariant
            n == s@.len(),
            i <= n,
            v@ == s@.take(i as int),
        decreases n - i,
    {
        let c = s.get_char(i);
        v.push(c);
        assert(s@.take(i + 1) =~= s@.take(i as int).push(c));
        i += 1;
    }
    assert(s@.take(n as int) =~= s@);
    v
}

/// A string made of the given characters.
pub fn string_of(v: &Vec<char>) -> (s: String)
    ensures
        s@ == v@,
{
    let mut s = String::new();
    let mut i: usize = 0;
    while i < v.len()
        invariant
            i <= v.len(),
            s@ == v@.take(i as int),
        decreases v.len() - i,
    {
        push_char(&mut s, v[i]);
        assert(v@.take(i + 1) =~= v@.take(i as int).push(v@[i as int]));
        i += 1;
    }
    assert(v@.take(v.len() as int) =~= v@);
    s
}

/// The byte length of a text held as characters.
pub fn text_len(v: &Vec<char>) -> (n: usize)
    ensures
        n == str_len(v@),
{
    let s = string_of(v);
    s.as_str().len()
}


/// `d` occurs in `s` at position `i`.
pub open spec fn occurs_at(s: Seq<char>, d: Seq<char>, i: int) -> bool {
    0 <= i && i + d.len() <= s.len() && s.subrange(i, i + d.len()) == d
}

/// `d` occurs somewhere in `s`.
pub open spec fn occurs_in(s: Seq<char>, d: Seq<char>) -> bool {
    exists|i: int| occurs_at(s, d, i)
}

/// The pieces of `s` between the occurrences of `d`, scanning from left to
/// right as `str::split` does: the piece under way began at `start`, and the
/// scan stands at `i`.
pub open spec fn split_from(s: Seq<char>, d: Seq<char>, start: int, i: int) -> Seq<Seq<char>>
    decreases s.len() - i,
{
    if d.len() == 0 || i < 0 || i + d.len() > s.len() {
        seq![s.subrange(start, s.len() as int)]
    } else if s.subrange(i, i + d.len()) == d {
        seq![s.subrange(start, i)] + split_from(s, d, i + d.len(), i + d.len())
    } else {
        split_from(s, d, start, i + 1)
    }
}

/// `s.split(d)`, for a non-empty separator `d`.
pub open spec fn split_by(s: Seq<char>, d: Seq<char>) -> Seq<Seq<char>> {
    split_from(s, d, 0, 0)
}

/// The texts held in a list of character vectors.
pub open spec fn texts(v: Seq<Vec<char>>) -> Seq<Seq<char>> {
    v.map_values(|x: Vec<char>| x@)
}

/// `parts.join(d)`.
pub open spec fn join_by(parts: Seq<Seq<char>>, d: Seq<char>) -> Seq<char>
    decreases parts.len(),
{
    if parts.len() == 0 {
        seq![]
    } else if parts.len() == 1 {
        parts[0]
    } else {
        parts[0] + d + join_by(parts.drop_first(), d)
    }
}

/// Splitting never gives an empty list of pieces.
pub proof fn lemma_split_from_nonempty(s: Seq<char>, d: Seq<char>, start: int, i: int)
    ensures
        split_from(s, d, start, i).len() >= 1,
    decreases s.len() - i,
{
    if d.len() == 0 || i < 0 || i + d.len() > s.len() {
    } else if s.subrange(i, i + d.len()) == d {
        lemma_split_from_nonempty(s, d, i + d.len(), i + d.len());
    } else {
        lemma_split_from_nonempty(s, d, start, i + 1);
    }
}

/// Joining after one more piece adds the separator and that piece.
pub proof fn lemma_join_push(parts: Seq<Seq<char>>, d: Seq<char>, x: Seq<char>)
    requires
        parts.len() >= 1,
    ensures
        join_by(parts.push(x), d) == join_by(parts, d) + d + x,
    decreases parts.len(),
{
    let all = parts.push(x);
    assert(all[0] == parts[0]);
    if parts.len() == 1 {
        assert(all.drop_first() =~= seq![x]);
        assert(join_by(seq![x], d) == x);
        assert(join_by(all, d) == parts[0] + d + x);
        assert(join_by(parts, d) == parts[0]);
    } else {
        assert(all.drop_first() =~= parts.drop_first().push(x));
        lemma_join_push(parts.drop_first(), d, x);
        assert(join_by(all, d) == parts[0] + d + join_by(parts.drop_first().push(x), d));
        assert(join_by(all, d) =~= parts[0] + d + join_by(parts.drop_first(), d) + d + x);
    }
}

proof fn lemma_join_split_from(s: Seq<char>, d: Seq<char>, start: int, i: int)
    requires
        0 <= start <= i <= s.len(),
        d.len() > 0,
    ensures
        join_by(split_from(s, d, start, i), d) == s.subrange(start, s.len() as int),
    decreases s.len() - i,
{
    if i + d.len() > s.len() {
    } else if s.subrange(i, i + d.len()) == d {
        let rest = split_from(s, d, i + d.len(), i + d.len());
        lemma_join_split_from(s, d, i + d.len(), i + d.len());
        lemma_split_from_nonempty(s, d, i + d.len(), i + d.len());
        let all = seq![s.subrange(start, i)] + rest;
        assert(all.drop_first() =~= rest);
        assert(s.subrange(start, s.len() as int) =~= s.subrange(start, i) + d + s.subrange(
            i + d.len(),
            s.len() as int,
        ));
    } else {
        lemma_join_split_from(s, d, start, i + 1);
    }
}

/// Splitting a text at a separator and joining the pieces with it gives the
/// text back.
pub proof fn lemma_join_split(s: Seq<char>, d: Seq<char>)
    requires
        d.len() > 0,
    ensures
        join_by(split_by(s, d), d) == s,
{
    lemma_join_split_from(s, d, 0, 0);
    assert(s.subrange(0, s.len() as int) =~= s);
}

/// Whether `d` occurs in `s` at position `i`.
fn occurs_at_exec(s: &Vec<char>, d: &Vec<char>, i: usize) -> (b: bool)
    ensures
        b == occurs_at(s@, d@, i as int),
{
    if i > s.len() || d.len() > s.len() - i {
        return false;
    }
    let mut k: usize = 0;
    while k < d.len()
        invariant
            i + d.len() <= s.len(),
            k <= d.len(),
            forall|j: int| 0 <= j < k ==> s@[i + j] == d@[j],
        decreases d.len() - k,
    {
        if s[i + k] != d[k] {
            assert(s@.subrange(i as int, i + d.len())[k as int] != d@[k as int]);
            return false;
        }
        k += 1;
    }
    assert(s@.subrange(i as int, i + d.len()) =~= d@);
    true
}

/// A copy of the characters of `s` from `a` up to `b`.
pub fn slice_of(s: &Vec<char>, a: usize, b: usize) -> (r: Vec<char>)
    requires
        a <= b <= s.len(),
    ensures
        r@ == s@.subrange(a as int, b as int),
{
    let mut r: Vec<char> = Vec::new();
    let mut k: usize = a;
    while k < b
        invariant
            a <= k <= b <= s.len(),
            r@ == s@.subrange(a as int, k as int),
        decreases b - k,
    {
        r.push(s[k]);
        assert(s@.subrange(a as int, k + 1) =~= s@.subrange(a as int, k as int).push(s@[k as int]));
        k += 1;
    }
    r
}

/// `s.split(d)`, piece by piece.
pub fn split_text(s: &Vec<char>, d: &Vec<char>) -> (parts: Vec<Vec<char>>)
    requires
        d.len() > 0,
    ensures
        texts(parts@) == split_by(s@, d@),
{
    let mut parts: Vec<Vec<char>> = Vec::new();
    let mut start: usize = 0;
    let mut i: usize = 0;
    while i <= s.len() && d.len() <= s.len() - i
        invariant
            d.len() > 0,
            start <= i <= s.len() || (start <= s.len() && i > s.len()),
            start <= i,
            texts(parts@) + split_from(s@, d@, start as int, i as int) == split_by(s@, d@),
        decreases s.len() + 1 - i,
    {
        if occurs_at_exec(s, d, i) {
            let piece = slice_of(s, start, i);
            let ghost old_parts = texts(parts@);
            parts.push(piece);
            assert(texts(parts@) =~= old_parts.push(piece@));
            assert(split_from(s@, d@, start as int, i as int) == seq![s@.subrange(start as int, i as int)]
                + split_from(s@, d@, i + d.len(), i + d.len()));
            assert(old_parts + split_from(s@, d@, start as int, i as int) =~= texts(parts@)
                + split_from(s@, d@, i + d.len(), i + d.len()));
            i = i + d.len();
            start = i;
        } else {
            i = i + 1;
        }
    }
    let piece = slice_of(s, start, s.len());
    let ghost old_parts = texts(parts@);
    parts.push(piece);
    assert(texts(parts@) =~= old_parts.push(piece@));
    assert(old_parts + split_from(s@, d@, start as int, i as int) =~= texts(parts@));
    parts
}

/// `parts.join(d)`.
pub fn join_text(parts: &Vec<Vec<char>>, d: &Vec<char>) -> (r: Vec<char>)
    ensures
        r@ == join_by(texts(parts@), d@),
{
    if parts.len() == 0 {
        return Vec::new();
    }
    let mut r: Vec<char> = slice_of(&parts[0], 0, parts[0].len());
    assert(texts(parts@).take(1) =~= seq![parts[0]@]);
    assert(parts[0]@.subrange(0, parts[0]@.len() as int) =~= parts[0]@);
    let mut i: usize = 1;
    while i < parts.len()
        invariant
            1 <= i <= parts.len(),
            r@ == join_by(texts(parts@).take(i as int), d@),
        decreases parts.len() - i,
    {
        let ghost before = r@;
        let mut k: usize = 0;
        while k < d.len()
            invariant
                k <= d.len(),
                r@ == before + d@.take(k as int),
            decreases d.len() - k,
        {
            r.push(d[k]);
            assert(d@.take(k + 1) =~= d@.take(k as int).push(d@[k as int]));
            k += 1;
        }
        assert(d@.take(d.len() as int) =~= d@);
        let ghost mid = r@;
        let p = &parts[i];
        let mut k: usize = 0;
        while k < p.len()
            invariant
                k <= p.len(),
                r@ == mid + p@.take(k as int),
            decreases p.len() - k,
        {
            r.push(p[k]);
            assert(p@.take(k + 1) =~= p@.take(k as int).push(p@[k as int]));
            k += 1;
        }
        assert(p@.take(p.len() as int) =~= p@);
        proof {
            lemma_join_push(texts(parts@).take(i as int), d@, p@);
            assert(texts(parts@).take(i + 1) =~= texts(parts@).take(i as int).push(p@));
        }
        i += 1;
    }
    assert(texts(parts@).take(parts.len() as int) =~= texts(parts@));
    r
}


/// When `d` occurs nowhere from `i` on, the piece under way runs to the end.
pub proof fn lemma_split_no_more(s: Seq<char>, d: Seq<char>, start: int, i: int)
    requires
        0 <= start <= i,
        d.len() > 0,
        forall|k: int| i <= k ==> !occurs_at(s, d, k),
    ensures
        split_from(s, d, start, i) == seq![s.subrange(start, s.len() as int)],
    decreases s.len() - i,
{
    if i + d.len() > s.len() {
    } else {
        assert(!occurs_at(s, d, i));
        lemma_split_no_more(s, d, start, i + 1);
    }
}

proof fn lemma_split_single_append_from(
    a: Seq<char>,
    c: char,
    b: Seq<char>,
    start: int,
    i: int,
)
    requires
        0 <= start <= i <= a.len(),
        forall|k: int| 0 <= k < b.len() ==> b[k] != c,
    ensures
        split_from(a + seq![c] + b, seq![c], start, i) == split_from(a, seq![c], start, i).push(b),
    decreases a.len() - i,
{
    let s = a + seq![c] + b;
    let d = seq![c];
    assert(s.subrange(start, i) =~= a.subrange(start, i));
    if i == a.len() {
        assert(s.subrange(i, i + 1) =~= d);
        assert forall|k: int| i + 1 <= k implies !occurs_at(s, d, k) by {
            if occurs_at(s, d, k) {
                assert(s.subrange(k, k + 1)[0] == c);
                assert(s[k] == b[k - a.len() - 1]);
            }
        }
        lemma_split_no_more(s, d, i + 1, i + 1);
        assert(s.subrange(i + 1, s.len() as int) =~= b);
        assert(split_from(a, d, start, i) == seq![a.subrange(start, a.len() as int)]);
        assert(split_from(s, d, start, i) =~= split_from(a, d, start, i).push(b));
    } else {
        assert(s.subrange(i, i + 1) =~= a.subrange(i, i + 1));
        if a.subrange(i, i + 1) == d {
            lemma_split_single_append_from(a, c, b, i + 1, i + 1);
            assert(split_from(s, d, start, i) =~= split_from(a, d, start, i).push(b));
        } else {
            lemma_split_single_append_from(a, c, b, start, i + 1);
        }
    }
}

/// Splitting at a one-character separator, a last piece without that
/// character comes out as one more piece.
pub proof fn lemma_split_single_append(a: Seq<char>, c: char, b: Seq<char>)
    requires
        forall|k: int| 0 <= k < b.len() ==> b[k] != c,
    ensures
        split_by(a + seq![c] + b, seq![c]) == split_by(a, seq![c]).push(b),
{
    lemma_split_single_append_from(a, c, b, 0, 0);
}


/// The characters with Unicode's White_Space property, which
/// `char::is_whitespace` tests for.
pub open spec fn is_white(c: char) -> bool {
    ||| '\u{0009}' <= c <= '\u{000D}'
    ||| c == ' '
    ||| c == '\u{0085}'
    ||| c == '\u{00A0}'
    ||| c == '\u{1680}'
    ||| '\u{2000}' <= c <= '\u{200A}'
    ||| c == '\u{2028}'
    ||| c == '\u{2029}'
    ||| c == '\u{202F}'
    ||| c == '\u{205F}'
    ||| c == '\u{3000}'
}

/// Whether `c` is white space in Unicode's sense.
pub fn is_white_char(c: char) -> (b: bool)
    ensures
        b == is_white(c),
{
    ('\u{0009}' <= c && c <= '\u{000D}') || c == ' ' || c == '\u{0085}' || c == '\u{00A0}'
        || c == '\u{1680}' || ('\u{2000}' <= c && c <= '\u{200A}') || c == '\u{2028}' || c
        == '\u{2029}' || c == '\u{202F}' || c == '\u{205F}' || c == '\u{3000}'
}

/// The text without its leading white space.
pub open spec fn trim_start(s: Seq<char>) -> Seq<char>
    decreases s.len(),
{
    if s.len() > 0 && is_white(s[0]) {
        trim_start(s.drop_first())
    } else {
        s
    }
}

/// The text without its trailing white space.
pub open spec fn trim_end(s: Seq<char>) -> Seq<char>
    decreases s.len(),
{
    if s.len() > 0 && is_white(s.last()) {
        trim_end(s.drop_last())
    } else {
        s
    }
}

/// `str::trim`: the text without white space at either end.
pub open spec fn trim(s: Seq<char>) -> Seq<char> {
    trim_end(trim_start(s))
}

/// `str::trim`, on characters.
pub fn trim_text(s: &Vec<char>) -> (r: Vec<char>)
    ensures
        r@ == trim(s@),
{
    let mut a: usize = 0;
    assert(s@.skip(0) =~= s@);
    while a < s.len() && is_white_char(s[a])
        invariant
            a <= s.len(),
            trim_start(s@) == trim_start(s@.skip(a as int)),
        decreases s.len() - a,
    {
        assert(s@.skip(a as int).drop_first() =~= s@.skip(a + 1));
        a += 1;
    }
    let ghost t = s@.skip(a as int);
    assert(trim_start(s@) == t);
    let mut b: usize = s.len();
    while b > a && is_white_char(s[b - 1])
        invariant
            a <= b <= s.len(),
            t == s@.skip(a as int),
            trim_end(t) == trim_end(s@.subrange(a as int, b as int)),
        decreases b,
    {
        assert(s@.subrange(a as int, b as int).drop_last() =~= s@.subrange(a as int, b - 1));
        b -= 1;
    }
    assert(t =~= s@.subrange(a as int, s.len() as int));
    slice_of(s, a, b)
}


/// Whether two texts are equal.
pub fn same_text(a: &Vec<char>, b: &Vec<char>) -> (r: bool)
    ensures
        r == (a@ == b@),
{
    if a.len() != b.len() {
        return false;
    }
    let mut k: usize = 0;
    while k < a.len()
        invariant
            a.len() == b.len(),
            k <= a.len(),
            forall|j: int| 0 <= j < k ==> a@[j] == b@[j],
        decreases a.len() - k,
    {
        if a[k] != b[k] {
            return false;
        }
        k += 1;
    }
    assert(a@ =~= b@);
    true
}


/// `s.repeat(n)`.
pub open spec fn repeat_text(s: Seq<char>, n: nat) -> Seq<char>
    decreases n,
{
    if n == 0 {
        seq![]
    } else {
        repeat_text(s, (n - 1) as nat) + s
    }
}

/// `n` spaces.
pub open spec fn spaces(n: nat) -> Seq<char> {
    repeat_text(seq![' '], n)
}

/// Appends `s` to `out`, `n` times.
pub fn push_repeated(out: &mut String, s: &str, n: usize)
    ensures
        final(out)@ == old(out)@ + repeat_text(s@, n as nat),
{
    let ghost start = out@;
    let mut k: usize = 0;
    while k < n
        invariant
            k <= n,
            out@ == start + repeat_text(s@, k as nat),
        decreases n - k,
    {
        out.append(s);
        proof {
            assert(repeat_text(s@, (k + 1) as nat) == repeat_text(s@, k as nat) + s@);
            assert(start + repeat_text(s@, k as nat) + s@ =~= start + repeat_text(s@, (k + 1) as nat));
        }
        k += 1;
    }
}

/// The texts of a list of strings.
pub open spec fn strings(v: Seq<String>) -> Seq<Seq<char>> {
    v.map_values(|x: String| x@)
}


/// The number of bytes of a character's UTF-8 encoding.
pub open spec fn char_width(c: char) -> int {
    encode_scalar(c as u32).len() as int
}

/// The index of the character that begins at byte `b` of the text's
/// encoding (the character count for `b` at the end); none where `b` is not
/// a character boundary, where slicing a `str` at `b` panics.
pub open spec fn char_at_byte(s: Seq<char>, b: int) -> Option<int>
    decreases s.len(),
{
    if b == 0 {
        Some(0)
    } else if b < 0 || s.len() == 0 || b < char_width(s[0]) {
        None
    } else {
        match char_at_byte(s.drop_first(), b - char_width(s[0])) {
            Some(j) => Some(j + 1),
            None => None,
        }
    }
}

/// The width of a character's UTF-8 encoding.
pub fn width_of(c: char) -> (w: usize)
    ensures
        w == char_width(c),
        1 <= w <= 4,
{
    proof {
        char_is_scalar(c);
    }
    let u = c as u32;
    if u <= 0x7F {
        1
    } else if u <= 0x7FF {
        2
    } else if u <= 0xFFFF {
        3
    } else {
        4
    }
}

/// The index of the character at byte `b` of the text, or none where `b`
/// is not a character boundary.
pub fn char_index_at_byte(s: &Vec<char>, b: usize) -> (r: Option<usize>)
    ensures
        match r {
            Some(j) => char_at_byte(s@, b as int) == Some(j as int) && j <= s.len(),
            None => char_at_byte(s@, b as int) is None,
        },
{
    let mut i: usize = 0;
    let mut rest: usize = b;
    assert(s@.skip(0) =~= s@);
    while rest > 0
        invariant
            i <= s.len(),
            char_at_byte(s@, b as int) == match char_at_byte(s@.skip(i as int), rest as int) {
                Some(j) => Some(j + i),
                None => None,
            },
        decreases rest,
    {
        if i == s.len() {
            return None;
        }
        let w = width_of(s[i]);
        assert(s@.skip(i as int)[0] == s@[i as int]);
        if rest < w {
            return None;
        }
        assert(s@.skip(i as int).drop_first() =~= s@.skip(i + 1));
        rest = rest - w;
        i = i + 1;
    }
    Some(i)
}

/// The characters in reverse order.
pub fn reversed(s: &Vec<char>) -> (r: Vec<char>)
    ensures
        r@ == s@.reverse(),
{
    let mut r: Vec<char> = Vec::new();
    let mut i: usize = s.len();
    while i > 0
        invariant
            i <= s.len(),
            r.len() == s.len() - i,
            forall|k: int| 0 <= k < r.len() ==> r@[k] == s@[s.len() - 1 - k],
        decreases i,
    {
        i = i - 1;
        r.push(s[i]);
    }
    assert(r@ =~= s@.reverse());
    r
}

/// A line without the carriage return that ends it, if one does.
pub open spec fn strip_cr(x: Seq<char>) -> Seq<char> {
    if x.len() > 0 && x.last() == '\r' {
        x.drop_last()
    } else {
        x
    }
}

/// `str::lines`: the pieces between line breaks, without an empty last
/// piece, each piece that a line break follows without its closing `'\r'`.
pub open spec fn lines_of(s: Seq<char>) -> Seq<Seq<char>> {
    let parts = split_by(s, seq!['\n']);
    let kept = if parts.last().len() == 0 {
        parts.drop_last()
    } else {
        parts
    };
    Seq::new(
        kept.len(),
        |i: int|
            if i < parts.len() - 1 {
                strip_cr(kept[i])
            } else {
                kept[i]
            },
    )
}

/// `str::lines`, on characters.
pub fn text_lines(s: &Vec<char>) -> (lines: Vec<Vec<char>>)
    ensures
        texts(lines@) == lines_of(s@),
{
    let nl: Vec<char> = vec!['\n'];
    let parts = split_text(s, &nl);
    proof {
        lemma_split_from_nonempty(s@, seq!['\n'], 0, 0);
    }
    assert(nl@ =~= seq!['\n']);
    let ghost pv = texts(parts@);
    let kept: usize = if parts[parts.len() - 1].len() == 0 {
        parts.len() - 1
    } else {
        parts.len()
    };
    assert(pv.last() == parts@[parts.len() - 1]@);
    let ghost kv = if pv.last().len() == 0 { pv.drop_last() } else { pv };
    let mut lines: Vec<Vec<char>> = Vec::new();
    let mut i: usize = 0;
    while i < kept
        invariant
            i <= kept,
            kept <= parts.len(),
            kv.len() == kept,
            pv == texts(parts@),
            forall|k: int| 0 <= k < kept ==> kv[k] == pv[k],
            lines.len() == i,
            forall|k: int|
                0 <= k < i ==> (#[trigger] lines@[k])@ == (if k < pv.len() - 1 {
                    strip_cr(kv[k])
                } else {
                    kv[k]
                }),
        decreases kept - i,
    {
        let p = &parts[i];
        assert(pv[i as int] == p@);
        if i + 1 < parts.len() && p.len() > 0 && p[p.len() - 1] == '\r' {
            lines.push(slice_of(p, 0, p.len() - 1));
            assert(p@.subrange(0, p.len() - 1) =~= p@.drop_last());
        } else {
            lines.push(slice_of(p, 0, p.len()));
            assert(p@.subrange(0, p.len() as int) =~= p@);
        }
        i += 1;
    }
    assert(texts(lines@) =~= lines_of(s@));
    lines
}


/// Joining two non-empty lists of pieces is joining each and putting the
/// separator between.
pub proof fn lemma_join_concat(a: Seq<Seq<char>>, b: Seq<Seq<char>>, d: Seq<char>)
    requires
        a.len() >= 1,
        b.len() >= 1,
    ensures
        join_by(a + b, d) == join_by(a, d) + d + join_by(b, d),
    decreases b.len(),
{
    if b.len() == 1 {
        assert(a + b =~= a.push(b[0]));
        lemma_join_push(a, d, b[0]);
        assert(join_by(b, d) == b[0]);
    } else {
        let b0 = b.drop_last();
        let x = b.last();
        assert(a + b =~= (a + b0).push(x));
        assert(b =~= b0.push(x));
        lemma_join_push(a + b0, d, x);
        lemma_join_push(b0, d, x);
        lemma_join_concat(a, b0, d);
    }
}

/// Splitting at a one-character separator undoes joining with it, when no
/// piece holds that character.
pub proof fn lemma_split_join_single(parts: Seq<Seq<char>>, c: char)
    requires
        parts.len() >= 1,
        forall|i: int, k: int| 0 <= i < parts.len() && 0 <= k < parts[i].len() ==> parts[i][k] != c,
    ensures
        split_by(join_by(parts, seq![c]), seq![c]) == parts,
    decreases parts.len(),
{
    if parts.len() == 1 {
        let x = parts[0];
        assert forall|k: int| 0 <= k implies !occurs_at(x, seq![c], k) by {
            if occurs_at(x, seq![c], k) {
                assert(x.subrange(k, k + 1)[0] == x[k]);
            }
        }
        lemma_split_no_more(x, seq![c], 0, 0);
        assert(x.subrange(0, x.len() as int) =~= x);
        assert(seq![x] =~= parts);
    } else {
        let p0 = parts.drop_last();
        let x = parts.last();
        assert(parts =~= p0.push(x));
        lemma_join_push(p0, seq![c], x);
        assert(forall|k: int| 0 <= k < x.len() ==> x[k] != c) by {
            assert(forall|k: int| 0 <= k < x.len() ==> x[k] == parts[parts.len() - 1][k]);
        }
        lemma_split_single_append(join_by(p0, seq![c]), c, x);
        lemma_split_join_single(p0, c);
    }
}

} // verus!

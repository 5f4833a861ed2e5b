//! Characters, slices of characters and the few string operations that the
//! rule language is made of.
//!
//! Text is modelled as `Seq<char>`. The scanning functions work on slices of
//! characters, so that every position is a character position.

use vstd::prelude::*;
use vstd::slice::slice_subrange;
use vstd::string::{StrSliceExecFns, StringExecFns};

verus! {

// ---------------------------------------------------------------------
// Characters
// ---------------------------------------------------------------------

/// The characters with the Unicode property `White_Space`.
pub open spec fn white(c: char) -> bool {
    let n = c as u32;
    ||| 0x9 <= n <= 0xd
    ||| n == 0x20
    ||| n == 0x85
    ||| n == 0xa0
    ||| n == 0x1680
    ||| 0x2000 <= n <= 0x200a
    ||| n == 0x2028
    ||| n == 0x2029
    ||| n == 0x202f
    ||| n == 0x205f
    ||| n == 0x3000
}

/// `0` to `9`.
pub open spec fn digit(c: char) -> bool {
    '0' <= c && c <= '9'
}

/// `a` to `z` and `A` to `Z`.
pub open spec fn letter(c: char) -> bool {
    ('a' <= c && c <= 'z') || ('A' <= c && c <= 'Z')
}

/// A character of an identifier: an ASCII letter, a digit or `_`.
pub open spec fn ident_char(c: char) -> bool {
    letter(c) || digit(c) || c == '_'
}

/// The ASCII lower-case form of a character.
pub open spec fn lower(c: char) -> char {
    if 'A' <= c && c <= 'Z' {
        (c as u32 + 32) as char
    } else {
        c
    }
}

pub fn is_white(c: char) -> (r: bool)
    ensures
        r == white(c),
{
    let n: u32 = c as u32;
    (0x9 <= n && n <= 0xd) || n == 0x20 || n == 0x85 || n == 0xa0 || n == 0x1680 || (0x2000 <= n
        && n <= 0x200a) || n == 0x2028 || n == 0x2029 || n == 0x202f || n == 0x205f || n == 0x3000
}

pub fn is_digit(c: char) -> (r: bool)
    ensures
        r == digit(c),
{
    '0' <= c && c <= '9'
}

pub fn is_letter(c: char) -> (r: bool)
    ensures
        r == letter(c),
{
    ('a' <= c && c <= 'z') || ('A' <= c && c <= 'Z')
}

pub fn is_ident_char(c: char) -> (r: bool)
    ensures
        r == ident_char(c),
{
    is_letter(c) || is_digit(c) || c == '_'
}

fn to_lower(c: char) -> (r: char)
    ensures
        r == lower(c),
{
    if 'A' <= c && c <= 'Z' {
        ((c as u8) + 32) as char
    } else {
        c
    }
}

// ---------------------------------------------------------------------
// Strings and slices of characters
// ---------------------------------------------------------------------

/// `String::push`: appends one character at the end of the string.
pub assume_specification[ std::string::String::push ](s: &mut std::string::String, c: char)
    ensures
        final(s)@ == old(s)@.push(c),
;

/// The characters of a string, in order.
pub fn to_chars(s: &str) -> (v: Vec<char>)
    ensures
        v@ == s@,
{
    let mut v: Vec<char> = Vec::new();
    for c in it: s.chars()
        invariant
            v@ == it.seq().take(it.index()),
            it.seq() == s@,
    {
        proof {
            assert(it.seq().take(it.index() + 1) =~= it.seq().take(it.index()).push(c));
        }
        v.push(c);
    }
    assert(s@.take(s@.len() as int) =~= s@);
    v
}

/// The string made of the given characters.
pub fn from_chars(s: &[char]) -> (r: String)
    ensures
        r@ == s@,
{
    let mut r = String::new();
    let mut i: usize = 0;
    while i < s.len()
        invariant
            i <= s@.len(),
            r@ == s@.take(i as int),
        decreases s@.len() - i,
    {
        r.push(s[i]);
        i += 1;
        assert(s@.take(i as int) =~= s@.take(i - 1).push(s@[i - 1]));
    }
    assert(s@.take(s@.len() as int) =~= s@);
    r
}

/// Three strings, one after the other.
pub fn join(a: &str, b: &str, c: &str) -> (r: String)
    ensures
        r@ == a@ + b@ + c@,
{
    let mut r = String::new();
    r.append(a);
    r.append(b);
    r.append(c);
    assert(r@ =~= a@ + b@ + c@);
    r
}

/// Whether two strings hold the same characters.
pub fn str_eq(a: &str, b: &str) -> (r: bool)
    ensures
        r == (a@ == b@),
{
    let mut x = a.chars();
    let mut y = b.chars();
    let ghost mut k: int = 0;
    loop
        invariant
            0 <= k <= a@.len(),
            k <= b@.len(),
            a@.take(k) == b@.take(k),
            vstd::std_specs::iter::IteratorSpec::remaining(&x) == a@.skip(k),
            vstd::std_specs::iter::IteratorSpec::remaining(&y) == b@.skip(k),
        decreases a@.len() - k,
    {
        match (x.next(), y.next()) {
            (Some(c), Some(d)) => {
                if c != d {
                    assert(a@[k] != b@[k]);
                    return false;
                }
                proof {
                    assert(a@.take(k + 1) =~= a@.take(k).push(c));
                    assert(b@.take(k + 1) =~= b@.take(k).push(c));
                    assert(a@.skip(k).drop_first() =~= a@.skip(k + 1));
                    assert(b@.skip(k).drop_first() =~= b@.skip(k + 1));
                    k = k + 1;
                }
            },
            (None, None) => {
                assert(a@.take(k) =~= a@);
                assert(b@.take(k) =~= b@);
                return true;
            },
            _ => {
                return false;
            },
        }
    }
}

/// `p` stands at the start of `s`.
pub open spec fn starts(s: Seq<char>, p: Seq<char>) -> bool {
    p.len() <= s.len() && s.take(p.len() as int) == p
}

/// `p` stands at the end of `s`.
pub open spec fn ends(s: Seq<char>, p: Seq<char>) -> bool {
    p.len() <= s.len() && s.skip(s.len() - p.len()) == p
}

/// `p` stands somewhere in `s`.
pub open spec fn occurs(s: Seq<char>, p: Seq<char>) -> bool {
    exists|i: int|
        0 <= i <= s.len() - p.len() && #[trigger] s.subrange(i, i + p.len()) == p
}

/// Whether `b` stands in `a` from position `at` on.
fn str_starts_at(a: &str, at: usize, b: &str) -> (r: bool)
    requires
        at <= a@.len(),
    ensures
        r == starts(a@.skip(at as int), b@),
{
    let ghost rest = a@.skip(at as int);
    let mut x = a.chars();
    let mut y = b.chars();
    let mut i: usize = 0;
    assert(a@.skip(0) =~= a@);
    while i < at
        invariant
            i <= at <= a@.len(),
            vstd::std_specs::iter::IteratorSpec::remaining(&x) == a@.skip(i as int),
        decreases at - i,
    {
        x.next();
        i += 1;
        assert(a@.skip(i - 1).drop_first() =~= a@.skip(i as int));
    }
    let ghost mut k: int = 0;
    assert(rest.skip(0) =~= rest);
    loop
        invariant
            0 <= k <= rest.len(),
            k <= b@.len(),
            rest == a@.skip(at as int),
            rest.take(k) == b@.take(k),
            vstd::std_specs::iter::IteratorSpec::remaining(&x) == rest.skip(k),
            vstd::std_specs::iter::IteratorSpec::remaining(&y) == b@.skip(k),
        decreases b@.len() - k,
    {
        match y.next() {
            None => {
                assert(b@.take(k) =~= b@);
                return true;
            },
            Some(d) => {
                match x.next() {
                    None => {
                        return false;
                    },
                    Some(c) => {
                        if c != d {
                            assert(rest.skip(k)[0] == rest[k]);
                            assert(b@.skip(k)[0] == b@[k]);
                            assert(k < b@.len() <= rest.len() ==> rest.take(b@.len() as int)[k]
                                == rest[k]);
                            return false;
                        }
                        proof {
                            assert(rest.take(k + 1) =~= rest.take(k).push(c));
                            assert(b@.take(k + 1) =~= b@.take(k).push(c));
                            assert(rest.skip(k).drop_first() =~= rest.skip(k + 1));
                            assert(b@.skip(k).drop_first() =~= b@.skip(k + 1));
                            k = k + 1;
                        }
                    },
                }
            },
        }
    }
}

/// Whether `b` stands at the start of `a`.
pub fn str_starts(a: &str, b: &str) -> (r: bool)
    ensures
        r == starts(a@, b@),
{
    assert(a@.skip(0) =~= a@);
    str_starts_at(a, 0, b)
}

/// Whether `b` stands somewhere in `a`. It allocates nothing: the places that do
/// not start with the first character of `b` are passed over.
pub fn str_contains(a: &str, b: &str) -> (r: bool)
    ensures
        r == occurs(a@, b@),
{
    let first = match b.chars().next() {
        None => {
            assert(a@.subrange(0, 0int + b@.len()) =~= b@);
            return true;
        },
        Some(c) => c,
    };
    let n: usize = a.unicode_len();
    let mut x = a.chars();
    let mut i: usize = 0;
    assert(a@.skip(0) =~= a@);
    while i < n
        invariant
            i <= n,
            n == a@.len(),
            b@.len() > 0,
            first == b@[0],
            vstd::std_specs::iter::IteratorSpec::remaining(&x) == a@.skip(i as int),
            forall|k: int| 0 <= k < i ==> !starts(#[trigger] a@.skip(k), b@),
        decreases n - i,
    {
        let ghost rest = a@.skip(i as int);
        if let Some(c) = x.next() {
            if c == first && str_starts_at(a, i, b) {
                assert(a@.subrange(i as int, i + b@.len()) =~= rest.take(b@.len() as int));
                return true;
            }
            assert(starts(rest, b@) ==> rest.take(b@.len() as int)[0] == rest[0]);
        }
        i += 1;
        assert(rest.drop_first() =~= a@.skip(i as int));
    }
    proof {
        if occurs(a@, b@) {
            let k = choose|k: int|
                0 <= k <= a@.len() - b@.len() && #[trigger] a@.subrange(k, k + b@.len()) == b@;
            assert(a@.skip(k).take(b@.len() as int) =~= a@.subrange(k, k + b@.len()));
            assert(!starts(a@.skip(k), b@));
        }
    }
    false
}

/// Whether the characters are those of the string.
pub fn is_text(s: &[char], t: &str) -> (r: bool)
    ensures
        r == (s@ == t@),
{
    let v = to_chars(t);
    if s.len() != v.len() {
        return false;
    }
    let mut i: usize = 0;
    while i < s.len()
        invariant
            i <= s@.len(),
            s@.len() == v@.len(),
            v@ == t@,
            forall|j: int| 0 <= j < i ==> s@[j] == v@[j],
        decreases s@.len() - i,
    {
        if s[i] != v[i] {
            return false;
        }
        i += 1;
    }
    assert(s@ =~= t@);
    true
}

/// Every character in its ASCII lower-case form.
pub open spec fn lowered(s: Seq<char>) -> Seq<char> {
    Seq::new(s.len(), |i: int| lower(s[i]))
}

/// Whether the characters, in ASCII lower case, are those of the string.
pub fn is_text_lowered(s: &[char], t: &str) -> (r: bool)
    ensures
        r == (lowered(s@) == t@),
{
    let v = to_chars(t);
    if s.len() != v.len() {
        return false;
    }
    let mut i: usize = 0;
    while i < s.len()
        invariant
            i <= s@.len(),
            s@.len() == v@.len(),
            v@ == t@,
            forall|j: int| 0 <= j < i ==> lower(s@[j]) == v@[j],
        decreases s@.len() - i,
    {
        if to_lower(s[i]) != v[i] {
            assert(lowered(s@)[i as int] != t@[i as int]);
            return false;
        }
        i += 1;
    }
    assert(lowered(s@) =~= t@);
    true
}

/// What follows the prefix `p`, where `s` starts with it.
pub fn strip_prefix<'a>(s: &'a [char], p: &str) -> (r: Option<&'a [char]>)
    ensures
        r is Some <==> starts(s@, p@),
        r matches Some(rest) ==> rest@ == s@.skip(p@.len() as int),
{
    let v = to_chars(p);
    if s.len() < v.len() {
        return None;
    }
    let head = slice_subrange(s, 0, v.len());
    assert(head@ =~= s@.take(v@.len() as int));
    if is_text(head, p) {
        let rest = slice_subrange(s, v.len(), s.len());
        assert(rest@ =~= s@.skip(p@.len() as int));
        Some(rest)
    } else {
        None
    }
}

/// What precedes the suffix `p`, where `s` ends with it.
pub fn strip_suffix<'a>(s: &'a [char], p: &str) -> (r: Option<&'a [char]>)
    ensures
        r is Some <==> ends(s@, p@),
        r matches Some(rest) ==> rest@ == s@.take(s@.len() - p@.len()),
{
    let v = to_chars(p);
    if s.len() < v.len() {
        return None;
    }
    let at: usize = s.len() - v.len();
    let tail = slice_subrange(s, at, s.len());
    assert(tail@ =~= s@.skip(s@.len() - v@.len()));
    if is_text(tail, p) {
        let rest = slice_subrange(s, 0, at);
        assert(rest@ =~= s@.take(s@.len() - p@.len()));
        Some(rest)
    } else {
        None
    }
}

// ---------------------------------------------------------------------
// Trimming
// ---------------------------------------------------------------------

/// `s` without its leading white space.
pub open spec fn trimmed_start(s: Seq<char>) -> Seq<char>
    decreases s.len(),
{
    if s.len() > 0 && white(s[0]) {
        trimmed_start(s.drop_first())
    } else {
        s
    }
}

/// `s` without its trailing white space.
pub open spec fn trimmed_end(s: Seq<char>) -> Seq<char>
    decreases s.len(),
{
    if s.len() > 0 && white(s.last()) {
        trimmed_end(s.drop_last())
    } else {
        s
    }
}

/// `s` without the white space at its two ends.
pub open spec fn trimmed(s: Seq<char>) -> Seq<char> {
    trimmed_end(trimmed_start(s))
}

/// `s` without the leading occurrences of `c`.
pub open spec fn without_leading(s: Seq<char>, c: char) -> Seq<char>
    decreases s.len(),
{
    if s.len() > 0 && s[0] == c {
        without_leading(s.drop_first(), c)
    } else {
        s
    }
}

/// `s` without the trailing occurrences of `c`.
pub open spec fn without_trailing(s: Seq<char>, c: char) -> Seq<char>
    decreases s.len(),
{
    if s.len() > 0 && s.last() == c {
        without_trailing(s.drop_last(), c)
    } else {
        s
    }
}

pub fn trim<'a>(s: &'a [char]) -> (r: &'a [char])
    ensures
        r@ == trimmed(s@),
        r@.len() <= s@.len(),
{
    let n: usize = s.len();
    let mut i: usize = 0;
    assert(s@.subrange(0, n as int) =~= s@);
    while i < n && is_white(s[i])
        invariant
            i <= n,
            n == s@.len(),
            trimmed_start(s@.subrange(i as int, n as int)) == trimmed_start(s@),
        decreases n - i,
    {
        assert(s@.subrange(i as int, n as int).drop_first() =~= s@.subrange(i + 1, n as int));
        i += 1;
    }
    let mut j: usize = n;
    while i < j && is_white(s[j - 1])
        invariant
            i <= j <= n,
            n == s@.len(),
            trimmed_end(s@.subrange(i as int, j as int)) == trimmed(s@),
        decreases j,
    {
        assert(s@.subrange(i as int, j as int).drop_last() =~= s@.subrange(i as int, j - 1));
        j -= 1;
    }
    slice_subrange(s, i, j)
}

pub fn trim_start_char<'a>(s: &'a [char], c: char) -> (r: &'a [char])
    ensures
        r@ == without_leading(s@, c),
{
    let n: usize = s.len();
    let mut i: usize = 0;
    assert(s@.subrange(0, n as int) =~= s@);
    while i < n && s[i] == c
        invariant
            i <= n,
            n == s@.len(),
            without_leading(s@.subrange(i as int, n as int), c) == without_leading(s@, c),
        decreases n - i,
    {
        assert(s@.subrange(i as int, n as int).drop_first() =~= s@.subrange(i + 1, n as int));
        i += 1;
    }
    slice_subrange(s, i, n)
}

pub fn trim_end_char<'a>(s: &'a [char], c: char) -> (r: &'a [char])
    ensures
        r@ == without_trailing(s@, c),
{
    let mut j: usize = s.len();
    assert(s@.subrange(0, j as int) =~= s@);
    while 0 < j && s[j - 1] == c
        invariant
            j <= s@.len(),
            without_trailing(s@.subrange(0, j as int), c) == without_trailing(s@, c),
        decreases j,
    {
        assert(s@.subrange(0, j as int).drop_last() =~= s@.subrange(0, j - 1));
        j -= 1;
    }
    slice_subrange(s, 0, j)
}

// ---------------------------------------------------------------------
// Searching
// ---------------------------------------------------------------------

/// The first position of `c` in `s`.
pub open spec fn first_index(s: Seq<char>, c: char) -> Option<int>
    decreases s.len(),
{
    if s.len() == 0 {
        None
    } else if s[0] == c {
        Some(0)
    } else {
        match first_index(s.drop_first(), c) {
            Some(i) => Some(i + 1),
            None => None,
        }
    }
}

/// The last position of `c` in `s`.
pub open spec fn last_index(s: Seq<char>, c: char) -> Option<int>
    decreases s.len(),
{
    if s.len() == 0 {
        None
    } else if s.last() == c {
        Some(s.len() - 1)
    } else {
        last_index(s.drop_last(), c)
    }
}

/// `first_index` finds `c` where it stands, and nothing before it.
pub proof fn first_index_finds(s: Seq<char>, c: char)
    ensures
        first_index(s, c) is None <==> !s.contains(c),
        first_index(s, c) matches Some(i) ==> 0 <= i < s.len() && s[i] == c && !s.take(i).contains(
            c,
        ),
    decreases s.len(),
{
    if s.len() > 0 {
        let rest = s.drop_first();
        first_index_finds(rest, c);
        if s[0] == c {
            assert(s.contains(c));
            assert(s.take(0).len() == 0);
        } else {
            match first_index(rest, c) {
                Some(i) => {
                    assert(s[i + 1] == c);
                    assert(!s.take(i + 1).contains(c)) by {
                        let t = s.take(i + 1);
                        if t.contains(c) {
                            let j = choose|j: int| 0 <= j < t.len() && t[j] == c;
                            assert(s[j] == c);
                            assert(rest.take(i)[j - 1] == c);
                        }
                    }
                },
                None => {
                    if s.contains(c) {
                        let j = choose|j: int| 0 <= j < s.len() && s[j] == c;
                        assert(rest[j - 1] == c);
                    }
                },
            }
        }
    }
}

/// `last_index` finds `c` where it stands, and nothing after it.
pub proof fn last_index_finds(s: Seq<char>, c: char)
    ensures
        last_index(s, c) is None <==> !s.contains(c),
        last_index(s, c) matches Some(i) ==> 0 <= i < s.len() && s[i] == c && !s.skip(
            i + 1,
        ).contains(c),
    decreases s.len(),
{
    if s.len() > 0 {
        let rest = s.drop_last();
        last_index_finds(rest, c);
        if s.last() == c {
            assert(s[s.len() - 1] == c);
            assert(s.skip(s.len() as int).len() == 0);
        } else {
            match last_index(rest, c) {
                Some(i) => {
                    assert(s[i] == c);
                    assert(!s.skip(i + 1).contains(c)) by {
                        let t = s.skip(i + 1);
                        if t.contains(c) {
                            let j = choose|j: int| 0 <= j < t.len() && t[j] == c;
                            assert(s[i + 1 + j] == c);
                            assert(rest.skip(i + 1)[j] == c);
                        }
                    }
                },
                None => {
                    if s.contains(c) {
                        let j = choose|j: int| 0 <= j < s.len() && s[j] == c;
                        assert(rest[j] == c);
                    }
                },
            }
        }
    }
}

pub fn find_char(s: &[char], c: char) -> (r: Option<usize>)
    ensures
        match r {
            Some(i) => first_index(s@, c) == Some(i as int) && i < s@.len(),
            None => first_index(s@, c) is None,
        },
{
    let n: usize = s.len();
    let mut i: usize = 0;
    assert(s@.skip(0) =~= s@);
    while i < n
        invariant
            i <= n,
            n == s@.len(),
            first_index(s@, c) == (match first_index(s@.skip(i as int), c) {
                Some(k) => Some(k + i),
                None => None,
            }),
        decreases n - i,
    {
        if s[i] == c {
            return Some(i);
        }
        assert(s@.skip(i as int).drop_first() =~= s@.skip(i + 1));
        i += 1;
    }
    None
}

pub fn rfind_char(s: &[char], c: char) -> (r: Option<usize>)
    ensures
        match r {
            Some(i) => last_index(s@, c) == Some(i as int) && i < s@.len(),
            None => last_index(s@, c) is None,
        },
{
    let mut j: usize = s.len();
    assert(s@.take(j as int) =~= s@);
    while 0 < j
        invariant
            j <= s@.len(),
            last_index(s@, c) == last_index(s@.take(j as int), c),
        decreases j,
    {
        if s[j - 1] == c {
            return Some(j - 1);
        }
        assert(s@.take(j as int).drop_last() =~= s@.take(j - 1));
        j -= 1;
    }
    None
}

// ---------------------------------------------------------------------
// Lines
// ---------------------------------------------------------------------

/// A line without the carriage return that stood before its newline.
pub open spec fn without_return(s: Seq<char>) -> Seq<char> {
    if s.len() > 0 && s.last() == '\r' {
        s.drop_last()
    } else {
        s
    }
}

/// The lines of a text. A newline, alone or after a carriage return, ends a
/// line; the last line needs none.
pub open spec fn lines(s: Seq<char>) -> Seq<Seq<char>>
    decreases s.len(),
{
    if s.len() == 0 {
        Seq::empty()
    } else {
        match first_index(s, '\n') {
            None => seq![s],
            Some(i) => if 0 <= i < s.len() {
                seq![without_return(s.take(i))] + lines(s.skip(i + 1))
            } else {
                seq![s]
            },
        }
    }
}

pub fn split_lines<'a>(s: &'a [char]) -> (r: Vec<&'a [char]>)
    ensures
        r@.len() == lines(s@).len(),
        forall|i: int| 0 <= i < r@.len() ==> (#[trigger] r@[i])@ == lines(s@)[i],
{
    let mut out: Vec<&'a [char]> = Vec::new();
    let mut rest: &'a [char] = s;
    while rest.len() > 0
        invariant
            out@.len() + lines(rest@).len() == lines(s@).len(),
            forall|i: int| 0 <= i < out@.len() ==> (#[trigger] out@[i])@ == lines(s@)[i],
            forall|i: int|
                0 <= i < lines(rest@).len() ==> #[trigger] lines(rest@)[i] == lines(s@)[out@.len()
                    + i],
        decreases rest@.len(),
    {
        let ghost before = rest@;
        let ghost n = out@.len();
        match find_char(rest, '\n') {
            None => {
                assert(lines(before) =~= seq![before]);
                assert(lines(before)[0] == lines(s@)[n as int]);
                out.push(rest);
                rest = slice_subrange(rest, rest.len(), rest.len());
            },
            Some(i) => {
                let end: usize = if i > 0 && rest[i - 1] == '\r' {
                    i - 1
                } else {
                    i
                };
                let line = slice_subrange(rest, 0, end);
                assert(line@ =~= without_return(before.take(i as int)));
                rest = slice_subrange(rest, i + 1, rest.len());
                proof {
                    assert(rest@ =~= before.skip(i + 1));
                    assert(lines(before) == seq![line@] + lines(rest@));
                    assert(lines(before)[0] == lines(s@)[n as int]);
                    assert forall|k: int|
                        0 <= k < lines(rest@).len() implies #[trigger] lines(rest@)[k] == lines(
                        s@,
                    )[n + 1 + k] by {
                        assert(lines(before)[k + 1] == lines(s@)[n + (k + 1)]);
                    }
                }
                out.push(line);
            },
        }
    }
    out
}

// ---------------------------------------------------------------------
// Numbers
// ---------------------------------------------------------------------

pub open spec fn all_digits(s: Seq<char>) -> bool {
    forall|i: int| 0 <= i < s.len() ==> digit(#[trigger] s[i])
}

/// The number written by decimal digits.
pub open spec fn number(s: Seq<char>) -> nat
    decreases s.len(),
{
    if s.len() == 0 {
        0
    } else {
        (number(s.drop_last()) * 10 + (s.last() as int - '0' as int)) as nat
    }
}

/// The value of one or more decimal digits, where it is at most `max`.
pub open spec fn digits_value(s: Seq<char>, max: nat) -> Option<nat> {
    if s.len() > 0 && all_digits(s) && number(s) <= max {
        Some(number(s))
    } else {
        None
    }
}

/// An unsigned decimal number of at most `max`, with an optional `+`.
pub open spec fn unsigned_value(s: Seq<char>, max: nat) -> Option<nat> {
    if s.len() > 0 && s[0] == '+' {
        digits_value(s.drop_first(), max)
    } else {
        digits_value(s, max)
    }
}

/// A decimal number in the range of `i64`, with an optional sign.
pub open spec fn signed_value(s: Seq<char>) -> Option<int> {
    if s.len() > 0 && s[0] == '-' {
        match digits_value(s.drop_first(), 0x8000_0000_0000_0000) {
            Some(n) => Some(-(n as int)),
            None => None,
        }
    } else {
        match unsigned_value(s, 0x7fff_ffff_ffff_ffff) {
            Some(n) => Some(n as int),
            None => None,
        }
    }
}

/// A longer run of digits writes no smaller number.
proof fn number_grows(s: Seq<char>, i: int)
    requires
        0 <= i <= s.len(),
        all_digits(s),
    ensures
        number(s.take(i)) <= number(s),
    decreases s.len(),
{
    if i == s.len() {
        assert(s.take(i) =~= s);
    } else {
        let t = s.drop_last();
        assert(all_digits(t)) by {
            assert forall|k: int| 0 <= k < t.len() implies digit(#[trigger] t[k]) by {
                assert(digit(s[k]));
            }
        }
        number_grows(t, i);
        assert(t.take(i) =~= s.take(i));
        assert(digit(s[s.len() - 1]));
    }
}

fn parse_digits(s: &[char], max: u64) -> (r: Option<u64>)
    ensures
        match r {
            Some(n) => digits_value(s@, max as nat) == Some(n as nat),
            None => digits_value(s@, max as nat) is None,
        },
{
    if s.len() == 0 {
        return None;
    }
    let mut acc: u64 = 0;
    let mut i: usize = 0;
    assert(s@.take(0).len() == 0);
    while i < s.len()
        invariant
            i <= s@.len(),
            s@.len() > 0,
            acc <= max,
            acc == number(s@.take(i as int)),
            forall|k: int| 0 <= k < i ==> digit(#[trigger] s@[k]),
        decreases s@.len() - i,
    {
        let c = s[i];
        if !is_digit(c) {
            assert(!digit(s@[i as int]));
            return None;
        }
        let d: u64 = (c as u32 - '0' as u32) as u64;
        assert(s@.take(i + 1).drop_last() =~= s@.take(i as int));
        assert(number(s@.take(i + 1)) == acc * 10 + d);
        if d > max || acc > max / 10 || acc * 10 > max - d {
            proof {
                if all_digits(s@) {
                    number_grows(s@, i + 1);
                }
                assert(acc * 10 + d > max);
            }
            return None;
        }
        acc = acc * 10 + d;
        i += 1;
    }
    assert(s@.take(s@.len() as int) =~= s@);
    Some(acc)
}

/// Reads an unsigned decimal number, with an optional `+`.
pub fn parse_u64(s: &[char]) -> (r: Option<u64>)
    ensures
        match r {
            Some(n) => unsigned_value(s@, u64::MAX as nat) == Some(n as nat),
            None => unsigned_value(s@, u64::MAX as nat) is None,
        },
{
    if s.len() > 0 && s[0] == '+' {
        let rest = slice_subrange(s, 1, s.len());
        assert(rest@ =~= s@.drop_first());
        parse_digits(rest, u64::MAX)
    } else {
        parse_digits(s, u64::MAX)
    }
}

/// Reads an unsigned decimal number, with an optional `+`.
pub fn parse_u32(s: &[char]) -> (r: Option<u32>)
    ensures
        match r {
            Some(n) => unsigned_value(s@, u32::MAX as nat) == Some(n as nat),
            None => unsigned_value(s@, u32::MAX as nat) is None,
        },
{
    match parse_u64(s) {
        Some(n) => if n <= u32::MAX as u64 {
            Some(n as u32)
        } else {
            None
        },
        None => None,
    }
}

/// Reads a decimal number, with an optional sign.
pub fn parse_i64(s: &[char]) -> (r: Option<i64>)
    ensures
        match r {
            Some(n) => signed_value(s@) == Some(n as int),
            None => signed_value(s@) is None,
        },
{
    if s.len() > 0 && s[0] == '-' {
        let rest = slice_subrange(s, 1, s.len());
        assert(rest@ =~= s@.drop_first());
        match parse_digits(rest, 0x8000_0000_0000_0000) {
            Some(n) => if n == 0x8000_0000_0000_0000 {
                Some(i64::MIN)
            } else {
                Some(-(n as i64))
            },
            None => None,
        }
    } else if s.len() > 0 && s[0] == '+' {
        let rest = slice_subrange(s, 1, s.len());
        assert(rest@ =~= s@.drop_first());
        match parse_digits(rest, 0x7fff_ffff_ffff_ffff) {
            Some(n) => Some(n as i64),
            None => None,
        }
    } else {
        match parse_digits(s, 0x7fff_ffff_ffff_ffff) {
            Some(n) => Some(n as i64),
            None => None,
        }
    }
}

/// The character of a decimal digit.
pub open spec fn digit_char(d: nat) -> char {
    ('0' as u32 + d) as char
}

/// The decimal digits of a number, without leading zeros.
pub open spec fn decimal(n: nat) -> Seq<char>
    decreases n,
{
    if n < 10 {
        seq![digit_char(n)]
    } else {
        decimal(n / 10).push(digit_char(n % 10))
    }
}

/// The decimal digits of a number write that number.
pub proof fn decimal_is_read_back(n: nat)
    ensures
        decimal(n).len() > 0,
        all_digits(decimal(n)),
        number(decimal(n)) == n,
    decreases n,
{
    let d = digit_char(n % 10);
    assert(digit(d) && d as int - '0' as int == n % 10);
    if n < 10 {
        assert(decimal(n).drop_last() =~= Seq::empty());
        assert(number(Seq::empty()) == 0);
    } else {
        decimal_is_read_back(n / 10);
        assert(decimal(n).drop_last() =~= decimal(n / 10));
        assert forall|i: int| 0 <= i < decimal(n).len() implies digit(
            #[trigger] decimal(n)[i],
        ) by {
            if i < decimal(n / 10).len() {
                assert(digit(decimal(n / 10)[i]));
            }
        }
    }
}

/// The decimal form of an integer.
pub open spec fn decimal_int(n: int) -> Seq<char> {
    if n < 0 {
        seq!['-'] + decimal((-n) as nat)
    } else {
        decimal(n as nat)
    }
}

/// The decimal form of a 64-bit integer reads as that integer.
pub proof fn decimal_int_is_read_back(n: i64)
    ensures
        signed_value(decimal_int(n as int)) == Some(n as int),
{
    let s = decimal_int(n as int);
    if n < 0 {
        decimal_is_read_back((-n) as nat);
        assert(s.drop_first() =~= decimal((-n) as nat));
    } else {
        decimal_is_read_back(n as nat);
        assert(digit(s[0]));
    }
}

/// Appends the decimal digits of `n`.
pub fn push_decimal(out: &mut String, n: u64)
    ensures
        final(out)@ == old(out)@ + decimal(n as nat),
    decreases n,
{
    if n >= 10 {
        push_decimal(out, n / 10);
    }
    let d: u8 = (n % 10) as u8;
    out.push((48u8 + d) as char);
    assert(out@ =~= old(out)@ + decimal(n as nat));
}

/// Appends the decimal form of `n`.
pub fn push_decimal_int(out: &mut String, n: i64)
    ensures
        final(out)@ == old(out)@ + decimal_int(n as int),
{
    if n < 0 {
        out.push('-');
        let m: u64 = if n == i64::MIN {
            0x8000_0000_0000_0000
        } else {
            (-n) as u64
        };
        push_decimal(out, m);
        assert(out@ =~= old(out)@ + decimal_int(n as int));
    } else {
        push_decimal(out, n as u64);
    }
}

} // verus!

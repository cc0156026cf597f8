//! Metadata chunks: INI-like text that names the install root of an archive.
//!
//! The text is read line by line. A line that ends in `[name]` opens the
//! section `name`. Inside the `header` section, a line `key = value` gives a
//! key and its value (everything after `=`, trimmed). The first
//! `entry_point` there supplies the install root, with a leading alias token
//! `$word$\` taken off.
use crate::codecs::{alphanumeric, decode_text, decoded_text, is_alphanumeric, is_whitespace, whitespace};
use vstd::prelude::*;
use vstd::slice::slice_to_vec;
use vstd::std_specs::iter::IteratorSpec;

verus! {

/// A character of a name: `_`, an ASCII letter or digit, or a non-ASCII
/// alphanumeric character.
pub open spec fn is_word_char(c: char) -> bool {
    if c as u32 > 0x7f {
        alphanumeric(c)
    } else {
        c == '_' || (0x30 <= c as u32 && c as u32 <= 0x39) || (0x41 <= c as u32 && c as u32 <= 0x5a)
            || (0x61 <= c as u32 && c as u32 <= 0x7a)
    }
}

/// A white-space character: space, tab to carriage return, or a non-ASCII
/// white-space character.
pub open spec fn is_space_char(c: char) -> bool {
    if c as u32 > 0x7f {
        whitespace(c)
    } else {
        c == ' ' || (0x09 <= c as u32 && c as u32 <= 0x0d)
    }
}

pub open spec fn all_word(s: Seq<char>) -> bool {
    forall|i: int| 0 <= i < s.len() ==> is_word_char(#[trigger] s[i])
}

/// The first index from `i` on whose character is not white space.
pub open spec fn skip_space(l: Seq<char>, i: int) -> int
    decreases l.len() - i,
{
    if 0 <= i < l.len() && is_space_char(l[i]) {
        skip_space(l, i + 1)
    } else {
        i
    }
}

/// The first index from `i` on whose character is not a name character.
pub open spec fn skip_word(l: Seq<char>, i: int) -> int
    decreases l.len() - i,
{
    if 0 <= i < l.len() && is_word_char(l[i]) {
        skip_word(l, i + 1)
    } else {
        i
    }
}

/// The end of `l[lo..hi]` once trailing white space is dropped.
pub open spec fn trim_end(l: Seq<char>, lo: int, hi: int) -> int
    decreases hi - lo,
{
    if lo < hi && is_space_char(l[hi - 1]) {
        trim_end(l, lo, hi - 1)
    } else {
        hi
    }
}

pub open spec fn header_word() -> Seq<char> {
    seq!['h', 'e', 'a', 'd', 'e', 'r']
}

pub open spec fn entry_point_word() -> Seq<char> {
    seq!['e', 'n', 't', 'r', 'y', '_', 'p', 'o', 'i', 'n', 't']
}

/// Whether a `[` at `p` opens a name that runs to the `]` that ends `l`.
pub open spec fn opens_section(l: Seq<char>, p: int) -> bool {
    0 <= p < l.len() - 1 && l[p] == '[' && all_word(l.subrange(p + 1, l.len() - 1))
}

/// The section a line opens, if it ends in `[name]`.
pub open spec fn section_of(l: Seq<char>) -> Option<Seq<char>> {
    if l.len() >= 2 && l[l.len() - 1] == ']' && exists|p: int| opens_section(l, p) {
        let p = choose|p: int| opens_section(l, p);
        Some(l.subrange(p + 1, l.len() - 1))
    } else {
        None
    }
}

/// The key and the trimmed value of a line `key = value`.
pub open spec fn key_value(l: Seq<char>) -> Option<(Seq<char>, Seq<char>)> {
    let a = skip_space(l, 0);
    let b = skip_word(l, a);
    let c = skip_space(l, b);
    if a < b && c < l.len() && l[c] == '=' {
        let d = skip_space(l, c + 1);
        let f = trim_end(l, d, l.len() as int);
        if d < f {
            Some((l.subrange(a, b), l.subrange(d, f)))
        } else {
            None
        }
    } else {
        None
    }
}

/// `v` with a leading alias token `$word$\` taken off, if it has one.
pub open spec fn strip_alias(v: Seq<char>) -> Seq<char> {
    let k = skip_word(v, 1);
    if v.len() > 0 && v[0] == '$' && k >= 2 && k + 1 < v.len() && v[k] == '$' && v[k + 1] == '\\' {
        v.subrange(k + 2, v.len() as int)
    } else {
        v
    }
}

pub open spec fn is_line_break(t: Seq<char>, i: int, k: int) -> bool {
    i <= k < t.len() && t[k] == '\n' && forall|j: int| i <= j < k ==> t[j] != '\n'
}

/// Where the line that starts at `i` ends: at its line feed, or at the end of `t`.
pub open spec fn line_end(t: Seq<char>, i: int) -> int {
    if exists|k: int| is_line_break(t, i, k) {
        choose|k: int| is_line_break(t, i, k)
    } else {
        t.len() as int
    }
}

pub proof fn lemma_line_end_bounds(t: Seq<char>, i: int)
    requires
        0 <= i <= t.len(),
    ensures
        i <= line_end(t, i) <= t.len(),
{
    if exists|k: int| is_line_break(t, i, k) {
        let k = choose|k: int| is_line_break(t, i, k);
        assert(is_line_break(t, i, k));
    }
}

/// The line that starts at `i`, without its line ending (`\n` or `\r\n`).
pub open spec fn line_at(t: Seq<char>, i: int) -> Seq<char> {
    let e = line_end(t, i);
    if i < e < t.len() && t[e - 1] == '\r' {
        t.subrange(i, e - 1)
    } else {
        t.subrange(i, e)
    }
}

/// The install root named by the lines of `t` from `i` on, while `section`
/// is the section last opened.
pub open spec fn root_scan(t: Seq<char>, i: int, section: Seq<char>) -> Option<Seq<char>>
    decreases t.len() + 1 - i,
{
    if i < 0 || i >= t.len() {
        None
    } else {
        proof {
            lemma_line_end_bounds(t, i);
        }
        let l = line_at(t, i);
        let next = line_end(t, i) + 1;
        match section_of(l) {
            Some(s) => root_scan(t, next, s),
            None => {
                let found = match key_value(l) {
                    Some((k, v)) => if section == header_word() && k == entry_point_word() {
                        Some(strip_alias(v))
                    } else {
                        None
                    },
                    None => None,
                };
                if found is Some {
                    found
                } else {
                    root_scan(t, next, section)
                }
            },
        }
    }
}

/// The install root that metadata text names, if it names one.
pub open spec fn root_path_of(t: Seq<char>) -> Option<Seq<char>> {
    root_scan(t, 0, Seq::empty())
}

/// Why a metadata payload was refused.
#[derive(Debug, Clone, Copy, PartialEq, Eq, Structural)]
pub enum MetadataError {
    /// The payload does not decode under the configured text encoding.
    BadText,
    /// The payload is too large to be decoded in memory.
    TooLarge,
}

/// The largest metadata payload that is decoded, in bytes.
pub const MAX_METADATA_LEN: usize = usize::MAX / 4;

fn word_char(c: char) -> (r: bool)
    ensures
        r == is_word_char(c),
{
    let v = c as u32;
    if v > 0x7f {
        is_alphanumeric(c)
    } else {
        c == '_' || (0x30 <= v && v <= 0x39) || (0x41 <= v && v <= 0x5a) || (0x61 <= v && v <= 0x7a)
    }
}

fn space_char(c: char) -> (r: bool)
    ensures
        r == is_space_char(c),
{
    let v = c as u32;
    if v > 0x7f {
        is_whitespace(c)
    } else {
        c == ' ' || (0x09 <= v && v <= 0x0d)
    }
}

fn skip_spaces(l: &[char], i: usize) -> (r: usize)
    requires
        i <= l@.len(),
    ensures
        r == skip_space(l@, i as int),
        i <= r <= l@.len(),
{
    let mut j = i;
    while j < l.len() && space_char(l[j])
        invariant
            i <= j <= l@.len(),
            skip_space(l@, i as int) == skip_space(l@, j as int),
        decreases l@.len() - j,
    {
        j = j + 1;
    }
    j
}

fn skip_words(l: &[char], i: usize) -> (r: usize)
    requires
        i <= l@.len(),
    ensures
        r == skip_word(l@, i as int),
        i <= r <= l@.len(),
        forall|q: int| i <= q < r ==> is_word_char(#[trigger] l@[q]),
{
    let mut j = i;
    while j < l.len() && word_char(l[j])
        invariant
            i <= j <= l@.len(),
            skip_word(l@, i as int) == skip_word(l@, j as int),
            forall|q: int| i <= q < j ==> is_word_char(#[trigger] l@[q]),
        decreases l@.len() - j,
    {
        j = j + 1;
    }
    j
}

fn trim_end_at(l: &[char], lo: usize, hi: usize) -> (r: usize)
    requires
        lo <= hi <= l@.len(),
    ensures
        r == trim_end(l@, lo as int, hi as int),
        lo <= r <= hi,
{
    let mut j = hi;
    while j > lo && space_char(l[j - 1])
        invariant
            lo <= j <= hi,
            hi <= l@.len(),
            trim_end(l@, lo as int, hi as int) == trim_end(l@, lo as int, j as int),
        decreases j,
    {
        j = j - 1;
    }
    j
}

fn same_chars(l: &[char], a: usize, b: usize, w: &[char]) -> (r: bool)
    requires
        a <= b <= l@.len(),
    ensures
        r == (l@.subrange(a as int, b as int) == w@),
{
    if b - a != w.len() {
        return false;
    }
    let mut k: usize = 0;
    while k < w.len()
        invariant
            b - a == w@.len(),
            a <= b <= l@.len(),
            k <= w@.len(),
            forall|q: int| 0 <= q < k ==> l@[a + q] == w@[q],
        decreases w@.len() - k,
    {
        if l[a + k] != w[k] {
            assert(l@.subrange(a as int, b as int)[k as int] != w@[k as int]);
            return false;
        }
        k = k + 1;
    }
    assert(l@.subrange(a as int, b as int) =~= w@);
    true
}

/// The characters of `s`, in order.
pub(crate) fn chars_of(s: &str) -> (r: Vec<char>)
    ensures
        r@ == s@,
{
    broadcast use vstd::string::group_string_axioms;
    let mut it = s.chars();
    let mut out: Vec<char> = Vec::new();
    loop
        invariant
            out@ + it.remaining() == s@,
            it.decrease() is Some,
        ensures
            out@ == s@,
        decreases it.decrease()->0,
    {
        match it.next() {
            Some(c) => {
                out.push(c);
            },
            None => {
                assert(it.remaining().len() == 0);
                assert(out@ =~= out@ + it.remaining());
                break;
            },
        }
    }
    out
}

/// Where the line that starts at `i` ends.
fn find_line_end(t: &[char], i: usize) -> (r: usize)
    requires
        i <= t@.len(),
    ensures
        r as int == line_end(t@, i as int),
        i <= r <= t@.len(),
{
    let mut k = i;
    while k < t.len() && t[k] != '\n'
        invariant
            i <= k <= t@.len(),
            forall|j: int| i <= j < k ==> t@[j] != '\n',
        decreases t@.len() - k,
    {
        k = k + 1;
    }
    proof {
        if k < t@.len() {
            assert(is_line_break(t@, i as int, k as int));
            let k2 = choose|k2: int| is_line_break(t@, i as int, k2);
            if k2 < k {
                assert(t@[k2] != '\n');
            }
            if k < k2 {
                assert(t@[k as int] != '\n');
            }
        } else {
            assert forall|k2: int| !is_line_break(t@, i as int, k2) by {
                if i <= k2 < t@.len() {
                    assert(t@[k2] != '\n');
                }
            }
        }
    }
    k
}

/// Where the `[` of the section a line opens stands, if it opens one.
fn find_section(l: &[char]) -> (r: Option<usize>)
    ensures
        match section_of(l@) {
            Some(s) => r is Some && r->0 + 1 <= l@.len() - 1 && l@.subrange(r->0 + 1, l@.len() - 1)
                == s,
            None => r is None,
        },
{
    let n = l.len();
    if n < 2 || l[n - 1] != ']' {
        return None;
    }
    let mut j = n - 1;
    while j > 0 && word_char(l[j - 1])
        invariant
            0 <= j <= n - 1,
            n == l@.len(),
            forall|q: int| j <= q < n - 1 ==> is_word_char(#[trigger] l@[q]),
        decreases j,
    {
        j = j - 1;
    }
    assert(!is_word_char('['));
    if j > 0 && l[j - 1] == '[' {
        proof {
            let p = j - 1;
            assert(opens_section(l@, p as int));
            let other = choose|other: int| opens_section(l@, other);
            if other < p {
                assert(l@.subrange(other + 1, n - 1)[p - other - 1] == l@[p as int]);
            }
            if p < other {
                assert(is_word_char(l@[other]));
            }
        }
        Some(j - 1)
    } else {
        proof {
            assert forall|p: int| !opens_section(l@, p) by {
                if 0 <= p < n - 1 && l@[p] == '[' && all_word(l@.subrange(p + 1, n - 1)) {
                    if p < j - 1 {
                        assert(l@.subrange(p + 1, n - 1)[j - 1 - p - 1] == l@[j - 1]);
                    } else if p == j - 1 {
                    } else {
                        assert(is_word_char(l@[p]));
                    }
                }
            }
        }
        None
    }
}

/// The key range and the value range of a line `key = value`.
fn find_key_value(l: &[char]) -> (r: Option<(usize, usize, usize, usize)>)
    ensures
        match key_value(l@) {
            Some((k, v)) => match r {
                Some((a, b, d, f)) => a <= b <= l@.len() && d <= f <= l@.len() && l@.subrange(
                    a as int,
                    b as int,
                ) == k && l@.subrange(d as int, f as int) == v,
                None => false,
            },
            None => r is None,
        },
{
    let a = skip_spaces(l, 0);
    let b = skip_words(l, a);
    let c = skip_spaces(l, b);
    if a < b && c < l.len() && l[c] == '=' {
        let d = skip_spaces(l, c + 1);
        let f = trim_end_at(l, d, l.len());
        if d < f {
            Some((a, b, d, f))
        } else {
            None
        }
    } else {
        None
    }
}

/// How many leading characters `strip_alias` takes off `v`.
fn alias_len(v: &[char]) -> (r: usize)
    ensures
        r <= v@.len(),
        strip_alias(v@) == v@.subrange(r as int, v@.len() as int),
{
    if v.len() == 0 || v[0] != '$' {
        assert(v@.subrange(0, v@.len() as int) =~= v@);
        return 0;
    }
    let k = skip_words(v, 1);
    if k >= 2 && k < v.len() && v.len() - k > 1 && v[k] == '$' && v[k + 1] == '\\' {
        k + 2
    } else {
        assert(v@.subrange(0, v@.len() as int) =~= v@);
        0
    }
}

/// The install root that a metadata payload names, decoded under
/// `encoding`; `None` where it names none.
pub fn read_root_path(data: &[u8], encoding: &'static encoding_rs::Encoding) -> (r: Result<
    Option<String>,
    MetadataError,
>)
    ensures
        data@.len() > MAX_METADATA_LEN ==> r == Err::<Option<String>, MetadataError>(
            MetadataError::TooLarge,
        ),
        data@.len() <= MAX_METADATA_LEN && decoded_text(*encoding, data@).1 ==> r == Err::<
            Option<String>,
            MetadataError,
        >(MetadataError::BadText),
        data@.len() <= MAX_METADATA_LEN && !decoded_text(*encoding, data@).1 ==> r is Ok && match root_path_of(
            decoded_text(*encoding, data@).0,
        ) {
            Some(p) => r->Ok_0 is Some && r->Ok_0->0@ == p,
            None => r->Ok_0 is None,
        },
{
    if data.len() > MAX_METADATA_LEN {
        return Err(MetadataError::TooLarge);
    }
    let (text, had_errors) = decode_text(encoding, data);
    if had_errors {
        return Err(MetadataError::BadText);
    }
    let chars = chars_of(text.as_str());
    let ghost t = chars@;
    let header: [char; 6] = ['h', 'e', 'a', 'd', 'e', 'r'];
    let entry_point: [char; 11] = ['e', 'n', 't', 'r', 'y', '_', 'p', 'o', 'i', 'n', 't'];
    assert(header@ == header_word());
    assert(entry_point@ == entry_point_word());
    let n = chars.len();
    let mut i: usize = 0;
    let mut in_header = false;
    let ghost mut section: Seq<char> = Seq::empty();
    while i < n
        invariant
            t == chars@,
            t == text@,
            n == t.len(),
            i <= n,
            data@.len() <= MAX_METADATA_LEN,
            !decoded_text(*encoding, data@).1,
            t == decoded_text(*encoding, data@).0,
            header@ == header_word(),
            entry_point@ == entry_point_word(),
            in_header == (section == header_word()),
            root_path_of(t) == root_scan(t, i as int, section),
        decreases n - i,
    {
        let e = find_line_end(chars.as_slice(), i);
        let hi = if i < e && e < n && chars[e - 1] == '\r' {
            e - 1
        } else {
            e
        };
        let line = slice_to_vec(&chars.as_slice()[i..hi]);
        assert(line@ == line_at(t, i as int));
        match find_section(line.as_slice()) {
            Some(p) => {
                let m = line.len() - 1;
                in_header = same_chars(line.as_slice(), p + 1, m, header.as_slice());
                proof {
                    section = line@.subrange(p + 1, m as int);
                }
            },
            None => {
                if in_header {
                    match find_key_value(line.as_slice()) {
                        Some((a, b, d, f)) => {
                            if same_chars(line.as_slice(), a, b, entry_point.as_slice()) {
                                let value = slice_to_vec(&line.as_slice()[d..f]);
                                let skip = alias_len(value.as_slice());
                                let lo = i + d + skip;
                                let up = i + f;
                                let root = text.as_str().substring_char(lo, up);
                                assert(root@ =~= strip_alias(value@));
                                return Ok(Some(String::from_str(root)));
                            }
                        },
                        None => {},
                    }
                }
            },
        }
        if e == n {
            assert(root_scan(t, e + 1, section) == None::<Seq<char>>);
            return Ok(None);
        }
        i = e + 1;
    }
    Ok(None)
}

} // verus!

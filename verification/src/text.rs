//! Text helpers: conversions between bytes, characters and `String`, and the
//! small character-level operations the parsers need.

use vstd::prelude::*;
use vstd::utf8::{decode_utf8, encode_scalar, encode_utf8, valid_utf8};

verus! {

/// What `String::from_utf8_lossy` makes of a byte sequence.
pub uninterp spec fn lossy_utf8(bytes: Seq<u8>) -> Seq<char>;

/// `String::from_utf8_lossy(bytes).into_owned()`: std documents that valid
/// UTF-8 comes back unchanged and that invalid sequences become U+FFFD; the
/// contract states the first fact and names the result for the rest.
#[verifier::external_body]
pub(crate) fn lossy_string(bytes: &[u8]) -> (r: String)
    ensures
        r@ == lossy_utf8(bytes@),
        valid_utf8(bytes@) ==> r@ == decode_utf8(bytes@),
{
    String::from_utf8_lossy(bytes).into_owned()
}

/// `std::str::from_utf8`, owned: `Some` exactly for valid UTF-8, holding its
/// decoded characters.
#[verifier::external_body]
pub(crate) fn utf8_string(bytes: &[u8]) -> (r: Option<String>)
    ensures
        r is Some <==> valid_utf8(bytes@),
        r matches Some(s) ==> s@ == decode_utf8(bytes@),
{
    match std::str::from_utf8(bytes) {
        Ok(s) => Some(s.to_owned()),
        Err(_) => None,
    }
}

/// The characters of a string slice, in order.
pub fn chars_of(s: &str) -> (r: Vec<char>)
    ensures
        r@ == s@,
{
    broadcast use vstd::string::axiom_spec_iter;
    let mut out: Vec<char> = Vec::new();
    for c in it: s.chars()
        invariant
            it.seq() == s@,
            out@ == it.seq().take(it.index() as int),
    {
        out.push(c);
        proof {
            assert(out@ =~= it.seq().take(it.index() + 1));
        }
    }
    proof {
        assert(out@ =~= s@);
    }
    out
}

/// A `String` made of the given characters (`iter().collect()`).
#[verifier::external_body]
pub(crate) fn string_of(chars: &[char]) -> (r: String)
    ensures
        r@ == chars@,
{
    chars.iter().collect()
}

/// Character-wise string equality.
pub fn str_eq(a: &str, b: &str) -> (r: bool)
    ensures
        r == (a@ == b@),
{
    let x = chars_of(a);
    let y = chars_of(b);
    chars_eq(x.as_slice(), y.as_slice())
}

/// The string built from a literal.
pub fn owned(s: &str) -> (r: String)
    ensures
        r@ == s@,
{
    s.to_owned()
}

/// `s` with every leading and trailing `c` removed.
pub open spec fn trim_char(s: Seq<char>, c: char) -> Seq<char> {
    strip_trailing(strip_leading(s, c), c)
}

pub open spec fn strip_leading(s: Seq<char>, c: char) -> Seq<char>
    decreases s.len(),
{
    if s.len() > 0 && s[0] == c {
        strip_leading(s.drop_first(), c)
    } else {
        s
    }
}

pub open spec fn strip_trailing(s: Seq<char>, c: char) -> Seq<char>
    decreases s.len(),
{
    if s.len() > 0 && s.last() == c {
        strip_trailing(s.drop_last(), c)
    } else {
        s
    }
}

/// The Unicode `White_Space` property, which `str::trim` uses.
pub open spec fn is_white_space(c: char) -> bool {
    ||| '\u{09}' <= c <= '\u{0D}'
    ||| c == ' '
    ||| c == '\u{85}'
    ||| c == '\u{A0}'
    ||| c == '\u{1680}'
    ||| '\u{2000}' <= c <= '\u{200A}'
    ||| c == '\u{2028}'
    ||| c == '\u{2029}'
    ||| c == '\u{202F}'
    ||| c == '\u{205F}'
    ||| c == '\u{3000}'
}

pub open spec fn trim_leading_space(s: Seq<char>) -> Seq<char>
    decreases s.len(),
{
    if s.len() > 0 && is_white_space(s[0]) {
        trim_leading_space(s.drop_first())
    } else {
        s
    }
}

pub open spec fn trim_trailing_space(s: Seq<char>) -> Seq<char>
    decreases s.len(),
{
    if s.len() > 0 && is_white_space(s.last()) {
        trim_trailing_space(s.drop_last())
    } else {
        s
    }
}

/// What `str::trim` returns.
pub open spec fn trim_space(s: Seq<char>) -> Seq<char> {
    trim_trailing_space(trim_leading_space(s))
}

/// Whether `c` separates fields: white space, and with `comma` also `,`.
pub open spec fn is_separator(c: char, comma: bool) -> bool {
    is_white_space(c) || (comma && c == ',')
}

/// The non-empty runs of `s` between separators (see [`is_separator`]):
/// `split_whitespace`, or with `comma` a split on `,` and white space with
/// the empty parts dropped.
pub open spec fn fields(s: Seq<char>, comma: bool) -> Seq<Seq<char>>
    decreases s.len(),
{
    if s.len() == 0 {
        seq![]
    } else {
        let p = s.drop_last();
        let w = fields(p, comma);
        let c = s.last();
        if is_separator(c, comma) {
            w
        } else if p.len() > 0 && !is_separator(p.last(), comma) {
            w.update(w.len() - 1, w.last().push(c))
        } else {
            w.push(seq![c])
        }
    }
}

/// The words of `s` between runs of white space, as `split_whitespace`
/// gives them.
pub open spec fn words(s: Seq<char>) -> Seq<Seq<char>> {
    fields(s, false)
}

/// Splits `s` into its words; see [`words`].
pub fn split_words(s: &str) -> (r: Vec<String>)
    ensures
        r@.map_values(|x: String| x@) == words(s@),
{
    split_fields(s, false)
}

/// Splits `s` into its fields; see [`fields`].
pub fn split_fields(s: &str, comma: bool) -> (r: Vec<String>)
    ensures
        r@.map_values(|x: String| x@) == fields(s@, comma),
{
    let cs = chars_of(s);
    let mut out: Vec<String> = Vec::new();
    let mut cur: Vec<char> = Vec::new();
    let mut i: usize = 0;
    proof {
        assert(cs@.take(0) =~= Seq::<char>::empty());
        assert(out@.map_values(|x: String| x@) =~= Seq::<Seq<char>>::empty());
    }
    while i < cs.len()
        invariant
            i <= cs@.len(),
            cs@ == s@,
            cur@.len() > 0 ==> fields(cs@.take(i as int), comma) == out@.map_values(|x: String| x@).push(
                cur@,
            ) && i > 0 && !is_separator(cs@[i - 1], comma),
            cur@.len() == 0 ==> fields(cs@.take(i as int), comma) == out@.map_values(|x: String| x@) && (
            i == 0 || is_separator(cs@[i - 1], comma)),
        decreases cs@.len() - i,
    {
        let c = cs[i];
        let ghost ov = out@.map_values(|x: String| x@);
        let ghost w = fields(cs@.take(i as int), comma);
        proof {
            assert(cs@.take(i + 1).drop_last() =~= cs@.take(i as int));
            assert(cs@.take(i + 1).last() == c);
            if i > 0 {
                assert(cs@.take(i as int).last() == cs@[i - 1]);
            }
        }
        if char_is_white_space(c) || (comma && c == ',') {
            if cur.len() > 0 {
                let word = string_of(cur.as_slice());
                out.push(word);
                cur = Vec::new();
                proof {
                    assert(out@.map_values(|x: String| x@) =~= ov.push(word@));
                }
            }
        } else {
            let ghost before = cur@;
            cur.push(c);
            proof {
                if before.len() > 0 {
                    assert(w.len() - 1 == ov.len());
                    assert(w.update(w.len() - 1, w.last().push(c)) =~= ov.push(cur@));
                } else {
                    assert(cur@ =~= seq![c]);
                    assert(w.push(seq![c]) =~= ov.push(cur@));
                }
            }
        }
        i = i + 1;
    }
    proof {
        assert(cs@.take(i as int) =~= cs@);
    }
    if cur.len() > 0 {
        let ghost ov = out@.map_values(|x: String| x@);
        let word = string_of(cur.as_slice());
        out.push(word);
        proof {
            assert(out@.map_values(|x: String| x@) =~= ov.push(word@));
        }
    }
    out
}

pub fn char_is_white_space(c: char) -> (r: bool)
    ensures
        r == is_white_space(c),
{
    ('\u{09}' <= c && c <= '\u{0D}') || c == ' ' || c == '\u{85}' || c == '\u{A0}' || c == '\u{1680}'
        || ('\u{2000}' <= c && c <= '\u{200A}') || c == '\u{2028}' || c == '\u{2029}' || c
        == '\u{202F}' || c == '\u{205F}' || c == '\u{3000}'
}

proof fn lemma_strip_leading_step(s: Seq<char>, i: int, c: char)
    requires
        0 <= i < s.len(),
        s[i] == c,
    ensures
        strip_leading(s.subrange(i, s.len() as int), c) == strip_leading(
            s.subrange(i + 1, s.len() as int),
            c,
        ),
{
    assert(s.subrange(i, s.len() as int).drop_first() =~= s.subrange(i + 1, s.len() as int));
}

proof fn lemma_strip_trailing_step(s: Seq<char>, j: int, c: char)
    requires
        0 < j <= s.len(),
        s[j - 1] == c,
    ensures
        strip_trailing(s.subrange(0, j), c) == strip_trailing(s.subrange(0, j - 1), c),
{
    assert(s.subrange(0, j).drop_last() =~= s.subrange(0, j - 1));
}

proof fn lemma_trim_leading_step(s: Seq<char>, i: int)
    requires
        0 <= i < s.len(),
        is_white_space(s[i]),
    ensures
        trim_leading_space(s.subrange(i, s.len() as int)) == trim_leading_space(
            s.subrange(i + 1, s.len() as int),
        ),
{
    assert(s.subrange(i, s.len() as int).drop_first() =~= s.subrange(i + 1, s.len() as int));
}

proof fn lemma_trim_trailing_step(s: Seq<char>, j: int)
    requires
        0 < j <= s.len(),
        is_white_space(s[j - 1]),
    ensures
        trim_trailing_space(s.subrange(0, j)) == trim_trailing_space(s.subrange(0, j - 1)),
{
    assert(s.subrange(0, j).drop_last() =~= s.subrange(0, j - 1));
}

/// The characters with leading and trailing `c` removed.
pub fn trim_char_vec(s: &Vec<char>, c: char) -> (r: Vec<char>)
    ensures
        r@ == trim_char(s@, c),
{
    let n = s.len();
    let mut i: usize = 0;
    proof {
        assert(s@.subrange(0, n as int) =~= s@);
    }
    while i < n && s[i] == c
        invariant
            i <= n,
            n == s@.len(),
            strip_leading(s@, c) == strip_leading(s@.subrange(i as int, n as int), c),
        decreases n - i,
    {
        proof {
            lemma_strip_leading_step(s@, i as int, c);
        }
        i = i + 1;
    }
    proof {
        assert(s@.subrange(0, n as int) =~= s@);
    }
    let ghost lead = s@.subrange(i as int, n as int);
    assert(strip_leading(lead, c) == lead);
    let mut j: usize = n;
    proof {
        assert(lead.subrange(0, n - i) =~= lead);
    }
    while j > i && s[j - 1] == c
        invariant
            i <= j <= n,
            n == s@.len(),
            lead == s@.subrange(i as int, n as int),
            strip_trailing(lead, c) == strip_trailing(lead.subrange(0, j - i), c),
        decreases j,
    {
        proof {
            assert(lead.subrange(0, j - i)[j - i - 1] == s@[j - 1]);
            lemma_strip_trailing_step(lead, (j - i) as int, c);
            assert(lead.subrange(0, j - i).subrange(0, j - i - 1) =~= lead.subrange(0, j - i - 1));
        }
        j = j - 1;
    }
    proof {
        assert(lead.subrange(0, n - i) =~= lead);
    }
    let mut out: Vec<char> = Vec::new();
    let mut k: usize = i;
    while k < j
        invariant
            i <= k <= j <= n,
            n == s@.len(),
            out@ == s@.subrange(i as int, k as int),
        decreases j - k,
    {
        out.push(s[k]);
        proof {
            assert(out@ =~= s@.subrange(i as int, k + 1));
        }
        k = k + 1;
    }
    proof {
        assert(lead.subrange(0, j - i) =~= s@.subrange(i as int, j as int));
    }
    out
}

/// `str::trim_end_matches(c)`: the string with every trailing `c` removed.
pub fn trim_end_char(s: &str, c: char) -> (r: String)
    ensures
        r@ == strip_trailing(s@, c),
{
    let chars = chars_of(s);
    let n = chars.len();
    let mut j: usize = n;
    proof {
        assert(chars@.subrange(0, n as int) =~= chars@);
    }
    while j > 0 && chars[j - 1] == c
        invariant
            j <= n,
            n == chars@.len(),
            chars@ == s@,
            strip_trailing(s@, c) == strip_trailing(chars@.subrange(0, j as int), c),
        decreases j,
    {
        proof {
            lemma_strip_trailing_step(chars@, j as int, c);
        }
        j = j - 1;
    }
    proof {
        let t = chars@.subrange(0, j as int);
        assert(!(t.len() > 0 && t.last() == c));
    }
    string_of(vstd::slice::slice_subrange(chars.as_slice(), 0, j))
}

/// `str::trim`: the characters with leading and trailing white space removed.
pub fn trim_vec(s: &Vec<char>) -> (r: Vec<char>)
    ensures
        r@ == trim_space(s@),
{
    let n = s.len();
    let mut i: usize = 0;
    proof {
        assert(s@.subrange(0, n as int) =~= s@);
    }
    while i < n && char_is_white_space(s[i])
        invariant
            i <= n,
            n == s@.len(),
            trim_leading_space(s@) == trim_leading_space(s@.subrange(i as int, n as int)),
        decreases n - i,
    {
        proof {
            lemma_trim_leading_step(s@, i as int);
        }
        i = i + 1;
    }
    proof {
        assert(s@.subrange(0, n as int) =~= s@);
    }
    let ghost lead = s@.subrange(i as int, n as int);
    let mut j: usize = n;
    proof {
        assert(lead.subrange(0, n - i) =~= lead);
    }
    while j > i && char_is_white_space(s[j - 1])
        invariant
            i <= j <= n,
            n == s@.len(),
            lead == s@.subrange(i as int, n as int),
            trim_trailing_space(lead) == trim_trailing_space(lead.subrange(0, j - i)),
        decreases j,
    {
        proof {
            assert(lead.subrange(0, j - i)[j - i - 1] == s@[j - 1]);
            lemma_trim_trailing_step(lead, (j - i) as int);
            assert(lead.subrange(0, j - i).subrange(0, j - i - 1) =~= lead.subrange(0, j - i - 1));
        }
        j = j - 1;
    }
    proof {
        assert(lead.subrange(0, n - i) =~= lead);
    }
    let mut out: Vec<char> = Vec::new();
    let mut k: usize = i;
    while k < j
        invariant
            i <= k <= j <= n,
            n == s@.len(),
            out@ == s@.subrange(i as int, k as int),
        decreases j - k,
    {
        out.push(s[k]);
        proof {
            assert(out@ =~= s@.subrange(i as int, k + 1));
        }
        k = k + 1;
    }
    proof {
        assert(lead.subrange(0, j - i) =~= s@.subrange(i as int, j as int));
    }
    out
}

/// `str::trim` on a string slice.
pub fn trim_str(s: &str) -> (r: String)
    ensures
        r@ == trim_space(s@),
{
    let chars = chars_of(s);
    let t = trim_vec(&chars);
    string_of(t.as_slice())
}

/// ASCII lower-casing of one character (`char::to_ascii_lowercase`).
pub open spec fn ascii_lower(c: char) -> char {
    if 'A' <= c <= 'Z' {
        ((c as u32) + 32) as char
    } else {
        c
    }
}

/// ASCII upper-casing of one character (`char::to_ascii_uppercase`).
pub open spec fn ascii_upper(c: char) -> char {
    if 'a' <= c <= 'z' {
        ((c as u32) - 32) as char
    } else {
        c
    }
}

pub fn to_ascii_lower(c: char) -> (r: char)
    ensures
        r == ascii_lower(c),
{
    if 'A' <= c && c <= 'Z' {
        ((c as u8) + 32) as char
    } else {
        c
    }
}

pub fn to_ascii_upper(c: char) -> (r: char)
    ensures
        r == ascii_upper(c),
{
    if 'a' <= c && c <= 'z' {
        ((c as u8) - 32) as char
    } else {
        c
    }
}

/// `eq_ignore_ascii_case` on character sequences.
pub open spec fn eq_ignore_case(a: Seq<char>, b: Seq<char>) -> bool {
    a.len() == b.len() && forall|i: int| 0 <= i < a.len() ==> ascii_lower(a[i]) == ascii_lower(b[i])
}

pub fn chars_eq_ignore_case(a: &[char], b: &[char]) -> (r: bool)
    ensures
        r == eq_ignore_case(a@, b@),
{
    if a.len() != b.len() {
        return false;
    }
    let mut i: usize = 0;
    while i < a.len()
        invariant
            i <= a@.len(),
            a@.len() == b@.len(),
            forall|k: int| 0 <= k < i ==> ascii_lower(a@[k]) == ascii_lower(b@[k]),
        decreases a@.len() - i,
    {
        if to_ascii_lower(a[i]) != to_ascii_lower(b[i]) {
            return false;
        }
        i = i + 1;
    }
    true
}

/// The string upper-cased in the ASCII range (`str::to_ascii_uppercase`).
pub open spec fn upper_ascii(s: Seq<char>) -> Seq<char> {
    s.map_values(|c: char| ascii_upper(c))
}

pub fn chars_to_upper(s: &[char]) -> (r: Vec<char>)
    ensures
        r@ == upper_ascii(s@),
{
    let mut out: Vec<char> = Vec::new();
    let mut i: usize = 0;
    while i < s.len()
        invariant
            i <= s@.len(),
            out@ == upper_ascii(s@.subrange(0, i as int)),
        decreases s@.len() - i,
    {
        out.push(to_ascii_upper(s[i]));
        proof {
            assert(upper_ascii(s@.subrange(0, i + 1)) =~= upper_ascii(s@.subrange(0, i as int)).push(
                ascii_upper(s@[i as int]),
            ));
        }
        i = i + 1;
    }
    proof {
        assert(s@.subrange(0, s@.len() as int) =~= s@);
    }
    out
}

/// The string lower-cased in the ASCII range (`str::to_ascii_lowercase`).
pub open spec fn lower_ascii(s: Seq<char>) -> Seq<char> {
    s.map_values(|c: char| ascii_lower(c))
}

pub fn chars_to_lower(s: &[char]) -> (r: Vec<char>)
    ensures
        r@ == lower_ascii(s@),
{
    let mut out: Vec<char> = Vec::new();
    let mut i: usize = 0;
    while i < s.len()
        invariant
            i <= s@.len(),
            out@ == lower_ascii(s@.subrange(0, i as int)),
        decreases s@.len() - i,
    {
        out.push(to_ascii_lower(s[i]));
        proof {
            assert(lower_ascii(s@.subrange(0, i + 1)) =~= lower_ascii(s@.subrange(0, i as int)).push(
                ascii_lower(s@[i as int]),
            ));
        }
        i = i + 1;
    }
    proof {
        assert(s@.subrange(0, s@.len() as int) =~= s@);
    }
    out
}

/// Whether every character is ASCII.
pub open spec fn all_ascii(s: Seq<char>) -> bool {
    forall|i: int| 0 <= i < s.len() ==> (s[i] as u32) < 128
}

pub fn chars_all_ascii(s: &[char]) -> (r: bool)
    ensures
        r == all_ascii(s@),
{
    let mut i: usize = 0;
    while i < s.len()
        invariant
            i <= s@.len(),
            forall|k: int| 0 <= k < i ==> (s@[k] as u32) < 128,
        decreases s@.len() - i,
    {
        if (s[i] as u32) >= 128 {
            return false;
        }
        i = i + 1;
    }
    true
}

/// Whether `c` occurs in `s`.
pub fn chars_contain(s: &[char], c: char) -> (r: bool)
    ensures
        r == s@.contains(c),
{
    let mut i: usize = 0;
    while i < s.len()
        invariant
            i <= s@.len(),
            forall|k: int| 0 <= k < i ==> s@[k] != c,
        decreases s@.len() - i,
    {
        if s[i] == c {
            return true;
        }
        i = i + 1;
    }
    false
}

/// Whether `f` occurs in `s` starting at `i`.
pub open spec fn occurs_at(s: Seq<char>, f: Seq<char>, i: int) -> bool {
    0 <= i && i + f.len() <= s.len() && s.subrange(i, i + f.len()) == f
}

/// Whether `f` occurs in `s` (`str::contains` with a string pattern).
pub open spec fn contains_seq(s: Seq<char>, f: Seq<char>) -> bool {
    exists|i: int| #[trigger] occurs_at(s, f, i)
}

pub fn chars_contain_seq(s: &[char], f: &[char]) -> (r: bool)
    ensures
        r == contains_seq(s@, f@),
{
    let n = s.len();
    let m = f.len();
    if m > n {
        proof {
            assert forall|i: int| !#[trigger] occurs_at(s@, f@, i) by {}
        }
        return false;
    }
    let mut i: usize = 0;
    while i < n - m
        invariant
            m <= n,
            n == s@.len(),
            m == f@.len(),
            i <= n - m,
            forall|j: int| 0 <= j < i ==> !#[trigger] occurs_at(s@, f@, j),
        decreases n - m - i,
    {
        if chars_eq(vstd::slice::slice_subrange(s, i, i + m), f) {
            proof {
                assert(occurs_at(s@, f@, i as int));
            }
            return true;
        }
        i = i + 1;
    }
    let last = chars_eq(vstd::slice::slice_subrange(s, n - m, n), f);
    proof {
        if last {
            assert(occurs_at(s@, f@, (n - m) as int));
        } else {
            assert forall|j: int| !#[trigger] occurs_at(s@, f@, j) by {
                if 0 <= j && j < i {
                }
            }
        }
    }
    last
}

/// Character sequence equality.
pub fn chars_eq(a: &[char], b: &[char]) -> (r: bool)
    ensures
        r == (a@ == b@),
{
    if a.len() != b.len() {
        return false;
    }
    let mut i: usize = 0;
    while i < a.len()
        invariant
            i <= a@.len(),
            a@.len() == b@.len(),
            forall|k: int| 0 <= k < i ==> a@[k] == b@[k],
        decreases a@.len() - i,
    {
        if a[i] != b[i] {
            return false;
        }
        i = i + 1;
    }
    proof {
        assert(a@ =~= b@);
    }
    true
}

/// The index of the first `0` byte, or the length when there is none.
pub open spec fn nul_end(s: Seq<u8>) -> int
    decreases s.len(),
{
    if s.len() == 0 {
        0
    } else if s[0] == 0 {
        0
    } else {
        1 + nul_end(s.drop_first())
    }
}

pub proof fn lemma_nul_end(s: Seq<u8>)
    ensures
        0 <= nul_end(s) <= s.len(),
        forall|k: int| 0 <= k < nul_end(s) ==> s[k] != 0,
        nul_end(s) < s.len() ==> s[nul_end(s)] == 0,
    decreases s.len(),
{
    if s.len() > 0 && s[0] != 0 {
        lemma_nul_end(s.drop_first());
        assert forall|k: int| 0 <= k < nul_end(s) implies s[k] != 0 by {
            if k > 0 {
                assert(s[k] == s.drop_first()[k - 1]);
            }
        }
    }
}

pub proof fn lemma_nul_end_unique(s: Seq<u8>, e: int)
    requires
        0 <= e <= s.len(),
        forall|k: int| 0 <= k < e ==> s[k] != 0,
        e < s.len() ==> s[e] == 0,
    ensures
        nul_end(s) == e,
    decreases s.len(),
{
    if s.len() > 0 && s[0] != 0 {
        assert forall|k: int| 0 <= k < e - 1 implies s.drop_first()[k] != 0 by {
            assert(s[k + 1] != 0);
        }
        lemma_nul_end_unique(s.drop_first(), e - 1);
    }
}

/// The position of the first `0` byte in `s[start..end]`, or `end`.
pub fn find_nul(s: &[u8], start: usize, end: usize) -> (r: usize)
    requires
        start <= end <= s@.len(),
    ensures
        start + nul_end(s@.subrange(start as int, end as int)) == r,
        start <= r <= end,
{
    let mut i = start;
    while i < end && s[i] != 0
        invariant
            start <= i <= end <= s@.len(),
            forall|k: int| start <= k < i ==> s@[k] != 0,
        decreases end - i,
    {
        i = i + 1;
    }
    proof {
        lemma_nul_end_unique(s@.subrange(start as int, end as int), (i - start) as int);
    }
    i
}

/// The upper-case hexadecimal digit for a nibble.
pub open spec fn hex_digit_upper(n: u8) -> char {
    if n < 10 {
        (('0' as u8) + n) as char
    } else {
        (('A' as u8) + (n - 10)) as char
    }
}

/// The lower-case hexadecimal digit for a nibble.
pub open spec fn hex_digit_lower(n: u8) -> char {
    if n < 10 {
        (('0' as u8) + n) as char
    } else {
        (('a' as u8) + (n - 10)) as char
    }
}

/// Two hexadecimal digits per byte, most significant nibble first.
pub open spec fn hex_encode(bytes: Seq<u8>, upper: bool) -> Seq<char>
    decreases bytes.len(),
{
    if bytes.len() == 0 {
        Seq::empty()
    } else {
        let b = bytes.last();
        hex_encode(bytes.drop_last(), upper) + if upper {
            seq![hex_digit_upper(b / 16), hex_digit_upper(b % 16)]
        } else {
            seq![hex_digit_lower(b / 16), hex_digit_lower(b % 16)]
        }
    }
}

/// Two characters per byte.
pub proof fn lemma_hex_encode_len(bytes: Seq<u8>, upper: bool)
    ensures
        hex_encode(bytes, upper).len() == 2 * bytes.len(),
    decreases bytes.len(),
{
    if bytes.len() > 0 {
        lemma_hex_encode_len(bytes.drop_last(), upper);
    }
}

pub fn hex_digit(n: u8, upper: bool) -> (r: char)
    requires
        n < 16,
    ensures
        upper ==> r == hex_digit_upper(n),
        !upper ==> r == hex_digit_lower(n),
{
    if n < 10 {
        (48u8 + n) as char
    } else if upper {
        (55u8 + n) as char
    } else {
        (87u8 + n) as char
    }
}

/// Hexadecimal text of the bytes (`hex::encode` / `hex::encode_upper`).
pub fn hex_string(bytes: &[u8], upper: bool) -> (r: String)
    ensures
        r@ == hex_encode(bytes@, upper),
{
    let mut out: Vec<char> = Vec::new();
    let mut i: usize = 0;
    while i < bytes.len()
        invariant
            i <= bytes@.len(),
            out@ == hex_encode(bytes@.subrange(0, i as int), upper),
        decreases bytes@.len() - i,
    {
        let b = bytes[i];
        out.push(hex_digit(b / 16, upper));
        out.push(hex_digit(b % 16, upper));
        proof {
            assert(bytes@.subrange(0, i + 1).drop_last() =~= bytes@.subrange(0, i as int));
        }
        i = i + 1;
    }
    proof {
        assert(bytes@.subrange(0, bytes@.len() as int) =~= bytes@);
    }
    string_of(out.as_slice())
}

/// The number of bytes the characters take in UTF-8.
pub open spec fn utf8_len(s: Seq<char>) -> int {
    encode_utf8(s).len() as int
}

proof fn lemma_utf8_len_suffix(s: Seq<char>, i: int)
    requires
        0 <= i < s.len(),
    ensures
        utf8_len(s.subrange(i, s.len() as int)) == encode_scalar(s[i] as u32).len() + utf8_len(
            s.subrange(i + 1, s.len() as int),
        ),
{
    assert(s.subrange(i, s.len() as int).drop_first() =~= s.subrange(i + 1, s.len() as int));
}

proof fn lemma_utf8_len_mono(s: Seq<char>, i: int, j: int)
    requires
        0 <= i <= j <= s.len(),
    ensures
        utf8_len(s.subrange(i, s.len() as int)) >= utf8_len(s.subrange(j, s.len() as int)),
    decreases j - i,
{
    if i < j {
        lemma_utf8_len_suffix(s, i);
        lemma_utf8_len_mono(s, i + 1, j);
    }
}

fn char_utf8_width(c: char) -> (r: usize)
    ensures
        r == encode_scalar(c as u32).len(),
{
    let v = c as u32;
    proof {
        vstd::utf8::char_is_scalar(c);
    }
    if v <= 0x7F {
        1
    } else if v <= 0x7FF {
        2
    } else if v <= 0xFFFF {
        3
    } else {
        4
    }
}

/// Whether the characters take more than `limit` bytes in UTF-8.
pub fn utf8_len_exceeds(s: &[char], limit: usize) -> (r: bool)
    ensures
        r == (utf8_len(s@) > limit),
{
    let n = s.len();
    let mut acc: usize = 0;
    let mut i: usize = n;
    proof {
        assert(s@.subrange(n as int, n as int) =~= Seq::<char>::empty());
        assert(s@.subrange(0, n as int) =~= s@);
    }
    while i > 0
        invariant
            i <= n,
            n == s@.len(),
            acc <= limit,
            acc == utf8_len(s@.subrange(i as int, n as int)),
        decreases i,
    {
        proof {
            lemma_utf8_len_suffix(s@, i - 1);
        }
        let w = char_utf8_width(s[i - 1]);
        if w > limit - acc {
            proof {
                lemma_utf8_len_mono(s@, 0, i - 1);
                assert(s@.subrange(0, n as int) =~= s@);
            }
            return true;
        }
        acc = acc + w;
        i = i - 1;
    }
    false
}

/// The decimal digit character of `d < 10`.
pub open spec fn dec_char(d: int) -> char {
    ((0x30 + d) as u8) as char
}

/// The last `n` decimal digits of `v`, most significant first.
pub open spec fn dec_width(v: nat, n: nat) -> Seq<char>
    decreases n,
{
    if n == 0 {
        seq![]
    } else {
        dec_width(v / 10, (n - 1) as nat).push(dec_char((v % 10) as int))
    }
}

/// The number of decimal digits of `v`.
pub open spec fn dec_len(v: nat) -> nat
    decreases v,
{
    if v < 10 {
        1
    } else {
        1 + dec_len(v / 10)
    }
}

/// `v` in decimal, as `{}` prints it.
pub open spec fn decimal_of(v: nat) -> Seq<char> {
    dec_width(v, dec_len(v))
}

pub open spec fn pow10(n: int) -> int
    decreases n,
{
    if n <= 0 {
        1
    } else {
        10 * pow10(n - 1)
    }
}

proof fn lemma_dec_len_bound(v: nat, k: nat)
    requires
        1 <= k,
        v < pow10(k as int),
    ensures
        dec_len(v) <= k,
    decreases k,
{
    if v >= 10 {
        if k == 1 {
            assert(pow10(1) == 10) by {
                reveal_with_fuel(pow10, 2);
            }
        } else {
            assert(pow10(k as int) == 10 * pow10(k - 1));
            lemma_dec_len_bound(v / 10, (k - 1) as nat);
        }
    }
}

/// `v` in decimal.
pub fn decimal(v: u64) -> (r: String)
    ensures
        r@ == decimal_of(v as nat),
{
    proof {
        assert(pow10(20) > u64::MAX) by {
            reveal_with_fuel(pow10, 21);
        }
        lemma_dec_len_bound(v as nat, 20);
    }
    let mut n: usize = 1;
    let mut x: u64 = v;
    while x >= 10
        invariant
            dec_len(v as nat) == (n - 1) + dec_len(x as nat),
            dec_len(v as nat) <= 20,
            1 <= n,
        decreases x,
    {
        x = x / 10;
        n = n + 1;
    }
    let mut digits: Vec<char> = vec!['0'; n];
    let mut k: usize = n;
    let mut y: u64 = v;
    proof {
        assert(digits@.subrange(n as int, n as int) =~= Seq::<char>::empty());
        assert(dec_width(v as nat, n as nat) =~= dec_width(v as nat, n as nat) + Seq::<char>::empty());
    }
    while k > 0
        invariant
            k <= n,
            digits@.len() == n,
            dec_width(v as nat, n as nat) == dec_width(y as nat, k as nat) + digits@.subrange(
                k as int,
                n as int,
            ),
        decreases k,
    {
        let d = (y % 10) as u8;
        let c = (0x30u8 + d) as char;
        let ghost old_digits = digits@;
        digits.set(k - 1, c);
        proof {
            assert(c == dec_char((y % 10) as int));
            assert(digits@.subrange(k - 1, n as int) =~= seq![c] + old_digits.subrange(
                k as int,
                n as int,
            ));
            assert(dec_width(y as nat, k as nat) == dec_width((y / 10) as nat, (k - 1) as nat).push(c));
            assert(dec_width((y / 10) as nat, (k - 1) as nat).push(c) + old_digits.subrange(
                k as int,
                n as int,
            ) =~= dec_width((y / 10) as nat, (k - 1) as nat) + (seq![c] + old_digits.subrange(
                k as int,
                n as int,
            )));
        }
        y = y / 10;
        k = k - 1;
    }
    proof {
        assert(dec_width(y as nat, 0) =~= Seq::<char>::empty());
        assert(digits@.subrange(0, n as int) =~= digits@);
        assert(Seq::<char>::empty() + digits@ =~= digits@);
    }
    string_of(digits.as_slice())
}

/// Appends the characters of `s`.
pub fn push_str_chars(out: &mut Vec<char>, s: &str)
    ensures
        final(out)@ == old(out)@ + s@,
{
    let cs = chars_of(s);
    let ghost before = out@;
    let mut i: usize = 0;
    while i < cs.len()
        invariant
            i <= cs@.len(),
            out@ == before + cs@.subrange(0, i as int),
        decreases cs@.len() - i,
    {
        out.push(cs[i]);
        i = i + 1;
        proof {
            assert(out@ =~= before + cs@.subrange(0, i as int));
        }
    }
    proof {
        assert(cs@.subrange(0, cs@.len() as int) =~= cs@);
    }
}

} // verus!

//! newc ("070701") cpio archives: loading, editing and writing them back.
//! Entries are kept sorted by the UTF-8 bytes of their names, which is the
//! order in which they are written.

use vstd::prelude::*;
use vstd::utf8::{decode_utf8, encode_scalar, encode_utf8, valid_utf8};
use crate::text::{chars_of, decimal_of, push_str_chars, str_eq, string_of, trim_end_char, utf8_string};

verus! {

pub const S_IFMT: u32 = 0o170000;
pub const S_IFDIR: u32 = 0o040000;
pub const S_IFREG: u32 = 0o100000;
pub const S_IFLNK: u32 = 0o120000;
pub const S_IFBLK: u32 = 0o060000;
pub const S_IFCHR: u32 = 0o020000;
pub const S_IRUSR: u32 = 0o400;
pub const S_IWUSR: u32 = 0o200;
pub const S_IXUSR: u32 = 0o100;
pub const S_IRGRP: u32 = 0o040;
pub const S_IWGRP: u32 = 0o020;
pub const S_IXGRP: u32 = 0o010;
pub const S_IROTH: u32 = 0o004;
pub const S_IWOTH: u32 = 0o002;
pub const S_IXOTH: u32 = 0o001;

/// Size of a newc header: the magic and thirteen 8-digit hex fields.
pub const HEADER_SIZE: usize = 110;

/// One archive member.
#[derive(Debug, Clone)]
pub struct CpioEntry {
    pub mode: u32,
    pub uid: u32,
    pub gid: u32,
    pub rdevmajor: u32,
    pub rdevminor: u32,
    pub data: Vec<u8>,
}

pub struct EntryView {
    pub mode: u32,
    pub uid: u32,
    pub gid: u32,
    pub rdevmajor: u32,
    pub rdevminor: u32,
    pub data: Seq<u8>,
}

impl View for CpioEntry {
    type V = EntryView;

    open spec fn view(&self) -> EntryView {
        EntryView {
            mode: self.mode,
            uid: self.uid,
            gid: self.gid,
            rdevmajor: self.rdevmajor,
            rdevminor: self.rdevminor,
            data: self.data@,
        }
    }
}

impl CpioEntry {
    pub fn copy(&self) -> (r: CpioEntry)
        ensures
            r@ == self@,
    {
        CpioEntry {
            mode: self.mode,
            uid: self.uid,
            gid: self.gid,
            rdevmajor: self.rdevmajor,
            rdevminor: self.rdevminor,
            data: vstd::slice::slice_to_vec(self.data.as_slice()),
        }
    }
}

/// Why an archive or a command on it was refused.
#[derive(Debug, Clone, Copy, PartialEq, Eq, Structural)]
pub enum CpioError {
    InvalidMagic,
    BadHeader,
    NonUtf8Name,
    NotFound,
    InvalidMode,
    TrailingSlash,
    BadArguments,
}

// ---------------------------------------------------------------------------
// Names and their order.

/// Byte-wise lexicographic order, as `String` orders.
pub open spec fn seq_lt(a: Seq<u8>, b: Seq<u8>) -> bool
    decreases a.len(),
{
    if b.len() == 0 {
        false
    } else if a.len() == 0 {
        true
    } else if a[0] != b[0] {
        a[0] < b[0]
    } else {
        seq_lt(a.drop_first(), b.drop_first())
    }
}

pub open spec fn name_key(name: Seq<char>) -> Seq<u8> {
    encode_utf8(name)
}

/// Entries strictly ordered by their name bytes.
pub open spec fn sorted_entries(s: Seq<(Seq<char>, EntryView)>) -> bool {
    forall|i: int, j: int| 0 <= i < j < s.len() ==> seq_lt(#[trigger] name_key(s[i].0), #[trigger] name_key(s[j].0))
}

proof fn lemma_seq_lt_irrefl(a: Seq<u8>)
    ensures
        !seq_lt(a, a),
    decreases a.len(),
{
    if a.len() > 0 {
        lemma_seq_lt_irrefl(a.drop_first());
    }
}

proof fn lemma_seq_lt_trans(a: Seq<u8>, b: Seq<u8>, c: Seq<u8>)
    requires
        seq_lt(a, b),
        seq_lt(b, c),
    ensures
        seq_lt(a, c),
    decreases a.len(),
{
    if a.len() > 0 && b.len() > 0 && c.len() > 0 && a[0] == b[0] && b[0] == c[0] {
        lemma_seq_lt_trans(a.drop_first(), b.drop_first(), c.drop_first());
    }
}

proof fn lemma_seq_lt_total(a: Seq<u8>, b: Seq<u8>)
    ensures
        a == b || seq_lt(a, b) || seq_lt(b, a),
    decreases a.len(),
{
    if a.len() > 0 && b.len() > 0 && a[0] == b[0] {
        lemma_seq_lt_total(a.drop_first(), b.drop_first());
        if a.drop_first() == b.drop_first() {
            assert(a.drop_first().len() == b.drop_first().len());
            assert(a.len() == b.len());
            assert forall|k: int| 0 <= k < a.len() implies a[k] == b[k] by {
                if k > 0 {
                    assert(a[k] == a.drop_first()[k - 1]);
                    assert(b[k] == b.drop_first()[k - 1]);
                }
            }
            assert(a =~= b);
        }
    }
}

proof fn lemma_name_key_injective(a: Seq<char>, b: Seq<char>)
    requires
        name_key(a) == name_key(b),
    ensures
        a == b,
{
    vstd::utf8::encode_utf8_decode_utf8(a);
    vstd::utf8::encode_utf8_decode_utf8(b);
}

/// -1, 0 or 1 as `a` orders before, equal to, or after `b`.
fn compare_bytes(a: &[u8], b: &[u8]) -> (r: i8)
    ensures
        r == 0 <==> a@ == b@,
        r < 0 <==> seq_lt(a@, b@),
        r > 0 <==> seq_lt(b@, a@),
{
    let mut i: usize = 0;
    proof {
        assert(a@.subrange(0, a@.len() as int) =~= a@);
        assert(b@.subrange(0, b@.len() as int) =~= b@);
        assert(a@.subrange(0, 0) =~= b@.subrange(0, 0));
    }
    while i < a.len() && i < b.len()
        invariant
            i <= a@.len(),
            i <= b@.len(),
            a@.subrange(0, i as int) == b@.subrange(0, i as int),
            seq_lt(a@, b@) == seq_lt(a@.subrange(i as int, a@.len() as int), b@.subrange(i as int, b@.len() as int)),
            seq_lt(b@, a@) == seq_lt(b@.subrange(i as int, b@.len() as int), a@.subrange(i as int, a@.len() as int)),
        decreases a@.len() - i,
    {
        if a[i] != b[i] {
            proof {
                lemma_seq_lt_total(a@, b@);
                if a@ == b@ {
                    assert(a@[i as int] == b@[i as int]);
                }
            }
            if a[i] < b[i] {
                return -1;
            } else {
                return 1;
            }
        }
        proof {
            assert(a@.subrange(i as int, a@.len() as int).drop_first() =~= a@.subrange(i + 1, a@.len() as int));
            assert(b@.subrange(i as int, b@.len() as int).drop_first() =~= b@.subrange(i + 1, b@.len() as int));
            assert(a@.subrange(0, i + 1) =~= a@.subrange(0, i as int).push(a@[i as int]));
            assert(b@.subrange(0, i + 1) =~= b@.subrange(0, i as int).push(b@[i as int]));
        }
        i = i + 1;
    }
    proof {
        lemma_seq_lt_irrefl(a@);
    }
    if a.len() == b.len() {
        proof {
            assert(a@ =~= a@.subrange(0, i as int));
            assert(b@ =~= b@.subrange(0, i as int));
        }
        0
    } else if a.len() < b.len() {
        proof {
            if a@ == b@ {
                assert(a@.len() == b@.len());
            }
        }
        -1
    } else {
        proof {
            if a@ == b@ {
                assert(a@.len() == b@.len());
            }
        }
        1
    }
}

// ---------------------------------------------------------------------------
// Path normalisation.

/// `path.split('/').filter(|s| !s.is_empty()).collect::<Vec<_>>().join("/")`,
/// as a left-to-right fold: the normalised prefix and whether a separator is
/// pending.
pub open spec fn norm_state(s: Seq<char>) -> (Seq<char>, bool)
    decreases s.len(),
{
    if s.len() == 0 {
        (Seq::empty(), false)
    } else {
        let (r, sep) = norm_state(s.drop_last());
        let c = s.last();
        if c == '/' {
            (r, true)
        } else if sep && r.len() > 0 {
            (r.push('/').push(c), false)
        } else {
            (r.push(c), false)
        }
    }
}

pub open spec fn norm_path_of(s: Seq<char>) -> Seq<char> {
    norm_state(s).0
}

/// Whether `r` has a `//` at `i`.
pub open spec fn doubled_slash_at(r: Seq<char>, i: int) -> bool {
    0 <= i && i + 1 < r.len() && r[i] == '/' && r[i + 1] == '/'
}

/// A path with no empty components: no leading, trailing or doubled `/`.
pub open spec fn clean_path(r: Seq<char>) -> bool {
    &&& r.len() == 0 || (r[0] != '/' && r.last() != '/')
    &&& forall|i: int| !#[trigger] doubled_slash_at(r, i)
}

proof fn lemma_norm_state_clean(s: Seq<char>)
    ensures
        clean_path(norm_state(s).0),
    decreases s.len(),
{
    if s.len() > 0 {
        let p = s.drop_last();
        lemma_norm_state_clean(p);
        let (r, sep) = norm_state(p);
        let c = s.last();
        if c != '/' {
            if sep && r.len() > 0 {
                let q = r.push('/').push(c);
                assert forall|i: int| !#[trigger] doubled_slash_at(q, i) by {
                    if 0 <= i && i + 1 < q.len() {
                        if i + 1 < r.len() {
                            assert(!doubled_slash_at(r, i));
                        }
                    }
                }
            } else {
                let q = r.push(c);
                assert forall|i: int| !#[trigger] doubled_slash_at(q, i) by {
                    if 0 <= i && i + 1 < r.len() {
                        assert(!doubled_slash_at(r, i));
                    }
                }
            }
        }
    }
}

/// `r` without a final `/`.
pub open spec fn without_trailing_slash(r: Seq<char>) -> Seq<char> {
    if r.len() > 0 && r.last() == '/' {
        r.drop_last()
    } else {
        r
    }
}

proof fn lemma_norm_state_of_clean_prefix(r: Seq<char>)
    requires
        r.len() == 0 || r[0] != '/',
        forall|i: int| !#[trigger] doubled_slash_at(r, i),
    ensures
        norm_state(r) == (without_trailing_slash(r), r.len() > 0 && r.last() == '/'),
    decreases r.len(),
{
    if r.len() > 0 {
        let p = r.drop_last();
        assert forall|i: int| !#[trigger] doubled_slash_at(p, i) by {
            assert(!doubled_slash_at(r, i));
        }
        if p.len() > 0 {
            assert(p[0] == r[0]);
        }
        lemma_norm_state_of_clean_prefix(p);
        let c = r.last();
        if p.len() > 0 {
            assert(p.last() == r[r.len() - 2]);
            assert(!doubled_slash_at(r, r.len() - 2));
        }
        if c == '/' {
            assert(p.len() > 0);
        } else if p.len() > 0 && p.last() == '/' {
            assert(p.len() >= 2 || p[0] == '/');
            assert(without_trailing_slash(p).push('/').push(c) =~= r);
        } else {
            assert(without_trailing_slash(p).push(c) =~= r);
        }
    }
}

/// A path with no empty component is its own normal form.
pub proof fn lemma_norm_clean_fixed(r: Seq<char>)
    requires
        clean_path(r),
    ensures
        norm_path_of(r) == r,
{
    lemma_norm_state_of_clean_prefix(r);
}

/// Normalising leaves no empty component, and normalising again changes
/// nothing.
pub proof fn lemma_norm_path_clean(s: Seq<char>)
    ensures
        clean_path(norm_path_of(s)),
        norm_path_of(norm_path_of(s)) == norm_path_of(s),
{
    lemma_norm_state_clean(s);
    lemma_norm_state_of_clean_prefix(norm_path_of(s));
}

/// Normalising a path that does not start with `/` keeps its first character.
pub proof fn lemma_norm_first(s: Seq<char>)
    requires
        s.len() > 0,
        s[0] != '/',
    ensures
        norm_path_of(s).len() > 0,
        norm_path_of(s)[0] == s[0],
    decreases s.len(),
{
    let p = s.drop_last();
    let r = norm_state(p).0;
    if s.len() > 1 {
        assert(p[0] == s[0]);
        lemma_norm_first(p);
        assert(r.len() > 0 && r[0] == s[0]);
        if s.last() != '/' {
            assert(r.push('/')[0] == s[0]);
            assert(r.push('/').push(s.last())[0] == s[0]);
            assert(r.push(s.last())[0] == s[0]);
        }
    } else {
        assert(p.len() == 0);
        assert(r.len() == 0);
        assert(s.last() == s[0]);
        assert(r.push(s[0])[0] == s[0]);
    }
}

/// The path with empty components removed: no leading, trailing or doubled `/`.
pub fn norm_path(path: &str) -> (r: String)
    ensures
        r@ == norm_path_of(path@),
        clean_path(r@),
{
    proof {
        lemma_norm_path_clean(path@);
    }
    let chars = chars_of(path);
    let mut out: Vec<char> = Vec::new();
    let mut sep = false;
    let mut i: usize = 0;
    while i < chars.len()
        invariant
            i <= chars@.len(),
            (out@, sep) == norm_state(chars@.subrange(0, i as int)),
        decreases chars@.len() - i,
    {
        let c = chars[i];
        proof {
            assert(chars@.subrange(0, i + 1).drop_last() =~= chars@.subrange(0, i as int));
        }
        if c == '/' {
            sep = true;
        } else {
            if sep && out.len() > 0 {
                out.push('/');
            }
            out.push(c);
            sep = false;
        }
        i = i + 1;
    }
    proof {
        assert(chars@.subrange(0, chars@.len() as int) =~= chars@);
    }
    string_of(out.as_slice())
}

// ---------------------------------------------------------------------------
// The archive.

struct Named {
    name: String,
    entry: CpioEntry,
}

/// A cpio archive in memory.
pub struct Cpio {
    entries: Vec<Named>,
}

/// How many of the first `n` entries are directories.
pub open spec fn dir_count(s: Seq<(Seq<char>, EntryView)>, n: int) -> int
    decreases n,
{
    if n <= 0 {
        0
    } else {
        dir_count(s, n - 1) + if s[n - 1].1.mode & S_IFMT == S_IFDIR {
            1int
        } else {
            0int
        }
    }
}

impl Cpio {
    /// The entries, in name order.
    pub closed spec fn view_entries(self) -> Seq<(Seq<char>, EntryView)> {
        self.entries@.map_values(|n: Named| (n.name@, n.entry@))
    }

    #[verifier::type_invariant]
    spec fn inv(self) -> bool {
        sorted_entries(self.view_entries())
    }

    /// An empty archive.
    pub fn new() -> (r: Cpio)
        ensures
            r.view_entries() == Seq::<(Seq<char>, EntryView)>::empty(),
    {
        let c = Cpio { entries: Vec::new() };
        proof {
            assert(c.view_entries() =~= Seq::<(Seq<char>, EntryView)>::empty());
        }
        c
    }

    /// The number of entries.
    pub fn len(&self) -> (r: usize)
        ensures
            r == self.view_entries().len(),
    {
        self.entries.len()
    }

    /// The number of entries and how many of them are directories.
    pub fn stats(&self) -> (r: (usize, usize))
        ensures
            r.0 == self.view_entries().len(),
            r.1 == dir_count(self.view_entries(), self.view_entries().len() as int),
    {
        let n = self.entries.len();
        let mut dirs: usize = 0;
        let mut i: usize = 0;
        while i < n
            invariant
                n == self.entries@.len(),
                n == self.view_entries().len(),
                i <= n,
                dirs <= i,
                dirs == dir_count(self.view_entries(), i as int),
            decreases n - i,
        {
            proof {
                assert(self.view_entries()[i as int].1 == self.entries@[i as int].entry@);
            }
            if self.entries[i].entry.mode & S_IFMT == S_IFDIR {
                dirs = dirs + 1;
            }
            i = i + 1;
        }
        (n, dirs)
    }

    /// The name of entry `i` in name order.
    pub fn name_at(&self, i: usize) -> (r: &String)
        requires
            i < self.view_entries().len(),
        ensures
            r@ == self.view_entries()[i as int].0,
    {
        &self.entries[i].name
    }

    /// Entry `i` in name order.
    pub fn entry_at(&self, i: usize) -> (r: &CpioEntry)
        requires
            i < self.view_entries().len(),
        ensures
            r@ == self.view_entries()[i as int].1,
    {
        &self.entries[i].entry
    }
}

/// The position of `name` among sorted entries, if present.
pub open spec fn index_of(s: Seq<(Seq<char>, EntryView)>, name: Seq<char>) -> Option<int> {
    if exists|i: int| 0 <= i < s.len() && #[trigger] s[i].0 == name {
        Some(choose|i: int| 0 <= i < s.len() && #[trigger] s[i].0 == name)
    } else {
        None
    }
}

/// Where `name` goes among sorted entries: the first entry not ordered
/// before it.
pub open spec fn insert_point(s: Seq<(Seq<char>, EntryView)>, name: Seq<char>, i: int) -> bool {
    &&& 0 <= i <= s.len()
    &&& forall|j: int| 0 <= j < i ==> seq_lt(#[trigger] name_key(s[j].0), name_key(name))
    &&& i < s.len() ==> !seq_lt(name_key(s[i].0), name_key(name))
}

/// The entries with `name` set to `e`: replaced in place, or inserted at
/// its place in the order.
pub open spec fn upsert(s: Seq<(Seq<char>, EntryView)>, name: Seq<char>, e: EntryView) -> Seq<(Seq<char>, EntryView)> {
    let i = choose|i: int| insert_point(s, name, i);
    if i < s.len() && s[i].0 == name {
        s.update(i, (name, e))
    } else {
        s.insert(i, (name, e))
    }
}

proof fn lemma_insert_point_unique(s: Seq<(Seq<char>, EntryView)>, name: Seq<char>, i: int, j: int)
    requires
        sorted_entries(s),
        insert_point(s, name, i),
        insert_point(s, name, j),
    ensures
        i == j,
{
    if i < j {
        assert(seq_lt(name_key(s[i].0), name_key(name)));
    } else if j < i {
        assert(seq_lt(name_key(s[j].0), name_key(name)));
    }
}

proof fn lemma_insert_point_from(s: Seq<(Seq<char>, EntryView)>, name: Seq<char>, k: int)
    requires
        0 <= k <= s.len(),
        forall|j: int| 0 <= j < k ==> seq_lt(#[trigger] name_key(s[j].0), name_key(name)),
    ensures
        exists|i: int| insert_point(s, name, i),
    decreases s.len() - k,
{
    if k == s.len() {
        assert(insert_point(s, name, k));
    } else if !seq_lt(name_key(s[k].0), name_key(name)) {
        assert(insert_point(s, name, k));
    } else {
        lemma_insert_point_from(s, name, k + 1);
    }
}

/// Setting one name keeps every other name of the archive present.
pub proof fn lemma_upsert_keeps_other(
    s: Seq<(Seq<char>, EntryView)>,
    name: Seq<char>,
    e: EntryView,
    other: Seq<char>,
)
    requires
        other != name,
        index_of(s, other) is Some,
    ensures
        index_of(upsert(s, name, e), other) is Some,
{
    lemma_insert_point_from(s, name, 0);
    let i = choose|i: int| insert_point(s, name, i);
    let j = choose|j: int| 0 <= j < s.len() && #[trigger] s[j].0 == other;
    let t = upsert(s, name, e);
    if i < s.len() && s[i].0 == name {
        assert(t[j].0 == other);
    } else if j < i {
        assert(t[j] == s[j]);
    } else {
        assert(t[j + 1] == s[j]);
    }
}

impl Cpio {
    /// Finds where `name` is or goes.
    fn locate(&self, name: &String) -> (r: (usize, bool))
        ensures
            insert_point(self.view_entries(), name@, r.0 as int),
            r.1 == (r.0 < self.view_entries().len() && self.view_entries()[r.0 as int].0 == name@),
    {
        proof {
            use_type_invariant(self);
        }
        let ghost s = self.view_entries();
        let key = name.as_str().as_bytes();
        let mut i: usize = 0;
        while i < self.entries.len()
            invariant
                i <= self.entries@.len(),
                s == self.view_entries(),
                key@ == name_key(name@),
                forall|j: int| 0 <= j < i ==> seq_lt(#[trigger] name_key(s[j].0), name_key(name@)),
            decreases self.entries@.len() - i,
        {
            let other = self.entries[i].name.as_str().as_bytes();
            let c = compare_bytes(other, key);
            if c >= 0 {
                proof {
                    if c == 0 {
                        lemma_name_key_injective(s[i as int].0, name@);
                    }
                    lemma_seq_lt_irrefl(key@);
                }
                return (i, c == 0);
            }
            i = i + 1;
        }
        (i, false)
    }

    /// Sets the entry under `name`.
    pub fn insert(&mut self, name: String, entry: CpioEntry)
        ensures
            final(self).view_entries() == upsert(old(self).view_entries(), name@, entry@),
    {
        proof {
            use_type_invariant(&*self);
        }
        let ghost s = self.view_entries();
        let (i, found) = self.locate(&name);
        proof {
            let k = choose|k: int| insert_point(s, name@, k);
            lemma_insert_point_unique(s, name@, i as int, k);
        }
        let ghost nv = name@;
        let ghost ev = entry@;
        let named = Named { name, entry };
        let mut entries: Vec<Named> = Vec::new();
        proof {
            assert(entries@.map_values(|n: Named| (n.name@, n.entry@)) =~= Seq::<(Seq<char>, EntryView)>::empty());
        }
        std::mem::swap(&mut entries, &mut self.entries);
        if found {
            entries.set(i, named);
            proof {
                assert(entries@.map_values(|n: Named| (n.name@, n.entry@)) =~= s.update(i as int, (nv, ev)));
                lemma_sorted_update(s, i as int, nv, ev);
            }
        } else {
            entries.insert(i, named);
            proof {
                assert(entries@.map_values(|n: Named| (n.name@, n.entry@)) =~= s.insert(i as int, (nv, ev)));
                lemma_sorted_insert(s, i as int, nv, ev);
            }
        }
        self.entries = entries;
    }
}

proof fn lemma_sorted_update(s: Seq<(Seq<char>, EntryView)>, i: int, name: Seq<char>, e: EntryView)
    requires
        sorted_entries(s),
        0 <= i < s.len(),
        s[i].0 == name,
    ensures
        sorted_entries(s.update(i, (name, e))),
{
    let t = s.update(i, (name, e));
    assert forall|a: int, b: int| 0 <= a < b < t.len() implies seq_lt(#[trigger] name_key(t[a].0), #[trigger] name_key(t[b].0)) by {
        assert(t[a].0 == s[a].0);
        assert(t[b].0 == s[b].0);
    }
}

#[verifier::spinoff_prover]
proof fn lemma_sorted_insert(s: Seq<(Seq<char>, EntryView)>, i: int, name: Seq<char>, e: EntryView)
    requires
        sorted_entries(s),
        insert_point(s, name, i),
        !(i < s.len() && s[i].0 == name),
    ensures
        sorted_entries(s.insert(i, (name, e))),
{
    let t = s.insert(i, (name, e));
    if i < s.len() {
        lemma_seq_lt_total(name_key(s[i].0), name_key(name));
        if name_key(s[i].0) == name_key(name) {
            lemma_name_key_injective(s[i].0, name);
        }
    }
    assert forall|a: int, b: int| 0 <= a < b < t.len() implies seq_lt(#[trigger] name_key(t[a].0), #[trigger] name_key(t[b].0)) by {
        if a < i && b < i {
            assert(t[a] == s[a] && t[b] == s[b]);
        } else if a < i && b == i {
            assert(t[a] == s[a]);
        } else if a < i && b > i {
            assert(t[a] == s[a] && t[b] == s[b - 1]);
            if b - 1 > i {
                assert(seq_lt(name_key(s[i].0), name_key(s[b - 1].0)));
                lemma_seq_lt_trans(name_key(name), name_key(s[i].0), name_key(s[b - 1].0));
            }
            lemma_seq_lt_trans(name_key(s[a].0), name_key(name), name_key(s[b - 1].0));
        } else if a == i {
            assert(t[b] == s[b - 1]);
            if b - 1 > i {
                assert(seq_lt(name_key(s[i].0), name_key(s[b - 1].0)));
                lemma_seq_lt_trans(name_key(name), name_key(s[i].0), name_key(s[b - 1].0));
            }
        } else {
            assert(t[a] == s[a - 1] && t[b] == s[b - 1]);
        }
    }
}

// ---------------------------------------------------------------------------
// Loading.

/// The value of an ASCII hexadecimal digit (either case).
pub open spec fn hex_val(b: u8) -> Option<int> {
    if 0x30 <= b <= 0x39 {
        Some(b - 0x30)
    } else if 0x61 <= b <= 0x66 {
        Some(b - 0x61 + 10)
    } else if 0x41 <= b <= 0x46 {
        Some(b - 0x41 + 10)
    } else {
        None
    }
}

/// The value of the first `n` bytes read as hexadecimal digits.
pub open spec fn hex_prefix(b: Seq<u8>, n: int) -> Option<int>
    decreases n,
{
    if n <= 0 {
        Some(0)
    } else {
        match hex_prefix(b, n - 1) {
            None => None,
            Some(v) => match hex_val(b[n - 1]) {
                None => None,
                Some(d) => Some(v * 16 + d),
            },
        }
    }
}

/// The 8-digit hexadecimal header field at `off`.
pub open spec fn hex8_at(data: Seq<u8>, off: int) -> Option<u32> {
    match hex_prefix(data.subrange(off, off + 8), 8) {
        Some(v) => Some(v as u32),
        None => None,
    }
}

proof fn lemma_hex_prefix_bound(b: Seq<u8>, n: int)
    requires
        0 <= n,
    ensures
        hex_prefix(b, n) matches Some(v) ==> 0 <= v < pow16(n),
    decreases n,
{
    if n > 0 {
        lemma_hex_prefix_bound(b, n - 1);
    }
}

pub open spec fn pow16(n: int) -> int
    decreases n,
{
    if n <= 0 {
        1
    } else {
        16 * pow16(n - 1)
    }
}

fn hex_digit_value(b: u8) -> (r: Option<u32>)
    ensures
        match hex_val(b) {
            Some(d) => r == Some(d as u32),
            None => r is None,
        },
{
    if 0x30 <= b && b <= 0x39 {
        Some((b - 0x30) as u32)
    } else if 0x61 <= b && b <= 0x66 {
        Some((b - 0x61 + 10) as u32)
    } else if 0x41 <= b && b <= 0x46 {
        Some((b - 0x41 + 10) as u32)
    } else {
        None
    }
}

/// Reads the 8-digit hexadecimal field at `off`.
fn read_hex8(data: &[u8], off: usize) -> (r: Option<u32>)
    requires
        off + 8 <= data@.len(),
    ensures
        r == hex8_at(data@, off as int),
{
    let ghost b = data@.subrange(off as int, off + 8);
    let _len = data.len();
    let mut v: u32 = 0;
    let mut i: usize = 0;
    while i < 8
        invariant
            i <= 8,
            _len == data@.len(),
            off + 8 <= data@.len(),
            b == data@.subrange(off as int, off + 8),
            hex_prefix(b, i as int) == Some(v as int),
        decreases 8 - i,
    {
        proof {
            lemma_hex_prefix_bound(b, i as int);
            reveal_with_fuel(pow16, 8);
        }
        let d = match hex_digit_value(data[off + i]) {
            Some(d) => d,
            None => {
                proof {
                    lemma_hex_none_persists(b, i as int + 1, 8);
                }
                return None;
            },
        };
        assert(b[i as int] == data@[off + i]);
        v = v * 16 + d;
        i = i + 1;
    }
    Some(v)
}

proof fn lemma_hex_none_persists(b: Seq<u8>, n: int, m: int)
    requires
        0 < n <= m,
        hex_prefix(b, n) is None,
    ensures
        hex_prefix(b, m) is None,
    decreases m - n,
{
    if n < m {
        lemma_hex_none_persists(b, n, m - 1);
    }
}

/// `x` rounded up to a multiple of 4.
pub open spec fn align4(x: int) -> int {
    if x % 4 == 0 {
        x
    } else {
        x + (4 - x % 4)
    }
}

/// Whether the six bytes at `off` are `070701`.
pub open spec fn newc_magic_at(data: Seq<u8>, off: int) -> bool {
    data.subrange(off, off + 6) == seq![0x30u8, 0x37, 0x30, 0x37, 0x30, 0x31]
}

/// Whether the six bytes at `off` are `070701` or `070702`.
pub open spec fn header_magic_at(data: Seq<u8>, off: int) -> bool {
    newc_magic_at(data, off) || data.subrange(off, off + 6) == seq![
        0x30u8,
        0x37,
        0x30,
        0x37,
        0x30,
        0x32,
    ]
}

/// The first offset at or after `from + x` where `070701` starts, relative to `from`.
pub open spec fn find_newc_from(data: Seq<u8>, from: int, x: int) -> Option<int>
    decreases data.len() - (from + x),
{
    if x < 0 || from + x + 6 > data.len() {
        None
    } else if newc_magic_at(data, from + x) {
        Some(x)
    } else {
        find_newc_from(data, from, x + 1)
    }
}

/// Where a search for the magic succeeds, it found the magic, at or after its start.
pub proof fn lemma_find_newc_range(data: Seq<u8>, from: int, x: int)
    requires
        0 <= x,
    ensures
        find_newc_from(data, from, x) matches Some(y) ==> x <= y && from + y + 6 <= data.len()
            && newc_magic_at(data, from + y),
    decreases data.len() - (from + x),
{
    if from + x + 6 <= data.len() && !newc_magic_at(data, from + x) {
        lemma_find_newc_range(data, from, x + 1);
    }
}

/// The entry name: the name field decoded, with trailing NULs removed.
pub open spec fn entry_name_of(bytes: Seq<u8>) -> Seq<char> {
    crate::text::strip_trailing(decode_utf8(bytes), '\0')
}

/// What loading does from `pos` on, with the entries read so far: `None`
/// where a header or name would reach past the end of the data.
pub open spec fn load_from(data: Seq<u8>, pos: int, acc: Seq<(Seq<char>, EntryView)>) -> Option<
    Result<Seq<(Seq<char>, EntryView)>, CpioError>,
>
    decreases data.len() - pos,
{
    let len = data.len() as int;
    if pos < 0 || pos >= len || pos + HEADER_SIZE > len {
        Some(Ok(acc))
    } else if !header_magic_at(data, pos) {
        Some(Err(CpioError::InvalidMagic))
    } else {
        match hex8_at(data, pos + 94) {
            None => Some(Err(CpioError::BadHeader)),
            Some(ns) => {
                let p1 = pos + HEADER_SIZE;
                if p1 + ns > len {
                    Some(Ok(acc))
                } else if !valid_utf8(data.subrange(p1, p1 + ns)) {
                    Some(Err(CpioError::NonUtf8Name))
                } else {
                    let name = entry_name_of(data.subrange(p1, p1 + ns));
                    let p2 = align4(p1 + ns);
                    if name == "."@ || name == ".."@ {
                        if p2 >= len {
                            Some(Ok(acc))
                        } else {
                            load_from(data, p2, acc)
                        }
                    } else if name == "TRAILER!!!"@ {
                        if p2 > len {
                            None
                        } else {
                            match find_newc_from(data, p2, 0) {
                                None => Some(Ok(acc)),
                                Some(x) => {
                                    proof {
                                        lemma_find_newc_range(data, p2, 0);
                                    }
                                    load_from(data, p2 + x, acc)
                                },
                            }
                        }
                    } else {
                        match hex8_at(data, pos + 54) {
                            None => Some(Err(CpioError::BadHeader)),
                            Some(fs) => {
                                let de = p2 + fs;
                                if de > len {
                                    Some(Ok(acc))
                                } else {
                                    match (
                                        hex8_at(data, pos + 14),
                                        hex8_at(data, pos + 22),
                                        hex8_at(data, pos + 30),
                                        hex8_at(data, pos + 78),
                                        hex8_at(data, pos + 86),
                                    ) {
                                        (Some(mode), Some(uid), Some(gid), Some(maj), Some(min)) => {
                                            let e = EntryView {
                                                mode,
                                                uid,
                                                gid,
                                                rdevmajor: maj,
                                                rdevminor: min,
                                                data: data.subrange(p2, de),
                                            };
                                            let next = align4(de);
                                            let acc2 = upsert(acc, name, e);
                                            if next >= len {
                                                Some(Ok(acc2))
                                            } else {
                                                load_from(data, next, acc2)
                                            }
                                        },
                                        _ => Some(Err(CpioError::BadHeader)),
                                    }
                                }
                            },
                        }
                    }
                }
            },
        }
    }
}

/// Whether the six bytes at `off` are `07070` followed by `last`.
fn magic_at(data: &[u8], off: usize, last: u8) -> (r: bool)
    requires
        off + 6 <= data@.len(),
    ensures
        r == (data@.subrange(off as int, off + 6) == seq![0x30u8, 0x37, 0x30, 0x37, 0x30, last]),
{
    let r = data[off] == 0x30 && data[off + 1] == 0x37 && data[off + 2] == 0x30 && data[off + 3]
        == 0x37 && data[off + 4] == 0x30 && data[off + 5] == last;
    proof {
        let w = data@.subrange(off as int, off + 6);
        let m = seq![0x30u8, 0x37, 0x30, 0x37, 0x30, last];
        if r {
            assert(w =~= m);
        } else if w == m {
            assert(w[0] == m[0] && w[1] == m[1] && w[2] == m[2] && w[3] == m[3] && w[4] == m[4]
                && w[5] == m[5]);
        }
    }
    r
}

/// `x` rounded up to a multiple of 4.
fn align_4(x: usize) -> (r: usize)
    requires
        x + 3 <= usize::MAX,
    ensures
        r == align4(x as int),
{
    if x % 4 == 0 {
        x
    } else {
        x + (4 - x % 4)
    }
}

/// The first offset at or after `from` where `070701` starts, relative to
/// `from`.
fn find_newc(data: &[u8], from: usize) -> (r: Option<usize>)
    requires
        from <= data@.len(),
    ensures
        r matches Some(x) ==> find_newc_from(data@, from as int, 0) == Some(x as int),
        r is None ==> find_newc_from(data@, from as int, 0) is None,
{
    let len = data.len();
    let mut x: usize = 0;
    while x <= len - from && len - from - x >= 6
        invariant
            from <= len,
            len == data@.len(),
            find_newc_from(data@, from as int, 0) == find_newc_from(data@, from as int, x as int),
        decreases len - from - x,
    {
        if magic_at(data, from + x, 0x31) {
            return Some(x);
        }
        x = x + 1;
    }
    None
}

impl Cpio {
    /// Reads a newc archive, or `None` where the bytes would be read past
    /// their end (a `TRAILER!!!` entry whose padding is cut off).
    pub fn load_checked(data: &[u8]) -> (r: Option<Result<Cpio, CpioError>>)
        requires
            data@.len() + 3 <= usize::MAX,
        ensures
            match load_from(data@, 0, Seq::empty()) {
                None => r is None,
                Some(Ok(s)) => r matches Some(Ok(c)) && c.view_entries() == s,
                Some(Err(e)) => r matches Some(Err(f)) && f == e,
            },
    {
        let mut cpio = Cpio::new();
        let len = data.len();
        let mut pos: usize = 0;
        while pos < len
            invariant
                len == data@.len(),
                len + 3 <= usize::MAX,
                load_from(data@, 0, Seq::empty()) == load_from(data@, pos as int, cpio.view_entries()),
            decreases len - pos,
        {
            let ghost acc = cpio.view_entries();
            if len - pos < HEADER_SIZE {
                return Some(Ok(cpio));
            }
            if !magic_at(data, pos, 0x31) && !magic_at(data, pos, 0x32) {
                return Some(Err(CpioError::InvalidMagic));
            }
            let ns = match read_hex8(data, pos + 94) {
                Some(v) => v,
                None => return Some(Err(CpioError::BadHeader)),
            };
            let p1 = pos + HEADER_SIZE;
            if ns as usize > len - p1 {
                return Some(Ok(cpio));
            }
            let name_end = p1 + ns as usize;
            let raw = match utf8_string(vstd::slice::slice_subrange(data, p1, name_end)) {
                Some(s) => s,
                None => return Some(Err(CpioError::NonUtf8Name)),
            };
            let name = trim_end_char(raw.as_str(), '\0');
            let p2 = align_4(name_end);
            if str_eq(name.as_str(), ".") || str_eq(name.as_str(), "..") {
                if p2 >= len {
                    return Some(Ok(cpio));
                }
                pos = p2;
            } else if str_eq(name.as_str(), "TRAILER!!!") {
                if p2 > len {
                    return None;
                }
                match find_newc(data, p2) {
                    None => return Some(Ok(cpio)),
                    Some(x) => {
                        proof {
                            lemma_find_newc_range(data@, p2 as int, 0);
                        }
                        pos = p2 + x;
                    },
                }
            } else {
                let fs = match read_hex8(data, pos + 54) {
                    Some(v) => v,
                    None => return Some(Err(CpioError::BadHeader)),
                };
                if p2 > len || fs as usize > len - p2 {
                    return Some(Ok(cpio));
                }
                let de = p2 + fs as usize;
                let mode = read_hex8(data, pos + 14);
                let uid = read_hex8(data, pos + 22);
                let gid = read_hex8(data, pos + 30);
                let maj = read_hex8(data, pos + 78);
                let min = read_hex8(data, pos + 86);
                match (mode, uid, gid, maj, min) {
                    (Some(mode), Some(uid), Some(gid), Some(rdevmajor), Some(rdevminor)) => {
                        let entry = CpioEntry {
                            mode,
                            uid,
                            gid,
                            rdevmajor,
                            rdevminor,
                            data: vstd::slice::slice_to_vec(vstd::slice::slice_subrange(data, p2, de)),
                        };
                        cpio.insert(name, entry);
                        let next = align_4(de);
                        if next >= len {
                            return Some(Ok(cpio));
                        }
                        pos = next;
                    },
                    _ => return Some(Err(CpioError::BadHeader)),
                }
            }
        }
        Some(Ok(cpio))
    }

    /// Reads a newc archive: entries in name order, a later entry replacing
    /// an earlier one of the same name; `.` and `..` are skipped, and after
    /// `TRAILER!!!` reading goes on at the next `070701`, if any.
    pub fn load_from_data(data: &[u8]) -> (r: Result<Cpio, CpioError>)
        requires
            data@.len() + 3 <= usize::MAX,
            load_from(data@, 0, Seq::empty()) is Some,
        ensures
            match load_from(data@, 0, Seq::empty()) {
                Some(Ok(s)) => r matches Ok(c) && c.view_entries() == s,
                Some(Err(e)) => r == Err::<Cpio, CpioError>(e),
                None => false,
            },
    {
        match Cpio::load_checked(data) {
            Some(r) => r,
            None => Err(CpioError::BadHeader),
        }
    }
}

// ---------------------------------------------------------------------------
// Writing.

/// The lowercase hexadecimal digit of `d < 16`.
pub open spec fn hex_char(d: int) -> u8 {
    if d < 10 {
        (0x30 + d) as u8
    } else {
        (0x61 + d - 10) as u8
    }
}

/// The last `n` hexadecimal digits of `v`, most significant first.
pub open spec fn hex_width(v: nat, n: nat) -> Seq<u8>
    decreases n,
{
    if n == 0 {
        seq![]
    } else {
        hex_width(v / 16, (n - 1) as nat).push(hex_char((v % 16) as int))
    }
}

/// The number of hexadecimal digits of `v`.
pub open spec fn hex_len(v: nat) -> nat
    decreases v,
{
    if v < 16 {
        1
    } else {
        1 + hex_len(v / 16)
    }
}

/// `{:08x}`: lowercase hexadecimal, at least eight digits.
pub open spec fn hex_field(v: nat) -> Seq<u8> {
    hex_width(v, if hex_len(v) < 8 { 8 } else { hex_len(v) })
}

/// The fields one after the other, each as `{:08x}`.
pub open spec fn hex_fields(fs: Seq<nat>) -> Seq<u8>
    decreases fs.len(),
{
    if fs.len() == 0 {
        seq![]
    } else {
        hex_field(fs[0]) + hex_fields(fs.drop_first())
    }
}

pub open spec fn newc_magic() -> Seq<u8> {
    seq![0x30u8, 0x37, 0x30, 0x37, 0x30, 0x31]
}

/// `b` followed by zeros up to a multiple of 4.
pub open spec fn pad4(b: Seq<u8>) -> Seq<u8> {
    b + Seq::new((align4(b.len() as int) - b.len()) as nat, |i: int| 0u8)
}

/// One member as written: header, name and NUL, padding, data, padding.
pub open spec fn entry_record(ino: u32, name: Seq<char>, e: EntryView) -> Seq<u8> {
    let nb = encode_utf8(name);
    let header = newc_magic() + hex_fields(
        seq![
            ino as nat,
            e.mode as nat,
            e.uid as nat,
            e.gid as nat,
            1,
            0,
            e.data.len(),
            0,
            0,
            e.rdevmajor as nat,
            e.rdevminor as nat,
            nb.len() + 1,
            0,
        ],
    );
    pad4(pad4(header + nb + seq![0u8]) + e.data)
}

/// The bytes of `TRAILER!!!` and its NUL.
pub open spec fn trailer_name() -> Seq<u8> {
    seq![0x54u8, 0x52, 0x41, 0x49, 0x4c, 0x45, 0x52, 0x21, 0x21, 0x21, 0x00]
}

/// The closing `TRAILER!!!` member.
pub open spec fn trailer_record(ino: u32) -> Seq<u8> {
    pad4(
        newc_magic() + hex_fields(seq![ino as nat, 0o755, 0, 0, 1, 0, 0, 0, 0, 0, 0, 11, 0])
            + trailer_name(),
    )
}

/// The inode number of member `k`: counted from 300000, wrapping.
pub open spec fn inode_of(k: int) -> u32 {
    ((300000 + k) % 0x1_0000_0000) as u32
}

/// The records of the first `n` entries.
pub open spec fn dump_prefix(s: Seq<(Seq<char>, EntryView)>, n: int) -> Seq<u8>
    decreases n,
{
    if n <= 0 {
        seq![]
    } else {
        dump_prefix(s, n - 1) + entry_record(inode_of(n - 1), s[n - 1].0, s[n - 1].1)
    }
}

/// An archive as written: each entry in order, then the trailer.
pub open spec fn dump_bytes(s: Seq<(Seq<char>, EntryView)>) -> Seq<u8> {
    dump_prefix(s, s.len() as int) + trailer_record(inode_of(s.len() as int))
}

proof fn lemma_hex_len_bound(v: nat, k: nat)
    requires
        1 <= k,
        v < pow16(k as int),
    ensures
        hex_len(v) <= k,
    decreases k,
{
    if v >= 16 {
        if k == 1 {
            assert(pow16(1) == 16) by {
                reveal_with_fuel(pow16, 2);
            }
        } else {
            assert(pow16(k as int) == 16 * pow16(k - 1));
            lemma_hex_len_bound(v / 16, (k - 1) as nat);
        }
    }
}

proof fn lemma_pad4_len(b: Seq<u8>)
    ensures
        pad4(b).len() == align4(b.len() as int),
        pad4(b).len() % 4 == 0,
        pad4(b).subrange(0, b.len() as int) == b,
{
    assert(pad4(b).subrange(0, b.len() as int) =~= b);
}

/// Appends `v` as `{:08x}`.
fn push_hex_field(out: &mut Vec<u8>, v: u128)
    ensures
        final(out)@ == old(out)@ + hex_field(v as nat),
{
    let mut n: usize = 1;
    let mut x: u128 = v;
    proof {
        assert(pow16(32) > u128::MAX) by {
            reveal_with_fuel(pow16, 33);
        }
        lemma_hex_len_bound(v as nat, 32);
    }
    while x >= 16
        invariant
            hex_len(v as nat) == (n - 1) + hex_len(x as nat),
            hex_len(v as nat) <= 32,
            1 <= n,
        decreases x,
    {
        x = x / 16;
        n = n + 1;
    }
    let w: usize = if n < 8 {
        8
    } else {
        n
    };
    let mut digits: Vec<u8> = vec![0u8; w];
    let mut k: usize = w;
    let mut y: u128 = v;
    proof {
        assert(digits@.subrange(w as int, w as int) =~= Seq::<u8>::empty());
        assert(hex_width(v as nat, w as nat) =~= hex_width(v as nat, w as nat) + Seq::<u8>::empty());
    }
    while k > 0
        invariant
            k <= w,
            digits@.len() == w,
            hex_width(v as nat, w as nat) == hex_width(y as nat, k as nat) + digits@.subrange(
                k as int,
                w as int,
            ),
        decreases k,
    {
        let d = (y % 16) as u8;
        let c: u8 = if d < 10 {
            0x30 + d
        } else {
            0x61 + d - 10
        };
        let ghost old_digits = digits@;
        digits.set(k - 1, c);
        proof {
            assert(digits@.subrange(k - 1, w as int) =~= seq![c] + old_digits.subrange(
                k as int,
                w as int,
            ));
            assert(hex_width(y as nat, k as nat) == hex_width((y / 16) as nat, (k - 1) as nat).push(
                c,
            ));
            assert(hex_width((y / 16) as nat, (k - 1) as nat).push(c) + old_digits.subrange(
                k as int,
                w as int,
            ) =~= hex_width((y / 16) as nat, (k - 1) as nat) + (seq![c] + old_digits.subrange(
                k as int,
                w as int,
            )));
        }
        y = y / 16;
        k = k - 1;
    }
    proof {
        assert(hex_width(y as nat, 0) =~= Seq::<u8>::empty());
        assert(digits@.subrange(0, w as int) =~= digits@);
        assert(Seq::<u8>::empty() + digits@ =~= digits@);
    }
    let ghost before = out@;
    out.extend_from_slice(digits.as_slice());
    proof {
        assert(out@ =~= before + digits@);
    }
}

/// Appends zeros up to the next multiple of 4 of `out.len() - start`.
fn push_pad(out: &mut Vec<u8>, start: usize)
    requires
        start <= old(out)@.len(),
    ensures
        final(out)@ == old(out)@ + Seq::new(
            (align4(old(out)@.len() - start) - (old(out)@.len() - start)) as nat,
            |i: int| 0u8,
        ),
{
    let rel = out.len() - start;
    let pad: usize = if rel % 4 == 0 {
        0
    } else {
        4 - rel % 4
    };
    let ghost before = out@;
    let mut i: usize = 0;
    while i < pad
        invariant
            i <= pad,
            out@ == before + Seq::new(i as nat, |j: int| 0u8),
        decreases pad - i,
    {
        out.push(0);
        i = i + 1;
        proof {
            assert(out@ =~= before + Seq::new(i as nat, |j: int| 0u8));
        }
    }
}

proof fn lemma_align_shift(r: int, k: int)
    requires
        r >= 0,
        k >= 0,
        r % 4 == 0,
    ensures
        align4(r + k) - (r + k) == align4(k) - k,
{
    assert((r + k) % 4 == k % 4);
}

/// Appends the magic and the thirteen header fields.
fn push_header(out: &mut Vec<u8>, f: [u128; 13])
    ensures
        final(out)@ == old(out)@ + newc_magic() + hex_fields(
            seq![
                f[0] as nat,
                f[1] as nat,
                f[2] as nat,
                f[3] as nat,
                f[4] as nat,
                f[5] as nat,
                f[6] as nat,
                f[7] as nat,
                f[8] as nat,
                f[9] as nat,
                f[10] as nat,
                f[11] as nat,
                f[12] as nat,
            ],
        ),
{
    let ghost before = out@;
    let ghost fs = seq![
        f[0] as nat,
        f[1] as nat,
        f[2] as nat,
        f[3] as nat,
        f[4] as nat,
        f[5] as nat,
        f[6] as nat,
        f[7] as nat,
        f[8] as nat,
        f[9] as nat,
        f[10] as nat,
        f[11] as nat,
        f[12] as nat,
    ];
    out.push(0x30);
    out.push(0x37);
    out.push(0x30);
    out.push(0x37);
    out.push(0x30);
    out.push(0x31);
    proof {
        assert(out@ =~= before + newc_magic());
        assert(fs.skip(0) =~= fs);
    }
    let mut j: usize = 0;
    while j < 13
        invariant
            j <= 13,
            fs.len() == 13,
            forall|k: int| 0 <= k < 13 ==> fs[k] == f[k] as nat,
            out@ + hex_fields(fs.skip(j as int)) == before + newc_magic() + hex_fields(fs),
        decreases 13 - j,
    {
        let ghost mid = out@;
        push_hex_field(out, f[j]);
        proof {
            assert(fs.skip(j as int).drop_first() =~= fs.skip(j + 1));
            assert(fs.skip(j as int)[0] == f[j as int] as nat);
            assert(hex_fields(fs.skip(j as int)) == hex_field(f[j as int] as nat) + hex_fields(
                fs.skip(j + 1),
            ));
            assert(mid + hex_fields(fs.skip(j as int)) =~= out@ + hex_fields(fs.skip(j + 1)));
        }
        j = j + 1;
    }
    proof {
        assert(hex_fields(fs.skip(13)) =~= Seq::<u8>::empty());
        assert(out@ + Seq::<u8>::empty() =~= out@);
    }
}

/// Appends one member's record; `start` is where writing began.
fn push_entry(out: &mut Vec<u8>, start: usize, inode: u32, name: &String, e: &CpioEntry)
    requires
        start <= old(out)@.len(),
        (old(out)@.len() - start) % 4 == 0,
    ensures
        final(out)@ == old(out)@ + entry_record(inode, name@, e@),
{
    let nb = name.as_str().as_bytes();
    let ghost rec_start = out@;
    push_header(
        out,
        [
            inode as u128,
            e.mode as u128,
            e.uid as u128,
            e.gid as u128,
            1,
            0,
            e.data.len() as u128,
            0,
            0,
            e.rdevmajor as u128,
            e.rdevminor as u128,
            nb.len() as u128 + 1,
            0,
        ],
    );
    out.extend_from_slice(nb);
    out.push(0);
    let ghost a = out@;
    push_pad(out, start);
    let ghost b = out@;
    out.extend_from_slice(e.data.as_slice());
    let ghost c = out@;
    push_pad(out, start);
    proof {
        let r = (rec_start.len() - start) as int;
        let h = a.subrange(rec_start.len() as int, a.len() as int);
        assert(a =~= rec_start + h);
        lemma_align_shift(r, h.len() as int);
        assert(b =~= rec_start + pad4(h));
        let g = c.subrange(rec_start.len() as int, c.len() as int);
        assert(g =~= pad4(h) + e@.data);
        assert(c =~= rec_start + g);
        lemma_pad4_len(h);
        lemma_align_shift(r, g.len() as int);
        assert(final(out)@ =~= rec_start + pad4(g));
    }
}

/// An archive as written is a whole number of 4-byte words.
pub proof fn lemma_dump_bytes_aligned(s: Seq<(Seq<char>, EntryView)>)
    ensures
        dump_bytes(s).len() % 4 == 0,
{
    lemma_dump_prefix_aligned(s, s.len() as int);
    lemma_pad4_len(
        newc_magic() + hex_fields(seq![inode_of(s.len() as int) as nat, 0o755, 0, 0, 1, 0, 0, 0, 0, 0, 0, 11, 0])
            + trailer_name(),
    );
}

/// Writing the record of entry `i` after the first `i` extends the prefix.
proof fn lemma_dump_step(init: Seq<u8>, s: Seq<(Seq<char>, EntryView)>, i: int)
    requires
        0 <= i,
    ensures
        init + dump_prefix(s, i) + entry_record(inode_of(i), s[i].0, s[i].1) == init + dump_prefix(
            s,
            i + 1,
        ),
{
    let r = entry_record(inode_of(i), s[i].0, s[i].1);
    assert(dump_prefix(s, i + 1) == dump_prefix(s, i) + r);
    assert(init + dump_prefix(s, i) + r =~= init + (dump_prefix(s, i) + r));
}

impl Cpio {
    /// Writes the archive after the bytes already in `out`: each entry in
    /// name order with inode numbers from 300000, then the trailer; every
    /// record padded to a multiple of 4 counted from where writing began.
    #[verifier::spinoff_prover]
    pub fn dump_to(&self, out: &mut Vec<u8>)
        ensures
            final(out)@ == old(out)@ + dump_bytes(self.view_entries()),
            (final(out)@.len() - old(out)@.len()) % 4 == 0,
    {
        let ghost s = self.view_entries();
        let ghost init = out@;
        let start = out.len();
        let mut inode: u32 = 300000;
        let mut i: usize = 0;
        proof {
            assert(out@ =~= init + dump_prefix(s, 0));
        }
        while i < self.entries.len()
            invariant
                i <= self.entries@.len(),
                s == self.view_entries(),
                s.len() == self.entries@.len(),
                start == init.len(),
                out@ == init + dump_prefix(s, i as int),
                inode == inode_of(i as int),
            decreases self.entries@.len() - i,
        {
            proof {
                lemma_dump_prefix_aligned(s, i as int);
            }
            let named = &self.entries[i];
            push_entry(out, start, inode, &named.name, &named.entry);
            proof {
                assert(s[i as int].0 == named.name@ && s[i as int].1 == named.entry@);
                lemma_dump_step(init, s, i as int);
            }
            inode = inode.wrapping_add(1);
            i = i + 1;
        }
        proof {
            lemma_dump_prefix_aligned(s, i as int);
        }
        let ghost rec_start = out@;
        push_header(out, [inode as u128, 0o755, 0, 0, 1, 0, 0, 0, 0, 0, 0, 11, 0]);
        let tn: [u8; 11] = [0x54, 0x52, 0x41, 0x49, 0x4c, 0x45, 0x52, 0x21, 0x21, 0x21, 0x00];
        out.extend_from_slice(&tn);
        let ghost a = out@;
        push_pad(out, start);
        proof {
            lemma_dump_bytes_aligned(s);
            let d = dump_prefix(s, i as int);
            assert(tn@ =~= trailer_name());
            let h = a.subrange(rec_start.len() as int, a.len() as int);
            assert(a =~= rec_start + h);
            lemma_align_shift(d.len() as int, h.len() as int);
            assert(out@ =~= rec_start + pad4(h));
            assert(pad4(h) == trailer_record(inode_of(i as int)));
        }
    }
}

proof fn lemma_dump_prefix_aligned(s: Seq<(Seq<char>, EntryView)>, n: int)
    ensures
        dump_prefix(s, n).len() % 4 == 0,
    decreases n,
{
    if n > 0 {
        lemma_dump_prefix_aligned(s, n - 1);
        let k = n - 1;
        let nb = encode_utf8(s[k].0);
        let ev = s[k].1;
        let header = newc_magic() + hex_fields(
            seq![
                inode_of(k) as nat,
                ev.mode as nat,
                ev.uid as nat,
                ev.gid as nat,
                1,
                0,
                ev.data.len(),
                0,
                0,
                ev.rdevmajor as nat,
                ev.rdevminor as nat,
                nb.len() + 1,
                0,
            ],
        );
        lemma_pad4_len(pad4(header + nb + seq![0u8]) + ev.data);
    }
}

// ---------------------------------------------------------------------------
// What loading gives back of what was written.

proof fn lemma_hex_width_len(v: nat, n: nat)
    ensures
        hex_width(v, n).len() == n,
    decreases n,
{
    if n > 0 {
        lemma_hex_width_len(v / 16, (n - 1) as nat);
    }
}

proof fn lemma_hex_prefix_agree(a: Seq<u8>, b: Seq<u8>, n: int)
    requires
        0 <= n <= a.len(),
        n <= b.len(),
        forall|k: int| 0 <= k < n ==> a[k] == b[k],
    ensures
        hex_prefix(a, n) == hex_prefix(b, n),
    decreases n,
{
    if n > 0 {
        lemma_hex_prefix_agree(a, b, n - 1);
    }
}

proof fn lemma_hex_width_value(v: nat, n: nat)
    requires
        v < pow16(n as int),
    ensures
        hex_prefix(hex_width(v, n), n as int) == Some(v as int),
    decreases n,
{
    if n > 0 {
        let w = hex_width(v, n);
        let u = hex_width(v / 16, (n - 1) as nat);
        lemma_hex_width_len(v / 16, (n - 1) as nat);
        assert(pow16(n as int) == 16 * pow16(n - 1));
        lemma_hex_width_value(v / 16, (n - 1) as nat);
        lemma_hex_prefix_agree(w, u, n - 1);
        assert(w[n - 1] == hex_char((v % 16) as int));
        assert(hex_val(hex_char((v % 16) as int)) == Some((v % 16) as int));
    } else {
        assert(pow16(0) == 1);
    }
}

/// Below 2^32 a field is exactly eight digits, which read back as its value.
proof fn lemma_hex_field_small(v: nat)
    requires
        v < 0x1_0000_0000,
    ensures
        hex_field(v) == hex_width(v, 8),
        hex_field(v).len() == 8,
        hex_prefix(hex_field(v), 8) == Some(v as int),
{
    assert(pow16(8) == 0x1_0000_0000) by {
        reveal_with_fuel(pow16, 9);
    }
    lemma_hex_len_bound(v, 8);
    lemma_hex_width_len(v, 8);
    lemma_hex_width_value(v, 8);
}

/// Fields below 2^32 take eight bytes each, in order.
proof fn lemma_hex_fields_small(fs: Seq<nat>)
    requires
        forall|k: int| 0 <= k < fs.len() ==> fs[k] < 0x1_0000_0000,
    ensures
        hex_fields(fs).len() == 8 * fs.len(),
        forall|k: int|
            0 <= k < fs.len() ==> #[trigger] hex_fields(fs).subrange(8 * k, 8 * k + 8)
                == hex_field(fs[k]),
    decreases fs.len(),
{
    if fs.len() > 0 {
        let t = fs.drop_first();
        lemma_hex_fields_small(t);
        lemma_hex_field_small(fs[0]);
        let h = hex_fields(fs);
        assert forall|k: int| 0 <= k < fs.len() implies #[trigger] h.subrange(8 * k, 8 * k + 8)
            == hex_field(fs[k]) by {
            if k == 0 {
                assert(h.subrange(0, 8) =~= hex_field(fs[0]));
            } else {
                assert(t[k - 1] == fs[k]);
                assert(hex_fields(t).subrange(8 * (k - 1), 8 * (k - 1) + 8) == hex_field(t[k - 1]));
                assert(h.subrange(8 * k, 8 * k + 8) =~= hex_fields(t).subrange(
                    8 * (k - 1),
                    8 * (k - 1) + 8,
                ));
            }
        }
    }
}

proof fn lemma_hex8_in(data: Seq<u8>, at: int, fs: Seq<nat>, k: int)
    requires
        forall|j: int| 0 <= j < fs.len() ==> fs[j] < 0x1_0000_0000,
        0 <= k < fs.len(),
        0 <= at,
        at + 8 * fs.len() <= data.len(),
        data.subrange(at, at + 8 * fs.len()) == hex_fields(fs),
    ensures
        hex8_at(data, at + 8 * k) == Some(fs[k] as u32),
{
    lemma_hex_fields_small(fs);
    lemma_hex_field_small(fs[k]);
    assert(data.subrange(at + 8 * k, at + 8 * k + 8) =~= hex_fields(fs).subrange(8 * k, 8 * k + 8));
}

proof fn lemma_encode_utf8_concat(a: Seq<char>, b: Seq<char>)
    ensures
        encode_utf8(a + b) == encode_utf8(a) + encode_utf8(b),
    decreases a.len(),
{
    if a.len() > 0 {
        assert((a + b).drop_first() =~= a.drop_first() + b);
        lemma_encode_utf8_concat(a.drop_first(), b);
        assert(encode_utf8(a + b) =~= encode_scalar(a[0] as u32) + (encode_utf8(a.drop_first())
            + encode_utf8(b)));
    } else {
        assert(a + b =~= b);
    }
}

/// A name written with its NUL reads back as itself, unless it ends in NUL.
proof fn lemma_name_read_back(name: Seq<char>)
    requires
        name.len() == 0 || name.last() != '\0',
    ensures
        valid_utf8(encode_utf8(name) + seq![0u8]),
        entry_name_of(encode_utf8(name) + seq![0u8]) == name,
{
    let z = seq!['\0'];
    vstd::utf8::is_ascii_chars_encode_utf8(z);
    assert(encode_utf8(z) =~= seq![0u8]);
    lemma_encode_utf8_concat(name, z);
    vstd::utf8::encode_utf8_valid_utf8(name + z);
    vstd::utf8::encode_utf8_decode_utf8(name + z);
    assert(encode_utf8(name + z) == encode_utf8(name) + seq![0u8]);
    assert(decode_utf8(encode_utf8(name) + seq![0u8]) == name + z);
    assert((name + z).drop_last() =~= name);
    assert(crate::text::strip_trailing(name, '\0') == name);
    assert(crate::text::strip_trailing(name + z, '\0') == crate::text::strip_trailing(name, '\0'));
}

/// What a member must be for it to read back as written: not a name that
/// loading skips or stops at, no trailing NUL, and sizes that fit the
/// eight-digit fields.
pub open spec fn entry_round_trips(name: Seq<char>, e: EntryView) -> bool {
    &&& name != "."@
    &&& name != ".."@
    &&& name != "TRAILER!!!"@
    &&& (name.len() == 0 || name.last() != '\0')
    &&& encode_utf8(name).len() + 1 < 0x1_0000_0000
    &&& e.data.len() < 0x1_0000_0000
}

#[verifier::spinoff_prover]
#[verifier::rlimit(40)]
proof fn lemma_load_entry(
    data: Seq<u8>,
    off: int,
    acc: Seq<(Seq<char>, EntryView)>,
    ino: u32,
    name: Seq<char>,
    e: EntryView,
)
    requires
        0 <= off,
        off % 4 == 0,
        entry_round_trips(name, e),
        off + entry_record(ino, name, e).len() < data.len(),
        data.subrange(off, off + entry_record(ino, name, e).len()) == entry_record(ino, name, e),
    ensures
        load_from(data, off, acc) == load_from(
            data,
            off + entry_record(ino, name, e).len(),
            upsert(acc, name, e),
        ),
{
    let nb = encode_utf8(name);
    let ns = nb.len() + 1;
    let fs = seq![
        ino as nat,
        e.mode as nat,
        e.uid as nat,
        e.gid as nat,
        1,
        0,
        e.data.len(),
        0,
        0,
        e.rdevmajor as nat,
        e.rdevminor as nat,
        nb.len() + 1,
        0,
    ];
    let hdr = newc_magic() + hex_fields(fs);
    let a = hdr + nb + seq![0u8];
    let p = pad4(a);
    let b = p + e.data;
    let r = pad4(b);
    assert(r == entry_record(ino, name, e));
    assert forall|k: int| 0 <= k < fs.len() implies fs[k] < 0x1_0000_0000 by {}
    lemma_hex_fields_small(fs);
    lemma_pad4_len(a);
    lemma_pad4_len(b);
    assert(hdr.len() == 110);
    assert forall|k: int| 0 <= k < a.len() implies data[off + k] == a[k] by {
        assert(r[k] == b[k]);
        assert(b[k] == p[k]);
        assert(p[k] == a[k]);
        assert(data.subrange(off, off + r.len())[k] == data[off + k]);
    }
    assert forall|k: int| 0 <= k < e.data.len() implies data[off + p.len() + k] == e.data[k] by {
        assert(r[p.len() + k] == b[p.len() + k]);
        assert(data.subrange(off, off + r.len())[p.len() + k] == data[off + p.len() + k]);
    }
    // The header.
    assert(data.subrange(off, off + 6) =~= newc_magic()) by {
        assert forall|k: int| 0 <= k < 6 implies data.subrange(off, off + 6)[k] == newc_magic()[k] by {
            assert(a[k] == hdr[k]);
        }
    }
    assert(data.subrange(off + 6, off + 110) =~= hex_fields(fs)) by {
        assert forall|k: int| 0 <= k < 104 implies data.subrange(off + 6, off + 110)[k] == hex_fields(
            fs,
        )[k] by {
            assert(a[6 + k] == hdr[6 + k]);
        }
    }
    lemma_hex8_in(data, off + 6, fs, 1);
    lemma_hex8_in(data, off + 6, fs, 2);
    lemma_hex8_in(data, off + 6, fs, 3);
    lemma_hex8_in(data, off + 6, fs, 6);
    lemma_hex8_in(data, off + 6, fs, 9);
    lemma_hex8_in(data, off + 6, fs, 10);
    lemma_hex8_in(data, off + 6, fs, 11);
    assert(header_magic_at(data, off));
    assert(hex8_at(data, off + 94) == Some(ns as u32));
    // The name.
    let p1 = off + 110;
    assert(data.subrange(p1, p1 + ns) =~= nb + seq![0u8]) by {
        assert forall|k: int| 0 <= k < ns implies data.subrange(p1, p1 + ns)[k] == (nb + seq![0u8])[k] by {
            assert(a[110 + k] == (nb + seq![0u8])[k]);
        }
    }
    lemma_name_read_back(name);
    // The data.
    lemma_align_shift(off, 110 + ns as int);
    let p2 = align4(p1 + ns);
    assert(p2 == off + p.len());
    let de = p2 + e.data.len();
    assert(data.subrange(p2, de) =~= e.data);
    let e2 = EntryView {
        mode: e.mode,
        uid: e.uid,
        gid: e.gid,
        rdevmajor: e.rdevmajor,
        rdevminor: e.rdevminor,
        data: data.subrange(p2, de),
    };
    assert(e2 == e);
    lemma_align_shift(off, b.len() as int);
    assert(align4(de) == off + r.len());
}

proof fn lemma_load_trailer(data: Seq<u8>, off: int, acc: Seq<(Seq<char>, EntryView)>, ino: u32)
    requires
        0 <= off <= data.len(),
        off % 4 == 0,
        data.subrange(off, data.len() as int) == trailer_record(ino),
    ensures
        load_from(data, off, acc) == Some(Ok::<Seq<(Seq<char>, EntryView)>, CpioError>(acc)),
{
    let fs = seq![ino as nat, 0o755, 0, 0, 1, 0, 0, 0, 0, 0, 0, 11, 0];
    let a = newc_magic() + hex_fields(fs) + trailer_name();
    let r = pad4(a);
    assert forall|k: int| 0 <= k < fs.len() implies fs[k] < 0x1_0000_0000 by {}
    lemma_hex_fields_small(fs);
    lemma_pad4_len(a);
    assert(a.len() == 121);
    assert(data.len() == off + 124);
    assert forall|k: int| 0 <= k < a.len() implies data[off + k] == a[k] by {
        assert(r[k] == a[k]);
        assert(data.subrange(off, data.len() as int)[k] == data[off + k]);
    }
    assert(data.subrange(off, off + 6) =~= newc_magic()) by {
        assert forall|k: int| 0 <= k < 6 implies data.subrange(off, off + 6)[k] == newc_magic()[k] by {
            assert(a[k] == newc_magic()[k]);
        }
    }
    assert(data.subrange(off + 6, off + 110) =~= hex_fields(fs)) by {
        assert forall|k: int| 0 <= k < 104 implies data.subrange(off + 6, off + 110)[k] == hex_fields(
            fs,
        )[k] by {
            assert(a[6 + k] == hex_fields(fs)[k]);
        }
    }
    lemma_hex8_in(data, off + 6, fs, 11);
    assert(header_magic_at(data, off));
    assert(hex8_at(data, off + 94) == Some(11u32));
    let nm = data.subrange(off + 110, off + 121);
    assert(nm =~= trailer_name()) by {
        assert forall|k: int| 0 <= k < 11 implies nm[k] == trailer_name()[k] by {
            assert(a[110 + k] == trailer_name()[k]);
        }
    }
    reveal_strlit("TRAILER!!!");
    reveal_strlit(".");
    reveal_strlit("..");
    let chars = "TRAILER!!!"@.push('\0');
    assert(vstd::utf8::is_ascii_chars(chars));
    vstd::utf8::is_ascii_chars_encode_utf8(chars);
    assert(encode_utf8(chars) =~= trailer_name());
    vstd::utf8::encode_utf8_valid_utf8(chars);
    vstd::utf8::encode_utf8_decode_utf8(chars);
    assert(chars.drop_last() =~= "TRAILER!!!"@);
    assert(crate::text::strip_trailing("TRAILER!!!"@, '\0') == "TRAILER!!!"@);
    assert(entry_name_of(nm) == "TRAILER!!!"@);
    assert("TRAILER!!!"@ != "."@ && "TRAILER!!!"@ != ".."@);
    assert(align4(off + 121) == off + 124);
    assert(find_newc_from(data, off + 124, 0) is None);
}

proof fn lemma_dump_prefix_prefix(s: Seq<(Seq<char>, EntryView)>, k: int, m: int)
    requires
        0 <= k <= m,
    ensures
        dump_prefix(s, k).len() <= dump_prefix(s, m).len(),
        dump_prefix(s, m).subrange(0, dump_prefix(s, k).len() as int) == dump_prefix(s, k),
    decreases m,
{
    if k < m {
        lemma_dump_prefix_prefix(s, k, m - 1);
        let x = dump_prefix(s, m - 1);
        let y = dump_prefix(s, m);
        assert(y.subrange(0, x.len() as int) =~= x);
        assert(y.subrange(0, dump_prefix(s, k).len() as int) =~= x.subrange(
            0,
            dump_prefix(s, k).len() as int,
        ));
    } else {
        assert(dump_prefix(s, m).subrange(0, dump_prefix(s, m).len() as int) =~= dump_prefix(s, m));
    }
}

proof fn lemma_upsert_last(t: Seq<(Seq<char>, EntryView)>, name: Seq<char>, e: EntryView)
    requires
        sorted_entries(t),
        forall|j: int| 0 <= j < t.len() ==> seq_lt(#[trigger] name_key(t[j].0), name_key(name)),
    ensures
        upsert(t, name, e) == t.push((name, e)),
{
    assert(insert_point(t, name, t.len() as int));
    let i = choose|i: int| insert_point(t, name, i);
    lemma_insert_point_unique(t, name, i, t.len() as int);
    assert(t.insert(t.len() as int, (name, e)) =~= t.push((name, e)));
}

#[verifier::spinoff_prover]
#[verifier::rlimit(40)]
proof fn lemma_load_dump_from(s: Seq<(Seq<char>, EntryView)>, k: int)
    requires
        sorted_entries(s),
        forall|j: int| 0 <= j < s.len() ==> entry_round_trips(#[trigger] s[j].0, s[j].1),
        0 <= k <= s.len(),
    ensures
        load_from(dump_bytes(s), dump_prefix(s, k).len() as int, s.take(k)) == Some(
            Ok::<Seq<(Seq<char>, EntryView)>, CpioError>(s),
        ),
    decreases s.len() - k,
{
    let n = s.len() as int;
    let d = dump_bytes(s);
    let off = dump_prefix(s, k).len() as int;
    let t = trailer_record(inode_of(n));
    lemma_dump_prefix_aligned(s, k);
    lemma_dump_prefix_prefix(s, k, n);
    assert(d.subrange(0, dump_prefix(s, n).len() as int) =~= dump_prefix(s, n));
    if k == n {
        assert(d.subrange(off, d.len() as int) =~= t);
        lemma_load_trailer(d, off, s.take(k), inode_of(n));
        assert(s.take(n) =~= s);
    } else {
        let r = entry_record(inode_of(k), s[k].0, s[k].1);
        lemma_dump_prefix_prefix(s, k + 1, n);
        let p = dump_prefix(s, k + 1);
        assert(p == dump_prefix(s, k) + r);
        assert(d.subrange(0, p.len() as int) =~= p) by {
            assert(d.subrange(0, p.len() as int) =~= dump_prefix(s, n).subrange(0, p.len() as int));
        }
        assert(d.subrange(off, off + r.len()) =~= r) by {
            assert forall|j: int| 0 <= j < r.len() implies d.subrange(off, off + r.len())[j] == r[j] by {
                assert(d.subrange(0, p.len() as int)[off + j] == p[off + j]);
            }
        }
        reveal_with_fuel(pad4, 1);
        assert(t.len() > 0);
        assert forall|j: int| 0 <= j < k implies seq_lt(
            #[trigger] name_key(s.take(k)[j].0),
            name_key(s[k].0),
        ) by {
            assert(s.take(k)[j] == s[j]);
        }
        assert(sorted_entries(s.take(k)));
        lemma_upsert_last(s.take(k), s[k].0, s[k].1);
        assert(s.take(k).push((s[k].0, s[k].1)) =~= s.take(k + 1));
        lemma_load_entry(d, off, s.take(k), inode_of(k), s[k].0, s[k].1);
        lemma_load_dump_from(s, k + 1);
    }
}

/// Loading what `dump_to` wrote gives back the same entries, for every
/// archive whose entries are not named `.`, `..` or `TRAILER!!!`, have no
/// name ending in NUL, and have names and data short enough for the
/// eight-digit size fields.
pub proof fn lemma_dump_then_load(s: Seq<(Seq<char>, EntryView)>)
    requires
        sorted_entries(s),
        forall|j: int| 0 <= j < s.len() ==> entry_round_trips(#[trigger] s[j].0, s[j].1),
    ensures
        load_from(dump_bytes(s), 0, Seq::empty()) == Some(
            Ok::<Seq<(Seq<char>, EntryView)>, CpioError>(s),
        ),
{
    lemma_load_dump_from(s, 0);
    assert(s.take(0) =~= Seq::<(Seq<char>, EntryView)>::empty());
}

// ---------------------------------------------------------------------------
// Editing.

/// Whether `name` lies under the directory `dir`: it starts with `dir/`.
pub open spec fn under_dir(name: Seq<char>, dir: Seq<char>) -> bool {
    &&& name.len() > dir.len()
    &&& name.subrange(0, dir.len() as int) == dir
    &&& name[dir.len() as int] == '/'
}

/// Whether `rm` takes away the entry `name`.
pub open spec fn rm_hits(name: Seq<char>, path: Seq<char>, recursive: bool) -> bool {
    name == path || (recursive && under_dir(name, path))
}

/// The entries that `rm` keeps, in order.
pub open spec fn rm_kept(s: Seq<(Seq<char>, EntryView)>, path: Seq<char>, recursive: bool) -> Seq<
    (Seq<char>, EntryView),
>
    decreases s.len(),
{
    if s.len() == 0 {
        s
    } else if rm_hits(s.last().0, path, recursive) {
        rm_kept(s.drop_last(), path, recursive)
    } else {
        rm_kept(s.drop_last(), path, recursive).push(s.last())
    }
}

/// The names that `rm` takes away, in order.
pub open spec fn rm_removed(s: Seq<(Seq<char>, EntryView)>, path: Seq<char>, recursive: bool) -> Seq<
    Seq<char>,
>
    decreases s.len(),
{
    if s.len() == 0 {
        seq![]
    } else if rm_hits(s.last().0, path, recursive) {
        rm_removed(s.drop_last(), path, recursive).push(s.last().0)
    } else {
        rm_removed(s.drop_last(), path, recursive)
    }
}

/// The entries with entry `i` taken out.
pub open spec fn remove_at(s: Seq<(Seq<char>, EntryView)>, i: int) -> Seq<(Seq<char>, EntryView)> {
    s.remove(i)
}

pub proof fn lemma_sorted_remove(s: Seq<(Seq<char>, EntryView)>, i: int)
    requires
        sorted_entries(s),
        0 <= i < s.len(),
    ensures
        sorted_entries(s.remove(i)),
{
    let t = s.remove(i);
    assert forall|a: int, b: int| 0 <= a < b < t.len() implies seq_lt(
        #[trigger] name_key(t[a].0),
        #[trigger] name_key(t[b].0),
    ) by {
        let a2 = if a < i { a } else { a + 1 };
        let b2 = if b < i { b } else { b + 1 };
        assert(t[a] == s[a2] && t[b] == s[b2]);
    }
}

proof fn lemma_index_of_sorted(s: Seq<(Seq<char>, EntryView)>, name: Seq<char>, i: int)
    requires
        sorted_entries(s),
        0 <= i < s.len(),
        s[i].0 == name,
    ensures
        index_of(s, name) == Some(i),
{
    assert(0 <= i < s.len() && s[i].0 == name);
    let k = choose|k: int| 0 <= k < s.len() && #[trigger] s[k].0 == name;
    assert(0 <= k < s.len() && s[k].0 == name);
    lemma_seq_lt_irrefl(name_key(name));
    if k < i {
        assert(seq_lt(name_key(s[k].0), name_key(s[i].0)));
    } else if k > i {
        assert(seq_lt(name_key(s[i].0), name_key(s[k].0)));
    }
}

proof fn lemma_index_of_absent(s: Seq<(Seq<char>, EntryView)>, name: Seq<char>, i: int)
    requires
        sorted_entries(s),
        insert_point(s, name, i),
        !(i < s.len() && s[i].0 == name),
    ensures
        index_of(s, name) is None,
{
    if exists|k: int| 0 <= k < s.len() && #[trigger] s[k].0 == name {
        let k = choose|k: int| 0 <= k < s.len() && #[trigger] s[k].0 == name;
        lemma_seq_lt_irrefl(name_key(name));
        if k > i {
            assert(seq_lt(name_key(s[i].0), name_key(s[k].0)));
            lemma_seq_lt_total(name_key(s[i].0), name_key(name));
            if name_key(s[i].0) == name_key(name) {
                lemma_name_key_injective(s[i].0, name);
            }
        }
    }
}

/// Whether `name` is `path` itself or, when `recursive`, lies under it.
fn rm_hit(name: &String, path: &Vec<char>, recursive: bool) -> (r: bool)
    ensures
        r == rm_hits(name@, path@, recursive),
{
    let nc = chars_of(name.as_str());
    if crate::text::chars_eq(nc.as_slice(), path.as_slice()) {
        return true;
    }
    if !recursive || nc.len() <= path.len() {
        return false;
    }
    let mut k: usize = 0;
    while k < path.len()
        invariant
            k <= path@.len(),
            path@.len() < nc@.len(),
            nc@ == name@,
            name@ != path@,
            recursive,
            forall|j: int| 0 <= j < k ==> nc@[j] == path@[j],
        decreases path@.len() - k,
    {
        if nc[k] != path[k] {
            proof {
                assert(nc@.subrange(0, path@.len() as int)[k as int] != path@[k as int]);
                assert(nc@.subrange(0, path@.len() as int) != path@);
            }
            return false;
        }
        k = k + 1;
    }
    proof {
        assert(nc@.subrange(0, path@.len() as int) =~= path@);
    }
    nc[path.len()] == '/'
}

impl Cpio {
    /// Whether an entry named `path`, normalised, exists.
    pub fn has_entry(&self, path: &str) -> (r: bool)
        ensures
            r == (index_of(self.view_entries(), norm_path_of(path@)) is Some),
    {
        proof {
            use_type_invariant(self);
        }
        let p = norm_path(path);
        let (i, found) = self.locate(&p);
        proof {
            if found {
                lemma_index_of_sorted(self.view_entries(), p@, i as int);
            } else {
                lemma_index_of_absent(self.view_entries(), p@, i as int);
            }
        }
        found
    }

    /// Takes out the entry named exactly `name`, if there is one.
    fn take_entry(&mut self, name: &String) -> (r: Option<CpioEntry>)
        ensures
            match index_of(old(self).view_entries(), name@) {
                None => r is None && final(self).view_entries() == old(self).view_entries(),
                Some(i) => r matches Some(e) && e@ == old(self).view_entries()[i].1
                    && final(self).view_entries() == remove_at(old(self).view_entries(), i),
            },
    {
        proof {
            use_type_invariant(&*self);
        }
        let ghost s = self.view_entries();
        let (i, found) = self.locate(name);
        if !found {
            proof {
                lemma_index_of_absent(s, name@, i as int);
            }
            return None;
        }
        proof {
            lemma_index_of_sorted(s, name@, i as int);
            lemma_sorted_remove(s, i as int);
        }
        let mut entries: Vec<Named> = Vec::new();
        proof {
            assert(entries@.map_values(|n: Named| (n.name@, n.entry@)) =~= Seq::<(Seq<char>, EntryView)>::empty());
        }
        std::mem::swap(&mut entries, &mut self.entries);
        let named = entries.remove(i);
        proof {
            assert(entries@.map_values(|n: Named| (n.name@, n.entry@)) =~= s.remove(i as int));
        }
        self.entries = entries;
        Some(named.entry)
    }

    /// Removes the entry `path`, normalised, and, when `recursive`, every
    /// entry under it; gives back the names removed, in order.
    pub fn rm(&mut self, path: &str, recursive: bool) -> (removed: Vec<String>)
        ensures
            final(self).view_entries() == rm_kept(old(self).view_entries(), norm_path_of(path@), recursive),
            removed@.map_values(|x: String| x@) == rm_removed(
                old(self).view_entries(),
                norm_path_of(path@),
                recursive,
            ),
    {
        proof {
            use_type_invariant(&*self);
        }
        let ghost s = self.view_entries();
        let p = norm_path(path);
        let pc = chars_of(p.as_str());
        let mut entries: Vec<Named> = Vec::new();
        proof {
            assert(entries@.map_values(|n: Named| (n.name@, n.entry@)) =~= Seq::<(Seq<char>, EntryView)>::empty());
        }
        std::mem::swap(&mut entries, &mut self.entries);
        let mut removed: Vec<String> = Vec::new();
        let mut i: usize = 0;
        let ghost mut j: int = 0;
        proof {
            assert(s.take(0) =~= Seq::<(Seq<char>, EntryView)>::empty());
            assert(entries@.map_values(|n: Named| (n.name@, n.entry@)) =~= rm_kept(s.take(0), p@, recursive) + s.skip(0));
            assert(removed@.map_values(|x: String| x@) =~= rm_removed(s.take(0), p@, recursive));
        }
        while i < entries.len()
            invariant
                0 <= j <= s.len(),
                pc@ == p@,
                sorted_entries(entries@.map_values(|n: Named| (n.name@, n.entry@))),
                entries@.map_values(|n: Named| (n.name@, n.entry@)) == rm_kept(s.take(j), p@, recursive) + s.skip(j),
                i == rm_kept(s.take(j), p@, recursive).len(),
                removed@.map_values(|x: String| x@) == rm_removed(s.take(j), p@, recursive),
            decreases entries@.len() - i,
        {
            let ghost v = entries@.map_values(|n: Named| (n.name@, n.entry@));
            proof {
                assert(s.take(j + 1).drop_last() =~= s.take(j));
                assert(v[i as int] == s[j]);
            }
            if rm_hit(&entries[i].name, &pc, recursive) {
                let named = entries.remove(i);
                proof {
                    lemma_sorted_remove(v, i as int);
                    assert(entries@.map_values(|n: Named| (n.name@, n.entry@)) =~= v.remove(i as int));
                    assert(v.remove(i as int) =~= rm_kept(s.take(j + 1), p@, recursive) + s.skip(j + 1));
                }
                removed.push(named.name);
                proof {
                    assert(removed@.map_values(|x: String| x@) =~= rm_removed(s.take(j + 1), p@, recursive));
                }
            } else {
                proof {
                    assert(v =~= rm_kept(s.take(j + 1), p@, recursive) + s.skip(j + 1));
                }
                i = i + 1;
            }
            proof {
                j = j + 1;
            }
        }
        proof {
            let v = entries@.map_values(|n: Named| (n.name@, n.entry@));
            assert(v.len() == i);
            assert(j == s.len()) by {
                assert(v.len() == rm_kept(s.take(j), p@, recursive).len() + s.skip(j).len());
            }
            assert(s.take(j) =~= s);
            assert(v =~= rm_kept(s, p@, recursive));
        }
        self.entries = entries;
        removed
    }

    /// Moves the entry `from` to `to`, both normalised, replacing any
    /// entry already at `to`.
    pub fn mv(&mut self, from: &str, to: &str) -> (r: Result<(), CpioError>)
        ensures
            match index_of(old(self).view_entries(), norm_path_of(from@)) {
                None => r == Err::<(), CpioError>(CpioError::NotFound) && final(self).view_entries()
                    == old(self).view_entries(),
                Some(i) => r is Ok && final(self).view_entries() == upsert(
                    remove_at(old(self).view_entries(), i),
                    norm_path_of(to@),
                    old(self).view_entries()[i].1,
                ),
            },
    {
        let f = norm_path(from);
        match self.take_entry(&f) {
            None => Err(CpioError::NotFound),
            Some(e) => {
                let t = norm_path(to);
                self.insert(t, e);
                Ok(())
            },
        }
    }

    /// Creates the directory `dir`, normalised, with `mode | S_IFDIR`.
    pub fn mkdir(&mut self, mode: u32, dir: &str)
        ensures
            final(self).view_entries() == upsert(
                old(self).view_entries(),
                norm_path_of(dir@),
                EntryView {
                    mode: mode | S_IFDIR,
                    uid: 0,
                    gid: 0,
                    rdevmajor: 0,
                    rdevminor: 0,
                    data: seq![],
                },
            ),
    {
        let e = CpioEntry { mode: mode | S_IFDIR, uid: 0, gid: 0, rdevmajor: 0, rdevminor: 0, data: Vec::new() };
        proof {
            assert(e@.data =~= Seq::<u8>::empty());
        }
        self.insert(norm_path(dir), e);
    }

    /// Creates the symlink `dst` pointing at `src`, both normalised.
    pub fn ln(&mut self, src: &str, dst: &str)
        ensures
            final(self).view_entries() == upsert(
                old(self).view_entries(),
                norm_path_of(dst@),
                EntryView {
                    mode: S_IFLNK,
                    uid: 0,
                    gid: 0,
                    rdevmajor: 0,
                    rdevminor: 0,
                    data: encode_utf8(norm_path_of(src@)),
                },
            ),
    {
        let target = norm_path(src);
        let data = vstd::slice::slice_to_vec(target.as_str().as_bytes());
        let e = CpioEntry { mode: S_IFLNK, uid: 0, gid: 0, rdevmajor: 0, rdevminor: 0, data };
        self.insert(norm_path(dst), e);
    }

    /// Adds a regular file at `path`, normalised, with the permission bits
    /// of `mode`.
    pub fn add_buf(&mut self, mode: u32, path: &str, data: &[u8])
        ensures
            final(self).view_entries() == upsert(
                old(self).view_entries(),
                norm_path_of(path@),
                EntryView {
                    mode: S_IFREG | (mode & 0o7777),
                    uid: 0,
                    gid: 0,
                    rdevmajor: 0,
                    rdevminor: 0,
                    data: data@,
                },
            ),
    {
        let e = CpioEntry {
            mode: S_IFREG | (mode & 0o7777),
            uid: 0,
            gid: 0,
            rdevmajor: 0,
            rdevminor: 0,
            data: vstd::slice::slice_to_vec(data),
        };
        self.insert(norm_path(path), e);
    }
}

// ---------------------------------------------------------------------------
// Modes, listing and adding.

/// The value of an octal digit.
pub open spec fn oct_val(c: char) -> Option<int> {
    if '0' <= c <= '7' {
        Some(c as int - 0x30)
    } else {
        None
    }
}

/// The value of the first `n` characters read as octal digits.
pub open spec fn oct_prefix(d: Seq<char>, n: int) -> Option<int>
    decreases n,
{
    if n <= 0 {
        Some(0)
    } else {
        match oct_prefix(d, n - 1) {
            None => None,
            Some(v) => match oct_val(d[n - 1]) {
                None => None,
                Some(x) => Some(v * 8 + x),
            },
        }
    }
}

/// `u32::from_str_radix(s, 8)`: an optional `+`, then one or more octal
/// digits whose value fits in a `u32`.
pub open spec fn parse_octal_u32(s: Seq<char>) -> Option<u32> {
    let d = if s.len() > 0 && s[0] == '+' {
        s.drop_first()
    } else {
        s
    };
    if d.len() == 0 {
        None
    } else {
        match oct_prefix(d, d.len() as int) {
            Some(v) => if v <= u32::MAX {
                Some(v as u32)
            } else {
                None
            },
            None => None,
        }
    }
}

proof fn lemma_oct_prefix_grows(d: Seq<char>, i: int, m: int)
    requires
        0 <= i <= m,
        oct_prefix(d, i) is Some,
    ensures
        oct_prefix(d, m) matches Some(w) ==> w >= oct_prefix(d, i)->0,
    decreases m - i,
{
    if i < m {
        lemma_oct_prefix_grows(d, i, m - 1);
        lemma_oct_prefix_nonneg(d, m - 1);
    }
}

proof fn lemma_oct_prefix_nonneg(d: Seq<char>, n: int)
    ensures
        oct_prefix(d, n) matches Some(v) ==> v >= 0,
    decreases n,
{
    if n > 0 {
        lemma_oct_prefix_nonneg(d, n - 1);
    }
}

proof fn lemma_oct_prefix_none(d: Seq<char>, i: int, m: int)
    requires
        0 <= i <= m,
        oct_prefix(d, i) is None,
    ensures
        oct_prefix(d, m) is None,
    decreases m - i,
{
    if i < m {
        lemma_oct_prefix_none(d, i, m - 1);
    }
}

/// Parses a cpio permission mode written in octal.
pub fn parse_cpio_mode(mode: &str) -> (r: Result<u32, CpioError>)
    ensures
        match parse_octal_u32(mode@) {
            Some(v) => r == Ok::<u32, CpioError>(v),
            None => r == Err::<u32, CpioError>(CpioError::InvalidMode),
        },
{
    let cs = chars_of(mode);
    let start: usize = if cs.len() > 0 && cs[0] == '+' {
        1
    } else {
        0
    };
    let ghost d = if mode@.len() > 0 && mode@[0] == '+' {
        mode@.drop_first()
    } else {
        mode@
    };
    proof {
        assert(d =~= cs@.subrange(start as int, cs@.len() as int));
    }
    if cs.len() == start {
        return Err(CpioError::InvalidMode);
    }
    let mut v: u64 = 0;
    let mut i: usize = start;
    while i < cs.len()
        invariant
            start <= i <= cs@.len(),
            cs@ == mode@,
            d == (if mode@.len() > 0 && mode@[0] == '+' {
                mode@.drop_first()
            } else {
                mode@
            }),
            d == cs@.subrange(start as int, cs@.len() as int),
            oct_prefix(d, i - start) == Some(v as int),
            v <= u32::MAX,
        decreases cs@.len() - i,
    {
        let c = cs[i];
        proof {
            assert(d[i - start] == c);
        }
        if c < '0' || c > '7' {
            proof {
                lemma_oct_prefix_none(d, i - start + 1, d.len() as int);
            }
            return Err(CpioError::InvalidMode);
        }
        v = v * 8 + ((c as u32) - 0x30) as u64;
        i = i + 1;
        if v > 0xFFFF_FFFF {
            proof {
                lemma_oct_prefix_grows(d, i - start, d.len() as int);
            }
            return Err(CpioError::InvalidMode);
        }
    }
    Ok(v as u32)
}

/// What an entry is, from the type bits of its mode.
#[derive(Debug, Clone, Copy, PartialEq, Eq, Structural)]
pub enum EntryKind {
    Directory,
    Regular,
    Symlink,
    BlockDevice,
    CharDevice,
    Unknown,
}

pub open spec fn kind_of(mode: u32) -> EntryKind {
    let t = mode & S_IFMT;
    if t == S_IFDIR {
        EntryKind::Directory
    } else if t == S_IFREG {
        EntryKind::Regular
    } else if t == S_IFLNK {
        EntryKind::Symlink
    } else if t == S_IFBLK {
        EntryKind::BlockDevice
    } else if t == S_IFCHR {
        EntryKind::CharDevice
    } else {
        EntryKind::Unknown
    }
}

/// The `ls` type letter of a mode.
pub open spec fn type_char(mode: u32) -> char {
    match kind_of(mode) {
        EntryKind::Directory => 'd',
        EntryKind::Regular => '-',
        EntryKind::Symlink => 'l',
        EntryKind::BlockDevice => 'b',
        EntryKind::CharDevice => 'c',
        EntryKind::Unknown => '?',
    }
}

pub open spec fn perm_char(mode: u32, bit: u32, on: char) -> char {
    if mode & bit != 0 {
        on
    } else {
        '-'
    }
}

/// `drwxr-xr-x` and the like.
pub open spec fn mode_chars(mode: u32) -> Seq<char> {
    seq![
        type_char(mode),
        perm_char(mode, S_IRUSR, 'r'),
        perm_char(mode, S_IWUSR, 'w'),
        perm_char(mode, S_IXUSR, 'x'),
        perm_char(mode, S_IRGRP, 'r'),
        perm_char(mode, S_IWGRP, 'w'),
        perm_char(mode, S_IXGRP, 'x'),
        perm_char(mode, S_IROTH, 'r'),
        perm_char(mode, S_IWOTH, 'w'),
        perm_char(mode, S_IXOTH, 'x'),
    ]
}

/// An entry as listed: mode, uid, gid, size and device numbers.
pub open spec fn describe_of(e: EntryView) -> Seq<char> {
    mode_chars(e.mode) + seq!['\t'] + decimal_of(e.uid as nat) + seq!['\t'] + decimal_of(
        e.gid as nat,
    ) + seq!['\t'] + decimal_of(e.data.len()) + seq!['\t'] + decimal_of(e.rdevmajor as nat)
        + seq![':'] + decimal_of(e.rdevminor as nat)
}

fn perm(mode: u32, bit: u32, on: char) -> (r: char)
    ensures
        r == perm_char(mode, bit, on),
{
    if mode & bit != 0 {
        on
    } else {
        '-'
    }
}

impl CpioEntry {
    /// What the entry is.
    pub fn kind(&self) -> (r: EntryKind)
        ensures
            r == kind_of(self.mode),
    {
        let t = self.mode & S_IFMT;
        if t == S_IFDIR {
            EntryKind::Directory
        } else if t == S_IFREG {
            EntryKind::Regular
        } else if t == S_IFLNK {
            EntryKind::Symlink
        } else if t == S_IFBLK {
            EntryKind::BlockDevice
        } else if t == S_IFCHR {
            EntryKind::CharDevice
        } else {
            EntryKind::Unknown
        }
    }

    /// The entry as `ls` shows it.
    pub fn describe(&self) -> (r: String)
        ensures
            r@ == describe_of(self@),
    {
        let m = self.mode;
        let t = match self.kind() {
            EntryKind::Directory => 'd',
            EntryKind::Regular => '-',
            EntryKind::Symlink => 'l',
            EntryKind::BlockDevice => 'b',
            EntryKind::CharDevice => 'c',
            EntryKind::Unknown => '?',
        };
        let mut out: Vec<char> = Vec::new();
        out.push(t);
        out.push(perm(m, S_IRUSR, 'r'));
        out.push(perm(m, S_IWUSR, 'w'));
        out.push(perm(m, S_IXUSR, 'x'));
        out.push(perm(m, S_IRGRP, 'r'));
        out.push(perm(m, S_IWGRP, 'w'));
        out.push(perm(m, S_IXGRP, 'x'));
        out.push(perm(m, S_IROTH, 'r'));
        out.push(perm(m, S_IWOTH, 'w'));
        out.push(perm(m, S_IXOTH, 'x'));
        let ghost mc = out@;
        proof {
            assert(mc =~= mode_chars(m));
        }
        out.push('\t');
        push_str_chars(&mut out, crate::text::decimal(self.uid as u64).as_str());
        out.push('\t');
        push_str_chars(&mut out, crate::text::decimal(self.gid as u64).as_str());
        out.push('\t');
        push_str_chars(&mut out, crate::text::decimal(self.data.len() as u64).as_str());
        out.push('\t');
        push_str_chars(&mut out, crate::text::decimal(self.rdevmajor as u64).as_str());
        out.push(':');
        push_str_chars(&mut out, crate::text::decimal(self.rdevminor as u64).as_str());
        proof {
            assert(out@ =~= describe_of(self@));
        }
        string_of(out.as_slice())
    }
}

/// How many times `c` occurs in `s`.
pub open spec fn count_char(s: Seq<char>, c: char) -> nat
    decreases s.len(),
{
    if s.len() == 0 {
        0
    } else {
        count_char(s.drop_last(), c) + if s.last() == c {
            1nat
        } else {
            0nat
        }
    }
}

/// Whether `ls` of the normalised `path` shows the entry `name`: `/name`
/// is `/path` itself or lies under it, and unless `recursive`, at most one
/// level below.
pub open spec fn ls_shows(name: Seq<char>, path: Seq<char>, recursive: bool) -> bool {
    let full = seq!['/'] + name;
    let pre = if path.len() == 0 {
        path
    } else {
        seq!['/'] + path
    };
    let rest = full.subrange(pre.len() as int, full.len() as int);
    &&& pre.len() <= full.len()
    &&& full.subrange(0, pre.len() as int) == pre
    &&& (rest.len() == 0 || rest[0] == '/')
    &&& (recursive || rest.len() == 0 || count_char(rest, '/') <= 1)
}

/// The lines `ls` prints: the entry described, a tab, its name.
pub open spec fn ls_lines(s: Seq<(Seq<char>, EntryView)>, path: Seq<char>, recursive: bool) -> Seq<
    Seq<char>,
>
    decreases s.len(),
{
    if s.len() == 0 {
        seq![]
    } else if ls_shows(s.last().0, path, recursive) {
        ls_lines(s.drop_last(), path, recursive).push(
            describe_of(s.last().1) + seq!['\t'] + s.last().0,
        )
    } else {
        ls_lines(s.drop_last(), path, recursive)
    }
}

fn ls_show(name: &String, path: &Vec<char>, recursive: bool) -> (r: bool)
    ensures
        r == ls_shows(name@, path@, recursive),
{
    let mut full: Vec<char> = Vec::new();
    full.push('/');
    push_str_chars(&mut full, name.as_str());
    let mut pre: Vec<char> = Vec::new();
    if path.len() > 0 {
        pre.push('/');
        let mut k: usize = 0;
        while k < path.len()
            invariant
                k <= path@.len(),
                pre@ == seq!['/'] + path@.subrange(0, k as int),
            decreases path@.len() - k,
        {
            pre.push(path[k]);
            k = k + 1;
            proof {
                assert(pre@ =~= seq!['/'] + path@.subrange(0, k as int));
            }
        }
        proof {
            assert(path@.subrange(0, path@.len() as int) =~= path@);
        }
    } else {
        proof {
            assert(pre@ =~= path@);
        }
    }
    proof {
        assert(full@ =~= seq!['/'] + name@);
    }
    if pre.len() > full.len() {
        return false;
    }
    let mut k: usize = 0;
    while k < pre.len()
        invariant
            k <= pre@.len() <= full@.len(),
            full@ == seq!['/'] + name@,
            pre@ == (if path@.len() == 0 {
                path@
            } else {
                seq!['/'] + path@
            }),
            forall|j: int| 0 <= j < k ==> full@[j] == pre@[j],
        decreases pre@.len() - k,
    {
        if full[k] != pre[k] {
            proof {
                assert(full@.subrange(0, pre@.len() as int)[k as int] != pre@[k as int]);
            }
            return false;
        }
        k = k + 1;
    }
    proof {
        assert(full@.subrange(0, pre@.len() as int) =~= pre@);
    }
    let ghost rest = full@.subrange(pre@.len() as int, full@.len() as int);
    if pre.len() < full.len() && full[pre.len()] != '/' {
        proof {
            assert(rest[0] == full@[pre@.len() as int]);
        }
        return false;
    }
    if recursive || pre.len() == full.len() {
        return true;
    }
    let mut count: usize = 0;
    let mut k: usize = pre.len();
    proof {
        assert(rest.subrange(0, 0) =~= Seq::<char>::empty());
    }
    while k < full.len()
        invariant
            pre@.len() <= k <= full@.len(),
            rest == full@.subrange(pre@.len() as int, full@.len() as int),
            count == count_char(rest.subrange(0, k - pre@.len()), '/'),
            count <= k,
        decreases full@.len() - k,
    {
        proof {
            assert(rest.subrange(0, k + 1 - pre@.len()).drop_last() =~= rest.subrange(0, k - pre@.len()));
        }
        if full[k] == '/' {
            count = count + 1;
        }
        k = k + 1;
    }
    proof {
        assert(rest.subrange(0, rest.len() as int) =~= rest);
    }
    count <= 1
}

/// The kind of thing `add_entry` adds, as read from the file system.
pub enum AddSource {
    Directory,
    Symlink(Vec<u8>),
    File(Vec<u8>),
}

/// Whether `add` refuses `path`: it ends with `/`.
pub fn check_add_path(path: &str) -> (r: Result<(), CpioError>)
    ensures
        r == (if path@.len() > 0 && path@.last() == '/' {
            Err::<(), CpioError>(CpioError::TrailingSlash)
        } else {
            Ok(())
        }),
{
    let cs = chars_of(path);
    if cs.len() > 0 && cs[cs.len() - 1] == '/' {
        Err(CpioError::TrailingSlash)
    } else {
        Ok(())
    }
}

impl Cpio {
    /// The listing of `path`, normalised: one line per entry shown, in
    /// name order.
    pub fn ls(&self, path: &str, recursive: bool) -> (lines: Vec<String>)
        ensures
            lines@.map_values(|x: String| x@) == ls_lines(self.view_entries(), norm_path_of(path@), recursive),
    {
        let ghost s = self.view_entries();
        let p = norm_path(path);
        let pc = chars_of(p.as_str());
        let mut lines: Vec<String> = Vec::new();
        let mut i: usize = 0;
        proof {
            assert(lines@.map_values(|x: String| x@) =~= ls_lines(s.take(0), p@, recursive));
        }
        while i < self.entries.len()
            invariant
                i <= self.entries@.len(),
                s == self.view_entries(),
                pc@ == p@,
                lines@.map_values(|x: String| x@) == ls_lines(s.take(i as int), p@, recursive),
            decreases self.entries@.len() - i,
        {
            let named = &self.entries[i];
            proof {
                assert(s.take(i + 1).drop_last() =~= s.take(i as int));
                assert(s[i as int] == (named.name@, named.entry@));
                assert(s.take(i + 1).last() == s[i as int]);
            }
            if ls_show(&named.name, &pc, recursive) {
                let mut line: Vec<char> = Vec::new();
                let desc = named.entry.describe();
                push_str_chars(&mut line, desc.as_str());
                line.push('\t');
                push_str_chars(&mut line, named.name.as_str());
                let ghost before = lines@.map_values(|x: String| x@);
                let ls = string_of(line.as_slice());
                proof {
                    assert(ls@ =~= describe_of(named.entry@) + seq!['\t'] + named.name@);
                }
                lines.push(ls);
                proof {
                    assert(lines@.map_values(|x: String| x@) =~= before.push(ls@));
                    assert(lines@.map_values(|x: String| x@) =~= ls_lines(s.take(i + 1), p@, recursive));
                }
            } else {
                proof {
                    assert(lines@.map_values(|x: String| x@) =~= ls_lines(s.take(i + 1), p@, recursive));
                }
            }
            i = i + 1;
        }
        proof {
            assert(s.take(i as int) =~= s);
        }
        lines
    }

    /// Adds what was read at a host path under `path`, normalised: a
    /// directory as `mkdir` does, a symlink or a file with the permission
    /// bits of `mode`. Refused, changing nothing, when `path` ends with `/`.
    pub fn add_entry(&mut self, mode: u32, path: &str, source: AddSource) -> (r: Result<(), CpioError>)
        ensures
            path@.len() > 0 && path@.last() == '/' ==> r == Err::<(), CpioError>(
                CpioError::TrailingSlash,
            ) && final(self).view_entries() == old(self).view_entries(),
            !(path@.len() > 0 && path@.last() == '/') ==> r is Ok && final(self).view_entries()
                == upsert(
                old(self).view_entries(),
                norm_path_of(path@),
                match source {
                    AddSource::Directory => EntryView {
                        mode: mode | S_IFDIR,
                        uid: 0,
                        gid: 0,
                        rdevmajor: 0,
                        rdevminor: 0,
                        data: seq![],
                    },
                    AddSource::Symlink(t) => EntryView {
                        mode: S_IFLNK | (mode & 0o7777),
                        uid: 0,
                        gid: 0,
                        rdevmajor: 0,
                        rdevminor: 0,
                        data: t@,
                    },
                    AddSource::File(c) => EntryView {
                        mode: S_IFREG | (mode & 0o7777),
                        uid: 0,
                        gid: 0,
                        rdevmajor: 0,
                        rdevminor: 0,
                        data: c@,
                    },
                },
            ),
    {
        check_add_path(path)?;
        match source {
            AddSource::Directory => {
                self.mkdir(mode, path);
            },
            AddSource::Symlink(t) => {
                let e = CpioEntry {
                    mode: S_IFLNK | (mode & 0o7777),
                    uid: 0,
                    gid: 0,
                    rdevmajor: 0,
                    rdevminor: 0,
                    data: t,
                };
                self.insert(norm_path(path), e);
            },
            AddSource::File(c) => {
                let e = CpioEntry {
                    mode: S_IFREG | (mode & 0o7777),
                    uid: 0,
                    gid: 0,
                    rdevmajor: 0,
                    rdevminor: 0,
                    data: c,
                };
                self.insert(norm_path(path), e);
            },
        }
        Ok(())
    }
}

impl CpioEntry {
    /// Compresses a regular file's data with XZ; whether it did. Nothing
    /// else changes, and nothing at all when it did not.
    pub fn compress(&mut self) -> (r: bool)
        ensures
            r == (kind_of(old(self).mode) == EntryKind::Regular && crate::compress::compress_of(
                crate::header::FileFormat::XZ,
                old(self).data@,
            ) is Ok),
            r ==> final(self).data@ == crate::compress::compress_of(
                crate::header::FileFormat::XZ,
                old(self).data@,
            )->Ok_0,
            !r ==> final(self)@ == old(self)@,
            final(self).mode == old(self).mode,
            final(self).uid == old(self).uid,
            final(self).gid == old(self).gid,
            final(self).rdevmajor == old(self).rdevmajor,
            final(self).rdevminor == old(self).rdevminor,
    {
        if self.kind() != EntryKind::Regular {
            return false;
        }
        match crate::compress::compress_vec(crate::header::FileFormat::XZ, self.data.as_slice()) {
            Ok(d) => {
                self.data = d;
                true
            },
            Err(_) => false,
        }
    }

    /// Decompresses a regular file's XZ data; whether it did. Nothing else
    /// changes, and nothing at all when it did not.
    pub fn decompress(&mut self) -> (r: bool)
        ensures
            r == (kind_of(old(self).mode) == EntryKind::Regular && crate::compress::decompress_of(
                crate::header::FileFormat::XZ,
                old(self).data@,
            ) is Ok),
            r ==> final(self).data@ == crate::compress::decompress_of(
                crate::header::FileFormat::XZ,
                old(self).data@,
            )->Ok_0,
            !r ==> final(self)@ == old(self)@,
            final(self).mode == old(self).mode,
            final(self).uid == old(self).uid,
            final(self).gid == old(self).gid,
            final(self).rdevmajor == old(self).rdevmajor,
            final(self).rdevminor == old(self).rdevminor,
    {
        if self.kind() != EntryKind::Regular {
            return false;
        }
        match crate::compress::decompress_vec(crate::header::FileFormat::XZ, self.data.as_slice()) {
            Ok(d) => {
                self.data = d;
                true
            },
            Err(_) => false,
        }
    }
}

/// The (entry, output path) pairs `extract` writes: with no arguments
/// every entry but `.` and `..` to its own name; with two, the entry named
/// by the first (normalised), which must exist, to the path given by the
/// second; any other count is refused.
pub open spec fn extract_pairs_of(s: Seq<(Seq<char>, EntryView)>, args: Seq<Seq<char>>) -> Result<
    Seq<(Seq<char>, Seq<char>)>,
    CpioError,
> {
    if args.len() == 0 {
        Ok(all_extract_pairs(s))
    } else if args.len() == 2 {
        if index_of(s, norm_path_of(args[0])) is None {
            Err(CpioError::NotFound)
        } else {
            Ok(seq![(args[0], args[1])])
        }
    } else {
        Err(CpioError::BadArguments)
    }
}

pub open spec fn all_extract_pairs(s: Seq<(Seq<char>, EntryView)>) -> Seq<(Seq<char>, Seq<char>)>
    decreases s.len(),
{
    if s.len() == 0 {
        seq![]
    } else {
        let r = all_extract_pairs(s.drop_last());
        let n = s.last().0;
        if n == "."@ || n == ".."@ {
            r
        } else {
            r.push((n, n))
        }
    }
}

pub open spec fn string_pairs(v: Seq<(String, String)>) -> Seq<(Seq<char>, Seq<char>)> {
    v.map_values(|p: (String, String)| (p.0@, p.1@))
}

impl Cpio {
    /// What `extract` with these arguments writes; see [`extract_pairs_of`].
    pub fn extract(&self, paths: &Vec<String>) -> (r: Result<Vec<(String, String)>, CpioError>)
        ensures
            match extract_pairs_of(self.view_entries(), paths@.map_values(|x: String| x@)) {
                Ok(v) => r matches Ok(x) && string_pairs(x@) == v,
                Err(e) => r matches Err(x) && x == e,
            },
    {
        if paths.len() == 2 {
            if !self.has_entry(paths[0].as_str()) {
                return Err(CpioError::NotFound);
            }
            let mut out: Vec<(String, String)> = Vec::new();
            out.push((paths[0].clone(), paths[1].clone()));
            proof {
                assert(string_pairs(out@) =~= seq![(paths@[0]@, paths@[1]@)]);
            }
            return Ok(out);
        }
        if paths.len() != 0 {
            return Err(CpioError::BadArguments);
        }
        let ghost s = self.view_entries();
        let mut out: Vec<(String, String)> = Vec::new();
        let mut i: usize = 0;
        proof {
            assert(string_pairs(out@) =~= all_extract_pairs(s.take(0)));
        }
        while i < self.entries.len()
            invariant
                i <= self.entries@.len(),
                s == self.view_entries(),
                string_pairs(out@) == all_extract_pairs(s.take(i as int)),
            decreases self.entries@.len() - i,
        {
            let name = &self.entries[i].name;
            proof {
                assert(s.take(i + 1).drop_last() =~= s.take(i as int));
                assert(s.take(i + 1).last().0 == name@);
            }
            let ghost before = string_pairs(out@);
            if !str_eq(name.as_str(), ".") && !str_eq(name.as_str(), "..") {
                out.push((name.clone(), name.clone()));
                proof {
                    assert(string_pairs(out@) =~= before.push((name@, name@)));
                }
            }
            i = i + 1;
        }
        proof {
            assert(s.take(self.entries@.len() as int) =~= s);
        }
        Ok(out)
    }
}

// ---------------------------------------------------------------------------
// What the edits leave in an archive.

/// Setting an entry makes it the one found under its name: a read after a
/// write gives back what was written.
pub proof fn lemma_upsert_then_find(s: Seq<(Seq<char>, EntryView)>, name: Seq<char>, e: EntryView)
    requires
        sorted_entries(s),
    ensures
        sorted_entries(upsert(s, name, e)),
        index_of(upsert(s, name, e), name) matches Some(i) && upsert(s, name, e)[i] == (name, e),
{
    lemma_insert_point_from(s, name, 0);
    let i = choose|i: int| insert_point(s, name, i);
    let t = upsert(s, name, e);
    if i < s.len() && s[i].0 == name {
        lemma_sorted_update(s, i, name, e);
    } else {
        lemma_sorted_insert(s, i, name, e);
    }
    assert(t[i] == (name, e));
    lemma_index_of_sorted(t, name, i);
}

proof fn lemma_rm_kept_misses(s: Seq<(Seq<char>, EntryView)>, path: Seq<char>, recursive: bool, j: int)
    requires
        0 <= j < rm_kept(s, path, recursive).len(),
    ensures
        !rm_hits(rm_kept(s, path, recursive)[j].0, path, recursive),
        exists|k: int| 0 <= k < s.len() && #[trigger] s[k] == rm_kept(s, path, recursive)[j],
    decreases s.len(),
{
    if s.len() > 0 {
        let p = rm_kept(s.drop_last(), path, recursive);
        if rm_hits(s.last().0, path, recursive) {
            lemma_rm_kept_misses(s.drop_last(), path, recursive, j);
            let k = choose|k: int| 0 <= k < s.drop_last().len() && #[trigger] s.drop_last()[k] == p[j];
            assert(s[k] == p[j]);
        } else if j < p.len() {
            lemma_rm_kept_misses(s.drop_last(), path, recursive, j);
            let k = choose|k: int| 0 <= k < s.drop_last().len() && #[trigger] s.drop_last()[k] == p[j];
            assert(s[k] == p[j]);
        } else {
            assert(s[s.len() - 1] == s.last());
        }
    }
}

/// After `rm`, nothing is found under the removed path.
pub proof fn lemma_rm_then_absent(s: Seq<(Seq<char>, EntryView)>, path: Seq<char>, recursive: bool)
    ensures
        index_of(rm_kept(s, path, recursive), path) is None,
{
    let t = rm_kept(s, path, recursive);
    if exists|j: int| 0 <= j < t.len() && #[trigger] t[j].0 == path {
        let j = choose|j: int| 0 <= j < t.len() && #[trigger] t[j].0 == path;
        lemma_rm_kept_misses(s, path, recursive, j);
    }
}

/// `rm` keeps every entry it does not hit.
pub proof fn lemma_rm_keeps_other(s: Seq<(Seq<char>, EntryView)>, path: Seq<char>, recursive: bool, other: Seq<char>)
    requires
        !rm_hits(other, path, recursive),
        index_of(s, other) is Some,
    ensures
        index_of(rm_kept(s, path, recursive), other) is Some,
    decreases s.len(),
{
    let j = choose|j: int| 0 <= j < s.len() && #[trigger] s[j].0 == other;
    let p = s.drop_last();
    let kp = rm_kept(p, path, recursive);
    if j == s.len() - 1 {
        assert(!rm_hits(s.last().0, path, recursive));
        let t = rm_kept(s, path, recursive);
        assert(t[t.len() - 1].0 == other);
    } else {
        assert(p[j].0 == other);
        lemma_rm_keeps_other(p, path, recursive, other);
        let k = choose|k: int| 0 <= k < kp.len() && #[trigger] kp[k].0 == other;
        let t = rm_kept(s, path, recursive);
        assert(t[k] == kp[k]);
    }
}

/// Removing an entry by position keeps the others present.
pub proof fn lemma_remove_keeps_other(s: Seq<(Seq<char>, EntryView)>, i: int, other: Seq<char>)
    requires
        0 <= i < s.len(),
        s[i].0 != other,
        index_of(s, other) is Some,
    ensures
        index_of(remove_at(s, i), other) is Some,
{
    let j = choose|j: int| 0 <= j < s.len() && #[trigger] s[j].0 == other;
    let t = remove_at(s, i);
    if j < i {
        assert(t[j] == s[j]);
    } else {
        assert(t[j - 1] == s[j]);
    }
}

} // verus!

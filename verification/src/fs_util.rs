//! Path-name checks that keep extracted files inside their output directory.

use vstd::prelude::*;
use crate::text::{chars_of, chars_contain, string_of};

verus! {

/// A name that is exactly one ordinary path component: not empty, free of
/// separators and NUL, and neither `.` nor `..`.
pub open spec fn simple_name(s: Seq<char>) -> bool {
    &&& s.len() > 0
    &&& !s.contains('/')
    &&& !s.contains('\\')
    &&& !s.contains('\0')
    &&& s != seq!['.']
    &&& s != seq!['.', '.']
}

pub fn chars_are_simple_name(s: &[char]) -> (r: bool)
    ensures
        r == simple_name(s@),
{
    if s.len() == 0 || chars_contain(s, '/') || chars_contain(s, '\\') || chars_contain(s, '\0') {
        return false;
    }
    if s.len() == 1 && s[0] == '.' {
        proof {
            assert(s@ =~= seq!['.']);
        }
        return false;
    }
    if s.len() == 2 && s[0] == '.' && s[1] == '.' {
        proof {
            assert(s@ =~= seq!['.', '.']);
        }
        return false;
    }
    proof {
        if s@ == seq!['.'] {
            assert(s@[0] == '.');
        }
        if s@ == seq!['.', '.'] {
            assert(s@[0] == '.' && s@[1] == '.');
        }
    }
    true
}

/// Whether `name` is a single ordinary path component (Unix path rules).
pub fn is_simple_name(name: &str) -> (r: bool)
    ensures
        r == simple_name(name@),
{
    let chars = chars_of(name);
    chars_are_simple_name(chars.as_slice())
}

/// Whether the component `s[i..j]` is `..`, where `i` starts a component
/// and `j` ends one.
pub open spec fn parent_component_at(s: Seq<char>, i: int) -> bool {
    &&& 0 <= i
    &&& i + 2 <= s.len()
    &&& (i == 0 || s[i - 1] == '/')
    &&& s[i] == '.'
    &&& s[i + 1] == '.'
    &&& (i + 2 == s.len() || s[i + 2] == '/')
}

/// A relative path whose components are all ordinary names or `.`.
pub open spec fn safe_relative(s: Seq<char>) -> bool {
    &&& !(s.len() > 0 && s[0] == '/')
    &&& forall|i: int| !#[trigger] parent_component_at(s, i)
}

/// `base.join(relative)` for a relative `relative`.
pub open spec fn join_path(base: Seq<char>, relative: Seq<char>) -> Seq<char> {
    if base.len() == 0 || base.last() == '/' {
        base + relative
    } else {
        base + seq!['/'] + relative
    }
}

/// Why a path from an archive or manifest was refused.
#[derive(Debug, Clone, Copy, PartialEq, Eq, Structural)]
pub enum JoinError {
    Absolute,
    Unsafe,
}

fn has_parent_component(s: &[char]) -> (r: bool)
    ensures
        r == exists|i: int| #[trigger] parent_component_at(s@, i),
{
    let n = s.len();
    let mut i: usize = 0;
    while i < n
        invariant
            i <= n,
            n == s@.len(),
            forall|k: int| 0 <= k < i ==> !#[trigger] parent_component_at(s@, k),
        decreases n - i,
    {
        if n - i >= 2 && (i == 0 || s[i - 1] == '/') && s[i] == '.' && s[i + 1] == '.' && (i + 2
            == n || s[i + 2] == '/') {
            assert(parent_component_at(s@, i as int));
            return true;
        }
        i = i + 1;
    }
    false
}

/// Joins `relative` onto `base`, refusing an absolute path or one with a
/// `..` component.
pub fn safe_join(base: &str, relative: &str) -> (r: Result<String, JoinError>)
    ensures
        relative@.len() > 0 && relative@[0] == '/' ==> r == Err::<String, JoinError>(
            JoinError::Absolute,
        ),
        !(relative@.len() > 0 && relative@[0] == '/') && !safe_relative(relative@) ==> r == Err::<
            String,
            JoinError,
        >(JoinError::Unsafe),
        safe_relative(relative@) ==> (r matches Ok(p) && p@ == join_path(base@, relative@)),
{
    let rel = chars_of(relative);
    if rel.len() > 0 && rel[0] == '/' {
        return Err(JoinError::Absolute);
    }
    if has_parent_component(rel.as_slice()) {
        return Err(JoinError::Unsafe);
    }
    let b = chars_of(base);
    let mut out = b.clone();
    if b.len() > 0 && b[b.len() - 1] != '/' {
        out.push('/');
    }
    let mut k: usize = 0;
    let ghost start = out@;
    while k < rel.len()
        invariant
            k <= rel@.len(),
            out@ == start + rel@.subrange(0, k as int),
        decreases rel@.len() - k,
    {
        out.push(rel[k]);
        proof {
            assert(out@ =~= start + rel@.subrange(0, k + 1));
        }
        k = k + 1;
    }
    proof {
        assert(rel@.subrange(0, rel@.len() as int) =~= rel@);
        if b@.len() == 0 || b@.last() == '/' {
            assert(start =~= b@);
        } else {
            assert(start =~= b@ + seq!['/']);
        }
    }
    Ok(string_of(out.as_slice()))
}

/// Where the last `.` of `s` is.
pub open spec fn last_dot(s: Seq<char>) -> Option<int>
    decreases s.len(),
{
    if s.len() == 0 {
        None
    } else if s.last() == '.' {
        Some(s.len() - 1)
    } else {
        last_dot(s.drop_last())
    }
}

/// A file name's stem and extension, as `Path::file_stem` and
/// `Path::extension` give them: split at the last `.`, except that `..`, a
/// name without a `.` and one whose only `.` comes first have no extension
/// and are their own stem.
pub open spec fn split_file_name_of(name: Seq<char>) -> (Seq<char>, Option<Seq<char>>) {
    if name == seq!['.', '.'] {
        (name, None)
    } else {
        match last_dot(name) {
            None => (name, None),
            Some(i) => if i == 0 {
                (name, None)
            } else {
                (name.take(i), Some(name.skip(i + 1)))
            },
        }
    }
}

proof fn lemma_last_dot_prefix(s: Seq<char>, k: int)
    requires
        0 <= k <= s.len(),
        forall|j: int| k <= j < s.len() ==> s[j] != '.',
    ensures
        last_dot(s) == last_dot(s.take(k)),
    decreases s.len() - k,
{
    if k < s.len() {
        assert(s.drop_last().take(k) =~= s.take(k));
        lemma_last_dot_prefix(s.drop_last(), k);
    } else {
        assert(s.take(k) =~= s);
    }
}

/// A file name's stem and extension; see [`split_file_name_of`].
pub fn split_file_name(name: &str) -> (r: (String, Option<String>))
    ensures
        r.0@ == split_file_name_of(name@).0,
        match split_file_name_of(name@).1 {
            Some(e) => r.1 matches Some(x) && x@ == e,
            None => r.1 is None,
        },
{
    let cs = chars_of(name);
    let n = cs.len();
    if n == 2 && cs[0] == '.' && cs[1] == '.' {
        proof {
            assert(name@ =~= seq!['.', '.']);
        }
        return (string_of(cs.as_slice()), None);
    }
    proof {
        assert(name@ != seq!['.', '.']);
    }
    let mut k: usize = n;
    while k > 0 && cs[k - 1] != '.'
        invariant
            k <= n,
            n == cs@.len(),
            cs@ == name@,
            forall|j: int| k <= j < n ==> cs@[j] != '.',
        decreases k,
    {
        k = k - 1;
    }
    proof {
        lemma_last_dot_prefix(cs@, k as int);
        if k > 0 {
            assert(cs@.take(k as int).last() == '.');
        } else {
            assert(cs@.take(0) =~= Seq::<char>::empty());
        }
    }
    if k <= 1 {
        return (string_of(cs.as_slice()), None);
    }
    let stem = vstd::slice::slice_subrange(cs.as_slice(), 0, k - 1);
    let ext = vstd::slice::slice_subrange(cs.as_slice(), k, n);
    proof {
        assert(stem@ =~= name@.take(k - 1));
        assert(ext@ =~= name@.skip(k as int));
    }
    (string_of(stem), Some(string_of(ext)))
}

/// The permission bits that make an extracted path usable by its owner: owner
/// read and write always, owner execute for directories and for files that
/// already had an execute bit.
pub open spec fn writable_mode_of(old_mode: u32, is_dir: bool) -> u32 {
    if is_dir || old_mode & 0o111 != 0 {
        old_mode | 0o700
    } else {
        old_mode | 0o600
    }
}

pub fn writable_mode(old_mode: u32, is_dir: bool) -> (r: u32)
    ensures
        r == writable_mode_of(old_mode, is_dir),
{
    let mut new_mode = old_mode | 0o600;
    if is_dir || old_mode & 0o111 != 0 {
        new_mode = new_mode | 0o100;
        assert(old_mode | 0o600 | 0o100 == old_mode | 0o700) by (bit_vector);
    }
    new_mode
}

} // verus!

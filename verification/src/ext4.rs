//! ext2/ext4 images: recognising one, and the Android metadata files
//! (`fs_config` and `file_contexts`) written beside an extracted tree.

use vstd::prelude::*;
use crate::gui::{hex64, upper_hex_of};
use crate::text::{decimal, decimal_of, push_str_chars, string_of};

verus! {

/// Where the superblock magic sits.
pub const EXT4_MAGIC_OFFSET: u64 = 1080;

/// Whether a file of `file_len` bytes whose two bytes at offset 1080 are
/// `magic` is an ext2/ext3/ext4 image: the superblock magic `53 ef`.
pub fn is_ext4_magic(file_len: u64, magic: &[u8]) -> (r: bool)
    ensures
        r == (file_len >= EXT4_MAGIC_OFFSET + 2 && magic@ == seq![0x53u8, 0xef]),
{
    if file_len < EXT4_MAGIC_OFFSET + 2 || magic.len() != 2 {
        return false;
    }
    let r = magic[0] == 0x53 && magic[1] == 0xef;
    proof {
        if r {
            assert(magic@ =~= seq![0x53u8, 0xef]);
        }
    }
    r
}

/// What extraction recorded of one node of the tree.
#[derive(Debug, Clone)]
pub struct Ext4Node {
    pub path: String,
    pub uid: u32,
    pub gid: u32,
    pub mode: u32,
    pub capabilities: Option<u64>,
    pub selinux_context: Option<String>,
}

/// The characters that `file_contexts` reads as regular-expression syntax.
pub open spec fn needs_escape(c: char) -> bool {
    c == '.' || c == '+' || c == '[' || c == ']' || c == '*'
}

/// A path as a `file_contexts` pattern: each special character preceded
/// by a backslash.
pub open spec fn escape_of(s: Seq<char>) -> Seq<char>
    decreases s.len(),
{
    if s.len() == 0 {
        seq![]
    } else {
        escape_of(s.drop_last()) + if needs_escape(s.last()) {
            seq!['\\', s.last()]
        } else {
            seq![s.last()]
        }
    }
}

/// A path as a `file_contexts` pattern; see [`escape_of`].
pub fn escape_file_contexts_path(path: &str) -> (r: String)
    ensures
        r@ == escape_of(path@),
{
    let cs = crate::text::chars_of(path);
    let mut out: Vec<char> = Vec::new();
    let mut i: usize = 0;
    while i < cs.len()
        invariant
            i <= cs@.len(),
            cs@ == path@,
            out@ == escape_of(cs@.take(i as int)),
        decreases cs@.len() - i,
    {
        let c = cs[i];
        proof {
            assert(cs@.take(i + 1).drop_last() =~= cs@.take(i as int));
            assert(cs@.take(i + 1).last() == c);
        }
        if c == '.' || c == '+' || c == '[' || c == ']' || c == '*' {
            out.push('\\');
        }
        out.push(c);
        proof {
            assert(out@ =~= escape_of(cs@.take(i + 1)));
        }
        i = i + 1;
    }
    proof {
        assert(cs@.take(i as int) =~= cs@);
    }
    string_of(out.as_slice())
}

/// An octal digit.
pub open spec fn oct_digit(d: int) -> char {
    ('0' as int + d) as char
}

/// The permission bits, as four octal digits.
pub open spec fn mode_octal(mode: u32) -> Seq<char> {
    let m = (mode & 0o777) as int;
    seq!['0', oct_digit(m / 64), oct_digit((m / 8) % 8), oct_digit(m % 8)]
}

/// A node's `fs_config` line: path, uid, gid, permission bits in octal,
/// and its capabilities in hexadecimal when it has any.
pub open spec fn fs_config_line_of(n: Ext4Node) -> Seq<char> {
    n.path@ + seq![' '] + decimal_of(n.uid as nat) + seq![' '] + decimal_of(n.gid as nat) + seq![' ']
        + mode_octal(n.mode) + match n.capabilities {
        Some(c) => " capabilities=0x"@ + upper_hex_of(c as nat),
        None => seq![],
    } + seq!['\n']
}

/// A node's `file_contexts` line, when it has an SELinux context.
pub open spec fn file_contexts_line_of(n: Ext4Node) -> Option<Seq<char>> {
    match n.selinux_context {
        Some(ctx) => Some(escape_of(n.path@) + seq![' '] + ctx@ + seq!['\n']),
        None => None,
    }
}

fn push_octal(out: &mut Vec<char>, mode: u32)
    ensures
        final(out)@ == old(out)@ + mode_octal(mode),
{
    let m = mode & 0o777;
    assert(m <= 0o777) by (bit_vector)
        requires
            m == mode & 0o777,
    ;
    out.push('0');
    out.push(((0x30 + m / 64) as u8) as char);
    out.push(((0x30 + (m / 8) % 8) as u8) as char);
    out.push(((0x30 + m % 8) as u8) as char);
}

/// A node's `fs_config` line; see [`fs_config_line_of`].
pub fn fs_config_line(n: &Ext4Node) -> (r: String)
    ensures
        r@ == fs_config_line_of(*n),
{
    let mut out: Vec<char> = Vec::new();
    push_str_chars(&mut out, n.path.as_str());
    out.push(' ');
    push_str_chars(&mut out, decimal(n.uid as u64).as_str());
    out.push(' ');
    push_str_chars(&mut out, decimal(n.gid as u64).as_str());
    out.push(' ');
    push_octal(&mut out, n.mode);
    let ghost before = out@;
    match n.capabilities {
        Some(c) => {
            push_str_chars(&mut out, " capabilities=");
            push_str_chars(&mut out, hex64(c).as_str());
            proof {
                reveal_strlit(" capabilities=");
                reveal_strlit(" capabilities=0x");
                assert(out@ =~= before + " capabilities=0x"@ + upper_hex_of(c as nat));
            }
        },
        None => {},
    }
    out.push('\n');
    proof {
        assert(out@ =~= fs_config_line_of(*n));
    }
    string_of(out.as_slice())
}

/// A node's `file_contexts` line; see [`file_contexts_line_of`].
pub fn file_contexts_line(n: &Ext4Node) -> (r: Option<String>)
    ensures
        match file_contexts_line_of(*n) {
            Some(l) => r matches Some(s) && s@ == l,
            None => r is None,
        },
{
    match &n.selinux_context {
        None => None,
        Some(ctx) => {
            let mut out: Vec<char> = Vec::new();
            push_str_chars(&mut out, escape_file_contexts_path(n.path.as_str()).as_str());
            out.push(' ');
            push_str_chars(&mut out, ctx.as_str());
            out.push('\n');
            proof {
                assert(out@ =~= escape_of(n.path@) + seq![' '] + ctx@ + seq!['\n']);
            }
            Some(string_of(out.as_slice()))
        },
    }
}

/// The `fs_config` file: one line per node, in order.
pub open spec fn fs_config_of(nodes: Seq<Ext4Node>) -> Seq<char>
    decreases nodes.len(),
{
    if nodes.len() == 0 {
        seq![]
    } else {
        fs_config_of(nodes.drop_last()) + fs_config_line_of(nodes.last())
    }
}

/// The `file_contexts` file: a line for each node with a context, in order.
pub open spec fn file_contexts_of(nodes: Seq<Ext4Node>) -> Seq<char>
    decreases nodes.len(),
{
    if nodes.len() == 0 {
        seq![]
    } else {
        file_contexts_of(nodes.drop_last()) + match file_contexts_line_of(nodes.last()) {
            Some(l) => l,
            None => seq![],
        }
    }
}

/// The `fs_config` file for the extracted nodes; see [`fs_config_of`].
pub fn fs_config_text(nodes: &Vec<Ext4Node>) -> (r: String)
    ensures
        r@ == fs_config_of(nodes@),
{
    let mut out: Vec<char> = Vec::new();
    let mut i: usize = 0;
    while i < nodes.len()
        invariant
            i <= nodes@.len(),
            out@ == fs_config_of(nodes@.take(i as int)),
        decreases nodes@.len() - i,
    {
        let line = fs_config_line(&nodes[i]);
        push_str_chars(&mut out, line.as_str());
        proof {
            assert(nodes@.take(i + 1).drop_last() =~= nodes@.take(i as int));
            assert(nodes@.take(i + 1).last() == nodes@[i as int]);
        }
        i = i + 1;
    }
    proof {
        assert(nodes@.take(i as int) =~= nodes@);
    }
    string_of(out.as_slice())
}

/// The `file_contexts` file for the extracted nodes; see
/// [`file_contexts_of`].
pub fn file_contexts_text(nodes: &Vec<Ext4Node>) -> (r: String)
    ensures
        r@ == file_contexts_of(nodes@),
{
    let mut out: Vec<char> = Vec::new();
    let mut i: usize = 0;
    while i < nodes.len()
        invariant
            i <= nodes@.len(),
            out@ == file_contexts_of(nodes@.take(i as int)),
        decreases nodes@.len() - i,
    {
        proof {
            assert(nodes@.take(i + 1).drop_last() =~= nodes@.take(i as int));
            assert(nodes@.take(i + 1).last() == nodes@[i as int]);
        }
        match file_contexts_line(&nodes[i]) {
            Some(line) => {
                push_str_chars(&mut out, line.as_str());
            },
            None => {
                proof {
                    assert(out@ =~= out@ + Seq::<char>::empty());
                }
            },
        }
        i = i + 1;
    }
    proof {
        assert(nodes@.take(i as int) =~= nodes@);
    }
    string_of(out.as_slice())
}

} // verus!

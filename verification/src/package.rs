//! Choosing which partitions of an unpacked package to unpack further, and
//! recognising HARMONY!-framed ramdisk images.

use vstd::prelude::*;
use crate::bytes::{be_u64, be_u64_at};
use crate::fs_util::{simple_name, chars_are_simple_name};
use crate::header::{check_fmt, compressed, format_of, FileFormat};
use crate::text::{chars_eq, chars_of};
use crate::update_bin::{Component, ComponentView};

verus! {

/// What probing a component's extracted image found.
#[derive(Debug, Clone, Copy, PartialEq, Eq, Structural)]
pub struct ImageProbe {
    pub is_erofs: bool,
    pub is_harmony_ramdisk: bool,
}

/// Why a requested partition could not be selected; `index` counts the
/// requested names from zero.
#[derive(Debug, Clone, Copy, PartialEq, Eq, Structural)]
pub enum SelectError {
    UnsafeName { index: usize },
    NotPresent { index: usize },
}

/// A requested name with one trailing `.img` removed.
pub open spec fn strip_img(s: Seq<char>) -> Seq<char> {
    if s.len() >= 4 && s.subrange(s.len() - 4, s.len() as int) == ".img"@ {
        s.subrange(0, s.len() - 4)
    } else {
        s
    }
}

/// Whether a component is chosen when no names are requested.
pub open spec fn auto_selected(c: ComponentView, p: ImageProbe, all_erofs: bool) -> bool {
    c.component_type == 0 && if all_erofs {
        p.is_erofs
    } else {
        p.is_erofs || p.is_harmony_ramdisk
    }
}

/// The indices, in table order, of the components chosen without names.
pub open spec fn auto_selection(
    comps: Seq<ComponentView>,
    probes: Seq<ImageProbe>,
    all_erofs: bool,
    n: int,
) -> Seq<int>
    decreases n,
{
    if n <= 0 {
        Seq::empty()
    } else if auto_selected(comps[n - 1], probes[n - 1], all_erofs) {
        auto_selection(comps, probes, all_erofs, n - 1).push(n - 1)
    } else {
        auto_selection(comps, probes, all_erofs, n - 1)
    }
}

/// The first component at or after `k` with the given name.
pub open spec fn first_named(comps: Seq<ComponentView>, name: Seq<char>, k: int) -> Option<int>
    decreases comps.len() - k,
{
    if k < 0 || k >= comps.len() {
        None
    } else if comps[k].name == name {
        Some(k)
    } else {
        first_named(comps, name, k + 1)
    }
}

/// The selection made by the first `n` requested names: the chosen
/// component indices and the names already handled.
pub open spec fn named_selection(comps: Seq<ComponentView>, requested: Seq<Seq<char>>, n: int) -> Result<
    (Seq<int>, Seq<Seq<char>>),
    SelectError,
>
    decreases n,
{
    if n <= 0 {
        Ok((Seq::empty(), Seq::empty()))
    } else {
        match named_selection(comps, requested, n - 1) {
            Err(e) => Err(e),
            Ok((chosen, seen)) => {
                let name = strip_img(requested[n - 1]);
                if !simple_name(name) {
                    Err(SelectError::UnsafeName { index: (n - 1) as usize })
                } else if seen.contains(name) {
                    Ok((chosen, seen))
                } else {
                    match first_named(comps, name, 0) {
                        None => Err(SelectError::NotPresent { index: (n - 1) as usize }),
                        Some(k) => Ok((chosen.push(k), seen.push(name))),
                    }
                }
            },
        }
    }
}

/// The partitions chosen for further unpacking, as component indices.
pub open spec fn selection(
    comps: Seq<ComponentView>,
    requested: Seq<Seq<char>>,
    all_erofs: bool,
    probes: Seq<ImageProbe>,
) -> Result<Seq<int>, SelectError> {
    if all_erofs || requested.len() == 0 {
        Ok(auto_selection(comps, probes, all_erofs, comps.len() as int))
    } else {
        match named_selection(comps, requested, requested.len() as int) {
            Ok((chosen, _)) => Ok(chosen),
            Err(e) => Err(e),
        }
    }
}

fn strip_img_vec(s: &Vec<char>) -> (r: Vec<char>)
    ensures
        r@ == strip_img(s@),
{
    let n = s.len();
    let suffix = chars_of(".img");
    if n >= 4 {
        let mut tail: Vec<char> = Vec::new();
        let mut i: usize = n - 4;
        while i < n
            invariant
                n >= 4,
                n - 4 <= i <= n,
                n == s@.len(),
                tail@ == s@.subrange(n - 4, i as int),
            decreases n - i,
        {
            tail.push(s[i]);
            proof {
                assert(tail@ =~= s@.subrange(n - 4, i + 1));
            }
            i = i + 1;
        }
        if chars_eq(tail.as_slice(), suffix.as_slice()) {
            let mut head: Vec<char> = Vec::new();
            let mut j: usize = 0;
            while j < n - 4
                invariant
                    n >= 4,
                    j <= n - 4,
                    n == s@.len(),
                    head@ == s@.subrange(0, j as int),
                decreases n - 4 - j,
            {
                head.push(s[j]);
                proof {
                    assert(head@ =~= s@.subrange(0, j + 1));
                }
                j = j + 1;
            }
            return head;
        }
    }
    s.clone()
}

fn find_named(components: &Vec<Component>, name: &Vec<char>) -> (r: Option<usize>)
    ensures
        r matches Some(k) ==> first_named(components@.map_values(|c: Component| c@), name@, 0) == Some(k as int),
        r is None ==> first_named(components@.map_values(|c: Component| c@), name@, 0) is None,
{
    let ghost views = components@.map_values(|c: Component| c@);
    let mut k: usize = 0;
    while k < components.len()
        invariant
            k <= components@.len(),
            views == components@.map_values(|c: Component| c@),
            first_named(views, name@, 0) == first_named(views, name@, k as int),
        decreases components@.len() - k,
    {
        let existing = chars_of(components[k].name.as_str());
        if chars_eq(existing.as_slice(), name.as_slice()) {
            return Some(k);
        }
        k = k + 1;
    }
    None
}

fn seen_contains(seen: &Vec<Vec<char>>, name: &Vec<char>) -> (r: bool)
    ensures
        r == seen@.map_values(|v: Vec<char>| v@).contains(name@),
{
    let ghost views = seen@.map_values(|v: Vec<char>| v@);
    let mut k: usize = 0;
    while k < seen.len()
        invariant
            k <= seen@.len(),
            views == seen@.map_values(|v: Vec<char>| v@),
            forall|j: int| 0 <= j < k ==> views[j] != name@,
        decreases seen@.len() - k,
    {
        if chars_eq(seen[k].as_slice(), name.as_slice()) {
            assert(views[k as int] == name@);
            return true;
        }
        k = k + 1;
    }
    false
}

proof fn lemma_named_err(comps: Seq<ComponentView>, requested: Seq<Seq<char>>, n: int, m: int)
    requires
        0 <= n <= m,
        named_selection(comps, requested, n) is Err,
    ensures
        named_selection(comps, requested, m) == named_selection(comps, requested, n),
    decreases m - n,
{
    if n < m {
        lemma_named_err(comps, requested, n, m - 1);
    }
}

/// Chooses the components to unpack further: with `all_erofs`, every image
/// component whose probe found EROFS; with no requested names, every image
/// component found to be EROFS or a HARMONY! ramdisk; otherwise the named
/// partitions in request order, each once (a trailing `.img` is ignored).
pub fn select_partitions(
    components: &Vec<Component>,
    requested: &Vec<String>,
    all_erofs: bool,
    probes: &Vec<ImageProbe>,
) -> (r: Result<Vec<Component>, SelectError>)
    requires
        probes@.len() == components@.len(),
    ensures
        match selection(
            components@.map_values(|c: Component| c@),
            requested@.map_values(|s: String| s@),
            all_erofs,
            probes@,
        ) {
            Ok(chosen) => r matches Ok(v) && v@.map_values(|c: Component| c@) == chosen.map_values(
                |k: int| components@[k]@,
            ),
            Err(e) => r == Err::<Vec<Component>, SelectError>(e),
        },
{
    let ghost views = components@.map_values(|c: Component| c@);
    let ghost names = requested@.map_values(|s: String| s@);
    let mut selected: Vec<Component> = Vec::new();
    if all_erofs || requested.len() == 0 {
        let ghost mut chosen: Seq<int> = Seq::empty();
        let mut i: usize = 0;
        while i < components.len()
            invariant
                i <= components@.len(),
                probes@.len() == components@.len(),
                views == components@.map_values(|c: Component| c@),
                chosen == auto_selection(views, probes@, all_erofs, i as int),
                forall|j: int| 0 <= j < chosen.len() ==> 0 <= #[trigger] chosen[j] < i,
                selected@.map_values(|c: Component| c@) == chosen.map_values(
                    |k: int| components@[k]@,
                ),
            decreases components@.len() - i,
        {
            let c = &components[i];
            let p = probes[i];
            let take = c.component_type == 0 && if all_erofs {
                p.is_erofs
            } else {
                p.is_erofs || p.is_harmony_ramdisk
            };
            if take {
                let ghost before = selected@.map_values(|c: Component| c@);
                selected.push(c.copy());
                proof {
                    assert(selected@.map_values(|c: Component| c@) =~= before.push(components@[i as int]@));
                    chosen = chosen.push(i as int);
                    assert(selected@.map_values(|c: Component| c@) =~= chosen.map_values(
                        |k: int| components@[k]@,
                    ));
                }
            }
            i = i + 1;
        }
        return Ok(selected);
    }
    let ghost mut chosen: Seq<int> = Seq::empty();
    let mut seen: Vec<Vec<char>> = Vec::new();
    let mut i: usize = 0;
    proof {
        assert(seen@.map_values(|v: Vec<char>| v@) =~= Seq::<Seq<char>>::empty());
        assert(selected@.map_values(|c: Component| c@) =~= chosen.map_values(
            |k: int| components@[k]@,
        ));
    }
    while i < requested.len()
        invariant
            i <= requested@.len(),
            !all_erofs,
            requested@.len() > 0,
            names.len() == requested@.len(),
            views == components@.map_values(|c: Component| c@),
            names == requested@.map_values(|s: String| s@),
            named_selection(views, names, i as int) == Ok::<(Seq<int>, Seq<Seq<char>>), SelectError>(
                (chosen, seen@.map_values(|v: Vec<char>| v@)),
            ),
            forall|j: int| 0 <= j < chosen.len() ==> 0 <= #[trigger] chosen[j] < components@.len(),
            selected@.map_values(|c: Component| c@) == chosen.map_values(|k: int| components@[k]@),
        decreases requested@.len() - i,
    {
        let raw = chars_of(requested[i].as_str());
        let name = strip_img_vec(&raw);
        assert(names[i as int] == raw@);
        if !chars_are_simple_name(name.as_slice()) {
            proof {
                lemma_named_err(views, names, i + 1, names.len() as int);
            }
            return Err(SelectError::UnsafeName { index: i });
        }
        let ghost seen_before = seen@.map_values(|v: Vec<char>| v@);
        if !seen_contains(&seen, &name) {
            match find_named(components, &name) {
                None => {
                    proof {
                        lemma_named_err(views, names, i + 1, names.len() as int);
                    }
                    return Err(SelectError::NotPresent { index: i });
                },
                Some(k) => {
                    proof {
                        lemma_first_named_range(views, name@, 0);
                        assert(strip_img(names[i as int]) == name@);
                        assert(simple_name(name@));
                        assert(!seen_before.contains(name@));
                        assert(first_named(views, name@, 0) == Some(k as int));
                        assert(named_selection(views, names, i + 1) == Ok::<(Seq<int>, Seq<Seq<char>>), SelectError>(
                            (chosen.push(k as int), seen_before.push(name@)),
                        ));
                    }
                    let ghost before = selected@.map_values(|c: Component| c@);
                    selected.push(components[k].copy());
                    seen.push(name);
                    proof {
                        assert(selected@.map_values(|c: Component| c@) =~= before.push(components@[k as int]@));
                        chosen = chosen.push(k as int);
                        assert(selected@.map_values(|c: Component| c@) =~= chosen.map_values(
                            |k: int| components@[k]@,
                        ));
                        assert(seen@.map_values(|v: Vec<char>| v@) =~= seen_before.push(name@));
                    }
                },
            }
        } else {
            assert(named_selection(views, names, i + 1) == Ok::<(Seq<int>, Seq<Seq<char>>), SelectError>(
                (chosen, seen_before),
            ));
        }
        i = i + 1;
    }
    Ok(selected)
}

proof fn lemma_first_named_range(comps: Seq<ComponentView>, name: Seq<char>, k: int)
    ensures
        first_named(comps, name, k) matches Some(j) ==> 0 <= j < comps.len() && comps[j].name
            == name,
    decreases comps.len() - k,
{
    if 0 <= k < comps.len() && comps[k].name != name {
        lemma_first_named_range(comps, name, k + 1);
    }
}

/// Where the EROFS superblock magic sits.
pub const EROFS_MAGIC_OFFSET: u64 = 1024;

/// Whether a file of `file_len` bytes whose four bytes at offset 1024 are
/// `magic` is an EROFS image: the superblock magic `e2 e1 f5 e0`.
pub fn is_erofs_magic(file_len: u64, magic: &[u8]) -> (r: bool)
    ensures
        r == (file_len >= EROFS_MAGIC_OFFSET + 4 && magic@ == seq![0xe2u8, 0xe1, 0xf5, 0xe0]),
{
    if file_len < EROFS_MAGIC_OFFSET + 4 || magic.len() != 4 {
        return false;
    }
    let r = magic[0] == 0xe2 && magic[1] == 0xe1 && magic[2] == 0xf5 && magic[3] == 0xe0;
    proof {
        if r {
            assert(magic@ =~= seq![0xe2u8, 0xe1, 0xf5, 0xe0]);
        }
    }
    r
}

/// Whether a payload starts like a ramdisk: a known compression or a newc cpio archive.
pub open spec fn ramdisk_payload(payload: Seq<u8>) -> bool {
    compressed(format_of(payload)) || format_of(payload) == FileFormat::RAW
}

pub fn is_ramdisk_payload(payload: &[u8]) -> (r: bool)
    ensures
        r == ramdisk_payload(payload@),
{
    let format = check_fmt(payload);
    format.is_compressed() || format == FileFormat::RAW
}

/// Whether the first 16 bytes are `HARMONY!` and a big-endian header size
/// in `32..=1 MiB` whose payload's first 16 bytes lie inside the file.
pub open spec fn harmony_ramdisk_header(head: Seq<u8>, file_size: u64) -> bool {
    &&& file_size >= 32
    &&& head.len() >= 16
    &&& head.subrange(0, 8) == "HARMONY!"@.map_values(|c: char| c as u8)
    &&& 32 <= be_u64_at(head, 8) <= 1048576
    &&& be_u64_at(head, 8) + 16 <= file_size
}

/// The header size of a HARMONY! ramdisk image, from its first 16 bytes and
/// its size; the caller then checks the 16 bytes found at that offset with
/// [`is_ramdisk_payload`].
pub fn harmony_ramdisk_header_size(head: &[u8], file_size: u64) -> (r: Option<u64>)
    ensures
        harmony_ramdisk_header(head@, file_size) ==> r == Some(be_u64_at(head@, 8)),
        !harmony_ramdisk_header(head@, file_size) ==> r is None,
{
    if file_size < 32 || head.len() < 16 {
        return None;
    }
    let magic: [u8; 8] = [0x48, 0x41, 0x52, 0x4D, 0x4F, 0x4E, 0x59, 0x21];
    proof {
        reveal_strlit("HARMONY!");
        assert(magic@ =~= "HARMONY!"@.map_values(|c: char| c as u8));
    }
    let mut i: usize = 0;
    while i < 8
        invariant
            i <= 8,
            head@.len() >= 16,
            magic@ == "HARMONY!"@.map_values(|c: char| c as u8),
            forall|k: int| 0 <= k < i ==> head@[k] == magic@[k],
        decreases 8 - i,
    {
        if head[i] != magic[i] {
            proof {
                assert(head@.subrange(0, 8)[i as int] != magic@[i as int]);
            }
            return None;
        }
        i = i + 1;
    }
    proof {
        assert(head@.subrange(0, 8) =~= magic@);
    }
    let header_size = be_u64(head, 8);
    if header_size < 32 || header_size > 1048576 || header_size + 16 > file_size {
        return None;
    }
    Some(header_size)
}

/// Whether no component is chosen twice.
pub open spec fn chosen_once(chosen: Seq<int>) -> bool {
    forall|a: int, b: int| 0 <= a < b < chosen.len() ==> #[trigger] chosen[a] != #[trigger] chosen[b]
}

proof fn lemma_named_selection_shape(comps: Seq<ComponentView>, requested: Seq<Seq<char>>, n: int)
    requires
        named_selection(comps, requested, n) is Ok,
    ensures
        ({
            let (chosen, seen) = named_selection(comps, requested, n)->Ok_0;
            &&& chosen.len() == seen.len()
            &&& forall|j: int|
                0 <= j < chosen.len() ==> 0 <= #[trigger] chosen[j] < comps.len() && comps[chosen[j]].name
                    == seen[j]
            &&& forall|a: int, b: int| 0 <= a < b < seen.len() ==> #[trigger] seen[a] != #[trigger] seen[b]
        }),
    decreases n,
{
    if n > 0 {
        lemma_named_selection_shape(comps, requested, n - 1);
        let (chosen, seen) = named_selection(comps, requested, n - 1)->Ok_0;
        let name = strip_img(requested[n - 1]);
        if simple_name(name) && !seen.contains(name) {
            lemma_first_named_range(comps, name, 0);
            let k = first_named(comps, name, 0)->Some_0;
            let c2 = chosen.push(k);
            let s2 = seen.push(name);
            assert forall|a: int, b: int| 0 <= a < b < s2.len() implies #[trigger] s2[a] != #[trigger] s2[b] by {
                if b == s2.len() - 1 && s2[a] == s2[b] {
                    assert(seen[a] == name);
                    assert(seen.contains(name));
                }
            }
            assert forall|j: int| 0 <= j < c2.len() implies 0 <= #[trigger] c2[j] < comps.len()
                && comps[c2[j]].name == s2[j] by {
                if j < chosen.len() {
                    assert(c2[j] == chosen[j] && s2[j] == seen[j]);
                }
            }
        }
    }
}

/// Every component is chosen at most once: with a trailing `.img` or
/// without, a partition named twice is unpacked once.
pub proof fn lemma_selection_once(
    comps: Seq<ComponentView>,
    requested: Seq<Seq<char>>,
    all_erofs: bool,
    probes: Seq<ImageProbe>,
)
    requires
        selection(comps, requested, all_erofs, probes) is Ok,
    ensures
        chosen_once(selection(comps, requested, all_erofs, probes)->Ok_0),
{
    if all_erofs || requested.len() == 0 {
        lemma_auto_increasing(comps, probes, all_erofs, comps.len() as int);
    } else {
        lemma_named_selection_shape(comps, requested, requested.len() as int);
        let (chosen, seen) = named_selection(comps, requested, requested.len() as int)->Ok_0;
        assert forall|a: int, b: int| 0 <= a < b < chosen.len() implies #[trigger] chosen[a] != #[trigger] chosen[b] by {
            if chosen[a] == chosen[b] {
                assert(comps[chosen[a]].name == seen[a]);
                assert(comps[chosen[b]].name == seen[b]);
            }
        }
    }
}

proof fn lemma_auto_increasing(comps: Seq<ComponentView>, probes: Seq<ImageProbe>, all_erofs: bool, n: int)
    ensures
        forall|a: int, b: int|
            0 <= a < b < auto_selection(comps, probes, all_erofs, n).len() ==> #[trigger] auto_selection(
                comps,
                probes,
                all_erofs,
                n,
            )[a] < #[trigger] auto_selection(comps, probes, all_erofs, n)[b],
        forall|a: int|
            0 <= a < auto_selection(comps, probes, all_erofs, n).len() ==> #[trigger] auto_selection(
                comps,
                probes,
                all_erofs,
                n,
            )[a] < n,
    decreases n,
{
    if n > 0 {
        lemma_auto_increasing(comps, probes, all_erofs, n - 1);
        let p = auto_selection(comps, probes, all_erofs, n - 1);
        let v = auto_selection(comps, probes, all_erofs, n);
        if auto_selected(comps[n - 1], probes[n - 1], all_erofs) {
            assert(v == p.push(n - 1));
            assert forall|a: int, b: int| 0 <= a < b < v.len() implies #[trigger] v[a] < #[trigger] v[b] by {
                if b == v.len() - 1 {
                    assert(v[a] == p[a]);
                } else {
                    assert(v[a] == p[a] && v[b] == p[b]);
                }
            }
            assert forall|a: int| 0 <= a < v.len() implies #[trigger] v[a] < n by {
                if a < p.len() {
                    assert(v[a] == p[a]);
                }
            }
        } else {
            assert(v == p);
        }
    }
}

} // verus!

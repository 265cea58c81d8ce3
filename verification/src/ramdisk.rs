//! Ramdisk images: taking the cpio archive out of a HARMONY! frame, putting
//! an edited one back with the original compression, and the patch that
//! installs a new `init_early` while keeping the stock one.

use vstd::prelude::*;
use crate::compress::{compress_of, compress_vec, decompress_of, decompress_vec, CompressError};
use crate::cpio::{
    dump_bytes, index_of, load_from, norm_path_of, remove_at, rm_kept, rm_removed, upsert, AddSource,
    Cpio, CpioError, EntryView, S_IFDIR, S_IFLNK, S_IFREG,
};
use crate::harmony::{lemma_rebuild_then_extract, payload_of, rebuild_of, FrameError, FrameView, HvbFrame};
use crate::header::{check_fmt, compressed, format_of, FileFormat};

verus! {

/// Why a ramdisk could not be unpacked, patched or repacked.
#[derive(Debug, Clone, Copy, PartialEq, Eq, Structural)]
pub enum RamdiskError {
    /// The frame carries no payload.
    EmptyPayload,
    /// `.backup/init_early` is already there.
    AlreadyPatched,
    /// There is no `bin/init_early` to move aside.
    UnsupportedLayout,
    /// The archive's `TRAILER!!!` record is cut off inside its padding.
    TruncatedArchive,
    /// The archive is too large to be addressed here.
    ArchiveTooLarge,
    Archive(CpioError),
    Compress(CompressError),
    Frame(FrameError),
}

/// The entry `add_entry` makes from `source` with the permission bits of `mode`.
pub open spec fn source_entry(mode: u32, source: AddSource) -> EntryView {
    match source {
        AddSource::Directory => EntryView {
            mode: mode | S_IFDIR,
            uid: 0,
            gid: 0,
            rdevmajor: 0,
            rdevminor: 0,
            data: seq![],
        },
        AddSource::Symlink(t) => EntryView {
            mode: S_IFLNK | (mode & 0o7777),
            uid: 0,
            gid: 0,
            rdevmajor: 0,
            rdevminor: 0,
            data: t@,
        },
        AddSource::File(c) => EntryView {
            mode: S_IFREG | (mode & 0o7777),
            uid: 0,
            gid: 0,
            rdevmajor: 0,
            rdevminor: 0,
            data: c@,
        },
    }
}

/// The directory entry `mkdir` makes.
pub open spec fn dir_entry(mode: u32) -> EntryView {
    EntryView { mode: mode | S_IFDIR, uid: 0, gid: 0, rdevmajor: 0, rdevminor: 0, data: seq![] }
}

/// Removes `path` when it is present; the entries left and the names removed.
pub open spec fn drop_if_present(s: Seq<(Seq<char>, EntryView)>, path: Seq<char>) -> (
    Seq<(Seq<char>, EntryView)>,
    Seq<Seq<char>>,
) {
    let p = norm_path_of(path);
    if index_of(s, p) is Some {
        (rm_kept(s, p, false), rm_removed(s, p, false))
    } else {
        (s, seq![])
    }
}

/// The patch on the archive's entries: refused when `.backup/init_early`
/// exists or `bin/init_early` does not; otherwise `.backup` is made
/// (mode 0750), the stock `bin/init_early` moves to `.backup/init_early`,
/// `source` is installed as `bin/init_early` (mode 0750), and the ASan and
/// TSan runtimes are dropped to make room. Gives the entries and the names
/// dropped.
pub open spec fn patch_archive_of(s: Seq<(Seq<char>, EntryView)>, source: AddSource) -> Result<
    (Seq<(Seq<char>, EntryView)>, Seq<Seq<char>>),
    RamdiskError,
> {
    if index_of(s, norm_path_of(".backup/init_early"@)) is Some {
        Err(RamdiskError::AlreadyPatched)
    } else if index_of(s, norm_path_of("bin/init_early"@)) is None {
        Err(RamdiskError::UnsupportedLayout)
    } else {
        let s1 = upsert(s, norm_path_of(".backup"@), dir_entry(0o750));
        match index_of(s1, norm_path_of("bin/init_early"@)) {
            None => Err(RamdiskError::Archive(CpioError::NotFound)),
            Some(i) => {
                let s2 = upsert(remove_at(s1, i), norm_path_of(".backup/init_early"@), s1[i].1);
                let s3 = upsert(s2, norm_path_of("bin/init_early"@), source_entry(0o750, source));
                let (s4, r1) = drop_if_present(s3, "lib64/libclang_rt.asan.so"@);
                let (s5, r2) = drop_if_present(s4, "lib64/libclang_rt.tsan.so"@);
                Ok((s5, r1 + r2))
            },
        }
    }
}

fn drop_lib(cpio: &mut Cpio, path: &str, removed: &mut Vec<String>)
    ensures
        final(cpio).view_entries() == drop_if_present(old(cpio).view_entries(), path@).0,
        final(removed)@.map_values(|x: String| x@) == old(removed)@.map_values(|x: String| x@)
            + drop_if_present(old(cpio).view_entries(), path@).1,
{
    if cpio.has_entry(path) {
        let gone = cpio.rm(path, false);
        let ghost before = removed@.map_values(|x: String| x@);
        let mut k: usize = 0;
        while k < gone.len()
            invariant
                k <= gone@.len(),
                removed@.map_values(|x: String| x@) == before + gone@.map_values(|x: String| x@).take(
                    k as int,
                ),
            decreases gone@.len() - k,
        {
            let ghost prev = removed@;
            removed.push(gone[k].clone());
            proof {
                let g = gone@.map_values(|x: String| x@);
                assert(removed@ == prev.push(gone@[k as int]));
                assert(g.take(k + 1) =~= g.take(k as int).push(g[k as int]));
                assert(removed@.map_values(|x: String| x@) =~= prev.map_values(|x: String| x@).push(
                    gone@[k as int]@,
                ));
            }
            k = k + 1;
        }
        proof {
            assert(gone@.map_values(|x: String| x@).take(k as int) =~= gone@.map_values(
                |x: String| x@,
            ));
        }
    } else {
        proof {
            assert(removed@.map_values(|x: String| x@) =~= removed@.map_values(|x: String| x@)
                + Seq::<Seq<char>>::empty());
        }
    }
}

/// Installs `source` as `bin/init_early`, keeping the stock one as
/// `.backup/init_early`; see [`patch_archive_of`]. Gives the names of the
/// runtimes dropped; a refused archive is left as it was.
pub fn patch_archive(cpio: &mut Cpio, source: AddSource) -> (r: Result<Vec<String>, RamdiskError>)
    ensures
        match patch_archive_of(old(cpio).view_entries(), source) {
            Ok((s, dropped)) => r matches Ok(v) && v@.map_values(|x: String| x@) == dropped
                && final(cpio).view_entries() == s,
            Err(e) => r == Err::<Vec<String>, RamdiskError>(e) && final(cpio).view_entries()
                == old(cpio).view_entries(),
        },
{
    let ghost s = cpio.view_entries();
    let ghost src = source;
    if cpio.has_entry(".backup/init_early") {
        return Err(RamdiskError::AlreadyPatched);
    }
    if !cpio.has_entry("bin/init_early") {
        return Err(RamdiskError::UnsupportedLayout);
    }
    proof {
        reveal_strlit(".backup");
        reveal_strlit("bin/init_early");
        assert(norm_path_of("bin/init_early"@) != norm_path_of(".backup"@)) by {
            reveal_with_fuel(crate::cpio::norm_state, 16);
            assert(norm_path_of("bin/init_early"@)[0] != norm_path_of(".backup"@)[0]);
        }
        crate::cpio::lemma_upsert_keeps_other(
            s,
            norm_path_of(".backup"@),
            dir_entry(0o750),
            norm_path_of("bin/init_early"@),
        );
    }
    cpio.mkdir(0o750, ".backup");
    match cpio.mv("bin/init_early", ".backup/init_early") {
        Err(e) => {
            assert(false);
            return Err(RamdiskError::Archive(e));
        },
        Ok(()) => {},
    }
    let added = cpio.add_entry(0o750, "bin/init_early", source);
    assert(added is Ok);
    let mut removed: Vec<String> = Vec::new();
    proof {
        assert(removed@.map_values(|x: String| x@) =~= Seq::<Seq<char>>::empty());
    }
    drop_lib(cpio, "lib64/libclang_rt.asan.so", &mut removed);
    drop_lib(cpio, "lib64/libclang_rt.tsan.so", &mut removed);
    Ok(removed)
}

/// A successfully patched archive reads as patched (`test` answers 1), so
/// patching it a second time is refused.
pub proof fn lemma_patch_then_patched(s: Seq<(Seq<char>, EntryView)>, source: AddSource, again: AddSource)
    requires
        crate::cpio::sorted_entries(s),
        patch_archive_of(s, source) is Ok,
    ensures
        status_of(patch_archive_of(s, source)->Ok_0.0) == 1,
        patch_archive_of(patch_archive_of(s, source)->Ok_0.0, again) == Err::<
            (Seq<(Seq<char>, EntryView)>, Seq<Seq<char>>),
            RamdiskError,
        >(RamdiskError::AlreadyPatched),
{
    let b = norm_path_of(".backup/init_early"@);
    let i_name = norm_path_of("bin/init_early"@);
    let d = norm_path_of(".backup"@);
    let a = norm_path_of("lib64/libclang_rt.asan.so"@);
    let t = norm_path_of("lib64/libclang_rt.tsan.so"@);
    reveal_strlit(".backup/init_early");
    reveal_strlit("bin/init_early");
    reveal_strlit("lib64/libclang_rt.asan.so");
    reveal_strlit("lib64/libclang_rt.tsan.so");
    crate::cpio::lemma_norm_first(".backup/init_early"@);
    crate::cpio::lemma_norm_first("bin/init_early"@);
    crate::cpio::lemma_norm_first("lib64/libclang_rt.asan.so"@);
    crate::cpio::lemma_norm_first("lib64/libclang_rt.tsan.so"@);
    assert(b != i_name && b != a && b != t);
    let s1 = upsert(s, d, dir_entry(0o750));
    crate::cpio::lemma_upsert_then_find(s, d, dir_entry(0o750));
    let k = index_of(s1, i_name)->Some_0;
    let s1r = remove_at(s1, k);
    assert(0 <= k < s1.len()) by {
        let w = choose|w: int| 0 <= w < s1.len() && #[trigger] s1[w].0 == i_name;
    };
    crate::cpio::lemma_sorted_remove(s1, k);
    let s2 = upsert(s1r, b, s1[k].1);
    crate::cpio::lemma_upsert_then_find(s1r, b, s1[k].1);
    let s3 = upsert(s2, i_name, source_entry(0o750, source));
    crate::cpio::lemma_upsert_keeps_other(s2, i_name, source_entry(0o750, source), b);
    let s4 = drop_if_present(s3, "lib64/libclang_rt.asan.so"@).0;
    if index_of(s3, a) is Some {
        crate::cpio::lemma_rm_keeps_other(s3, a, false, b);
    }
    let s5 = drop_if_present(s4, "lib64/libclang_rt.tsan.so"@).0;
    if index_of(s4, t) is Some {
        crate::cpio::lemma_rm_keeps_other(s4, t, false, b);
    }
    assert(patch_archive_of(s, source)->Ok_0.0 == s5);
    assert(index_of(s5, b) is Some);
}

/// The format an edited archive is compressed in: the original payload's
/// own when that is a compression, gzip otherwise.
pub open spec fn repack_format_of(orig: Seq<u8>) -> FileFormat {
    if compressed(format_of(orig)) {
        format_of(orig)
    } else {
        FileFormat::GZIP
    }
}

/// The format an edited archive is compressed in; see [`repack_format_of`].
pub fn repack_format(orig_payload: &[u8]) -> (r: FileFormat)
    ensures
        r == repack_format_of(orig_payload@),
{
    let f = check_fmt(orig_payload);
    if f.is_compressed() {
        f
    } else {
        FileFormat::GZIP
    }
}

/// The archive bytes a payload holds: decompressed when its format is a
/// compression, the payload itself otherwise.
pub open spec fn archive_bytes_of(payload: Seq<u8>) -> Result<Seq<u8>, RamdiskError> {
    let f = format_of(payload);
    if compressed(f) {
        match decompress_of(f, payload) {
            Ok(v) => Ok(v),
            Err(e) => Err(RamdiskError::Compress(e)),
        }
    } else {
        Ok(payload)
    }
}

/// The archive bytes a payload holds; see [`archive_bytes_of`].
pub fn archive_bytes(payload: &[u8]) -> (r: Result<Vec<u8>, RamdiskError>)
    ensures
        match archive_bytes_of(payload@) {
            Ok(v) => r matches Ok(x) && x@ == v,
            Err(e) => r == Err::<Vec<u8>, RamdiskError>(e),
        },
{
    let f = check_fmt(payload);
    if f.is_compressed() {
        match decompress_vec(f, payload) {
            Ok(v) => Ok(v),
            Err(e) => Err(RamdiskError::Compress(e)),
        }
    } else {
        Ok(vstd::slice::slice_to_vec(payload))
    }
}

/// What unpacking a frame gives: its payload, the archive inside and the
/// payload's format; refused when the payload is empty.
pub open spec fn unpack_of(v: FrameView) -> Result<(Seq<u8>, Seq<u8>, FileFormat), RamdiskError> {
    let p = payload_of(v);
    if p.len() == 0 {
        Err(RamdiskError::EmptyPayload)
    } else {
        match archive_bytes_of(p) {
            Ok(a) => Ok((p, a, format_of(p))),
            Err(e) => Err(e),
        }
    }
}

/// Takes the payload and the archive it holds out of a frame; see
/// [`unpack_of`].
pub fn unpack_payload(frame: &HvbFrame) -> (r: Result<(Vec<u8>, Vec<u8>, FileFormat), RamdiskError>)
    ensures
        match unpack_of(frame@) {
            Ok((p, a, f)) => r matches Ok((rp, ra, rf)) && rp@ == p && ra@ == a && rf == f,
            Err(e) => r == Err::<(Vec<u8>, Vec<u8>, FileFormat), RamdiskError>(e),
        },
{
    let payload = frame.extract_image_payload();
    if payload.len() == 0 {
        return Err(RamdiskError::EmptyPayload);
    }
    let f = check_fmt(payload);
    match archive_bytes(payload) {
        Ok(a) => Ok((vstd::slice::slice_to_vec(payload), a, f)),
        Err(e) => Err(e),
    }
}

/// The entries read from archive bytes, refused where the reader would run
/// past the end of the bytes or where they are too many to address.
pub open spec fn load_archive_of(bytes: Seq<u8>) -> Result<Seq<(Seq<char>, EntryView)>, RamdiskError> {
    if bytes.len() + 3 > usize::MAX {
        Err(RamdiskError::ArchiveTooLarge)
    } else {
        match load_from(bytes, 0, Seq::empty()) {
            None => Err(RamdiskError::TruncatedArchive),
            Some(Err(e)) => Err(RamdiskError::Archive(e)),
            Some(Ok(s)) => Ok(s),
        }
    }
}

/// Reads archive bytes; see [`load_archive_of`].
pub fn load_archive(bytes: &[u8]) -> (r: Result<Cpio, RamdiskError>)
    ensures
        match load_archive_of(bytes@) {
            Ok(s) => r matches Ok(c) && c.view_entries() == s,
            Err(e) => r matches Err(x) && x == e,
        },
{
    if bytes.len() > usize::MAX - 3 {
        return Err(RamdiskError::ArchiveTooLarge);
    }
    match Cpio::load_checked(bytes) {
        None => Err(RamdiskError::TruncatedArchive),
        Some(Err(e)) => Err(RamdiskError::Archive(e)),
        Some(Ok(c)) => Ok(c),
    }
}

/// The frame and outcome of putting archive bytes back: compressed in
/// [`repack_format_of`] the original payload, then framed as `rebuild`
/// does; nothing changes when compression fails.
pub open spec fn repack_of(v: FrameView, orig: Seq<u8>, archive: Seq<u8>) -> (FrameView, Result<(), RamdiskError>) {
    match compress_of(repack_format_of(orig), archive) {
        Err(e) => (v, Err(RamdiskError::Compress(e))),
        Ok(p) => {
            let (w, r) = rebuild_of(v, p);
            (
                w,
                match r {
                    Ok(()) => Ok(()),
                    Err(e) => Err(RamdiskError::Frame(e)),
                },
            )
        },
    }
}

/// Compresses `cpio_bytes` like the original payload and frames them in
/// place of it; see [`repack_of`]. The certificate is kept byte for byte,
/// and unpacking the rebuilt frame gives back `cpio_bytes` in that format.
pub fn rebuild_image(frame: &mut HvbFrame, orig_payload: &[u8], cpio_bytes: &[u8]) -> (r: Result<
    (),
    RamdiskError,
>)
    requires
        old(frame).harmony.hdr_size >= 0x14,
    ensures
        final(frame)@ == repack_of(old(frame)@, orig_payload@, cpio_bytes@).0,
        r == repack_of(old(frame)@, orig_payload@, cpio_bytes@).1,
        final(frame).cert == old(frame).cert,
        r is Ok && cpio_bytes@.len() > 0 ==> (unpack_of(final(frame)@) matches Ok((_, a, f)) && a
            == cpio_bytes@ && f == repack_format_of(orig_payload@)),
{
    let ghost v = frame@;
    let f = repack_format(orig_payload);
    match compress_vec(f, cpio_bytes) {
        Err(e) => Err(RamdiskError::Compress(e)),
        Ok(p) => match frame.rebuild(p.as_slice()) {
            Ok(()) => {
                proof {
                    lemma_rebuild_then_extract(v, p@);
                    if cpio_bytes@.len() > 0 {
                        assert(format_of(p@) == f);
                        assert(archive_bytes_of(p@) == Ok::<Seq<u8>, RamdiskError>(cpio_bytes@));
                    }
                }
                Ok(())
            },
            Err(e) => Err(RamdiskError::Frame(e)),
        },
    }
}

/// What a patch did: the runtimes dropped, and the new image size beside
/// the length the certificate allows.
pub struct PatchReport {
    pub dropped: Vec<String>,
    pub image_size: u64,
    pub image_original_len: u64,
}

impl PatchReport {
    /// Whether the patched image still fits what the certificate records;
    /// the loader truncates anything longer.
    pub fn fits(&self) -> (r: bool)
        ensures
            r == (self.image_size <= self.image_original_len),
    {
        self.image_size <= self.image_original_len
    }
}

/// The frame and outcome of patching a framed ramdisk: the archive is
/// taken out ([`archive_bytes_of`], [`load_archive_of`]), patched
/// ([`patch_archive_of`]), written out and put back ([`repack_of`]); gives
/// the names dropped.
pub open spec fn patch_image_of(v: FrameView, source: AddSource) -> (FrameView, Result<Seq<Seq<char>>, RamdiskError>) {
    let payload = payload_of(v);
    match archive_bytes_of(payload) {
        Err(e) => (v, Err(e)),
        Ok(a) => match load_archive_of(a) {
            Err(e) => (v, Err(e)),
            Ok(s) => match patch_archive_of(s, source) {
                Err(e) => (v, Err(e)),
                Ok((s2, dropped)) => {
                    let (w, r) = repack_of(v, payload, dump_bytes(s2));
                    (
                        w,
                        match r {
                            Ok(()) => Ok(dropped),
                            Err(e) => Err(e),
                        },
                    )
                },
            },
        },
    }
}

/// Patches a framed ramdisk in memory; see [`patch_image_of`]. The report
/// gives the new image size and the certificate's limit, which the caller
/// checks after writing the image out.
pub fn patch_image(frame: &mut HvbFrame, source: AddSource) -> (r: Result<PatchReport, RamdiskError>)
    requires
        old(frame).harmony.hdr_size >= 0x14,
    ensures
        final(frame)@ == patch_image_of(old(frame)@, source).0,
        final(frame).cert == old(frame).cert,
        match patch_image_of(old(frame)@, source).1 {
            Ok(dropped) => r matches Ok(rep) && rep.dropped@.map_values(|x: String| x@) == dropped
                && rep.image_size == final(frame).footer.image_size && rep.image_original_len
                == final(frame).cert.image_original_len,
            Err(e) => r matches Err(x) && x == e,
        },
{
    let payload = vstd::slice::slice_to_vec(frame.extract_image_payload());
    let archive = match archive_bytes(payload.as_slice()) {
        Ok(a) => a,
        Err(e) => return Err(e),
    };
    let mut cpio = match load_archive(archive.as_slice()) {
        Ok(c) => c,
        Err(e) => return Err(e),
    };
    let dropped = match patch_archive(&mut cpio, source) {
        Ok(d) => d,
        Err(e) => return Err(e),
    };
    let mut out: Vec<u8> = Vec::new();
    cpio.dump_to(&mut out);
    proof {
        assert(out@ =~= dump_bytes(cpio.view_entries()));
    }
    match rebuild_image(frame, payload.as_slice(), out.as_slice()) {
        Ok(()) => {},
        Err(e) => return Err(e),
    }
    Ok(PatchReport {
        dropped,
        image_size: frame.footer.image_size,
        image_original_len: frame.cert.image_original_len,
    })
}

/// What the `test` command reports: 1 for an archive already patched, 0
/// for a stock one (with `bin/init_early` or `init`), 2 for anything else.
pub open spec fn status_of(s: Seq<(Seq<char>, EntryView)>) -> u8 {
    if index_of(s, norm_path_of(".backup/init_early"@)) is Some {
        1
    } else if index_of(s, norm_path_of("bin/init_early"@)) is Some || index_of(
        s,
        norm_path_of("init"@),
    ) is Some {
        0
    } else {
        2
    }
}

/// The `test` command's answer; see [`status_of`].
pub fn ramdisk_status(cpio: &Cpio) -> (r: u8)
    ensures
        r == status_of(cpio.view_entries()),
{
    if cpio.has_entry(".backup/init_early") {
        1
    } else if cpio.has_entry("bin/init_early") || cpio.has_entry("init") {
        0
    } else {
        2
    }
}

/// One command of a cpio script.
#[derive(Debug, Clone, PartialEq, Eq)]
pub enum CpioCommand {
    Test,
    Exists(String),
    Ls { path: String, recursive: bool },
    Rm { path: String, recursive: bool },
    Mkdir { mode: u32, path: String },
    Ln { src: String, dst: String },
    Mv { src: String, dst: String },
    Add { mode: u32, path: String, file: String },
    /// Everything, or one entry to one host path.
    Extract(Option<(String, String)>),
    Unknown(String),
}

pub enum CommandView {
    Test,
    Exists(Seq<char>),
    Ls { path: Seq<char>, recursive: bool },
    Rm { path: Seq<char>, recursive: bool },
    Mkdir { mode: u32, path: Seq<char> },
    Ln { src: Seq<char>, dst: Seq<char> },
    Mv { src: Seq<char>, dst: Seq<char> },
    Add { mode: u32, path: Seq<char>, file: Seq<char> },
    Extract(Option<(Seq<char>, Seq<char>)>),
    Unknown(Seq<char>),
}

impl View for CpioCommand {
    type V = CommandView;

    open spec fn view(&self) -> CommandView {
        match self {
            CpioCommand::Test => CommandView::Test,
            CpioCommand::Exists(p) => CommandView::Exists(p@),
            CpioCommand::Ls { path, recursive } => CommandView::Ls { path: path@, recursive: *recursive },
            CpioCommand::Rm { path, recursive } => CommandView::Rm { path: path@, recursive: *recursive },
            CpioCommand::Mkdir { mode, path } => CommandView::Mkdir { mode: *mode, path: path@ },
            CpioCommand::Ln { src, dst } => CommandView::Ln { src: src@, dst: dst@ },
            CpioCommand::Mv { src, dst } => CommandView::Mv { src: src@, dst: dst@ },
            CpioCommand::Add { mode, path, file } => CommandView::Add {
                mode: *mode,
                path: path@,
                file: file@,
            },
            CpioCommand::Extract(o) => CommandView::Extract(
                match o {
                    Some((a, b)) => Some((a@, b@)),
                    None => None,
                },
            ),
            CpioCommand::Unknown(w) => CommandView::Unknown(w@),
        }
    }
}

/// Why a cpio script command was refused.
#[derive(Debug, Clone, Copy, PartialEq, Eq, Structural)]
pub enum CommandError {
    ExistsNeedsEntry,
    RmNeedsEntry,
    MkdirNeedsArguments,
    MkdirBadMode,
    LnNeedsArguments,
    MvNeedsArguments,
    AddNeedsArguments,
    AddBadMode,
    ExtractArguments,
}

/// The first word from `k` on that is not the `-r` flag.
pub open spec fn first_positional(w: Seq<Seq<char>>, k: int) -> Option<Seq<char>>
    decreases w.len() - k,
{
    if k < 0 || k >= w.len() {
        None
    } else if w[k] != "-r"@ {
        Some(w[k])
    } else {
        first_positional(w, k + 1)
    }
}

/// What one line of a cpio script asks for: nothing for a comment (a
/// leading `#`) or a blank line; otherwise the command named by its first
/// word, `ls` and `rm` taking `-r` anywhere, modes in octal.
pub open spec fn command_of(cmd: Seq<char>) -> Result<Option<CommandView>, CommandError> {
    let w = crate::text::words(cmd);
    if cmd.len() > 0 && cmd[0] == '#' {
        Ok(None)
    } else if w.len() == 0 {
        Ok(None)
    } else {
        let h = w[0];
        let recursive = w.contains("-r"@);
        if h == "test"@ {
            Ok(Some(CommandView::Test))
        } else if h == "exists"@ {
            if w.len() < 2 {
                Err(CommandError::ExistsNeedsEntry)
            } else {
                Ok(Some(CommandView::Exists(w[1])))
            }
        } else if h == "ls"@ {
            Ok(
                Some(
                    CommandView::Ls {
                        path: match first_positional(w, 1) {
                            Some(p) => p,
                            None => "/"@,
                        },
                        recursive,
                    },
                ),
            )
        } else if h == "rm"@ {
            match first_positional(w, 1) {
                Some(p) => Ok(Some(CommandView::Rm { path: p, recursive })),
                None => Err(CommandError::RmNeedsEntry),
            }
        } else if h == "mkdir"@ {
            if w.len() < 3 {
                Err(CommandError::MkdirNeedsArguments)
            } else {
                match crate::cpio::parse_octal_u32(w[1]) {
                    Some(m) => Ok(Some(CommandView::Mkdir { mode: m, path: w[2] })),
                    None => Err(CommandError::MkdirBadMode),
                }
            }
        } else if h == "ln"@ {
            if w.len() < 3 {
                Err(CommandError::LnNeedsArguments)
            } else {
                Ok(Some(CommandView::Ln { src: w[1], dst: w[2] }))
            }
        } else if h == "mv"@ {
            if w.len() < 3 {
                Err(CommandError::MvNeedsArguments)
            } else {
                Ok(Some(CommandView::Mv { src: w[1], dst: w[2] }))
            }
        } else if h == "add"@ {
            if w.len() < 4 {
                Err(CommandError::AddNeedsArguments)
            } else {
                match crate::cpio::parse_octal_u32(w[1]) {
                    Some(m) => Ok(Some(CommandView::Add { mode: m, path: w[2], file: w[3] })),
                    None => Err(CommandError::AddBadMode),
                }
            }
        } else if h == "extract"@ {
            if w.len() == 1 {
                Ok(Some(CommandView::Extract(None)))
            } else if w.len() == 3 {
                Ok(Some(CommandView::Extract(Some((w[1], w[2])))))
            } else {
                Err(CommandError::ExtractArguments)
            }
        } else {
            Ok(Some(CommandView::Unknown(h)))
        }
    }
}

fn has_word(w: &Vec<String>, word: &str) -> (r: bool)
    ensures
        r == w@.map_values(|x: String| x@).contains(word@),
{
    let ghost v = w@.map_values(|x: String| x@);
    let mut i: usize = 0;
    while i < w.len()
        invariant
            i <= w@.len(),
            v == w@.map_values(|x: String| x@),
            forall|j: int| 0 <= j < i ==> v[j] != word@,
        decreases w@.len() - i,
    {
        if crate::text::str_eq(w[i].as_str(), word) {
            assert(v[i as int] == word@);
            return true;
        }
        i = i + 1;
    }
    false
}

fn positional(w: &Vec<String>) -> (r: Option<String>)
    ensures
        match first_positional(w@.map_values(|x: String| x@), 1) {
            Some(p) => r matches Some(x) && x@ == p,
            None => r is None,
        },
{
    let ghost v = w@.map_values(|x: String| x@);
    let mut i: usize = 1;
    while i < w.len()
        invariant
            1 <= i,
            v == w@.map_values(|x: String| x@),
            first_positional(v, 1) == first_positional(v, i as int),
        decreases w@.len() - i,
    {
        if !crate::text::str_eq(w[i].as_str(), "-r") {
            return Some(w[i].clone());
        }
        i = i + 1;
    }
    None
}

/// Reads one line of a cpio script; see [`command_of`].
pub fn parse_cpio_command(cmd: &str) -> (r: Result<Option<CpioCommand>, CommandError>)
    ensures
        match command_of(cmd@) {
            Ok(None) => r matches Ok(None),
            Ok(Some(c)) => r matches Ok(Some(x)) && x@ == c,
            Err(e) => r == Err::<Option<CpioCommand>, CommandError>(e),
        },
{
    let cs = crate::text::chars_of(cmd);
    if cs.len() > 0 && cs[0] == '#' {
        return Ok(None);
    }
    let w = crate::text::split_words(cmd);
    let ghost v = w@.map_values(|x: String| x@);
    if w.len() == 0 {
        return Ok(None);
    }
    assert(v[0] == w@[0]@);
    let h = w[0].as_str();
    let recursive = has_word(&w, "-r");
    if crate::text::str_eq(h, "test") {
        Ok(Some(CpioCommand::Test))
    } else if crate::text::str_eq(h, "exists") {
        if w.len() < 2 {
            Err(CommandError::ExistsNeedsEntry)
        } else {
            assert(v[1] == w@[1]@);
            Ok(Some(CpioCommand::Exists(w[1].clone())))
        }
    } else if crate::text::str_eq(h, "ls") {
        let path = match positional(&w) {
            Some(p) => p,
            None => crate::text::owned("/"),
        };
        Ok(Some(CpioCommand::Ls { path, recursive }))
    } else if crate::text::str_eq(h, "rm") {
        match positional(&w) {
            Some(path) => Ok(Some(CpioCommand::Rm { path, recursive })),
            None => Err(CommandError::RmNeedsEntry),
        }
    } else if crate::text::str_eq(h, "mkdir") {
        if w.len() < 3 {
            Err(CommandError::MkdirNeedsArguments)
        } else {
            assert(v[1] == w@[1]@ && v[2] == w@[2]@);
            match crate::cpio::parse_cpio_mode(w[1].as_str()) {
                Ok(mode) => Ok(Some(CpioCommand::Mkdir { mode, path: w[2].clone() })),
                Err(_) => Err(CommandError::MkdirBadMode),
            }
        }
    } else if crate::text::str_eq(h, "ln") {
        if w.len() < 3 {
            Err(CommandError::LnNeedsArguments)
        } else {
            assert(v[1] == w@[1]@ && v[2] == w@[2]@);
            Ok(Some(CpioCommand::Ln { src: w[1].clone(), dst: w[2].clone() }))
        }
    } else if crate::text::str_eq(h, "mv") {
        if w.len() < 3 {
            Err(CommandError::MvNeedsArguments)
        } else {
            assert(v[1] == w@[1]@ && v[2] == w@[2]@);
            Ok(Some(CpioCommand::Mv { src: w[1].clone(), dst: w[2].clone() }))
        }
    } else if crate::text::str_eq(h, "add") {
        if w.len() < 4 {
            Err(CommandError::AddNeedsArguments)
        } else {
            assert(v[1] == w@[1]@ && v[2] == w@[2]@ && v[3] == w@[3]@);
            match crate::cpio::parse_cpio_mode(w[1].as_str()) {
                Ok(mode) => Ok(Some(CpioCommand::Add { mode, path: w[2].clone(), file: w[3].clone() })),
                Err(_) => Err(CommandError::AddBadMode),
            }
        }
    } else if crate::text::str_eq(h, "extract") {
        if w.len() == 1 {
            Ok(Some(CpioCommand::Extract(None)))
        } else if w.len() == 3 {
            assert(v[1] == w@[1]@ && v[2] == w@[2]@);
            Ok(Some(CpioCommand::Extract(Some((w[1].clone(), w[2].clone())))))
        } else {
            Err(CommandError::ExtractArguments)
        }
    } else {
        Ok(Some(CpioCommand::Unknown(w[0].clone())))
    }
}

/// Whether an entry is named exactly `name`.
pub open spec fn has_named(s: Seq<(Seq<char>, EntryView)>, name: Seq<char>) -> bool {
    exists|i: int| 0 <= i < s.len() && #[trigger] s[i].0 == name
}

proof fn lemma_literal_clean(r: Seq<char>, slash: int)
    requires
        r.len() > 0,
        r[0] != '/',
        r[r.len() - 1] != '/',
        forall|i: int| 0 <= i < r.len() && i != slash ==> #[trigger] r[i] != '/',
    ensures
        norm_path_of(r) == r,
{
    assert forall|i: int| !#[trigger] crate::cpio::doubled_slash_at(r, i) by {
        if 0 <= i && i + 1 < r.len() && r[i] == '/' && r[i + 1] == '/' {
            assert(i == slash && i + 1 == slash);
        }
    }
    crate::cpio::lemma_norm_clean_fixed(r);
}

/// What the `test` command answers of an archive: 1 (patched) when it
/// holds `.backup/init_early`; otherwise 0 (stock) when it holds
/// `bin/init_early` or `init`; 2 (unsupported) only when it holds none of
/// the three.
pub proof fn lemma_status_meaning(s: Seq<(Seq<char>, EntryView)>)
    ensures
        has_named(s, ".backup/init_early"@) ==> status_of(s) == 1,
        !has_named(s, ".backup/init_early"@) && (has_named(s, "bin/init_early"@) || has_named(s, "init"@))
            ==> status_of(s) == 0,
        status_of(s) == 2 <==> !has_named(s, ".backup/init_early"@) && !has_named(s, "bin/init_early"@)
            && !has_named(s, "init"@),
{
    reveal_strlit(".backup/init_early");
    reveal_strlit("bin/init_early");
    reveal_strlit("init");
    lemma_literal_clean(".backup/init_early"@, 7);
    lemma_literal_clean("bin/init_early"@, 3);
    lemma_literal_clean("init"@, -1);
    if has_named(s, ".backup/init_early"@) {
        let i = choose|i: int| 0 <= i < s.len() && #[trigger] s[i].0 == ".backup/init_early"@;
        assert(s[i].0 == norm_path_of(".backup/init_early"@));
    }
    if has_named(s, "bin/init_early"@) {
        let i = choose|i: int| 0 <= i < s.len() && #[trigger] s[i].0 == "bin/init_early"@;
        assert(s[i].0 == norm_path_of("bin/init_early"@));
    }
    if has_named(s, "init"@) {
        let i = choose|i: int| 0 <= i < s.len() && #[trigger] s[i].0 == "init"@;
        assert(s[i].0 == norm_path_of("init"@));
    }
}

} // verus!

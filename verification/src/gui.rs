//! The decisions behind the desktop front end: languages and their
//! fallback chain, page and format labels (as message ids), what a file
//! looks like from its first bytes, and the small text helpers the pages use.

use vstd::prelude::*;
use crate::text::{
    chars_contain, chars_eq, chars_of, chars_to_lower, lower_ascii, owned, push_str_chars, string_of,
    trim_space, trim_str,
};
use crate::cpio::{norm_path, norm_path_of};
use crate::fs_util::{safe_join, safe_relative, split_file_name, split_file_name_of};
use crate::oeminfo::{
    layout_name, payload_kind_name, region_name, OemInfoBlockSummary, OemInfoPayloadKind,
};
use crate::text::{
    chars_contain_seq, chars_eq_ignore_case, contains_seq, decimal, decimal_of, eq_ignore_case, fields,
    split_fields,
};
use crate::update_bin::{Component, UpdateLayout};
use crate::nvme::NveItemSummary;

verus! {

/// The languages the interface ships with.
#[derive(Debug, Clone, Copy, PartialEq, Eq, Structural)]
pub enum Language {
    English,
    Chinese,
    Russian,
}

/// The languages in the order messages fall back through.
pub const FALLBACK_ORDER: [Language; 3] = [Language::English, Language::Chinese, Language::Russian];

pub open spec fn fallback_order() -> Seq<Language> {
    seq![Language::English, Language::Chinese, Language::Russian]
}

impl Default for Language {
    fn default() -> (r: Language)
        ensures
            r == Language::English,
    {
        Language::English
    }
}

impl Language {
    /// The language's own name for itself.
    pub fn native_name(self) -> (r: &'static str)
        ensures
            self == Language::English ==> r@ == "English"@,
            self == Language::Chinese ==> r@ == "中文"@,
            self == Language::Russian ==> r@ == "Русский"@,
    {
        match self {
            Language::English => "English",
            Language::Chinese => "中文",
            Language::Russian => "Русский",
        }
    }

    /// The BCP 47 tag.
    pub fn tag(self) -> (r: &'static str)
        ensures
            self == Language::English ==> r@ == "en-US"@,
            self == Language::Chinese ==> r@ == "zh-CN"@,
            self == Language::Russian ==> r@ == "ru-RU"@,
    {
        match self {
            Language::English => "en-US",
            Language::Chinese => "zh-CN",
            Language::Russian => "ru-RU",
        }
    }

    /// The language a tag names: `en`/`en-us`, `zh`/`zh-cn`/`zh-hans`,
    /// `ru`/`ru-ru`, in any case and with white space around it.
    pub fn from_tag(tag: &str) -> (r: Option<Language>)
        ensures
            r == language_of_tag(lower_ascii(trim_space(tag@))),
    {
        let t = trim_str(tag);
        let tc = chars_of(t.as_str());
        let l = chars_to_lower(tc.as_slice());
        if is(&l, "en") || is(&l, "en-us") {
            Some(Language::English)
        } else if is(&l, "zh") || is(&l, "zh-cn") || is(&l, "zh-hans") {
            Some(Language::Chinese)
        } else if is(&l, "ru") || is(&l, "ru-ru") {
            Some(Language::Russian)
        } else {
            None
        }
    }

    /// The language's number, as the current-language setting stores it.
    pub fn index(self) -> (r: u8)
        ensures
            r == index_of(self),
    {
        match self {
            Language::English => 0,
            Language::Chinese => 1,
            Language::Russian => 2,
        }
    }

    /// The language stored as `value`; anything unknown is English.
    pub fn from_index(value: u8) -> (r: Language)
        ensures
            r == language_of_index(value),
    {
        if value == 1 {
            Language::Chinese
        } else if value == 2 {
            Language::Russian
        } else {
            Language::English
        }
    }
}

pub open spec fn language_of_tag(t: Seq<char>) -> Option<Language> {
    if t == "en"@ || t == "en-us"@ {
        Some(Language::English)
    } else if t == "zh"@ || t == "zh-cn"@ || t == "zh-hans"@ {
        Some(Language::Chinese)
    } else if t == "ru"@ || t == "ru-ru"@ {
        Some(Language::Russian)
    } else {
        None
    }
}

pub open spec fn index_of(l: Language) -> u8 {
    match l {
        Language::English => 0,
        Language::Chinese => 1,
        Language::Russian => 2,
    }
}

pub open spec fn language_of_index(v: u8) -> Language {
    if v == 1 {
        Language::Chinese
    } else if v == 2 {
        Language::Russian
    } else {
        Language::English
    }
}

/// Storing a language's number and reading it back gives the language.
pub proof fn lemma_index_round_trip(l: Language)
    ensures
        language_of_index(index_of(l)) == l,
{
}

fn is(s: &Vec<char>, lit: &str) -> (r: bool)
    ensures
        r == (s@ == lit@),
{
    let l = chars_of(lit);
    chars_eq(s.as_slice(), l.as_slice())
}

/// The languages a message is looked up in, in order: the requested one,
/// then the others in the fallback order.
pub open spec fn fallback_chain_of(requested: Language) -> Seq<Language> {
    match requested {
        Language::English => seq![Language::English, Language::Chinese, Language::Russian],
        Language::Chinese => seq![Language::Chinese, Language::English, Language::Russian],
        Language::Russian => seq![Language::Russian, Language::English, Language::Chinese],
    }
}

pub fn fallback_chain(requested: Language) -> (r: Vec<Language>)
    ensures
        r@ == fallback_chain_of(requested),
{
    let mut out: Vec<Language> = Vec::new();
    out.push(requested);
    let order = FALLBACK_ORDER;
    let mut k: usize = 0;
    while k < 3
        invariant
            k <= 3,
            order@ == fallback_order(),
            out@ == seq![requested] + Seq::new(3, |i: int| fallback_order()[i]).take(k as int).filter(
                |l: Language| l != requested,
            ),
        decreases 3 - k,
    {
        let l = order[k];
        if l != requested {
            out.push(l);
        }
        k = k + 1;
        proof {
            reveal_with_fuel(vstd::seq::Seq::filter, 4);
        }
    }
    proof {
        reveal_with_fuel(vstd::seq::Seq::filter, 4);
        assert(out@ =~= fallback_chain_of(requested));
    }
    out
}

/// The first of the looked-up messages that exists, or the id itself.
pub open spec fn first_found(found: Seq<Option<Seq<char>>>, id: Seq<char>) -> Seq<char>
    decreases found.len(),
{
    if found.len() == 0 {
        id
    } else {
        match found[0] {
            Some(m) => m,
            None => first_found(found.drop_first(), id),
        }
    }
}

pub open spec fn opt_strings(v: Seq<Option<String>>) -> Seq<Option<Seq<char>>> {
    v.map_values(
        |o: Option<String>|
            match o {
                Some(s) => Some(s@),
                None => None,
            },
    )
}

/// Picks the message from the lookups made along the fallback chain.
pub fn first_translation(found: &Vec<Option<String>>, id: &str) -> (r: String)
    ensures
        r@ == first_found(opt_strings(found@), id@),
{
    let mut k: usize = 0;
    proof {
        assert(opt_strings(found@).skip(0) =~= opt_strings(found@));
    }
    while k < found.len()
        invariant
            k <= found@.len(),
            first_found(opt_strings(found@), id@) == first_found(opt_strings(found@).skip(k as int), id@),
        decreases found@.len() - k,
    {
        proof {
            assert(opt_strings(found@).skip(k as int).drop_first() =~= opt_strings(found@).skip(k + 1));
            assert(opt_strings(found@).skip(k as int)[0] == opt_strings(found@)[k as int]);
        }
        match &found[k] {
            Some(m) => {
                return m.clone();
            },
            None => {},
        }
        k = k + 1;
    }
    proof {
        assert(opt_strings(found@).skip(k as int).len() == 0);
    }
    owned(id)
}

// ---------------------------------------------------------------------------
// Pages and formats.

/// The pages of the interface.
#[derive(Debug, Clone, Copy, PartialEq, Eq, Structural)]
pub enum Page {
    Home,
    Package,
    Images,
    Fastboot,
    Vcom,
    Cpio,
    Nvme,
    OemInfo,
}

impl Page {
    /// The message id of the page's title.
    pub fn title(self) -> (r: &'static str)
        ensures
            r@ == page_title_id(self),
    {
        match self {
            Page::Home => "page-home-title",
            Page::Package => "page-package-title",
            Page::Images => "page-images-title",
            Page::Fastboot => "page-fastboot-title",
            Page::Vcom => "page-vcom-title",
            Page::Cpio => "page-cpio-title",
            Page::Nvme => "page-nvme-title",
            Page::OemInfo => "page-oeminfo-title",
        }
    }

    /// The message ids of the page's header, title and description.
    pub fn header(self) -> (r: Option<(&'static str, &'static str)>)
        ensures
            match page_header_ids(self) {
                None => r is None,
                Some((t, d)) => r matches Some((a, b)) && a@ == t && b@ == d,
            },
    {
        match self {
            Page::Home => None,
            Page::Package => Some(("page-package-title", "page-package-description")),
            Page::Images => Some(("page-images-title", "page-images-description")),
            Page::Fastboot => Some(("page-fastboot-title", "page-fastboot-description")),
            Page::Vcom => Some(("page-vcom-title", "page-vcom-description")),
            Page::Cpio => Some(("page-cpio-title", "page-cpio-description")),
            Page::Nvme => Some(("page-nvme-editor-title", "page-nvme-description")),
            Page::OemInfo => Some(("page-oeminfo-title", "page-oeminfo-description")),
        }
    }
}

/// The message ids of a page's header: none on the home page; otherwise
/// its title (on the NVE page the editor's title) and its description.
pub open spec fn page_header_ids(p: Page) -> Option<(Seq<char>, Seq<char>)> {
    match p {
        Page::Home => None,
        Page::Package => Some(("page-package-title"@, "page-package-description"@)),
        Page::Images => Some(("page-images-title"@, "page-images-description"@)),
        Page::Fastboot => Some(("page-fastboot-title"@, "page-fastboot-description"@)),
        Page::Vcom => Some(("page-vcom-title"@, "page-vcom-description"@)),
        Page::Cpio => Some(("page-cpio-title"@, "page-cpio-description"@)),
        Page::Nvme => Some(("page-nvme-editor-title"@, "page-nvme-description"@)),
        Page::OemInfo => Some(("page-oeminfo-title"@, "page-oeminfo-description"@)),
    }
}

pub open spec fn page_title_id(p: Page) -> Seq<char> {
    match p {
        Page::Home => "page-home-title"@,
        Page::Package => "page-package-title"@,
        Page::Images => "page-images-title"@,
        Page::Fastboot => "page-fastboot-title"@,
        Page::Vcom => "page-vcom-title"@,
        Page::Cpio => "page-cpio-title"@,
        Page::Nvme => "page-nvme-title"@,
        Page::OemInfo => "page-oeminfo-title"@,
    }
}

/// The outcome of a job as a page shows it.
#[derive(Debug, Clone)]
pub struct ResultView {
    pub ok: bool,
    pub summary: String,
    pub output: String,
}

impl ResultView {
    pub fn new() -> (r: ResultView)
        ensures
            !r.ok && r.summary@.len() == 0 && r.output@.len() == 0,
    {
        ResultView { ok: false, summary: String::new(), output: String::new() }
    }
}

/// What a file or directory was recognised as.
#[derive(Debug, Clone, Copy, PartialEq, Eq, Structural)]
pub enum FileKind {
    Unknown,
    ZipPackage,
    Erofs,
    HarmonyFrame,
    Rvt,
    Gpt,
    SecImage,
    HvbWrapped,
    Nve,
    OemInfo,
    Cpio,
    ErofsWorkspace,
    RamdiskWorkspace,
}

/// Text to show: a message to translate, or fixed text.
#[derive(Debug, Clone, Copy, PartialEq, Eq)]
pub enum LabelText {
    Message(&'static str),
    Literal(&'static str),
}

impl FileKind {
    /// The label of the kind: a message id, except for NVE, which is
    /// always `Hisi-NV-Partition`.
    pub fn label(self) -> (r: LabelText)
        ensures
            self == FileKind::Nve <==> (r matches LabelText::Literal(t) && t@ == "Hisi-NV-Partition"@),
            self != FileKind::Nve ==> (r matches LabelText::Message(m) && m@ == kind_label_id(self)),
    {
        match self {
            FileKind::Unknown => LabelText::Message("format-unknown"),
            FileKind::ZipPackage => LabelText::Message("format-zip-update"),
            FileKind::Erofs => LabelText::Message("format-erofs-image"),
            FileKind::HarmonyFrame => LabelText::Message("format-harmony-image"),
            FileKind::Rvt => LabelText::Message("format-rvt-image"),
            FileKind::Gpt => LabelText::Message("format-gpt-image"),
            FileKind::SecImage => LabelText::Message("format-sec-image"),
            FileKind::HvbWrapped => LabelText::Message("format-hvb-image"),
            FileKind::Nve => LabelText::Literal("Hisi-NV-Partition"),
            FileKind::OemInfo => LabelText::Message("format-oeminfo-image"),
            FileKind::Cpio => LabelText::Message("format-cpio-archive"),
            FileKind::ErofsWorkspace => LabelText::Message("format-erofs-workspace"),
            FileKind::RamdiskWorkspace => LabelText::Message("format-ramdisk-workspace"),
        }
    }
}

pub open spec fn kind_label_id(k: FileKind) -> Seq<char> {
    match k {
        FileKind::Unknown => "format-unknown"@,
        FileKind::ZipPackage => "format-zip-update"@,
        FileKind::Erofs => "format-erofs-image"@,
        FileKind::HarmonyFrame => "format-harmony-image"@,
        FileKind::Rvt => "format-rvt-image"@,
        FileKind::Gpt => "format-gpt-image"@,
        FileKind::SecImage => "format-sec-image"@,
        FileKind::HvbWrapped => "format-hvb-image"@,
        FileKind::Nve => "Hisi-NV-Partition"@,
        FileKind::OemInfo => "format-oeminfo-image"@,
        FileKind::Cpio => "format-cpio-archive"@,
        FileKind::ErofsWorkspace => "format-erofs-workspace"@,
        FileKind::RamdiskWorkspace => "format-ramdisk-workspace"@,
    }
}

// ---------------------------------------------------------------------------
// Recognising files.

/// What was read of a file to recognise it.
pub struct FileProbe {
    /// The file's length.
    pub length: u64,
    /// Its first bytes, up to 180.
    pub head: Vec<u8>,
    /// Whether some 128 KiB block of it ends in an NVE header magic.
    pub nve_header: bool,
    /// Up to 8 bytes read at offset 512.
    pub at_512: Vec<u8>,
    /// Whether it probes as a secure-boot image.
    pub sec_image: bool,
    /// Up to 4 bytes read at offset 1024.
    pub at_1024: Vec<u8>,
    /// Up to 104 bytes read at `length - 104`.
    pub tail: Vec<u8>,
    /// Whether an OEMINFO block header was found in it.
    pub oeminfo: bool,
}

/// Why a file was recognised, as a message to show.
#[derive(Debug, Clone, Copy, PartialEq, Eq, Structural)]
pub enum DetectMessage {
    FileTooSmall,
    Nve,
    Zip,
    UpdateBin { count: u64 },
    Cpio,
    Harmony,
    Rvt,
    Gpt,
    SecImage,
    Erofs,
    Hvb,
    OemInfo,
    Unknown,
    ErofsWorkspace,
    RamdiskWorkspace,
    NoWorkspace,
}

/// The message id of a detection message.
pub open spec fn detect_message_id(m: DetectMessage) -> Seq<char> {
    match m {
        DetectMessage::FileTooSmall => "detect-file-too-small"@,
        DetectMessage::Nve => "detect-nve"@,
        DetectMessage::Zip => "detect-zip"@,
        DetectMessage::UpdateBin { .. } => "detect-update-bin"@,
        DetectMessage::Cpio => "detect-cpio"@,
        DetectMessage::Harmony => "detect-harmony"@,
        DetectMessage::Rvt => "detect-rvt"@,
        DetectMessage::Gpt => "detect-gpt"@,
        DetectMessage::SecImage => "detect-sec-image"@,
        DetectMessage::Erofs => "detect-erofs"@,
        DetectMessage::Hvb => "detect-hvb"@,
        DetectMessage::OemInfo => "detect-oeminfo"@,
        DetectMessage::Unknown => "detect-unknown"@,
        DetectMessage::ErofsWorkspace => "detect-erofs-workspace"@,
        DetectMessage::RamdiskWorkspace => "detect-ramdisk-workspace"@,
        DetectMessage::NoWorkspace => "detect-no-workspace"@,
    }
}

impl DetectMessage {
    /// The message id.
    pub fn id(self) -> (r: &'static str)
        ensures
            r@ == detect_message_id(self),
    {
        match self {
            DetectMessage::FileTooSmall => "detect-file-too-small",
            DetectMessage::Nve => "detect-nve",
            DetectMessage::Zip => "detect-zip",
            DetectMessage::UpdateBin { .. } => "detect-update-bin",
            DetectMessage::Cpio => "detect-cpio",
            DetectMessage::Harmony => "detect-harmony",
            DetectMessage::Rvt => "detect-rvt",
            DetectMessage::Gpt => "detect-gpt",
            DetectMessage::SecImage => "detect-sec-image",
            DetectMessage::Erofs => "detect-erofs",
            DetectMessage::Hvb => "detect-hvb",
            DetectMessage::OemInfo => "detect-oeminfo",
            DetectMessage::Unknown => "detect-unknown",
            DetectMessage::ErofsWorkspace => "detect-erofs-workspace",
            DetectMessage::RamdiskWorkspace => "detect-ramdisk-workspace",
            DetectMessage::NoWorkspace => "detect-no-workspace",
        }
    }
}

/// A recognised file or directory.
#[derive(Debug, Clone)]
pub struct Detection {
    pub kind: FileKind,
    pub path: String,
    pub message: DetectMessage,
}

pub open spec fn starts(s: Seq<u8>, m: Seq<u8>) -> bool {
    s.len() >= m.len() && s.subrange(0, m.len() as int) == m
}

pub open spec fn be_u16_of(a: u8, b: u8) -> int {
    a * 256 + b
}

/// What a file is, checking the strongest signatures first: an NVE
/// header in a whole number of blocks, a ZIP, an `update.bin` table, a
/// cpio archive, a `HARMONY!` frame, an RVT, a GPT at 512, a secure-boot
/// image, EROFS at 1024, an HVB footer, then OEMINFO headers.
pub open spec fn classify_of(
    length: u64,
    head: Seq<u8>,
    nve: bool,
    at_512: Seq<u8>,
    sec: bool,
    at_1024: Seq<u8>,
    tail: Seq<u8>,
    oem: bool,
) -> (FileKind, DetectMessage) {
    let t = if head.len() >= 2 { be_u16_of(head[0], head[1]) } else { 0 };
    let cl = if head.len() >= 180 { be_u16_of(head[178], head[179]) } else { 0 };
    if length < 8 {
        (FileKind::Unknown, DetectMessage::FileTooSmall)
    } else if length >= 0x20000 && length % 0x20000 == 0 && nve {
        (FileKind::Nve, DetectMessage::Nve)
    } else if starts(head, seq![0x50u8, 0x4b, 0x03, 0x04]) {
        (FileKind::ZipPackage, DetectMessage::Zip)
    } else if head.len() >= 180 && (t == 0x01 || t == 0x11) && cl > 0 && cl <= 8 * 1024 * 1024
        && length >= 180 + cl + 16 {
        (FileKind::ZipPackage, DetectMessage::UpdateBin { count: (cl / 71) as u64 })
    } else if starts(head, seq![0x30u8, 0x37, 0x30, 0x37, 0x30, 0x31]) || starts(
        head,
        seq![0x30u8, 0x37, 0x30, 0x37, 0x30, 0x32],
    ) {
        (FileKind::Cpio, DetectMessage::Cpio)
    } else if starts(head, crate::harmony::harmony_magic()) {
        (FileKind::HarmonyFrame, DetectMessage::Harmony)
    } else if starts(head, crate::rvt::rvt_magic()) {
        (FileKind::Rvt, DetectMessage::Rvt)
    } else if length >= 520 && at_512 == seq![0x45u8, 0x46, 0x49, 0x20, 0x50, 0x41, 0x52, 0x54] {
        (FileKind::Gpt, DetectMessage::Gpt)
    } else if sec {
        (FileKind::SecImage, DetectMessage::SecImage)
    } else if length >= 1028 && at_1024 == seq![0xe2u8, 0xe1, 0xf5, 0xe0] {
        (FileKind::Erofs, DetectMessage::Erofs)
    } else if length >= 104 && tail.len() == 104 && starts(tail, crate::hvb::footer_magic()) {
        (FileKind::HvbWrapped, DetectMessage::Hvb)
    } else if oem {
        (FileKind::OemInfo, DetectMessage::OemInfo)
    } else {
        (FileKind::Unknown, DetectMessage::Unknown)
    }
}

fn starts_with_bytes(s: &Vec<u8>, m: &[u8]) -> (r: bool)
    ensures
        r == starts(s@, m@),
{
    if s.len() < m.len() {
        return false;
    }
    let mut k: usize = 0;
    while k < m.len()
        invariant
            k <= m@.len() <= s@.len(),
            forall|j: int| 0 <= j < k ==> s@[j] == m@[j],
        decreases m@.len() - k,
    {
        if s[k] != m[k] {
            proof {
                assert(s@.subrange(0, m@.len() as int)[k as int] != m@[k as int]);
            }
            return false;
        }
        k = k + 1;
    }
    proof {
        assert(s@.subrange(0, m@.len() as int) =~= m@);
    }
    true
}

fn bytes_are(s: &Vec<u8>, m: &[u8]) -> (r: bool)
    ensures
        r == (s@ == m@),
{
    if s.len() != m.len() {
        return false;
    }
    let r = starts_with_bytes(s, m);
    proof {
        if r {
            assert(s@.subrange(0, m@.len() as int) =~= s@);
        } else if s@ == m@ {
            assert(s@.subrange(0, m@.len() as int) =~= s@);
        }
    }
    r
}

/// Recognises a file from what was read of it; see [`classify_of`].
pub fn detect(probe: &FileProbe, path: String) -> (r: Detection)
    ensures
        (r.kind, r.message) == classify_of(
            probe.length,
            probe.head@,
            probe.nve_header,
            probe.at_512@,
            probe.sec_image,
            probe.at_1024@,
            probe.tail@,
            probe.oeminfo,
        ),
        r.path@ == path@,
{
    let h = &probe.head;
    let len = probe.length;
    let zip: [u8; 4] = [0x50, 0x4b, 0x03, 0x04];
    let c1: [u8; 6] = [0x30, 0x37, 0x30, 0x37, 0x30, 0x31];
    let c2: [u8; 6] = [0x30, 0x37, 0x30, 0x37, 0x30, 0x32];
    let hm: [u8; 8] = [0x48, 0x41, 0x52, 0x4d, 0x4f, 0x4e, 0x59, 0x21];
    let rm: [u8; 4] = [0x72, 0x6f, 0x74, 0];
    let gpt: [u8; 8] = [0x45, 0x46, 0x49, 0x20, 0x50, 0x41, 0x52, 0x54];
    let ero: [u8; 4] = [0xe2, 0xe1, 0xf5, 0xe0];
    let hvb: [u8; 8] = [0x48, 0x56, 0x42, 0, 0, 0, 0, 0];
    proof {
        assert(zip@ =~= seq![0x50u8, 0x4b, 0x03, 0x04]);
        assert(c1@ =~= seq![0x30u8, 0x37, 0x30, 0x37, 0x30, 0x31]);
        assert(c2@ =~= seq![0x30u8, 0x37, 0x30, 0x37, 0x30, 0x32]);
        assert(hm@ =~= crate::harmony::harmony_magic());
        assert(rm@ =~= crate::rvt::rvt_magic());
        assert(gpt@ =~= seq![0x45u8, 0x46, 0x49, 0x20, 0x50, 0x41, 0x52, 0x54]);
        assert(ero@ =~= seq![0xe2u8, 0xe1, 0xf5, 0xe0]);
        assert(hvb@ =~= crate::hvb::footer_magic());
    }
    let t: u32 = if h.len() >= 2 {
        h[0] as u32 * 256 + h[1] as u32
    } else {
        0
    };
    let cl: u32 = if h.len() >= 180 {
        h[178] as u32 * 256 + h[179] as u32
    } else {
        0
    };
    let (kind, message) = if len < 8 {
        (FileKind::Unknown, DetectMessage::FileTooSmall)
    } else if len >= 0x20000 && len % 0x20000 == 0 && probe.nve_header {
        (FileKind::Nve, DetectMessage::Nve)
    } else if starts_with_bytes(h, zip.as_slice()) {
        (FileKind::ZipPackage, DetectMessage::Zip)
    } else if h.len() >= 180 && (t == 0x01 || t == 0x11) && cl > 0 && cl <= 8 * 1024 * 1024 && len
        >= 180 + cl as u64 + 16 {
        (FileKind::ZipPackage, DetectMessage::UpdateBin { count: (cl / 71) as u64 })
    } else if starts_with_bytes(h, c1.as_slice()) || starts_with_bytes(h, c2.as_slice()) {
        (FileKind::Cpio, DetectMessage::Cpio)
    } else if starts_with_bytes(h, hm.as_slice()) {
        (FileKind::HarmonyFrame, DetectMessage::Harmony)
    } else if starts_with_bytes(h, rm.as_slice()) {
        (FileKind::Rvt, DetectMessage::Rvt)
    } else if len >= 520 && bytes_are(&probe.at_512, gpt.as_slice()) {
        (FileKind::Gpt, DetectMessage::Gpt)
    } else if probe.sec_image {
        (FileKind::SecImage, DetectMessage::SecImage)
    } else if len >= 1028 && bytes_are(&probe.at_1024, ero.as_slice()) {
        (FileKind::Erofs, DetectMessage::Erofs)
    } else if len >= 104 && probe.tail.len() == 104 && starts_with_bytes(&probe.tail, hvb.as_slice()) {
        (FileKind::HvbWrapped, DetectMessage::Hvb)
    } else if probe.oeminfo {
        (FileKind::OemInfo, DetectMessage::OemInfo)
    } else {
        (FileKind::Unknown, DetectMessage::Unknown)
    };
    Detection { kind, path, message }
}

/// What a directory is, from the names in it: an EROFS workspace if it
/// holds `haucet-erofs.json`, else a ramdisk workspace if it holds
/// `ramdisk.cpio`.
pub fn detect_dir(names: &Vec<String>, path: String) -> (r: Detection)
    ensures
        (exists|i: int| 0 <= i < names@.len() && names@[i]@ == "haucet-erofs.json"@) ==> r.kind
            == FileKind::ErofsWorkspace && r.message == DetectMessage::ErofsWorkspace,
        !(exists|i: int| 0 <= i < names@.len() && names@[i]@ == "haucet-erofs.json"@) && (exists|i: int|
            0 <= i < names@.len() && names@[i]@ == "ramdisk.cpio"@) ==> r.kind == FileKind::RamdiskWorkspace
            && r.message == DetectMessage::RamdiskWorkspace,
        !(exists|i: int| 0 <= i < names@.len() && names@[i]@ == "haucet-erofs.json"@) && !(exists|i: int|
            0 <= i < names@.len() && names@[i]@ == "ramdisk.cpio"@) ==> r.kind == FileKind::Unknown
            && r.message == DetectMessage::NoWorkspace,
        r.path@ == path@,
{
    let mut erofs = false;
    let mut cpio = false;
    let mut i: usize = 0;
    while i < names.len()
        invariant
            i <= names@.len(),
            erofs == exists|j: int| 0 <= j < i && names@[j]@ == "haucet-erofs.json"@,
            cpio == exists|j: int| 0 <= j < i && names@[j]@ == "ramdisk.cpio"@,
        decreases names@.len() - i,
    {
        if crate::text::str_eq(names[i].as_str(), "haucet-erofs.json") {
            erofs = true;
        }
        if crate::text::str_eq(names[i].as_str(), "ramdisk.cpio") {
            cpio = true;
        }
        i = i + 1;
    }
    if erofs {
        Detection { kind: FileKind::ErofsWorkspace, path, message: DetectMessage::ErofsWorkspace }
    } else if cpio {
        Detection { kind: FileKind::RamdiskWorkspace, path, message: DetectMessage::RamdiskWorkspace }
    } else {
        Detection { kind: FileKind::Unknown, path, message: DetectMessage::NoWorkspace }
    }
}

// ---------------------------------------------------------------------------
// Text helpers.

/// A hexadecimal digit, upper- or lower-case.
pub open spec fn hex_char(d: nat, upper: bool) -> char {
    if upper {
        crate::text::hex_digit_upper(d as u8)
    } else {
        crate::text::hex_digit_lower(d as u8)
    }
}

/// The hexadecimal digits of `v`, without leading zeros.
pub open spec fn hex_digits_of(v: nat, upper: bool) -> Seq<char>
    decreases v,
{
    if v < 16 {
        seq![hex_char(v, upper)]
    } else {
        hex_digits_of(v / 16, upper).push(hex_char(v % 16, upper))
    }
}

/// The upper-case hexadecimal digits of `v`, without leading zeros.
pub open spec fn upper_hex_of(v: nat) -> Seq<char> {
    hex_digits_of(v, true)
}

/// `0x` and the value in hexadecimal (`{:#X}`, or `{:#x}` for lower case).
fn hex_prefixed(value: u64, upper: bool) -> (r: String)
    ensures
        r@ == seq!['0', 'x'] + hex_digits_of(value as nat, upper),
{
    let mut digits: Vec<char> = Vec::new();
    let mut y: u64 = value;
    proof {
        assert(hex_digits_of(value as nat, upper) =~= hex_digits_of(value as nat, upper) + Seq::<char>::empty());
    }
    while y >= 16
        invariant
            hex_digits_of(value as nat, upper) == hex_digits_of(y as nat, upper) + digits@.reverse(),
        decreases y,
    {
        let d = (y % 16) as u8;
        let ghost before = digits@;
        digits.push(crate::text::hex_digit(d, upper));
        proof {
            assert(digits@.reverse() =~= seq![hex_char(d as nat, upper)] + before.reverse());
            assert(hex_digits_of(y as nat, upper) == hex_digits_of((y / 16) as nat, upper).push(
                hex_char(d as nat, upper),
            ));
            assert(hex_digits_of((y / 16) as nat, upper).push(hex_char(d as nat, upper)) + before.reverse()
                =~= hex_digits_of((y / 16) as nat, upper) + (seq![hex_char(d as nat, upper)]
                + before.reverse()));
        }
        y = y / 16;
    }
    let mut out: Vec<char> = Vec::new();
    out.push('0');
    out.push('x');
    out.push(crate::text::hex_digit(y as u8, upper));
    let mut k: usize = digits.len();
    proof {
        assert(hex_digits_of(y as nat, upper) == seq![hex_char(y as nat, upper)]);
        assert(digits@.reverse().subrange(0, 0) =~= Seq::<char>::empty());
        assert(out@ =~= seq!['0', 'x'] + hex_digits_of(y as nat, upper) + digits@.reverse().subrange(0, 0));
    }
    while k > 0
        invariant
            k <= digits@.len(),
            out@ == seq!['0', 'x'] + hex_digits_of(y as nat, upper) + digits@.reverse().subrange(
                0,
                digits@.len() - k,
            ),
        decreases k,
    {
        out.push(digits[k - 1]);
        proof {
            assert(digits@.reverse()[digits@.len() - k] == digits@[k - 1]);
            assert(digits@.reverse().subrange(0, digits@.len() - k + 1) =~= digits@.reverse().subrange(
                0,
                digits@.len() - k,
            ).push(digits@[k - 1]));
        }
        k = k - 1;
    }
    proof {
        assert(digits@.reverse().subrange(0, digits@.len() as int) =~= digits@.reverse());
    }
    string_of(out.as_slice())
}

/// `0x` and the value in upper-case hexadecimal (`{:#X}`-like).
pub fn hex64(value: u64) -> (r: String)
    ensures
        r@ == seq!['0', 'x'] + upper_hex_of(value as nat),
{
    hex_prefixed(value, true)
}

/// Where `strip_ansi` is while reading text.
pub enum AnsiState {
    Text,
    Escape,
    Sequence,
}

/// The text so far with ANSI control sequences taken out, and the state
/// after it: an ESC followed by `[` starts a sequence that runs to the
/// first character in `@`..=`~`; an ESC followed by anything else is
/// dropped on its own.
pub open spec fn strip_ansi_of(s: Seq<char>) -> (Seq<char>, AnsiState)
    decreases s.len(),
{
    if s.len() == 0 {
        (seq![], AnsiState::Text)
    } else {
        let (out, st) = strip_ansi_of(s.drop_last());
        let c = s.last();
        match st {
            AnsiState::Sequence => if '@' <= c <= '~' {
                (out, AnsiState::Text)
            } else {
                (out, AnsiState::Sequence)
            },
            AnsiState::Escape => if c == '[' {
                (out, AnsiState::Sequence)
            } else if c == '\x1b' {
                (out, AnsiState::Escape)
            } else {
                (out.push(c), AnsiState::Text)
            },
            AnsiState::Text => if c == '\x1b' {
                (out, AnsiState::Escape)
            } else {
                (out.push(c), AnsiState::Text)
            },
        }
    }
}

/// The text without ANSI control sequences.
pub fn strip_ansi(text: &str) -> (r: String)
    ensures
        r@ == strip_ansi_of(text@).0,
{
    let cs = chars_of(text);
    let mut out: Vec<char> = Vec::new();
    let mut st: u8 = 0;
    let mut i: usize = 0;
    while i < cs.len()
        invariant
            i <= cs@.len(),
            cs@ == text@,
            out@ == strip_ansi_of(cs@.subrange(0, i as int)).0,
            st == match strip_ansi_of(cs@.subrange(0, i as int)).1 {
                AnsiState::Text => 0u8,
                AnsiState::Escape => 1u8,
                AnsiState::Sequence => 2u8,
            },
        decreases cs@.len() - i,
    {
        proof {
            assert(cs@.subrange(0, i + 1).drop_last() =~= cs@.subrange(0, i as int));
        }
        let c = cs[i];
        if st == 2 {
            if '@' <= c && c <= '~' {
                st = 0;
            }
        } else if st == 1 {
            if c == '[' {
                st = 2;
            } else if c == '\x1b' {
                st = 1;
            } else {
                out.push(c);
                st = 0;
            }
        } else {
            if c == '\x1b' {
                st = 1;
            } else {
                out.push(c);
            }
        }
        i = i + 1;
    }
    proof {
        assert(cs@.subrange(0, cs@.len() as int) =~= cs@);
    }
    string_of(out.as_slice())
}

/// The value trimmed, when that leaves something.
pub fn trimmed_non_empty(value: &str) -> (r: Option<String>)
    ensures
        trim_space(value@).len() == 0 ==> r is None,
        trim_space(value@).len() > 0 ==> (r matches Some(s) && s@ == trim_space(value@)),
{
    let t = trim_str(value);
    if chars_of(t.as_str()).len() == 0 {
        None
    } else {
        Some(t)
    }
}

/// Sets a path field derived from another to `next`, unless the user has
/// typed something of their own into it: only when it is blank or still
/// holds the value last derived.
pub fn update_derived_path(value: &mut String, previous: &mut Option<String>, next: String)
    ensures
        (trim_space(old(value)@).len() == 0 || (*old(previous) matches Some(p) && p@ == old(value)@))
            ==> final(value)@ == next@ && (*final(previous) matches Some(p) && p@ == next@),
        !(trim_space(old(value)@).len() == 0 || (*old(previous) matches Some(p) && p@ == old(value)@))
            ==> final(value)@ == old(value)@ && *final(previous) == *old(previous),
{
    let blank = trimmed_non_empty(value.as_str()).is_none();
    let same = match previous {
        Some(p) => crate::text::str_eq(p.as_str(), value.as_str()),
        None => false,
    };
    if blank || same {
        *value = next.clone();
        *previous = Some(next);
    }
}

/// Why a path typed for an archive entry was refused.
#[derive(Debug, Clone, Copy, PartialEq, Eq, Structural)]
pub enum ArchivePathError {
    Empty,
    Unsafe,
}

/// The message id of a refused archive path.
pub open spec fn archive_path_error_id(e: ArchivePathError) -> Seq<char> {
    match e {
        ArchivePathError::Empty => "archive-path-empty"@,
        ArchivePathError::Unsafe => "unsafe-cpio-path"@,
    }
}

impl ArchivePathError {
    /// The message id.
    pub fn id(self) -> (r: &'static str)
        ensures
            r@ == archive_path_error_id(self),
    {
        match self {
            ArchivePathError::Empty => "archive-path-empty",
            ArchivePathError::Unsafe => "unsafe-cpio-path",
        }
    }
}

/// A path typed for an archive entry, trimmed: refused when that leaves
/// nothing, or when it holds a backslash, is absolute or has a `..`
/// component; otherwise normalised as archive paths are.
pub open spec fn archive_path_of(value: Seq<char>) -> Result<Seq<char>, ArchivePathError> {
    let v = trim_space(value);
    if v.len() == 0 {
        Err(ArchivePathError::Empty)
    } else if v.contains('\\') || !safe_relative(v) {
        Err(ArchivePathError::Unsafe)
    } else {
        Ok(norm_path_of(v))
    }
}

/// Checks and normalises a path typed for an archive entry; see
/// [`archive_path_of`].
pub fn validate_archive_path(value: &str) -> (r: Result<String, ArchivePathError>)
    ensures
        match archive_path_of(value@) {
            Ok(p) => r matches Ok(s) && s@ == p,
            Err(e) => r == Err::<String, ArchivePathError>(e),
        },
{
    let v = trim_str(value);
    let chars = chars_of(v.as_str());
    if chars.len() == 0 {
        return Err(ArchivePathError::Empty);
    }
    if chars_contain(chars.as_slice(), '\\') {
        return Err(ArchivePathError::Unsafe);
    }
    if safe_join(".", v.as_str()).is_err() {
        return Err(ArchivePathError::Unsafe);
    }
    Ok(norm_path(v.as_str()))
}

/// Whether a block holds an image, raw or gzip-compressed, that can be
/// previewed.
pub fn is_image_block(block: &OemInfoBlockSummary) -> (r: bool)
    ensures
        r == (block.payload_kind is ImageRaw || block.payload_kind is ImageGzip),
{
    match block.payload_kind {
        OemInfoPayloadKind::ImageRaw => true,
        OemInfoPayloadKind::ImageGzip => true,
        _ => false,
    }
}

/// A space and the text lower-cased, when there is text.
pub open spec fn opt_lower(o: Option<String>) -> Seq<char> {
    match o {
        Some(e) => seq![' '] + lower_ascii(e@),
        None => Seq::empty(),
    }
}

/// `0x` and the value in lower-case hexadecimal (`{:#x}`).
pub open spec fn lower_hex_prefixed(v: nat) -> Seq<char> {
    seq!['0', 'x'] + hex_digits_of(v, false)
}

/// What a block filter searches: its ids, `id:sub_id`, region, layout,
/// payload kind, whether it is active, offset and length in hexadecimal
/// and age, lower-cased, then each preview it has.
pub open spec fn block_search_text(b: OemInfoBlockSummary) -> Seq<char> {
    let sp = seq![' '];
    let state = if b.active {
        "active 活动"@
    } else {
        "inactive 非活动"@
    };
    let base = decimal_of(b.id as nat) + sp + decimal_of(b.sub_id as nat) + sp + decimal_of(b.id as nat)
        + seq![':'] + decimal_of(b.sub_id as nat) + sp + region_name(b.region) + sp + layout_name(b.layout)
        + sp + payload_kind_name(b.payload_kind) + sp + state + sp + lower_hex_prefixed(b.offset as nat)
        + sp + lower_hex_prefixed(b.length as nat) + sp + decimal_of(b.age as nat);
    lower_ascii(base) + opt_lower(b.text_preview) + opt_lower(b.tlv_description) + opt_lower(
        b.image_version_hex,
    )
}

/// Whether a block passes the filter: an empty filter passes every block,
/// another one those whose search text holds it.
pub open spec fn block_matches_of(b: OemInfoBlockSummary, filter: Seq<char>) -> bool {
    filter.len() == 0 || contains_seq(block_search_text(b), filter)
}

fn push_sep_str(out: &mut Vec<char>, sep: char, s: &str)
    ensures
        final(out)@ == old(out)@ + seq![sep] + s@,
{
    let ghost before = out@;
    out.push(sep);
    push_str_chars(out, s);
    proof {
        assert(before.push(sep) =~= before + seq![sep]);
    }
}

fn push_lower_opt(out: &mut Vec<char>, o: &Option<String>)
    ensures
        final(out)@ == old(out)@ + opt_lower(*o),
{
    match o {
        Some(e) => {
            let lower = chars_to_lower(chars_of(e.as_str()).as_slice());
            push_sep_str(out, ' ', string_of(lower.as_slice()).as_str());
        },
        None => {
            proof {
                assert(out@ =~= out@ + Seq::<char>::empty());
            }
        },
    }
}

/// Whether a block passes the filter; see [`block_matches_of`].
pub fn block_matches(block: &OemInfoBlockSummary, filter: &str) -> (r: bool)
    ensures
        r == block_matches_of(*block, filter@),
{
    let f = chars_of(filter);
    if f.len() == 0 {
        return true;
    }
    let mut base = chars_of(decimal(block.id as u64).as_str());
    push_sep_str(&mut base, ' ', decimal(block.sub_id as u64).as_str());
    push_sep_str(&mut base, ' ', decimal(block.id as u64).as_str());
    push_sep_str(&mut base, ':', decimal(block.sub_id as u64).as_str());
    push_sep_str(&mut base, ' ', block.region.as_str());
    push_sep_str(&mut base, ' ', block.layout.as_str());
    push_sep_str(&mut base, ' ', block.payload_kind.as_str());
    let state = if block.active {
        "active 活动"
    } else {
        "inactive 非活动"
    };
    push_sep_str(&mut base, ' ', state);
    push_sep_str(&mut base, ' ', hex_prefixed(block.offset, false).as_str());
    push_sep_str(&mut base, ' ', hex_prefixed(block.length as u64, false).as_str());
    push_sep_str(&mut base, ' ', decimal(block.age as u64).as_str());
    let mut text = chars_to_lower(base.as_slice());
    push_lower_opt(&mut text, &block.text_preview);
    push_lower_opt(&mut text, &block.tlv_description);
    push_lower_opt(&mut text, &block.image_version_hex);
    chars_contain_seq(text.as_slice(), f.as_slice())
}

/// How far a patched ramdisk payload may still grow: what the certificate
/// allows beyond the header and the current payload, or 0 when they already
/// use it up.
pub fn payload_growth_space(cert_limit: u64, header_size: u64, payload_size: u64) -> (r: u64)
    ensures
        r == if cert_limit >= header_size + payload_size {
            cert_limit - header_size - payload_size
        } else {
            0
        },
{
    if cert_limit < header_size {
        return 0;
    }
    let limit = cert_limit - header_size;
    if limit < payload_size {
        0
    } else {
        limit - payload_size
    }
}

/// The flash target an image's file name suggests: `ptable` for the
/// partition table, otherwise the trimmed stem of an `.img` or `.bin` file
/// (either case), when it is not empty.
pub open spec fn partition_name_of(file_name: Seq<char>) -> Option<Seq<char>> {
    let (stem, ext) = split_file_name_of(file_name);
    if eq_ignore_case(trim_space(file_name), "ptable"@) {
        Some("ptable"@)
    } else {
        match ext {
            None => None,
            Some(e) => if !(eq_ignore_case(e, "img"@) || eq_ignore_case(e, "bin"@)) {
                None
            } else if trim_space(stem).len() == 0 {
                None
            } else {
                Some(trim_space(stem))
            },
        }
    }
}

/// The flash target an image's file name suggests; see
/// [`partition_name_of`].
pub fn partition_name_from_file_name(file_name: &str) -> (r: Option<String>)
    ensures
        match partition_name_of(file_name@) {
            Some(n) => r matches Some(x) && x@ == n,
            None => r is None,
        },
{
    let trimmed = chars_of(trim_str(file_name).as_str());
    if chars_eq_ignore_case(trimmed.as_slice(), chars_of("ptable").as_slice()) {
        return Some(owned("ptable"));
    }
    let (stem, ext) = split_file_name(file_name);
    let ext = match ext {
        Some(e) => e,
        None => return None,
    };
    let ec = chars_of(ext.as_str());
    if !chars_eq_ignore_case(ec.as_slice(), chars_of("img").as_slice()) && !chars_eq_ignore_case(
        ec.as_slice(),
        chars_of("bin").as_slice(),
    ) {
        return None;
    }
    let stem = trim_str(stem.as_str());
    if chars_of(stem.as_str()).len() == 0 {
        None
    } else {
        Some(stem)
    }
}

/// The names of the first `n` components whose boxes are checked, in order.
pub open spec fn checked_names(comps: Seq<Component>, checked: Seq<bool>, n: int) -> Seq<Seq<char>>
    decreases n,
{
    if n <= 0 {
        seq![]
    } else if checked[n - 1] {
        checked_names(comps, checked, n - 1).push(comps[n - 1].name@)
    } else {
        checked_names(comps, checked, n - 1)
    }
}

/// How many components have a box beside them.
pub open spec fn paired(comps: Seq<Component>, checked: Seq<bool>) -> int {
    if comps.len() < checked.len() {
        comps.len() as int
    } else {
        checked.len() as int
    }
}

/// The names of the components whose boxes are checked; see
/// [`checked_names`].
pub fn selected_names(components: &Vec<Component>, checked: &Vec<bool>) -> (r: Vec<String>)
    ensures
        strings(r@) == checked_names(components@, checked@, paired(components@, checked@)),
{
    let n = if components.len() < checked.len() {
        components.len()
    } else {
        checked.len()
    };
    let mut out: Vec<String> = Vec::new();
    let mut i: usize = 0;
    proof {
        assert(strings(out@) =~= Seq::<Seq<char>>::empty());
    }
    while i < n
        invariant
            n == paired(components@, checked@),
            i <= n,
            strings(out@) == checked_names(components@, checked@, i as int),
        decreases n - i,
    {
        if checked[i] {
            let ghost before = strings(out@);
            out.push(components[i].name.clone());
            proof {
                assert(strings(out@) =~= before.push(components@[i as int].name@));
            }
        }
        i = i + 1;
    }
    out
}

/// The partitions a package page unpacks: those typed into the custom
/// field (split on `,` and white space), or else the checked components.
pub fn selected_partitions(custom: &str, components: &Vec<Component>, checked: &Vec<bool>) -> (r: Vec<
    String,
>)
    ensures
        fields(custom@, true).len() > 0 ==> strings(r@) == fields(custom@, true),
        fields(custom@, true).len() == 0 ==> strings(r@) == checked_names(
            components@,
            checked@,
            paired(components@, checked@),
        ),
{
    let typed = split_fields(custom, true);
    if typed.len() > 0 {
        proof {
            assert(strings(typed@) =~= typed@.map_values(|x: String| x@));
        }
        typed
    } else {
        proof {
            assert(typed@.map_values(|x: String| x@).len() == 0);
        }
        selected_names(components, checked)
    }
}

/// The label of an update.bin component type.
pub open spec fn component_type_label_of(component_type: u8) -> Seq<char> {
    if component_type == 0 {
        "镜像"@
    } else if component_type == 1 {
        "压缩包"@
    } else {
        "类型 "@ + decimal_of(component_type as nat)
    }
}

/// The label of an update.bin component type; see [`component_type_label_of`].
pub fn component_type_label(component_type: u8) -> (r: String)
    ensures
        r@ == component_type_label_of(component_type),
{
    if component_type == 0 {
        owned("镜像")
    } else if component_type == 1 {
        owned("压缩包")
    } else {
        let mut out: Vec<char> = Vec::new();
        push_str_chars(&mut out, "类型 ");
        push_str_chars(&mut out, decimal(component_type as u64).as_str());
        proof {
            assert(Seq::<char>::empty() + "类型 "@ =~= "类型 "@);
        }
        string_of(out.as_slice())
    }
}

/// The label of an update.bin layout choice on the package pages.
pub open spec fn layout_label_of(layout: UpdateLayout) -> Seq<char> {
    match layout {
        UpdateLayout::Auto => "自动检测"@,
        UpdateLayout::L1 => "L1"@,
        UpdateLayout::L2 => "L2"@,
    }
}

/// The label of an update.bin layout choice; see [`layout_label_of`].
pub fn layout_label(layout: UpdateLayout) -> (r: &'static str)
    ensures
        r@ == layout_label_of(layout),
{
    match layout {
        UpdateLayout::Auto => "自动检测",
        UpdateLayout::L1 => "L1",
        UpdateLayout::L2 => "L2",
    }
}

/// The name of an update.bin layout in a job's report.
pub open spec fn layout_report_name_of(layout: UpdateLayout) -> Seq<char> {
    match layout {
        UpdateLayout::Auto => "auto"@,
        UpdateLayout::L1 => "L1"@,
        UpdateLayout::L2 => "L2"@,
    }
}

/// The name of an update.bin layout in a job's report; see
/// [`layout_report_name_of`].
pub fn layout_report_name(layout: UpdateLayout) -> (r: &'static str)
    ensures
        r@ == layout_report_name_of(layout),
{
    match layout {
        UpdateLayout::Auto => "auto",
        UpdateLayout::L1 => "L1",
        UpdateLayout::L2 => "L2",
    }
}

/// Whether an NVE item passes the search typed on the NVE page: the text,
/// trimmed and lower-cased, is empty or occurs in the item's lower-cased
/// name, its number in decimal, or its lower-cased value text or hex.
pub open spec fn nve_item_matches_of(item: NveItemSummary, filter: Seq<char>) -> bool {
    let f = lower_ascii(trim_space(filter));
    ||| f.len() == 0
    ||| contains_seq(lower_ascii(item.name@), f)
    ||| contains_seq(decimal_of(item.number as nat), f)
    ||| contains_seq(lower_ascii(item.value_text@), f)
    ||| contains_seq(lower_ascii(item.value_hex@), f)
}

/// Whether an NVE item passes the search; see [`nve_item_matches_of`].
pub fn nve_item_matches(item: &NveItemSummary, filter: &str) -> (r: bool)
    ensures
        r == nve_item_matches_of(*item, filter@),
{
    let t = trim_str(filter);
    let f = chars_to_lower(chars_of(t.as_str()).as_slice());
    if f.len() == 0 {
        return true;
    }
    let name = chars_to_lower(chars_of(item.name.as_str()).as_slice());
    if chars_contain_seq(name.as_slice(), f.as_slice()) {
        return true;
    }
    let number = chars_of(decimal(item.number as u64).as_str());
    if chars_contain_seq(number.as_slice(), f.as_slice()) {
        return true;
    }
    let text = chars_to_lower(chars_of(item.value_text.as_str()).as_slice());
    if chars_contain_seq(text.as_slice(), f.as_slice()) {
        return true;
    }
    let hex = chars_to_lower(chars_of(item.value_hex.as_str()).as_slice());
    chars_contain_seq(hex.as_slice(), f.as_slice())
}

/// `drwxr-xr-x` and the like, for a cpio mode.
pub fn mode_string(mode: u32) -> (r: String)
    ensures
        r@ == crate::cpio::mode_chars(mode),
{
    let e = crate::cpio::CpioEntry { mode, uid: 0, gid: 0, rdevmajor: 0, rdevminor: 0, data: Vec::new() };
    let d = e.describe();
    let cs = chars_of(d.as_str());
    proof {
        assert(cs@.subrange(0, 10) =~= crate::cpio::mode_chars(mode));
    }
    string_of(vstd::slice::slice_subrange(cs.as_slice(), 0, 10))
}

// ---------------------------------------------------------------------------
// Settings.

/// What the interface remembers between runs.
#[derive(Debug, Clone)]
pub struct Settings {
    pub last_dir: Option<String>,
    pub recent: Vec<String>,
    pub language: Language,
}

pub open spec fn strings(v: Seq<String>) -> Seq<Seq<char>> {
    v.map_values(|s: String| s@)
}

/// The recent list with `path` moved to the front, at most eight long.
pub open spec fn recent_after(recent: Seq<Seq<char>>, path: Seq<char>) -> Seq<Seq<char>> {
    let kept = seq![path] + recent.filter(|e: Seq<char>| e != path);
    if kept.len() > 8 {
        kept.take(8)
    } else {
        kept
    }
}

impl Settings {
    pub fn new() -> (r: Settings)
        ensures
            r.last_dir is None,
            r.recent@.len() == 0,
            r.language == Language::English,
    {
        Settings { last_dir: None, recent: Vec::new(), language: Language::English }
    }

    /// Remembers a path the user picked: a directory becomes the last
    /// directory; a file's non-empty parent does, and a file moves to the
    /// front of the recent list (at most eight, no duplicates of it).
    pub fn remember_path(&mut self, path: String, parent: Option<String>, is_dir: bool, is_file: bool)
        ensures
            is_dir ==> (final(self).last_dir matches Some(d) && d@ == path@) && strings(
                final(self).recent@,
            ) == strings(old(self).recent@),
            !is_dir ==> match parent {
                Some(p) => if p@.len() > 0 {
                    final(self).last_dir matches Some(d) && d@ == p@
                } else {
                    opt_view(final(self).last_dir) == opt_view(old(self).last_dir)
                },
                None => opt_view(final(self).last_dir) == opt_view(old(self).last_dir),
            },
            !is_dir && is_file ==> strings(final(self).recent@) == recent_after(
                strings(old(self).recent@),
                path@,
            ),
            !is_dir && !is_file ==> strings(final(self).recent@) == strings(old(self).recent@),
            final(self).language == old(self).language,
    {
        if is_dir {
            self.last_dir = Some(path);
            return;
        }
        match parent {
            Some(p) => {
                if chars_of(p.as_str()).len() > 0 {
                    self.last_dir = Some(p);
                }
            },
            None => {},
        }
        if is_file {
            let ghost old_recent = strings(self.recent@);
            let mut kept: Vec<String> = Vec::new();
            kept.push(path.clone());
            let mut i: usize = 0;
            while i < self.recent.len()
                invariant
                    i <= self.recent@.len(),
                    old_recent == strings(self.recent@),
                    strings(kept@) == seq![path@] + old_recent.take(i as int).filter(
                        |e: Seq<char>| e != path@,
                    ),
                decreases self.recent@.len() - i,
            {
                let e = &self.recent[i];
                proof {
                    assert(old_recent.take(i + 1) =~= old_recent.take(i as int).push(e@));
                }
                let ghost before = strings(kept@);
                if !crate::text::str_eq(e.as_str(), path.as_str()) {
                    kept.push(e.clone());
                }
                proof {
                    reveal(Seq::filter);
                    assert(old_recent.take(i + 1).drop_last() =~= old_recent.take(i as int));
                    if e@ != path@ {
                        assert(strings(kept@) =~= before.push(e@));
                    } else {
                        assert(strings(kept@) =~= before);
                    }
                }
                i = i + 1;
            }
            proof {
                assert(old_recent.take(self.recent@.len() as int) =~= old_recent);
            }
            if kept.len() > 8 {
                kept.truncate(8);
                proof {
                    assert(strings(kept@) =~= (seq![path@] + old_recent.filter(|e: Seq<char>| e != path@)).take(8));
                }
            }
            self.recent = kept;
        }
    }
}

pub open spec fn opt_view(o: Option<String>) -> Option<Seq<char>> {
    match o {
        Some(s) => Some(s@),
        None => None,
    }
}

// ---------------------------------------------------------------------------
// What the home page offers for a dropped file.

/// Which input of a page an action fills in.
#[derive(Debug, Clone, Copy, PartialEq, Eq, Structural)]
pub enum ActionKind {
    Input,
    ErofsInput,
    ErofsWorkspace,
    RamdiskInput,
    RamdiskWorkspace,
    PartitionInput,
    NvmeInput,
    OemInfoInput,
}

/// An action offered for a file: the message id of its label, the page it
/// opens and the input it fills in there.
#[derive(Debug, Clone, Copy, PartialEq, Eq)]
pub struct Action {
    pub message: &'static str,
    pub page: Page,
    pub kind: ActionKind,
}

/// The actions offered for a file of each kind, in order.
pub open spec fn suggested_of(kind: FileKind) -> Seq<(Seq<char>, Page, ActionKind)> {
    match kind {
        FileKind::ZipPackage => seq![("action-unpack-package"@, Page::Package, ActionKind::Input)],
        FileKind::Erofs => seq![("action-unpack-erofs"@, Page::Images, ActionKind::ErofsInput), ("action-view-partition"@, Page::Images, ActionKind::PartitionInput)],
        FileKind::HarmonyFrame => seq![("action-ramdisk"@, Page::Images, ActionKind::RamdiskInput), ("action-view-partition"@, Page::Images, ActionKind::PartitionInput)],
        FileKind::Rvt => seq![("action-view-rvt"@, Page::Images, ActionKind::PartitionInput)],
        FileKind::Gpt => seq![("action-view-gpt"@, Page::Images, ActionKind::PartitionInput)],
        FileKind::SecImage => seq![("action-view-sec-image"@, Page::Images, ActionKind::PartitionInput)],
        FileKind::HvbWrapped => seq![("action-view-partition"@, Page::Images, ActionKind::PartitionInput)],
        FileKind::Nve => seq![("action-open-nve"@, Page::Nvme, ActionKind::NvmeInput)],
        FileKind::OemInfo => seq![("action-browse-oeminfo"@, Page::OemInfo, ActionKind::OemInfoInput)],
        FileKind::Cpio => seq![("action-browse-cpio"@, Page::Cpio, ActionKind::Input)],
        FileKind::ErofsWorkspace => seq![("action-repack-image"@, Page::Images, ActionKind::ErofsWorkspace)],
        FileKind::RamdiskWorkspace => seq![("action-repack-image"@, Page::Images, ActionKind::RamdiskWorkspace)],
        FileKind::Unknown => seq![("action-try-partition"@, Page::Images, ActionKind::PartitionInput)],
    }
}

/// The actions offered for a file of `kind`; see [`suggested_of`].
pub fn suggested_actions(kind: FileKind) -> (r: Vec<Action>)
    ensures
        r@.map_values(|a: Action| (a.message@, a.page, a.kind)) == suggested_of(kind),
{
    let mut v: Vec<Action> = Vec::new();
    match kind {
        FileKind::ZipPackage => {
            v.push(Action { message: "action-unpack-package", page: Page::Package, kind: ActionKind::Input });
        },
        FileKind::Erofs => {
            v.push(Action { message: "action-unpack-erofs", page: Page::Images, kind: ActionKind::ErofsInput });
            v.push(Action { message: "action-view-partition", page: Page::Images, kind: ActionKind::PartitionInput });
        },
        FileKind::HarmonyFrame => {
            v.push(Action { message: "action-ramdisk", page: Page::Images, kind: ActionKind::RamdiskInput });
            v.push(Action { message: "action-view-partition", page: Page::Images, kind: ActionKind::PartitionInput });
        },
        FileKind::Rvt => {
            v.push(Action { message: "action-view-rvt", page: Page::Images, kind: ActionKind::PartitionInput });
        },
        FileKind::Gpt => {
            v.push(Action { message: "action-view-gpt", page: Page::Images, kind: ActionKind::PartitionInput });
        },
        FileKind::SecImage => {
            v.push(Action { message: "action-view-sec-image", page: Page::Images, kind: ActionKind::PartitionInput });
        },
        FileKind::HvbWrapped => {
            v.push(Action { message: "action-view-partition", page: Page::Images, kind: ActionKind::PartitionInput });
        },
        FileKind::Nve => {
            v.push(Action { message: "action-open-nve", page: Page::Nvme, kind: ActionKind::NvmeInput });
        },
        FileKind::OemInfo => {
            v.push(Action { message: "action-browse-oeminfo", page: Page::OemInfo, kind: ActionKind::OemInfoInput });
        },
        FileKind::Cpio => {
            v.push(Action { message: "action-browse-cpio", page: Page::Cpio, kind: ActionKind::Input });
        },
        FileKind::ErofsWorkspace => {
            v.push(Action { message: "action-repack-image", page: Page::Images, kind: ActionKind::ErofsWorkspace });
        },
        FileKind::RamdiskWorkspace => {
            v.push(Action { message: "action-repack-image", page: Page::Images, kind: ActionKind::RamdiskWorkspace });
        },
        FileKind::Unknown => {
            v.push(Action { message: "action-try-partition", page: Page::Images, kind: ActionKind::PartitionInput });
        },
    }
    proof {
        assert(v@.map_values(|a: Action| (a.message@, a.page, a.kind)) =~= suggested_of(kind));
    }
    v
}

} // verus!

use vstd::prelude::*;
use vstd::utf8::{
    decode_utf8, encode_utf8, encode_utf8_decode_utf8, encode_utf8_valid_utf8, is_ascii_chars,
    is_ascii_chars_encode_utf8, valid_utf8,
};
use crate::listing::tree_name;

verus! {

/// One bit of the CRC-32 (IEEE 802.3) division, in its reflected form.
pub open spec fn crc32_shift(c: u32) -> u32 {
    if c & 1 == 1 {
        (c >> 1) ^ 0xedb88320
    } else {
        c >> 1
    }
}

/// The CRC-32 register after taking in byte `b`.
pub open spec fn crc32_byte(c: u32, b: u8) -> u32 {
    let x = c ^ (b as u32);
    crc32_shift(crc32_shift(crc32_shift(crc32_shift(crc32_shift(crc32_shift(crc32_shift(crc32_shift(x))))))))
}

/// The CRC-32 register after taking in `data`, starting from all ones.
pub open spec fn crc32_register(data: Seq<u8>) -> u32
    decreases data.len(),
{
    if data.len() == 0 {
        0xffff_ffff
    } else {
        crc32_byte(crc32_register(data.drop_last()), data.last())
    }
}

/// The CRC-32 (IEEE) checksum of `data`: the final register, inverted.
pub open spec fn crc32(data: Seq<u8>) -> u32 {
    crc32_register(data) ^ 0xffff_ffff
}

/// What `str::to_lowercase` returns for a string with the characters `s`.
pub uninterp spec fn lowercase_chars(s: Seq<char>) -> Seq<char>;

/// The CRC-32 of `data`.
///
/// Calls `crc32fast::hash`, which computes the standard CRC-32 (IEEE) that
/// `crc32` defines.
#[verifier::external_body]
fn crc32_of(data: &[u8]) -> (r: u32)
    ensures
        r == crc32(data@),
{
    crc32fast::hash(data)
}

/// Reads `bytes` as UTF-8 text.
///
/// Calls `std::str::from_utf8`: it succeeds exactly on well-formed UTF-8,
/// and the text it gives back is what those bytes encode.
#[verifier::external_body]
fn utf8_text(bytes: &[u8]) -> (r: Option<&str>)
    ensures
        r is Some <==> valid_utf8(bytes@),
        r matches Some(s) ==> s@ == decode_utf8(bytes@),
{
    std::str::from_utf8(bytes).ok()
}

/// The lower-case form of an ASCII character: `A`-`Z` become `a`-`z`.
pub open spec fn ascii_lower(c: char) -> char {
    if 'A' <= c <= 'Z' {
        ((c as u32) + 32) as char
    } else {
        c
    }
}

/// The lower-case form of `s`.
///
/// Calls `str::to_lowercase`; the contract names its result and states what
/// the Unicode lower-case mapping does on ASCII text: it lowers `A`-`Z` and
/// leaves the rest.
#[verifier::external_body]
fn lowercase(s: &str) -> (r: String)
    ensures
        r@ == lowercase_chars(s@),
        is_ascii_chars(s@) ==> r@ == s@.map_values(|c: char| ascii_lower(c)),
{
    s.to_lowercase()
}

pub open spec fn dot() -> u8 {
    0x2e
}

/// Index of the last `.` among the first `k` bytes of `name`, or -1.
pub open spec fn last_dot_before(name: Seq<u8>, k: int) -> int
    decreases k,
{
    if k <= 0 {
        -1
    } else if name[k - 1] == dot() {
        k - 1
    } else {
        last_dot_before(name, k - 1)
    }
}

proof fn lemma_last_dot_bound(name: Seq<u8>, k: int)
    requires
        0 <= k,
    ensures
        -1 <= last_dot_before(name, k) < k,
    decreases k,
{
    if k > 0 {
        lemma_last_dot_bound(name, k - 1);
    }
}

/// A file name split into stem and extension, as `Path::file_stem` and
/// `Path::extension` do: the extension follows the last `.`, unless that dot
/// starts the name (a hidden file such as `.cfg`) or the name is `..`.
pub open spec fn split_name(name: Seq<u8>) -> (Seq<u8>, Option<Seq<u8>>) {
    let k = last_dot_before(name, name.len() as int);
    if name == seq![dot(), dot()] || k <= 0 {
        (name, None)
    } else {
        (name.take(k), Some(name.skip(k + 1)))
    }
}

/// A name as the tree stores it: an empty name becomes a single space, as
/// an empty string would end a list of the tree.
pub open spec fn or_blank(s: Seq<u8>) -> Seq<u8> {
    if s.len() == 0 {
        root_dir()
    } else {
        s
    }
}

/// The extension stored for a file: its extension in lower case, or a
/// single space when it has none, it is empty or it is not valid UTF-8.
pub open spec fn ext_of(name: Seq<u8>) -> Seq<u8> {
    or_blank(
        match split_name(name).1 {
            Some(e) => if valid_utf8(e) {
                encode_utf8(lowercase_chars(decode_utf8(e)))
            } else {
                Seq::empty()
            },
            None => Seq::empty(),
        },
    )
}

/// The stem stored for a file: the name without its extension, or a single
/// space when that is empty or not valid UTF-8.
pub open spec fn stem_of(name: Seq<u8>) -> Seq<u8> {
    let stem = split_name(name).0;
    or_blank(if valid_utf8(stem) { stem } else { Seq::empty() })
}

pub open spec fn backslash() -> u8 {
    0x5c
}

pub open spec fn slash() -> u8 {
    0x2f
}

/// Every `\` replaced by `/`.
pub open spec fn forward_slashes(p: Seq<u8>) -> Seq<u8> {
    p.map_values(|b: u8| if b == backslash() { slash() } else { b })
}

/// No byte of `s` is zero.
pub open spec fn no_zero(s: Seq<u8>) -> bool {
    forall|i: int| 0 <= i < s.len() ==> s[i] != 0
}

/// Every byte of `s` is ASCII.
pub open spec fn ascii_bytes(s: Seq<u8>) -> bool {
    forall|i: int| 0 <= i < s.len() ==> s[i] < 128
}

/// A file's names fit the tree: they hold no zero byte (as no file name
/// does), and its extension, if any, is ASCII.
pub open spec fn names_fit_tree(name: Seq<u8>, parent: Option<Seq<u8>>) -> bool {
    &&& no_zero(name)
    &&& parent matches Some(p) ==> no_zero(p)
    &&& split_name(name).1 matches Some(e) ==> ascii_bytes(e)
}

/// ASCII bytes are valid UTF-8 and decode to the characters of the same codes.
proof fn lemma_ascii_decode(e: Seq<u8>)
    requires
        ascii_bytes(e),
    ensures
        valid_utf8(e),
        decode_utf8(e) == e.map_values(|b: u8| b as char),
        is_ascii_chars(e.map_values(|b: u8| b as char)),
{
    let c = e.map_values(|b: u8| b as char);
    assert(is_ascii_chars(c));
    is_ascii_chars_encode_utf8(c);
    assert(encode_utf8(c) =~= e);
    encode_utf8_valid_utf8(c);
    encode_utf8_decode_utf8(c);
}

/// Lowering ASCII characters without a zero keeps them ASCII and non-zero.
proof fn lemma_lower_no_zero(c: Seq<char>)
    requires
        is_ascii_chars(c),
        forall|i: int| 0 <= i < c.len() ==> c[i] != '\0',
    ensures
        no_zero(encode_utf8(c.map_values(|x: char| ascii_lower(x)))),
        encode_utf8(c.map_values(|x: char| ascii_lower(x))).len() == c.len(),
{
    let l = c.map_values(|x: char| ascii_lower(x));
    assert(is_ascii_chars(l));
    is_ascii_chars_encode_utf8(l);
    assert forall|i: int| 0 <= i < l.len() implies encode_utf8(l)[i] != 0 by {
        assert(l[i] as u8 == encode_utf8(l)[i]);
    }
}

/// A single space, which stands for the root directory in the tree.
pub open spec fn root_dir() -> Seq<u8> {
    seq![0x20u8]
}

/// The directory stored for a file whose relative path has the parent
/// `parent`: that path with forward slashes, or a single space when there is
/// none, it is empty or it is not valid UTF-8.
pub open spec fn dir_of(parent: Option<Seq<u8>>) -> Seq<u8> {
    match parent {
        Some(p) => if valid_utf8(p) && p.len() > 0 {
            forward_slashes(p)
        } else {
            root_dir()
        },
        None => root_dir(),
    }
}

/// The largest size a file of a VPK version 1 archive can have.
pub open spec fn max_file_size() -> int {
    u32::MAX as int
}

/// Every recorded size is the length of the data.
pub open spec fn sized(es: Seq<EntryView>) -> bool {
    forall|i: int| 0 <= i < es.len() ==> (#[trigger] es[i]).data.len() == es[i].size
}

/// What the archive records of one file.
pub ghost struct EntryView {
    pub ext: Seq<u8>,
    pub dir: Seq<u8>,
    pub stem: Seq<u8>,
    pub data: Seq<u8>,
    pub crc32: u32,
    pub archive_index: u16,
    pub offset: u32,
    pub size: u32,
}

/// A file to be packed: its place in the tree (extension, directory, stem),
/// its contents and checksum, and where its data goes.
pub struct FileEntry {
    pub(crate) ext: Vec<u8>,
    pub(crate) dir: Vec<u8>,
    pub(crate) stem: Vec<u8>,
    pub(crate) data: Vec<u8>,
    pub(crate) crc32: u32,
    pub(crate) archive_index: u16,
    pub(crate) offset: u32,
    pub(crate) size: u32,
}

/// Why a file cannot become an entry.
#[derive(Debug, Clone, Copy, PartialEq, Eq, Structural)]
pub enum EntryError {
    /// The file is larger than a VPK version 1 archive can describe.
    TooLarge,
}

impl View for FileEntry {
    type V = EntryView;

    closed spec fn view(&self) -> EntryView {
        EntryView {
            ext: self.ext@,
            dir: self.dir@,
            stem: self.stem@,
            data: self.data@,
            crc32: self.crc32,
            archive_index: self.archive_index,
            offset: self.offset,
            size: self.size,
        }
    }
}

impl FileEntry {
    #[verifier::type_invariant]
    spec fn sized(self) -> bool {
        self.data@.len() == self.size
    }

    pub fn ext(&self) -> (r: &[u8])
        ensures
            r@ == self@.ext,
    {
        self.ext.as_slice()
    }

    pub fn dir(&self) -> (r: &[u8])
        ensures
            r@ == self@.dir,
    {
        self.dir.as_slice()
    }

    pub fn stem(&self) -> (r: &[u8])
        ensures
            r@ == self@.stem,
    {
        self.stem.as_slice()
    }

    pub fn data(&self) -> (r: &[u8])
        ensures
            r@ == self@.data,
    {
        self.data.as_slice()
    }

    pub fn crc32(&self) -> (r: u32)
        ensures
            r == self@.crc32,
    {
        self.crc32
    }

    pub fn archive_index(&self) -> (r: u16)
        ensures
            r == self@.archive_index,
    {
        self.archive_index
    }

    pub fn offset(&self) -> (r: u32)
        ensures
            r == self@.offset,
    {
        self.offset
    }

    pub fn size(&self) -> (r: u32)
        ensures
            r == self@.size,
            r == self@.data.len(),
    {
        proof {
            use_type_invariant(self);
        }
        self.size
    }

    /// Marks the data as embedded after the tree.
    pub(crate) fn mark_embedded(&mut self)
        ensures
            final(self)@ == (EntryView { archive_index: 0x7fff, offset: 0, ..old(self)@ }),
    {
        proof {
            use_type_invariant(&*self);
        }
        self.archive_index = 0x7fff;
        self.offset = 0;
    }

    /// Places the data at `offset` in archive chunk `archive_index`.
    pub(crate) fn place(&mut self, archive_index: u16, offset: u32)
        ensures
            final(self)@ == (EntryView { archive_index, offset, ..old(self)@ }),
    {
        proof {
            use_type_invariant(&*self);
        }
        self.archive_index = archive_index;
        self.offset = offset;
    }

    /// The entry for a file whose path relative to the packed folder has the
    /// name `file_name` and the parent `parent` (both as raw path bytes), with
    /// contents `data`. Files too large for the format are refused.
    pub fn new(file_name: &[u8], parent: Option<&[u8]>, data: Vec<u8>) -> (r: Result<FileEntry, EntryError>)
        ensures
            r is Err <==> data@.len() > max_file_size(),
            r matches Err(e) ==> e == EntryError::TooLarge,
            r matches Ok(e) ==> e@ == (EntryView {
                ext: ext_of(file_name@),
                dir: dir_of(match parent { Some(p) => Some(p@), None => None }),
                stem: stem_of(file_name@),
                data: data@,
                crc32: crc32(data@),
                archive_index: 0,
                offset: 0,
                size: data@.len() as u32,
            }),
            r matches Ok(e) ==> (names_fit_tree(
                file_name@,
                match parent { Some(p) => Some(p@), None => None },
            ) ==> tree_name(e@.ext) && tree_name(e@.dir) && tree_name(e@.stem)),
    {
        if data.len() > 0xffff_ffffusize {
            return Err(EntryError::TooLarge);
        }
        let size = data.len() as u32;
        let crc = crc32_of(data.as_slice());
        let (stem_bytes, ext_bytes) = split_file_name(file_name);
        let ext = match ext_bytes {
            Some(e) => match utf8_text(e) {
                Some(text) => {
                    let lower = lowercase(text);
                    proof {
                        if names_fit_tree(file_name@, match parent { Some(p) => Some(p@), None => None }) {
                            lemma_ascii_decode(e@);
                            let c = e@.map_values(|b: u8| b as char);
                            assert forall|i: int| 0 <= i < c.len() implies c[i] != '\0' by {
                                let k = last_dot_before(file_name@, file_name@.len() as int);
                                lemma_last_dot_bound(file_name@, file_name@.len() as int);
                                assert(e@ == file_name@.skip(k + 1));
                                assert(e@[i] == file_name@[k + 1 + i]);
                                assert(e@[i] != 0);
                                assert(c[i] == e@[i] as char);
                            }
                            lemma_lower_no_zero(c);
                        }
                    }
                    vstd::slice::slice_to_vec(lower.as_str().as_bytes())
                },
                None => Vec::new(),
            },
            None => Vec::new(),
        };
        let stem = match utf8_text(stem_bytes) {
            Some(_) => vstd::slice::slice_to_vec(stem_bytes),
            None => Vec::new(),
        };
        let ext = blank_if_empty(ext);
        let stem = blank_if_empty(stem);
        let dir = dir_from_parent(parent);
        proof {
            let par = match parent { Some(p) => Some(p@), None => None };
            if names_fit_tree(file_name@, par) {
                let st = split_name(file_name@).0;
                lemma_last_dot_bound(file_name@, file_name@.len() as int);
                assert forall|i: int| 0 <= i < st.len() implies st[i] != 0 by {
                    assert(st[i] == file_name@[i]);
                }
                if let Some(p) = par {
                    assert forall|i: int| 0 <= i < forward_slashes(p).len() implies forward_slashes(p)[i] != 0 by {
                        assert(p[i] != 0);
                    }
                }
                assert(tree_name(stem@));
                assert(tree_name(dir@));
                assert(tree_name(ext@));
            }
        }
        Ok(FileEntry { ext, dir, stem, data, crc32: crc, archive_index: 0, offset: 0, size })
    }
}

/// The first file that cannot become an entry, if any: packing halts on it,
/// as a file too large for the format would make a corrupt archive.
pub fn first_refused(results: &[Result<FileEntry, EntryError>]) -> (r: Option<usize>)
    ensures
        r is None <==> forall|i: int| 0 <= i < results@.len() ==> #[trigger] results@[i] is Ok,
        r matches Some(i) ==> i < results@.len() && results@[i as int] is Err && forall|j: int|
            0 <= j < i ==> #[trigger] results@[j] is Ok,
{
    let n = results.len();
    for i in 0..n
        invariant
            n == results@.len(),
            forall|j: int| 0 <= j < i ==> #[trigger] results@[j] is Ok,
    {
        if results[i].is_err() {
            return Some(i);
        }
    }
    None
}

/// `s`, or a single space when `s` is empty (see `or_blank`).
pub fn blank_if_empty(s: Vec<u8>) -> (r: Vec<u8>)
    ensures
        r@ == or_blank(s@),
{
    if s.len() == 0 {
        let mut b: Vec<u8> = Vec::new();
        b.push(0x20);
        assert(b@ =~= root_dir());
        b
    } else {
        s
    }
}

/// Splits a file name into stem and extension (see `split_name`).
pub fn split_file_name(name: &[u8]) -> (r: (&[u8], Option<&[u8]>))
    ensures
        r.0@ == split_name(name@).0,
        match (r.1, split_name(name@).1) {
            (Some(a), Some(b)) => a@ == b,
            (None, None) => true,
            _ => false,
        },
{
    let n = name.len();
    if n == 2 && name[0] == 0x2e && name[1] == 0x2e {
        assert(name@ =~= seq![dot(), dot()]);
        return (name, None);
    }
    let mut k: usize = n;
    while k > 0 && name[k - 1] != 0x2e
        invariant
            k <= n,
            n == name@.len(),
            last_dot_before(name@, n as int) == last_dot_before(name@, k as int),
        decreases k,
    {
        k = k - 1;
    }
    assert(name@ != seq![dot(), dot()]) by {
        if name@ == seq![dot(), dot()] {
            assert(name@[0] == dot() && name@[1] == dot());
        }
    }
    if k <= 1 {
        (name, None)
    } else {
        let stem = vstd::slice::slice_subrange(name, 0, k - 1);
        let ext = vstd::slice::slice_subrange(name, k, n);
        assert(stem@ =~= name@.take(k - 1));
        assert(ext@ =~= name@.skip(k as int));
        (stem, Some(ext))
    }
}

/// The directory recorded for a parent path (see `dir_of`).
pub fn dir_from_parent(parent: Option<&[u8]>) -> (r: Vec<u8>)
    ensures
        r@ == dir_of(match parent { Some(p) => Some(p@), None => None }),
{
    match parent {
        Some(p) => {
            if p.len() == 0 || utf8_text(p).is_none() {
                let mut d: Vec<u8> = Vec::new();
                d.push(0x20);
                assert(d@ =~= root_dir());
                d
            } else {
                let mut d: Vec<u8> = Vec::new();
                let n = p.len();
                for i in 0..n
                    invariant
                        n == p@.len(),
                        d@ =~= forward_slashes(p@.take(i as int)),
                {
                    let b = p[i];
                    if b == 0x5c {
                        d.push(0x2f);
                    } else {
                        d.push(b);
                    }
                    assert(p@.take(i + 1) =~= p@.take(i as int).push(b));
                }
                assert(p@.take(n as int) =~= p@);
                d
            }
        },
        None => {
            let mut d: Vec<u8> = Vec::new();
            d.push(0x20);
            assert(d@ =~= root_dir());
            d
        },
    }
}

} // verus!

use vstd::prelude::*;
use ico::IconDir;

verus! {

#[verifier::external_type_specification]
#[verifier::external_body]
pub struct ExIconDir(ico::IconDir);

#[verifier::external_type_specification]
#[verifier::external_body]
pub struct ExIoError(std::io::Error);

/// Two little-endian bytes of `b` at `p`.
pub open spec fn le16_at(b: Seq<u8>, p: int) -> int {
    b[p] + 256 * b[p + 1]
}

/// Four little-endian bytes of `b` at `p`.
pub open spec fn le32_at(b: Seq<u8>, p: int) -> int {
    b[p] + 256 * b[p + 1] + 65536 * b[p + 2] + 16777216 * b[p + 3]
}

/// The number of images an ICO file announces.
pub open spec fn ico_count(b: Seq<u8>) -> int {
    le16_at(b, 4)
}

/// The `i`-th 16-byte entry of the table has a zero reserved byte, and its
/// image data lie within the file (or are empty).
pub open spec fn ico_entry_ok(b: Seq<u8>, i: int) -> bool {
    let p = 6 + 16 * i;
    let size = le32_at(b, p + 8);
    let offset = le32_at(b, p + 12);
    b[p + 3] == 0 && (size == 0 || offset + size <= b.len())
}

/// The bytes that `ico::IconDir::read` accepts: a zero reserved field, the
/// type of an icon (1) or cursor (2) file, the whole table of entries, and
/// for each entry a zero reserved byte and data within the file.
pub open spec fn ico_readable(b: Seq<u8>) -> bool {
    &&& b.len() >= 6
    &&& le16_at(b, 0) == 0
    &&& (le16_at(b, 2) == 1 || le16_at(b, 2) == 2)
    &&& b.len() >= 6 + 16 * ico_count(b)
    &&& forall|i: int| 0 <= i < ico_count(b) ==> #[trigger] ico_entry_ok(b, i)
}

/// What `ico::IconDir::read` gives for a readable ICO file: for each image,
/// the size (width, height) its entry reports and what
/// `ico::IconDirEntry::decode` makes of it (RGBA pixels, width, height), or
/// none where decoding fails.
pub uninterp spec fn ico_file(bytes: Seq<u8>) -> Seq<((u32, u32), Option<(Seq<u8>, u32, u32)>)>;

/// The images that an `ico::IconDir` holds, as `ico_file` describes them.
pub uninterp spec fn ico_dir_entries(dir: IconDir) -> Seq<((u32, u32), Option<(Seq<u8>, u32, u32)>)>;

/// The sizes of the images of a readable ICO file.
pub open spec fn ico_sizes(bytes: Seq<u8>) -> Seq<(u32, u32)> {
    ico_file(bytes).map_values(|e: ((u32, u32), Option<(Seq<u8>, u32, u32)>)| e.0)
}

/// An image size that `ico` decodes without overflowing its `u32`
/// arithmetic: the pixel bytes and a row of up to 32 bits per pixel fit.
pub open spec fn decode_safe(size: (u32, u32)) -> bool {
    size.0 * size.1 * 4 <= u32::MAX && size.0 * 32 + 7 <= u32::MAX
}

/// Reads an ICO file held in memory.
///
/// Calls `ico::IconDir::read` on a cursor over the bytes. On readable bytes
/// it succeeds (it only fails where `ico_readable` does not hold, and every
/// image buffer it allocates is no longer than the bytes), and the images
/// it holds are those `ico_file` names.
#[verifier::external_body]
fn read_icon_dir(bytes: &[u8]) -> (r: Result<IconDir, std::io::Error>)
    requires
        ico_readable(bytes@),
    ensures
        r is Ok,
        r matches Ok(d) ==> ico_dir_entries(d) == ico_file(bytes@),
{
    ico::IconDir::read(std::io::Cursor::new(bytes))
}

/// The number of images, from `ico::IconDir::entries`.
#[verifier::external_body]
fn icon_entry_count(dir: &IconDir) -> (r: usize)
    ensures
        r == ico_dir_entries(*dir).len(),
{
    dir.entries().len()
}

/// The size of image `i`, from `ico::IconDirEntry::width` and `height`.
#[verifier::external_body]
fn icon_entry_size(dir: &IconDir, i: usize) -> (r: (u32, u32))
    requires
        i < ico_dir_entries(*dir).len(),
    ensures
        r == ico_dir_entries(*dir)[i as int].0,
{
    let e = &dir.entries()[i];
    (e.width(), e.height())
}

/// Image `i` decoded by `ico::IconDirEntry::decode`: RGBA pixels, width and
/// height, or none where the data are malformed.
///
/// As the source of `decode` shows, a decoded image has the size that its
/// entry reports and four bytes per pixel. For a BMP image whose pixel
/// bytes or rows would not fit in `u32`, `decode` overflows (a panic in
/// debug builds, an index out of bounds otherwise), so `requires` leaves
/// such sizes out. How much memory a large image takes is not stated.
#[verifier::external_body]
fn decode_icon_entry(dir: &IconDir, i: usize) -> (r: Option<(Vec<u8>, u32, u32)>)
    requires
        i < ico_dir_entries(*dir).len(),
        decode_safe(ico_dir_entries(*dir)[i as int].0),
    ensures
        match r {
            Some((px, w, h)) => {
                &&& ico_dir_entries(*dir)[i as int].1 == Some((px@, w, h))
                &&& (w, h) == ico_dir_entries(*dir)[i as int].0
                &&& px@.len() == 4 * w * h
            },
            None => ico_dir_entries(*dir)[i as int].1 is None,
        },
{
    dir.entries()[i].decode().ok().map(|img| (img.rgba_data().to_vec(), img.width(), img.height()))
}

fn le16_of(b: &[u8], p: usize) -> (r: u64)
    requires
        p + 2 <= b@.len(),
    ensures
        r == le16_at(b@, p as int),
{
    b[p] as u64 + 256 * (b[p + 1] as u64)
}

fn le32_of(b: &[u8], p: usize) -> (r: u64)
    requires
        p + 4 <= b@.len(),
    ensures
        r == le32_at(b@, p as int),
{
    b[p] as u64 + 256 * (b[p + 1] as u64) + 65536 * (b[p + 2] as u64) + 16777216 * (b[p + 3] as u64)
}

/// Whether `ico::IconDir::read` accepts `b` (see `ico_readable`).
pub fn is_ico_readable(b: &[u8]) -> (r: bool)
    ensures
        r == ico_readable(b@),
{
    if b.len() < 6 {
        return false;
    }
    if le16_of(b, 0) != 0 {
        return false;
    }
    let kind = le16_of(b, 2);
    if kind != 1 && kind != 2 {
        return false;
    }
    let count = le16_of(b, 4) as usize;
    assert(count < 65536);
    if b.len() < 6 + 16 * count {
        return false;
    }
    for i in 0..count
        invariant
            count == ico_count(b@),
            b@.len() >= 6 + 16 * count,
            forall|j: int| 0 <= j < i ==> #[trigger] ico_entry_ok(b@, j),
    {
        let p = 6 + 16 * i;
        let size = le32_of(b, p + 8);
        let offset = le32_of(b, p + 12);
        if b[p + 3] != 0 || (size != 0 && offset + size > b.len() as u64) {
            assert(!ico_entry_ok(b@, i as int));
            return false;
        }
        assert(ico_entry_ok(b@, i as int));
    }
    true
}

/// The area of a `width` by `height` image, saturating at `u32::MAX`.
pub open spec fn icon_area(width: u32, height: u32) -> int {
    if width * height > u32::MAX {
        u32::MAX as int
    } else {
        width * height
    }
}

/// Image `b` is the largest of `dims` in area, and no later one is as large.
pub open spec fn is_largest(dims: Seq<(u32, u32)>, b: int) -> bool {
    &&& 0 <= b < dims.len()
    &&& forall|j: int|
        0 <= j < dims.len() ==> icon_area(dims[j].0, dims[j].1) <= icon_area(dims[b].0, dims[b].1)
    &&& forall|j: int|
        b < j < dims.len() ==> icon_area(dims[j].0, dims[j].1) < icon_area(dims[b].0, dims[b].1)
}

/// The image to use among images of the sizes `dims`: the largest in area,
/// the last of them when several are as large.
pub open spec fn largest_index(dims: Seq<(u32, u32)>) -> int {
    choose|b: int| is_largest(dims, b)
}

/// Only one image is the largest.
pub proof fn lemma_largest_unique(dims: Seq<(u32, u32)>, b1: int, b2: int)
    requires
        is_largest(dims, b1),
        is_largest(dims, b2),
    ensures
        b1 == b2,
{
    let a1 = icon_area(dims[b1].0, dims[b1].1);
    let a2 = icon_area(dims[b2].0, dims[b2].1);
    assert(a1 <= a2 && a2 <= a1);
    if b1 < b2 {
        assert(a2 < a1);
    } else if b2 < b1 {
        assert(a1 < a2);
    }
}

/// The image to use among images of the sizes `dims`: the largest in area,
/// the last of them when several are as large, none when there is none.
pub fn largest_icon(dims: &[(u32, u32)]) -> (r: Option<usize>)
    ensures
        r is None <==> dims@.len() == 0,
        r matches Some(b) ==> is_largest(dims@, b as int) && b == largest_index(dims@),
{
    if dims.len() == 0 {
        return None;
    }
    let mut best: usize = 0;
    let mut best_area: u32 = area_of(dims[0].0, dims[0].1);
    for i in 1..dims.len()
        invariant
            best < i <= dims@.len(),
            best_area == icon_area(dims@[best as int].0, dims@[best as int].1),
            forall|j: int| 0 <= j < i ==> icon_area(dims@[j].0, dims@[j].1) <= best_area,
            forall|j: int| best < j < i ==> icon_area(dims@[j].0, dims@[j].1) < best_area,
    {
        let a = area_of(dims[i].0, dims[i].1);
        if a >= best_area {
            best = i;
            best_area = a;
        }
    }
    proof {
        assert(is_largest(dims@, best as int));
        lemma_largest_unique(dims@, best as int, largest_index(dims@));
    }
    Some(best)
}

fn area_of(width: u32, height: u32) -> (r: u32)
    ensures
        r == icon_area(width, height),
{
    match width.checked_mul(height) {
        Some(a) => a,
        None => u32::MAX,
    }
}

/// An image for the window: RGBA pixels and size.
pub struct IconPixels {
    pub rgba: Vec<u8>,
    pub width: u32,
    pub height: u32,
}

/// Why no window icon could be had.
#[derive(Clone, Copy, Debug, PartialEq, Eq, Structural)]
pub enum IconError {
    /// The bytes are not an ICO file.
    Unreadable,
    /// The file holds no image.
    NoEntries,
    /// The chosen image cannot be decoded: its data are malformed, or it is
    /// too large for the decoder's arithmetic.
    Undecodable,
}

/// The window icon from the bytes of an ICO file: its largest image (see
/// `largest_index`), decoded.
pub fn load_icon(bytes: &[u8]) -> (r: Result<IconPixels, IconError>)
    ensures
        (r matches Err(e) && e == IconError::Unreadable) <==> !ico_readable(bytes@),
        (r matches Err(e) && e == IconError::NoEntries) <==> (ico_readable(bytes@) && ico_file(
            bytes@,
        ).len() == 0),
        ico_readable(bytes@) && ico_file(bytes@).len() > 0 ==> ({
            let b = largest_index(ico_sizes(bytes@));
            let size = ico_sizes(bytes@)[b];
            &&& (r matches Err(e) && e == IconError::Undecodable) <==> (!decode_safe(size) || ico_file(
                bytes@,
            )[b].1 is None)
            &&& r matches Ok(px) ==> {
                &&& ico_file(bytes@)[b].1 == Some((px.rgba@, px.width, px.height))
                &&& (px.width, px.height) == size
                &&& px.rgba@.len() == 4 * px.width * px.height
            }
        }),
{
    if !is_ico_readable(bytes) {
        return Err(IconError::Unreadable);
    }
    let dir = match read_icon_dir(bytes) {
        Ok(d) => d,
        Err(_) => {
            return Err(IconError::Unreadable);
        },
    };
    let ghost entries = ico_dir_entries(dir);
    let count = icon_entry_count(&dir);
    let mut dims: Vec<(u32, u32)> = Vec::new();
    for i in 0..count
        invariant
            count == entries.len(),
            entries == ico_dir_entries(dir),
            dims@.len() == i,
            forall|j: int| 0 <= j < i ==> dims@[j] == (#[trigger] entries[j]).0,
    {
        dims.push(icon_entry_size(&dir, i));
    }
    assert(dims@ =~= ico_sizes(bytes@));
    let best = match largest_icon(dims.as_slice()) {
        Some(b) => b,
        None => {
            return Err(IconError::NoEntries);
        },
    };
    let size = dims[best];
    if !decode_fits(size) {
        return Err(IconError::Undecodable);
    }
    match decode_icon_entry(&dir, best) {
        Some((rgba, width, height)) => Ok(IconPixels { rgba, width, height }),
        None => Err(IconError::Undecodable),
    }
}

/// Whether an image of `size` can be decoded (see `decode_safe`).
fn decode_fits(size: (u32, u32)) -> (r: bool)
    ensures
        r == decode_safe(size),
{
    let (w, h) = size;
    let pixels_fit = match w.checked_mul(h) {
        Some(p) => p.checked_mul(4).is_some(),
        None => false,
    };
    let rows_fit = match w.checked_mul(32) {
        Some(r) => r.checked_add(7).is_some(),
        None => false,
    };
    pixels_fit && rows_fit
}

} // verus!

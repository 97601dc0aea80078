//! Reading a GoldSrc BSP file: its lump directory, its textures and the text of
//! its entities.
use crate::text::{concat3, copy_str, decimal, decimal_text, from_utf8_lossy, text_without};
use crate::text::{utf8_lossy, without};
use vstd::prelude::*;
use vstd::slice::slice_subrange;

verus! {

/// The version number that a GoldSrc BSP file begins with.
pub const BSP_VERSION: u32 = 30;

/// The number of lumps in the directory.
pub const LUMP_COUNT: usize = 15;

/// The size of version number and directory.
pub const DIRECTORY_END: usize = 124;

/// The lump that holds the text of the entities.
pub const ENTITY_LUMP: usize = 0;

/// The lump that holds the textures.
pub const TEXTURE_LUMP: usize = 2;

/// A part of the file.
#[derive(Clone, Copy, Debug, PartialEq, Eq, Structural)]
pub struct BspLump {
    pub offset: u32,
    pub length: u32,
}

/// What is read from a BSP file.
#[derive(Debug)]
pub struct BspInfo {
    /// Whether a texture is kept in a file of its own.
    pub has_external_tex: bool,
    /// The text of the entities.
    pub entity_text: String,
}

/// What a walk through the directory of textures ends with.
#[derive(Clone, Copy, Debug, PartialEq, Eq, Structural)]
pub enum TextureScan {
    /// A texture without data in the file was met.
    External,
    /// No such texture was met.
    Embedded,
    /// An offset was met that no address can be computed from.
    Overflow,
}

// ---------------------------------------------------------------------------
// Numbers
// ---------------------------------------------------------------------------

/// The number whose little-endian form stands at `at`.
pub open spec fn le32(s: Seq<u8>, at: int) -> int {
    s[at] + 0x100 * s[at + 1] + 0x1_0000 * s[at + 2] + 0x100_0000 * s[at + 3]
}

/// The signed number whose two's complement is `n`.
pub open spec fn signed32(n: int) -> int {
    if n < 0x8000_0000 {
        n
    } else {
        n - 0x1_0000_0000
    }
}

/// The number whose little-endian form stands at `at`.
pub fn read_u32(data: &[u8], at: usize) -> (r: u32)
    requires
        at + 4 <= data@.len(),
    ensures
        r == le32(data@, at as int),
{
    let a: u32 = data[at] as u32;
    let b: u32 = data[at + 1] as u32;
    let c: u32 = data[at + 2] as u32;
    let d: u32 = data[at + 3] as u32;
    a + 0x100 * b + 0x1_0000 * c + 0x100_0000 * d
}

/// The signed number whose little-endian form stands at `at`.
pub fn read_i32(data: &[u8], at: usize) -> (r: i32)
    requires
        at + 4 <= data@.len(),
    ensures
        r == signed32(le32(data@, at as int)),
{
    let n: u32 = read_u32(data, at);
    if n < 0x8000_0000 {
        n as i32
    } else {
        (n as i64 - 0x1_0000_0000) as i32
    }
}

// ---------------------------------------------------------------------------
// Lumps
// ---------------------------------------------------------------------------

/// The lump `i` of the directory.
pub open spec fn lump_at(data: Seq<u8>, i: int) -> BspLump {
    BspLump { offset: le32(data, 4 + 8 * i) as u32, length: le32(data, 8 + 8 * i) as u32 }
}

/// Whether the lump lies within the file.
pub open spec fn lump_fits(data: Seq<u8>, lump: BspLump) -> bool {
    lump.offset + lump.length <= data.len()
}

/// The bytes of a lump that lies within the file.
pub open spec fn lump_bytes(data: Seq<u8>, lump: BspLump) -> Seq<u8> {
    data.subrange(lump.offset as int, lump.offset + lump.length)
}

/// The bytes of the lump, where it lies within the file.
fn lump_slice<'a>(data: &'a [u8], lump: &BspLump) -> (r: Option<&'a [u8]>)
    ensures
        r is Some <==> lump_fits(data@, *lump),
        r matches Some(bytes) ==> bytes@ == lump_bytes(data@, *lump),
{
    let size: usize = data.len();
    let start: usize = lump.offset as usize;
    match start.checked_add(lump.length as usize) {
        Some(end) => {
            if end <= size {
                Some(slice_subrange(data, start, end))
            } else {
                None
            }
        },
        None => None,
    }
}

/// The lumps that the directory names, or the complaint that the file is too
/// short for one.
pub fn read_lump_directory(data: &[u8]) -> (r: Result<Vec<BspLump>, String>)
    ensures
        r is Ok <==> data@.len() >= DIRECTORY_END,
        r matches Ok(lumps) ==> lumps@ == Seq::new(
            LUMP_COUNT as nat,
            |i: int| lump_at(data@, i),
        ),
        r matches Err(e) ==> e@ == "BSP too small for lump directory"@,
{
    if data.len() < DIRECTORY_END {
        return Err(copy_str("BSP too small for lump directory"));
    }
    let mut lumps: Vec<BspLump> = Vec::with_capacity(LUMP_COUNT);
    let mut i: usize = 0;
    while i < LUMP_COUNT
        invariant
            i <= LUMP_COUNT,
            data@.len() >= DIRECTORY_END,
            lumps@ == Seq::new(i as nat, |j: int| lump_at(data@, j)),
        decreases LUMP_COUNT - i,
    {
        let base: usize = 4 + i * 8;
        let offset: u32 = read_u32(data, base);
        let length: u32 = read_u32(data, base + 4);
        lumps.push(BspLump { offset, length });
        i += 1;
        proof {
            assert(lumps@ =~= Seq::new(i as nat, |j: int| lump_at(data@, j)));
        }
    }
    Ok(lumps)
}

// ---------------------------------------------------------------------------
// Textures
// ---------------------------------------------------------------------------

/// The walk through the textures from the `i`th of `n` on. The directory holds a
/// signed offset for each; the texture at it names, in its first mip level, where
/// its data is.
pub open spec fn scan_from(tex: Seq<u8>, i: int, n: int) -> TextureScan
    decreases n - i,
{
    if i >= n || 8 + 4 * i > tex.len() {
        TextureScan::Embedded
    } else {
        let offset = signed32(le32(tex, 4 + 4 * i));
        if offset == -1 {
            TextureScan::External
        } else if -40 <= offset < 0 {
            TextureScan::Overflow
        } else if offset < 0 || offset + 40 > tex.len() {
            TextureScan::Embedded
        } else if le32(tex, offset + 24) == 0 {
            TextureScan::External
        } else {
            scan_from(tex, i + 1, n)
        }
    }
}

/// The walk through all textures of the lump. A lump that reaches beyond the end
/// of the file, or that is too short for the number of textures, holds none.
pub open spec fn texture_scan(data: Seq<u8>, lump: BspLump) -> TextureScan {
    let tex = lump_bytes(data, lump);
    if lump_fits(data, lump) && tex.len() >= 4 {
        scan_from(tex, 0, le32(tex, 0))
    } else {
        TextureScan::Embedded
    }
}

/// Walks through the textures of the lump.
pub fn scan_textures(data: &[u8], lump: &BspLump) -> (r: TextureScan)
    ensures
        r == texture_scan(data@, *lump),
{
    let tex: &[u8] = match lump_slice(data, lump) {
        Some(tex) => tex,
        None => {
            return TextureScan::Embedded;
        },
    };
    let size: usize = tex.len();
    if size < 4 {
        return TextureScan::Embedded;
    }
    let n: u32 = read_u32(tex, 0);
    let mut i: u32 = 0;
    let mut at: usize = 4;
    while i < n && at <= size - 4
        invariant
            size == tex@.len(),
            size >= 4,
            i <= n,
            at == 4 + 4 * i,
            texture_scan(data@, *lump) == scan_from(tex@, i as int, n as int),
        decreases n - i,
    {
        let offset: i32 = read_i32(tex, at);
        if offset == -1 {
            return TextureScan::External;
        }
        if offset < 0 {
            if offset >= -40 {
                return TextureScan::Overflow;
            }
            return TextureScan::Embedded;
        }
        let place: usize = offset as usize;
        if size < 40 || place > size - 40 {
            return TextureScan::Embedded;
        }
        if read_u32(tex, place + 24) == 0 {
            return TextureScan::External;
        }
        i += 1;
        at += 4;
    }
    TextureScan::Embedded
}

/// Whether a texture of the lump is kept outside the file.
pub fn check_external_textures(data: &[u8], lump: &BspLump) -> (r: bool)
    requires
        texture_scan(data@, *lump) != TextureScan::Overflow,
    ensures
        r == (texture_scan(data@, *lump) == TextureScan::External),
{
    scan_textures(data, lump) == TextureScan::External
}

// ---------------------------------------------------------------------------
// The file
// ---------------------------------------------------------------------------

/// The text of a lump: its bytes as UTF-8, without the zero characters.
pub open spec fn lump_text(data: Seq<u8>, lump: BspLump) -> Seq<char> {
    without(utf8_lossy(lump_bytes(data, lump)), '\0')
}

/// The text of the entities, or the complaint that its lump reaches beyond the
/// end of the file.
pub fn read_entity_lump(data: &[u8], lump: &BspLump) -> (r: Result<String, String>)
    ensures
        r is Ok <==> lump_fits(data@, *lump),
        r matches Ok(text) ==> text@ == lump_text(data@, *lump),
        r matches Err(e) ==> e@ == "Entity lump extends beyond BSP data"@,
{
    match lump_slice(data, lump) {
        Some(bytes) => {
            let text: String = from_utf8_lossy(bytes);
            Ok(text_without(text.as_str(), '\0'))
        },
        None => Err(copy_str("Entity lump extends beyond BSP data")),
    }
}

/// What is wrong with the file, if anything.
pub open spec fn bsp_complaint(data: Seq<u8>) -> Option<Seq<char>> {
    if data.len() < 4 {
        Some("Truncated BSP header"@)
    } else if le32(data, 0) != BSP_VERSION {
        Some(
            "Not a GoldSrc BSP (version="@ + decimal(le32(data, 0) as nat) + ", expected 30)"@,
        )
    } else if data.len() < DIRECTORY_END {
        Some("BSP too small for lump directory"@)
    } else if !lump_fits(data, lump_at(data, ENTITY_LUMP as int)) {
        Some("Entity lump extends beyond BSP data"@)
    } else {
        None
    }
}

/// Whether the walk through the textures of the file comes to an end. It is made
/// once version and directory have been found in order.
pub open spec fn textures_addressable(data: Seq<u8>) -> bool {
    data.len() >= DIRECTORY_END && le32(data, 0) == BSP_VERSION ==> texture_scan(
        data,
        lump_at(data, TEXTURE_LUMP as int),
    ) != TextureScan::Overflow
}

/// Reads the file, or says what is wrong with it.
pub fn parse_bsp(data: &[u8]) -> (r: Result<BspInfo, String>)
    requires
        textures_addressable(data@),
    ensures
        r is Ok <==> bsp_complaint(data@) is None,
        r matches Ok(info) ==> info.has_external_tex == (texture_scan(
            data@,
            lump_at(data@, TEXTURE_LUMP as int),
        ) == TextureScan::External),
        r matches Ok(info) ==> info.entity_text@ == lump_text(
            data@,
            lump_at(data@, ENTITY_LUMP as int),
        ),
        r matches Err(e) ==> bsp_complaint(data@) == Some(e@),
{
    if data.len() < 4 {
        return Err(copy_str("Truncated BSP header"));
    }
    let version: u32 = read_u32(data, 0);
    if version != BSP_VERSION {
        let number: String = decimal_text(version as u128);
        return Err(concat3("Not a GoldSrc BSP (version=", number.as_str(), ", expected 30)"));
    }
    let lumps: Vec<BspLump> = match read_lump_directory(data) {
        Ok(lumps) => lumps,
        Err(e) => {
            return Err(e);
        },
    };
    let has_external_tex: bool = check_external_textures(data, &lumps[TEXTURE_LUMP]);
    match read_entity_lump(data, &lumps[ENTITY_LUMP]) {
        Ok(entity_text) => Ok(BspInfo { has_external_tex, entity_text }),
        Err(e) => Err(e),
    }
}

/// Whether `parse_bsp` can read the file: whether the walk through its textures
/// comes to an end.
pub fn check_textures_addressable(data: &[u8]) -> (r: bool)
    ensures
        r == textures_addressable(data@),
{
    if data.len() < DIRECTORY_END || read_u32(data, 0) != BSP_VERSION {
        return true;
    }
    match read_lump_directory(data) {
        Ok(lumps) => scan_textures(data, &lumps[TEXTURE_LUMP]) != TextureScan::Overflow,
        Err(_) => true,
    }
}

} // verus!

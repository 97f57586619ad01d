//! Laying out a v10X archive.
//!
//! The writer sizes everything first and then emits the archive front to
//! back, so no offset needs patching: header, directory records,
//! directory-content blocks, the file-name pool, then the file data.
use vstd::prelude::*;
use crate::bin::u32_le;
use crate::codec::{compress, uncompressed_of};
use crate::error::BsaError;
use crate::hash::{hash_v10x, hash_v10x_spec};
use crate::strings::{b_bytes, z_bytes, push_bstring, push_zstring};
use crate::v10x::{
    archive_flag_mask, archive_flag_mask_of, dir_content_bytes, dir_record_bytes, dir_record_size,
    header_bytes, DirContentRecord, DirRecord, FileRecord, HeaderV10X, COMPRESSION_BIT,
    FILE_FLAG_MASK, HEADER_END, opt_view,
};
use crate::version::{version_bytes, Version, Version10X};

verus! {

pub const INCLUDE_DIRECTORY_NAMES: u32 = 0x1;

pub const INCLUDE_FILE_NAMES: u32 = 0x2;

pub const COMPRESSED_ARCHIVE: u32 = 0x4;

pub const XBOX360_ARCHIVE: u32 = 0x40;

pub const EMBED_FILE_NAMES: u32 = 0x100;

pub const XMEM_CODEC: u32 = 0x200;

/// The largest offset a record can hold.
pub const MAX_ARCHIVE_SIZE: u64 = 0xFFFF_FFFF;

/// A file to be stored: its name, its data, and where it is given, whether
/// to compress it regardless of the archive default.
pub struct FileSource {
    pub name: Vec<u8>,
    pub data: Vec<u8>,
    pub compressed: Option<bool>,
}

/// A directory to be stored, with its files in the order they are written.
pub struct DirSource {
    pub name: Vec<u8>,
    pub files: Vec<FileSource>,
}

/// The archive and file flags that a written archive declares.
#[derive(Debug, Clone, Copy)]
pub struct BsaWriterOptionsV10X {
    pub archive_flags: u32,
    pub file_flags: u16,
}

impl BsaWriterOptionsV10X {
    /// Directory and file names included, nothing compressed by default.
    pub fn new() -> (r: BsaWriterOptionsV10X)
        ensures
            r.archive_flags == INCLUDE_DIRECTORY_NAMES | INCLUDE_FILE_NAMES,
            r.file_flags == 0,
    {
        BsaWriterOptionsV10X { archive_flags: INCLUDE_DIRECTORY_NAMES | INCLUDE_FILE_NAMES, file_flags: 0 }
    }
}

pub open spec fn has_flag(flags: u32, bit: u32) -> bool {
    flags & bit != 0
}

/// The flags that reach the header: those the variant knows.
pub open spec fn written_flags(v: Version10X, opts: BsaWriterOptionsV10X) -> u32 {
    opts.archive_flags & archive_flag_mask(v)
}

/// Flags whose layout this library does not write.
pub open spec fn unsupported_flags(flags: u32) -> bool {
    has_flag(flags, XBOX360_ARCHIVE) || has_flag(flags, XMEM_CODEC)
}

pub open spec fn lower_byte(c: u8) -> u8 {
    if 65 <= c <= 90 {
        (c + 32) as u8
    } else {
        c
    }
}

/// ASCII lowercase, independent of any locale.
pub open spec fn lower(s: Seq<u8>) -> Seq<u8> {
    s.map_values(|c: u8| lower_byte(c))
}

/// `s` with `/` turned into `\`.
pub open spec fn backslashed(s: Seq<u8>) -> Seq<u8> {
    s.map_values(|c: u8| if c == 47 { 92u8 } else { c })
}

/// The full path embedded before a file's data.
pub open spec fn embedded_path(dir: Seq<u8>, file: Seq<u8>) -> Seq<u8> {
    backslashed(dir) + seq![92u8] + backslashed(file)
}

/// Whether a file is stored compressed: its own choice, else the archive default.
pub open spec fn effective_compressed(flags: u32, c: Option<bool>) -> bool {
    match c {
        Some(b) => b,
        None => has_flag(flags, COMPRESSED_ARCHIVE),
    }
}

/// The compression bit of a file's size word: set where the file asks for
/// the opposite of the archive default.
pub open spec fn override_word(flags: u32, c: Option<bool>) -> u32 {
    if c == Some(!has_flag(flags, COMPRESSED_ARCHIVE)) {
        COMPRESSION_BIT
    } else {
        0
    }
}

/// The size word of a file record tells the reader what the writer was asked
/// for: the bit flips the archive default exactly where the file's own choice
/// differs from it, and the remaining bits hold the block length.
pub proof fn lemma_override_round_trip(flags: u32, c: Option<bool>, len: u32)
    requires
        len < COMPRESSION_BIT,
    ensures
        ({
            let word = override_word(flags, c) | len;
            &&& (has_flag(flags, COMPRESSED_ARCHIVE) != (word & COMPRESSION_BIT == COMPRESSION_BIT))
                == effective_compressed(flags, c)
            &&& word & crate::v10x::SIZE_MASK == len
        }),
{
    let w = override_word(flags, c);
    assert(w == 0 || w == 0x4000_0000u32);
    assert((0u32 | len) & 0x4000_0000u32 != 0x4000_0000u32 && (0u32 | len) & 0x3FFF_FFFFu32 == len)
        by (bit_vector)
        requires
            len < 0x4000_0000u32,
    ;
    assert((0x4000_0000u32 | len) & 0x4000_0000u32 == 0x4000_0000u32 && (0x4000_0000u32 | len)
        & 0x3FFF_FFFFu32 == len) by (bit_vector)
        requires
            len < 0x4000_0000u32,
    ;
}

/// A file's data block: the embedded path where the archive embeds names,
/// then either the raw data or the uncompressed size and `c`, the data's
/// compressed form.
pub open spec fn payload(v: Version10X, flags: u32, dir: Seq<u8>, f: FileSource, c: Seq<u8>) -> Seq<u8> {
    (if has_flag(flags, EMBED_FILE_NAMES) {
        b_bytes(embedded_path(dir, f.name@))
    } else {
        Seq::empty()
    }) + (if effective_compressed(flags, f.compressed) {
        u32_le(f.data@.len() as u32) + c
    } else {
        f.data@
    })
}

/// A directory the writer accepts: it has files, and its names fit their strings.
pub open spec fn dir_ok(flags: u32, d: DirSource) -> bool {
    &&& d.files@.len() > 0
    &&& has_flag(flags, INCLUDE_DIRECTORY_NAMES) ==> d.name@.len() <= 254
    &&& has_flag(flags, EMBED_FILE_NAMES) ==> forall|k: int|
        0 <= k < d.files@.len() ==> d.name@.len() + 1 + d.files@[k].name@.len() <= 255
    &&& forall|k: int| 0 <= k < d.files@.len() ==> (#[trigger] d.files@[k]).data@.len() <= u32::MAX
}

/// `c` is a compressed form of `f`'s data where `f` is stored compressed:
/// the variant's decoder turns it back into the data.
pub open spec fn pack_ok(v: Version10X, flags: u32, f: FileSource, c: Seq<u8>) -> bool {
    effective_compressed(flags, f.compressed) ==> uncompressed_of(v, c) == Some(f.data@)
}

/// `packs` holds, for each file, a compressed form of its data.
pub open spec fn packs_ok(v: Version10X, flags: u32, dirs: Seq<DirSource>, packs: Seq<Seq<Seq<u8>>>) -> bool {
    &&& packs.len() == dirs.len()
    &&& forall|j: int| 0 <= j < dirs.len() ==> (#[trigger] packs[j]).len() == dirs[j].files@.len()
    &&& forall|j: int, k: int|
        0 <= j < dirs.len() && 0 <= k < dirs[j].files@.len() ==> pack_ok(v, flags, dirs[j].files@[k], #[trigger] packs[j][k])
}

/// Some file has a compressed form that makes its data block too long for a size word.
pub open spec fn payload_may_overflow(v: Version10X, flags: u32, dirs: Seq<DirSource>) -> bool {
    exists|j: int, k: int, c: Seq<u8>|
        0 <= j < dirs.len() && 0 <= k < dirs[j].files@.len() && #[trigger] pack_ok(v, flags, dirs[j].files@[k], c)
            && payload(v, flags, dirs[j].name@, dirs[j].files@[k], c).len() >= COMPRESSION_BIT
}

pub open spec fn dirs_ok(flags: u32, dirs: Seq<DirSource>) -> bool {
    forall|j: int| 0 <= j < dirs.len() ==> dir_ok(flags, #[trigger] dirs[j])
}

/// Every data block fits the 30 bits of a size word.
pub open spec fn payloads_fit(v: Version10X, flags: u32, dirs: Seq<DirSource>, packs: Seq<Seq<Seq<u8>>>) -> bool {
    forall|j: int, k: int|
        0 <= j < dirs.len() && 0 <= k < dirs[j].files@.len() ==> payload(
            v,
            flags,
            dirs[j].name@,
            dirs[j].files@[k],
            #[trigger] packs[j][k],
        ).len() < COMPRESSION_BIT
}

/// The sum of `name length + 1` over the first `k` files.
pub open spec fn file_names_len(files: Seq<FileSource>, k: int) -> int
    decreases k,
{
    if k <= 0 {
        0
    } else {
        file_names_len(files, k - 1) + files[k - 1].name@.len() + 1
    }
}

/// The sum of `name length + 1` over the files of the first `j` directories.
pub open spec fn all_file_names_len(dirs: Seq<DirSource>, j: int) -> int
    decreases j,
{
    if j <= 0 {
        0
    } else {
        all_file_names_len(dirs, j - 1) + file_names_len(dirs[j - 1].files@, dirs[j - 1].files@.len() as int)
    }
}

/// The sum of `name length + 1` over the first `j` directories.
pub open spec fn dir_names_len(dirs: Seq<DirSource>, j: int) -> int
    decreases j,
{
    if j <= 0 {
        0
    } else {
        dir_names_len(dirs, j - 1) + dirs[j - 1].name@.len() + 1
    }
}

pub open spec fn file_count(dirs: Seq<DirSource>, j: int) -> int
    decreases j,
{
    if j <= 0 {
        0
    } else {
        file_count(dirs, j - 1) + dirs[j - 1].files@.len()
    }
}

/// The size of a directory-content block.
pub open spec fn content_size(flags: u32, d: DirSource) -> int {
    (if has_flag(flags, INCLUDE_DIRECTORY_NAMES) { d.name@.len() + 2 } else { 0 }) + 16 * d.files@.len() as int
}

pub open spec fn contents_size(flags: u32, dirs: Seq<DirSource>, j: int) -> int
    decreases j,
{
    if j <= 0 {
        0
    } else {
        contents_size(flags, dirs, j - 1) + content_size(flags, dirs[j - 1])
    }
}

/// The size of the data blocks of the first `k` files of `d`.
pub open spec fn dir_payloads_len(v: Version10X, flags: u32, d: DirSource, dp: Seq<Seq<u8>>, k: int) -> int
    decreases k,
{
    if k <= 0 {
        0
    } else {
        dir_payloads_len(v, flags, d, dp, k - 1) + payload(v, flags, d.name@, d.files@[k - 1], dp[k - 1]).len()
    }
}

pub open spec fn payloads_len(v: Version10X, flags: u32, dirs: Seq<DirSource>, packs: Seq<Seq<Seq<u8>>>, j: int) -> int
    decreases j,
{
    if j <= 0 {
        0
    } else {
        payloads_len(v, flags, dirs, packs, j - 1) + dir_payloads_len(
            v,
            flags,
            dirs[j - 1], packs[j - 1],
            dirs[j - 1].files@.len() as int,
        )
    }
}

/// The length of the file-name pool.
pub open spec fn total_file_name_length(flags: u32, dirs: Seq<DirSource>) -> int {
    if has_flag(flags, INCLUDE_FILE_NAMES) {
        all_file_names_len(dirs, dirs.len() as int)
    } else {
        0
    }
}

/// The directory names' length without their length bytes.
pub open spec fn total_dir_name_length(flags: u32, dirs: Seq<DirSource>) -> int {
    if has_flag(flags, INCLUDE_DIRECTORY_NAMES) {
        dir_names_len(dirs, dirs.len() as int)
    } else {
        0
    }
}

/// The header of the archive that `dirs` make.
pub open spec fn expected_header(v: Version10X, opts: BsaWriterOptionsV10X, dirs: Seq<DirSource>) -> HeaderV10X {
    let flags = written_flags(v, opts);
    HeaderV10X {
        offset: HEADER_END,
        archive_flags: flags,
        dir_count: dirs.len() as u32,
        file_count: file_count(dirs, dirs.len() as int) as u32,
        total_dir_name_length: total_dir_name_length(flags, dirs) as u32,
        total_file_name_length: total_file_name_length(flags, dirs) as u32,
        file_flags: opts.file_flags & FILE_FLAG_MASK,
        padding: 0,
    }
}

/// Where the first directory-content block starts.
pub open spec fn contents_start(v: Version10X, dirs: Seq<DirSource>) -> int {
    HEADER_END + dirs.len() * dir_record_size(v)
}

/// Where the first data block starts.
pub open spec fn data_start(v: Version10X, flags: u32, dirs: Seq<DirSource>) -> int {
    contents_start(v, dirs) + contents_size(flags, dirs, dirs.len() as int)
        + total_file_name_length(flags, dirs)
}

/// The length of the whole archive.
pub open spec fn archive_size(v: Version10X, flags: u32, dirs: Seq<DirSource>, packs: Seq<Seq<Seq<u8>>>) -> int {
    data_start(v, flags, dirs) + payloads_len(v, flags, dirs, packs, dirs.len() as int)
}

/// The record of file `k` of directory `j`.
pub open spec fn file_rec(v: Version10X, flags: u32, dirs: Seq<DirSource>, packs: Seq<Seq<Seq<u8>>>, j: int, k: int) -> FileRecord {
    let d = dirs[j];
    let f = d.files@[k];
    FileRecord {
        name_hash: hash_v10x_spec(f.name@),
        size: override_word(flags, f.compressed) | (payload(v, flags, d.name@, f, packs[j][k]).len() as u32),
        offset: (data_start(v, flags, dirs) + payloads_len(v, flags, dirs, packs, j) + dir_payloads_len(
            v,
            flags,
            d, packs[j],
            k,
        )) as u32,
    }
}

pub open spec fn file_recs(v: Version10X, flags: u32, dirs: Seq<DirSource>, packs: Seq<Seq<Seq<u8>>>, j: int) -> Seq<FileRecord> {
    Seq::new(dirs[j].files@.len(), |k: int| file_rec(v, flags, dirs, packs, j, k))
}

/// The name a directory-content block carries.
pub open spec fn dir_name_part(flags: u32, d: DirSource) -> Option<Seq<u8>> {
    if has_flag(flags, INCLUDE_DIRECTORY_NAMES) {
        Some(lower(d.name@))
    } else {
        None
    }
}

pub open spec fn content_bytes(v: Version10X, flags: u32, dirs: Seq<DirSource>, packs: Seq<Seq<Seq<u8>>>, j: int) -> Seq<u8> {
    dir_content_bytes(dir_name_part(flags, dirs[j]), file_recs(v, flags, dirs, packs, j))
}

pub open spec fn contents_bytes(v: Version10X, flags: u32, dirs: Seq<DirSource>, packs: Seq<Seq<Seq<u8>>>, j: int) -> Seq<u8>
    decreases j,
{
    if j <= 0 {
        Seq::empty()
    } else {
        contents_bytes(v, flags, dirs, packs, j - 1) + content_bytes(v, flags, dirs, packs, j - 1)
    }
}

/// The record of directory `j`: its offset is where its content block starts,
/// plus the total file-name length.
pub open spec fn dir_rec(v: Version10X, flags: u32, dirs: Seq<DirSource>, j: int) -> DirRecord {
    DirRecord {
        name_hash: hash_v10x_spec(dirs[j].name@),
        file_count: dirs[j].files@.len() as u32,
        offset: (contents_start(v, dirs) + contents_size(flags, dirs, j) + total_file_name_length(
            flags,
            dirs,
        )) as u32,
    }
}

pub open spec fn dir_recs_bytes(v: Version10X, flags: u32, dirs: Seq<DirSource>, j: int) -> Seq<u8>
    decreases j,
{
    if j <= 0 {
        Seq::empty()
    } else {
        dir_recs_bytes(v, flags, dirs, j - 1) + dir_record_bytes(dir_rec(v, flags, dirs, j - 1), v)
    }
}

pub open spec fn dir_pool(files: Seq<FileSource>, k: int) -> Seq<u8>
    decreases k,
{
    if k <= 0 {
        Seq::empty()
    } else {
        dir_pool(files, k - 1) + z_bytes(lower(files[k - 1].name@))
    }
}

/// The lowercase file names, each with its NUL, directory by directory.
pub open spec fn name_pool(dirs: Seq<DirSource>, j: int) -> Seq<u8>
    decreases j,
{
    if j <= 0 {
        Seq::empty()
    } else {
        name_pool(dirs, j - 1) + dir_pool(dirs[j - 1].files@, dirs[j - 1].files@.len() as int)
    }
}

pub open spec fn dir_data(v: Version10X, flags: u32, d: DirSource, dp: Seq<Seq<u8>>, k: int) -> Seq<u8>
    decreases k,
{
    if k <= 0 {
        Seq::empty()
    } else {
        dir_data(v, flags, d, dp, k - 1) + payload(v, flags, d.name@, d.files@[k - 1], dp[k - 1])
    }
}

pub open spec fn all_data(v: Version10X, flags: u32, dirs: Seq<DirSource>, packs: Seq<Seq<Seq<u8>>>, j: int) -> Seq<u8>
    decreases j,
{
    if j <= 0 {
        Seq::empty()
    } else {
        all_data(v, flags, dirs, packs, j - 1) + dir_data(v, flags, dirs[j - 1], packs[j - 1], dirs[j - 1].files@.len() as int)
    }
}

/// The archive that `dirs` make, byte for byte.
#[verifier::opaque]
pub open spec fn archive_bytes(v: Version10X, opts: BsaWriterOptionsV10X, dirs: Seq<DirSource>, packs: Seq<Seq<Seq<u8>>>) -> Seq<u8> {
    let flags = written_flags(v, opts);
    let n = dirs.len() as int;
    version_bytes(Version::V10X(v)) + header_bytes(expected_header(v, opts, dirs)) + dir_recs_bytes(
        v,
        flags,
        dirs,
        n,
    ) + contents_bytes(v, flags, dirs, packs, n) + (if has_flag(flags, INCLUDE_FILE_NAMES) {
        name_pool(dirs, n)
    } else {
        Seq::empty()
    }) + all_data(v, flags, dirs, packs, n)
}

} // verus!

verus! {

/// The totals the writer checks against the 32-bit offsets: the archive's
/// length, the directory-name length and the file count.
pub open spec fn too_large(v: Version10X, flags: u32, dirs: Seq<DirSource>, packs: Seq<Seq<Seq<u8>>>) -> bool {
    ||| archive_size(v, flags, dirs, packs) > MAX_ARCHIVE_SIZE
    ||| total_dir_name_length(flags, dirs) > MAX_ARCHIVE_SIZE
    ||| file_count(dirs, dirs.len() as int) > MAX_ARCHIVE_SIZE
}

const SATURATED: u64 = 0x1_0000_0000;

/// `acc + term`, or `SATURATED` where that is reached.
fn sat_add(acc: u64, term: u64) -> (r: u64)
    requires
        acc <= SATURATED,
    ensures
        r == (if acc + term >= SATURATED { SATURATED as int } else { acc + term }),
{
    if term >= SATURATED - acc {
        SATURATED
    } else {
        acc + term
    }
}

spec fn sat(x: int) -> int {
    if x >= SATURATED {
        SATURATED as int
    } else {
        x
    }
}

/// ASCII lowercase of `s`.
pub fn lower_name(s: &[u8]) -> (r: Vec<u8>)
    ensures
        r@ == lower(s@),
{
    let mut r: Vec<u8> = Vec::new();
    let mut i: usize = 0;
    while i < s.len()
        invariant
            i <= s@.len(),
            r@ == lower(s@.subrange(0, i as int)),
        decreases s@.len() - i,
    {
        let c = s[i];
        r.push(if 65 <= c && c <= 90 { c + 32 } else { c });
        i = i + 1;
        assert(r@ =~= lower(s@.subrange(0, i as int)));
    }
    assert(s@.subrange(0, s@.len() as int) =~= s@);
    r
}

fn backslash_name(s: &[u8]) -> (r: Vec<u8>)
    ensures
        r@ == backslashed(s@),
{
    let mut r: Vec<u8> = Vec::new();
    let mut i: usize = 0;
    while i < s.len()
        invariant
            i <= s@.len(),
            r@ == backslashed(s@.subrange(0, i as int)),
        decreases s@.len() - i,
    {
        let c = s[i];
        r.push(if c == 47 { 92u8 } else { c });
        i = i + 1;
        assert(r@ =~= backslashed(s@.subrange(0, i as int)));
    }
    assert(s@.subrange(0, s@.len() as int) =~= s@);
    r
}

/// The data block of `f` in directory `dir`, with the compressed form it holds.
fn file_payload(v: Version10X, flags: u32, dir: &Vec<u8>, f: &FileSource) -> (r: (Vec<u8>, Ghost<Seq<u8>>))
    requires
        has_flag(flags, EMBED_FILE_NAMES) ==> dir@.len() + 1 + f.name@.len() <= 255,
        f.data@.len() <= u32::MAX,
    ensures
        pack_ok(v, flags, *f, r.1@),
        r.0@ == payload(v, flags, dir@, *f, r.1@),
{
    let mut out: Vec<u8> = Vec::new();
    if flags & EMBED_FILE_NAMES != 0 {
        let mut path = backslash_name(dir.as_slice());
        path.push(92u8);
        let fname = backslash_name(f.name.as_slice());
        crate::bin::push_bytes(&mut path, fname.as_slice());
        assert(path@ =~= embedded_path(dir@, f.name@));
        let _ = push_bstring(&mut out, path.as_slice());
    }
    let ghost head = out@;
    let compressed = match f.compressed {
        Some(b) => b,
        None => flags & COMPRESSED_ARCHIVE != 0,
    };
    let ghost mut c: Seq<u8> = Seq::empty();
    if compressed {
        let packed = compress(v, f.data.as_slice());
        crate::bin::push_u32(&mut out, f.data.len() as u32);
        crate::bin::push_bytes(&mut out, packed.as_slice());
        proof {
            c = packed@;
        }
        assert(out@ =~= head + (u32_le(f.data@.len() as u32) + c));
    } else {
        crate::bin::push_bytes(&mut out, f.data.as_slice());
    }
    assert(out@ =~= payload(v, flags, dir@, *f, c));
    (out, Ghost(c))
}

/// Whether every directory is one the writer accepts.
fn check_dirs(flags: u32, dirs: &Vec<DirSource>) -> (r: bool)
    ensures
        r == dirs_ok(flags, dirs@),
{
    let mut j: usize = 0;
    while j < dirs.len()
        invariant
            j <= dirs@.len(),
            forall|i: int| 0 <= i < j ==> dir_ok(flags, #[trigger] dirs@[i]),
        decreases dirs@.len() - j,
    {
        let d = &dirs[j];
        if d.files.len() == 0 {
            return false;
        }
        if flags & INCLUDE_DIRECTORY_NAMES != 0 && d.name.len() > 254 {
            return false;
        }
        if flags & EMBED_FILE_NAMES != 0 {
            let mut k: usize = 0;
            while k < d.files.len()
                invariant
                    k <= d.files@.len(),
                    j < dirs@.len(),
                    d == dirs@[j as int],
                    flags & EMBED_FILE_NAMES != 0,
                    forall|i: int| 0 <= i < k ==> d.name@.len() + 1 + d.files@[i].name@.len() <= 255,
                decreases d.files@.len() - k,
            {
                if d.name.len() > 254 || d.files[k].name.len() > 254 - d.name.len() {
                    assert(!(d.name@.len() + 1 + d.files@[k as int].name@.len() <= 255));
                    assert(!dir_ok(flags, dirs@[j as int]));
                    return false;
                }
                k = k + 1;
            }
        }
        let mut k: usize = 0;
        while k < d.files.len()
            invariant
                k <= d.files@.len(),
                j < dirs@.len(),
                d == dirs@[j as int],
                d.files@.len() > 0,
                flags & INCLUDE_DIRECTORY_NAMES != 0 ==> d.name@.len() <= 254,
                flags & EMBED_FILE_NAMES != 0 ==> forall|i: int|
                    0 <= i < d.files@.len() ==> d.name@.len() + 1 + d.files@[i].name@.len() <= 255,
                forall|i: int| 0 <= i < k ==> (#[trigger] d.files@[i]).data@.len() <= u32::MAX,
            decreases d.files@.len() - k,
        {
            if d.files[k].data.len() > u32::MAX as usize {
                assert(!dir_ok(flags, dirs@[j as int]));
                return false;
            }
            k = k + 1;
        }
        assert(dir_ok(flags, dirs@[j as int]));
        j = j + 1;
    }
    true
}

} // verus!

verus! {

pub(crate) proof fn lemma_contents_mono(flags: u32, dirs: Seq<DirSource>, i: int, j: int)
    requires
        0 <= i <= j,
    ensures
        0 <= contents_size(flags, dirs, i) <= contents_size(flags, dirs, j),
    decreases j,
{
    if i < j {
        lemma_contents_mono(flags, dirs, i, j - 1);
    } else if j > 0 {
        lemma_contents_mono(flags, dirs, j - 1, j - 1);
    }
}

proof fn lemma_dir_payloads_mono(v: Version10X, flags: u32, d: DirSource, dp: Seq<Seq<u8>>, i: int, j: int)
    requires
        0 <= i <= j,
    ensures
        0 <= dir_payloads_len(v, flags, d, dp, i) <= dir_payloads_len(v, flags, d, dp, j),
    decreases j,
{
    if i < j {
        lemma_dir_payloads_mono(v, flags, d, dp, i, j - 1);
    } else if j > 0 {
        lemma_dir_payloads_mono(v, flags, d, dp, j - 1, j - 1);
    }
}

proof fn lemma_payloads_mono(v: Version10X, flags: u32, dirs: Seq<DirSource>, packs: Seq<Seq<Seq<u8>>>, i: int, j: int)
    requires
        0 <= i <= j <= dirs.len(),
    ensures
        0 <= payloads_len(v, flags, dirs, packs, i) <= payloads_len(v, flags, dirs, packs, j),
    decreases j,
{
    if j > 0 {
        lemma_dir_payloads_mono(v, flags, dirs[j - 1], packs[j - 1], 0, dirs[j - 1].files@.len() as int);
    }
    if i < j {
        lemma_payloads_mono(v, flags, dirs, packs, i, j - 1);
    } else if j > 0 {
        lemma_payloads_mono(v, flags, dirs, packs, j - 1, j - 1);
    }
}

pub(crate) proof fn lemma_names_nonneg(dirs: Seq<DirSource>, j: int)
    requires
        0 <= j,
    ensures
        0 <= all_file_names_len(dirs, j),
        0 <= dir_names_len(dirs, j),
        0 <= file_count(dirs, j),
    decreases j,
{
    if j > 0 {
        lemma_names_nonneg(dirs, j - 1);
        lemma_file_names_nonneg(dirs[j - 1].files@, dirs[j - 1].files@.len() as int);
    }
}

proof fn lemma_file_count_mono(dirs: Seq<DirSource>, i: int, j: int)
    requires
        0 <= i <= j,
    ensures
        file_count(dirs, i) <= file_count(dirs, j),
    decreases j,
{
    if i < j {
        lemma_file_count_mono(dirs, i, j - 1);
    }
}

proof fn lemma_file_names_nonneg(files: Seq<FileSource>, k: int)
    requires
        0 <= k,
    ensures
        0 <= file_names_len(files, k),
    decreases k,
{
    if k > 0 {
        lemma_file_names_nonneg(files, k - 1);
    }
}

proof fn lemma_dir_payloads_prefix(v: Version10X, flags: u32, d: DirSource, dp1: Seq<Seq<u8>>, dp2: Seq<Seq<u8>>, k: int)
    requires
        k <= dp1.len(),
        k <= dp2.len(),
        forall|i: int| 0 <= i < k ==> dp1[i] == dp2[i],
    ensures
        dir_payloads_len(v, flags, d, dp1, k) == dir_payloads_len(v, flags, d, dp2, k),
    decreases k,
{
    if k > 0 {
        lemma_dir_payloads_prefix(v, flags, d, dp1, dp2, k - 1);
    }
}

proof fn lemma_payloads_prefix(v: Version10X, flags: u32, dirs: Seq<DirSource>, p1: Seq<Seq<Seq<u8>>>, p2: Seq<Seq<Seq<u8>>>, j: int)
    requires
        j <= p1.len(),
        j <= p2.len(),
        forall|i: int| 0 <= i < j ==> p1[i] == p2[i],
    ensures
        payloads_len(v, flags, dirs, p1, j) == payloads_len(v, flags, dirs, p2, j),
    decreases j,
{
    if j > 0 {
        lemma_payloads_prefix(v, flags, dirs, p1, p2, j - 1);
    }
}

/// The data blocks of every file, directory by directory, the compressed
/// forms they hold, and the totals that the layout needs, each held at
/// `SATURATED` once it reaches it.
struct Plan {
    payloads: Vec<Vec<Vec<u8>>>,
    packs: Ghost<Seq<Seq<Seq<u8>>>>,
    file_names: u64,
    dir_names: u64,
    files: u64,
    contents: u64,
    data: u64,
}

fn plan(v: Version10X, flags: u32, dirs: &Vec<DirSource>) -> (r: Result<Plan, BsaError>)
    requires
        dirs_ok(flags, dirs@),
    ensures
        r matches Ok(p) ==> {
            &&& packs_ok(v, flags, dirs@, p.packs@)
            &&& payloads_fit(v, flags, dirs@, p.packs@)
            &&& p.payloads@.len() == dirs@.len()
            &&& forall|j: int|
                0 <= j < dirs@.len() ==> (#[trigger] p.payloads@[j])@.len() == dirs@[j].files@.len()
            &&& forall|j: int, k: int|
                0 <= j < dirs@.len() && 0 <= k < dirs@[j].files@.len() ==> (
                #[trigger] p.payloads@[j]@[k])@ == payload(v, flags, dirs@[j].name@, dirs@[j].files@[k], p.packs@[j][k])
            &&& p.file_names == sat(all_file_names_len(dirs@, dirs@.len() as int))
            &&& p.dir_names == sat(dir_names_len(dirs@, dirs@.len() as int))
            &&& p.files == sat(file_count(dirs@, dirs@.len() as int))
            &&& p.contents == sat(contents_size(flags, dirs@, dirs@.len() as int))
            &&& p.data == sat(payloads_len(v, flags, dirs@, p.packs@, dirs@.len() as int))
        },
        r matches Err(e) ==> e == BsaError::BadInput && payload_may_overflow(v, flags, dirs@),
{
    let mut payloads: Vec<Vec<Vec<u8>>> = Vec::new();
    let ghost mut packs: Seq<Seq<Seq<u8>>> = Seq::empty();
    let mut tfn: u64 = 0;
    let mut tdn: u64 = 0;
    let mut fc: u64 = 0;
    let mut cs: u64 = 0;
    let mut ps: u64 = 0;
    let mut j: usize = 0;
    while j < dirs.len()
        invariant
            j <= dirs@.len(),
            dirs_ok(flags, dirs@),
            payloads@.len() == j,
            packs.len() == j,
            forall|i: int| 0 <= i < j ==> (#[trigger] payloads@[i])@.len() == dirs@[i].files@.len(),
            forall|i: int| 0 <= i < j ==> (#[trigger] packs[i]).len() == dirs@[i].files@.len(),
            forall|i: int, k: int|
                0 <= i < j && 0 <= k < dirs@[i].files@.len() ==> (#[trigger] payloads@[i]@[k])@
                    == payload(v, flags, dirs@[i].name@, dirs@[i].files@[k], packs[i][k])
                    && payloads@[i]@[k]@.len() < COMPRESSION_BIT
                    && pack_ok(v, flags, dirs@[i].files@[k], packs[i][k]),
            tfn == sat(all_file_names_len(dirs@, j as int)),
            tdn == sat(dir_names_len(dirs@, j as int)),
            fc == sat(file_count(dirs@, j as int)),
            cs == sat(contents_size(flags, dirs@, j as int)),
            ps == sat(payloads_len(v, flags, dirs@, packs, j as int)),
        decreases dirs@.len() - j,
    {
        let d = &dirs[j];
        assert(dir_ok(flags, dirs@[j as int]));
        let mut dp: Vec<Vec<u8>> = Vec::new();
        let ghost mut dpk: Seq<Seq<u8>> = Seq::empty();
        let mut fnl: u64 = 0;
        let mut dpl: u64 = 0;
        let mut k: usize = 0;
        proof {
            lemma_names_nonneg(dirs@, j as int);
            lemma_contents_mono(flags, dirs@, j as int, j as int);
            lemma_payloads_mono(v, flags, dirs@, packs, j as int, j as int);
        }
        while k < d.files.len()
            invariant
                j < dirs@.len(),
                d == dirs@[j as int],
                dir_ok(flags, *d),
                k <= d.files@.len(),
                dp@.len() == k,
                dpk.len() == k,
                forall|i: int|
                    0 <= i < k ==> (#[trigger] dp@[i])@ == payload(v, flags, d.name@, d.files@[i], dpk[i])
                        && dp@[i]@.len() < COMPRESSION_BIT && pack_ok(v, flags, d.files@[i], dpk[i]),
                fnl == sat(file_names_len(d.files@, k as int)),
                dpl == sat(dir_payloads_len(v, flags, *d, dpk, k as int)),
            decreases d.files@.len() - k,
        {
            let f = &d.files[k];
            let (p, c) = file_payload(v, flags, &d.name, f);
            if p.len() >= COMPRESSION_BIT as usize {
                assert(pack_ok(v, flags, dirs@[j as int].files@[k as int], c@));
                assert(payload_may_overflow(v, flags, dirs@));
                return Err(BsaError::BadInput);
            }
            proof {
                lemma_file_names_nonneg(d.files@, k as int);
                lemma_dir_payloads_mono(v, flags, *d, dpk, k as int, k as int);
                lemma_dir_payloads_prefix(v, flags, *d, dpk, dpk.push(c@), k as int);
            }
            fnl = sat_add(sat_add(fnl, f.name.len() as u64), 1);
            dpl = sat_add(dpl, p.len() as u64);
            dp.push(p);
            proof {
                dpk = dpk.push(c@);
            }
            k = k + 1;
        }
        proof {
            lemma_file_names_nonneg(d.files@, k as int);
            lemma_dir_payloads_mono(v, flags, *d, dpk, k as int, k as int);
            lemma_payloads_prefix(v, flags, dirs@, packs, packs.push(dpk), j as int);
        }
        tfn = sat_add(tfn, fnl);
        tdn = sat_add(sat_add(tdn, d.name.len() as u64), 1);
        fc = sat_add(fc, d.files.len() as u64);
        if flags & INCLUDE_DIRECTORY_NAMES != 0 {
            cs = sat_add(sat_add(cs, d.name.len() as u64), 2);
        }
        let recs: u64 = if d.files.len() as u64 >= SATURATED / 16 { SATURATED } else { 16 * d.files.len() as u64 };
        cs = sat_add(cs, recs);
        ps = sat_add(ps, dpl);
        let ghost old_payloads = payloads@;
        let ghost old_packs = packs;
        payloads.push(dp);
        proof {
            packs = packs.push(dpk);
            assert forall|i: int, k: int|
                0 <= i <= j && 0 <= k < dirs@[i].files@.len() implies (#[trigger] payloads@[i]@[k])@
                    == payload(v, flags, dirs@[i].name@, dirs@[i].files@[k], packs[i][k])
                    && payloads@[i]@[k]@.len() < COMPRESSION_BIT
                    && pack_ok(v, flags, dirs@[i].files@[k], packs[i][k]) by {
                if i < j {
                    assert(payloads@[i] == old_payloads[i]);
                    assert(packs[i] == old_packs[i]);
                } else {
                    assert(payloads@[i] == dp);
                    assert(packs[i] == dpk);
                    assert(dp@[k]@ == payload(v, flags, d.name@, d.files@[k], dpk[k]));
                }
            }
            assert forall|i: int| 0 <= i <= j implies (#[trigger] packs[i]).len() == dirs@[i].files@.len() by {
                if i < j {
                    assert(packs[i] == old_packs[i]);
                }
            }
        }
        j = j + 1;
    }
    assert forall|i: int, k: int|
        0 <= i < dirs@.len() && 0 <= k < dirs@[i].files@.len() implies payload(
            v,
            flags,
            dirs@[i].name@,
            dirs@[i].files@[k],
            #[trigger] packs[i][k],
        ).len() < COMPRESSION_BIT by {
        assert(payloads@[i]@[k]@.len() < COMPRESSION_BIT);
    }
    assert forall|i: int, k: int|
        0 <= i < dirs@.len() && 0 <= k < dirs@[i].files@.len() implies pack_ok(
            v,
            flags,
            dirs@[i].files@[k],
            #[trigger] packs[i][k],
        ) by {
        assert(payloads@[i]@[k]@.len() < COMPRESSION_BIT);
    }
    Ok(Plan { payloads, packs: Ghost(packs), file_names: tfn, dir_names: tdn, files: fc, contents: cs, data: ps })
}

} // verus!

verus! {

/// Lays out the archive that `dirs` make in variant `v`: header, directory
/// records, directory-content blocks, file-name pool and data blocks, with
/// directories and files in the order given.
#[verifier::rlimit(60)]
pub fn write_bsa(v: Version10X, opts: BsaWriterOptionsV10X, dirs: &Vec<DirSource>) -> (r: Result<
    Vec<u8>,
    BsaError,
>)
    ensures
        unsupported_flags(written_flags(v, opts)) ==> r == Err::<Vec<u8>, BsaError>(
            BsaError::UnsupportedVersion,
        ),
        !unsupported_flags(written_flags(v, opts)) && !dirs_ok(written_flags(v, opts), dirs@) ==> r
            == Err::<Vec<u8>, BsaError>(BsaError::BadInput),
        !unsupported_flags(written_flags(v, opts)) && dirs_ok(written_flags(v, opts), dirs@)
            && !payload_may_overflow(v, written_flags(v, opts), dirs@) && (forall|packs: Seq<Seq<Seq<u8>>>|
            #[trigger] packs_ok(v, written_flags(v, opts), dirs@, packs) ==> !too_large(
                v,
                written_flags(v, opts),
                dirs@,
                packs,
            )) ==> r is Ok,
        r matches Ok(b) ==> {
            let flags = written_flags(v, opts);
            &&& !unsupported_flags(flags)
            &&& dirs_ok(flags, dirs@)
            &&& exists|packs: Seq<Seq<Seq<u8>>>| {
                &&& #[trigger] packs_ok(v, flags, dirs@, packs)
                &&& payloads_fit(v, flags, dirs@, packs)
                &&& !too_large(v, flags, dirs@, packs)
                &&& b@ == archive_bytes(v, opts, dirs@, packs)
            }
        },
        r matches Err(e) ==> {
            let flags = written_flags(v, opts);
            ||| e == BsaError::UnsupportedVersion && unsupported_flags(flags)
            ||| e == BsaError::BadInput && !dirs_ok(flags, dirs@)
            ||| e == BsaError::BadInput && payload_may_overflow(v, flags, dirs@)
            ||| e == BsaError::BadInput && exists|packs: Seq<Seq<Seq<u8>>>|
                #[trigger] packs_ok(v, flags, dirs@, packs) && too_large(v, flags, dirs@, packs)
        },
{
    let flags = opts.archive_flags & archive_flag_mask_of(v);
    if flags & XBOX360_ARCHIVE != 0 || flags & XMEM_CODEC != 0 {
        return Err(BsaError::UnsupportedVersion);
    }
    if !check_dirs(flags, dirs) {
        return Err(BsaError::BadInput);
    }
    let p = match plan(v, flags, dirs) {
        Ok(p) => p,
        Err(e) => return Err(e),
    };
    let ghost ds = dirs@;
    let ghost n = ds.len() as int;
    let ghost packs = p.packs@;
    proof {
        lemma_names_nonneg(ds, n);
        lemma_contents_mono(flags, ds, 0, n);
        lemma_payloads_mono(v, flags, ds, packs, 0, n);
    }
    let tfnl: u64 = if flags & INCLUDE_FILE_NAMES != 0 { p.file_names } else { 0 };
    let tdnl: u64 = if flags & INCLUDE_DIRECTORY_NAMES != 0 { p.dir_names } else { 0 };
    let rs = DirRecord::size(v) as u64;
    let recs_size: u64 = if dirs.len() as u64 >= SATURATED {
        SATURATED
    } else {
        assert(dirs.len() as u64 * rs <= SATURATED * 24) by (nonlinear_arith)
            requires
                dirs.len() < SATURATED,
                rs <= 24,
        ;
        dirs.len() as u64 * rs
    };
    assert(recs_size >= SATURATED ==> n * dir_record_size(v) >= SATURATED) by (nonlinear_arith)
        requires
            recs_size >= SATURATED ==> n >= SATURATED || recs_size == n * dir_record_size(v),
            dir_record_size(v) >= 16,
    ;
    let total = sat_add(sat_add(sat_add(sat_add(HEADER_END as u64, recs_size), p.contents), tfnl), p.data);
    if total > MAX_ARCHIVE_SIZE || tdnl > MAX_ARCHIVE_SIZE || p.files > MAX_ARCHIVE_SIZE {
        assert(too_large(v, flags, ds, packs));
        return Err(BsaError::BadInput);
    }
    assert(total == archive_size(v, flags, ds, packs));
    let cstart: u64 = HEADER_END as u64 + recs_size;
    let dstart: u64 = cstart + p.contents + tfnl;
    assert(dstart == data_start(v, flags, ds));
    let header = HeaderV10X {
        offset: HEADER_END,
        archive_flags: flags,
        dir_count: dirs.len() as u32,
        file_count: p.files as u32,
        total_dir_name_length: tdnl as u32,
        total_file_name_length: tfnl as u32,
        file_flags: opts.file_flags & FILE_FLAG_MASK,
        padding: 0,
    };
    assert(header == expected_header(v, opts, ds));
    let mut out: Vec<u8> = Vec::new();
    Version::V10X(v).write_here(&mut out);
    header.write_fixed(&mut out);

    // Directory records.
    let ghost pre = out@;
    let mut cpos: u64 = cstart;
    let mut j: usize = 0;
    while j < dirs.len()
        invariant
            ds == dirs@,
            n == ds.len(),
            j <= n,
            cstart == contents_start(v, ds),
            cstart + contents_size(flags, ds, n) + tfnl <= MAX_ARCHIVE_SIZE,
            tfnl == total_file_name_length(flags, ds),
            cpos == cstart + contents_size(flags, ds, j as int),
            out@ == pre + dir_recs_bytes(v, flags, ds, j as int),
        decreases n - j,
    {
        proof {
            lemma_contents_mono(flags, ds, j + 1, n);
        }
        let d = &dirs[j];
        let rec = DirRecord {
            name_hash: hash_v10x(d.name.as_slice()),
            file_count: d.files.len() as u32,
            offset: (cpos + tfnl) as u32,
        };
        assert(rec == dir_rec(v, flags, ds, j as int));
        rec.write_here(v, &mut out);
        let name_part: u64 = if flags & INCLUDE_DIRECTORY_NAMES != 0 { d.name.len() as u64 + 2 } else { 0 };
        cpos = cpos + name_part + 16 * d.files.len() as u64;
        j = j + 1;
    }

    // Directory-content blocks.
    let ghost pre2 = out@;
    let mut dpos: u64 = dstart;
    let mut j: usize = 0;
    while j < dirs.len()
        invariant
            ds == dirs@,
            n == ds.len(),
            j <= n,
            dstart == data_start(v, flags, ds),
            dstart + payloads_len(v, flags, ds, packs, n) <= MAX_ARCHIVE_SIZE,
            dpos == dstart + payloads_len(v, flags, ds, packs, j as int),
            out@ == pre2 + contents_bytes(v, flags, ds, packs, j as int),
            dirs_ok(flags, ds),
            p.payloads@.len() == n,
            packs == p.packs@,
            packs_ok(v, flags, ds, packs),
            forall|i: int| 0 <= i < n ==> (#[trigger] p.payloads@[i])@.len() == ds[i].files@.len(),
            forall|i: int, k: int|
                0 <= i < n && 0 <= k < ds[i].files@.len() ==> (#[trigger] p.payloads@[i]@[k])@
                    == payload(v, flags, ds[i].name@, ds[i].files@[k], packs[i][k]),
        decreases n - j,
    {
        let d = &dirs[j];
        proof {
            lemma_payloads_mono(v, flags, ds, packs, j + 1, n);
            lemma_dir_payloads_mono(v, flags, *d, packs[j as int], 0, d.files@.len() as int);
        }
        let name = if flags & INCLUDE_DIRECTORY_NAMES != 0 {
            Some(lower_name(d.name.as_slice()))
        } else {
            None
        };
        let pj = &p.payloads[j];
        let mut recs: Vec<FileRecord> = Vec::new();
        let mut fpos: u64 = dpos;
        let mut k: usize = 0;
        while k < d.files.len()
            invariant
                ds == dirs@,
                j < n,
                d == ds[j as int],
                pj == p.payloads@[j as int],
                packs == p.packs@,
                packs_ok(v, flags, ds, packs),
                pj@.len() == d.files@.len(),
                forall|i: int| 0 <= i < d.files@.len() ==> (#[trigger] pj@[i])@
                    == payload(v, flags, d.name@, d.files@[i], packs[j as int][i]),
                k <= d.files@.len(),
                dpos + dir_payloads_len(v, flags, *d, packs[j as int], d.files@.len() as int) <= MAX_ARCHIVE_SIZE,
                dpos == dstart + payloads_len(v, flags, ds, packs, j as int),
                dstart == data_start(v, flags, ds),
                fpos == dpos + dir_payloads_len(v, flags, *d, packs[j as int], k as int),
                recs@.len() == k,
                forall|i: int| 0 <= i < k ==> recs@[i] == file_rec(v, flags, ds, packs, j as int, i),
            decreases d.files@.len() - k,
        {
            proof {
                lemma_dir_payloads_mono(v, flags, *d, packs[j as int], k + 1, d.files@.len() as int);
            }
            let f = &d.files[k];
            let len = pj[k].len();
            let ow: u32 = match f.compressed {
                Some(b) => if b != (flags & COMPRESSED_ARCHIVE != 0) { COMPRESSION_BIT } else { 0 },
                None => 0,
            };
            let rec = FileRecord { name_hash: hash_v10x(f.name.as_slice()), size: ow | len as u32, offset: fpos as u32 };
            assert(rec == file_rec(v, flags, ds, packs, j as int, k as int));
            recs.push(rec);
            fpos = fpos + len as u64;
            k = k + 1;
        }
        assert(recs@ =~= file_recs(v, flags, ds, packs, j as int));
        let dc = DirContentRecord { name, files: recs };
        assert(opt_view(dc.name) == dir_name_part(flags, ds[j as int]));
        if dc.write(&mut out).is_err() {
            return Err(BsaError::BadInput);
        }
        dpos = fpos;
        j = j + 1;
    }

    // File-name pool.
    let ghost pre3 = out@;
    if flags & INCLUDE_FILE_NAMES != 0 {
        let mut j: usize = 0;
        while j < dirs.len()
            invariant
                ds == dirs@,
                n == ds.len(),
                j <= n,
                out@ == pre3 + name_pool(ds, j as int),
            decreases n - j,
        {
            let d = &dirs[j];
            let ghost mid = out@;
            let mut k: usize = 0;
            while k < d.files.len()
                invariant
                    j < n,
                    d == ds[j as int],
                    k <= d.files@.len(),
                    mid == pre3 + name_pool(ds, j as int),
                    out@ == mid + dir_pool(d.files@, k as int),
                decreases d.files@.len() - k,
            {
                let lname = lower_name(d.files[k].name.as_slice());
                push_zstring(&mut out, lname.as_slice());
                k = k + 1;
            }
            j = j + 1;
        }
    }

    // Data blocks.
    let ghost pre4 = out@;
    let mut j: usize = 0;
    while j < dirs.len()
        invariant
            ds == dirs@,
            n == ds.len(),
            j <= n,
            out@ == pre4 + all_data(v, flags, ds, packs, j as int),
            p.payloads@.len() == n,
            packs == p.packs@,
            packs_ok(v, flags, ds, packs),
            forall|i: int| 0 <= i < n ==> (#[trigger] p.payloads@[i])@.len() == ds[i].files@.len(),
            forall|i: int, k: int|
                0 <= i < n && 0 <= k < ds[i].files@.len() ==> (#[trigger] p.payloads@[i]@[k])@
                    == payload(v, flags, ds[i].name@, ds[i].files@[k], packs[i][k]),
        decreases n - j,
    {
        let d = &dirs[j];
        let pj = &p.payloads[j];
        let ghost mid = out@;
        let mut k: usize = 0;
        while k < pj.len()
            invariant
                j < n,
                d == ds[j as int],
                pj == p.payloads@[j as int],
                packs == p.packs@,
                packs_ok(v, flags, ds, packs),
                pj@.len() == d.files@.len(),
                forall|i: int| 0 <= i < d.files@.len() ==> (#[trigger] pj@[i])@
                    == payload(v, flags, d.name@, d.files@[i], packs[j as int][i]),
                k <= pj@.len(),
                mid == pre4 + all_data(v, flags, ds, packs, j as int),
                out@ == mid + dir_data(v, flags, *d, packs[j as int], k as int),
            decreases pj@.len() - k,
        {
            crate::bin::push_bytes(&mut out, pj[k].as_slice());
            k = k + 1;
        }
        j = j + 1;
    }
    proof {
        reveal(archive_bytes);
    }
    assert(out@ =~= archive_bytes(v, opts, ds, packs));
    assert(packs_ok(v, flags, ds, packs));
    Ok(out)
}

} // verus!

verus! {

pub(crate) proof fn lemma_dir_recs_len(v: Version10X, flags: u32, dirs: Seq<DirSource>, j: int)
    requires
        0 <= j,
    ensures
        dir_recs_bytes(v, flags, dirs, j).len() == j * dir_record_size(v),
    decreases j,
{
    if j > 0 {
        lemma_dir_recs_len(v, flags, dirs, j - 1);
        crate::v10x::lemma_dir_record_round_trip(Seq::empty(), dir_rec(v, flags, dirs, j - 1), v, Seq::empty());
        assert((j - 1) * dir_record_size(v) + dir_record_size(v) == j * dir_record_size(v)) by (nonlinear_arith);
    }
}

proof fn lemma_dir_recs_at(v: Version10X, flags: u32, dirs: Seq<DirSource>, j: int, a: Seq<u8>, rest: Seq<u8>, i: int)
    requires
        0 <= i < j,
    ensures
        crate::v10x::dir_record_at(a + dir_recs_bytes(v, flags, dirs, j) + rest, a.len() + i * dir_record_size(v), v)
            == dir_rec(v, flags, dirs, i),
    decreases j,
{
    let init = dir_recs_bytes(v, flags, dirs, j - 1);
    let last = dir_record_bytes(dir_rec(v, flags, dirs, j - 1), v);
    lemma_dir_recs_len(v, flags, dirs, j - 1);
    if i == j - 1 {
        assert(a + dir_recs_bytes(v, flags, dirs, j) + rest =~= (a + init) + last + rest);
        crate::v10x::lemma_dir_record_round_trip(a + init, dir_rec(v, flags, dirs, j - 1), v, rest);
    } else {
        assert(a + dir_recs_bytes(v, flags, dirs, j) + rest =~= a + init + (last + rest));
        lemma_dir_recs_at(v, flags, dirs, j - 1, a, last + rest, i);
    }
}

proof fn lemma_content_len(v: Version10X, flags: u32, dirs: Seq<DirSource>, packs: Seq<Seq<Seq<u8>>>, j: int)
    requires
        0 <= j < dirs.len(),
    ensures
        content_bytes(v, flags, dirs, packs, j).len() == content_size(flags, dirs[j]),
{
    crate::v10x::lemma_file_records_len(file_recs(v, flags, dirs, packs, j));
}

pub(crate) proof fn lemma_contents_prefix(v: Version10X, flags: u32, dirs: Seq<DirSource>, packs: Seq<Seq<Seq<u8>>>, j: int, n: int)
    requires
        0 <= j <= n <= dirs.len(),
    ensures
        contents_bytes(v, flags, dirs, packs, j).len() == contents_size(flags, dirs, j),
        contents_bytes(v, flags, dirs, packs, n).subrange(0, contents_size(flags, dirs, j))
            == contents_bytes(v, flags, dirs, packs, j),
    decreases n,
{
    if n > 0 {
        lemma_content_len(v, flags, dirs, packs, n - 1);
        lemma_contents_prefix(v, flags, dirs, packs, n - 1, n - 1);
        if j < n {
            lemma_contents_prefix(v, flags, dirs, packs, j, n - 1);
            lemma_contents_mono(flags, dirs, j, n - 1);
            assert(contents_bytes(v, flags, dirs, packs, n).subrange(0, contents_size(flags, dirs, j))
                =~= contents_bytes(v, flags, dirs, packs, n - 1).subrange(0, contents_size(flags, dirs, j)));
        } else {
            assert(contents_bytes(v, flags, dirs, packs, n).subrange(0, contents_size(flags, dirs, j))
                =~= contents_bytes(v, flags, dirs, packs, n));
        }
    } else {
        assert(contents_bytes(v, flags, dirs, packs, n).subrange(0, 0) =~= Seq::<u8>::empty());
    }
}

pub(crate) proof fn lemma_six(a: Seq<u8>, b: Seq<u8>, c: Seq<u8>, d: Seq<u8>, e: Seq<u8>, f: Seq<u8>)
    ensures
        a + b + c + d + e + f == a + (b + (c + d + e + f)),
        a + b + c + d + e + f == a + b + (c + d + e + f),
        a + b + c + d + e + f == (a + b) + c + d + (e + f),
{
    assert(a + b + c + d + e + f =~= a + (b + (c + d + e + f)));
    assert(a + b + c + d + e + f =~= a + b + (c + d + e + f));
    assert(a + b + c + d + e + f =~= (a + b) + c + d + (e + f));
}

proof fn lemma_assoc(a: Seq<u8>, b: Seq<u8>, c: Seq<u8>)
    ensures
        a + b + c == a + (b + c),
{
    assert(a + b + c =~= a + (b + c));
}

proof fn lemma_split_prefix(c: Seq<u8>, p: Seq<u8>, q: Seq<u8>)
    requires
        p.len() + q.len() <= c.len(),
        c.subrange(0, (p.len() + q.len()) as int) == p + q,
    ensures
        c.subrange(p.len() as int, (p.len() + q.len()) as int) == q,
{
    assert(c.subrange(p.len() as int, (p.len() + q.len()) as int) =~= (p + q).subrange(p.len() as int, (p.len() + q.len()) as int));
    assert((p + q).subrange(p.len() as int, (p.len() + q.len()) as int) =~= q);
}

proof fn lemma_sub_sub(x: Seq<u8>, c: Seq<u8>, r: Seq<u8>, lo: int, hi: int)
    requires
        0 <= lo <= hi <= c.len(),
    ensures
        (x + c + r).subrange(x.len() + lo, x.len() + hi) == c.subrange(lo, hi),
{
    assert((x + c + r).subrange(x.len() + lo, x.len() + hi) =~= c.subrange(lo, hi));
}

pub(crate) proof fn lemma_layout_bytes(
    v: Version10X,
    flags: u32,
    dirs: Seq<DirSource>, packs: Seq<Seq<Seq<u8>>>,
    j: int,
    pre: Seq<u8>,
    rest: Seq<u8>,
)
    requires
        0 <= j < dirs.len(),
        pre.len() == HEADER_END,
    ensures
        ({
            let n = dirs.len() as int;
            let b = pre + dir_recs_bytes(v, flags, dirs, n) + contents_bytes(v, flags, dirs, packs, n) + rest;
            let pos = contents_start(v, dirs) + contents_size(flags, dirs, j);
            &&& crate::v10x::dir_record_at(b, HEADER_END + j * dir_record_size(v), v) == dir_rec(v, flags, dirs, j)
            &&& 0 <= pos
            &&& pos + content_size(flags, dirs[j]) <= b.len()
            &&& b.subrange(pos, pos + content_size(flags, dirs[j])) == content_bytes(v, flags, dirs, packs, j)
        }),
{
    let n = dirs.len() as int;
    let d = dir_recs_bytes(v, flags, dirs, n);
    let c = contents_bytes(v, flags, dirs, packs, n);
    lemma_assoc(pre + d, c, rest);
    lemma_dir_recs_at(v, flags, dirs, n, pre, c + rest, j);
    lemma_dir_recs_len(v, flags, dirs, n);
    lemma_contents_mono(flags, dirs, j, n);
    lemma_contents_mono(flags, dirs, j + 1, n);
    lemma_contents_prefix(v, flags, dirs, packs, j + 1, n);
    lemma_contents_prefix(v, flags, dirs, packs, j, j);
    lemma_contents_prefix(v, flags, dirs, packs, n, n);
    lemma_content_len(v, flags, dirs, packs, j);
    let cj = contents_size(flags, dirs, j);
    let sj = content_size(flags, dirs[j]);
    assert(contents_size(flags, dirs, j + 1) == cj + sj);
    assert(contents_bytes(v, flags, dirs, packs, j + 1) == contents_bytes(v, flags, dirs, packs, j) + content_bytes(v, flags, dirs, packs, j));
    lemma_split_prefix(c, contents_bytes(v, flags, dirs, packs, j), content_bytes(v, flags, dirs, packs, j));
    lemma_sub_sub(pre + d, c, rest, cj, cj + sj);
}

/// Every directory record's offset is the position of that directory's
/// content block plus the total file-name length that the header holds, and
/// the block stands there: a reader that subtracts the header's length from
/// the offset reads the block that was written.
#[verifier::rlimit(60)]
pub proof fn lemma_offset_consistency(v: Version10X, opts: BsaWriterOptionsV10X, dirs: Seq<DirSource>, packs: Seq<Seq<Seq<u8>>>, j: int)
    requires
        !too_large(v, written_flags(v, opts), dirs, packs),
        0 <= j < dirs.len(),
    ensures
        ({
            let flags = written_flags(v, opts);
            let b = archive_bytes(v, opts, dirs, packs);
            let pos = contents_start(v, dirs) + contents_size(flags, dirs, j);
            &&& crate::v10x::dir_record_at(b, HEADER_END + j * dir_record_size(v), v).offset
                == pos + total_file_name_length(flags, dirs)
            &&& crate::v10x::dir_record_at(b, HEADER_END + j * dir_record_size(v), v).name_hash
                == hash_v10x_spec(dirs[j].name@)
            &&& crate::v10x::dir_record_at(b, HEADER_END + j * dir_record_size(v), v).file_count
                == dirs[j].files@.len()
            &&& 0 <= pos
            &&& pos + content_size(flags, dirs[j]) <= b.len()
            &&& b.subrange(pos, pos + content_size(flags, dirs[j])) == content_bytes(v, flags, dirs, packs, j)
        }),
{
    let flags = written_flags(v, opts);
    let n = dirs.len() as int;
    let vb = version_bytes(Version::V10X(v));
    let hb = header_bytes(expected_header(v, opts, dirs));
    let d = dir_recs_bytes(v, flags, dirs, n);
    let c = contents_bytes(v, flags, dirs, packs, n);
    let p = if has_flag(flags, INCLUDE_FILE_NAMES) { name_pool(dirs, n) } else { Seq::empty() };
    let data = all_data(v, flags, dirs, packs, n);
    reveal(archive_bytes);
    assert(archive_bytes(v, opts, dirs, packs) == vb + hb + d + c + p + data);
    lemma_six(vb, hb, d, c, p, data);
    lemma_layout_bytes(v, flags, dirs, packs, j, vb + hb, p + data);
    lemma_name_length_accounting(v, opts, dirs, packs);
    assert(dirs[j].files@.len() <= file_count(dirs, n)) by {
        lemma_file_count_mono(dirs, j + 1, n);
        lemma_names_nonneg(dirs, j);
    }
    lemma_contents_mono(flags, dirs, j, n);
    lemma_payloads_mono(v, flags, dirs, packs, 0, n);
    lemma_names_nonneg(dirs, n);
}

} // verus!

verus! {

/// The bytes that the directory names take as BZStrings, over the first `j` directories.
pub open spec fn dir_strings_len(dirs: Seq<DirSource>, j: int) -> int
    decreases j,
{
    if j <= 0 {
        0
    } else {
        dir_strings_len(dirs, j - 1) + crate::strings::bz_bytes(lower(dirs[j - 1].name@)).len()
    }
}

proof fn lemma_dir_strings(dirs: Seq<DirSource>, j: int)
    requires
        0 <= j,
    ensures
        dir_strings_len(dirs, j) == dir_names_len(dirs, j) + j,
    decreases j,
{
    if j > 0 {
        lemma_dir_strings(dirs, j - 1);
    }
}

proof fn lemma_dir_pool_len(files: Seq<FileSource>, k: int)
    requires
        0 <= k <= files.len(),
    ensures
        dir_pool(files, k).len() == file_names_len(files, k),
    decreases k,
{
    if k > 0 {
        lemma_dir_pool_len(files, k - 1);
    }
}

proof fn lemma_name_pool_len(dirs: Seq<DirSource>, j: int)
    requires
        0 <= j <= dirs.len(),
    ensures
        name_pool(dirs, j).len() == all_file_names_len(dirs, j),
    decreases j,
{
    if j > 0 {
        lemma_name_pool_len(dirs, j - 1);
        lemma_dir_pool_len(dirs[j - 1].files@, dirs[j - 1].files@.len() as int);
    }
}

/// The header's name lengths account for the strings written: the file-name
/// length is the size of the name pool, one NUL per name included, and the
/// directory-name length plus the directory count is the size of the
/// directory names as BZStrings.
pub proof fn lemma_name_length_accounting(v: Version10X, opts: BsaWriterOptionsV10X, dirs: Seq<DirSource>, packs: Seq<Seq<Seq<u8>>>)
    requires
        !too_large(v, written_flags(v, opts), dirs, packs),
    ensures
        ({
            let flags = written_flags(v, opts);
            let h = expected_header(v, opts, dirs);
            let n = dirs.len() as int;
            &&& h.dir_count == n
            &&& h.file_count == file_count(dirs, n)
            &&& has_flag(flags, INCLUDE_FILE_NAMES) ==> h.total_file_name_length == name_pool(dirs, n).len()
                && h.total_file_name_length == all_file_names_len(dirs, n)
            &&& has_flag(flags, INCLUDE_DIRECTORY_NAMES) ==> h.total_dir_name_length + h.dir_count
                == dir_strings_len(dirs, n)
        }),
{
    let flags = written_flags(v, opts);
    let n = dirs.len() as int;
    lemma_name_pool_len(dirs, n);
    lemma_dir_strings(dirs, n);
    lemma_contents_mono(flags, dirs, 0, n);
    lemma_payloads_mono(v, flags, dirs, packs, 0, n);
    lemma_names_nonneg(dirs, n);
    assert(n * dir_record_size(v) >= n) by (nonlinear_arith)
        requires
            n >= 0,
            dir_record_size(v) >= 16,
    ;
}

} // verus!

verus! {

/// The ZStrings of `l`, one after the other.
pub open spec fn zconcat(l: Seq<Seq<u8>>) -> Seq<u8>
    decreases l.len(),
{
    if l.len() == 0 {
        Seq::empty()
    } else {
        zconcat(l.drop_last()) + z_bytes(l.last())
    }
}

/// The lowercase names of the first `k` files.
pub open spec fn dir_names_flat(files: Seq<FileSource>, k: int) -> Seq<Seq<u8>>
    decreases k,
{
    if k <= 0 {
        Seq::empty()
    } else {
        dir_names_flat(files, k - 1).push(lower(files[k - 1].name@))
    }
}

/// The lowercase file names of the first `j` directories, in writing order.
pub open spec fn written_names(dirs: Seq<DirSource>, j: int) -> Seq<Seq<u8>>
    decreases j,
{
    if j <= 0 {
        Seq::empty()
    } else {
        written_names(dirs, j - 1) + dir_names_flat(dirs[j - 1].files@, dirs[j - 1].files@.len() as int)
    }
}

pub(crate) proof fn lemma_zconcat_append(a: Seq<Seq<u8>>, b: Seq<Seq<u8>>)
    ensures
        zconcat(a + b) == zconcat(a) + zconcat(b),
    decreases b.len(),
{
    if b.len() == 0 {
        assert(a + b =~= a);
        assert(zconcat(a) + zconcat(b) =~= zconcat(a));
    } else {
        assert((a + b).drop_last() =~= a + b.drop_last());
        lemma_zconcat_append(a, b.drop_last());
        assert(zconcat(a) + zconcat(b) =~= zconcat(a) + zconcat(b.drop_last()) + z_bytes(b.last()));
    }
}

pub(crate) proof fn lemma_dir_pool_flat(files: Seq<FileSource>, k: int)
    requires
        0 <= k <= files.len(),
    ensures
        dir_pool(files, k) == zconcat(dir_names_flat(files, k)),
        dir_names_flat(files, k).len() == k,
        forall|i: int| 0 <= i < k ==> #[trigger] dir_names_flat(files, k)[i] == lower(files[i].name@),
    decreases k,
{
    if k > 0 {
        lemma_dir_pool_flat(files, k - 1);
        assert(dir_names_flat(files, k).drop_last() =~= dir_names_flat(files, k - 1));
    }
}

pub(crate) proof fn lemma_name_pool_flat(dirs: Seq<DirSource>, j: int)
    requires
        0 <= j <= dirs.len(),
    ensures
        name_pool(dirs, j) == zconcat(written_names(dirs, j)),
        written_names(dirs, j).len() == file_count(dirs, j),
    decreases j,
{
    if j > 0 {
        lemma_name_pool_flat(dirs, j - 1);
        let fs = dirs[j - 1].files@;
        lemma_dir_pool_flat(fs, fs.len() as int);
        lemma_zconcat_append(written_names(dirs, j - 1), dir_names_flat(fs, fs.len() as int));
    }
}

/// File `k` of directory `j` is name number `file_count(dirs, j) + k` in writing order.
pub(crate) proof fn lemma_written_name_at(dirs: Seq<DirSource>, j: int, k: int, n: int)
    requires
        0 <= j < n <= dirs.len(),
        0 <= k < dirs[j].files@.len(),
    ensures
        file_count(dirs, j) + k < written_names(dirs, n).len(),
        written_names(dirs, n)[file_count(dirs, j) + k] == lower(dirs[j].files@[k].name@),
    decreases n,
{
    lemma_name_pool_flat(dirs, n);
    lemma_name_pool_flat(dirs, n - 1);
    lemma_name_pool_flat(dirs, j);
    lemma_names_nonneg(dirs, j);
    let fs = dirs[n - 1].files@;
    lemma_dir_pool_flat(fs, fs.len() as int);
    if j == n - 1 {
        assert(written_names(dirs, n)[file_count(dirs, j) + k] == dir_names_flat(fs, fs.len() as int)[k]);
    } else {
        lemma_written_name_at(dirs, j, k, n - 1);
    }
}

/// The content blocks take the directory names with their length and NUL
/// bytes, where names are included, and sixteen bytes per file.
pub(crate) proof fn lemma_contents_size_split(flags: u32, dirs: Seq<DirSource>, j: int)
    requires
        0 <= j,
    ensures
        contents_size(flags, dirs, j) == (if has_flag(flags, INCLUDE_DIRECTORY_NAMES) {
            dir_names_len(dirs, j) + j
        } else {
            0
        }) + 16 * file_count(dirs, j),
    decreases j,
{
    if j > 0 {
        lemma_contents_size_split(flags, dirs, j - 1);
    }
}

} // verus!

verus! {

proof fn lemma_dir_data_prefix(v: Version10X, flags: u32, d: DirSource, dp: Seq<Seq<u8>>, k: int, m: int)
    requires
        0 <= k <= m,
    ensures
        dir_data(v, flags, d, dp, m).len() == dir_payloads_len(v, flags, d, dp, m),
        dir_data(v, flags, d, dp, m).subrange(0, dir_payloads_len(v, flags, d, dp, k)) == dir_data(v, flags, d, dp, k),
    decreases m,
{
    if m > 0 {
        lemma_dir_data_prefix(v, flags, d, dp, m - 1, m - 1);
        if k < m {
            lemma_dir_data_prefix(v, flags, d, dp, k, m - 1);
            lemma_dir_payloads_mono(v, flags, d, dp, k, m - 1);
            assert(dir_data(v, flags, d, dp, m).subrange(0, dir_payloads_len(v, flags, d, dp, k))
                =~= dir_data(v, flags, d, dp, m - 1).subrange(0, dir_payloads_len(v, flags, d, dp, k)));
        } else {
            assert(dir_data(v, flags, d, dp, m).subrange(0, dir_payloads_len(v, flags, d, dp, k))
                =~= dir_data(v, flags, d, dp, m));
        }
    } else {
        assert(dir_data(v, flags, d, dp, m).subrange(0, 0) =~= Seq::<u8>::empty());
    }
}

proof fn lemma_all_data_prefix(v: Version10X, flags: u32, dirs: Seq<DirSource>, packs: Seq<Seq<Seq<u8>>>, j: int, n: int)
    requires
        0 <= j <= n <= dirs.len(),
    ensures
        all_data(v, flags, dirs, packs, n).len() == payloads_len(v, flags, dirs, packs, n),
        all_data(v, flags, dirs, packs, n).subrange(0, payloads_len(v, flags, dirs, packs, j))
            == all_data(v, flags, dirs, packs, j),
    decreases n,
{
    if n > 0 {
        let d = dirs[n - 1];
        lemma_dir_data_prefix(v, flags, d, packs[n - 1], d.files@.len() as int, d.files@.len() as int);
        lemma_all_data_prefix(v, flags, dirs, packs, n - 1, n - 1);
        if j < n {
            lemma_all_data_prefix(v, flags, dirs, packs, j, n - 1);
            lemma_payloads_mono(v, flags, dirs, packs, j, n - 1);
            assert(all_data(v, flags, dirs, packs, n).subrange(0, payloads_len(v, flags, dirs, packs, j))
                =~= all_data(v, flags, dirs, packs, n - 1).subrange(0, payloads_len(v, flags, dirs, packs, j)));
        } else {
            assert(all_data(v, flags, dirs, packs, n).subrange(0, payloads_len(v, flags, dirs, packs, j))
                =~= all_data(v, flags, dirs, packs, n));
        }
    } else {
        assert(all_data(v, flags, dirs, packs, n).subrange(0, 0) =~= Seq::<u8>::empty());
    }
}

/// Where the data block of file `k` of directory `j` stands in the data blocks.
proof fn lemma_block_in_data(v: Version10X, flags: u32, dirs: Seq<DirSource>, packs: Seq<Seq<Seq<u8>>>, j: int, k: int)
    requires
        0 <= j < dirs.len(),
        0 <= k < dirs[j].files@.len(),
    ensures
        ({
            let n = dirs.len() as int;
            let at = payloads_len(v, flags, dirs, packs, j) + dir_payloads_len(v, flags, dirs[j], packs[j], k);
            let blk = payload(v, flags, dirs[j].name@, dirs[j].files@[k], packs[j][k]);
            &&& 0 <= at
            &&& at + blk.len() <= all_data(v, flags, dirs, packs, n).len()
            &&& all_data(v, flags, dirs, packs, n).subrange(at, at + blk.len()) == blk
        }),
{
    let n = dirs.len() as int;
    let d = dirs[j];
    let dp = packs[j];
    let m = d.files@.len() as int;
    let a = all_data(v, flags, dirs, packs, n);
    let pj = payloads_len(v, flags, dirs, packs, j);
    lemma_all_data_prefix(v, flags, dirs, packs, j + 1, n);
    lemma_all_data_prefix(v, flags, dirs, packs, j, j);
    lemma_payloads_mono(v, flags, dirs, packs, 0, j);
    lemma_payloads_mono(v, flags, dirs, packs, j + 1, n);
    lemma_dir_data_prefix(v, flags, d, dp, k + 1, m);
    lemma_dir_data_prefix(v, flags, d, dp, k, k);
    lemma_dir_data_prefix(v, flags, d, dp, m, m);
    lemma_dir_payloads_mono(v, flags, d, dp, 0, k);
    lemma_dir_payloads_mono(v, flags, d, dp, k + 1, m);
    let dd = dir_data(v, flags, d, dp, m);
    let blk = payload(v, flags, d.name@, d.files@[k], dp[k]);
    let dk = dir_payloads_len(v, flags, d, dp, k);
    // The directory's blocks follow the earlier directories' blocks.
    assert(a.subrange(0, pj + dd.len()) == all_data(v, flags, dirs, packs, j) + dd);
    lemma_split_prefix(a, all_data(v, flags, dirs, packs, j), dd);
    // The file's block follows the directory's earlier blocks.
    assert(dd.subrange(0, dk + blk.len()) == dir_data(v, flags, d, dp, k) + blk);
    lemma_split_prefix(dd, dir_data(v, flags, d, dp, k), blk);
    assert(a.subrange(pj + dk, pj + dk + blk.len()) =~= a.subrange(pj, pj + dd.len()).subrange(dk, dk + blk.len()));
}

/// Every file record's offset is where that file's data block stands in the
/// written archive, and its size word's low bits are the block's length.
pub proof fn lemma_data_block_at_offset(
    v: Version10X,
    opts: BsaWriterOptionsV10X,
    dirs: Seq<DirSource>,
    packs: Seq<Seq<Seq<u8>>>,
    j: int,
    k: int,
)
    requires
        !too_large(v, written_flags(v, opts), dirs, packs),
        payloads_fit(v, written_flags(v, opts), dirs, packs),
        0 <= j < dirs.len(),
        0 <= k < dirs[j].files@.len(),
    ensures
        ({
            let flags = written_flags(v, opts);
            let b = archive_bytes(v, opts, dirs, packs);
            let rec = file_rec(v, flags, dirs, packs, j, k);
            let blk = payload(v, flags, dirs[j].name@, dirs[j].files@[k], packs[j][k]);
            &&& rec.offset + blk.len() <= b.len()
            &&& b.subrange(rec.offset as int, rec.offset + blk.len()) == blk
            &&& rec.size & crate::v10x::SIZE_MASK == blk.len()
        }),
{
    let flags = written_flags(v, opts);
    let n = dirs.len() as int;
    let vb = version_bytes(Version::V10X(v));
    let hb = header_bytes(expected_header(v, opts, dirs));
    let d = dir_recs_bytes(v, flags, dirs, n);
    let c = contents_bytes(v, flags, dirs, packs, n);
    let p = if has_flag(flags, INCLUDE_FILE_NAMES) { name_pool(dirs, n) } else { Seq::empty() };
    let data = all_data(v, flags, dirs, packs, n);
    let b = archive_bytes(v, opts, dirs, packs);
    reveal(archive_bytes);
    assert(b == vb + hb + d + c + p + data);
    assert(hb.len() == 28);
    lemma_dir_recs_len(v, flags, dirs, n);
    lemma_contents_prefix(v, flags, dirs, packs, n, n);
    lemma_name_pool_len(dirs, n);
    lemma_names_nonneg(dirs, n);
    lemma_contents_mono(flags, dirs, 0, n);
    lemma_payloads_mono(v, flags, dirs, packs, 0, n);
    let x = vb + hb + d + c + p;
    assert(x.len() == data_start(v, flags, dirs));
    assert(b =~= x + data);
    lemma_block_in_data(v, flags, dirs, packs, j, k);
    lemma_all_data_prefix(v, flags, dirs, packs, n, n);
    let at = payloads_len(v, flags, dirs, packs, j) + dir_payloads_len(v, flags, dirs[j], packs[j], k);
    let blk = payload(v, flags, dirs[j].name@, dirs[j].files@[k], packs[j][k]);
    assert(x.len() + at + blk.len() <= archive_size(v, flags, dirs, packs));
    assert(file_rec(v, flags, dirs, packs, j, k).offset == x.len() + at);
    assert(b.subrange(x.len() + at, x.len() + at + blk.len()) =~= data.subrange(at, at + blk.len()));
    assert(blk.len() < COMPRESSION_BIT);
    lemma_override_round_trip(flags, dirs[j].files@[k].compressed, blk.len() as u32);
}

} // verus!

//! The fixed records of the v10X family: header, directory records,
//! file records and directory-content records.
use vstd::prelude::*;
use crate::bin::{u16_le, u32_le, u64_le, u16_at, u32_at, u64_at, push_u16, push_u32, push_u64, read_u16, read_u32, read_u64, lemma_u16_round_trip, lemma_u32_round_trip, lemma_u64_round_trip};
use crate::error::BsaError;

use crate::version::Version10X;
use crate::strings::{bz_bytes, bz_parse, push_bzstring, read_bzstring, lemma_bz_round_trip};

verus! {

/// The flags that an archive header can carry.
#[derive(Debug, Clone, Copy, PartialEq, Eq, Structural)]
pub enum ArchiveFlag {
    IncludeDirectoryNames,
    IncludeFileNames,
    /// Files are compressed unless their record says otherwise.
    CompressedArchive,
    RetainDirectoryNames,
    RetainFileNames,
    RetainFileNameOffsets,
    /// Scalars after the header are big-endian; not handled here.
    Xbox360Archive,
    RetainStringsDuringStartup,
    /// Each file's data begins with its full path as a BString.
    EmbedFileNames,
    /// An Xbox 360 codec; not handled here.
    XMemCodec,
}

pub open spec fn archive_flag_bit(f: ArchiveFlag) -> u32 {
    match f {
        ArchiveFlag::IncludeDirectoryNames => 0x1,
        ArchiveFlag::IncludeFileNames => 0x2,
        ArchiveFlag::CompressedArchive => 0x4,
        ArchiveFlag::RetainDirectoryNames => 0x8,
        ArchiveFlag::RetainFileNames => 0x10,
        ArchiveFlag::RetainFileNameOffsets => 0x20,
        ArchiveFlag::Xbox360Archive => 0x40,
        ArchiveFlag::RetainStringsDuringStartup => 0x80,
        ArchiveFlag::EmbedFileNames => 0x100,
        ArchiveFlag::XMemCodec => 0x200,
    }
}

impl ArchiveFlag {
    pub fn bit(&self) -> (r: u32)
        ensures
            r == archive_flag_bit(*self),
    {
        match self {
            ArchiveFlag::IncludeDirectoryNames => 0x1,
            ArchiveFlag::IncludeFileNames => 0x2,
            ArchiveFlag::CompressedArchive => 0x4,
            ArchiveFlag::RetainDirectoryNames => 0x8,
            ArchiveFlag::RetainFileNames => 0x10,
            ArchiveFlag::RetainFileNameOffsets => 0x20,
            ArchiveFlag::Xbox360Archive => 0x40,
            ArchiveFlag::RetainStringsDuringStartup => 0x80,
            ArchiveFlag::EmbedFileNames => 0x100,
            ArchiveFlag::XMemCodec => 0x200,
        }
    }
}

/// The kinds of content an archive declares; metadata only.
#[derive(Debug, Clone, Copy, PartialEq, Eq, Structural)]
pub enum FileFlag {
    Meshes,
    Textures,
    Menus,
    Sounds,
    Voices,
    Shaders,
    Trees,
    Fonts,
    Miscellaneous,
}

pub open spec fn file_flag_bit(f: FileFlag) -> u16 {
    match f {
        FileFlag::Meshes => 0x1,
        FileFlag::Textures => 0x2,
        FileFlag::Menus => 0x4,
        FileFlag::Sounds => 0x8,
        FileFlag::Voices => 0x10,
        FileFlag::Shaders => 0x20,
        FileFlag::Trees => 0x40,
        FileFlag::Fonts => 0x80,
        FileFlag::Miscellaneous => 0x100,
    }
}

impl FileFlag {
    pub fn bit(&self) -> (r: u16)
        ensures
            r == file_flag_bit(*self),
    {
        match self {
            FileFlag::Meshes => 0x1,
            FileFlag::Textures => 0x2,
            FileFlag::Menus => 0x4,
            FileFlag::Sounds => 0x8,
            FileFlag::Voices => 0x10,
            FileFlag::Shaders => 0x20,
            FileFlag::Trees => 0x40,
            FileFlag::Fonts => 0x80,
            FileFlag::Miscellaneous => 0x100,
        }
    }
}

/// The archive flags that a variant knows: v103 lacks the last two.
pub open spec fn archive_flag_mask(v: Version10X) -> u32 {
    match v {
        Version10X::V103 => 0xff,
        _ => 0x3ff,
    }
}

/// The file flags that any variant knows.
pub const FILE_FLAG_MASK: u16 = 0x1ff;

pub fn archive_flag_mask_of(v: Version10X) -> (r: u32)
    ensures
        r == archive_flag_mask(v),
{
    match v {
        Version10X::V103 => 0xff,
        _ => 0x3ff,
    }
}

/// The size of the magic and version number together with the header after them.
pub const HEADER_END: u32 = 36;

/// The header of a v10X archive, with the flag words as bit sets.
#[derive(Debug, Clone, Copy, PartialEq, Eq, Structural)]
pub struct HeaderV10X {
    pub offset: u32,
    pub archive_flags: u32,
    pub dir_count: u32,
    pub file_count: u32,
    pub total_dir_name_length: u32,
    pub total_file_name_length: u32,
    pub file_flags: u16,
    pub padding: u16,
}

/// The 28 header bytes that follow the magic and version number.
pub open spec fn header_bytes(h: HeaderV10X) -> Seq<u8> {
    u32_le(h.offset) + u32_le(h.archive_flags) + u32_le(h.dir_count) + u32_le(h.file_count)
        + u32_le(h.total_dir_name_length) + u32_le(h.total_file_name_length) + u16_le(
        h.file_flags,
    ) + u16_le(h.padding)
}

/// The header that the bytes at `i` hold, with the flags a variant does not know dropped.
pub open spec fn header_at(b: Seq<u8>, i: int, v: Version10X) -> HeaderV10X {
    HeaderV10X {
        offset: u32_at(b, i),
        archive_flags: u32_at(b, i + 4) & archive_flag_mask(v),
        dir_count: u32_at(b, i + 8),
        file_count: u32_at(b, i + 12),
        total_dir_name_length: u32_at(b, i + 16),
        total_file_name_length: u32_at(b, i + 20),
        file_flags: u16_at(b, i + 24) & FILE_FLAG_MASK,
        padding: u16_at(b, i + 26),
    }
}

/// A header whose flag sets hold only flags that the variant knows.
pub open spec fn header_flags_valid(h: HeaderV10X, v: Version10X) -> bool {
    h.archive_flags & archive_flag_mask(v) == h.archive_flags && h.file_flags & FILE_FLAG_MASK
        == h.file_flags
}

pub(crate) proof fn lemma_u32_part(a: Seq<u8>, x: u32, rest: Seq<u8>)
    ensures
        u32_at(a + u32_le(x) + rest, a.len() as int) == x,
{
    lemma_u32_round_trip(x);
    let b = a + u32_le(x) + rest;
    let p = a.len() as int;
    assert(b[p] == u32_le(x)[0] && b[p + 1] == u32_le(x)[1] && b[p + 2] == u32_le(x)[2] && b[p
        + 3] == u32_le(x)[3]);
}

proof fn lemma_u16_part(a: Seq<u8>, x: u16, rest: Seq<u8>)
    ensures
        u16_at(a + u16_le(x) + rest, a.len() as int) == x,
{
    lemma_u16_round_trip(x);
    let b = a + u16_le(x) + rest;
    let p = a.len() as int;
    assert(b[p] == u16_le(x)[0] && b[p + 1] == u16_le(x)[1]);
}

pub(crate) proof fn lemma_u64_part(a: Seq<u8>, x: u64, rest: Seq<u8>)
    ensures
        u64_at(a + u64_le(x) + rest, a.len() as int) == x,
{
    lemma_u64_round_trip(x);
    let b = a + u64_le(x) + rest;
    let p = a.len() as int;
    let e = u64_le(x);
    assert forall|k: int| 0 <= k < 8 implies b[p + k] == e[k] by {}
    assert(u32_at(b, p) == u32_at(e, 0));
    assert(u32_at(b, p + 4) == u32_at(e, 4));
}

/// Reading a written header back gives the same header, for flag sets the variant knows.
pub proof fn lemma_header_round_trip(a: Seq<u8>, h: HeaderV10X, v: Version10X, rest: Seq<u8>)
    requires
        header_flags_valid(h, v),
    ensures
        header_bytes(h).len() == 28,
        header_at(a + header_bytes(h) + rest, a.len() as int, v) == h,
{
    let p = a.len() as int;
    let s1 = u32_le(h.offset);
    let s2 = u32_le(h.archive_flags);
    let s3 = u32_le(h.dir_count);
    let s4 = u32_le(h.file_count);
    let s5 = u32_le(h.total_dir_name_length);
    let s6 = u32_le(h.total_file_name_length);
    let s7 = u16_le(h.file_flags);
    let s8 = u16_le(h.padding);
    let b = a + header_bytes(h) + rest;
    assert(b =~= a + s1 + (s2 + s3 + s4 + s5 + s6 + s7 + s8 + rest));
    lemma_u32_part(a, h.offset, s2 + s3 + s4 + s5 + s6 + s7 + s8 + rest);
    assert(b =~= (a + s1) + s2 + (s3 + s4 + s5 + s6 + s7 + s8 + rest));
    lemma_u32_part(a + s1, h.archive_flags, s3 + s4 + s5 + s6 + s7 + s8 + rest);
    assert(b =~= (a + s1 + s2) + s3 + (s4 + s5 + s6 + s7 + s8 + rest));
    lemma_u32_part(a + s1 + s2, h.dir_count, s4 + s5 + s6 + s7 + s8 + rest);
    assert(b =~= (a + s1 + s2 + s3) + s4 + (s5 + s6 + s7 + s8 + rest));
    lemma_u32_part(a + s1 + s2 + s3, h.file_count, s5 + s6 + s7 + s8 + rest);
    assert(b =~= (a + s1 + s2 + s3 + s4) + s5 + (s6 + s7 + s8 + rest));
    lemma_u32_part(a + s1 + s2 + s3 + s4, h.total_dir_name_length, s6 + s7 + s8 + rest);
    assert(b =~= (a + s1 + s2 + s3 + s4 + s5) + s6 + (s7 + s8 + rest));
    lemma_u32_part(a + s1 + s2 + s3 + s4 + s5, h.total_file_name_length, s7 + s8 + rest);
    assert(b =~= (a + s1 + s2 + s3 + s4 + s5 + s6) + s7 + (s8 + rest));
    lemma_u16_part(a + s1 + s2 + s3 + s4 + s5 + s6, h.file_flags, s8 + rest);
    assert(b =~= (a + s1 + s2 + s3 + s4 + s5 + s6 + s7) + s8 + rest);
    lemma_u16_part(a + s1 + s2 + s3 + s4 + s5 + s6 + s7, h.padding, rest);
}

impl HeaderV10X {
    /// Appends the 28 header bytes.
    pub fn write_fixed(&self, out: &mut Vec<u8>)
        ensures
            final(out)@ == old(out)@ + header_bytes(*self),
    {
        push_u32(out, self.offset);
        push_u32(out, self.archive_flags);
        push_u32(out, self.dir_count);
        push_u32(out, self.file_count);
        push_u32(out, self.total_dir_name_length);
        push_u32(out, self.total_file_name_length);
        push_u16(out, self.file_flags);
        push_u16(out, self.padding);
        assert(final(out)@ =~= old(out)@ + header_bytes(*self));
    }

    /// Reads the header at position 8, after the magic and version number.
    pub fn read_fixed(b: &[u8], v: Version10X) -> (r: Result<HeaderV10X, BsaError>)
        ensures
            b@.len() >= HEADER_END ==> r == Ok::<HeaderV10X, BsaError>(header_at(b@, 8, v)),
            b@.len() < HEADER_END ==> r == Err::<HeaderV10X, BsaError>(BsaError::BadData),
    {
        if b.len() < 36 {
            return Err(BsaError::BadData);
        }
        Ok(HeaderV10X {
            offset: read_u32(b, 8).unwrap(),
            archive_flags: read_u32(b, 12).unwrap() & archive_flag_mask_of(v),
            dir_count: read_u32(b, 16).unwrap(),
            file_count: read_u32(b, 20).unwrap(),
            total_dir_name_length: read_u32(b, 24).unwrap(),
            total_file_name_length: read_u32(b, 28).unwrap(),
            file_flags: read_u16(b, 32).unwrap() & FILE_FLAG_MASK,
            padding: read_u16(b, 34).unwrap(),
        })
    }

    /// Whether the archive flag `f` is set.
    pub fn has(&self, f: ArchiveFlag) -> (r: bool)
        ensures
            r == (self.archive_flags & archive_flag_bit(f) != 0),
    {
        self.archive_flags & f.bit() != 0
    }

    /// Whether the file flag `f` is set.
    pub fn has_file_flag(&self, f: FileFlag) -> (r: bool)
        ensures
            r == (self.file_flags & file_flag_bit(f) != 0),
    {
        self.file_flags & f.bit() != 0
    }
}

/// A file record: the name's hash, the size word and the data's offset.
#[derive(Debug, Clone, Copy, PartialEq, Eq, Structural)]
pub struct FileRecord {
    pub name_hash: u64,
    pub size: u32,
    pub offset: u32,
}

/// Bit 30 of a file record's size: the file's compression is the opposite of the archive default.
pub const COMPRESSION_BIT: u32 = 0x4000_0000;

/// The bits of a file record's size word that hold the data block's length.
pub const SIZE_MASK: u32 = 0x3FFF_FFFF;

pub open spec fn file_record_bytes(r: FileRecord) -> Seq<u8> {
    u64_le(r.name_hash) + u32_le(r.size) + u32_le(r.offset)
}

pub open spec fn file_record_at(b: Seq<u8>, i: int) -> FileRecord {
    FileRecord { name_hash: u64_at(b, i), size: u32_at(b, i + 8), offset: u32_at(b, i + 12) }
}

/// A file record written anywhere in a byte run reads back as itself.
pub proof fn lemma_file_record_round_trip(a: Seq<u8>, r: FileRecord, rest: Seq<u8>)
    ensures
        file_record_bytes(r).len() == 16,
        file_record_at(a + file_record_bytes(r) + rest, a.len() as int) == r,
{
    let s1 = u64_le(r.name_hash);
    let s2 = u32_le(r.size);
    let s3 = u32_le(r.offset);
    let b = a + file_record_bytes(r) + rest;
    lemma_u64_round_trip(r.name_hash);
    assert(b =~= a + s1 + (s2 + s3 + rest));
    lemma_u64_part(a, r.name_hash, s2 + s3 + rest);
    assert(b =~= (a + s1) + s2 + (s3 + rest));
    lemma_u32_part(a + s1, r.size, s3 + rest);
    assert(b =~= (a + s1 + s2) + s3 + rest);
    lemma_u32_part(a + s1 + s2, r.offset, rest);
}

impl FileRecord {
    pub fn is_compression_bit_set(&self) -> (r: bool)
        ensures
            r == (self.size & COMPRESSION_BIT == COMPRESSION_BIT),
    {
        (self.size & COMPRESSION_BIT) == COMPRESSION_BIT
    }

    /// The length of the data block: the size word's low 30 bits.
    pub fn real_size(&self) -> (r: u32)
        ensures
            r == self.size & SIZE_MASK,
    {
        self.size & SIZE_MASK
    }

    pub fn write_here(&self, out: &mut Vec<u8>)
        ensures
            final(out)@ == old(out)@ + file_record_bytes(*self),
    {
        push_u64(out, self.name_hash);
        push_u32(out, self.size);
        push_u32(out, self.offset);
        assert(final(out)@ =~= old(out)@ + file_record_bytes(*self));
    }

    pub fn read_here(b: &[u8], pos: usize) -> (r: Option<FileRecord>)
        ensures
            r == (if pos + 16 <= b@.len() {
                Some(file_record_at(b@, pos as int))
            } else {
                None::<FileRecord>
            }),
    {
        if pos > b.len() || b.len() - pos < 16 {
            return None;
        }
        Some(
            FileRecord {
                name_hash: read_u64(b, pos).unwrap(),
                size: read_u32(b, pos + 8).unwrap(),
                offset: read_u32(b, pos + 12).unwrap(),
            },
        )
    }
}

/// A directory record: the name's hash, the number of files and, as stored,
/// the position of the directory's content block plus the total file-name length.
#[derive(Debug, Clone, Copy, PartialEq, Eq, Structural)]
pub struct DirRecord {
    pub name_hash: u64,
    pub file_count: u32,
    pub offset: u32,
}

/// How a variant lays out a directory record: v105 puts a padding word on either side of the offset.
pub open spec fn dir_record_bytes(r: DirRecord, v: Version10X) -> Seq<u8> {
    match v {
        Version10X::V105 => u64_le(r.name_hash) + u32_le(r.file_count) + u32_le(0) + u32_le(
            r.offset,
        ) + u32_le(0),
        _ => u64_le(r.name_hash) + u32_le(r.file_count) + u32_le(r.offset),
    }
}

pub open spec fn dir_record_size(v: Version10X) -> int {
    match v {
        Version10X::V105 => 24,
        _ => 16,
    }
}

pub open spec fn dir_record_at(b: Seq<u8>, i: int, v: Version10X) -> DirRecord {
    match v {
        Version10X::V105 => DirRecord {
            name_hash: u64_at(b, i),
            file_count: u32_at(b, i + 8),
            offset: u32_at(b, i + 16),
        },
        _ => DirRecord { name_hash: u64_at(b, i), file_count: u32_at(b, i + 8), offset: u32_at(b, i + 12) },
    }
}

/// A directory record written in a variant's layout reads back as itself in that layout.
pub proof fn lemma_dir_record_round_trip(a: Seq<u8>, r: DirRecord, v: Version10X, rest: Seq<u8>)
    ensures
        dir_record_bytes(r, v).len() == dir_record_size(v),
        dir_record_at(a + dir_record_bytes(r, v) + rest, a.len() as int, v) == r,
{
    let s1 = u64_le(r.name_hash);
    let s2 = u32_le(r.file_count);
    let z = u32_le(0);
    let s3 = u32_le(r.offset);
    let b = a + dir_record_bytes(r, v) + rest;
    lemma_u64_round_trip(r.name_hash);
    lemma_u32_round_trip(0);
    lemma_u32_round_trip(r.offset);
    lemma_u32_round_trip(r.file_count);
    match v {
        Version10X::V105 => {
            assert(b =~= a + s1 + (s2 + z + s3 + z + rest));
            lemma_u64_part(a, r.name_hash, s2 + z + s3 + z + rest);
            assert(b =~= (a + s1) + s2 + (z + s3 + z + rest));
            lemma_u32_part(a + s1, r.file_count, z + s3 + z + rest);
            assert(b =~= (a + s1 + s2 + z) + s3 + (z + rest));
            lemma_u32_part(a + s1 + s2 + z, r.offset, z + rest);
        },
        _ => {
            assert(b =~= a + s1 + (s2 + s3 + rest));
            lemma_u64_part(a, r.name_hash, s2 + s3 + rest);
            assert(b =~= (a + s1) + s2 + (s3 + rest));
            lemma_u32_part(a + s1, r.file_count, s3 + rest);
            assert(b =~= (a + s1 + s2) + s3 + rest);
            lemma_u32_part(a + s1 + s2, r.offset, rest);
        },
    }
}

impl DirRecord {
    pub fn write_here(&self, v: Version10X, out: &mut Vec<u8>)
        ensures
            final(out)@ == old(out)@ + dir_record_bytes(*self, v),
    {
        push_u64(out, self.name_hash);
        push_u32(out, self.file_count);
        match v {
            Version10X::V105 => {
                push_u32(out, 0);
                push_u32(out, self.offset);
                push_u32(out, 0);
            },
            _ => {
                push_u32(out, self.offset);
            },
        }
        assert(final(out)@ =~= old(out)@ + dir_record_bytes(*self, v));
    }

    pub fn size(v: Version10X) -> (r: usize)
        ensures
            r == dir_record_size(v),
    {
        match v {
            Version10X::V105 => 24,
            _ => 16,
        }
    }

    pub fn read_here(b: &[u8], pos: usize, v: Version10X) -> (r: Option<DirRecord>)
        ensures
            r == (if pos + dir_record_size(v) <= b@.len() {
                Some(dir_record_at(b@, pos as int, v))
            } else {
                None::<DirRecord>
            }),
    {
        let n = DirRecord::size(v);
        if pos > b.len() || b.len() - pos < n {
            return None;
        }
        let off = match v {
            Version10X::V105 => read_u32(b, pos + 16).unwrap(),
            _ => read_u32(b, pos + 12).unwrap(),
        };
        Some(
            DirRecord {
                name_hash: read_u64(b, pos).unwrap(),
                file_count: read_u32(b, pos + 8).unwrap(),
                offset: off,
            },
        )
    }
}

} // verus!

verus! {

/// The file records of `files`, one after the other.
pub open spec fn file_records_bytes(files: Seq<FileRecord>) -> Seq<u8>
    decreases files.len(),
{
    if files.len() == 0 {
        Seq::empty()
    } else {
        file_records_bytes(files.drop_last()) + file_record_bytes(files.last())
    }
}

/// A directory-content block: the directory name as a BZString where names are
/// included, then the directory's file records.
pub open spec fn dir_content_bytes(name: Option<Seq<u8>>, files: Seq<FileRecord>) -> Seq<u8> {
    match name {
        Some(n) => bz_bytes(n) + file_records_bytes(files),
        None => file_records_bytes(files),
    }
}

/// The optional name and the file records of one directory.
#[derive(Debug, Clone, PartialEq, Eq)]
pub struct DirContentRecord {
    pub name: Option<Vec<u8>>,
    pub files: Vec<FileRecord>,
}

pub open spec fn opt_view(o: Option<Vec<u8>>) -> Option<Seq<u8>> {
    match o {
        Some(v) => Some(v@),
        None => None,
    }
}

/// A run of file records takes sixteen bytes each.
pub proof fn lemma_file_records_len(files: Seq<FileRecord>)
    ensures
        file_records_bytes(files).len() == 16 * files.len(),
    decreases files.len(),
{
    if files.len() > 0 {
        lemma_file_records_len(files.drop_last());
        lemma_file_record_round_trip(Seq::empty(), files.last(), Seq::empty());
        assert(Seq::<u8>::empty() + file_record_bytes(files.last()) + Seq::<u8>::empty()
            =~= file_record_bytes(files.last()));
    }
}

/// The `k`-th record of a written run of file records reads back as written.
pub proof fn lemma_file_records_at(a: Seq<u8>, files: Seq<FileRecord>, rest: Seq<u8>, k: int)
    requires
        0 <= k < files.len(),
    ensures
        file_record_at(a + file_records_bytes(files) + rest, a.len() + 16 * k) == files[k],
    decreases files.len(),
{
    let init = files.drop_last();
    lemma_file_records_len(init);
    if k == files.len() - 1 {
        assert(a + file_records_bytes(files) + rest =~= (a + file_records_bytes(init))
            + file_record_bytes(files.last()) + rest);
        lemma_file_record_round_trip(a + file_records_bytes(init), files.last(), rest);
    } else {
        assert(a + file_records_bytes(files) + rest =~= a + file_records_bytes(init) + (
        file_record_bytes(files.last()) + rest));
        lemma_file_records_at(a, init, file_record_bytes(files.last()) + rest, k);
    }
}

/// A directory-content block reads back as written: its name where it has
/// one, then each of its file records.
pub proof fn lemma_dir_content_round_trip(
    a: Seq<u8>,
    name: Option<Seq<u8>>,
    files: Seq<FileRecord>,
    rest: Seq<u8>,
)
    requires
        name matches Some(n) ==> n.len() <= 254,
    ensures
        ({
            let b = a + dir_content_bytes(name, files) + rest;
            let p = a.len() as int;
            match name {
                Some(n) => bz_parse(b, p) == Some((n, p + n.len() + 2)) && forall|k: int|
                    0 <= k < files.len() ==> file_record_at(b, p + n.len() + 2 + 16 * k) == files[k],
                None => forall|k: int|
                    0 <= k < files.len() ==> file_record_at(b, p + 16 * k) == files[k],
            }
        }),
{
    let b = a + dir_content_bytes(name, files) + rest;
    match name {
        Some(n) => {
            assert(b =~= a + bz_bytes(n) + (file_records_bytes(files) + rest));
            lemma_bz_round_trip(a, n, file_records_bytes(files) + rest);
            assert(b =~= (a + bz_bytes(n)) + file_records_bytes(files) + rest);
            assert forall|k: int| 0 <= k < files.len() implies file_record_at(
                b,
                a.len() + n.len() + 2 + 16 * k,
            ) == files[k] by {
                lemma_file_records_at(a + bz_bytes(n), files, rest, k);
            }
        },
        None => {
            assert forall|k: int| 0 <= k < files.len() implies file_record_at(
                b,
                a.len() + 16 * k,
            ) == files[k] by {
                lemma_file_records_at(a, files, rest, k);
            }
        },
    }
}

impl DirContentRecord {
    /// Appends the block; refuses a name of more than 254 bytes.
    pub fn write(&self, out: &mut Vec<u8>) -> (r: Result<(), BsaError>)
        ensures
            r is Ok <==> !(self.name matches Some(n) && n@.len() > 254),
            r is Ok ==> final(out)@ == old(out)@ + dir_content_bytes(opt_view(self.name), self.files@),
            r is Err ==> r == Err::<(), BsaError>(BsaError::BadInput),
    {
        match &self.name {
            Some(n) => {
                let r = push_bzstring(out, n.as_slice());
                if r.is_err() {
                    return Err(BsaError::BadInput);
                }
            },
            None => {},
        }
        let ghost mid = out@;
        let mut i: usize = 0;
        while i < self.files.len()
            invariant
                i <= self.files@.len(),
                out@ == mid + file_records_bytes(self.files@.subrange(0, i as int)),
            decreases self.files@.len() - i,
        {
            self.files[i].write_here(out);
            i = i + 1;
            assert(self.files@.subrange(0, i as int).drop_last() =~= self.files@.subrange(0, i - 1));
        }
        assert(self.files@.subrange(0, i as int) =~= self.files@);
        assert(final(out)@ =~= old(out)@ + dir_content_bytes(opt_view(self.name), self.files@));
        Ok(())
    }

    /// Reads a block at `pos`: a BZString name where `has_name`, then `file_count` file records.
    /// Gives the block and the position after it.
    pub fn read_with_param(b: &[u8], pos: usize, has_name: bool, file_count: u32) -> (r: Result<
        (DirContentRecord, usize),
        BsaError,
    >)
        ensures
            match r {
                Ok((d, next)) => {
                    let first = records_start(b@, pos as int, has_name).unwrap();
                    &&& records_start(b@, pos as int, has_name) is Some
                    &&& (has_name <==> d.name is Some)
                    &&& (d.name matches Some(n) ==> bz_parse(b@, pos as int) == Some(
                        (n@, first),
                    ))
                    &&& d.files@.len() == file_count
                    &&& forall|k: int|
                        0 <= k < file_count ==> d.files@[k] == file_record_at(b@, first + 16 * k)
                    &&& next == first + 16 * file_count
                    &&& next <= b@.len()
                },
                Err(e) => e == BsaError::BadData && !(records_start(b@, pos as int, has_name) matches Some(
                    f,
                ) && f + 16 * file_count <= b@.len()),
            },
    {
        let (name, first) = if has_name {
            match read_bzstring(b, pos) {
                Ok((n, next)) => (Some(n), next),
                Err(_) => return Err(BsaError::BadData),
            }
        } else {
            (None, pos)
        };
        if first > b.len() || (b.len() - first) / 16 < file_count as usize {
            return Err(BsaError::BadData);
        }
        let ghost fc = file_count as int;
        let ghost room = (b@.len() - first) as int;
        assert(room / 16 >= fc ==> 16 * fc <= room) by (nonlinear_arith)
            requires room >= 0;
        let mut files: Vec<FileRecord> = Vec::new();
        let mut k: usize = 0;
        let mut p: usize = first;
        let blen: usize = b.len();
        while k < file_count as usize
            invariant
                blen == b@.len(),
                k <= file_count,
                first + 16 * file_count <= b@.len(),
                p == first + 16 * k,
                files@.len() == k,
                forall|j: int| 0 <= j < k ==> files@[j] == file_record_at(b@, first + 16 * j),
            decreases file_count - k,
        {
            let rec = FileRecord::read_here(b, p).unwrap();
            files.push(rec);
            assert(p + 16 <= first + 16 * file_count);
            k = k + 1;
            p = p + 16;
        }
        assert(!(records_start(b@, pos as int, has_name) is None));
        Ok((DirContentRecord { name, files }, p))
    }
}

/// Where the file records of a block at `pos` start: after its name where it has one.
pub open spec fn records_start(b: Seq<u8>, pos: int, has_name: bool) -> Option<int> {
    if has_name {
        match bz_parse(b, pos) {
            Some((_, next)) => Some(next),
            None => None,
        }
    } else {
        Some(pos)
    }
}

} // verus!

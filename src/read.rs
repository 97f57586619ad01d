//! Reading a v10X archive held in memory.
use vstd::prelude::*;
use crate::codec::{uncompress, uncompressed_of};
use crate::error::BsaError;
use crate::hash::{hash_v10x, hash_v10x_spec};
use crate::strings::{b_parse, is_first_nul, read_bstring, read_zstring, copy_range};
use crate::v10x::{
    dir_record_at, dir_record_size, file_record_at, header_at, records_start, DirContentRecord,
    DirRecord, FileRecord, HeaderV10X, COMPRESSION_BIT, HEADER_END, SIZE_MASK,
};
use crate::version::{version_parse, Version, Version10X};
use crate::bin::u32_at;
use crate::v001::{extract_v001, read_v001, v001_entry_listed, V001Entry};
use crate::v10x::{archive_flag_mask, header_bytes, opt_view};
use crate::version::version_bytes;
use crate::write::{
    pack_ok, packs_ok,
    zconcat, written_names, lower, file_count,
    all_data, archive_bytes, content_bytes, content_size, contents_bytes, contents_size,
    contents_start, dir_name_part, dir_ok, dir_recs_bytes, dirs_ok, effective_compressed,
    expected_header, file_recs, has_flag, name_pool, payload, payloads_fit, too_large,
    unsupported_flags, written_flags, BsaWriterOptionsV10X, DirSource, FileSource,
    COMPRESSED_ARCHIVE, EMBED_FILE_NAMES, INCLUDE_DIRECTORY_NAMES, INCLUDE_FILE_NAMES,
    XBOX360_ARCHIVE, XMEM_CODEC,
};

verus! {

/// A file as listed: its hash, its name where the archive holds one, whether
/// it is stored compressed, and where its data block is and how long it is.
#[derive(Debug, Clone, PartialEq, Eq)]
pub struct BsaFile {
    pub hash: u64,
    pub name: Option<Vec<u8>>,
    pub compressed: bool,
    pub offset: u32,
    pub size: u32,
}

/// A directory as listed, with its files in archive order.
#[derive(Debug, Clone, PartialEq, Eq)]
pub struct BsaDir {
    pub hash: u64,
    pub name: Option<Vec<u8>>,
    pub files: Vec<BsaFile>,
}

/// An opened v10X archive: its bytes, its variant and its header.
pub struct BsaReaderV10X {
    pub bytes: Vec<u8>,
    pub version: Version10X,
    pub header: HeaderV10X,
}

/// Whether a file with compression bit `bit_set` is stored compressed: the
/// bit flips the archive default.
pub open spec fn stored_compressed(flags: u32, bit_set: bool) -> bool {
    has_flag(flags, COMPRESSED_ARCHIVE) != bit_set
}

/// Where the file-name pool starts.
pub open spec fn file_names_start(v: Version10X, h: HeaderV10X) -> int {
    HEADER_END + h.dir_count * dir_record_size(v) + (if has_flag(h.archive_flags, INCLUDE_DIRECTORY_NAMES) {
        h.total_dir_name_length + h.dir_count
    } else {
        0
    }) + 16 * h.file_count
}

/// What opening `b` as a v10X archive gives: its variant, or the error.
pub open spec fn open_outcome(b: Seq<u8>) -> Result<Version10X, BsaError> {
    match version_parse(b) {
        Err(e) => Err(e),
        Ok((Version::V10X(x), _)) => if b.len() < HEADER_END {
            Err(BsaError::BadData)
        } else if unsupported_flags(header_at(b, 8, x).archive_flags) {
            Err(BsaError::UnsupportedVersion)
        } else {
            Ok(x)
        },
        Ok(_) => Err(BsaError::UnsupportedVersion),
    }
}

/// What reading `b` with the reader of variant `x` gives: the error where
/// opening fails, `BadData` where `b` announces another variant.
pub open spec fn read_outcome(b: Seq<u8>, x: Version10X) -> Option<BsaError> {
    match open_outcome(b) {
        Err(e) => Some(e),
        Ok(y) => if y == x {
            None
        } else {
            Some(BsaError::BadData)
        },
    }
}

impl BsaReaderV10X {
    pub open spec fn well_formed(&self) -> bool {
        &&& version_parse(self.bytes@) == Ok::<(Version, int), BsaError>((Version::V10X(self.version), 8))
        &&& self.bytes@.len() >= HEADER_END
        &&& self.header == header_at(self.bytes@, 8, self.version)
        &&& !unsupported_flags(self.header.archive_flags)
    }

    /// Opens the archive in `bytes`: checks its version and reads its header.
    pub fn open(bytes: Vec<u8>) -> (r: Result<BsaReaderV10X, BsaError>)
        ensures
            match r {
                Ok(a) => a.well_formed() && a.bytes@ == bytes@ && open_outcome(bytes@) == Ok::<
                    Version10X,
                    BsaError,
                >(a.version),
                Err(e) => open_outcome(bytes@) == Err::<Version10X, BsaError>(e),
            },
    {
        let v = match Version::read_here(bytes.as_slice()) {
            Ok((Version::V10X(x), _)) => x,
            Ok(_) => return Err(BsaError::UnsupportedVersion),
            Err(e) => return Err(e),
        };
        let header = match HeaderV10X::read_fixed(bytes.as_slice(), v) {
            Ok(h) => h,
            Err(e) => return Err(e),
        };
        if header.archive_flags & XBOX360_ARCHIVE != 0 || header.archive_flags & XMEM_CODEC != 0 {
            return Err(BsaError::UnsupportedVersion);
        }
        Ok(BsaReaderV10X { bytes, version: v, header })
    }

    /// The archive header.
    pub fn header(&self) -> (r: HeaderV10X)
        ensures
            r == self.header,
    {
        self.header
    }
}

/// The end of the ZString at `pos`: the position of its NUL, if it has one.
pub open spec fn zstring_end(b: Seq<u8>, pos: int) -> Option<int> {
    if exists|k: int| is_first_nul(b, pos, k) {
        Some(choose|k: int| is_first_nul(b, pos, k))
    } else {
        None
    }
}

/// Whether `count` ZStrings can be read one after the other from `pos`.
pub open spec fn pool_readable(b: Seq<u8>, pos: int, count: int) -> bool
    decreases count,
{
    if count <= 0 {
        true
    } else {
        match zstring_end(b, pos) {
            Some(k) => pool_readable(b, k + 1, count - 1),
            None => false,
        }
    }
}

/// The ZStrings read one after the other from `pos`, at most `count` of
/// them, stopping where one has no NUL.
pub open spec fn pool_names(b: Seq<u8>, pos: int, count: int) -> Seq<Seq<u8>>
    decreases count,
{
    if count <= 0 {
        Seq::empty()
    } else {
        match zstring_end(b, pos) {
            Some(k) => seq![b.subrange(pos, k)] + pool_names(b, k + 1, count - 1),
            None => Seq::empty(),
        }
    }
}

/// The views of a run of byte vectors.
pub open spec fn views(s: Seq<Vec<u8>>) -> Seq<Seq<u8>> {
    Seq::new(s.len(), |i: int| s[i]@)
}

/// The last of `names` whose hash is `h`: a later name replaces an earlier
/// one with the same hash.
pub open spec fn last_named(names: Seq<Seq<u8>>, h: u64) -> Option<Seq<u8>>
    decreases names.len(),
{
    if names.len() == 0 {
        None
    } else if hash_v10x_spec(names.last()) == h {
        Some(names.last())
    } else {
        last_named(names.drop_last(), h)
    }
}

proof fn lemma_first_nul_unique(b: Seq<u8>, pos: int, k1: int, k2: int)
    requires
        0 <= pos,
        is_first_nul(b, pos, k1),
        is_first_nul(b, pos, k2),
    ensures
        k1 == k2,
{
    if k1 < k2 {
        assert(b.subrange(pos, k2)[k1 - pos] == b[k1]);
    } else if k2 < k1 {
        assert(b.subrange(pos, k1)[k2 - pos] == b[k2]);
    }
}

/// The file names in the pool and, at the same index, their hashes.
fn read_file_names(b: &[u8], start: usize, count: u32) -> (r: Result<(Vec<u64>, Vec<Vec<u8>>), BsaError>)
    ensures
        r is Ok <==> pool_readable(b@, start as int, count as int),
        r matches Ok((hashes, names)) ==> hashes@.len() == names@.len() && forall|i: int|
            0 <= i < names@.len() ==> hashes@[i] == hash_v10x_spec(#[trigger] names@[i]@),
        r matches Ok((hashes, names)) ==> views(names@) == pool_names(b@, start as int, count as int),
        r matches Err(e) ==> e == BsaError::BadData,
{
    let mut hashes: Vec<u64> = Vec::new();
    let mut names: Vec<Vec<u8>> = Vec::new();
    let mut pos: usize = start;
    let mut i: u32 = 0;
    while i < count
        invariant
            hashes@.len() == names@.len(),
            forall|k: int| 0 <= k < names@.len() ==> hashes@[k] == hash_v10x_spec(#[trigger] names@[k]@),
            i <= count,
            pool_readable(b@, start as int, count as int) == pool_readable(b@, pos as int, count - i),
            pool_names(b@, start as int, count as int) == views(names@) + pool_names(b@, pos as int, count - i),
        decreases count - i,
    {
        let (name, next) = match read_zstring(b, pos) {
            Ok(x) => x,
            Err(e) => {
                assert(zstring_end(b@, pos as int) is None);
                return Err(e);
            },
        };
        proof {
            let k = choose|k: int| is_first_nul(b@, pos as int, k);
            lemma_first_nul_unique(b@, pos as int, k, next - 1);
            assert(zstring_end(b@, pos as int) == Some(next - 1));
        }
        let ghost old_names = names@;
        let ghost rest = pool_names(b@, next as int, count - i - 1);
        assert(pool_names(b@, pos as int, count - i) == seq![name@] + rest);
        hashes.push(hash_v10x(name.as_slice()));
        names.push(name);
        assert(views(names@) =~= views(old_names).push(name@));
        assert(views(old_names) + (seq![name@] + rest) =~= views(names@) + rest);
        pos = next;
        i = i + 1;
    }
    assert(views(names@) + pool_names(b@, pos as int, 0) =~= views(names@));
    Ok((hashes, names))
}

/// The last name whose hash is `h`, if there is one.
fn find_name(hashes: &Vec<u64>, names: &Vec<Vec<u8>>, h: u64) -> (r: Option<Vec<u8>>)
    requires
        hashes@.len() == names@.len(),
        forall|i: int| 0 <= i < names@.len() ==> hashes@[i] == hash_v10x_spec(#[trigger] names@[i]@),
    ensures
        opt_view(r) == last_named(views(names@), h),
{
    let ghost all = views(names@);
    assert(all.subrange(0, all.len() as int) =~= all);
    let mut i: usize = hashes.len();
    while i > 0
        invariant
            i <= hashes@.len(),
            hashes@.len() == names@.len(),
            all == views(names@),
            forall|k: int| 0 <= k < names@.len() ==> hashes@[k] == hash_v10x_spec(#[trigger] names@[k]@),
            last_named(all, h) == last_named(all.subrange(0, i as int), h),
        decreases i,
    {
        let ghost front = all.subrange(0, i as int);
        assert(front.last() == names@[i - 1]@);
        if hashes[i - 1] == h {
            let src = &names[i - 1];
            let n = copy_range(src.as_slice(), 0, src.len());
            assert(src@.subrange(0, src@.len() as int) =~= src@);
            assert(hashes@[i - 1] == hash_v10x_spec(names@[i - 1]@));
            return Some(n);
        }
        assert(front.drop_last() =~= all.subrange(0, i - 1));
        i = i - 1;
    }
    assert(all.subrange(0, 0) =~= Seq::<Seq<u8>>::empty());
    None
}

} // verus!

verus! {

/// Where the records of directory `i` are read: after its record's offset
/// less the file-name length, and after its name where names are included.
pub open spec fn dir_records_start(b: Seq<u8>, v: Version10X, h: HeaderV10X, i: int) -> int {
    let rec = dir_record_at(b, HEADER_END + i * dir_record_size(v), v);
    records_start(b, rec.offset - h.total_file_name_length, has_flag(h.archive_flags, INCLUDE_DIRECTORY_NAMES)).unwrap()
}

/// The name a file with hash `hash` is listed under: the last pool name
/// with that hash where the archive includes file names.
pub open spec fn listed_name(b: Seq<u8>, v: Version10X, h: HeaderV10X, hash: u64) -> Option<Seq<u8>> {
    if has_flag(h.archive_flags, INCLUDE_FILE_NAMES) {
        last_named(pool_names(b, file_names_start(v, h), h.file_count as int), hash)
    } else {
        None
    }
}

/// `f` is what the file record at `p` lists.
pub open spec fn file_listed(b: Seq<u8>, v: Version10X, h: HeaderV10X, p: int, f: BsaFile) -> bool {
    let fr = file_record_at(b, p);
    &&& opt_view(f.name) == listed_name(b, v, h, fr.name_hash)
    &&& f.hash == fr.name_hash
    &&& f.compressed == stored_compressed(h.archive_flags, fr.size & COMPRESSION_BIT == COMPRESSION_BIT)
    &&& f.offset == fr.offset
    &&& f.size == fr.size & SIZE_MASK
}

/// `d` is what directory record `i` and its content block list.
pub open spec fn dir_listed(b: Seq<u8>, v: Version10X, h: HeaderV10X, i: int, d: BsaDir) -> bool {
    let rec = dir_record_at(b, HEADER_END + i * dir_record_size(v), v);
    let at = rec.offset - h.total_file_name_length;
    let first = dir_records_start(b, v, h, i);
    &&& d.hash == rec.name_hash
    &&& d.files@.len() == rec.file_count
    &&& records_start(b, at, has_flag(h.archive_flags, INCLUDE_DIRECTORY_NAMES)) is Some
    &&& (has_flag(h.archive_flags, INCLUDE_DIRECTORY_NAMES) <==> d.name is Some)
    &&& (d.name matches Some(n) ==> crate::strings::bz_parse(b, at) == Some((n@, first)))
    &&& forall|k: int| 0 <= k < d.files@.len() ==> file_listed(b, v, h, first + 16 * k, #[trigger] d.files@[k])
}

/// The position after the embedded name of a data block at `offset`, where the archive embeds names.
pub open spec fn data_start_of(b: Seq<u8>, flags: u32, offset: int) -> Option<int> {
    if has_flag(flags, EMBED_FILE_NAMES) {
        match b_parse(b, offset) {
            Some((_, next)) => Some(next),
            None => None,
        }
    } else {
        Some(offset)
    }
}

/// Whether directory `i`'s content block can be read: its record's offset
/// is past the file-name pool's length, and its name and records lie inside `b`.
pub open spec fn dir_readable(b: Seq<u8>, v: Version10X, h: HeaderV10X, i: int) -> bool {
    let rec = dir_record_at(b, HEADER_END + i * dir_record_size(v), v);
    &&& rec.offset >= h.total_file_name_length
    &&& records_start(
        b,
        rec.offset - h.total_file_name_length,
        has_flag(h.archive_flags, INCLUDE_DIRECTORY_NAMES),
    ) matches Some(f) && f + 16 * rec.file_count <= b.len()
}

/// Whether the directory tree of `b` can be listed: the directory records,
/// the file-name pool where names are included, and every content block lie inside it.
pub open spec fn listable(b: Seq<u8>, v: Version10X, h: HeaderV10X) -> bool {
    &&& HEADER_END + h.dir_count * dir_record_size(v) <= b.len()
    &&& has_flag(h.archive_flags, INCLUDE_FILE_NAMES) ==> file_names_start(v, h) <= b.len()
        && pool_readable(b, file_names_start(v, h), h.file_count as int)
    &&& forall|i: int| 0 <= i < h.dir_count ==> #[trigger] dir_readable(b, v, h, i)
}

/// Whether the data block of `file` lies inside `b`, past its embedded name
/// and, for a compressed file, past its uncompressed-size word.
pub open spec fn block_in_bounds(b: Seq<u8>, flags: u32, file: BsaFile) -> bool {
    let end = file.offset + file.size;
    &&& end <= b.len()
    &&& data_start_of(b, flags, file.offset as int) matches Some(s) && s + (if file.compressed { 4int } else { 0 }) <= end
}

impl BsaReaderV10X {
    /// The directory tree: every directory record with its name and files.
    pub fn list(&self) -> (r: Result<Vec<BsaDir>, BsaError>)
        requires
            self.well_formed(),
        ensures
            r matches Ok(dirs) ==> {
                &&& dirs@.len() == self.header.dir_count
                &&& forall|i: int|
                    0 <= i < dirs@.len() ==> dir_listed(self.bytes@, self.version, self.header, i, #[trigger] dirs@[i])
            },
            r matches Err(e) ==> e == BsaError::BadData,
            r is Ok <==> listable(self.bytes@, self.version, self.header),
    {
        let b = self.bytes.as_slice();
        let v = self.version;
        let h = self.header;
        let rs = DirRecord::size(v);
        let include_dir_names = h.archive_flags & INCLUDE_DIRECTORY_NAMES != 0;
        let mut recs: Vec<DirRecord> = Vec::new();
        let mut pos: usize = 36;
        let blen = b.len();
        let mut i: u32 = 0;
        while i < h.dir_count
            invariant
                blen == b@.len(),
                b@ == self.bytes@,
                h == self.header,
                v == self.version,
                rs == dir_record_size(v),
                recs@.len() == i,
                i <= h.dir_count,
                pos == HEADER_END + i * rs,
                pos <= blen,
                forall|k: int| 0 <= k < i ==> recs@[k] == dir_record_at(b@, HEADER_END + k * rs, v),
            decreases h.dir_count - i,
        {
            let rec = match DirRecord::read_here(b, pos, v) {
                Some(r) => r,
                None => {
                    assert(HEADER_END + h.dir_count * rs > blen) by (nonlinear_arith)
                        requires
                            pos + rs > blen,
                            pos == HEADER_END + i * rs,
                            i < h.dir_count,
                            rs >= 0,
                    ;
                    return Err(BsaError::BadData);
                },
            };
            recs.push(rec);
            pos = pos + rs;
            i = i + 1;
            assert(pos == HEADER_END + i * rs) by (nonlinear_arith)
                requires pos == HEADER_END + (i - 1) * rs + rs;
        }
        let (hashes, names) = if h.archive_flags & INCLUDE_FILE_NAMES != 0 {
            let dn: u64 = if include_dir_names { h.total_dir_name_length as u64 + h.dir_count as u64 } else { 0 };
            let start: u64 = 36 + h.dir_count as u64 * rs as u64 + dn + 16 * h.file_count as u64;
            assert(start == file_names_start(v, h));
            if start > blen as u64 {
                return Err(BsaError::BadData);
            }
            match read_file_names(b, start as usize, h.file_count) {
                Ok(x) => x,
                Err(e) => return Err(e),
            }
        } else {
            (Vec::new(), Vec::new())
        };
        let mut dirs: Vec<BsaDir> = Vec::new();
        let mut i: usize = 0;
        while i < recs.len()
            invariant
                b@ == self.bytes@,
                self.well_formed(),
                v == self.version,
                h == self.header,
                rs == dir_record_size(v),
                recs@.len() == h.dir_count,
                forall|k: int| 0 <= k < recs@.len() ==> recs@[k] == dir_record_at(b@, HEADER_END + k * rs, v),
                include_dir_names == has_flag(h.archive_flags, INCLUDE_DIRECTORY_NAMES),
                hashes@.len() == names@.len(),
                has_flag(h.archive_flags, INCLUDE_FILE_NAMES) ==> views(names@) == pool_names(b@, file_names_start(v, h), h.file_count as int),
                !has_flag(h.archive_flags, INCLUDE_FILE_NAMES) ==> names@.len() == 0,
                forall|k: int| 0 <= k < names@.len() ==> hashes@[k] == hash_v10x_spec(#[trigger] names@[k]@),
                dirs@.len() == i,
                i <= recs@.len(),
                forall|k: int| 0 <= k < i ==> dir_listed(b@, v, h, k, #[trigger] dirs@[k]),
                forall|k: int| 0 <= k < i ==> #[trigger] dir_readable(b@, v, h, k),
                HEADER_END + h.dir_count * dir_record_size(v) <= b@.len(),
                has_flag(h.archive_flags, INCLUDE_FILE_NAMES) ==> file_names_start(v, h) <= b@.len()
                    && pool_readable(b@, file_names_start(v, h), h.file_count as int),
            decreases recs@.len() - i,
        {
            let rec = recs[i];
            if rec.offset < h.total_file_name_length {
                assert(!dir_readable(b@, v, h, i as int));
                return Err(BsaError::BadData);
            }
            let at = (rec.offset - h.total_file_name_length) as usize;
            let (dc, _next) = match DirContentRecord::read_with_param(b, at, include_dir_names, rec.file_count) {
                Ok(x) => x,
                Err(e) => {
                    assert(!dir_readable(b@, v, h, i as int));
                    return Err(e);
                },
            };
            let ghost first = records_start(b@, at as int, include_dir_names).unwrap();
            let mut files: Vec<BsaFile> = Vec::new();
            let mut k: usize = 0;
            while k < dc.files.len()
                invariant
                    b@ == self.bytes@,
                    h == self.header,
                    dc.files@.len() == rec.file_count,
                    forall|j: int| 0 <= j < rec.file_count ==> dc.files@[j] == file_record_at(b@, first + 16 * j),
                    hashes@.len() == names@.len(),
                    has_flag(h.archive_flags, INCLUDE_FILE_NAMES) ==> views(names@) == pool_names(b@, file_names_start(v, h), h.file_count as int),
                !has_flag(h.archive_flags, INCLUDE_FILE_NAMES) ==> names@.len() == 0,
                    forall|j: int| 0 <= j < names@.len() ==> hashes@[j] == hash_v10x_spec(#[trigger] names@[j]@),
                    files@.len() == k,
                    k <= dc.files@.len(),
                    forall|j: int| 0 <= j < k ==> file_listed(b@, v, h, first + 16 * j, #[trigger] files@[j]),
                decreases dc.files@.len() - k,
            {
                let fr = dc.files[k];
                let bit = fr.is_compression_bit_set();
                let compressed = (h.archive_flags & COMPRESSED_ARCHIVE != 0) != bit;
                let name = find_name(&hashes, &names, fr.name_hash);
                let f = BsaFile { hash: fr.name_hash, name, compressed, offset: fr.offset, size: fr.real_size() };
                assert(file_listed(b@, v, h, first + 16 * k, f));
                files.push(f);
                k = k + 1;
            }
            let d = BsaDir { hash: rec.name_hash, name: dc.name, files };
            assert(dir_listed(b@, v, h, i as int, d));
            dirs.push(d);
            i = i + 1;
        }
        Ok(dirs)
    }

    /// The logical bytes of a listed file: its data block without the
    /// embedded name, decompressed where it is stored compressed. A
    /// decompressed length other than the block's uncompressed-size word is
    /// bad data.
    pub fn extract(&self, file: &BsaFile) -> (r: Result<Vec<u8>, BsaError>)
        requires
            self.well_formed(),
        ensures
            r matches Ok(data) ==> {
                let b = self.bytes@;
                let end = file.offset + file.size;
                let start = data_start_of(b, self.header.archive_flags, file.offset as int);
                &&& end <= b.len()
                &&& start is Some
                &&& if file.compressed {
                    &&& start.unwrap() + 4 <= end
                    &&& uncompressed_of(self.version, b.subrange(start.unwrap() + 4, end)) == Some(data@)
                    &&& data@.len() == crate::bin::u32_at(b, start.unwrap())
                } else {
                    start.unwrap() <= end && data@ == b.subrange(start.unwrap(), end)
                }
            },
            r matches Err(e) ==> e == BsaError::BadData,
            !block_in_bounds(self.bytes@, self.header.archive_flags, *file) ==> r is Err,
            !file.compressed ==> (r is Ok <==> block_in_bounds(self.bytes@, self.header.archive_flags, *file)),
            file.compressed && block_in_bounds(self.bytes@, self.header.archive_flags, *file) ==> (r is Ok
                <==> (uncompressed_of(
                self.version,
                self.bytes@.subrange(
                    data_start_of(self.bytes@, self.header.archive_flags, file.offset as int).unwrap() + 4,
                    file.offset + file.size,
                ),
            ) matches Some(d) && d.len() == crate::bin::u32_at(
                self.bytes@,
                data_start_of(self.bytes@, self.header.archive_flags, file.offset as int).unwrap(),
            ))),
    {
        let b = self.bytes.as_slice();
        let end: u64 = file.offset as u64 + file.size as u64;
        if end > b.len() as u64 {
            return Err(BsaError::BadData);
        }
        let end = end as usize;
        let mut start: usize = file.offset as usize;
        if self.header.archive_flags & EMBED_FILE_NAMES != 0 {
            start = match read_bstring(b, start) {
                Ok((_, next)) => next,
                Err(e) => return Err(e),
            };
        }
        if file.compressed {
            if start > end || end - start < 4 {
                return Err(BsaError::BadData);
            }
            let expected = crate::bin::read_u32(b, start).unwrap();
            let packed = copy_range(b, start + 4, end);
            match uncompress(self.version, packed.as_slice()) {
                Some(data) => if data.len() as u64 == expected as u64 {
                    Ok(data)
                } else {
                    Err(BsaError::BadData)
                },
                None => Err(BsaError::BadData),
            }
        } else {
            if start > end {
                return Err(BsaError::BadData);
            }
            Ok(copy_range(b, start, end))
        }
    }
}

} // verus!

verus! {

impl Version10X {
    /// Opens the archive in `bytes`, which must announce this variant.
    pub fn read(&self, bytes: Vec<u8>) -> (r: Result<BsaReaderV10X, BsaError>)
        ensures
            r matches Ok(a) ==> a.well_formed() && a.version == *self && a.bytes@ == bytes@,
            read_outcome(bytes@, *self) is None ==> r is Ok,
            read_outcome(bytes@, *self) matches Some(e) ==> r == Err::<BsaReaderV10X, BsaError>(e),
    {
        match BsaReaderV10X::open(bytes) {
            Ok(a) => if a.version == *self {
                Ok(a)
            } else {
                Err(BsaError::BadData)
            },
            Err(e) => Err(e),
        }
    }
}

/// An opened v001 archive.
pub struct BsaReaderV001 {
    pub bytes: Vec<u8>,
}

impl BsaReaderV001 {
    /// Lists the files of the archive.
    pub fn list(&self) -> (r: Result<Vec<V001Entry>, BsaError>)
        ensures
            r matches Ok(es) ==> forall|i: int|
                0 <= i < es@.len() ==> v001_entry_listed(self.bytes@, u32_at(self.bytes@, 4) as int, es@.len() as int, i, #[trigger] es@[i]),
            r matches Err(e) ==> e == BsaError::BadData,
            r is Ok <==> crate::v001::v001_readable(self.bytes@),
    {
        read_v001(self.bytes.as_slice())
    }

    /// The data of a listed file.
    pub fn extract(&self, e: &V001Entry) -> (r: Result<Vec<u8>, BsaError>)
        ensures
            e.offset + e.size <= self.bytes@.len() ==> (r matches Ok(d) && d@ == self.bytes@.subrange(
                e.offset as int,
                e.offset + e.size,
            )),
            e.offset + e.size > self.bytes@.len() ==> r == Err::<Vec<u8>, BsaError>(BsaError::BadData),
    {
        extract_v001(self.bytes.as_slice(), e)
    }
}

/// A reader for whichever archive kind the bytes announce.
pub enum SomeBsaReader {
    V001(BsaReaderV001),
    V10X(BsaReaderV10X),
}

impl Version {
    /// Opens the archive in `bytes` with the reader of this version; BA2
    /// archives are recognised but not read.
    pub fn read(&self, bytes: Vec<u8>) -> (r: Result<SomeBsaReader, BsaError>)
        ensures
            match *self {
                Version::V001 => r matches Ok(SomeBsaReader::V001(a)) && a.bytes@ == bytes@,
                Version::V10X(x) => {
                    &&& r matches Ok(a) ==> (a matches SomeBsaReader::V10X(a10) && a10.well_formed()
                        && a10.version == x && a10.bytes@ == bytes@)
                    &&& read_outcome(bytes@, x) is None ==> r is Ok
                    &&& read_outcome(bytes@, x) matches Some(e) ==> r == Err::<SomeBsaReader, BsaError>(e)
                },
                Version::V200(_) => r == Err::<SomeBsaReader, BsaError>(BsaError::UnsupportedVersion),
            },
    {
        match self {
            Version::V001 => Ok(SomeBsaReader::V001(BsaReaderV001 { bytes })),
            Version::V10X(x) => match x.read(bytes) {
                Ok(a) => Ok(SomeBsaReader::V10X(a)),
                Err(e) => Err(e),
            },
            Version::V200(_) => Err(BsaError::UnsupportedVersion),
        }
    }
}

/// Opens the archive in `bytes` with the reader of the version it announces.
pub fn open_archive(bytes: Vec<u8>) -> (r: Result<SomeBsaReader, BsaError>)
    ensures
        version_parse(bytes@) matches Err(e) ==> r == Err::<SomeBsaReader, BsaError>(e),
        version_parse(bytes@) matches Ok((Version::V200(_), _)) ==> r == Err::<SomeBsaReader, BsaError>(
            BsaError::UnsupportedVersion,
        ),
        version_parse(bytes@) matches Ok((Version::V001, _)) ==> r matches Ok(SomeBsaReader::V001(a))
            && a.bytes@ == bytes@,
        version_parse(bytes@) matches Ok((Version::V10X(_), _)) ==> match open_outcome(bytes@) {
            Ok(x) => r matches Ok(SomeBsaReader::V10X(a)) && a.well_formed() && a.version == x
                && a.bytes@ == bytes@,
            Err(e) => r == Err::<SomeBsaReader, BsaError>(e),
        },
{
    let v = match Version::read_here(bytes.as_slice()) {
        Ok((v, _)) => v,
        Err(e) => return Err(e),
    };
    v.read(bytes)
}

} // verus!

verus! {

/// A listed file agrees with the file that was written: same hash, the
/// compression that was asked for, and the length of its data block.
pub open spec fn file_matches(v: Version10X, flags: u32, dir: Seq<u8>, f: FileSource, c: Seq<u8>, l: BsaFile) -> bool {
    &&& l.hash == hash_v10x_spec(f.name@)
    &&& l.compressed == effective_compressed(flags, f.compressed)
    &&& l.size == payload(v, flags, dir, f, c).len()
}

/// A listed file carries the written file's lowercase name where the
/// archive includes file names, and no name otherwise.
pub open spec fn name_matches(flags: u32, f: FileSource, l: BsaFile) -> bool {
    opt_view(l.name) == (if has_flag(flags, INCLUDE_FILE_NAMES) {
        Some(lower(f.name@))
    } else {
        None
    })
}

/// Every file of a listed directory carries its written name.
pub open spec fn dir_names_match(flags: u32, d: DirSource, l: BsaDir) -> bool {
    forall|k: int| 0 <= k < d.files@.len() ==> name_matches(flags, d.files@[k], #[trigger] l.files@[k])
}

/// What listing needs to give back file names: names a ZString can hold,
/// and no two different lowercase names sharing a hash.
pub open spec fn names_recoverable(dirs: Seq<DirSource>) -> bool {
    file_names_nul_free(dirs) && names_unambiguous(dirs)
}

/// A listed directory agrees with the directory that was written.
pub open spec fn dir_matches(v: Version10X, flags: u32, d: DirSource, dp: Seq<Seq<u8>>, l: BsaDir) -> bool {
    &&& l.hash == hash_v10x_spec(d.name@)
    &&& opt_view(l.name) == dir_name_part(flags, d)
    &&& l.files@.len() == d.files@.len()
    &&& forall|k: int| 0 <= k < d.files@.len() ==> file_matches(v, flags, d.name@, d.files@[k], dp[k], #[trigger] l.files@[k])
}

proof fn lemma_split3(b: Seq<u8>, lo: int, hi: int)
    requires
        0 <= lo <= hi <= b.len(),
    ensures
        b == b.subrange(0, lo) + b.subrange(lo, hi) + b.subrange(hi, b.len() as int),
        b.subrange(0, lo).len() == lo,
{
    assert(b =~= b.subrange(0, lo) + b.subrange(lo, hi) + b.subrange(hi, b.len() as int));
}

proof fn lemma_open_written(v: Version10X, opts: BsaWriterOptionsV10X, dirs: Seq<DirSource>, packs: Seq<Seq<Seq<u8>>>, r: BsaReaderV10X)
    requires
        r.well_formed(),
        r.bytes@ == archive_bytes(v, opts, dirs, packs),
    ensures
        r.version == v,
        r.header == expected_header(v, opts, dirs),
{
    let flags = written_flags(v, opts);
    let n = dirs.len() as int;
    let vb = version_bytes(Version::V10X(v));
    let eh = expected_header(v, opts, dirs);
    let hb = header_bytes(eh);
    let rest = dir_recs_bytes(v, flags, dirs, n) + contents_bytes(v, flags, dirs, packs, n) + (if has_flag(
        flags,
        INCLUDE_FILE_NAMES,
    ) {
        name_pool(dirs, n)
    } else {
        Seq::empty()
    }) + all_data(v, flags, dirs, packs, n);
    assert(rest == dir_recs_bytes(v, flags, dirs, n) + contents_bytes(v, flags, dirs, packs, n) + (if has_flag(
        flags,
        INCLUDE_FILE_NAMES,
    ) {
        name_pool(dirs, n)
    } else {
        Seq::empty()
    }) + all_data(v, flags, dirs, packs, n));
    let b = r.bytes@;
    let d = dir_recs_bytes(v, flags, dirs, n);
    let c = contents_bytes(v, flags, dirs, packs, n);
    let p = if has_flag(flags, INCLUDE_FILE_NAMES) { name_pool(dirs, n) } else { Seq::empty() };
    let data = all_data(v, flags, dirs, packs, n);
    reveal(archive_bytes);
    assert(b == vb + hb + d + c + p + data);
    crate::write::lemma_six(vb, hb, d, c, p, data);
    crate::version::lemma_version_round_trip(Version::V10X(v), hb + rest);
    let a = opts.archive_flags;
    let m = archive_flag_mask(v);
    let ff = opts.file_flags;
    assert((a & m) & m == a & m) by (bit_vector);
    assert((ff & 0x1ffu16) & 0x1ffu16 == ff & 0x1ffu16) by (bit_vector);
    crate::v10x::lemma_header_round_trip(vb, eh, v, rest);
}

proof fn lemma_dir_round_trip(
    v: Version10X,
    opts: BsaWriterOptionsV10X,
    dirs: Seq<DirSource>, packs: Seq<Seq<Seq<u8>>>,
    r: BsaReaderV10X,
    l: BsaDir,
    j: int,
)
    requires
        !unsupported_flags(written_flags(v, opts)),
        dirs_ok(written_flags(v, opts), dirs),
        payloads_fit(v, written_flags(v, opts), dirs, packs),
        !too_large(v, written_flags(v, opts), dirs, packs),
        r.well_formed(),
        r.bytes@ == archive_bytes(v, opts, dirs, packs),
        0 <= j < dirs.len(),
        dir_listed(r.bytes@, r.version, r.header, j, l),
        names_recoverable(dirs) && has_flag(written_flags(v, opts), INCLUDE_FILE_NAMES) ==> pool_names(
            r.bytes@,
            file_names_start(r.version, r.header),
            r.header.file_count as int,
        ) == written_names(dirs, dirs.len() as int),
    ensures
        dir_matches(v, written_flags(v, opts), dirs[j], packs[j], l),
        names_recoverable(dirs) ==> dir_names_match(written_flags(v, opts), dirs[j], l),
{
    let flags = written_flags(v, opts);
    let n = dirs.len() as int;
    let b = r.bytes@;
    lemma_open_written(v, opts, dirs, packs, r);
    let h = r.header;
    crate::write::lemma_offset_consistency(v, opts, dirs, packs, j);
    crate::write::lemma_name_length_accounting(v, opts, dirs, packs);
    let d = dirs[j];
    assert(dir_ok(flags, d));
    let pos = contents_start(v, dirs) + contents_size(flags, dirs, j);
    let sz = content_size(flags, d);
    let recs = file_recs(v, flags, dirs, packs, j);
    let name = dir_name_part(flags, d);
    lemma_split3(b, pos, pos + sz);
    crate::v10x::lemma_dir_content_round_trip(b.subrange(0, pos), name, recs, b.subrange(pos + sz, b.len() as int));
    let at = dir_record_at(b, HEADER_END + j * dir_record_size(v), v).offset - h.total_file_name_length;
    assert(at == pos);
    let first = dir_records_start(b, v, h, j);
    assert forall|k: int| 0 <= k < d.files@.len() implies file_matches(
        v,
        flags,
        d.name@,
        d.files@[k],
        packs[j][k],
        #[trigger] l.files@[k],
    ) && (names_recoverable(dirs) ==> name_matches(flags, d.files@[k], l.files@[k])) by {
        assert(file_record_at(b, first + 16 * k) == recs[k]);
        assert(file_listed(b, r.version, h, first + 16 * k, l.files@[k]));
        lemma_file_round_trip(v, flags, dirs, packs, j, k, b, h, first + 16 * k, l.files@[k]);
    }
}

proof fn lemma_file_round_trip(
    v: Version10X,
    flags: u32,
    dirs: Seq<DirSource>, packs: Seq<Seq<Seq<u8>>>,
    j: int,
    k: int,
    b: Seq<u8>,
    h: HeaderV10X,
    p: int,
    lf: BsaFile,
)
    requires
        0 <= j < dirs.len(),
        0 <= k < dirs[j].files@.len(),
        payloads_fit(v, flags, dirs, packs),
        h.archive_flags == flags,
        file_record_at(b, p) == crate::write::file_rec(v, flags, dirs, packs, j, k),
        file_listed(b, v, h, p, lf),
        names_recoverable(dirs) && has_flag(flags, INCLUDE_FILE_NAMES) ==> pool_names(
            b,
            file_names_start(v, h),
            h.file_count as int,
        ) == written_names(dirs, dirs.len() as int),
    ensures
        file_matches(v, flags, dirs[j].name@, dirs[j].files@[k], packs[j][k], lf),
        names_recoverable(dirs) ==> name_matches(flags, dirs[j].files@[k], lf),
{
    let f = dirs[j].files@[k];
    let len = payload(v, flags, dirs[j].name@, f, packs[j][k]).len();
    assert(len < COMPRESSION_BIT);
    crate::write::lemma_override_round_trip(flags, f.compressed, len as u32);
    if has_flag(flags, INCLUDE_FILE_NAMES) && names_recoverable(dirs) {
        let n = dirs.len() as int;
        let w = written_names(dirs, n);
        let m = file_count(dirs, j) + k;
        crate::write::lemma_written_name_at(dirs, j, k, n);
        crate::write::lemma_names_nonneg(dirs, j);
        crate::hash::lemma_hash_ignores_case_and_separator(lower(f.name@), f.name@);
        lemma_last_named_at(w, m);
    }
}

/// Writing an archive and listing it gives back the tree that was written:
/// the same directories in the same order, each with its hash and its
/// lowercase name where names are included, and its files in order with
/// their hashes, their lowercase names where names are included, the
/// compression each was written with and the length of each data block.
/// File names come back where they hold no NUL bytes and no two different
/// ones share a hash, since the reader finds a file's name by its hash.
pub proof fn lemma_write_list_round_trip(
    v: Version10X,
    opts: BsaWriterOptionsV10X,
    dirs: Seq<DirSource>, packs: Seq<Seq<Seq<u8>>>,
    r: BsaReaderV10X,
    listing: Seq<BsaDir>,
)
    requires
        !unsupported_flags(written_flags(v, opts)),
        dirs_ok(written_flags(v, opts), dirs),
        payloads_fit(v, written_flags(v, opts), dirs, packs),
        !too_large(v, written_flags(v, opts), dirs, packs),
        r.well_formed(),
        r.bytes@ == archive_bytes(v, opts, dirs, packs),
        listing.len() == r.header.dir_count,
        forall|i: int| 0 <= i < listing.len() ==> dir_listed(r.bytes@, r.version, r.header, i, #[trigger] listing[i]),
    ensures
        r.version == v,
        r.header == expected_header(v, opts, dirs),
        listing.len() == dirs.len(),
        forall|j: int| 0 <= j < dirs.len() ==> dir_matches(v, written_flags(v, opts), dirs[j], packs[j], #[trigger] listing[j]),
        names_recoverable(dirs) ==> forall|j: int|
            0 <= j < dirs.len() ==> dir_names_match(written_flags(v, opts), dirs[j], #[trigger] listing[j]),
{
    lemma_open_written(v, opts, dirs, packs, r);
    crate::write::lemma_name_length_accounting(v, opts, dirs, packs);
    if has_flag(written_flags(v, opts), INCLUDE_FILE_NAMES) && names_recoverable(dirs) {
        lemma_pool_written(v, opts, dirs, packs, r);
    }
    assert forall|j: int| 0 <= j < dirs.len() implies dir_matches(v, written_flags(v, opts), dirs[j], packs[j], #[trigger] listing[j])
        && (names_recoverable(dirs) ==> dir_names_match(written_flags(v, opts), dirs[j], listing[j])) by {
        lemma_dir_round_trip(v, opts, dirs, packs, r, listing[j], j);
    }
}

} // verus!

verus! {

proof fn lemma_zconcat_front(l: Seq<Seq<u8>>)
    requires
        l.len() > 0,
    ensures
        zconcat(l) == crate::strings::z_bytes(l[0]) + zconcat(l.drop_first()),
    decreases l.len(),
{
    if l.len() == 1 {
        assert(l.drop_last() =~= Seq::<Seq<u8>>::empty());
        assert(l.drop_first() =~= Seq::<Seq<u8>>::empty());
        assert(zconcat(l) =~= crate::strings::z_bytes(l[0]) + zconcat(l.drop_first()));
    } else {
        lemma_zconcat_front(l.drop_last());
        assert(l.drop_last().drop_first() =~= l.drop_first().drop_last());
        assert(l.drop_first().last() == l.last());
        assert(zconcat(l) =~= crate::strings::z_bytes(l[0]) + zconcat(l.drop_first()));
    }
}

/// NUL-free names written as consecutive ZStrings read back as themselves.
proof fn lemma_pool_parse(b: Seq<u8>, pos: int, l: Seq<Seq<u8>>)
    requires
        0 <= pos,
        pos + zconcat(l).len() <= b.len(),
        b.subrange(pos, pos + zconcat(l).len()) == zconcat(l),
        forall|i: int| 0 <= i < l.len() ==> crate::strings::has_no_nul(#[trigger] l[i]),
    ensures
        pool_names(b, pos, l.len() as int) == l,
    decreases l.len(),
{
    if l.len() == 0 {
        assert(pool_names(b, pos, 0) =~= l);
    } else {
        lemma_zconcat_front(l);
        let s = l[0];
        let rest = l.drop_first();
        let z = zconcat(l);
        let e = pos + s.len();
        assert(z[s.len() as int] == 0);
        assert(b[e] == z[s.len() as int]);
        assert(b.subrange(pos, e) =~= z.subrange(0, s.len() as int));
        assert(z.subrange(0, s.len() as int) =~= s);
        assert(crate::strings::has_no_nul(l[0]));
        assert(is_first_nul(b, pos, e));
        let k = choose|k: int| is_first_nul(b, pos, k);
        lemma_first_nul_unique(b, pos, k, e);
        assert(zstring_end(b, pos) == Some(e));
        assert(b.subrange(e + 1, e + 1 + zconcat(rest).len()) =~= zconcat(rest)) by {
            assert forall|i: int| 0 <= i < zconcat(rest).len() implies b.subrange(e + 1, e + 1 + zconcat(rest).len())[i]
                == zconcat(rest)[i] by {
                assert(b[e + 1 + i] == z[s.len() + 1 + i]);
            }
        }
        assert forall|i: int| 0 <= i < rest.len() implies crate::strings::has_no_nul(#[trigger] rest[i]) by {
            assert(rest[i] == l[i + 1]);
        }
        lemma_pool_parse(b, e + 1, rest);
        assert(pool_names(b, pos, l.len() as int) =~= seq![s] + rest);
    }
}

/// With no two different names sharing a hash, the last name with the hash
/// of name `m` is name `m`.
proof fn lemma_last_named_at(l: Seq<Seq<u8>>, m: int)
    requires
        0 <= m < l.len(),
        forall|i: int| 0 <= i < l.len() && hash_v10x_spec(#[trigger] l[i]) == hash_v10x_spec(l[m]) ==> l[i] == l[m],
    ensures
        last_named(l, hash_v10x_spec(l[m])) == Some(l[m]),
    decreases l.len(),
{
    if hash_v10x_spec(l.last()) != hash_v10x_spec(l[m]) {
        let t = l.drop_last();
        assert(t[m] == l[m]);
        assert forall|i: int| 0 <= i < t.len() && hash_v10x_spec(#[trigger] t[i]) == hash_v10x_spec(t[m]) implies t[i]
            == t[m] by {
            assert(t[i] == l[i]);
        }
        lemma_last_named_at(t, m);
    }
}

} // verus!

verus! {

/// File names that a ZString can hold: no NUL bytes.
pub open spec fn file_names_nul_free(dirs: Seq<DirSource>) -> bool {
    forall|j: int, k: int|
        0 <= j < dirs.len() && 0 <= k < dirs[j].files@.len() ==> crate::strings::has_no_nul(
            #[trigger] dirs[j].files@[k].name@,
        )
}

/// No two different lowercase file names of the archive share a hash, so a
/// hash tells which name it belongs to.
pub open spec fn names_unambiguous(dirs: Seq<DirSource>) -> bool {
    let w = written_names(dirs, dirs.len() as int);
    forall|i: int, i2: int|
        0 <= i < w.len() && 0 <= i2 < w.len() && hash_v10x_spec(#[trigger] w[i]) == hash_v10x_spec(#[trigger] w[i2])
            ==> w[i] == w[i2]
}

proof fn lemma_written_nul_free(dirs: Seq<DirSource>, j: int)
    requires
        0 <= j <= dirs.len(),
        file_names_nul_free(dirs),
    ensures
        forall|i: int| 0 <= i < written_names(dirs, j).len() ==> crate::strings::has_no_nul(
            #[trigger] written_names(dirs, j)[i],
        ),
    decreases j,
{
    if j > 0 {
        lemma_written_nul_free(dirs, j - 1);
        crate::write::lemma_name_pool_flat(dirs, j - 1);
        let fs = dirs[j - 1].files@;
        crate::write::lemma_dir_pool_flat(fs, fs.len() as int);
        let w = written_names(dirs, j);
        let w0 = written_names(dirs, j - 1);
        assert forall|i: int| 0 <= i < w.len() implies crate::strings::has_no_nul(#[trigger] w[i]) by {
            if i >= w0.len() {
                let k = i - w0.len();
                assert(w[i] == lower(fs[k].name@));
                assert(crate::strings::has_no_nul(fs[k].name@));
                assert forall|q: int| 0 <= q < w[i].len() implies w[i][q] != 0 by {
                    assert(fs[k].name@[q] != 0);
                }
            } else {
                assert(w[i] == w0[i]);
            }
        }
    }
}

proof fn lemma_group4(a: Seq<u8>, b: Seq<u8>, c: Seq<u8>, d: Seq<u8>, e: Seq<u8>, f: Seq<u8>)
    ensures
        a + b + c + d + e + f == (a + b + c + d) + e + f,
        (a + b + c + d + e + f).subrange((a + b + c + d).len() as int, ((a + b + c + d).len() + e.len()) as int) == e,
{
    assert(a + b + c + d + e + f =~= (a + b + c + d) + e + f);
    assert((a + b + c + d + e + f).subrange((a + b + c + d).len() as int, ((a + b + c + d).len() + e.len()) as int) =~= e);
}

/// Where the reader looks for the pool of a written archive.
proof fn lemma_pool_start(v: Version10X, opts: BsaWriterOptionsV10X, dirs: Seq<DirSource>, packs: Seq<Seq<Seq<u8>>>)
    requires
        !too_large(v, written_flags(v, opts), dirs, packs),
    ensures
        file_names_start(v, expected_header(v, opts, dirs)) == HEADER_END + dirs.len() * dir_record_size(v)
            + contents_size(written_flags(v, opts), dirs, dirs.len() as int),
{
    let flags = written_flags(v, opts);
    let n = dirs.len() as int;
    crate::write::lemma_contents_size_split(flags, dirs, n);
    crate::write::lemma_name_length_accounting(v, opts, dirs, packs);
    crate::write::lemma_names_nonneg(dirs, n);
}

/// The bytes before the pool of a written archive.
proof fn lemma_front_len(v: Version10X, opts: BsaWriterOptionsV10X, dirs: Seq<DirSource>, packs: Seq<Seq<Seq<u8>>>)
    ensures
        (version_bytes(Version::V10X(v)) + header_bytes(expected_header(v, opts, dirs)) + dir_recs_bytes(
            v,
            written_flags(v, opts),
            dirs,
            dirs.len() as int,
        ) + contents_bytes(v, written_flags(v, opts), dirs, packs, dirs.len() as int)).len() == HEADER_END
            + dirs.len() * dir_record_size(v) + contents_size(written_flags(v, opts), dirs, dirs.len() as int),
{
    let flags = written_flags(v, opts);
    let n = dirs.len() as int;
    let hb = header_bytes(expected_header(v, opts, dirs));
    assert(hb.len() == 28);
    crate::write::lemma_dir_recs_len(v, flags, dirs, n);
    crate::write::lemma_contents_prefix(v, flags, dirs, packs, n, n);
}

/// The pool of a written archive lists the written names, lowercase, in order.
proof fn lemma_pool_written(v: Version10X, opts: BsaWriterOptionsV10X, dirs: Seq<DirSource>, packs: Seq<Seq<Seq<u8>>>, r: BsaReaderV10X)
    requires
        !too_large(v, written_flags(v, opts), dirs, packs),
        has_flag(written_flags(v, opts), INCLUDE_FILE_NAMES),
        file_names_nul_free(dirs),
        r.well_formed(),
        r.bytes@ == archive_bytes(v, opts, dirs, packs),
    ensures
        pool_names(r.bytes@, file_names_start(r.version, r.header), r.header.file_count as int)
            == written_names(dirs, dirs.len() as int),
{
    let flags = written_flags(v, opts);
    let n = dirs.len() as int;
    lemma_open_written(v, opts, dirs, packs, r);
    let x = version_bytes(Version::V10X(v)) + header_bytes(expected_header(v, opts, dirs)) + dir_recs_bytes(
        v,
        flags,
        dirs,
        n,
    ) + contents_bytes(v, flags, dirs, packs, n);
    let p = name_pool(dirs, n);
    let data = all_data(v, flags, dirs, packs, n);
    let b = r.bytes@;
    lemma_bytes_parts(v, opts, dirs, packs);
    lemma_front_len(v, opts, dirs, packs);
    lemma_pool_start(v, opts, dirs, packs);
    crate::write::lemma_name_pool_flat(dirs, n);
    crate::write::lemma_name_length_accounting(v, opts, dirs, packs);
    lemma_written_nul_free(dirs, n);
    lemma_pool_parse(b, x.len() as int, written_names(dirs, n));
}

proof fn lemma_bytes_parts(v: Version10X, opts: BsaWriterOptionsV10X, dirs: Seq<DirSource>, packs: Seq<Seq<Seq<u8>>>)
    requires
        has_flag(written_flags(v, opts), INCLUDE_FILE_NAMES),
    ensures
        ({
            let flags = written_flags(v, opts);
            let n = dirs.len() as int;
            let x = version_bytes(Version::V10X(v)) + header_bytes(expected_header(v, opts, dirs))
                + dir_recs_bytes(v, flags, dirs, n) + contents_bytes(v, flags, dirs, packs, n);
            let p = name_pool(dirs, n);
            &&& x.len() + p.len() <= archive_bytes(v, opts, dirs, packs).len()
            &&& archive_bytes(v, opts, dirs, packs).subrange(x.len() as int, (x.len() + p.len()) as int) == p
        }),
{
    let flags = written_flags(v, opts);
    let n = dirs.len() as int;
    let vb = version_bytes(Version::V10X(v));
    let hb = header_bytes(expected_header(v, opts, dirs));
    let d = dir_recs_bytes(v, flags, dirs, n);
    let c = contents_bytes(v, flags, dirs, packs, n);
    let p = name_pool(dirs, n);
    let data = all_data(v, flags, dirs, packs, n);
    reveal(archive_bytes);
    assert(archive_bytes(v, opts, dirs, packs) == vb + hb + d + c + p + data);
    lemma_group4(vb, hb, d, c, p, data);
}

} // verus!

verus! {

#[verifier::rlimit(100)]
proof fn lemma_written_dir_readable(v: Version10X, opts: BsaWriterOptionsV10X, dirs: Seq<DirSource>, packs: Seq<Seq<Seq<u8>>>, r: BsaReaderV10X, j: int)
    requires
        dirs_ok(written_flags(v, opts), dirs),
        !too_large(v, written_flags(v, opts), dirs, packs),
        r.well_formed(),
        r.bytes@ == archive_bytes(v, opts, dirs, packs),
        0 <= j < dirs.len(),
    ensures
        dir_readable(r.bytes@, r.version, r.header, j),
        HEADER_END + dirs.len() * dir_record_size(v) <= r.bytes@.len(),
{
    let flags = written_flags(v, opts);
    let b = r.bytes@;
    lemma_open_written(v, opts, dirs, packs, r);
    let h = r.header;
    crate::write::lemma_offset_consistency(v, opts, dirs, packs, j);
    crate::write::lemma_name_length_accounting(v, opts, dirs, packs);
    crate::write::lemma_contents_mono(flags, dirs, 0, j);
    let d = dirs[j];
    assert(dir_ok(flags, d));
    let pos = contents_start(v, dirs) + contents_size(flags, dirs, j);
    let sz = content_size(flags, d);
    let recs = file_recs(v, flags, dirs, packs, j);
    let name = dir_name_part(flags, d);
    lemma_split3(b, pos, pos + sz);
    crate::v10x::lemma_dir_content_round_trip(b.subrange(0, pos), name, recs, b.subrange(pos + sz, b.len() as int));
    crate::v10x::lemma_file_records_len(recs);
}

proof fn lemma_pool_names_readable(b: Seq<u8>, pos: int, count: int)
    requires
        pool_names(b, pos, count).len() == count,
    ensures
        pool_readable(b, pos, count),
    decreases count,
{
    if count > 0 {
        if let Some(k) = zstring_end(b, pos) {
            lemma_pool_names_readable(b, k + 1, count - 1);
        }
    }
}

/// An archive that the writer produced can be listed; where it includes file
/// names, those names are taken without NUL bytes.
pub proof fn lemma_written_listable(v: Version10X, opts: BsaWriterOptionsV10X, dirs: Seq<DirSource>, packs: Seq<Seq<Seq<u8>>>, r: BsaReaderV10X)
    requires
        dirs_ok(written_flags(v, opts), dirs),
        !too_large(v, written_flags(v, opts), dirs, packs),
        has_flag(written_flags(v, opts), INCLUDE_FILE_NAMES) ==> file_names_nul_free(dirs),
        r.well_formed(),
        r.bytes@ == archive_bytes(v, opts, dirs, packs),
    ensures
        listable(r.bytes@, r.version, r.header),
{
    let flags = written_flags(v, opts);
    let n = dirs.len() as int;
    lemma_open_written(v, opts, dirs, packs, r);
    crate::write::lemma_name_length_accounting(v, opts, dirs, packs);
    if n > 0 {
        lemma_written_dir_readable(v, opts, dirs, packs, r, 0);
    }
    assert forall|i: int| 0 <= i < r.header.dir_count implies #[trigger] dir_readable(r.bytes@, r.version, r.header, i) by {
        lemma_written_dir_readable(v, opts, dirs, packs, r, i);
    }
    if has_flag(flags, INCLUDE_FILE_NAMES) {
        lemma_pool_written(v, opts, dirs, packs, r);
        lemma_bytes_parts(v, opts, dirs, packs);
        lemma_front_len(v, opts, dirs, packs);
        lemma_pool_start(v, opts, dirs, packs);
        crate::write::lemma_name_pool_flat(dirs, n);
        lemma_pool_names_readable(r.bytes@, file_names_start(r.version, r.header), r.header.file_count as int);
    }
}

} // verus!

verus! {

/// Where a listed file with the given directory and file names is: the
/// first directory with the directory name's hash that holds a file with the
/// file name's hash.
pub fn find_file(dirs: &Vec<BsaDir>, dir_name: &[u8], file_name: &[u8]) -> (r: Option<(usize, usize)>)
    ensures
        match r {
            Some((i, k)) => i < dirs@.len() && k < dirs@[i as int].files@.len()
                && dirs@[i as int].hash == hash_v10x_spec(dir_name@)
                && dirs@[i as int].files@[k as int].hash == hash_v10x_spec(file_name@),
            None => forall|i: int, k: int|
                0 <= i < dirs@.len() && 0 <= k < dirs@[i].files@.len() ==> !(dirs@[i].hash == hash_v10x_spec(dir_name@)
                    && (#[trigger] dirs@[i].files@[k]).hash == hash_v10x_spec(file_name@)),
        },
{
    let dh = hash_v10x(dir_name);
    let fh = hash_v10x(file_name);
    let mut i: usize = 0;
    while i < dirs.len()
        invariant
            i <= dirs@.len(),
            dh == hash_v10x_spec(dir_name@),
            fh == hash_v10x_spec(file_name@),
            forall|a: int, k: int|
                0 <= a < i && 0 <= k < dirs@[a].files@.len() ==> !(dirs@[a].hash == dh && (#[trigger] dirs@[a].files@[k]).hash == fh),
        decreases dirs@.len() - i,
    {
        let d = &dirs[i];
        if d.hash == dh {
            let mut k: usize = 0;
            while k < d.files.len()
                invariant
                    k <= d.files@.len(),
                    i < dirs@.len(),
                    d == dirs@[i as int],
                    d.hash == dh,
                    dh == hash_v10x_spec(dir_name@),
                    fh == hash_v10x_spec(file_name@),
                    forall|q: int| 0 <= q < k ==> (#[trigger] d.files@[q]).hash != fh,
                decreases d.files@.len() - k,
            {
                if d.files[k].hash == fh {
                    return Some((i, k));
                }
                k = k + 1;
            }
        }
        i = i + 1;
    }
    None
}

} // verus!

verus! {

/// A written file's data block, read as extraction reads it, holds the
/// file's data: after the embedded name, either the data itself or its
/// length and a compressed form that the variant's decoder turns back into it.
pub proof fn lemma_extract_written(
    v: Version10X,
    opts: BsaWriterOptionsV10X,
    dirs: Seq<DirSource>,
    packs: Seq<Seq<Seq<u8>>>,
    j: int,
    k: int,
)
    requires
        dirs_ok(written_flags(v, opts), dirs),
        packs_ok(v, written_flags(v, opts), dirs, packs),
        !too_large(v, written_flags(v, opts), dirs, packs),
        payloads_fit(v, written_flags(v, opts), dirs, packs),
        0 <= j < dirs.len(),
        0 <= k < dirs[j].files@.len(),
    ensures
        ({
            let flags = written_flags(v, opts);
            let b = archive_bytes(v, opts, dirs, packs);
            let rec = crate::write::file_rec(v, flags, dirs, packs, j, k);
            let f = dirs[j].files@[k];
            let end = rec.offset + (rec.size & SIZE_MASK);
            &&& end <= b.len()
            &&& data_start_of(b, flags, rec.offset as int) matches Some(s) && (if effective_compressed(
                flags,
                f.compressed,
            ) {
                &&& s + 4 <= end
                &&& crate::bin::u32_at(b, s) == f.data@.len()
                &&& uncompressed_of(v, b.subrange(s + 4, end)) == Some(f.data@)
            } else {
                s <= end && b.subrange(s, end) == f.data@
            })
        }),
{
    let flags = written_flags(v, opts);
    let b = archive_bytes(v, opts, dirs, packs);
    let rec = crate::write::file_rec(v, flags, dirs, packs, j, k);
    let f = dirs[j].files@[k];
    let c = packs[j][k];
    crate::write::lemma_data_block_at_offset(v, opts, dirs, packs, j, k);
    let blk = payload(v, flags, dirs[j].name@, f, c);
    let off = rec.offset as int;
    let end = off + blk.len();
    assert(dir_ok(flags, dirs[j]));
    assert(f.data@.len() <= u32::MAX);
    assert(pack_ok(v, flags, f, c));
    let e = if has_flag(flags, EMBED_FILE_NAMES) {
        crate::strings::b_bytes(crate::write::embedded_path(dirs[j].name@, f.name@))
    } else {
        Seq::<u8>::empty()
    };
    let body = if effective_compressed(flags, f.compressed) {
        crate::bin::u32_le(f.data@.len() as u32) + c
    } else {
        f.data@
    };
    assert(blk == e + body);
    lemma_split3(b, off, end);
    let x = b.subrange(0, off);
    let y = b.subrange(end, b.len() as int);
    assert(b == x + (e + body) + y);
    assert(b =~= x + e + (body + y));
    let s = off + e.len();
    if has_flag(flags, EMBED_FILE_NAMES) {
        crate::strings::lemma_b_round_trip(x, crate::write::embedded_path(dirs[j].name@, f.name@), body + y);
    }
    assert(data_start_of(b, flags, off) == Some(s));
    assert(b =~= (x + e) + body + y);
    if effective_compressed(flags, f.compressed) {
        assert(b =~= (x + e) + crate::bin::u32_le(f.data@.len() as u32) + (c + y));
        crate::v10x::lemma_u32_part(x + e, f.data@.len() as u32, c + y);
        assert(b.subrange(s + 4, end) =~= c);
    } else {
        assert(b.subrange(s, end) =~= f.data@);
    }
}

} // verus!

//! The v001 (Morrowind) archive: a flat list of files with no compression.
//!
//! Layout: a 12-byte header (magic, hash-table offset, file count), then a
//! (size, offset) pair per file, a name offset per file, the names as
//! ZStrings, a hash per file, and the file data. The hash-table offset and
//! the name offsets count from the end of the header and from the start of
//! the names; data offsets count from the start of the data.
use vstd::prelude::*;
use crate::bin::{u32_le, u64_le, u32_at, u64_at, push_u32, push_u64, push_bytes, read_u32, read_u64};
use crate::error::BsaError;
use crate::hash::{hash_v001, hash_v001_spec, normalize, normalize_name};
use crate::strings::{z_bytes, is_first_nul, push_zstring, read_zstring, copy_range};
use crate::version::MAGIC_V001;
use crate::write::FileSource;

verus! {

/// The size of the v001 header.
pub const V001_HEADER: u32 = 12;

/// The sum of `name length + 1` over the first `k` files.
pub open spec fn names_len(files: Seq<FileSource>, k: int) -> int
    decreases k,
{
    if k <= 0 {
        0
    } else {
        names_len(files, k - 1) + files[k - 1].name@.len() + 1
    }
}

/// The sum of the data lengths of the first `k` files.
pub open spec fn data_len(files: Seq<FileSource>, k: int) -> int
    decreases k,
{
    if k <= 0 {
        0
    } else {
        data_len(files, k - 1) + files[k - 1].data@.len()
    }
}

/// The (size, offset) pairs of the first `k` files.
pub open spec fn table_bytes(files: Seq<FileSource>, k: int) -> Seq<u8>
    decreases k,
{
    if k <= 0 {
        Seq::empty()
    } else {
        table_bytes(files, k - 1) + u32_le(files[k - 1].data@.len() as u32) + u32_le(
            data_len(files, k - 1) as u32,
        )
    }
}

pub open spec fn name_offsets_bytes(files: Seq<FileSource>, k: int) -> Seq<u8>
    decreases k,
{
    if k <= 0 {
        Seq::empty()
    } else {
        name_offsets_bytes(files, k - 1) + u32_le(names_len(files, k - 1) as u32)
    }
}

/// The names, lowercase with `\` separators, each with its NUL.
pub open spec fn names_bytes(files: Seq<FileSource>, k: int) -> Seq<u8>
    decreases k,
{
    if k <= 0 {
        Seq::empty()
    } else {
        names_bytes(files, k - 1) + z_bytes(normalize(files[k - 1].name@))
    }
}

pub open spec fn hashes_bytes(files: Seq<FileSource>, k: int) -> Seq<u8>
    decreases k,
{
    if k <= 0 {
        Seq::empty()
    } else {
        hashes_bytes(files, k - 1) + u64_le(hash_v001_spec(files[k - 1].name@))
    }
}

pub open spec fn data_bytes(files: Seq<FileSource>, k: int) -> Seq<u8>
    decreases k,
{
    if k <= 0 {
        Seq::empty()
    } else {
        data_bytes(files, k - 1) + files[k - 1].data@
    }
}

/// Where the hash table starts, counted from the end of the header.
pub open spec fn hash_offset(files: Seq<FileSource>) -> int {
    12 * files.len() + names_len(files, files.len() as int)
}

/// The length of the whole archive.
pub open spec fn v001_size(files: Seq<FileSource>) -> int {
    V001_HEADER + hash_offset(files) + 8 * files.len() + data_len(files, files.len() as int)
}

/// The v001 archive that `files` make, byte for byte, in the order given.
#[verifier::opaque]
pub open spec fn v001_bytes(files: Seq<FileSource>) -> Seq<u8> {
    let n = files.len() as int;
    u32_le(MAGIC_V001) + u32_le(hash_offset(files) as u32) + u32_le(n as u32) + table_bytes(files, n)
        + name_offsets_bytes(files, n) + names_bytes(files, n) + hashes_bytes(files, n) + data_bytes(
        files,
        n,
    )
}

proof fn lemma_names_len_mono(files: Seq<FileSource>, i: int, j: int)
    requires
        0 <= i <= j,
    ensures
        0 <= names_len(files, i) <= names_len(files, j),
    decreases j,
{
    if i < j {
        lemma_names_len_mono(files, i, j - 1);
    } else if j > 0 {
        lemma_names_len_mono(files, j - 1, j - 1);
    }
}

proof fn lemma_data_len_mono(files: Seq<FileSource>, i: int, j: int)
    requires
        0 <= i <= j,
    ensures
        0 <= data_len(files, i) <= data_len(files, j),
    decreases j,
{
    if i < j {
        lemma_data_len_mono(files, i, j - 1);
    } else if j > 0 {
        lemma_data_len_mono(files, j - 1, j - 1);
    }
}

const SATURATED: u64 = 0x1_0000_0000;

/// Writes the v001 archive that `files` make; refuses one whose offsets do not fit 32 bits.
pub fn write_v001(files: &Vec<FileSource>) -> (r: Result<Vec<u8>, BsaError>)
    ensures
        v001_size(files@) <= u32::MAX ==> (r matches Ok(b) && b@ == v001_bytes(files@)),
        v001_size(files@) > u32::MAX ==> r == Err::<Vec<u8>, BsaError>(BsaError::BadInput),
{
    let ghost fs = files@;
    let ghost n = fs.len() as int;
    // Sizes, held at SATURATED once they reach it.
    let mut nl: u64 = 0;
    let mut dl: u64 = 0;
    let mut i: usize = 0;
    while i < files.len()
        invariant
            fs == files@,
            n == fs.len(),
            i <= n,
            nl == (if names_len(fs, i as int) >= SATURATED { SATURATED as int } else { names_len(fs, i as int) }),
            dl == (if data_len(fs, i as int) >= SATURATED { SATURATED as int } else { data_len(fs, i as int) }),
        decreases n - i,
    {
        proof {
            lemma_names_len_mono(fs, i as int, i as int);
            lemma_data_len_mono(fs, i as int, i as int);
        }
        let name_len = files[i].name.len() as u64;
        nl = if name_len >= SATURATED - nl { SATURATED } else if nl + name_len + 1 >= SATURATED { SATURATED } else { nl + name_len + 1 };
        let data_len_i = files[i].data.len() as u64;
        dl = if data_len_i >= SATURATED - dl { SATURATED } else { dl + data_len_i };
        i = i + 1;
    }
    proof {
        lemma_names_len_mono(fs, 0, n);
        lemma_data_len_mono(fs, 0, n);
    }
    if files.len() as u64 >= SATURATED || nl >= SATURATED || dl >= SATURATED {
        return Err(BsaError::BadInput);
    }
    let count = files.len() as u64;
    let total: u64 = 12 + 20 * count + nl + dl;
    if total > u32::MAX as u64 {
        return Err(BsaError::BadInput);
    }
    let mut out: Vec<u8> = Vec::new();
    push_u32(&mut out, MAGIC_V001);
    push_u32(&mut out, (12 * count + nl) as u32);
    push_u32(&mut out, count as u32);
    let ghost pre = out@;
    let mut off: u64 = 0;
    let mut i: usize = 0;
    while i < files.len()
        invariant
            fs == files@,
            n == fs.len(),
            i <= n,
            data_len(fs, n) <= u32::MAX,
            off == data_len(fs, i as int),
            out@ == pre + table_bytes(fs, i as int),
        decreases n - i,
    {
        proof {
            lemma_data_len_mono(fs, i as int + 1, n);
        }
        push_u32(&mut out, files[i].data.len() as u32);
        push_u32(&mut out, off as u32);
        off = off + files[i].data.len() as u64;
        i = i + 1;
    }
    let ghost pre2 = out@;
    let mut noff: u64 = 0;
    let mut i: usize = 0;
    while i < files.len()
        invariant
            fs == files@,
            n == fs.len(),
            i <= n,
            names_len(fs, n) <= u32::MAX,
            noff == names_len(fs, i as int),
            out@ == pre2 + name_offsets_bytes(fs, i as int),
        decreases n - i,
    {
        proof {
            lemma_names_len_mono(fs, i as int + 1, n);
        }
        push_u32(&mut out, noff as u32);
        noff = noff + files[i].name.len() as u64 + 1;
        i = i + 1;
    }
    let ghost pre3 = out@;
    let mut i: usize = 0;
    while i < files.len()
        invariant
            fs == files@,
            n == fs.len(),
            i <= n,
            out@ == pre3 + names_bytes(fs, i as int),
        decreases n - i,
    {
        let name = normalize_name(files[i].name.as_slice());
        push_zstring(&mut out, name.as_slice());
        i = i + 1;
    }
    let ghost pre4 = out@;
    let mut i: usize = 0;
    while i < files.len()
        invariant
            fs == files@,
            n == fs.len(),
            i <= n,
            out@ == pre4 + hashes_bytes(fs, i as int),
        decreases n - i,
    {
        push_u64(&mut out, hash_v001(files[i].name.as_slice()));
        i = i + 1;
    }
    let ghost pre5 = out@;
    let mut i: usize = 0;
    while i < files.len()
        invariant
            fs == files@,
            n == fs.len(),
            i <= n,
            out@ == pre5 + data_bytes(fs, i as int),
        decreases n - i,
    {
        push_bytes(&mut out, files[i].data.as_slice());
        i = i + 1;
    }
    proof {
        reveal(v001_bytes);
    }
    assert(out@ =~= v001_bytes(fs));
    Ok(out)
}

} // verus!

verus! {

/// A file listed in a v001 archive: its hash, its name, and where its data is
/// in the archive and how long it is.
#[derive(Debug, Clone, PartialEq, Eq)]
pub struct V001Entry {
    pub hash: u64,
    pub name: Vec<u8>,
    pub offset: u32,
    pub size: u32,
}

/// `e` is what the tables of the v001 archive `b` say of file `i`, given the
/// header's hash-table offset `ho` and file count `n`.
pub open spec fn v001_entry_listed(b: Seq<u8>, ho: int, n: int, i: int, e: V001Entry) -> bool {
    let names_start = V001_HEADER + 12 * n;
    let at = names_start + u32_at(b, V001_HEADER + 8 * n + 4 * i);
    &&& e.size == u32_at(b, V001_HEADER + 8 * i)
    &&& e.offset == V001_HEADER + ho + 8 * n + u32_at(b, V001_HEADER + 8 * i + 4)
    &&& e.hash == u64_at(b, V001_HEADER + ho + 8 * i)
    &&& is_first_nul(b, at, at + e.name@.len())
    &&& e.name@ == b.subrange(at, at + e.name@.len())
    &&& e.offset + e.size <= b.len()
}

/// Whether entry `i` of a v001 archive can be read: its name ends in a NUL
/// and its data lies inside the archive.
pub open spec fn v001_entry_readable(b: Seq<u8>, ho: int, n: int, i: int) -> bool {
    let at = V001_HEADER + 12 * n + u32_at(b, V001_HEADER + 8 * n + 4 * i);
    let offset = V001_HEADER + ho + 8 * n + u32_at(b, V001_HEADER + 8 * i + 4);
    &&& at <= b.len()
    &&& exists|k: int| is_first_nul(b, at, k)
    &&& offset <= u32::MAX
    &&& offset + u32_at(b, V001_HEADER + 8 * i) <= b.len()
}

/// Whether `b` can be listed as a v001 archive: the header, the tables and
/// every entry lie inside it.
pub open spec fn v001_readable(b: Seq<u8>) -> bool {
    let ho = u32_at(b, 4) as int;
    let n = u32_at(b, 8) as int;
    &&& b.len() >= V001_HEADER
    &&& u32_at(b, 0) == MAGIC_V001
    &&& V001_HEADER + 12 * n <= b.len()
    &&& V001_HEADER + ho + 8 * n <= b.len()
    &&& forall|i: int| 0 <= i < n ==> #[trigger] v001_entry_readable(b, ho, n, i)
}

/// Lists a v001 archive: every file with its hash, name, data offset and size.
pub fn read_v001(b: &[u8]) -> (r: Result<Vec<V001Entry>, BsaError>)
    ensures
        r matches Ok(es) ==> {
            &&& b@.len() >= V001_HEADER
            &&& u32_at(b@, 0) == MAGIC_V001
            &&& es@.len() == u32_at(b@, 8)
            &&& forall|i: int|
                0 <= i < es@.len() ==> v001_entry_listed(b@, u32_at(b@, 4) as int, es@.len() as int, i, #[trigger] es@[i])
        },
        r matches Err(e) ==> e == BsaError::BadData,
        r is Ok <==> v001_readable(b@),
{
    let magic = match read_u32(b, 0) {
        Some(m) => m,
        None => return Err(BsaError::BadData),
    };
    if magic != MAGIC_V001 || b.len() < 12 {
        return Err(BsaError::BadData);
    }
    let ho = read_u32(b, 4).unwrap() as u64;
    let count = read_u32(b, 8).unwrap();
    let n = count as u64;
    let blen = b.len() as u64;
    if 12 + 12 * n > blen || 12 + ho + 8 * n > blen {
        return Err(BsaError::BadData);
    }
    let names_start: u64 = 12 + 12 * n;
    let data_start: u64 = 12 + ho + 8 * n;
    let mut es: Vec<V001Entry> = Vec::new();
    let mut i: u32 = 0;
    while i < count
        invariant
            b@.len() == blen,
            blen <= usize::MAX,
            n == count,
            ho == u32_at(b@, 4),
            count == u32_at(b@, 8),
            12 + 12 * n <= blen,
            12 + ho + 8 * n <= blen,
            names_start == 12 + 12 * n,
            data_start == 12 + ho + 8 * n,
            i <= count,
            es@.len() == i,
            forall|k: int| 0 <= k < i ==> v001_entry_listed(b@, ho as int, n as int, k, #[trigger] es@[k]),
            forall|k: int| 0 <= k < i ==> #[trigger] v001_entry_readable(b@, ho as int, n as int, k),
        decreases count - i,
    {
        let i64 = i as u64;
        let size = read_u32(b, (12 + 8 * i64) as usize).unwrap();
        let off = read_u32(b, (16 + 8 * i64) as usize).unwrap();
        let name_off = read_u32(b, (12 + 8 * n + 4 * i64) as usize).unwrap();
        let hash = read_u64(b, (12 + ho + 8 * i64) as usize).unwrap();
        let at: u64 = names_start + name_off as u64;
        if at > blen {
            assert(!v001_entry_readable(b@, ho as int, n as int, i as int));
            return Err(BsaError::BadData);
        }
        let (name, next) = match read_zstring(b, at as usize) {
            Ok(x) => x,
            Err(e) => {
                assert(!v001_entry_readable(b@, ho as int, n as int, i as int));
                return Err(e);
            },
        };
        let offset: u64 = data_start + off as u64;
        if offset > u32::MAX as u64 || offset + size as u64 > blen {
            assert(!v001_entry_readable(b@, ho as int, n as int, i as int));
            return Err(BsaError::BadData);
        }
        assert(is_first_nul(b@, at as int, next - 1));
        let e = V001Entry { hash, name, offset: offset as u32, size };
        es.push(e);
        i = i + 1;
    }
    Ok(es)
}

/// The data of a listed v001 file.
pub fn extract_v001(b: &[u8], e: &V001Entry) -> (r: Result<Vec<u8>, BsaError>)
    ensures
        e.offset + e.size <= b@.len() ==> (r matches Ok(d) && d@ == b@.subrange(
            e.offset as int,
            e.offset + e.size,
        )),
        e.offset + e.size > b@.len() ==> r == Err::<Vec<u8>, BsaError>(BsaError::BadData),
{
    let end = e.offset as u64 + e.size as u64;
    if end > b.len() as u64 {
        return Err(BsaError::BadData);
    }
    Ok(copy_range(b, e.offset as usize, end as usize))
}

} // verus!

verus! {

proof fn lemma_table_at(files: Seq<FileSource>, k: int, a: Seq<u8>, rest: Seq<u8>, i: int)
    requires
        0 <= i < k,
    ensures
        table_bytes(files, k).len() == 8 * k,
        u32_at(a + table_bytes(files, k) + rest, a.len() + 8 * i) == files[i].data@.len() as u32,
        u32_at(a + table_bytes(files, k) + rest, a.len() + 8 * i + 4) == data_len(files, i) as u32,
    decreases k,
{
    let init = table_bytes(files, k - 1);
    let s1 = u32_le(files[k - 1].data@.len() as u32);
    let s2 = u32_le(data_len(files, k - 1) as u32);
    lemma_table_len(files, k - 1);
    if i == k - 1 {
        assert(a + table_bytes(files, k) + rest =~= (a + init) + s1 + (s2 + rest));
        crate::v10x::lemma_u32_part(a + init, files[k - 1].data@.len() as u32, s2 + rest);
        assert(a + table_bytes(files, k) + rest =~= (a + init + s1) + s2 + rest);
        crate::v10x::lemma_u32_part(a + init + s1, data_len(files, k - 1) as u32, rest);
    } else {
        assert(a + table_bytes(files, k) + rest =~= a + init + (s1 + s2 + rest));
        lemma_table_at(files, k - 1, a, s1 + s2 + rest, i);
    }
}

proof fn lemma_table_len(files: Seq<FileSource>, k: int)
    requires
        0 <= k,
    ensures
        table_bytes(files, k).len() == 8 * k,
    decreases k,
{
    if k > 0 {
        lemma_table_len(files, k - 1);
    }
}

proof fn lemma_name_offsets_at(files: Seq<FileSource>, k: int, a: Seq<u8>, rest: Seq<u8>, i: int)
    requires
        0 <= i < k,
    ensures
        name_offsets_bytes(files, k).len() == 4 * k,
        u32_at(a + name_offsets_bytes(files, k) + rest, a.len() + 4 * i) == names_len(files, i) as u32,
    decreases k,
{
    let init = name_offsets_bytes(files, k - 1);
    let s1 = u32_le(names_len(files, k - 1) as u32);
    lemma_name_offsets_len(files, k - 1);
    if i == k - 1 {
        assert(a + name_offsets_bytes(files, k) + rest =~= (a + init) + s1 + rest);
        crate::v10x::lemma_u32_part(a + init, names_len(files, k - 1) as u32, rest);
    } else {
        assert(a + name_offsets_bytes(files, k) + rest =~= a + init + (s1 + rest));
        lemma_name_offsets_at(files, k - 1, a, s1 + rest, i);
    }
}

proof fn lemma_name_offsets_len(files: Seq<FileSource>, k: int)
    requires
        0 <= k,
    ensures
        name_offsets_bytes(files, k).len() == 4 * k,
    decreases k,
{
    if k > 0 {
        lemma_name_offsets_len(files, k - 1);
    }
}

proof fn lemma_hashes_at(files: Seq<FileSource>, k: int, a: Seq<u8>, rest: Seq<u8>, i: int)
    requires
        0 <= i < k,
    ensures
        hashes_bytes(files, k).len() == 8 * k,
        u64_at(a + hashes_bytes(files, k) + rest, a.len() + 8 * i) == hash_v001_spec(files[i].name@),
    decreases k,
{
    let init = hashes_bytes(files, k - 1);
    let s1 = u64_le(hash_v001_spec(files[k - 1].name@));
    lemma_hashes_len(files, k - 1);
    if i == k - 1 {
        assert(a + hashes_bytes(files, k) + rest =~= (a + init) + s1 + rest);
        crate::v10x::lemma_u64_part(a + init, hash_v001_spec(files[k - 1].name@), rest);
    } else {
        assert(a + hashes_bytes(files, k) + rest =~= a + init + (s1 + rest));
        lemma_hashes_at(files, k - 1, a, s1 + rest, i);
    }
}

proof fn lemma_hashes_len(files: Seq<FileSource>, k: int)
    requires
        0 <= k,
    ensures
        hashes_bytes(files, k).len() == 8 * k,
    decreases k,
{
    if k > 0 {
        lemma_hashes_len(files, k - 1);
        crate::bin::lemma_u64_round_trip(hash_v001_spec(files[k - 1].name@));
    }
}

proof fn lemma_names_at(files: Seq<FileSource>, k: int, a: Seq<u8>, rest: Seq<u8>, i: int)
    requires
        0 <= i < k,
    ensures
        names_bytes(files, k).len() == names_len(files, k),
        ({
            let b = a + names_bytes(files, k) + rest;
            let at = a.len() + names_len(files, i);
            let nm = normalize(files[i].name@);
            &&& b.subrange(at, at + nm.len()) == nm
            &&& b[at + nm.len()] == 0
        }),
    decreases k,
{
    let init = names_bytes(files, k - 1);
    let s1 = z_bytes(normalize(files[k - 1].name@));
    lemma_names_bytes_len(files, k - 1);
    lemma_names_bytes_len(files, k);
    if i == k - 1 {
        let b = a + names_bytes(files, k) + rest;
        assert(b =~= (a + init) + s1 + rest);
        let at = a.len() + names_len(files, i);
        let nm = normalize(files[i].name@);
        assert(b.subrange(at, at + nm.len()) =~= nm);
    } else {
        assert(a + names_bytes(files, k) + rest =~= a + init + (s1 + rest));
        lemma_names_at(files, k - 1, a, s1 + rest, i);
    }
}

proof fn lemma_names_bytes_len(files: Seq<FileSource>, k: int)
    requires
        0 <= k,
    ensures
        names_bytes(files, k).len() == names_len(files, k),
    decreases k,
{
    if k > 0 {
        lemma_names_bytes_len(files, k - 1);
    }
}

proof fn lemma_data_at(files: Seq<FileSource>, k: int, a: Seq<u8>, rest: Seq<u8>, i: int)
    requires
        0 <= i < k,
    ensures
        data_bytes(files, k).len() == data_len(files, k),
        (a + data_bytes(files, k) + rest).subrange(
            a.len() + data_len(files, i),
            a.len() + data_len(files, i) + files[i].data@.len(),
        ) == files[i].data@,
    decreases k,
{
    let init = data_bytes(files, k - 1);
    let s1 = files[k - 1].data@;
    lemma_data_bytes_len(files, k - 1);
    lemma_data_bytes_len(files, k);
    if i == k - 1 {
        let b = a + data_bytes(files, k) + rest;
        assert(b =~= (a + init) + s1 + rest);
        assert(b.subrange(a.len() + data_len(files, i), a.len() + data_len(files, i) + s1.len()) =~= s1);
    } else {
        assert(a + data_bytes(files, k) + rest =~= a + init + (s1 + rest));
        lemma_data_at(files, k - 1, a, s1 + rest, i);
    }
}

proof fn lemma_data_bytes_len(files: Seq<FileSource>, k: int)
    requires
        0 <= k,
    ensures
        data_bytes(files, k).len() == data_len(files, k),
    decreases k,
{
    if k > 0 {
        lemma_data_bytes_len(files, k - 1);
    }
}

} // verus!

verus! {

proof fn lemma_sections(h: Seq<u8>, t: Seq<u8>, o: Seq<u8>, nm: Seq<u8>, hs: Seq<u8>, d: Seq<u8>)
    ensures
        h + t + o + nm + hs + d == h + t + (o + nm + hs + d),
        h + t + o + nm + hs + d == (h + t) + o + (nm + hs + d),
        h + t + o + nm + hs + d == (h + t + o) + nm + (hs + d),
        h + t + o + nm + hs + d == (h + t + o + nm) + hs + d,
        h + t + o + nm + hs + d == (h + t + o + nm + hs) + d + Seq::<u8>::empty(),
{
    assert(h + t + o + nm + hs + d =~= h + t + (o + nm + hs + d));
    assert(h + t + o + nm + hs + d =~= (h + t) + o + (nm + hs + d));
    assert(h + t + o + nm + hs + d =~= (h + t + o) + nm + (hs + d));
    assert(h + t + o + nm + hs + d =~= (h + t + o + nm + hs) + d + Seq::<u8>::empty());
}

/// The header words of a written v001 archive.
proof fn lemma_v001_header(files: Seq<FileSource>)
    requires
        v001_size(files) <= u32::MAX,
    ensures
        u32_at(v001_bytes(files), 4) == hash_offset(files),
        u32_at(v001_bytes(files), 8) == files.len(),
        v001_bytes(files) == u32_le(MAGIC_V001) + u32_le(hash_offset(files) as u32) + u32_le(
            files.len() as u32,
        ) + table_bytes(files, files.len() as int) + name_offsets_bytes(files, files.len() as int)
            + names_bytes(files, files.len() as int) + hashes_bytes(files, files.len() as int)
            + data_bytes(files, files.len() as int),
{
    reveal(v001_bytes);
    let n = files.len() as int;
    let m = u32_le(MAGIC_V001);
    let hoff = u32_le(hash_offset(files) as u32);
    let cnt = u32_le(n as u32);
    let rest = table_bytes(files, n) + name_offsets_bytes(files, n) + names_bytes(files, n)
        + hashes_bytes(files, n) + data_bytes(files, n);
    lemma_names_len_mono(files, 0, n);
    lemma_data_len_mono(files, 0, n);
    let b = v001_bytes(files);
    assert(b =~= m + hoff + (cnt + rest));
    crate::v10x::lemma_u32_part(m, hash_offset(files) as u32, cnt + rest);
    assert(b =~= (m + hoff) + cnt + rest);
    crate::v10x::lemma_u32_part(m + hoff, n as u32, rest);
}

/// Where a NUL-free `want` stands at `at` with a NUL after it, the first NUL
/// from `at` on is that one.
proof fn lemma_first_nul_at(b: Seq<u8>, at: int, want: Seq<u8>, got: int)
    requires
        0 <= at,
        at + want.len() < b.len(),
        b.subrange(at, at + want.len()) == want,
        b[at + want.len()] == 0,
        crate::strings::has_no_nul(want),
        is_first_nul(b, at, at + got),
    ensures
        got == want.len(),
{
    if got < want.len() {
        assert(b.subrange(at, at + want.len())[got] == b[at + got]);
    } else if got > want.len() {
        assert(b.subrange(at, at + got)[want.len() as int] == b[at + want.len()]);
    }
}

#[verifier::rlimit(100)]
proof fn lemma_v001_entry(files: Seq<FileSource>, i: int, e: V001Entry)
    requires
        v001_size(files) <= u32::MAX,
        0 <= i < files.len(),
        crate::strings::has_no_nul(files[i].name@),
        v001_entry_listed(v001_bytes(files), hash_offset(files), files.len() as int, i, e),
    ensures
        e.name@ == normalize(files[i].name@),
        e.hash == hash_v001_spec(files[i].name@),
        e.size == files[i].data@.len(),
        v001_bytes(files).subrange(e.offset as int, e.offset + e.size) == files[i].data@,
{
    let n = files.len() as int;
    let b = v001_bytes(files);
    let h = u32_le(MAGIC_V001) + u32_le(hash_offset(files) as u32) + u32_le(n as u32);
    let t = table_bytes(files, n);
    let o = name_offsets_bytes(files, n);
    let nm = names_bytes(files, n);
    let hs = hashes_bytes(files, n);
    let d = data_bytes(files, n);
    lemma_v001_header(files);
    lemma_sections(h, t, o, nm, hs, d);
    lemma_names_len_mono(files, 0, n);
    lemma_names_len_mono(files, i, n);
    lemma_data_len_mono(files, 0, n);
    lemma_data_len_mono(files, i + 1, n);
    lemma_data_len_mono(files, 0, i);
    lemma_names_len_mono(files, i + 1, n);
    lemma_names_len_mono(files, 0, i);
    assert(h.len() == 12);
    lemma_table_at(files, n, h, o + nm + hs + d, i);
    lemma_name_offsets_at(files, n, h + t, nm + hs + d, i);
    lemma_names_at(files, n, h + t + o, hs + d, i);
    lemma_hashes_at(files, n, h + t + o + nm, d, i);
    lemma_data_at(files, n, h + t + o + nm + hs, Seq::empty(), i);
    let at = 12 + 12 * n + names_len(files, i);
    let want = normalize(files[i].name@);
    assert(want.len() == files[i].name@.len());
    assert(b.len() == 12 + 20 * n + names_len(files, n) + data_len(files, n));
    assert(crate::strings::has_no_nul(want)) by {
        assert forall|j: int| 0 <= j < want.len() implies want[j] != 0 by {
            assert(files[i].name@[j] != 0);
        }
    }
    lemma_first_nul_at(b, at, want, e.name@.len() as int);
}

/// Writing a v001 archive and listing it gives back every file: its name,
/// lowercase with `\` separators, its hash, and its data where its entry
/// points. Names are taken without NUL bytes, which a ZString cannot hold.
pub proof fn lemma_v001_round_trip(files: Seq<FileSource>, es: Seq<V001Entry>)
    requires
        v001_size(files) <= u32::MAX,
        forall|i: int| 0 <= i < files.len() ==> crate::strings::has_no_nul(#[trigger] files[i].name@),
        es.len() == u32_at(v001_bytes(files), 8),
        forall|i: int|
            0 <= i < es.len() ==> v001_entry_listed(
                v001_bytes(files),
                u32_at(v001_bytes(files), 4) as int,
                es.len() as int,
                i,
                #[trigger] es[i],
            ),
    ensures
        es.len() == files.len(),
        forall|i: int|
            0 <= i < files.len() ==> {
                &&& (#[trigger] es[i]).name@ == normalize(files[i].name@)
                &&& es[i].hash == hash_v001_spec(files[i].name@)
                &&& es[i].size == files[i].data@.len()
                &&& v001_bytes(files).subrange(es[i].offset as int, es[i].offset + es[i].size)
                    == files[i].data@
            },
{
    lemma_v001_header(files);
    assert forall|i: int| 0 <= i < files.len() implies {
        &&& (#[trigger] es[i]).name@ == normalize(files[i].name@)
        &&& es[i].hash == hash_v001_spec(files[i].name@)
        &&& es[i].size == files[i].data@.len()
        &&& v001_bytes(files).subrange(es[i].offset as int, es[i].offset + es[i].size) == files[i].data@
    } by {
        lemma_v001_entry(files, i, es[i]);
    }
}

} // verus!

verus! {

/// The index of the first listed file whose hash is that of `name`: a file
/// is found by hashing the query, as the archive's hash table is searched.
pub fn find_v001(entries: &Vec<V001Entry>, name: &[u8]) -> (r: Option<usize>)
    ensures
        match r {
            Some(i) => i < entries@.len() && entries@[i as int].hash == hash_v001_spec(name@)
                && forall|k: int| 0 <= k < i ==> (#[trigger] entries@[k]).hash != hash_v001_spec(name@),
            None => forall|k: int| 0 <= k < entries@.len() ==> (#[trigger] entries@[k]).hash != hash_v001_spec(name@),
        },
{
    let h = hash_v001(name);
    let mut i: usize = 0;
    while i < entries.len()
        invariant
            i <= entries@.len(),
            h == hash_v001_spec(name@),
            forall|k: int| 0 <= k < i ==> (#[trigger] entries@[k]).hash != h,
        decreases entries@.len() - i,
    {
        if entries[i].hash == h {
            return Some(i);
        }
        i = i + 1;
    }
    None
}

} // verus!

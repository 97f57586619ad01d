use bsalib::error::{BsaError, Unknown};
use bsalib::hash::hash_v10x;
use bsalib::read::{open_archive, BsaReaderV10X};
use bsalib::v10x::{DirRecord, FileRecord, HeaderV10X};
use bsalib::version::{Version, Version10X};
use bsalib::write::{
    lower_name, write_bsa, BsaWriterOptionsV10X, DirSource, FileSource, COMPRESSED_ARCHIVE,
    EMBED_FILE_NAMES, INCLUDE_DIRECTORY_NAMES, INCLUDE_FILE_NAMES, XBOX360_ARCHIVE,
};

fn one_file(dir: &str, name: &str, data: Vec<u8>, compressed: Option<bool>) -> Vec<DirSource> {
    vec![DirSource {
        name: dir.as_bytes().to_vec(),
        files: vec![FileSource { name: name.as_bytes().to_vec(), data, compressed }],
    }]
}

fn options(flags: u32) -> BsaWriterOptionsV10X {
    BsaWriterOptionsV10X { archive_flags: flags, file_flags: 0 }
}

const NAMES: u32 = INCLUDE_DIRECTORY_NAMES | INCLUDE_FILE_NAMES;

fn first_file_record(bytes: &[u8], v: Version10X) -> FileRecord {
    let reader = BsaReaderV10X::open(bytes.to_vec()).unwrap();
    let rec = DirRecord::read_here(bytes, 36, v).unwrap();
    let at = (rec.offset - reader.header().total_file_name_length) as usize;
    let name_len = bytes[at] as usize;
    FileRecord::read_here(bytes, at + 1 + name_len).unwrap()
}

#[test]
fn minimal_v105_archive_lists_one_file() {
    let bytes = write_bsa(Version10X::V105, BsaWriterOptionsV10X::new(), &one_file("a", "b", vec![0, 0, 0, 0], None)).unwrap();
    let reader = BsaReaderV10X::open(bytes).unwrap();
    let h = reader.header();
    assert_eq!((h.offset, h.dir_count, h.file_count), (36, 1, 1));
    assert_eq!((h.total_dir_name_length, h.total_file_name_length), (2, 2));
    assert_eq!(h.archive_flags, NAMES);
    let dirs = reader.list().unwrap();
    assert_eq!(dirs[0].name, Some(b"a".to_vec()));
    assert_eq!(dirs[0].hash, hash_v10x(b"a"));
    let f = &dirs[0].files[0];
    assert_eq!(f.name, Some(b"b".to_vec()));
    assert_eq!(f.size, 4);
    assert!(!f.compressed);
    assert_eq!(reader.extract(f).unwrap(), vec![0, 0, 0, 0]);
}

#[test]
fn compressed_by_default_v104() {
    let bytes = write_bsa(Version10X::V104, options(NAMES | COMPRESSED_ARCHIVE), &one_file("d", "f", vec![0; 1024], None)).unwrap();
    let rec = first_file_record(&bytes, Version10X::V104);
    assert!(!rec.is_compression_bit_set());
    assert!(rec.real_size() < 1024 + 4);
    let reader = BsaReaderV10X::open(bytes).unwrap();
    let dirs = reader.list().unwrap();
    let f = &dirs[0].files[0];
    assert!(f.compressed);
    assert_eq!(reader.extract(f).unwrap(), vec![0; 1024]);
}

#[test]
fn per_file_override_stores_raw() {
    let bytes = write_bsa(Version10X::V104, options(NAMES | COMPRESSED_ARCHIVE), &one_file("d", "f", vec![0; 1024], Some(false))).unwrap();
    let rec = first_file_record(&bytes, Version10X::V104);
    assert!(rec.is_compression_bit_set());
    assert_eq!(rec.real_size(), 1024);
    assert_eq!(rec.size, 0x4000_0000 | 1024);
    let reader = BsaReaderV10X::open(bytes).unwrap();
    let dirs = reader.list().unwrap();
    let f = &dirs[0].files[0];
    assert!(!f.compressed);
    assert_eq!(reader.extract(f).unwrap(), vec![0; 1024]);
}

#[test]
fn per_file_override_compresses_in_plain_archive() {
    let bytes = write_bsa(Version10X::V103, options(NAMES), &one_file("d", "f", vec![7; 300], Some(true))).unwrap();
    let rec = first_file_record(&bytes, Version10X::V103);
    assert!(rec.is_compression_bit_set());
    let reader = BsaReaderV10X::open(bytes).unwrap();
    let dirs = reader.list().unwrap();
    assert!(dirs[0].files[0].compressed);
    assert_eq!(reader.extract(&dirs[0].files[0]).unwrap(), vec![7; 300]);
}

#[test]
fn lz4_payload_has_size_prefix() {
    let data = b"abcdefghijklmnopqrstuvwxyz".to_vec();
    let bytes = write_bsa(Version10X::V105, options(NAMES | COMPRESSED_ARCHIVE), &one_file("d", "f", data.clone(), None)).unwrap();
    let rec = first_file_record(&bytes, Version10X::V105);
    let at = rec.offset as usize;
    assert_eq!(&bytes[at..at + 4], &[26, 0, 0, 0]);
    // An LZ4 frame starts with its magic number.
    assert_eq!(&bytes[at + 4..at + 8], &[0x04, 0x22, 0x4d, 0x18]);
    let reader = BsaReaderV10X::open(bytes).unwrap();
    let dirs = reader.list().unwrap();
    assert_eq!(reader.extract(&dirs[0].files[0]).unwrap(), data);
}

#[test]
fn embedded_file_name_precedes_data() {
    let bytes = write_bsa(Version10X::V105, options(NAMES | EMBED_FILE_NAMES), &one_file("tex", "f.dds", vec![1, 2, 3], None)).unwrap();
    let rec = first_file_record(&bytes, Version10X::V105);
    let at = rec.offset as usize;
    assert_eq!(bytes[at], 9);
    assert_eq!(&bytes[at + 1..at + 10], b"tex\\f.dds");
    assert_eq!(rec.real_size(), 10 + 3);
    let reader = BsaReaderV10X::open(bytes).unwrap();
    let dirs = reader.list().unwrap();
    assert_eq!(reader.extract(&dirs[0].files[0]).unwrap(), vec![1, 2, 3]);
}

#[test]
fn unknown_version_is_reported() {
    let bytes = b"BSA\0\x00\x00\x00\x00".to_vec();
    assert_eq!(Version::read_here(&bytes), Err(BsaError::Unknown(Unknown::Version(0))));
    assert!(matches!(open_archive(bytes), Err(BsaError::Unknown(Unknown::Version(0)))));
}

#[test]
fn unknown_magic_is_reported() {
    let bytes = b"ZIP\0\x67\x00\x00\x00".to_vec();
    assert_eq!(Version::read_here(&bytes), Err(BsaError::Unknown(Unknown::MagicNumber(0x0050_495a))));
}

#[test]
fn ba2_is_recognised_but_not_read() {
    let mut bytes = Vec::new();
    Version::V200(1).write_here(&mut bytes);
    bytes.extend_from_slice(&[0; 40]);
    assert_eq!(Version::read_here(&bytes).unwrap().0, Version::V200(1));
    assert!(matches!(open_archive(bytes.clone()), Err(BsaError::UnsupportedVersion)));
    assert!(matches!(Version::V200(1).read(bytes), Err(BsaError::UnsupportedVersion)));
}

#[test]
fn short_input_is_bad_data() {
    assert_eq!(Version::read_here(b"BS"), Err(BsaError::BadData));
    assert!(matches!(open_archive(b"BSA\0\x68\x00\x00\x00\x24".to_vec()), Err(BsaError::BadData)));
}

#[test]
fn hash_ignores_case_and_separator() {
    let a = hash_v10x(b"textures\\foo.dds");
    assert_eq!(a, hash_v10x(b"textures/foo.dds"));
    assert_eq!(a, hash_v10x(b"TEXTURES/FOO.DDS"));
}

#[test]
fn hash_known_values() {
    // Low word: last byte, second-to-last byte (stems over two bytes), length, first byte;
    // ".dds" adds 0x8080.
    assert_eq!(hash_v10x(b"a"), 0x6101_0061);
    assert_eq!(hash_v10x(b"ab.dds") & 0xffff_ffff, (0x62 | (2 << 16) | (0x61 << 24)) | 0x8080);
    assert_ne!(hash_v10x(b"foo.nif"), hash_v10x(b"foo.kf"));
}

#[test]
fn empty_directory_is_bad_input() {
    let dirs = vec![DirSource { name: b"d".to_vec(), files: vec![] }];
    assert!(matches!(write_bsa(Version10X::V104, options(NAMES), &dirs), Err(BsaError::BadInput)));
}

#[test]
fn long_directory_name_is_bad_input() {
    let name = "x".repeat(255);
    let dirs = one_file(&name, "f", vec![1], None);
    assert!(matches!(write_bsa(Version10X::V104, options(NAMES), &dirs), Err(BsaError::BadInput)));
    assert!(write_bsa(Version10X::V104, options(INCLUDE_FILE_NAMES), &dirs).is_ok());
}

#[test]
fn xbox_archive_is_unsupported() {
    let dirs = one_file("d", "f", vec![1], None);
    assert!(matches!(write_bsa(Version10X::V104, options(NAMES | XBOX360_ARCHIVE), &dirs), Err(BsaError::UnsupportedVersion)));
}

#[test]
fn names_are_lowercased_and_accounted() {
    let dirs = vec![
        DirSource {
            name: b"Meshes".to_vec(),
            files: vec![
                FileSource { name: b"Body.NIF".to_vec(), data: vec![1], compressed: None },
                FileSource { name: b"x.kf".to_vec(), data: vec![2, 3], compressed: None },
            ],
        },
        DirSource { name: b"T".to_vec(), files: vec![FileSource { name: b"y".to_vec(), data: vec![], compressed: None }] },
    ];
    let bytes = write_bsa(Version10X::V104, options(NAMES), &dirs).unwrap();
    let reader = BsaReaderV10X::open(bytes).unwrap();
    let h = reader.header();
    assert_eq!(h.total_file_name_length, 9 + 5 + 2);
    assert_eq!(h.total_dir_name_length + h.dir_count, 8 + 3);
    let listed = reader.list().unwrap();
    assert_eq!(listed[0].name, Some(b"meshes".to_vec()));
    assert_eq!(listed[0].files[0].name, Some(b"body.nif".to_vec()));
    assert_eq!(listed[1].files[0].hash, hash_v10x(b"y"));
    assert_eq!(reader.extract(&listed[0].files[1]).unwrap(), vec![2, 3]);
    assert_eq!(lower_name(b"AbC/"), b"abc/".to_vec());
}

#[test]
fn directory_offsets_point_past_name_pool() {
    let dirs = vec![
        DirSource { name: b"a".to_vec(), files: vec![FileSource { name: b"b".to_vec(), data: vec![9], compressed: None }] },
        DirSource { name: b"cc".to_vec(), files: vec![FileSource { name: b"d".to_vec(), data: vec![8], compressed: None }] },
    ];
    let bytes = write_bsa(Version10X::V104, options(NAMES), &dirs).unwrap();
    let tfnl = 4u32;
    let first = DirRecord::read_here(&bytes, 36, Version10X::V104).unwrap();
    let second = DirRecord::read_here(&bytes, 52, Version10X::V104).unwrap();
    assert_eq!(first.offset, 36 + 32 + tfnl);
    assert_eq!(second.offset, 36 + 32 + (3 + 16) + tfnl);
}

#[test]
fn header_reads_back_through_variant_mask() {
    let h = HeaderV10X {
        offset: 36,
        archive_flags: 0x3ff,
        dir_count: 1,
        file_count: 2,
        total_dir_name_length: 3,
        total_file_name_length: 4,
        file_flags: 0xffff,
        padding: 0,
    };
    let mut out = Vec::new();
    Version::V10X(Version10X::V103).write_here(&mut out);
    h.write_fixed(&mut out);
    let back = HeaderV10X::read_fixed(&out, Version10X::V103).unwrap();
    assert_eq!(back.archive_flags, 0xff);
    assert_eq!(back.file_flags, 0x1ff);
    assert!(back.has(bsalib::v10x::ArchiveFlag::Xbox360Archive));
}

#[test]
fn open_archive_dispatches_on_version() {
    let v10x = write_bsa(Version10X::V103, options(NAMES), &one_file("d", "f", vec![5], None)).unwrap();
    match open_archive(v10x) {
        Ok(bsalib::read::SomeBsaReader::V10X(r)) => {
            assert_eq!(r.version, Version10X::V103);
            let dirs = r.list().unwrap();
            assert_eq!(r.extract(&dirs[0].files[0]).unwrap(), vec![5]);
        }
        _ => panic!("expected a v10X reader"),
    }
    let files = vec![FileSource { name: b"x".to_vec(), data: vec![4, 4], compressed: None }];
    let v001 = bsalib::v001::write_v001(&files).unwrap();
    match open_archive(v001) {
        Ok(bsalib::read::SomeBsaReader::V001(r)) => {
            let entries = r.list().unwrap();
            assert_eq!(r.extract(&entries[0]).unwrap(), vec![4, 4]);
        }
        _ => panic!("expected a v001 reader"),
    }
}

#[test]
fn lookup_by_name_hashes_the_query() {
    let dirs = vec![
        DirSource { name: b"a".to_vec(), files: vec![FileSource { name: b"x".to_vec(), data: vec![1], compressed: None }] },
        DirSource { name: b"Tex/Sub".to_vec(), files: vec![
            FileSource { name: b"y.dds".to_vec(), data: vec![2], compressed: None },
            FileSource { name: b"z.dds".to_vec(), data: vec![3], compressed: None },
        ] },
    ];
    let bytes = write_bsa(Version10X::V105, options(NAMES), &dirs).unwrap();
    let reader = BsaReaderV10X::open(bytes).unwrap();
    let listed = reader.list().unwrap();
    let (i, k) = bsalib::read::find_file(&listed, b"tex\\sub", b"Z.DDS").unwrap();
    assert_eq!((i, k), (1, 1));
    assert_eq!(reader.extract(&listed[i].files[k]).unwrap(), vec![3]);
    assert_eq!(bsalib::read::find_file(&listed, b"a", b"y.dds"), None);
}

#[test]
fn real_size_keeps_thirty_bits() {
    let rec = FileRecord { name_hash: 0, size: 0xC000_0010, offset: 0 };
    assert_eq!(rec.real_size(), 0x10);
    assert!(rec.is_compression_bit_set());
}

#[test]
fn names_absent_without_file_name_flag() {
    let bytes = write_bsa(Version10X::V104, options(INCLUDE_DIRECTORY_NAMES), &one_file("d", "F", vec![1], None)).unwrap();
    let reader = BsaReaderV10X::open(bytes).unwrap();
    let listed = reader.list().unwrap();
    assert_eq!(listed[0].name, Some(b"d".to_vec()));
    assert_eq!(listed[0].files[0].name, None);
    assert_eq!(listed[0].files[0].hash, hash_v10x(b"f"));
}

#[test]
fn version_read_agrees_with_variant_read() {
    let bytes = write_bsa(Version10X::V104, options(NAMES), &one_file("d", "f", vec![1], None)).unwrap();
    assert!(matches!(Version10X::V105.read(bytes.clone()), Err(BsaError::BadData)));
    assert!(Version10X::V104.read(bytes.clone()).is_ok());
    assert!(matches!(Version::V10X(Version10X::V104).read(bytes), Ok(bsalib::read::SomeBsaReader::V10X(_))));
    let xbox = write_bsa(Version10X::V104, options(NAMES), &one_file("d", "f", vec![1], None)).map(|mut b| {
        b[12] |= 0x40;
        b
    }).unwrap();
    assert!(matches!(Version10X::V104.read(xbox), Err(BsaError::UnsupportedVersion)));
}

#[test]
fn colliding_names_list_the_later_one() {
    assert_eq!(hash_v10x(b"xcyz.a"), hash_v10x(b"xbyz.b"));
    let dirs = vec![DirSource {
        name: b"d".to_vec(),
        files: vec![
            FileSource { name: b"xcyz.a".to_vec(), data: vec![1], compressed: None },
            FileSource { name: b"xbyz.b".to_vec(), data: vec![2], compressed: None },
        ],
    }];
    let bytes = write_bsa(Version10X::V104, options(NAMES), &dirs).unwrap();
    let reader = BsaReaderV10X::open(bytes).unwrap();
    let listed = reader.list().unwrap();
    assert_eq!(listed[0].files[0].name, Some(b"xbyz.b".to_vec()));
    assert_eq!(listed[0].files[1].name, Some(b"xbyz.b".to_vec()));
}

#[test]
fn size_prefix_mismatch_is_bad_data() {
    let data = b"abcdefghijklmnopqrstuvwxyz".to_vec();
    let mut bytes = write_bsa(Version10X::V105, options(NAMES | COMPRESSED_ARCHIVE), &one_file("d", "f", data, None)).unwrap();
    let rec = first_file_record(&bytes, Version10X::V105);
    bytes[rec.offset as usize] = 27;
    let reader = BsaReaderV10X::open(bytes).unwrap();
    let listed = reader.list().unwrap();
    assert!(matches!(reader.extract(&listed[0].files[0]), Err(BsaError::BadData)));
}

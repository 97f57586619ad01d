use bsalib::hash::hash_v10x;
use bsalib::read::BsaReaderV10X;
use bsalib::v10x::{ArchiveFlag, DirContentRecord, DirRecord, FileFlag, HeaderV10X};
use bsalib::version::{Version, Version10X};
use bsalib::write::{write_bsa, BsaWriterOptionsV10X, DirSource, FileSource};

fn file(name: &str, data: Vec<u8>, compressed: Option<bool>) -> FileSource {
    FileSource { name: name.as_bytes().to_vec(), data, compressed }
}

fn dir(name: &str, files: Vec<FileSource>) -> DirSource {
    DirSource { name: name.as_bytes().to_vec(), files }
}

fn some_bsa_dirs() -> Vec<DirSource> {
    vec![dir("a", vec![file("b", vec![0, 0, 0, 0], None)])]
}

fn some_bsa_bytes() -> Vec<u8> {
    write_bsa(Version10X::V105, BsaWriterOptionsV10X::new(), &some_bsa_dirs())
        .unwrap_or_else(|err| panic!("could not write bsa {:?}", err))
}

#[test]
fn write_read_identity_version() {
    for v in [
        Version::V001,
        Version::V10X(Version10X::V103),
        Version::V10X(Version10X::V104),
        Version::V10X(Version10X::V105),
        Version::V200(12),
    ] {
        let mut out = Vec::new();
        v.write_here(&mut out);
        assert_eq!(out.len(), v.size());
        let (back, n) = Version::read_here(&out).unwrap();
        assert_eq!(back, v);
        assert_eq!(n, v.size());
    }
}

#[test]
fn writes_version() {
    let bytes = some_bsa_bytes();
    let (v, _) = Version::read_here(&bytes).unwrap_or_else(|err| panic!("could not read version {:?}", err));
    assert_eq!(v, Version::V10X(Version10X::V105));
}

#[test]
fn writes_header() {
    let bytes = some_bsa_bytes();
    let header = HeaderV10X::read_fixed(&bytes, Version10X::V105)
        .unwrap_or_else(|err| panic!("could not read header {:?}", err));
    assert_eq!(header.offset, 36, "offset");
    assert_eq!(
        header.archive_flags,
        ArchiveFlag::IncludeFileNames.bit() | ArchiveFlag::IncludeDirectoryNames.bit()
    );
    assert_eq!(header.dir_count, 1, "dir_count");
    assert_eq!(header.file_count, 1, "file_count");
    assert_eq!(header.total_dir_name_length, 2, "total_dir_name_length");
    assert_eq!(header.total_file_name_length, 2, "total_file_name_length");
    assert_eq!(header.file_flags, 0, "file_flags");
}

#[test]
fn writes_dir_records() {
    let bytes = some_bsa_bytes();
    HeaderV10X::read_fixed(&bytes, Version10X::V105).unwrap_or_else(|err| panic!("could not read header {:?}", err));
    let mut dirs = Vec::new();
    if let Some(d) = DirRecord::read_here(&bytes, 36, Version10X::V105) {
        dirs.push(d);
    }
    assert_eq!(dirs.len(), 1, "dirs.len()");
    assert_eq!(dirs[0].file_count, 1, "dirs[0].file_count");
}

#[test]
fn writes_dir_content_records() {
    let bytes = some_bsa_bytes();
    // The content block follows the 36-byte header and one 24-byte v105 directory record.
    let (dir_content, _) = DirContentRecord::read_with_param(&bytes, 60, true, 1)
        .unwrap_or_else(|err| panic!("could not read dir content record {:?}", err));
    assert_eq!(dir_content.name, Some(b"a".to_vec()), "dir_content.name");
    assert_eq!(dir_content.files.len(), 1, "dir_content.files");
    assert_eq!(dir_content.files[0].name_hash, hash_v10x(b"b"), "dir_content.files[0].name_hash");
    assert_eq!(dir_content.files[0].size, 4, "dir_content.files[0].size");
}

#[test]
fn write_read_identity() {
    let bytes = some_bsa_bytes();
    let bsa = BsaReaderV10X::open(bytes).unwrap_or_else(|err| panic!("could not open bsa {:?}", err));
    let in_dirs = bsa.list().unwrap_or_else(|err| panic!("could not read dirs {:?}", err));
    assert_eq!(in_dirs.len(), 1, "in_dirs.len()");
    assert_eq!(in_dirs[0].files.len(), 1, "in_dirs[0].files.len()");
    assert_eq!(in_dirs[0].name, Some(b"a".to_vec()), "in_dirs[0].name");
    assert_eq!(in_dirs[0].files[0].name, Some(b"b".to_vec()), "in_dirs[0].files[0].name");
}

#[test]
fn write_read_identity_header() {
    let header_out = HeaderV10X {
        offset: 12,
        archive_flags: ArchiveFlag::CompressedArchive.bit() | ArchiveFlag::EmbedFileNames.bit(),
        dir_count: 13,
        file_count: 14,
        total_dir_name_length: 15,
        file_flags: FileFlag::Fonts.bit() | FileFlag::Menus.bit(),
        total_file_name_length: 16,
        padding: 13,
    };
    let mut out = Vec::new();
    Version::V10X(Version10X::V105).write_here(&mut out);
    header_out.write_fixed(&mut out);
    let header_in = HeaderV10X::read_fixed(&out, Version10X::V105).unwrap();
    assert_eq!(header_out, header_in);
}

use bsalib::hash::hash_v001;
use bsalib::v001::{extract_v001, read_v001, write_v001};
use bsalib::version::Version;
use bsalib::write::FileSource;

fn file(name: &str, data: Vec<u8>) -> FileSource {
    FileSource { name: name.as_bytes().to_vec(), data, compressed: None }
}

#[test]
fn v001_hash_values() {
    assert_eq!(hash_v001(b"a"), 0x8000_0030_0000_0000);
    assert_eq!(hash_v001(b"ab"), 0x8000_0018_0000_0061);
    assert_eq!(hash_v001(b"Meshes/X.NIF"), hash_v001(b"meshes\\x.nif"));
}

#[test]
fn v001_write_then_read() {
    let files = vec![file("Meshes/a.nif", vec![1, 2, 3]), file("b.dds", vec![]), file("c", vec![9; 10])];
    let bytes = write_v001(&files).unwrap();
    assert_eq!(Version::read_here(&bytes).unwrap().0, Version::V001);
    // Header, 12 bytes of tables per file, the names, a hash per file, then the data.
    let names = 13 + 6 + 2;
    assert_eq!(bytes.len(), 12 + 36 + names + 24 + 13);
    assert_eq!(&bytes[4..8], &((36 + names) as u32).to_le_bytes());
    let entries = read_v001(&bytes).unwrap();
    assert_eq!(entries.len(), 3);
    assert_eq!(entries[0].name, b"meshes\\a.nif".to_vec());
    assert_eq!(entries[0].hash, hash_v001(b"meshes\\a.nif"));
    assert_eq!(entries[1].size, 0);
    assert_eq!(entries[2].name, b"c".to_vec());
    assert_eq!(extract_v001(&bytes, &entries[0]).unwrap(), vec![1, 2, 3]);
    assert_eq!(extract_v001(&bytes, &entries[2]).unwrap(), vec![9; 10]);
}

#[test]
fn v001_truncated_is_bad_data() {
    let bytes = write_v001(&vec![file("a", vec![1])]).unwrap();
    assert!(read_v001(&bytes[..20]).is_err());
    assert!(read_v001(&[0, 1, 0]).is_err());
}

#[test]
fn v001_lookup_by_name() {
    let files = vec![file("a.txt", vec![1]), file("Dir/B.txt", vec![2, 2])];
    let bytes = write_v001(&files).unwrap();
    let entries = read_v001(&bytes).unwrap();
    let i = bsalib::v001::find_v001(&entries, b"dir\\b.TXT").unwrap();
    assert_eq!(i, 1);
    assert_eq!(extract_v001(&bytes, &entries[i]).unwrap(), vec![2, 2]);
    assert_eq!(bsalib::v001::find_v001(&entries, b"missing"), None);
}

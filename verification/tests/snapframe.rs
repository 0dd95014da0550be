use rim_sim::snapframe::{
    read_section, read_sections, read_snapshot_frame, read_snapshot_header, section_payload, section_table,
    write_snapshot_frame,
};
use rim_sim::snapshot::{put_field, SNAP_MAGIC};

fn sections() -> Vec<(String, Vec<u8>)> {
    vec![("map".to_string(), vec![7u8; 300]), ("pawns".to_string(), b"hello".to_vec()), ("empty".to_string(), vec![])]
}

#[test]
fn a_snapshot_frame_reads_back() {
    let bytes = write_snapshot_frame(b"head", &sections()).unwrap();
    assert!(bytes.starts_with(&SNAP_MAGIC));
    let (header, read) = read_snapshot_frame(&bytes).unwrap();
    assert_eq!(header, b"head".to_vec());
    assert_eq!(read, sections());
    let (header, read) = read_snapshot_frame(&write_snapshot_frame(b"", &[]).unwrap()).unwrap();
    assert!(header.is_empty());
    assert!(read.is_empty());
}

#[test]
fn snapshot_frame_errors() {
    assert_eq!(read_snapshot_frame(b"rimsnap2xxxx"), Err("not a rim snapshot".to_string()));
    assert_eq!(read_snapshot_frame(&SNAP_MAGIC), Err("a snapshot with no header".to_string()));
    let mut cut = SNAP_MAGIC.to_vec();
    cut.extend_from_slice(&[9, 0, 0, 0, 1, 2]);
    assert_eq!(read_snapshot_frame(&cut), Err("a truncated snapshot".to_string()));
    let mut f = SNAP_MAGIC.to_vec();
    put_field(&mut f, b"h");
    put_field(&mut f, b"map");
    assert_eq!(read_snapshot_frame(&f), Err("a section with no body".to_string()));
    let mut f = SNAP_MAGIC.to_vec();
    put_field(&mut f, b"h");
    put_field(&mut f, &[0xff, 0xfe]);
    put_field(&mut f, b"x");
    assert_eq!(read_snapshot_frame(&f), Err("a section name isn't text".to_string()));
    let mut f = SNAP_MAGIC.to_vec();
    put_field(&mut f, b"h");
    put_field(&mut f, b"map");
    put_field(&mut f, b"not zstd");
    assert!(read_snapshot_frame(&f).unwrap_err().starts_with("map: "));
}

#[test]
fn a_save_section_reads_back() {
    let p = section_payload(0x0102_0304_0506_0708, b"some bytes").unwrap();
    assert_eq!(&p[..8], &0x0102_0304_0506_0708u64.to_le_bytes());
    assert_ne!(&p[8..], b"some bytes");
    assert_eq!(read_section(&p), Ok((0x0102_0304_0506_0708, b"some bytes".to_vec())));
    assert_eq!(read_section(&[1, 2, 3]), Err("a section with no hash".to_string()));
    assert!(read_section(&[0; 12]).unwrap_err().starts_with("a section: "));
}

#[test]
fn fields_are_length_prefixed() {
    let mut out = Vec::new();
    put_field(&mut out, &[5u8; 3]);
    assert_eq!(out, vec![3, 0, 0, 0, 5, 5, 5]);
}

#[test]
fn the_header_is_read_before_the_sections() {
    let bytes = write_snapshot_frame(b"head", &sections()).unwrap();
    let (header, at) = read_snapshot_header(&bytes).unwrap();
    assert_eq!(header, b"head".to_vec());
    assert_eq!(at, 8 + 4 + 4);
    assert_eq!(read_sections(&bytes[at..]).unwrap(), sections());
    // A bad section is only met once the sections are read.
    let mut f = SNAP_MAGIC.to_vec();
    put_field(&mut f, b"h");
    put_field(&mut f, b"map");
    assert_eq!(read_snapshot_header(&f), Ok((b"h".to_vec(), 13)));
    assert_eq!(read_sections(&f[13..]), Err("a section with no body".to_string()));
    assert_eq!(read_snapshot_header(b"rimsnap1"), Err("a snapshot with no header".to_string()));
}

#[test]
fn sections_become_a_table_by_name() {
    let t = section_table(vec![
        ("pawns".to_string(), b"one".to_vec()),
        ("map".to_string(), b"m".to_vec()),
        ("pawns".to_string(), b"two".to_vec()),
    ]);
    assert_eq!(t, vec![("map".to_string(), b"m".to_vec()), ("pawns".to_string(), b"two".to_vec())]);
    assert!(section_table(Vec::new()).is_empty());
}

use mh1tool::amoold::{Chunk, ChunkError, Dir, EntryV1, SubData};

fn entry(ct: u16, dt: u16, count: u32, payload: &[u8]) -> Vec<u8> {
    let mut out = Vec::new();
    out.extend_from_slice(&ct.to_le_bytes());
    out.extend_from_slice(&dt.to_le_bytes());
    out.extend_from_slice(&count.to_le_bytes());
    out.extend_from_slice(&(12 + payload.len() as u32).to_le_bytes());
    out.extend_from_slice(payload);
    out
}

fn texture_info_payload() -> Vec<u8> {
    let mut p = Vec::new();
    p.extend_from_slice(&3u32.to_le_bytes());
    p.extend_from_slice(&128u32.to_le_bytes());
    p.extend_from_slice(&64u32.to_le_bytes());
    p.resize(0x100, 0);
    p[0x10] = 1;
    p
}

#[test]
fn chunk_read_reads_a_start_chunk_and_its_children() {
    let version = entry(0, 2, 0, &0x55u32.to_le_bytes());
    let textures = entry(0xa, 0, 1, &entry(0, 0, 0, &texture_info_payload()));
    let mut kids = version.clone();
    kids.extend_from_slice(&textures);
    let data = entry(1, 0, 2, &kids);
    let mut pos = 0u64;
    let chunk = Chunk::read(&data, &mut pos).unwrap();
    assert_eq!(pos, data.len() as u64);
    match chunk {
        Chunk::Start(children, size) => {
            assert_eq!(size as usize, data.len());
            assert_eq!(children.len(), 2);
            match &children[0] {
                Chunk::SubData(d) => assert!(matches!(**d, SubData::Version(0x55))),
                other => panic!("unexpected chunk {:?}", other),
            }
            match &children[1] {
                Chunk::TextureBegin(tex) => {
                    assert_eq!(tex.len(), 1);
                    match &tex[0] {
                        Chunk::SubData(d) => match &**d {
                            SubData::TextureInfo(t) => {
                                assert_eq!((t.id, t.width, t.height), (3, 128, 64));
                                assert_eq!(t._pad0[1], 1);
                            },
                            other => panic!("unexpected data {:?}", other),
                        },
                        other => panic!("unexpected chunk {:?}", other),
                    }
                },
                other => panic!("unexpected chunk {:?}", other),
            }
        },
        other => panic!("unexpected chunk {:?}", other),
    }
}

#[test]
fn chunk_read_reads_material_records() {
    let record: Vec<u8> = (0..0x104).map(|i| i as u8).collect();
    let data = entry(9, 0, 1, &entry(1, 0, 0, &record));
    let mut pos = 0u64;
    match Chunk::read(&data, &mut pos).unwrap() {
        Chunk::MaterialBegin(records) => {
            assert_eq!(records.len(), 1);
            match &records[0] {
                SubData::MaterialInfo1(m) => assert_eq!(m.bytes, record),
                other => panic!("unexpected data {:?}", other),
            }
        },
        other => panic!("unexpected chunk {:?}", other),
    }
    assert_eq!(pos, data.len() as u64);
}

#[test]
fn chunk_read_keeps_unknown_types() {
    let data = entry(5, 1, 7, &[0u8; 8]);
    let mut pos = 0u64;
    assert!(matches!(Chunk::read(&data, &mut pos).unwrap(), Chunk::UnknownChunkType(5, 1, 7, 20)));
    let data = entry(0, 3, 2, &[0u8; 4]);
    let mut pos = 0u64;
    match Chunk::read(&data, &mut pos).unwrap() {
        Chunk::SubData(d) => assert!(matches!(*d, SubData::UnknownSubDataType(0, 3, 2, 16))),
        other => panic!("unexpected chunk {:?}", other),
    }
    assert_eq!(pos, 16);
}

#[test]
fn chunk_read_reads_from_the_position() {
    let mut data = vec![0xee; 4];
    data.extend_from_slice(&entry(0, 2, 0, &9u32.to_le_bytes()));
    let mut pos = 4u64;
    match Chunk::read(&data, &mut pos).unwrap() {
        Chunk::SubData(d) => assert!(matches!(*d, SubData::Version(9))),
        other => panic!("unexpected chunk {:?}", other),
    }
    assert_eq!(pos, 20);
}

#[test]
fn chunk_read_reports_errors_where_the_cursor_stops() {
    // A chunk no larger than its head: the cursor is past the head.
    let mut pos = 0u64;
    assert_eq!(Chunk::read(&entry(1, 0, 0, &[]), &mut pos).unwrap_err(), ChunkError::ChunkTooSmall);
    assert_eq!(pos, 12);
    // A head cut short: the cursor is at the end of the data.
    let mut pos = 0u64;
    assert_eq!(Chunk::read(&[1, 0, 0, 0, 0], &mut pos).unwrap_err(), ChunkError::UnexpectedEnd);
    assert_eq!(pos, 5);
    // A start chunk whose child is missing.
    let data = entry(1, 0, 1, &[0u8; 4]);
    let mut pos = 0u64;
    assert_eq!(Chunk::read(&data, &mut pos).unwrap_err(), ChunkError::UnexpectedEnd);
    assert_eq!(pos, 16);
    // A child too small: the cursor is past the child's head.
    let mut data = entry(1, 0, 1, &entry(0, 2, 0, &[]));
    data.extend_from_slice(&[0u8; 8]);
    let mut pos = 0u64;
    assert_eq!(Chunk::read(&data, &mut pos).unwrap_err(), ChunkError::ChunkTooSmall);
    assert_eq!(pos, 24);
}

#[test]
fn checked_read_refuses_a_record_of_the_wrong_size() {
    let data = entry(9, 0, 1, &entry(1, 0, 0, &[0u8; 16]));
    let mut pos = 0u64;
    assert!(Chunk::checked_read(&data, &mut pos).is_none());
    assert_eq!(pos, 0);
}

#[test]
fn entry_read_skips_the_data() {
    let mut data = entry(4, 1, 3, &[1, 2, 3, 4]);
    data.extend_from_slice(&[9, 9]);
    let mut pos = 0u64;
    let e = EntryV1::read(&data, &mut pos).unwrap();
    assert_eq!((e.ty, e.data_type, e.count, e.size), (4, 1, 3, 16));
    assert_eq!(pos, 16);
}

#[test]
fn entry_read_reports_errors_where_the_cursor_stops() {
    let mut bad = entry(4, 1, 3, &[]);
    bad[8..12].copy_from_slice(&8u32.to_le_bytes());
    bad.extend_from_slice(&[0u8; 8]);
    let mut pos = 0u64;
    assert_eq!(EntryV1::read(&bad, &mut pos).unwrap_err(), ChunkError::CorruptEntry);
    assert_eq!(pos, 12);
    let mut long = entry(4, 1, 3, &[]);
    long[8..12].copy_from_slice(&40u32.to_le_bytes());
    let mut pos = 0u64;
    assert_eq!(EntryV1::read(&long, &mut pos).unwrap_err(), ChunkError::UnexpectedEnd);
    assert_eq!(pos, 12);
    let mut pos = 0u64;
    assert_eq!(EntryV1::read(&[0u8; 6], &mut pos).unwrap_err(), ChunkError::UnexpectedEnd);
    assert_eq!(pos, 6);
}

#[test]
fn dir_read_reads_every_entry() {
    let mut data = Vec::new();
    data.extend_from_slice(&7u32.to_le_bytes());
    data.extend_from_slice(&2u32.to_le_bytes());
    data.extend_from_slice(&99u32.to_le_bytes());
    data.extend_from_slice(&entry(1, 0, 0, &[5, 5]));
    data.extend_from_slice(&entry(2, 3, 4, &[]));
    let mut pos = 0u64;
    let dir = Dir::read(&data, &mut pos).unwrap();
    assert_eq!((dir.unk0, dir.count, dir.size), (7, 2, 99));
    assert_eq!(dir.values.len(), 2);
    assert_eq!((dir.values[0].ty, dir.values[0].size), (1, 14));
    assert_eq!((dir.values[1].ty, dir.values[1].data_type, dir.values[1].count), (2, 3, 4));
    assert_eq!(pos, data.len() as u64);
    // One entry fewer than the count announces.
    let short = &data[..data.len() - 12];
    let mut pos = 0u64;
    assert_eq!(Dir::read(short, &mut pos).unwrap_err(), ChunkError::UnexpectedEnd);
    assert_eq!(pos, short.len() as u64);
    // An entry too small: the cursor is past its head.
    let mut corrupt = data.clone();
    corrupt[12 + 8..12 + 12].copy_from_slice(&4u32.to_le_bytes());
    let mut pos = 0u64;
    assert_eq!(Dir::read(&corrupt, &mut pos).unwrap_err(), ChunkError::CorruptEntry);
    assert_eq!(pos, 24);
}

use mh1tool::{
    amo_ahi_expand, get_link_file_address, get_link_file_num, get_link_file_size, get_link_file_slice,
    load_texlist, read_afs_file, read_all_links, try_load_texlist, ArchiveError,
};

fn push_u32(out: &mut Vec<u8>, v: u32) {
    out.extend_from_slice(&v.to_le_bytes());
}

/// A link file of two entries: (20, 4) and (24, 3), then seven data bytes.
fn two_entry_file() -> Vec<u8> {
    let mut buf = Vec::new();
    push_u32(&mut buf, 2);
    push_u32(&mut buf, 20);
    push_u32(&mut buf, 4);
    push_u32(&mut buf, 24);
    push_u32(&mut buf, 3);
    buf.extend_from_slice(&[1, 2, 3, 4, 5, 6, 7]);
    buf
}

/// A 32-bit-per-pixel texture of 1 by 1 pixel.
fn tiny_texture(pixel: [u8; 4]) -> Vec<u8> {
    let mut t = vec![0u8; 0x20];
    t[0xc..0xe].copy_from_slice(&0x20i16.to_le_bytes());
    t[0xe..0x10].copy_from_slice(&1u16.to_le_bytes());
    t[0x10..0x12].copy_from_slice(&1u16.to_le_bytes());
    t[0x12..0x14].copy_from_slice(&1u16.to_le_bytes());
    t.extend_from_slice(&pixel);
    t
}

#[test]
fn link_file_num_reads_the_count() {
    assert_eq!(get_link_file_num(&two_entry_file()), Some(2));
    assert_eq!(get_link_file_num(&[1, 0, 0]), None);
}

#[test]
fn link_file_address_and_size_read_an_entry() {
    let buf = two_entry_file();
    assert_eq!(get_link_file_address(&buf, 0), Some(20));
    assert_eq!(get_link_file_size(&buf, 0), Some(4));
    assert_eq!(get_link_file_address(&buf, 1), Some(24));
    assert_eq!(get_link_file_size(&buf, 1), Some(3));
    assert_eq!(get_link_file_address(&buf, 3), None);
    assert_eq!(get_link_file_size(&buf, 3), None);
}

#[test]
fn link_file_slice_runs_to_the_end() {
    let buf = two_entry_file();
    assert_eq!(get_link_file_slice(&buf, 0), Some(&[1u8, 2, 3, 4, 5, 6, 7][..]));
    assert_eq!(get_link_file_slice(&buf, 1), Some(&[5u8, 6, 7][..]));
    assert_eq!(get_link_file_slice(&buf, 5), None);
    let mut far = two_entry_file();
    far[4..8].copy_from_slice(&100u32.to_le_bytes());
    assert_eq!(get_link_file_slice(&far, 0), None);
    // An offset at the very end gives an empty slice.
    far[4..8].copy_from_slice(&27u32.to_le_bytes());
    assert_eq!(get_link_file_slice(&far, 0), Some(&[][..]));
}

#[test]
fn read_all_links_reads_every_entry() {
    let links = read_all_links(&two_entry_file()).unwrap();
    assert_eq!(links.len(), 2);
    assert_eq!((links[0].offset, links[0].size), (20, 4));
    assert_eq!((links[1].offset, links[1].size), (24, 3));
    let mut short = two_entry_file();
    short[0..4].copy_from_slice(&9u32.to_le_bytes());
    assert!(read_all_links(&short).is_none());
    assert!(read_all_links(&[0, 0]).is_none());
    assert_eq!(read_all_links(&[0, 0, 0, 0]).unwrap().len(), 0);
}

#[test]
fn amo_ahi_expand_takes_the_first_two_entries() {
    let buf = two_entry_file();
    let (amo, ahi) = amo_ahi_expand(&buf).unwrap();
    assert_eq!(amo, &[1, 2, 3, 4]);
    assert_eq!(ahi, &[5, 6, 7]);
}

#[test]
fn amo_ahi_expand_refuses_an_entry_past_the_end() {
    let mut buf = two_entry_file();
    buf[16..20].copy_from_slice(&4u32.to_le_bytes());
    assert!(amo_ahi_expand(&buf).is_none());
    assert!(amo_ahi_expand(&buf[..10]).is_none());
}

#[test]
fn read_afs_file_reads_from_the_offset() {
    let mut data = Vec::new();
    push_u32(&mut data, 0xdead);
    push_u32(&mut data, 10);
    data.extend_from_slice(&[0, 0, 7, 8, 9]);
    assert_eq!(read_afs_file(&data), Ok(vec![7, 8, 9]));
    // An offset at or past the end gives nothing.
    data[4..8].copy_from_slice(&13u32.to_le_bytes());
    assert_eq!(read_afs_file(&data), Ok(vec![]));
}

#[test]
fn read_afs_file_refuses_a_short_header() {
    assert_eq!(read_afs_file(&[1, 2, 3, 4, 5]), Err(ArchiveError::UnexpectedEnd));
}

#[test]
fn load_texlist_reads_each_texture() {
    let first = tiny_texture([1, 2, 3, 4]);
    let second = tiny_texture([5, 6, 7, 8]);
    let mut data = Vec::new();
    push_u32(&mut data, 2);
    push_u32(&mut data, 20);
    push_u32(&mut data, first.len() as u32);
    push_u32(&mut data, 20 + first.len() as u32);
    push_u32(&mut data, second.len() as u32);
    data.extend_from_slice(&first);
    data.extend_from_slice(&second);
    let textures = load_texlist(&data).unwrap();
    assert_eq!(textures.len(), 2);
    assert_eq!(textures[0].mipmaps[0].pixels, vec![1, 2, 3, 4]);
    assert_eq!(textures[1].mipmaps[0].pixels, vec![5, 6, 7, 8]);
    assert_eq!((textures[1].width, textures[1].height), (1, 1));
}

#[test]
fn load_texlist_refuses_a_bad_texture() {
    let mut data = Vec::new();
    push_u32(&mut data, 1);
    push_u32(&mut data, 12);
    push_u32(&mut data, 4);
    data.extend_from_slice(&[0, 0, 0, 0]);
    assert!(load_texlist(&data).is_none());
    assert!(load_texlist(&[1]).is_none());
    assert!(matches!(try_load_texlist(&data), Some(None)));
}

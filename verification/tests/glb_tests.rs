use mh1tool::glb::{glb_container, push_buffer_bytes};

#[test]
fn push_buffer_bytes_pads_each_view_to_four_bytes() {
    let mut buffer = Vec::new();
    assert_eq!(push_buffer_bytes(&mut buffer, &[1, 2, 3, 4, 5]), (0, 5));
    assert_eq!(buffer, vec![1, 2, 3, 4, 5, 0, 0, 0]);
    assert_eq!(push_buffer_bytes(&mut buffer, &[6, 7, 8, 9]), (8, 4));
    assert_eq!(buffer, vec![1, 2, 3, 4, 5, 0, 0, 0, 6, 7, 8, 9]);
    assert_eq!(push_buffer_bytes(&mut buffer, &[]), (12, 0));
    assert_eq!(buffer.len(), 12);
}

#[test]
fn push_buffer_bytes_keeps_views_aligned() {
    let mut buffer = Vec::new();
    for n in 0..9usize {
        let bytes = vec![0xaa; n];
        let (offset, length) = push_buffer_bytes(&mut buffer, &bytes);
        assert_eq!(offset % 4, 0);
        assert_eq!(length as usize, n);
        assert_eq!(buffer.len() % 4, 0);
    }
}

#[test]
fn glb_container_frames_the_chunks() {
    let out = glb_container(b"{}", &[1, 2, 3, 4]);
    let mut expected = Vec::new();
    expected.extend_from_slice(b"glTF");
    expected.extend_from_slice(&2u32.to_le_bytes());
    expected.extend_from_slice(&36u32.to_le_bytes());
    expected.extend_from_slice(&4u32.to_le_bytes());
    expected.extend_from_slice(b"JSON");
    expected.extend_from_slice(b"{}  ");
    expected.extend_from_slice(&4u32.to_le_bytes());
    expected.extend_from_slice(b"BIN\0");
    expected.extend_from_slice(&[1, 2, 3, 4]);
    assert_eq!(out, expected);
}

#[test]
fn glb_container_length_field_is_the_file_length() {
    let out = glb_container(b"{\"asset\":1}", &[0; 8]);
    let total = u32::from_le_bytes([out[8], out[9], out[10], out[11]]);
    assert_eq!(total as usize, out.len());
    let json_len = u32::from_le_bytes([out[12], out[13], out[14], out[15]]);
    assert_eq!(json_len % 4, 0);
    assert_eq!(json_len, 12);
}

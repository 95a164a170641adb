use mh1tool::apx::{
    decode_palette_rgba, get_mipmap_pixels, unswizzle_indices4, unswizzle_indices8, unswizzle_ps2_clut,
    ApxError, ApxHeader, PaletteFormat, PixelFormat, Texture,
};

/// A 32-byte APX header.
fn header(bit_depth: i16, w: u16, h: u16, mips: u16, palette_type: u16, palette_num: u16, palette_offset: u32) -> Vec<u8> {
    let mut t = vec![0u8; 0x20];
    t[0..4].copy_from_slice(&0x1234u32.to_le_bytes());
    t[4..8].copy_from_slice(&palette_offset.to_le_bytes());
    t[8..12].copy_from_slice(&7u32.to_le_bytes());
    t[0xc..0xe].copy_from_slice(&bit_depth.to_le_bytes());
    t[0xe..0x10].copy_from_slice(&w.to_le_bytes());
    t[0x10..0x12].copy_from_slice(&h.to_le_bytes());
    t[0x12..0x14].copy_from_slice(&mips.to_le_bytes());
    t[0x14..0x16].copy_from_slice(&palette_type.to_le_bytes());
    t[0x16..0x18].copy_from_slice(&palette_num.to_le_bytes());
    for i in 0x18..0x20 {
        t[i] = i as u8;
    }
    t
}

fn parsed_header(bit_depth: i16, w: u16, h: u16, mips: u16, palette_type: u16, palette_offset: u32) -> ApxHeader {
    ApxHeader::read(&header(bit_depth, w, h, mips, palette_type, 1, palette_offset))
}

#[test]
fn apx_header_read_takes_every_field() {
    let h = ApxHeader::read(&header(-2, 640, 480, 3, 0x18, 2, 0x40));
    assert_eq!(h.unk0, 0x1234);
    assert_eq!(h.palette_offset, 0x40);
    assert_eq!(h.unk1, 7);
    assert_eq!(h.bit_depth, -2);
    assert_eq!((h.width, h.height), (640, 480));
    assert_eq!(h.mip_count, 3);
    assert_eq!(h.palette_type, 0x18);
    assert_eq!(h.palette_num, 2);
    assert_eq!(h.pad, [0x18, 0x19, 0x1a, 0x1b, 0x1c, 0x1d, 0x1e, 0x1f]);
}

#[test]
fn level_size_of_each_bit_depth() {
    assert_eq!(ApxHeader::level_size(0x20, 2, 3), 24);
    assert_eq!(ApxHeader::level_size(0x18, 2, 3), 24);
    assert_eq!(ApxHeader::level_size(0x10, 2, 3), 12);
    assert_eq!(ApxHeader::level_size(8, 2, 3), 6);
    assert_eq!(ApxHeader::level_size(4, 3, 3), 4);
    assert_eq!(ApxHeader::level_size(7, 3, 3), 0);
}

#[test]
fn mip_offset_adds_the_levels_before() {
    let h = parsed_header(0x20, 4, 4, 3, 0, 0);
    assert_eq!(h.mip_offset(0), 0x20);
    assert_eq!(h.mip_offset(1), 0x20 + 64);
    assert_eq!(h.mip_offset(2), 0x20 + 64 + 16);
    let h24 = parsed_header(0x18, 4, 2, 2, 0, 0);
    assert_eq!(h24.mip_offset(1), 0x20 + 24);
    let h16 = parsed_header(0x10, 4, 2, 2, 0, 0);
    assert_eq!(h16.mip_offset(1), 0x20 + 16);
    let h8 = parsed_header(8, 4, 2, 2, 0, 0);
    assert_eq!(h8.mip_offset(2), 0x20 + 8 + 2);
    // Four-bit levels round their byte count up.
    let h4 = parsed_header(4, 3, 3, 2, 0, 0);
    assert_eq!(h4.mip_offset(1), 0x20 + 5);
    let unknown = parsed_header(9, 4, 4, 2, 0, 0);
    assert_eq!(unknown.mip_offset(2), 0x20);
}

#[test]
fn mip_palette_offset_adds_a_palette_per_level() {
    let h = parsed_header(8, 4, 4, 2, 0x20, 0x10);
    assert_eq!(h.mip_palette_offset(0), 0x20 + 0x10);
    assert_eq!(h.mip_palette_offset(1), 0x20 + 16 + 0x10 + 0x100 * 4);
    let h4 = parsed_header(4, 4, 4, 2, 0x18, 0);
    assert_eq!(h4.mip_palette_offset(1), 0x20 + 8 + 0x10 * 3);
    let h16 = parsed_header(4, 4, 4, 2, 0x10, 0);
    assert_eq!(h16.mip_palette_offset(1), 0x20 + 8 + 0x10 * 2);
    let other = parsed_header(4, 4, 4, 2, 0x11, 0);
    assert_eq!(other.mip_palette_offset(1), 0x20 + 8);
}

#[test]
fn mip_dims_halve_the_first_level() {
    let h = parsed_header(0x20, 8, 4, 3, 0, 0);
    assert_eq!(h.mip_dims(0), (8, 4));
    assert_eq!(h.mip_dims(1), (4, 2));
    assert_eq!(h.mip_dims(3), (1, 0));
}

#[test]
fn pixel_format_of_each_bit_depth() {
    assert_eq!(PixelFormat::from_bit_depth(0x20), Ok(PixelFormat::Rgba32));
    assert_eq!(PixelFormat::from_bit_depth(0x18), Ok(PixelFormat::Rgb24));
    assert_eq!(PixelFormat::from_bit_depth(0x10), Ok(PixelFormat::Rgba5A1));
    assert_eq!(PixelFormat::from_bit_depth(8), Ok(PixelFormat::Indexed8));
    assert_eq!(PixelFormat::from_bit_depth(4), Ok(PixelFormat::Indexed4));
    assert_eq!(PixelFormat::from_bit_depth(7), Err(ApxError::UnknownBitDepth(7)));
    assert_eq!(parsed_header(8, 1, 1, 1, 0, 0).pixel_format(), Ok(PixelFormat::Indexed8));
    assert_eq!(parsed_header(-1, 1, 1, 1, 0, 0).pixel_format(), Err(ApxError::UnknownBitDepth(-1)));
}

#[test]
fn pixel_format_indexed_and_buffer_sizes() {
    assert!(PixelFormat::Indexed8.is_indexed());
    assert!(PixelFormat::Indexed4.is_indexed());
    assert!(!PixelFormat::Rgba32.is_indexed());
    assert!(!PixelFormat::Rgb24.is_indexed());
    assert!(!PixelFormat::Rgba5A1.is_indexed());
    assert_eq!(PixelFormat::Rgba32.get_buf_size(3, 5), 60);
    assert_eq!(PixelFormat::Rgb24.get_buf_size(3, 5), 60);
    assert_eq!(PixelFormat::Rgba5A1.get_buf_size(3, 5), 30);
    assert_eq!(PixelFormat::Indexed8.get_buf_size(3, 5), 15);
    assert_eq!(PixelFormat::Indexed4.get_buf_size(3, 5), 7);
}

#[test]
fn palette_format_from_raw() {
    assert_eq!(PaletteFormat::from_raw(0x20), Ok(PaletteFormat::Rgba8));
    assert_eq!(PaletteFormat::from_raw(0x18), Ok(PaletteFormat::Rgb8));
    assert_eq!(PaletteFormat::from_raw(0x10), Ok(PaletteFormat::Rgba5A1));
    assert_eq!(PaletteFormat::from_raw(0x11), Err(ApxError::UnknownPaletteType(0x11)));
}

fn swapped_block(base: u8) -> Vec<u8> {
    let mut v = Vec::new();
    for i in 0..8 {
        v.push(base + i);
    }
    for i in 16..24 {
        v.push(base + i);
    }
    for i in 8..16 {
        v.push(base + i);
    }
    for i in 24..32 {
        v.push(base + i);
    }
    v
}

#[test]
fn unswizzle_indices8_swaps_the_middle_rows_of_each_block() {
    let input: Vec<u8> = (0..70).collect();
    let out = unswizzle_indices8(&input, 8, 8);
    let mut expected = swapped_block(0);
    expected.extend(swapped_block(32));
    expected.extend(64..70);
    assert_eq!(out, expected);
    // Fewer than 32 indices are left as they are.
    let small: Vec<u8> = (0..20).collect();
    assert_eq!(unswizzle_indices8(&small, 4, 5), small);
}

#[test]
fn unswizzle_indices4_works_on_the_packed_bytes() {
    let input: Vec<u8> = (0..40).collect();
    let out = unswizzle_indices4(&input, 8, 8);
    let mut expected = swapped_block(0);
    expected.extend(32..40);
    assert_eq!(out, expected);
    assert_eq!(unswizzle_indices4(&input, 4, 4), input);
}

#[test]
fn unswizzling_indices_twice_gives_them_back() {
    let input: Vec<u8> = (0..100).map(|i| (i * 7) as u8).collect();
    let once = unswizzle_indices8(&input, 10, 10);
    assert_ne!(once, input);
    assert_eq!(unswizzle_indices8(&once, 10, 10), input);
    let once4 = unswizzle_indices4(&input, 10, 10);
    assert_eq!(unswizzle_indices4(&once4, 10, 10), input);
}

#[test]
fn unswizzle_ps2_clut_swaps_colour_groups() {
    let palette: Vec<u8> = (0..1024).map(|i| (i / 4) as u8).collect();
    let out = unswizzle_ps2_clut(&palette);
    assert_eq!(out.len(), 1024);
    // Colour 8 and colour 16 trade places in every block of 32 colours.
    assert_eq!(&out[8 * 4..8 * 4 + 4], &[16, 16, 16, 16]);
    assert_eq!(&out[16 * 4..16 * 4 + 4], &[8, 8, 8, 8]);
    assert_eq!(&out[(32 + 15) * 4..(32 + 15) * 4 + 4], &[32 + 23; 4]);
    assert_eq!(&out[0..4], &[0, 0, 0, 0]);
    assert_eq!(&out[24 * 4..24 * 4 + 4], &[24, 24, 24, 24]);
    assert_eq!(unswizzle_ps2_clut(&out), palette);
    // A palette of another length is left as it is.
    let short: Vec<u8> = (0..64).collect();
    assert_eq!(unswizzle_ps2_clut(&short), short);
}

#[test]
fn get_mipmap_pixels_reads_a_level() {
    let mut buf = vec![0u8; 4];
    buf.extend(1..=16u8);
    assert_eq!(get_mipmap_pixels(&buf, 4, 2, 2, PixelFormat::Rgba32, false), Ok((1..=16u8).collect()));
    assert_eq!(get_mipmap_pixels(&buf, 4, 2, 2, PixelFormat::Rgba5A1, false), Ok((1..=8u8).collect()));
    assert_eq!(get_mipmap_pixels(&buf, 4, 3, 3, PixelFormat::Indexed4, true), Ok((1..=4u8).collect()));
    assert_eq!(
        get_mipmap_pixels(&buf, 8, 2, 2, PixelFormat::Rgb24, false),
        Err(ApxError::LevelTooSmall(PixelFormat::Rgb24))
    );
}

#[test]
fn get_mipmap_pixels_unswizzles_indexed_levels_on_request() {
    let buf: Vec<u8> = (0..32).collect();
    assert_eq!(get_mipmap_pixels(&buf, 0, 8, 4, PixelFormat::Indexed8, true), Ok(swapped_block(0)));
    assert_eq!(get_mipmap_pixels(&buf, 0, 8, 4, PixelFormat::Indexed8, false), Ok(buf.clone()));
}

#[test]
fn decode_palette_rgba_widens_colours() {
    assert_eq!(decode_palette_rgba(PaletteFormat::Rgba8, &[1, 2, 3, 4]), Ok(vec![1, 2, 3, 4]));
    assert_eq!(decode_palette_rgba(PaletteFormat::Rgb8, &[10, 20, 30]), Ok(vec![10, 20, 30, 0xff]));
    // 0x801f: red 31, green 0, blue 0, alpha set.
    assert_eq!(decode_palette_rgba(PaletteFormat::Rgba5A1, &[0x1f, 0x80]), Ok(vec![255, 0, 0, 255]));
    // 0x03e0: green 31, no alpha; 0x7c00: blue 31; 0x0421: every channel 1.
    assert_eq!(
        decode_palette_rgba(PaletteFormat::Rgba5A1, &[0xe0, 0x03, 0x00, 0x7c, 0x21, 0x04]),
        Ok(vec![0, 255, 0, 0, 0, 0, 255, 0, 8, 8, 8, 0])
    );
}

/// A 32-bit texture of 2 by 2 pixels with two levels.
fn rgba_texture() -> Vec<u8> {
    let mut t = header(0x20, 2, 2, 2, 0, 0, 0);
    t.extend(1..=16u8);
    t.extend([100, 101, 102, 103]);
    t
}

#[test]
fn parse_reads_every_level() {
    let t = Texture::parse(&rgba_texture(), false).unwrap();
    assert_eq!((t.width, t.height, t.bit_depth), (2, 2, 0x20));
    assert_eq!(t.format, PixelFormat::Rgba32);
    assert_eq!(t.mipmaps.len(), 2);
    assert_eq!((t.mipmaps[0].width, t.mipmaps[0].height), (2, 2));
    assert_eq!(t.mipmaps[0].pixels, (1..=16u8).collect::<Vec<u8>>());
    assert_eq!((t.mipmaps[1].width, t.mipmaps[1].height), (1, 1));
    assert_eq!(t.mipmaps[1].pixels, vec![100, 101, 102, 103]);
    assert!(t.palette.is_none());
    assert_eq!(t.palette_type, None);
}

#[test]
fn parse_stops_at_a_level_without_pixels() {
    let mut t = header(0x20, 1, 1, 5, 0, 0, 0);
    t.extend([9, 8, 7, 6]);
    let tex = Texture::parse(&t, false).unwrap();
    assert_eq!(tex.mipmaps.len(), 1);
}

#[test]
fn parse_reports_errors() {
    assert_eq!(Texture::parse(&[0u8; 10], false).unwrap_err(), ApxError::HeaderTooSmall);
    assert_eq!(Texture::parse(&header(3, 1, 1, 1, 0, 0, 0), false).unwrap_err(), ApxError::UnknownBitDepth(3));
    assert_eq!(
        Texture::parse(&header(0x10, 2, 2, 1, 0, 0, 0), false).unwrap_err(),
        ApxError::LevelTooSmall(PixelFormat::Rgba5A1)
    );
    let mut bad_palette = header(8, 1, 1, 1, 0x11, 1, 0);
    bad_palette.push(0);
    assert_eq!(Texture::parse(&bad_palette, false).unwrap_err(), ApxError::InvalidPaletteType(0x11));
}

#[test]
fn try_parse_refuses_a_palette_past_the_end() {
    let mut t = header(8, 1, 1, 1, 0x20, 1, 0);
    t.push(0);
    assert!(Texture::try_parse(&t, false).is_none());
    assert!(matches!(Texture::try_parse(&rgba_texture(), false), Some(Ok(_))));
}

/// An 8-bit indexed texture of 2 by 2 pixels with a 32-bit palette whose
/// colour `i` is (i, i + 1, i + 2, 255).
fn indexed8_texture() -> Vec<u8> {
    let mut t = header(8, 2, 2, 1, 0x20, 1, 4);
    t.extend([0, 1, 2, 255]);
    for i in 0..256u32 {
        t.extend([i as u8, (i + 1) as u8, (i + 2) as u8, 255]);
    }
    t
}

#[test]
fn parse_reads_the_palette_of_an_indexed_texture() {
    let t = Texture::parse(&indexed8_texture(), false).unwrap();
    assert_eq!(t.format, PixelFormat::Indexed8);
    assert_eq!(t.palette_type, Some(PaletteFormat::Rgba8));
    let palette = t.palette.as_ref().unwrap();
    assert_eq!(palette.len(), 1024);
    assert_eq!(&palette[4..8], &[1, 2, 3, 255]);
    assert_eq!(t.mipmaps[0].pixels, vec![0, 1, 2, 255]);
}

#[test]
fn decode_rgba_looks_up_palette_colours() {
    let t = Texture::parse(&indexed8_texture(), false).unwrap();
    assert!(t.can_decode(0));
    let (w, h, rgba) = t.decode_rgba(0).unwrap();
    assert_eq!((w, h), (2, 2));
    assert_eq!(
        rgba,
        vec![0, 1, 2, 255, 1, 2, 3, 255, 2, 3, 4, 255, 255, 0, 1, 255]
    );
}

#[test]
fn decode_rgba_of_direct_colour_formats() {
    let t = Texture::parse(&rgba_texture(), false).unwrap();
    assert_eq!(t.decode_rgba(1).unwrap(), (1, 1, vec![100, 101, 102, 103]));

    let mut rgb = header(0x18, 1, 1, 1, 0, 0, 0);
    rgb.extend([5, 6, 7, 8]);
    let t = Texture::parse(&rgb, false).unwrap();
    assert!(t.can_decode(0));
    assert_eq!(t.decode_rgba(0).unwrap(), (1, 1, vec![5, 6, 7, 0xff]));

    let mut c5551 = header(0x10, 2, 1, 1, 0, 0, 0);
    c5551.extend([0x1f, 0x80, 0xe0, 0x03]);
    let t = Texture::parse(&c5551, false).unwrap();
    assert_eq!(t.decode_rgba(0).unwrap(), (2, 1, vec![255, 0, 0, 255, 0, 255, 0, 0]));
}

#[test]
fn decode_rgba_of_a_four_bit_texture_reads_both_nibbles() {
    let mut t = header(4, 2, 1, 1, 0x10, 1, 1);
    // One byte: low nibble 1, high nibble 2.
    t.push(0x21);
    // A 16-colour 5551 palette: colour 1 red, colour 2 green, others black.
    for i in 0..16u16 {
        let c: u16 = if i == 1 { 0x801f } else if i == 2 { 0x83e0 } else { 0 };
        t.extend(c.to_le_bytes());
    }
    let tex = Texture::parse(&t, false).unwrap();
    assert_eq!(tex.format, PixelFormat::Indexed4);
    assert!(tex.can_decode(0));
    assert_eq!(tex.decode_rgba(0).unwrap(), (2, 1, vec![255, 0, 0, 255, 0, 255, 0, 255]));
}

#[test]
fn decode_rgba_needs_a_palette_for_indexed_pixels() {
    let mut t = header(8, 1, 1, 1, 0x20, 0, 0);
    t.push(3);
    let tex = Texture::parse(&t, false).unwrap();
    assert!(tex.palette.is_none());
    assert!(tex.can_decode(0));
    assert_eq!(tex.decode_rgba(0).unwrap_err(), ApxError::MissingPalette);
}

#[test]
fn can_decode_refuses_a_missing_level() {
    let t = Texture::parse(&rgba_texture(), false).unwrap();
    assert!(t.can_decode(1));
    assert!(!t.can_decode(2));
}

#[test]
fn save_targets_name_one_file_per_level() {
    let targets = Texture::save_targets("out/tex.3", &[0, 1, 12]);
    assert_eq!(
        targets,
        vec![
            ("out/tex.3.0.png".to_string(), 0),
            ("out/tex.3.1.png".to_string(), 0),
            ("out/tex.3.12.png".to_string(), 0),
        ]
    );
}

#[test]
fn save_targets_without_levels_names_the_first() {
    assert_eq!(Texture::save_targets("a", &[]), vec![("a.0.png".to_string(), 0)]);
}

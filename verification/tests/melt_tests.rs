use mh1tool::{meltw, MeltError};

#[test]
fn meltw_copies_a_literal_word() {
    // Control word 0x4000: the first flag is clear (literal), the second set
    // (a reference whose lower and upper parts are zero: the end).
    let input = [0x00, 0x40, 0x34, 0x12, 0x00, 0x00, 0x00, 0x00];
    assert_eq!(meltw(&input), Ok(vec![0x34, 0x12]));
}

#[test]
fn meltw_writes_a_run_of_zero_words() {
    // 0x1800: upper = 3 (top five bits), lower = 0 after masking: three zero words.
    let input = [0x00, 0xc0, 0x00, 0x18, 0x00, 0x00, 0x00, 0x00];
    assert_eq!(meltw(&input), Ok(vec![0, 0, 0, 0, 0, 0]));
}

#[test]
fn meltw_copies_words_from_earlier_output() {
    // A literal, then 0x1001: copy two words from one word back.
    let input = [0x00, 0x60, 0xab, 0xcd, 0x01, 0x10, 0x00, 0x00, 0x00, 0x00];
    assert_eq!(meltw(&input), Ok(vec![0xab, 0xcd, 0xab, 0xcd, 0xab, 0xcd]));
}

#[test]
fn meltw_reads_a_long_count_from_the_next_word() {
    // 0x0001 has no count in its top bits, so the count 2 comes next and the
    // distance stays unmasked.
    let input = [0x00, 0x60, 0x11, 0x22, 0x01, 0x00, 0x02, 0x00, 0x00, 0x00, 0x00, 0x00];
    assert_eq!(meltw(&input), Ok(vec![0x11, 0x22, 0x11, 0x22, 0x11, 0x22]));
}

#[test]
fn meltw_copies_overlapping_references_word_by_word() {
    // Two literals (a b), then copy three words from two words back: a b a.
    let input = [
        0x00, 0x30, 0x01, 0x02, 0x03, 0x04, 0x02, 0x18, 0x00, 0x00, 0x00, 0x00,
    ];
    assert_eq!(
        meltw(&input),
        Ok(vec![0x01, 0x02, 0x03, 0x04, 0x01, 0x02, 0x03, 0x04, 0x01, 0x02])
    );
}

#[test]
fn meltw_reads_a_new_control_word_after_sixteen_flags() {
    let mut input = vec![0x00, 0x00];
    let mut expected = Vec::new();
    for i in 0..16u8 {
        input.push(i);
        input.push(0x80 + i);
        expected.push(i);
        expected.push(0x80 + i);
    }
    input.extend_from_slice(&[0x00, 0x80, 0x00, 0x00, 0x00, 0x00]);
    assert_eq!(meltw(&input), Ok(expected));
}

#[test]
fn meltw_rejects_a_reference_before_the_output() {
    // Distance of one word with nothing written yet.
    let input = [0x00, 0x80, 0x01, 0x08];
    assert_eq!(meltw(&input), Err(MeltError::InvalidBackreference));
}

#[test]
fn meltw_rejects_a_stream_that_ends_early() {
    assert_eq!(meltw(&[]), Err(MeltError::UnexpectedEnd));
    assert_eq!(meltw(&[0x00]), Err(MeltError::UnexpectedEnd));
    // A literal flag whose word is missing.
    assert_eq!(meltw(&[0x00, 0x00, 0x12]), Err(MeltError::UnexpectedEnd));
    // A long count that is missing.
    assert_eq!(meltw(&[0x00, 0x80, 0x01, 0x00]), Err(MeltError::UnexpectedEnd));
}

#[test]
fn meltw_output_has_even_length() {
    let inputs: Vec<Vec<u8>> = vec![
        vec![0x00, 0x40, 0x34, 0x12, 0x00, 0x00, 0x00, 0x00],
        vec![0x00, 0xc0, 0x00, 0x18, 0x00, 0x00, 0x00, 0x00],
        vec![0x00, 0x60, 0xab, 0xcd, 0x01, 0x10, 0x00, 0x00, 0x00, 0x00],
    ];
    for input in inputs {
        let out = meltw(&input).unwrap();
        assert_eq!(out.len() % 2, 0);
    }
}

#[test]
fn meltw_ignores_bytes_after_the_end_marker() {
    let input = [0x00, 0x40, 0x34, 0x12, 0x00, 0x00, 0x00, 0x00];
    let mut longer = input.to_vec();
    longer.extend_from_slice(&[0xde, 0xad, 0xbe]);
    assert_eq!(meltw(&input), meltw(&longer));
}

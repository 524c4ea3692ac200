use qoi_img::format_output;

#[test]
fn lists_encoded_stream() {
    let mut buf = vec![0x71, 0x6f, 0x69, 0x66, 0, 0, 0, 1, 0, 0, 0, 1, 3, 0, 0xfe, 10, 20, 30];
    buf.extend_from_slice(&[0; 8]);
    let text = format_output(&buf, true);
    assert_eq!(
        text,
        "71 6f 69 66 ( qoif )\n00 00 00 01 ( 1 )\n00 00 00 01 ( 1 )\n03 00 ( 3, 0 )\nfe 0a 14 1e ( QoiOps::RGB 10 20 30 )\n00 00 00 00 00 00 00 00 ( QOI END MARKER )\n"
    );
}

#[test]
fn lists_every_chunk_kind() {
    let mut buf = vec![0x71, 0x6f, 0x69, 0x66, 0, 0, 1, 0, 0, 0, 0, 2, 4, 1];
    buf.extend_from_slice(&[0x7e, 0x89, 0x57, 0x09, 0xc3, 0xff, 1, 2, 3, 4]);
    buf.extend_from_slice(&[0; 8]);
    let text = format_output(&buf, true);
    assert_eq!(
        text,
        "71 6f 69 66 ( qoif )\n00 00 01 00 ( 256 )\n00 00 00 02 ( 2 )\n04 01 ( 4, 1 )\n\
7e ( QoiOps::DIFF 1 1 0 )\n\
89 57 ( QoiOps::LUMA -26 -23 -24 )\n\
09 ( QoiOps::INDEX 9 )\n\
c3 ( QoiOps::RUN 3 )\n\
ff 01 02 03 04 ( QoiOps::RGBA 1 2 3 4 )\n\
00 00 00 00 00 00 00 00 ( QOI END MARKER )\n"
    );
}

#[test]
fn lists_decoded_image() {
    let buf = vec![0, 0, 0, 1, 0, 0, 0, 1, 3, 0, 10, 20, 30, 255];
    let text = format_output(&buf, false);
    assert_eq!(
        text,
        "00 00 00 01 ( 1 )\n00 00 00 01 ( 1 )\n03 00 ( 3, 0 )\n0a 14 1e ff ( 10 20 30 255 )\n"
    );
}

#[test]
fn lists_decoded_image_with_partial_group() {
    let buf = vec![0, 0, 0, 2, 0, 0, 0, 1, 4, 0, 1, 2, 3, 4, 5, 6];
    let text = format_output(&buf, false);
    assert_eq!(
        text,
        "00 00 00 02 ( 2 )\n00 00 00 01 ( 1 )\n04 00 ( 4, 0 )\n01 02 03 04 ( 1 2 3 4 )\n05 06 "
    );
}

#[test]
fn lists_large_dimensions() {
    let buf = vec![0xff, 0xff, 0xff, 0xff, 0x00, 0x01, 0x86, 0xa0, 3, 1, 0xab];
    let text = format_output(&buf, false);
    assert_eq!(text, "ff ff ff ff ( 4294967295 )\n00 01 86 a0 ( 100000 )\n03 01 ( 3, 1 )\nab ");
}

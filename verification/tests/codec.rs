use qoi_img::decode::try_decode;
use qoi_img::{decode, encode, Pixels};

const MAGIC: [u8; 4] = [0x71, 0x6f, 0x69, 0x66];
const END: [u8; 8] = [0; 8];

fn stream(w: u32, h: u32, ch: u8, cs: u8, chunks: &[u8]) -> Vec<u8> {
    let mut v = MAGIC.to_vec();
    v.extend_from_slice(&w.to_be_bytes());
    v.extend_from_slice(&h.to_be_bytes());
    v.push(ch);
    v.push(cs);
    v.extend_from_slice(chunks);
    v.extend_from_slice(&END);
    v
}

fn image(w: u32, h: u32, ch: u8, cs: u8, pixels: &[u8]) -> Vec<u8> {
    let mut v = w.to_be_bytes().to_vec();
    v.extend_from_slice(&h.to_be_bytes());
    v.push(ch);
    v.push(cs);
    v.extend_from_slice(pixels);
    v
}

fn enc(w: u32, h: u32, ch: u8, cs: u8, bin: &[u8]) -> Vec<u8> {
    let mut px = Pixels::new(bin.to_vec(), ch as usize);
    let out = encode(w, h, ch, cs, &mut px);
    assert_eq!(px.next(), None);
    out
}

#[test]
fn encodes_full_colour() {
    let out = enc(1, 1, 3, 0, &[10, 20, 30]);
    assert_eq!(out, stream(1, 1, 3, 0, &[254, 10, 20, 30]));
}

#[test]
fn encodes_empty_image() {
    let out = enc(0, 0, 4, 1, &[]);
    assert_eq!(out, stream(0, 0, 4, 1, &[]));
    assert_eq!(out.len(), 22);
    assert_eq!(decode(&out), image(0, 0, 4, 1, &[]));
}

#[test]
fn encodes_alpha_change() {
    let out = enc(1, 1, 4, 0, &[1, 2, 3, 4]);
    assert_eq!(out, stream(1, 1, 4, 0, &[255, 1, 2, 3, 4]));
    assert_eq!(decode(&out), image(1, 1, 4, 0, &[1, 2, 3, 4]));
}

#[test]
fn encodes_runs_of_the_previous_pixel() {
    let out = enc(3, 1, 4, 0, &[0, 0, 0, 255, 0, 0, 0, 255, 0, 0, 0, 255]);
    assert_eq!(out, stream(3, 1, 4, 0, &[195]));
    assert_eq!(decode(&out), image(3, 1, 4, 0, &[0, 0, 0, 255, 0, 0, 0, 255, 0, 0, 0, 255]));
}

#[test]
fn encodes_table_hits() {
    let bin = [10, 20, 30, 200, 100, 50, 10, 20, 30];
    let out = enc(3, 1, 3, 0, &bin);
    assert_eq!(out, stream(3, 1, 3, 0, &[254, 10, 20, 30, 254, 200, 100, 50, 9]));
    assert_eq!(decode(&out), image(3, 1, 3, 0, &[10, 20, 30, 255, 200, 100, 50, 255, 10, 20, 30, 255]));
}

#[test]
fn encodes_small_differences() {
    let out = enc(1, 1, 3, 0, &[1, 1, 0]);
    assert_eq!(out, stream(1, 1, 3, 0, &[126]));
    assert_eq!(decode(&out), image(1, 1, 3, 0, &[1, 1, 0, 255]));
}

#[test]
fn encodes_luma_steps() {
    let out = enc(1, 1, 3, 0, &[0, 2, 0]);
    assert_eq!(out, stream(1, 1, 3, 0, &[128 + 34, 16 * 6 + 6]));
}

#[test]
fn decoder_refuses_luma_chunks() {
    let out = enc(1, 1, 3, 0, &[0, 2, 0]);
    assert_eq!(try_decode(&out), None);
}

#[test]
fn decoder_refuses_short_buffers() {
    assert_eq!(try_decode(&vec![0x71, 0x6f, 0x69, 0x66, 0, 0, 0, 1, 0, 0, 0, 1, 3]), None);
    assert_eq!(try_decode(&vec![]), None);
}

#[test]
fn decoder_reads_green_step_from_second_byte() {
    // A small-difference chunk whose green step is not +1 comes back with a +1 green step.
    let out = enc(1, 1, 3, 0, &[1, 0, 0]);
    assert_eq!(out, stream(1, 1, 3, 0, &[122]));
    assert_eq!(decode(&out), image(1, 1, 3, 0, &[1, 1, 0, 255]));
}

#[test]
fn long_runs_are_split() {
    let bin: Vec<u8> = [0u8, 0, 0, 255].repeat(63);
    let out = enc(63, 1, 4, 0, &bin);
    assert_eq!(out, stream(63, 1, 4, 0, &[253, 193]));
    assert_eq!(decode(&out), image(63, 1, 4, 0, &[0u8, 0, 0, 255].repeat(62)));
}

#[test]
fn run_of_sixty_two_is_written_as_254() {
    let bin: Vec<u8> = [0u8, 0, 0, 255].repeat(62);
    let out = enc(62, 1, 4, 0, &bin);
    assert_eq!(out, stream(62, 1, 4, 0, &[254]));
}

#[test]
fn round_trip_of_mixed_image() {
    let bin = [
        0, 0, 0, 255, 0, 0, 0, 255, 10, 20, 30, 255, 11, 21, 30, 255, 11, 21, 30, 255, 11, 21, 30, 255,
        200, 100, 50, 7, 10, 20, 30, 255, 200, 100, 50, 7,
    ];
    let out = enc(9, 1, 4, 0, &bin);
    assert_eq!(decode(&out), image(9, 1, 4, 0, &bin));
    assert_eq!(decode(&out).len(), 10 + 4 * 9);
}

#[test]
fn decodes_chunks_by_kind() {
    let buf = stream(1, 5, 4, 0, &[254, 10, 20, 30, 255, 1, 2, 3, 4, 9, 194]);
    assert_eq!(
        decode(&buf),
        image(1, 5, 4, 0, &[10, 20, 30, 255, 1, 2, 3, 4, 10, 20, 30, 255, 10, 20, 30, 255, 10, 20, 30, 255])
    );
}

#[test]
fn decoded_output_starts_with_header_fields() {
    let buf = stream(0x01020304, 0x0a0b0c0d, 3, 1, &[]);
    assert_eq!(decode(&buf), vec![1, 2, 3, 4, 10, 11, 12, 13, 3, 1]);
}

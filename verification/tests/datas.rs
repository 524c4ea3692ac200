use qoi_img::datas::{
    addsub_with_wrap, get_apos, get_diff_val, get_lumas, mv_un_tosized_buf, test_for_diff,
    u32_to_u8arr, u8arr_to_u32, QoiOps,
};
use qoi_img::{parse_binary_to_tuple, pix_eq, Pixels};

#[test]
fn pix_eq_compares_all_channels() {
    assert!(pix_eq((1, 2, 3, 4), (1, 2, 3, 4)));
    assert!(!pix_eq((1, 2, 3, 4), (1, 2, 3, 5)));
    assert!(!pix_eq((1, 2, 3, 4), (0, 2, 3, 4)));
    assert!(!pix_eq((1, 2, 3, 4), (1, 9, 3, 4)));
    assert!(!pix_eq((1, 2, 3, 4), (1, 2, 9, 4)));
}

#[test]
fn big_endian_bytes() {
    assert_eq!(u32_to_u8arr(0x01020304), [1, 2, 3, 4]);
    assert_eq!(u32_to_u8arr(0), [0, 0, 0, 0]);
    assert_eq!(u32_to_u8arr(u32::MAX), [255, 255, 255, 255]);
    assert_eq!(u8arr_to_u32(&[1, 2, 3, 4]), 0x01020304);
    assert_eq!(u8arr_to_u32(&[0, 0, 1, 0]), 256);
}

#[test]
fn big_endian_round_trips() {
    for n in [0u32, 1, 255, 256, 65535, 0x12345678, u32::MAX] {
        assert_eq!(u8arr_to_u32(&u32_to_u8arr(n)), n);
    }
    for b in [[0u8, 0, 0, 0], [9, 8, 7, 6], [255, 0, 255, 0]] {
        assert_eq!(u32_to_u8arr(u8arr_to_u32(&b)), b);
    }
}

#[test]
fn copies_first_four_bytes() {
    let mut buf = [0u8; 4];
    mv_un_tosized_buf(&[9, 8, 7, 6, 5], &mut buf);
    assert_eq!(buf, [9, 8, 7, 6]);
}

#[test]
fn table_positions() {
    assert_eq!(get_apos((0, 0, 0, 255)), 53);
    assert_eq!(get_apos((1, 2, 3, 4)), 14);
    assert_eq!(get_apos((10, 20, 30, 255)), 9);
    assert_eq!(get_apos((255, 255, 255, 255)), (255 * 26) % 64);
    assert!(get_apos((200, 13, 77, 5)) < 64);
}

#[test]
fn chunk_kinds_by_first_byte() {
    assert!(matches!(QoiOps::get_op(254), QoiOps::RGB));
    assert!(matches!(QoiOps::get_op(255), QoiOps::RGBA));
    assert!(matches!(QoiOps::get_op(0), QoiOps::INDEX));
    assert!(matches!(QoiOps::get_op(63), QoiOps::INDEX));
    assert!(matches!(QoiOps::get_op(64), QoiOps::DIFF));
    assert!(matches!(QoiOps::get_op(127), QoiOps::DIFF));
    assert!(matches!(QoiOps::get_op(128), QoiOps::LUMA));
    assert!(matches!(QoiOps::get_op(191), QoiOps::LUMA));
    assert!(matches!(QoiOps::get_op(192), QoiOps::RUN));
    assert!(matches!(QoiOps::get_op(253), QoiOps::RUN));
}

#[test]
fn small_differences() {
    assert_eq!(get_diff_val(10, 11), 3);
    assert_eq!(get_diff_val(10, 8), 0);
    assert_eq!(get_diff_val(0, 255), 1);
    assert_eq!(get_diff_val(255, 0), 3);
    assert_eq!(get_diff_val(0, 10), 12);
    assert!(test_for_diff((1, 1, 0, 255), (0, 0, 0, 255)));
    assert!(test_for_diff((255, 0, 1, 9), (0, 0, 0, 9)));
    assert!(!test_for_diff((2, 0, 0, 255), (0, 0, 0, 255)));
    assert!(!test_for_diff((0, 0, 253, 255), (0, 0, 0, 255)));
}

#[test]
fn luma_values() {
    assert_eq!(get_lumas((0, 0, 0, 255), (0, 2, 0, 255)), (6, 34, 6));
    assert_eq!(get_lumas((10, 10, 10, 255), (20, 20, 20, 255)), (8, 42, 8));
    assert_eq!(get_lumas((0, 0, 0, 255), (10, 20, 30, 255)), (64, 0, 0));
    assert_eq!(get_lumas((0, 0, 0, 255), (0, 40, 40, 255)).0, 64);
}

#[test]
fn wrapping_steps() {
    assert_eq!(addsub_with_wrap(0, -1), 255);
    assert_eq!(addsub_with_wrap(255, 1), 0);
    assert_eq!(addsub_with_wrap(100, -2), 98);
    assert_eq!(addsub_with_wrap(7, 0), 7);
}

#[test]
fn three_channel_pixels_are_opaque() {
    let mut p = Pixels::new(vec![1, 2, 3, 4, 5, 6], 3);
    assert_eq!(p.l, 6);
    assert_eq!(p.next(), Some((1, 2, 3, 255)));
    assert_eq!(p.next(), Some((4, 5, 6, 255)));
    assert_eq!(p.next(), None);
    assert_eq!(p.next(), None);
}

#[test]
fn four_channel_pixels_carry_alpha() {
    let mut p = Pixels::new(vec![1, 2, 3, 4, 5, 6, 7, 8], 4);
    assert_eq!(p.next(), Some((1, 2, 3, 4)));
    assert_eq!(p.next(), Some((5, 6, 7, 8)));
    assert_eq!(p.next(), None);
}

#[test]
fn empty_pixels() {
    let mut p = Pixels::new(vec![], 4);
    assert_eq!(p.l, 0);
    assert_eq!(p.next(), None);
}

#[test]
fn raw_image_header() {
    let data = vec![0, 0, 1, 2, 0, 0, 0, 3, 4, 1, 9, 8, 7, 6];
    let (w, h, ch, cs, mut px) = parse_binary_to_tuple(data);
    assert_eq!(w, 258);
    assert_eq!(h, 3);
    assert_eq!(ch, 4);
    assert_eq!(cs, 1);
    assert_eq!(px.l, 4);
    assert_eq!(px.next(), Some((9, 8, 7, 6)));
    assert_eq!(px.next(), None);
}

#[test]
fn raw_image_without_pixels() {
    let (w, h, ch, cs, mut px) = parse_binary_to_tuple(vec![255, 255, 255, 255, 0, 0, 0, 0, 3, 0]);
    assert_eq!((w, h, ch, cs), (u32::MAX, 0, 3, 0));
    assert_eq!(px.l, 0);
    assert_eq!(px.next(), None);
}

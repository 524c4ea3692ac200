use vstd::prelude::*;
use crate::datas::{be_bytes, rgba, spec_addsub, spec_apos, spec_diff_val, spec_lumas, spec_op, spec_test_for_diff, QoiOps, PIX};
use crate::decode::{dec_new_pixel, chunk_len, dec_from, dec_start, dec_step, diff_pixel, prepend, qoi_decode, repeat_rgba, DecState};
use crate::encode::{start_index, start_pixel, lemma_start_table, chunk, diff_byte, enc_from, enc_start, enc_step, end_marker, qoi_encode, qoi_header, run_bytes, EncState};

verus! {

/// The four bytes of each pixel of `px`, in order.
pub open spec fn pixels_rgba(px: Seq<PIX>) -> Seq<u8>
    decreases px.len(),
{
    if px.len() == 0 {
        seq![]
    } else {
        rgba(px[0]) + pixels_rgba(px.drop_first())
    }
}

/// Each pixel takes four bytes of the decoded output.
pub proof fn lemma_pixels_rgba_len(px: Seq<PIX>)
    ensures
        pixels_rgba(px).len() == 4 * px.len(),
    decreases px.len(),
{
    if px.len() > 0 {
        lemma_pixels_rgba_len(px.drop_first());
    }
}

/// The chunk written for `c` after `prev` is one that the decoder reads back as `c`:
/// it is not a luma chunk, and if it is a small-difference chunk its green step
/// is +1 (the step the decoder reads for every small-difference chunk).
pub open spec fn decodes_back(prev: PIX, index: Seq<PIX>, c: PIX) -> bool {
    ||| index[spec_apos(c)] == c
    ||| c.3 != prev.3
    ||| spec_test_for_diff(c, prev) && c.1 == spec_addsub(prev.1, 1)
    ||| !spec_test_for_diff(c, prev) && spec_lumas(prev, c).0 == 64
}

/// Every chunk that the encoder writes for `px` from state `st` on is read back
/// as written: no run reaches 62 pixels and every pixel chunk decodes back.
pub open spec fn decodable_from(st: EncState, px: Seq<PIX>) -> bool
    decreases px.len(),
{
    if px.len() == 0 {
        st.run < 62
    } else {
        let c = px[0];
        &&& (c == st.prev || (st.run < 62 && decodes_back(st.prev, st.index, c)))
        &&& decodable_from(enc_step(st, c).0, px.drop_first())
    }
}

proof fn lemma_diff_inverse(a: u8, b: u8)
    requires
        spec_diff_val(a, b) < 4,
    ensures
        spec_addsub(a, spec_diff_val(a, b) as int - 2) == b,
{
    let d = spec_diff_val(a, b) as int;
    assert(d == (b as int - a as int + 2) % 256);
    assert((a as int + d - 2) % 256 == b as int) by (nonlinear_arith)
        requires
            d == (b as int - a as int + 2) % 256,
            0 <= a < 256,
            0 <= b < 256,
    ;
}

proof fn lemma_decode_run(buf: Seq<u8>, i: int, dst: DecState, run: nat)
    requires
        0 < run < 62,
        0 <= i,
        i + 1 <= buf.len() - 8,
        buf[i] == (192 + run) as u8,
    ensures
        dec_from(buf, i, dst) == prepend(repeat_rgba(dst.prev, run), dec_from(buf, i + 1, dst)),
{
    let b = buf[i];
    assert(b == 192 + run);
    assert(spec_op(b) == QoiOps::RUN);
    assert(b as int % 64 == run);
    assert(chunk_len(b) == 1);
}

proof fn lemma_dec_unfold(buf: Seq<u8>, i: int, dst: DecState, st2: DecState, out: Seq<u8>)
    requires
        0 <= i < buf.len() - 8,
        dec_step(buf, i, dst) == Some((st2, out)),
    ensures
        dec_from(buf, i, dst) == prepend(out, dec_from(buf, i + chunk_len(buf[i]), st2)),
{
}

proof fn lemma_step_index(buf: Seq<u8>, i: int, dst: DecState, c: PIX)
    requires
        dst.index.len() == 64,
        0 <= i < buf.len(),
        buf[i] as int == spec_apos(c),
        dst.index[spec_apos(c)] == c,
    ensures
        dec_step(buf, i, dst) == Some((DecState { prev: c, index: dst.index.update(spec_apos(c), c) }, rgba(c))),
        chunk_len(buf[i]) == 1,
{
    let b = buf[i];
    assert(spec_op(b) == QoiOps::INDEX);
    assert(b as int % 64 == spec_apos(c));
    assert(dst.index.update(spec_apos(c), c) =~= dst.index);
}

proof fn lemma_diff_digits(x: int, dr: int, dg: int, db: int)
    requires
        0 <= dr < 4,
        0 <= dg < 4,
        0 <= db < 4,
        x == 64 + 16 * dr + 4 * dg + db,
    ensures
        64 <= x < 128,
        (x / 16) % 4 == dr,
        x % 4 == db,
{
    assert((x / 16) % 4 == dr && x % 4 == db) by (nonlinear_arith)
        requires
            0 <= dr < 4,
            0 <= dg < 4,
            0 <= db < 4,
            x == 64 + 16 * dr + 4 * dg + db,
    ;
}

proof fn lemma_step_diff(buf: Seq<u8>, i: int, dst: DecState, c: PIX)
    requires
        dst.index.len() == 64,
        1 < buf.len(),
        0 <= i < buf.len(),
        buf[1] == 0x6fu8,
        spec_test_for_diff(c, dst.prev),
        c.1 == spec_addsub(dst.prev.1, 1),
        c.3 == dst.prev.3,
        buf[i] == diff_byte(dst.prev, c),
    ensures
        dec_step(buf, i, dst) == Some((DecState { prev: c, index: dst.index.update(spec_apos(c), c) }, rgba(c))),
        chunk_len(buf[i]) == 1,
{
    let prev = dst.prev;
    let b = buf[i];
    let dr = spec_diff_val(prev.0, c.0);
    let dg = spec_diff_val(prev.1, c.1);
    let db = spec_diff_val(prev.2, c.2);
    assert(b as int == 64 + 16 * dr + 4 * dg + db);
    lemma_diff_digits(b as int, dr as int, dg as int, db as int);
    assert(spec_op(b) == QoiOps::DIFF);
    assert((buf[1] as int / 4) % 4 - 2 == 1);
    lemma_diff_inverse(prev.0, c.0);
    lemma_diff_inverse(prev.2, c.2);
    assert(diff_pixel(prev, b, buf[1]) == c);
}

proof fn lemma_step_rgb(buf: Seq<u8>, i: int, dst: DecState, c: PIX)
    requires
        0 <= i,
        i + 4 <= buf.len(),
        c.3 == dst.prev.3,
        buf.subrange(i, i + 4) == seq![254u8, c.0, c.1, c.2],
    ensures
        dec_step(buf, i, dst) == Some((DecState { prev: c, index: dst.index.update(spec_apos(c), c) }, rgba(c))),
        chunk_len(buf[i]) == 4,
{
    assert(buf[i] == buf.subrange(i, i + 4)[0]);
    assert(buf[i + 1] == buf.subrange(i, i + 4)[1]);
    assert(buf[i + 2] == buf.subrange(i, i + 4)[2]);
    assert(buf[i + 3] == buf.subrange(i, i + 4)[3]);
    assert(spec_op(buf[i]) == QoiOps::RGB);
}

proof fn lemma_step_rgba(buf: Seq<u8>, i: int, dst: DecState, c: PIX)
    requires
        0 <= i,
        i + 5 <= buf.len(),
        buf.subrange(i, i + 5) == seq![255u8, c.0, c.1, c.2, c.3],
    ensures
        dec_step(buf, i, dst) == Some((DecState { prev: c, index: dst.index.update(spec_apos(c), c) }, rgba(c))),
        chunk_len(buf[i]) == 5,
{
    assert(buf[i] == buf.subrange(i, i + 5)[0]);
    assert(buf[i + 1] == buf.subrange(i, i + 5)[1]);
    assert(buf[i + 2] == buf.subrange(i, i + 5)[2]);
    assert(buf[i + 3] == buf.subrange(i, i + 5)[3]);
    assert(buf[i + 4] == buf.subrange(i, i + 5)[4]);
    assert(spec_op(buf[i]) == QoiOps::RGBA);
}

proof fn lemma_decode_chunk(buf: Seq<u8>, i: int, st: EncState, c: PIX)
    requires
        st.index.len() == 64,
        c != st.prev,
        decodes_back(st.prev, st.index, c),
        buf.len() > 1,
        buf[1] == 0x6fu8,
        0 <= i,
        i + chunk(st.prev, st.index, c).len() <= buf.len() - 8,
        buf.subrange(i, i + chunk(st.prev, st.index, c).len()) == chunk(st.prev, st.index, c),
    ensures
        dec_from(buf, i, DecState { prev: st.prev, index: st.index }) == prepend(
            rgba(c),
            dec_from(
                buf,
                i + chunk(st.prev, st.index, c).len(),
                DecState { prev: c, index: st.index.update(spec_apos(c), c) },
            ),
        ),
{
    let ch = chunk(st.prev, st.index, c);
    let prev = st.prev;
    let k = spec_apos(c);
    let dst = DecState { prev: st.prev, index: st.index };
    let st2 = DecState { prev: c, index: st.index.update(k, c) };
    assert(buf[i] == ch[0]);
    if st.index[k] == c {
        assert(ch == seq![k as u8]);
        lemma_step_index(buf, i, dst, c);
    } else if c.3 == prev.3 {
        if spec_test_for_diff(c, prev) {
            assert(ch == seq![diff_byte(prev, c)]);
            lemma_step_diff(buf, i, dst, c);
        } else {
            assert(spec_lumas(prev, c).0 == 64);
            assert(ch == seq![254u8, c.0, c.1, c.2]);
            lemma_step_rgb(buf, i, dst, c);
        }
    } else {
        assert(ch == seq![255u8, c.0, c.1, c.2, c.3]);
        lemma_step_rgba(buf, i, dst, c);
    }
    lemma_dec_unfold(buf, i, dst, st2, rgba(c));
}

proof fn lemma_decode_encoded(buf: Seq<u8>, i: int, st: EncState, px: Seq<PIX>)
    requires
        st.index.len() == 64,
        decodable_from(st, px),
        buf.len() > 1,
        buf[1] == 0x6fu8,
        2 <= i <= buf.len(),
        buf.subrange(i, buf.len() as int) == enc_from(st, px) + end_marker(),
    ensures
        dec_from(buf, i, DecState { prev: st.prev, index: st.index }) == Some(
            repeat_rgba(st.prev, st.run) + pixels_rgba(px),
        ),
    decreases px.len(),
{
    let dst = DecState { prev: st.prev, index: st.index };
    let tail = buf.subrange(i, buf.len() as int);
    if px.len() == 0 {
        assert(pixels_rgba(px) =~= seq![]);
        if st.run == 0 {
            assert(tail.len() == 8);
            assert(repeat_rgba(st.prev, 0) + seq![] =~= seq![]);
        } else {
            assert(tail.len() == 9);
            assert(buf[i] == tail[0]);
            lemma_decode_run(buf, i, dst, st.run);
            assert(repeat_rgba(st.prev, st.run) + seq![] =~= repeat_rgba(st.prev, st.run));
        }
    } else {
        let c = px[0];
        let rest = px.drop_first();
        let (st2, bytes) = enc_step(st, c);
        assert(enc_from(st, px) == bytes + enc_from(st2, rest));
        assert(pixels_rgba(px) == rgba(c) + pixels_rgba(rest));
        if c == st.prev {
            lemma_decode_encoded(buf, i, st2, rest);
            assert(repeat_rgba(st.prev, st.run + 1) == repeat_rgba(st.prev, st.run) + rgba(c));
            assert(repeat_rgba(st.prev, st.run + 1) + pixels_rgba(rest) =~= repeat_rgba(st.prev, st.run)
                + (rgba(c) + pixels_rgba(rest)));
        } else {
            let ch = chunk(st.prev, st.index, c);
            let rb = run_bytes(st.run);
            let j = i + rb.len();
            let j2 = j + ch.len();
            assert(tail =~= rb + ch + enc_from(st2, rest) + end_marker());
            assert(tail.subrange(j2 - i, tail.len() as int) =~= enc_from(st2, rest) + end_marker());
            assert(buf.subrange(j2, buf.len() as int) =~= tail.subrange(j2 - i, tail.len() as int));
            assert(tail.subrange(j - i, j2 - i) =~= ch);
            assert(buf.subrange(j, j2) =~= tail.subrange(j - i, j2 - i));
            lemma_decode_encoded(buf, j2, st2, rest);
            assert(repeat_rgba(c, 0) + pixels_rgba(rest) =~= pixels_rgba(rest));
            lemma_decode_chunk(buf, j, st, c);
            if st.run == 0 {
                assert(repeat_rgba(st.prev, 0) + (rgba(c) + pixels_rgba(rest)) =~= rgba(c) + pixels_rgba(rest));
            } else {
                assert(buf[i] == tail[0]);
                lemma_decode_run(buf, i, dst, st.run);
                assert(repeat_rgba(st.prev, st.run) + (rgba(c) + pixels_rgba(rest)) =~= repeat_rgba(st.prev, st.run)
                    + rgba(c) + pixels_rgba(rest));
            }
        }
    }
}

/// `v + d` wrapped into a byte.
pub open spec fn wrap(v: int) -> u8 {
    (v % 256) as u8
}

/// The pixel that one chunk `b` stands for after `prev` with table `index`, as
/// the format defines the chunks: a byte below 64 is a table position; a byte
/// `64 + 16 r + 4 g + b'` adds `r - 2`, `g - 2`, `b' - 2` to red, green, blue;
/// a byte `128 + v` followed by `16 x + y` adds `v - 32` to green and
/// `v - 32 + x - 8`, `v - 32 + y - 8` to red and blue; 254 and three bytes give
/// red, green, blue with the previous alpha; 255 and four bytes give all four.
/// `None` where `b` is not one such chunk (run bytes included).
pub open spec fn read_chunk(prev: PIX, index: Seq<PIX>, b: Seq<u8>) -> Option<PIX> {
    if b.len() == 0 {
        None
    } else {
        let t = b[0] as int;
        if t == 254 && b.len() == 4 {
            Some((b[1], b[2], b[3], prev.3))
        } else if t == 255 && b.len() == 5 {
            Some((b[1], b[2], b[3], b[4]))
        } else if t < 64 && b.len() == 1 {
            Some(index[t])
        } else if 64 <= t < 128 && b.len() == 1 {
            let r = (t - 64) / 16;
            let g = ((t - 64) / 4) % 4;
            let bl = (t - 64) % 4;
            Some((wrap(prev.0 + r - 2), wrap(prev.1 + g - 2), wrap(prev.2 + bl - 2), prev.3))
        } else if 128 <= t < 192 && b.len() == 2 {
            let dg = t - 128 - 32;
            let x = b[1] as int / 16;
            let y = b[1] as int % 16;
            Some((wrap(prev.0 + dg + x - 8), wrap(prev.1 + dg), wrap(prev.2 + dg + y - 8), prev.3))
        } else {
            None
        }
    }
}

/// `b - a` lies in -2..=1, counted with wrap-around.
pub open spec fn small_step(a: u8, b: u8) -> bool {
    (b as int - a as int + 2) % 256 < 4
}

/// The step from `prev` to `c` fits a luma chunk: the green step in -32..=31 and
/// the red and blue steps, less the green one, in -8..=7, all with wrap-around.
pub open spec fn luma_step(prev: PIX, c: PIX) -> bool {
    let dg = c.1 as int - prev.1 as int;
    &&& (dg + 32) % 256 < 64
    &&& (c.0 as int - prev.0 as int - dg + 8) % 256 < 16
    &&& (c.2 as int - prev.2 as int - dg + 8) % 256 < 16
}

proof fn lemma_read_diff(prev: PIX, index: Seq<PIX>, c: PIX)
    requires
        spec_test_for_diff(c, prev),
        c.3 == prev.3,
    ensures
        64 <= diff_byte(prev, c) < 128,
        read_chunk(prev, index, seq![diff_byte(prev, c)]) == Some(c),
{
    let dr = spec_diff_val(prev.0, c.0);
    let dg = spec_diff_val(prev.1, c.1);
    let db = spec_diff_val(prev.2, c.2);
    let t = diff_byte(prev, c) as int;
    assert(t == 64 + 16 * dr + 4 * dg + db);
    assert((t - 64) / 16 == dr && ((t - 64) / 4) % 4 == dg && (t - 64) % 4 == db) by (nonlinear_arith)
        requires
            t == 64 + 16 * dr + 4 * dg + db,
            0 <= dr < 4,
            0 <= dg < 4,
            0 <= db < 4,
    ;
    lemma_diff_inverse(prev.0, c.0);
    lemma_diff_inverse(prev.1, c.1);
    lemma_diff_inverse(prev.2, c.2);
}

proof fn lemma_read_luma(prev: PIX, index: Seq<PIX>, c: PIX)
    requires
        spec_lumas(prev, c).0 != 64,
        c.3 == prev.3,
    ensures
        128 <= 128 + spec_lumas(prev, c).1 < 192,
        read_chunk(
            prev,
            index,
            seq![(128 + spec_lumas(prev, c).1) as u8, (16 * spec_lumas(prev, c).0 + spec_lumas(prev, c).2) as u8],
        ) == Some(c),
{
    let lm = spec_lumas(prev, c);
    let d = c.1 as int - prev.1 as int;
    let vg = lm.1 as int;
    let vr = lm.0 as int;
    let vb = lm.2 as int;
    assert((16 * vr + vb) / 16 == vr && (16 * vr + vb) % 16 == vb) by (nonlinear_arith)
        requires
            0 <= vr < 16,
            0 <= vb < 16,
    ;
    assert((prev.1 as int + (vg - 32)) % 256 == c.1 as int) by (nonlinear_arith)
        requires
            vg == (d + 32) % 256,
            d == c.1 as int - prev.1 as int,
            0 <= c.1 < 256,
    ;
    assert((prev.0 as int + (vg - 32) + vr - 8) % 256 == c.0 as int) by (nonlinear_arith)
        requires
            vg == (d + 32) % 256,
            vr == (c.0 as int - prev.0 as int - d + 8) % 256,
            d == c.1 as int - prev.1 as int,
            0 <= c.0 < 256,
    ;
    assert((prev.2 as int + (vg - 32) + vb - 8) % 256 == c.2 as int) by (nonlinear_arith)
        requires
            vg == (d + 32) % 256,
            vb == (c.2 as int - prev.2 as int - d + 8) % 256,
            d == c.1 as int - prev.1 as int,
            0 <= c.2 < 256,
    ;
}

/// The chunk the encoder writes for a pixel `c` that differs from the previous
/// one is the one the format prescribes, and reading it back gives `c`: the table
/// position where the table holds `c` there; otherwise, with changed alpha, 255
/// and all four bytes; with unchanged alpha, one small-difference byte where
/// every colour step is small, else two luma bytes where the step fits, else 254
/// and the three colour bytes.
pub proof fn lemma_chunk_reads_back(prev: PIX, index: Seq<PIX>, c: PIX)
    requires
        index.len() == 64,
        c != prev,
    ensures
        read_chunk(prev, index, chunk(prev, index, c)) == Some(c),
        index[spec_apos(c)] == c ==> chunk(prev, index, c) == seq![spec_apos(c) as u8],
        index[spec_apos(c)] != c && c.3 != prev.3 ==> chunk(prev, index, c).len() == 5,
        index[spec_apos(c)] != c && c.3 == prev.3 ==> {
            let ch = chunk(prev, index, c);
            &&& small_step(prev.0, c.0) && small_step(prev.1, c.1) && small_step(prev.2, c.2)
                ==> ch.len() == 1 && 64 <= ch[0] < 128
            &&& !(small_step(prev.0, c.0) && small_step(prev.1, c.1) && small_step(prev.2, c.2))
                && luma_step(prev, c) ==> ch.len() == 2 && 128 <= ch[0] < 192
            &&& !(small_step(prev.0, c.0) && small_step(prev.1, c.1) && small_step(prev.2, c.2))
                && !luma_step(prev, c) ==> ch.len() == 4 && ch[0] == 254
        },
{
    let k = spec_apos(c);
    if index[k] == c {
        assert(0 <= k < 64);
    } else if c.3 == prev.3 {
        if spec_test_for_diff(c, prev) {
            lemma_read_diff(prev, index, c);
        } else if spec_lumas(prev, c).0 != 64 {
            lemma_read_luma(prev, index, c);
        }
    }
}

/// `n` opaque black pixels as four bytes each.
pub open spec fn black_pixels(n: nat) -> Seq<u8> {
    Seq::new(4 * n, |j: int| if j % 4 == 3 { 255u8 } else { 0u8 })
}

proof fn lemma_repeat_black(n: nat)
    ensures
        repeat_rgba((0u8, 0u8, 0u8, 255u8), n) == black_pixels(n),
    decreases n,
{
    if n > 0 {
        lemma_repeat_black((n - 1) as nat);
        assert(black_pixels((n - 1) as nat) + rgba((0u8, 0u8, 0u8, 255u8)) =~= black_pixels(n));
    } else {
        assert(black_pixels(0) =~= seq![]);
    }
}

proof fn lemma_one_chunk_step(hd: Seq<u8>, ch: Seq<u8>, tail: Seq<u8>, st2: DecState, out: Seq<u8>)
    requires
        hd.len() == 14,
        tail.len() == 8,
        ch.len() >= 1,
        chunk_len(ch[0]) == ch.len(),
        dec_step(hd + ch + tail, 14, dec_start()) == Some((st2, out)),
    ensures
        qoi_decode(hd + ch + tail) == Some(hd.subrange(4, 14) + out),
{
    let buf = hd + ch + tail;
    assert(buf[14] == ch[0]);
    lemma_dec_unfold(buf, 14, dec_start(), st2, out);
    assert(dec_from(buf, 14 + ch.len() as int, st2) == Some(Seq::<u8>::empty()));
    assert(buf.subrange(4, 14) =~= hd.subrange(4, 14));
    assert(out + Seq::<u8>::empty() =~= out);
}

/// Decoding a stream of a single chunk `ch` (after a header `hd` of 14 bytes
/// whose second byte is that of the magic, and before 8 final bytes): the
/// header's bytes 4 to 13, then
/// - for a table byte below 64: transparent black (0, 0, 0, 0), but opaque
///   black (0, 0, 0, 255) at position 53, as the table starts;
/// - for a small-difference byte `64 + 16 r + 4 g + b'`: red `r - 2` and blue
///   `b' - 2` (wrapped), green 1 whatever `g` is, alpha 255;
/// - for a run byte `192 + n` (below 254): `n` opaque black pixels;
/// - for 254 and three bytes: those colours, alpha 255; for 255 and four bytes: those;
/// - for a luma chunk: no decoding at all.
pub proof fn lemma_decode_one_chunk(hd: Seq<u8>, ch: Seq<u8>, tail: Seq<u8>)
    requires
        hd.len() == 14,
        hd[1] == 0x6fu8,
        tail.len() == 8,
    ensures
        ch.len() == 1 && ch[0] < 64 ==> qoi_decode(hd + ch + tail) == Some(
            hd.subrange(4, 14) + if ch[0] == 53 { seq![0u8, 0u8, 0u8, 255u8] } else { seq![0u8, 0u8, 0u8, 0u8] },
        ),
        ch.len() == 1 && 64 <= ch[0] < 128 ==> qoi_decode(hd + ch + tail) == Some(
            hd.subrange(4, 14) + seq![
                (((ch[0] - 64) / 16 + 254) % 256) as u8,
                1u8,
                (((ch[0] - 64) % 4 + 254) % 256) as u8,
                255u8,
            ],
        ),
        ch.len() == 1 && 192 <= ch[0] < 254 ==> qoi_decode(hd + ch + tail) == Some(
            hd.subrange(4, 14) + black_pixels((ch[0] - 192) as nat),
        ),
        ch.len() == 2 && 128 <= ch[0] < 192 ==> qoi_decode(hd + ch + tail) is None,
        ch.len() == 4 && ch[0] == 254 ==> qoi_decode(hd + ch + tail) == Some(
            hd.subrange(4, 14) + seq![ch[1], ch[2], ch[3], 255u8],
        ),
        ch.len() == 5 && ch[0] == 255 ==> qoi_decode(hd + ch + tail) == Some(
            hd.subrange(4, 14) + ch.subrange(1, 5),
        ),
{
    let buf = hd + ch + tail;
    let st = dec_start();
    lemma_start_table();
    if ch.len() >= 1 {
        assert(buf[14] == ch[0]);
        assert(buf[1] == 0x6fu8);
        let b = ch[0];
        if ch.len() == 1 && b < 64 {
            let p = st.index[b as int];
            assert(dec_step(buf, 14, st) == Some((DecState { prev: p, index: st.index }, rgba(p))));
            lemma_one_chunk_step(hd, ch, tail, DecState { prev: p, index: st.index }, rgba(p));
        } else if ch.len() == 1 && 64 <= b < 128 {
            let p = diff_pixel(st.prev, b, buf[1]);
            assert(((b as int / 16) % 4) == (b - 64) / 16) by (nonlinear_arith)
                requires
                    64 <= b < 128,
            ;
            assert(b as int % 4 == (b - 64) % 4) by (nonlinear_arith)
                requires
                    64 <= b < 128,
            ;
            assert(dec_step(buf, 14, st) == Some((dec_new_pixel(st, p), rgba(p))));
            lemma_one_chunk_step(hd, ch, tail, dec_new_pixel(st, p), rgba(p));
        } else if ch.len() == 1 && 192 <= b < 254 {
            assert(b as int % 64 == b - 192);
            assert(dec_step(buf, 14, st) == Some((st, repeat_rgba(st.prev, (b - 192) as nat))));
            lemma_repeat_black((b - 192) as nat);
            lemma_one_chunk_step(hd, ch, tail, st, repeat_rgba(st.prev, (b - 192) as nat));
        } else if ch.len() == 2 && 128 <= b < 192 {
            assert(dec_step(buf, 14, st) is None);
        } else if ch.len() == 4 && b == 254 {
            assert(buf[15] == ch[1] && buf[16] == ch[2] && buf[17] == ch[3]);
            let p = (ch[1], ch[2], ch[3], 255u8);
            assert(dec_step(buf, 14, st) == Some((dec_new_pixel(st, p), rgba(p))));
            lemma_one_chunk_step(hd, ch, tail, dec_new_pixel(st, p), rgba(p));
        } else if ch.len() == 5 && b == 255 {
            assert(buf[15] == ch[1] && buf[16] == ch[2] && buf[17] == ch[3] && buf[18] == ch[4]);
            let p = (ch[1], ch[2], ch[3], ch[4]);
            assert(dec_step(buf, 14, st) == Some((dec_new_pixel(st, p), rgba(p))));
            assert(rgba(p) =~= ch.subrange(1, 5));
            lemma_one_chunk_step(hd, ch, tail, dec_new_pixel(st, p), rgba(p));
        }
    }
}

/// Decoding what the encoder wrote for `px` gives back the header's width,
/// height, channels and colour space and then every pixel of `px` as four
/// bytes, provided that every chunk the encoder writes is one the decoder reads
/// back as written (`decodable_from`).
pub proof fn lemma_decode_of_encode(width: u32, height: u32, channels: u8, colorspace: u8, px: Seq<PIX>)
    requires
        decodable_from(enc_start(), px),
    ensures
        qoi_decode(qoi_encode(width, height, channels, colorspace, px)) == Some(
            be_bytes(width) + be_bytes(height) + seq![channels, colorspace] + pixels_rgba(px),
        ),
{
    let buf = qoi_encode(width, height, channels, colorspace, px);
    let hd = qoi_header(width, height, channels, colorspace);
    assert(hd.len() == 14);
    assert(buf[1] == 0x6fu8);
    assert(buf.subrange(14, buf.len() as int) =~= enc_from(enc_start(), px) + end_marker());
    lemma_decode_encoded(buf, 14, enc_start(), px);
    assert(dec_start() == DecState { prev: enc_start().prev, index: enc_start().index });
    assert(buf.subrange(4, 14) =~= be_bytes(width) + be_bytes(height) + seq![channels, colorspace]);
    assert(repeat_rgba(enc_start().prev, 0) + pixels_rgba(px) =~= pixels_rgba(px));
}

} // verus!

use vstd::prelude::*;
use crate::datas::{
    be_bytes, get_apos, get_diff_val, get_lumas, pix_eq, spec_apos, spec_diff_val, spec_lumas,
    spec_test_for_diff, stop_pos, test_for_diff, u32_to_u8arr, Pixels, PIX,
};

verus! {

/// What the encoder carries from one pixel to the next: the previous pixel,
/// the table of recently seen pixels and the length of the pending run.
pub struct EncState {
    pub prev: PIX,
    pub index: Seq<PIX>,
    pub run: nat,
}

/// The pixel that precedes the first one.
pub open spec fn start_pixel() -> PIX {
    (0u8, 0u8, 0u8, 255u8)
}

/// The table before the first pixel: all zero but for the starting pixel.
pub open spec fn start_index() -> Seq<PIX> {
    Seq::new(64, |k: int| (0u8, 0u8, 0u8, 0u8)).update(spec_apos(start_pixel()), start_pixel())
}

/// The encoder's state before the first pixel.
pub open spec fn enc_start() -> EncState {
    EncState { prev: start_pixel(), index: start_index(), run: 0 }
}

/// The bytes that close a run of `run` repeated pixels: chunks of 62 written as
/// the byte 253, then the byte `192 + rest` for the rest, if any.
pub open spec fn run_bytes(run: nat) -> Seq<u8>
    decreases run,
{
    if run > 62 {
        seq![253u8] + run_bytes((run - 62) as nat)
    } else if run > 0 {
        seq![(192 + run) as u8]
    } else {
        seq![]
    }
}

/// The byte of a small-difference chunk from `l` to `c`.
pub open spec fn diff_byte(l: PIX, c: PIX) -> u8 {
    (64 + 16 * spec_diff_val(l.0, c.0) + 4 * spec_diff_val(l.1, c.1) + spec_diff_val(l.2, c.2)) as u8
}

/// The bytes for pixel `c`, different from `prev`, given the table `index`:
/// its table position if the table holds it there; otherwise, with unchanged
/// alpha, a small-difference byte, a two-byte luma chunk or 254 and the colour;
/// with changed alpha, 255 and all four channels.
pub open spec fn chunk(prev: PIX, index: Seq<PIX>, c: PIX) -> Seq<u8> {
    let k = spec_apos(c);
    let lm = spec_lumas(prev, c);
    if index[k] == c {
        seq![k as u8]
    } else if c.3 == prev.3 {
        if spec_test_for_diff(c, prev) {
            seq![diff_byte(prev, c)]
        } else if lm.0 != 64 {
            seq![(128 + lm.1) as u8, (16 * lm.0 + lm.2) as u8]
        } else {
            seq![254u8, c.0, c.1, c.2]
        }
    } else {
        seq![255u8, c.0, c.1, c.2, c.3]
    }
}

/// The encoder's next state after pixel `c`, and the bytes it writes for it.
pub open spec fn enc_step(st: EncState, c: PIX) -> (EncState, Seq<u8>) {
    if c == st.prev {
        (EncState { run: st.run + 1, ..st }, seq![])
    } else {
        (
            EncState { prev: c, index: st.index.update(spec_apos(c), c), run: 0 },
            run_bytes(st.run) + chunk(st.prev, st.index, c),
        )
    }
}

/// A run of `n` pixels is written as `(n - 1) / 62` bytes 253, each standing
/// for 62 pixels, then one byte `192 + r` with `r = (n - 1) % 62 + 1` between 1
/// and 62, standing for the last `r` pixels; together they stand for `n` pixels.
pub proof fn lemma_run_bytes_count(n: nat)
    requires
        n > 0,
    ensures
        run_bytes(n) == Seq::new(((n - 1) / 62) as nat, |k: int| 253u8).push((192 + (n - 1) % 62 + 1) as u8),
        1 <= (n - 1) % 62 + 1 <= 62,
        62 * ((n - 1) / 62) + ((n - 1) % 62 + 1) == n,
    decreases n,
{
    if n > 62 {
        let m = (n - 62) as nat;
        lemma_run_bytes_count(m);
        assert((n - 1) / 62 == (m - 1) / 62 + 1);
        assert((n - 1) % 62 == (m - 1) % 62);
        assert(run_bytes(n) == seq![253u8] + run_bytes(m));
        assert(seq![253u8] + Seq::new(((m - 1) / 62) as nat, |k: int| 253u8).push((192 + (m - 1) % 62 + 1) as u8)
            =~= Seq::new(((n - 1) / 62) as nat, |k: int| 253u8).push((192 + (n - 1) % 62 + 1) as u8));
    } else {
        assert((n - 1) / 62 == 0);
        assert(run_bytes(n) =~= Seq::new(0, |k: int| 253u8).push((192 + (n - 1) % 62 + 1) as u8));
    }
}

/// Before the first pixel the table holds the opaque black start pixel
/// (0, 0, 0, 255) at its position 53 and transparent black (0, 0, 0, 0) at
/// every other position of its 64.
pub proof fn lemma_start_table()
    ensures
        start_pixel() == (0u8, 0u8, 0u8, 255u8),
        spec_apos(start_pixel()) == 53,
        start_index().len() == 64,
        start_index()[53] == (0u8, 0u8, 0u8, 255u8),
        forall|k: int| 0 <= k < 64 && k != 53 ==> start_index()[k] == (0u8, 0u8, 0u8, 0u8),
{
    assert(spec_apos((0u8, 0u8, 0u8, 255u8)) == 53);
}

/// The encoded stream is the magic bytes "qoif", the width and height as
/// big-endian 32-bit numbers, the channels and colour space bytes, the chunks,
/// and eight zero bytes.
pub proof fn lemma_encode_layout(width: u32, height: u32, channels: u8, colorspace: u8, px: Seq<PIX>)
    ensures
        ({
            let e = qoi_encode(width, height, channels, colorspace, px);
            let n = e.len();
            &&& n >= 22
            &&& e.subrange(0, 4) == seq![0x71u8, 0x6fu8, 0x69u8, 0x66u8]
            &&& e[4] as int * 0x100_0000 + e[5] as int * 0x1_0000 + e[6] as int * 0x100 + e[7] as int == width
            &&& e[8] as int * 0x100_0000 + e[9] as int * 0x1_0000 + e[10] as int * 0x100 + e[11] as int == height
            &&& e[12] == channels
            &&& e[13] == colorspace
            &&& e.subrange(14, n - 8) == enc_from(enc_start(), px)
            &&& forall|j: int| n - 8 <= j < n ==> e[j] == 0u8
        }),
{
    let e = qoi_encode(width, height, channels, colorspace, px);
    let n = e.len();
    crate::datas::lemma_be_value_of_bytes(width);
    crate::datas::lemma_be_value_of_bytes(height);
    assert(e.subrange(0, 4) =~= seq![0x71u8, 0x6fu8, 0x69u8, 0x66u8]);
    assert(e.subrange(14, n - 8) =~= enc_from(enc_start(), px));
    assert forall|j: int| n - 8 <= j < n implies e[j] == 0u8 by {
        assert(e[j] == end_marker()[j - (n - 8)]);
    }
}

/// Repeating the previous pixel writes nothing and only lengthens the pending
/// run; a pixel that differs closes the pending run (its run bytes), writes its
/// chunk, and becomes the previous pixel, entered in the table.
pub proof fn lemma_enc_structure(st: EncState, n: nat, c: PIX, px: Seq<PIX>)
    ensures
        enc_from(st, Seq::new(n, |k: int| st.prev) + px) == enc_from(EncState { run: st.run + n, ..st }, px),
        c != st.prev ==> enc_from(st, seq![c] + px) == run_bytes(st.run) + chunk(st.prev, st.index, c) + enc_from(
            EncState { prev: c, index: st.index.update(spec_apos(c), c), run: 0 },
            px,
        ),
    decreases n,
{
    if n > 0 {
        let s2 = EncState { run: st.run + 1, ..st };
        lemma_enc_structure(s2, (n - 1) as nat, c, px);
        let q = Seq::new(n, |k: int| st.prev) + px;
        assert(q[0] == st.prev);
        assert(q.drop_first() =~= Seq::new((n - 1) as nat, |k: int| s2.prev) + px);
        assert(EncState { run: s2.run + (n - 1) as nat, ..s2 } == EncState { run: st.run + n, ..st });
    } else {
        assert(Seq::new(0, |k: int| st.prev) + px =~= px);
        assert(EncState { run: st.run + 0, ..st } == st);
    }
    if c != st.prev {
        let q = seq![c] + px;
        assert(q[0] == c);
        assert(q.drop_first() =~= px);
    }
}

/// The encoder's table always holds the previous pixel at that pixel's position:
/// true before the first pixel and kept by every step.
pub proof fn lemma_table_holds_prev(st: EncState, c: PIX)
    requires
        st.index.len() == 64,
        st.index[spec_apos(st.prev)] == st.prev,
    ensures
        enc_start().index.len() == 64,
        enc_start().index[spec_apos(enc_start().prev)] == enc_start().prev,
        enc_step(st, c).0.index.len() == 64,
        enc_step(st, c).0.index[spec_apos(enc_step(st, c).0.prev)] == enc_step(st, c).0.prev,
{
    let p = start_pixel();
    assert(0 <= spec_apos(p) < 64);
    assert(0 <= spec_apos(c) < 64);
}

/// The bytes written for the pixels `px` from state `st` on, the pending run
/// closed at the end.
pub open spec fn enc_from(st: EncState, px: Seq<PIX>) -> Seq<u8>
    decreases px.len(),
{
    if px.len() == 0 {
        run_bytes(st.run)
    } else {
        let (st2, b) = enc_step(st, px[0]);
        b + enc_from(st2, px.drop_first())
    }
}

/// The magic bytes "qoif".
pub open spec fn magic() -> Seq<u8> {
    seq![0x71u8, 0x6fu8, 0x69u8, 0x66u8]
}

/// The header: magic bytes, width and height big-endian, channels and colour space.
pub open spec fn qoi_header(width: u32, height: u32, channels: u8, colorspace: u8) -> Seq<u8> {
    magic() + be_bytes(width) + be_bytes(height) + seq![channels, colorspace]
}

/// Eight zero bytes that end the stream.
pub open spec fn end_marker() -> Seq<u8> {
    seq![0u8, 0u8, 0u8, 0u8, 0u8, 0u8, 0u8, 0u8]
}

/// The encoding of the pixels `px`: header, chunks, end marker.
pub open spec fn qoi_encode(width: u32, height: u32, channels: u8, colorspace: u8, px: Seq<PIX>) -> Seq<u8> {
    qoi_header(width, height, channels, colorspace) + enc_from(enc_start(), px) + end_marker()
}

fn push_bytes(out: &mut Vec<u8>, b: &[u8])
    ensures
        final(out)@ == old(out)@ + b@,
{
    let mut k: usize = 0;
    while k < b.len()
        invariant
            k <= b.len(),
            out@ == old(out)@ + b@.subrange(0, k as int),
        decreases b.len() - k,
    {
        out.push(b[k]);
        k += 1;
        assert(b@.subrange(0, k as int) =~= b@.subrange(0, k - 1) + seq![b@[k - 1]]);
    }
    assert(b@.subrange(0, b.len() as int) =~= b@);
}

fn flush_run(out: &mut Vec<u8>, run: usize)
    ensures
        final(out)@ == old(out)@ + run_bytes(run as nat),
{
    let mut runcount = run;
    while runcount > 62
        invariant
            old(out)@ + run_bytes(run as nat) == out@ + run_bytes(runcount as nat),
        decreases runcount,
    {
        out.push(0b11111101);
        runcount -= 62;
    }
    if runcount > 0 {
        let rc = runcount as u8;
        let b = 0b11000000 | rc;
        assert(b == 192 + rc) by (bit_vector)
            requires
                b == 0b11000000u8 | rc,
                rc <= 62,
        ;
        out.push(b);
    }
}

fn push_chunk(out: &mut Vec<u8>, lpix: PIX, pixarr: &mut Vec<PIX>, cpix: PIX)
    requires
        old(pixarr)@.len() == 64,
        cpix != lpix,
    ensures
        final(out)@ == old(out)@ + chunk(lpix, old(pixarr)@, cpix),
        final(pixarr)@ == old(pixarr)@.update(spec_apos(cpix), cpix),
{
    let ind = get_apos(cpix);
    if pix_eq(pixarr[ind], cpix) {
        out.push(ind as u8);
        assert(pixarr@.update(ind as int, cpix) =~= pixarr@);
        return;
    } else {
        pixarr.set(ind, cpix);
    }
    if cpix.3 == lpix.3 {
        if test_for_diff(cpix, lpix) {
            let dr = get_diff_val(lpix.0, cpix.0);
            let dg = get_diff_val(lpix.1, cpix.1);
            let db = get_diff_val(lpix.2, cpix.2);
            let b = (1 << 6) | (dr << 4) | (dg << 2) | db;
            assert(b == 64 + 16 * dr + 4 * dg + db) by (bit_vector)
                requires
                    b == (1u8 << 6u8) | (dr << 4u8) | (dg << 2u8) | db,
                    dr < 4,
                    dg < 4,
                    db < 4,
            ;
            out.push(b);
            return;
        }
        let lumas = get_lumas(lpix, cpix);
        if lumas.0 != 64 {
            let l0 = lumas.0;
            let l1 = lumas.1;
            let l2 = lumas.2;
            let b1 = (1 << 7) | l1;
            let b2 = (l0 << 4) | l2;
            assert(b1 == 128 + l1 && b2 == 16 * l0 + l2) by (bit_vector)
                requires
                    b1 == (1u8 << 7u8) | l1,
                    b2 == (l0 << 4u8) | l2,
                    l0 < 16,
                    l1 < 64,
                    l2 < 16,
            ;
            out.push(b1);
            out.push(b2);
            return;
        }
        out.push(254);
        out.push(cpix.0);
        out.push(cpix.1);
        out.push(cpix.2);
    } else {
        out.push(255);
        out.push(cpix.0);
        out.push(cpix.1);
        out.push(cpix.2);
        out.push(cpix.3);
    }
}

/// Encodes the pixels still to come from `pixels` into a stream of chunks,
/// after a header with the given dimensions, channels and colour space and
/// before an end marker of eight zero bytes; `pixels` is left exhausted.
pub fn gen_qoif(width: u32, height: u32, channels: u8, colorspace: u8, pixels: &mut Pixels) -> (res: Vec<u8>)
    requires
        channels != 0,
        old(pixels).limit() % (channels as nat) == 0,
        old(pixels).can_read_all(),
    ensures
        res@ == qoi_encode(width, height, channels, colorspace, old(pixels).remaining()),
        final(pixels).bytes() == old(pixels).bytes(),
        final(pixels).channels() == old(pixels).channels(),
        final(pixels).limit() == old(pixels).limit(),
        final(pixels).pos() == stop_pos(
            old(pixels).channels() as int,
            old(pixels).pos() as int,
            old(pixels).limit() as int,
        ),
        final(pixels).pos() >= final(pixels).limit(),
{
    let mut finbytes: Vec<u8> = Vec::with_capacity(10);
    push_bytes(&mut finbytes, &[0x71, 0x6f, 0x69, 0x66]);
    let w = u32_to_u8arr(width);
    push_bytes(&mut finbytes, &w);
    let h = u32_to_u8arr(height);
    push_bytes(&mut finbytes, &h);
    push_bytes(&mut finbytes, &[channels, colorspace]);
    let mut pixarr: Vec<PIX> = Vec::new();
    while pixarr.len() < 64
        invariant
            pixarr@.len() <= 64,
            forall|k: int| 0 <= k < pixarr@.len() ==> pixarr@[k] == (0u8, 0u8, 0u8, 0u8),
        decreases 64 - pixarr.len(),
    {
        pixarr.push((0, 0, 0, 0));
    }
    let mut lpix: PIX = (0, 0, 0, 255);
    pixarr.set(get_apos(lpix), lpix);
    assert(pixarr@ =~= start_index());
    let mut runcount: usize = 0;
    let ghost px0 = pixels.remaining();
    let ghost total = qoi_encode(width, height, channels, colorspace, px0);
    assert(finbytes@ =~= qoi_header(width, height, channels, colorspace));
    loop
        invariant
            pixels.can_read_all(),
            pixels.bytes() == old(pixels).bytes(),
            pixels.channels() == old(pixels).channels(),
            pixels.limit() == old(pixels).limit(),
            pixarr@.len() == 64,
            runcount <= pixels.pos(),
            stop_pos(pixels.channels() as int, pixels.pos() as int, pixels.limit() as int) == stop_pos(
                old(pixels).channels() as int,
                old(pixels).pos() as int,
                old(pixels).limit() as int,
            ),
            total == finbytes@ + enc_from(
                EncState { prev: lpix, index: pixarr@, run: runcount as nat },
                pixels.remaining(),
            ) + end_marker(),
        ensures
            pixels.bytes() == old(pixels).bytes(),
            pixels.channels() == old(pixels).channels(),
            pixels.limit() == old(pixels).limit(),
            pixels.pos() >= pixels.limit(),
            pixels.pos() == stop_pos(
                old(pixels).channels() as int,
                old(pixels).pos() as int,
                old(pixels).limit() as int,
            ),
            total == finbytes@ + run_bytes(runcount as nat) + end_marker(),
        decreases if pixels.pos() < pixels.limit() { pixels.limit() - pixels.pos() } else { 0 },
    {
        let ghost rest = pixels.remaining();
        let ghost st = EncState { prev: lpix, index: pixarr@, run: runcount as nat };
        let next = pixels.next();
        match next {
            None => {
                break;
            },
            Some(cpix) => {
                assert(rest[0] == cpix && rest.drop_first() =~= pixels.remaining());
                if pix_eq(cpix, lpix) {
                    runcount += 1;
                } else {
                    let ghost before = finbytes@;
                    flush_run(&mut finbytes, runcount);
                    runcount = 0;
                    push_chunk(&mut finbytes, lpix, &mut pixarr, cpix);
                    lpix = cpix;
                    assert(finbytes@ =~= before + enc_step(st, cpix).1);
                }
            },
        }
    }
    flush_run(&mut finbytes, runcount);
    push_bytes(&mut finbytes, &[0, 0, 0, 0, 0, 0, 0, 0]);
    assert(finbytes@ =~= total);
    finbytes
}

} // verus!

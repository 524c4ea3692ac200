use vstd::prelude::*;
use crate::datas::{
    addsub_with_wrap, get_apos, rgba, spec_addsub, spec_apos, spec_op, QoiOps, PIX,
};
use crate::encode::{start_index, start_pixel};

verus! {

/// What the decoder carries from one chunk to the next: the previous pixel
/// and the table of recently seen pixels.
pub struct DecState {
    pub prev: PIX,
    pub index: Seq<PIX>,
}

/// The decoder's state before the first chunk.
pub open spec fn dec_start() -> DecState {
    DecState { prev: start_pixel(), index: start_index() }
}

/// The bytes of `n` copies of pixel `p`.
pub open spec fn repeat_rgba(p: PIX, n: nat) -> Seq<u8>
    decreases n,
{
    if n == 0 {
        seq![]
    } else {
        repeat_rgba(p, (n - 1) as nat) + rgba(p)
    }
}

/// How many bytes the chunk that starts with byte `b` takes.
pub open spec fn chunk_len(b: u8) -> int {
    if b == 254 {
        4
    } else if b == 255 {
        5
    } else {
        1
    }
}

/// The pixel that a small-difference chunk with byte `b` yields after `prev`;
/// the green difference is read from byte `g` (the stream's second byte).
pub open spec fn diff_pixel(prev: PIX, b: u8, g: u8) -> PIX {
    (
        spec_addsub(prev.0, (b as int / 16) % 4 - 2),
        spec_addsub(prev.1, (g as int / 4) % 4 - 2),
        spec_addsub(prev.2, b as int % 4 - 2),
        prev.3,
    )
}

/// The state after a chunk that yields the new pixel `p`.
pub open spec fn dec_new_pixel(st: DecState, p: PIX) -> DecState {
    DecState { prev: p, index: st.index.update(spec_apos(p), p) }
}

/// The chunk that starts at byte `i` of `buf`: the state after it and the bytes
/// it yields; `None` for a luma chunk, which the decoder does not take.
pub open spec fn dec_step(buf: Seq<u8>, i: int, st: DecState) -> Option<(DecState, Seq<u8>)> {
    let b = buf[i];
    match spec_op(b) {
        QoiOps::RGB => {
            let p = (buf[i + 1], buf[i + 2], buf[i + 3], st.prev.3);
            Some((dec_new_pixel(st, p), rgba(p)))
        },
        QoiOps::RGBA => {
            let p = (buf[i + 1], buf[i + 2], buf[i + 3], buf[i + 4]);
            Some((dec_new_pixel(st, p), rgba(p)))
        },
        QoiOps::INDEX => {
            let p = st.index[b as int % 64];
            Some((DecState { prev: p, index: st.index }, rgba(p)))
        },
        QoiOps::DIFF => {
            let p = diff_pixel(st.prev, b, buf[1]);
            Some((dec_new_pixel(st, p), rgba(p)))
        },
        QoiOps::LUMA => None,
        QoiOps::RUN => Some((st, repeat_rgba(st.prev, (b as int % 64) as nat))),
    }
}

/// `a` before the bytes in `o`, if there are any.
pub open spec fn prepend(a: Seq<u8>, o: Option<Seq<u8>>) -> Option<Seq<u8>> {
    match o {
        Some(r) => Some(a + r),
        None => None,
    }
}

/// The bytes yielded by the chunks from byte `i` up to the last eight bytes of
/// `buf`, from state `st`; `None` if a luma chunk comes first.
pub open spec fn dec_from(buf: Seq<u8>, i: int, st: DecState) -> Option<Seq<u8>>
    decreases buf.len() - i,
{
    if i < 0 || i >= buf.len() - 8 {
        Some(seq![])
    } else {
        match dec_step(buf, i, st) {
            None => None,
            Some((st2, out)) => prepend(out, dec_from(buf, i + chunk_len(buf[i]), st2)),
        }
    }
}

/// The decoding of `buf`: its bytes 4 to 13 (width, height, channels, colour
/// space) and then four bytes per pixel; `None` where `buf` is shorter than 14
/// bytes or holds a luma chunk.
pub open spec fn qoi_decode(buf: Seq<u8>) -> Option<Seq<u8>> {
    if buf.len() < 14 {
        None
    } else {
        prepend(buf.subrange(4, 14), dec_from(buf, 14, dec_start()))
    }
}

fn push_pix(out: &mut Vec<u8>, p: PIX)
    ensures
        final(out)@ == old(out)@ + rgba(p),
{
    out.push(p.0);
    out.push(p.1);
    out.push(p.2);
    out.push(p.3);
    assert(out@ =~= old(out)@ + rgba(p));
}

fn dec_chunk(buf: &Vec<u8>, i: usize, lpix: PIX, pixarr: &mut Vec<PIX>, out: &mut Vec<u8>) -> (r: Option<PIX>)
    requires
        14 <= i,
        i + 8 < buf@.len(),
        old(pixarr)@.len() == 64,
    ensures
        final(pixarr)@.len() == 64,
        match r {
            None => dec_step(buf@, i as int, DecState { prev: lpix, index: old(pixarr)@ }) is None,
            Some(p) => {
                &&& dec_step(buf@, i as int, DecState { prev: lpix, index: old(pixarr)@ }) is Some
                &&& dec_step(buf@, i as int, DecState { prev: lpix, index: old(pixarr)@ }).unwrap().0
                    == DecState { prev: p, index: final(pixarr)@ }
                &&& final(out)@ == old(out)@ + dec_step(
                    buf@,
                    i as int,
                    DecState { prev: lpix, index: old(pixarr)@ },
                ).unwrap().1
            },
        },
{
    let l = buf.len();
    assert(i + 8 < l);
    let b = buf[i];
    let oc = QoiOps::get_op(b);
    match oc {
        QoiOps::RGB => {
            let c: PIX = (buf[i + 1], buf[i + 2], buf[i + 3], lpix.3);
            pixarr.set(get_apos(c), c);
            push_pix(out, c);
            Some(c)
        },
        QoiOps::RGBA => {
            let c: PIX = (buf[i + 1], buf[i + 2], buf[i + 3], buf[i + 4]);
            pixarr.set(get_apos(c), c);
            push_pix(out, c);
            Some(c)
        },
        QoiOps::INDEX => {
            let k = b & 63;
            assert(k == b % 64) by (bit_vector)
                requires
                    k == b & 63u8,
            ;
            let c = pixarr[k as usize];
            push_pix(out, c);
            Some(c)
        },
        QoiOps::DIFF => {
            let g = buf[1];
            let dr = (b >> 4) & 3;
            let dg = (g >> 2) & 3;
            let db = b & 3;
            assert(dr == (b / 16) % 4 && dg == (g / 4) % 4 && db == b % 4) by (bit_vector)
                requires
                    dr == (b >> 4u8) & 3u8,
                    dg == (g >> 2u8) & 3u8,
                    db == b & 3u8,
            ;
            let c: PIX = (
                addsub_with_wrap(lpix.0, dr as i16 - 2),
                addsub_with_wrap(lpix.1, dg as i16 - 2),
                addsub_with_wrap(lpix.2, db as i16 - 2),
                lpix.3,
            );
            pixarr.set(get_apos(c), c);
            push_pix(out, c);
            Some(c)
        },
        QoiOps::LUMA => None,
        QoiOps::RUN => {
            let n = b & 63;
            assert(n == b % 64) by (bit_vector)
                requires
                    n == b & 63u8,
            ;
            let mut r: u8 = 0;
            while r < n
                invariant
                    r <= n,
                    out@ == old(out)@ + repeat_rgba(lpix, r as nat),
                decreases n - r,
            {
                push_pix(out, lpix);
                r += 1;
            }
            Some(lpix)
        },
    }
}

/// Decodes `buf` as `gen_dqoi` does, or gives `None` where `gen_dqoi` cannot:
/// a buffer shorter than 14 bytes, or one that holds a luma chunk.
pub fn try_decode(buf: &Vec<u8>) -> (res: Option<Vec<u8>>)
    ensures
        match res {
            Some(v) => qoi_decode(buf@) == Some(v@),
            None => qoi_decode(buf@) is None,
        },
{
    let l = buf.len();
    if l < 14 {
        return None;
    }
    let mut finbytes: Vec<u8> = Vec::with_capacity(22);
    let mut k: usize = 4;
    while k < 14
        invariant
            4 <= k <= 14 <= l == buf@.len(),
            finbytes@ == buf@.subrange(4, k as int),
        decreases 14 - k,
    {
        finbytes.push(buf[k]);
        k += 1;
        assert(finbytes@ =~= buf@.subrange(4, k as int));
    }
    let mut lpix: PIX = (0, 0, 0, 255);
    let mut pixarr: Vec<PIX> = Vec::new();
    while pixarr.len() < 64
        invariant
            pixarr@.len() <= 64,
            forall|k: int| 0 <= k < pixarr@.len() ==> pixarr@[k] == (0u8, 0u8, 0u8, 0u8),
        decreases 64 - pixarr.len(),
    {
        pixarr.push((0, 0, 0, 0));
    }
    pixarr.set(get_apos(lpix), lpix);
    assert(pixarr@ =~= start_index());
    let pl = l - 8;
    let mut i: usize = 14;
    let ghost whole = dec_from(buf@, 14, dec_start());
    let ghost done: Seq<u8> = seq![];
    while i < pl
        invariant
            l == buf@.len(),
            pl == l - 8,
            14 <= i,
            whole == dec_from(buf@, 14, dec_start()),
            pixarr@.len() == 64,
            finbytes@ == buf@.subrange(4, 14) + done,
            whole == prepend(done, dec_from(buf@, i as int, DecState { prev: lpix, index: pixarr@ })),
        decreases l - i,
    {
        let ghost st = DecState { prev: lpix, index: pixarr@ };
        let ghost before = finbytes@;
        match dec_chunk(buf, i, lpix, &mut pixarr, &mut finbytes) {
            None => {
                assert(dec_from(buf@, i as int, st) is None);
                assert(whole is None);
                assert(qoi_decode(buf@) is None);
                return None;
            },
            Some(p) => {
                let ghost st2 = DecState { prev: p, index: pixarr@ };
                let ghost out = dec_step(buf@, i as int, st).unwrap().1;
                let ghost rest = dec_from(buf@, i + chunk_len(buf@[i as int]), st2);
                assert(dec_from(buf@, i as int, st) == prepend(out, rest));
                assert(prepend(done, prepend(out, rest)) == prepend(done + out, rest)) by {
                    if rest is Some {
                        assert(done + (out + rest.unwrap()) =~= done + out + rest.unwrap());
                    }
                }
                proof {
                    done = done + out;
                }
                assert(finbytes@ =~= buf@.subrange(4, 14) + done);
                lpix = p;
                if buf[i] == 254 {
                    i += 4;
                } else if buf[i] == 255 {
                    i += 5;
                } else {
                    i += 1;
                }
            },
        }
    }
    assert(dec_from(buf@, i as int, DecState { prev: lpix, index: pixarr@ }) == Some(Seq::<u8>::empty()));
    assert(done + Seq::<u8>::empty() =~= done);
    Some(finbytes)
}

/// Decodes a stream: the header's width, height, channels and colour space
/// (bytes 4 to 13), then four bytes per pixel for each chunk before the last
/// eight bytes.
pub fn gen_dqoi(buf: &Vec<u8>) -> (res: Vec<u8>)
    requires
        qoi_decode(buf@) is Some,
    ensures
        qoi_decode(buf@) == Some(res@),
{
    match try_decode(buf) {
        Some(v) => v,
        None => Vec::new(),
    }
}

} // verus!

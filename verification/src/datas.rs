use vstd::prelude::*;

verus! {

/// A pixel as red, green, blue and alpha bytes.
pub type PIX = (u8, u8, u8, u8);

/// The four bytes of `n`, most significant first.
pub open spec fn be_bytes(n: u32) -> Seq<u8> {
    seq![
        (n / 0x100_0000) as u8,
        ((n / 0x1_0000) % 0x100) as u8,
        ((n / 0x100) % 0x100) as u8,
        (n % 0x100) as u8,
    ]
}

/// The number whose big-endian bytes are the first four of `b`.
pub open spec fn be_value(b: Seq<u8>) -> int {
    b[0] as int * 0x100_0000 + b[1] as int * 0x1_0000 + b[2] as int * 0x100 + b[3] as int
}

/// Position of a pixel in the 64-entry table of recently seen pixels.
pub open spec fn spec_apos(p: PIX) -> int {
    (p.0 as int * 3 + p.1 as int * 5 + p.2 as int * 7 + p.3 as int * 11) % 64
}

/// The pixel that starts at byte `p` of `bin` in an image of `cc` channels:
/// with three channels the alpha is opaque, otherwise it is the fourth byte.
pub open spec fn pix_at(bin: Seq<u8>, cc: int, p: int) -> PIX {
    (bin[p], bin[p + 1], bin[p + 2], if cc == 3 { 255u8 } else { bin[p + 3] })
}

/// Whether reading pixels from byte `i` on, `cc` bytes apart, while the position
/// is below `l`, stays inside a buffer of `blen` bytes and moves forward.
pub open spec fn reads_ok(blen: int, cc: int, i: int, l: int) -> bool
    decreases if i < l { l - i } else { 0 },
{
    if i >= l {
        true
    } else if cc <= 0 {
        false
    } else {
        &&& i + 2 < blen
        &&& (cc != 3 ==> i + 3 < blen)
        &&& i + cc <= usize::MAX
        &&& reads_ok(blen, cc, i + cc, l)
    }
}

/// The pixels read from byte `i` on, `cc` bytes apart, while the position is below `l`.
pub open spec fn pixels_from(bin: Seq<u8>, cc: int, i: int, l: int) -> Seq<PIX>
    decreases if i < l { l - i } else { 0 },
{
    if i >= l || cc <= 0 {
        seq![]
    } else {
        seq![pix_at(bin, cc, i)] + pixels_from(bin, cc, i + cc, l)
    }
}

/// Where reading from byte `i` on, `cc` bytes apart, stops: the first such
/// position at or past `l`.
pub open spec fn stop_pos(cc: int, i: int, l: int) -> int
    decreases if i < l { l - i } else { 0 },
{
    if i >= l || cc <= 0 {
        i
    } else {
        stop_pos(cc, i + cc, l)
    }
}

/// A buffer of `len` bytes holds whole pixels of `cc` channels, each of at least
/// three bytes (or none at all).
pub open spec fn whole_pixels(len: int, cc: int) -> bool {
    cc > 0 && len % cc == 0 && (cc >= 3 || len == 0)
}

proof fn lemma_whole_pixels_read(blen: int, cc: int, i: int)
    requires
        0 <= i <= blen <= usize::MAX,
        cc >= 3,
        (blen - i) % cc == 0,
    ensures
        reads_ok(blen, cc, i, blen),
    decreases blen - i,
{
    if i < blen {
        assert(blen - i >= cc) by (nonlinear_arith)
            requires
                (blen - i) % cc == 0,
                blen - i > 0,
                cc > 0,
        ;
        assert((blen - (i + cc)) % cc == 0) by (nonlinear_arith)
            requires
                (blen - i) % cc == 0,
                cc > 0,
        ;
        lemma_whole_pixels_read(blen, cc, i + cc);
    }
}

/// Reading whole pixels from byte `i` to byte `l` gives `(l - i) / cc` pixels,
/// the `k`-th of them read from byte `i + k * cc`.
pub proof fn lemma_pixels_from_whole(bin: Seq<u8>, cc: int, i: int, l: int)
    requires
        cc > 0,
        i <= l,
        (l - i) % cc == 0,
    ensures
        pixels_from(bin, cc, i, l).len() == (l - i) / cc,
        forall|k: int|
            0 <= k < (l - i) / cc ==> #[trigger] pixels_from(bin, cc, i, l)[k] == pix_at(bin, cc, i + k * cc),
    decreases l - i,
{
    let px = pixels_from(bin, cc, i, l);
    if i < l {
        assert(l - i >= cc && (l - (i + cc)) % cc == 0 && (l - (i + cc)) / cc == (l - i) / cc - 1)
            by (nonlinear_arith)
            requires
                (l - i) % cc == 0,
                l - i > 0,
                cc > 0,
        ;
        lemma_pixels_from_whole(bin, cc, i + cc, l);
        let rest = pixels_from(bin, cc, i + cc, l);
        assert(px == seq![pix_at(bin, cc, i)] + rest);
        assert forall|k: int| 0 <= k < (l - i) / cc implies #[trigger] px[k] == pix_at(bin, cc, i + k * cc) by {
            if k > 0 {
                assert(px[k] == rest[k - 1]);
                assert(i + cc + (k - 1) * cc == i + k * cc) by (nonlinear_arith);
            }
        }
    } else {
        assert((l - i) / cc == 0);
    }
}

/// The raw pixel bytes of an image, read as pixels of `cc` bytes each.
#[derive(Clone)]
pub struct Pixels {
    bin: Vec<u8>,
    cc: usize,
    i: usize,
    pub l: usize,
}

impl Pixels {
    /// The raw bytes.
    pub closed spec fn bytes(&self) -> Seq<u8> {
        self.bin@
    }

    /// The number of bytes a pixel takes.
    pub closed spec fn channels(&self) -> nat {
        self.cc as nat
    }

    /// The byte position at which reading stops.
    pub closed spec fn limit(&self) -> nat {
        self.l as nat
    }

    /// The byte at which the next pixel starts.
    pub closed spec fn pos(&self) -> nat {
        self.i as nat
    }

    /// Every pixel still to come can be read without leaving the buffer.
    pub open spec fn can_read_all(&self) -> bool {
        reads_ok(self.bytes().len() as int, self.channels() as int, self.pos() as int, self.limit() as int)
    }

    /// The pixels still to come, in order.
    pub open spec fn remaining(&self) -> Seq<PIX> {
        pixels_from(self.bytes(), self.channels() as int, self.pos() as int, self.limit() as int)
    }

    /// Starts reading `bin` from its first byte, `cc` bytes per pixel.
    pub fn new(bin: Vec<u8>, cc: usize) -> (p: Self)
        ensures
            p.bytes() == bin@,
            p.channels() == cc,
            p.pos() == 0,
            p.limit() == bin.len(),
            whole_pixels(bin.len() as int, cc as int) ==> p.can_read_all(),
    {
        let l = bin.len();
        let p = Pixels { bin, cc, i: 0, l };
        proof {
            if whole_pixels(l as int, cc as int) && l > 0 {
                lemma_whole_pixels_read(l as int, cc as int, 0);
            }
        }
        p
    }

    /// The next pixel, or `None` once the position has reached `l`.
    pub fn next(&mut self) -> (r: Option<PIX>)
        requires
            old(self).pos() < old(self).limit() ==> {
                &&& old(self).pos() + 2 < old(self).bytes().len()
                &&& old(self).channels() != 3 ==> old(self).pos() + 3 < old(self).bytes().len()
                &&& old(self).pos() + old(self).channels() <= usize::MAX
            },
        ensures
            old(self).pos() >= old(self).limit() ==> r is None && *final(self) == *old(self),
            old(self).pos() < old(self).limit() ==> {
                &&& r == Some(pix_at(old(self).bytes(), old(self).channels() as int, old(self).pos() as int))
                &&& final(self).bytes() == old(self).bytes()
                &&& final(self).channels() == old(self).channels()
                &&& final(self).limit() == old(self).limit()
                &&& final(self).pos() == old(self).pos() + old(self).channels()
            },
            old(self).can_read_all() ==> {
                &&& final(self).can_read_all()
                &&& r is None ==> old(self).remaining().len() == 0
                &&& r matches Some(p) ==> old(self).remaining() == seq![p] + final(self).remaining()
            },
    {
        if self.i >= self.l {
            return None;
        }
        assert(self.cc != 3 ==> self.i + 3 < self.bin.len());
        let a: u8 = if self.cc == 3 { 255 } else { self.bin[self.i + 3] };
        let p: PIX = (self.bin[self.i], self.bin[self.i + 1], self.bin[self.i + 2], a);
        self.i += self.cc;
        Some(p)
    }
}

/// The kinds of chunk in an encoded stream.
#[derive(Debug, PartialEq, Eq, Structural)]
pub enum QoiOps {
    RGB,
    RGBA,
    INDEX,
    DIFF,
    LUMA,
    RUN,
}

/// The kind of chunk that a chunk's first byte `b` announces.
pub open spec fn spec_op(b: u8) -> QoiOps {
    if b == 254 {
        QoiOps::RGB
    } else if b == 255 {
        QoiOps::RGBA
    } else if b < 64 {
        QoiOps::INDEX
    } else if b < 128 {
        QoiOps::DIFF
    } else if b < 192 {
        QoiOps::LUMA
    } else {
        QoiOps::RUN
    }
}

impl QoiOps {
    /// 254 and 255 announce full colours; otherwise the top two bits of `b` decide.
    pub fn get_op(b: u8) -> (r: Self)
        ensures
            r == spec_op(b),
    {
        if b == 254 {
            return Self::RGB;
        }
        if b == 255 {
            return Self::RGBA;
        }
        let c: u8 = (b & 192) >> 6;
        assert(c == b / 64) by (bit_vector)
            requires
                c == (b & 192) >> 6,
        ;
        match c {
            0 => Self::INDEX,
            1 => Self::DIFF,
            2 => Self::LUMA,
            _ => Self::RUN,
        }
    }
}

/// Whether the two pixels agree in every channel.
pub fn pix_eq(p1: PIX, p2: PIX) -> (r: bool)
    ensures
        r == (p1 == p2),
{
    p1.0 == p2.0 && p1.1 == p2.1 && p1.2 == p2.2 && p1.3 == p2.3
}

/// The big-endian bytes of `n`.
pub fn u32_to_u8arr(n: u32) -> (r: [u8; 4])
    ensures
        r@ == be_bytes(n),
{
    [(n / 0x100_0000) as u8, ((n / 0x1_0000) % 0x100) as u8, ((n / 0x100) % 0x100) as u8, (n % 0x100) as u8]
}

/// The number whose big-endian bytes are `arr`.
pub fn u8arr_to_u32(arr: &[u8; 4]) -> (r: u32)
    ensures
        r == be_value(arr@),
{
    arr[0] as u32 * 0x100_0000 + arr[1] as u32 * 0x1_0000 + arr[2] as u32 * 0x100 + arr[3] as u32
}

/// Copies the first four bytes of `unbuf` into `buf`.
pub fn mv_un_tosized_buf(unbuf: &[u8], buf: &mut [u8; 4])
    requires
        unbuf@.len() >= 4,
    ensures
        final(buf)@ == unbuf@.subrange(0, 4),
{
    buf[0] = unbuf[0];
    buf[1] = unbuf[1];
    buf[2] = unbuf[2];
    buf[3] = unbuf[3];
    assert(buf@ =~= unbuf@.subrange(0, 4));
}

/// Table position of `p`: `(r * 3 + g * 5 + b * 7 + a * 11) % 64`.
pub fn get_apos(p: PIX) -> (r: usize)
    ensures
        r == spec_apos(p),
        r < 64,
{
    (p.0 as usize * 3 + p.1 as usize * 5 + p.2 as usize * 7 + p.3 as usize * 11) % 64
}

/// Reads a raw image: width and height as big-endian 32-bit numbers, then the
/// number of channels and the colour space, then the pixel bytes, read as
/// pixels of as many bytes as there are channels.
pub fn parse_binary_to_tuple(data: Vec<u8>) -> (r: (u32, u32, u8, u8, Pixels))
    requires
        data@.len() >= 10,
    ensures
        r.0 == be_value(data@.subrange(0, 4)),
        r.1 == be_value(data@.subrange(4, 8)),
        r.2 == data@[8],
        r.3 == data@[9],
        r.4.bytes() == data@.subrange(10, data@.len() as int),
        r.4.channels() == data@[8],
        r.4.pos() == 0,
        r.4.limit() == data@.len() - 10,
{
    let mut data = data;
    let mut buf: [u8; 4] = [0; 4];
    mv_un_tosized_buf(data.as_slice(), &mut buf);
    let width: u32 = u8arr_to_u32(&buf);
    mv_un_tosized_buf(&data.as_slice()[4..8], &mut buf);
    let height: u32 = u8arr_to_u32(&buf);
    let channels = data[8];
    let colorspace = data[9];
    let bin = data.split_off(10);
    (width, height, channels, colorspace, Pixels::new(bin, channels as usize))
}

/// Reading the big-endian bytes of a number gives the number back.
pub proof fn lemma_be_value_of_bytes(n: u32)
    ensures
        be_value(be_bytes(n)) == n,
        be_bytes(n).len() == 4,
        be_bytes(n)[0] as int * 0x100_0000 + be_bytes(n)[1] as int * 0x1_0000 + be_bytes(n)[2] as int * 0x100
            + be_bytes(n)[3] as int == n,
{
    let b = be_bytes(n);
    assert(b[0] as int == n as int / 0x100_0000);
    assert(be_value(b) == n) by (nonlinear_arith)
        requires
            b[0] as int == n as int / 0x100_0000,
            b[1] as int == (n as int / 0x1_0000) % 0x100,
            b[2] as int == (n as int / 0x100) % 0x100,
            b[3] as int == n as int % 0x100,
            be_value(b) == b[0] as int * 0x100_0000 + b[1] as int * 0x1_0000 + b[2] as int * 0x100 + b[3] as int,
            0 <= n < 0x1_0000_0000,
    ;
}

/// Writing the number that four bytes stand for gives the bytes back.
pub proof fn lemma_bytes_of_be_value(b: Seq<u8>)
    requires
        b.len() == 4,
    ensures
        0 <= be_value(b) <= u32::MAX,
        be_value(b) == b[0] as int * 0x100_0000 + b[1] as int * 0x1_0000 + b[2] as int * 0x100 + b[3] as int,
        be_bytes(be_value(b) as u32) == b,
{
    let v = be_value(b);
    assert(0 <= v <= u32::MAX);
    let n = v as u32;
    assert(n as int / 0x100_0000 == b[0] as int && (n as int / 0x1_0000) % 0x100 == b[1] as int
        && (n as int / 0x100) % 0x100 == b[2] as int && n as int % 0x100 == b[3] as int) by (nonlinear_arith)
        requires
            n as int == b[0] as int * 0x100_0000 + b[1] as int * 0x1_0000 + b[2] as int * 0x100 + b[3] as int,
            0 <= b[0] < 256,
            0 <= b[1] < 256,
            0 <= b[2] < 256,
            0 <= b[3] < 256,
    ;
    assert(be_bytes(n) =~= b);
}

/// A pixel's table position is `(3 r + 5 g + 7 b + 11 a) % 64`, below 64.
pub proof fn lemma_apos_formula(p: PIX)
    ensures
        spec_apos(p) == (3 * p.0 as int + 5 * p.1 as int + 7 * p.2 as int + 11 * p.3 as int) % 64,
        0 <= spec_apos(p) < 64,
{
}

/// The chunk kind of a first byte: 254 full colour, 255 full colour with alpha,
/// otherwise by the top two bits: 00 table, 01 small difference, 10 luma, 11 run.
pub proof fn lemma_op_classes(b: u8)
    ensures
        b == 254 <==> spec_op(b) == QoiOps::RGB,
        b == 255 <==> spec_op(b) == QoiOps::RGBA,
        b / 64 == 0 <==> spec_op(b) == QoiOps::INDEX,
        b / 64 == 1 <==> spec_op(b) == QoiOps::DIFF,
        b / 64 == 2 <==> spec_op(b) == QoiOps::LUMA,
        b / 64 == 3 && b < 254 <==> spec_op(b) == QoiOps::RUN,
{
}

/// A pixel read at byte `p` has the colour bytes `p`, `p + 1`, `p + 2`, and alpha
/// 255 with three channels, the byte `p + 3` otherwise.
pub proof fn lemma_pixel_bytes(bin: Seq<u8>, cc: int, p: int)
    ensures
        pix_at(bin, cc, p).0 == bin[p],
        pix_at(bin, cc, p).1 == bin[p + 1],
        pix_at(bin, cc, p).2 == bin[p + 2],
        cc == 3 ==> pix_at(bin, cc, p).3 == 255,
        cc != 3 ==> pix_at(bin, cc, p).3 == bin[p + 3],
{
}

/// The four bytes of a pixel in the order red, green, blue, alpha.
pub open spec fn rgba(p: PIX) -> Seq<u8> {
    seq![p.0, p.1, p.2, p.3]
}

/// `b - a + 2`, wrapping around at 256: the stored form of a small difference.
pub open spec fn spec_diff_val(a: u8, b: u8) -> u8 {
    ((b as int - a as int + 2) % 256) as u8
}

/// Each colour channel of `c` differs from that of `l` by -2, -1, 0 or 1,
/// counted with wrap-around.
pub open spec fn spec_test_for_diff(c: PIX, l: PIX) -> bool {
    &&& spec_diff_val(l.0, c.0) < 4
    &&& spec_diff_val(l.1, c.1) < 4
    &&& spec_diff_val(l.2, c.2) < 4
}

/// The stored form of a luma step from `l` to `c`: the red and blue differences
/// relative to the green one, each plus 8, and the green difference plus 32,
/// all with wrap-around; `(64, 0, 0)` where one of them is out of range.
pub open spec fn spec_lumas(l: PIX, c: PIX) -> (u8, u8, u8) {
    let dg = c.1 as int - l.1 as int;
    let vg = (dg + 32) % 256;
    let vr = (c.0 as int - l.0 as int - dg + 8) % 256;
    let vb = (c.2 as int - l.2 as int - dg + 8) % 256;
    if vg < 64 && vr < 16 && vb < 16 {
        (vr as u8, vg as u8, vb as u8)
    } else {
        (64u8, 0u8, 0u8)
    }
}

/// `v + d`, wrapping around at 256.
pub open spec fn spec_addsub(v: u8, d: int) -> u8 {
    ((v as int + d) % 256) as u8
}

proof fn lemma_mod_add_256(x: int, k: int)
    ensures
        (x + 256 * k) % 256 == x % 256,
{
    assert((x + 256 * k) % 256 == x % 256) by (nonlinear_arith);
}

/// `b - a + 2`, wrapping around at 256.
pub fn get_diff_val(a: u8, b: u8) -> (r: u8)
    ensures
        r == spec_diff_val(a, b),
{
    ((b as u16 + 258 - a as u16) % 256) as u8
}

/// Whether `c` is within a small difference of `l` in each colour channel.
pub fn test_for_diff(c: PIX, l: PIX) -> (r: bool)
    ensures
        r == spec_test_for_diff(c, l),
{
    get_diff_val(l.0, c.0) < 4 && get_diff_val(l.1, c.1) < 4 && get_diff_val(l.2, c.2) < 4
}

/// The stored form of a luma step from `l` to `c`, with 64 first where there is none.
pub fn get_lumas(l: PIX, c: PIX) -> (r: (u8, u8, u8))
    ensures
        r == spec_lumas(l, c),
{
    let vg: u16 = (c.1 as u16 + 288 - l.1 as u16) % 256;
    let vr: u16 = (c.0 as u16 + 512 + 8 - l.0 as u16 - c.1 as u16 + l.1 as u16) % 256;
    let vb: u16 = (c.2 as u16 + 512 + 8 - l.2 as u16 - c.1 as u16 + l.1 as u16) % 256;
    let ghost dg = c.1 as int - l.1 as int;
    assert(vg == (dg + 32) % 256) by {
        lemma_mod_add_256(dg + 32, 1);
    }
    assert(vr == (c.0 as int - l.0 as int - dg + 8) % 256) by {
        lemma_mod_add_256(c.0 as int - l.0 as int - dg + 8, 2);
    }
    assert(vb == (c.2 as int - l.2 as int - dg + 8) % 256) by {
        lemma_mod_add_256(c.2 as int - l.2 as int - dg + 8, 2);
    }
    if vg < 64 && vr < 16 && vb < 16 {
        (vr as u8, vg as u8, vb as u8)
    } else {
        (64, 0, 0)
    }
}

/// `v + d`, wrapping around at 256.
pub fn addsub_with_wrap(v: u8, d: i16) -> (r: u8)
    requires
        -256 <= d <= 256,
    ensures
        r == spec_addsub(v, d as int),
{
    ((v as i16 + d + 256) % 256) as u8
}

} // verus!

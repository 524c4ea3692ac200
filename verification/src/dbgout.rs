use vstd::prelude::*;
use vstd::utf8::{decode_utf8, valid_utf8};
use crate::datas::{be_value, mv_un_tosized_buf, spec_op, u8arr_to_u32, QoiOps};

verus! {

/// The hexadecimal digit for `v` (below 16), in lower case.
pub open spec fn hex_char(v: int) -> char {
    if v < 10 {
        (48 + v) as char
    } else {
        (87 + v) as char
    }
}

fn hex_digit(v: u8) -> (c: char)
    requires
        v < 16,
    ensures
        c == hex_char(v as int),
{
    if v < 10 {
        (48 + v) as char
    } else {
        (87 + v) as char
    }
}

/// Appends `c` to `s` with `String::push`; trusted to add exactly that one
/// character at the end.
#[verifier::external_body]
fn push_char(s: &mut String, c: char)
    ensures
        final(s)@ == old(s)@.push(c),
{
    s.push(c);
}

fn push_lit(s: &mut String, lit: &str)
    ensures
        final(s)@ == old(s)@ + lit@,
{
    s.append(lit);
}

/// The decimal digits of `n`, most significant first.
pub open spec fn dec(n: nat) -> Seq<char>
    decreases n,
{
    if n < 10 {
        seq![(48 + n) as char]
    } else {
        dec(n / 10) + seq![(48 + n % 10) as char]
    }
}

/// `x` in decimal, with a minus sign where it is negative.
pub open spec fn dec_signed(x: int) -> Seq<char> {
    if x < 0 {
        seq!['-'] + dec((-x) as nat)
    } else {
        dec(x as nat)
    }
}

/// The two hexadecimal digits of `b`.
pub open spec fn hex_byte(b: u8) -> Seq<char> {
    seq![hex_char(b as int / 16), hex_char(b as int % 16)]
}

/// The two hexadecimal digits of `b` and a space.
pub open spec fn hex_sp(b: u8) -> Seq<char> {
    hex_byte(b) + seq![' ']
}

/// `"( "`, the text of `x`, `" )"` and a line break.
pub open spec fn paren_line(x: Seq<char>) -> Seq<char> {
    "( "@ + x + " )\n"@
}

/// The `n` bytes of `dat` from byte `i` on, each in hexadecimal and followed by a space.
pub open spec fn hex_run(dat: Seq<u8>, i: int, n: nat) -> Seq<char>
    decreases n,
{
    if n == 0 {
        seq![]
    } else {
        hex_run(dat, i, (n - 1) as nat) + hex_sp(dat[i + n - 1])
    }
}

/// A big-endian number at byte `i` of `dat`: its bytes in hexadecimal, then its value.
pub open spec fn number_text(dat: Seq<u8>, i: int) -> Seq<char> {
    hex_run(dat, i, 4) + paren_line(dec(be_value(dat.subrange(i, i + 4)) as nat))
}

/// Width, height, channels and colour space from byte `i` of `dat` on.
pub open spec fn fields_text(dat: Seq<u8>, i: int) -> Seq<char> {
    number_text(dat, i) + number_text(dat, i + 4) + hex_run(dat, i + 8, 2) + paren_line(dec(dat[i + 8] as nat) + ", "@ + dec(dat[i + 9] as nat))
}

/// The magic bytes in hexadecimal, then as text.
pub open spec fn magic_text(dat: Seq<u8>) -> Seq<char> {
    hex_run(dat, 0, 4) + paren_line(decode_utf8(dat.subrange(0, 4)))
}

/// How many bytes the chunk that starts with `b` takes in the listing.
pub open spec fn listed_len(b: u8) -> int {
    match spec_op(b) {
        QoiOps::RGB => 4,
        QoiOps::RGBA => 5,
        QoiOps::LUMA => 2,
        _ => 1,
    }
}

/// A full-colour chunk at byte `i`: its colour bytes in hexadecimal, then in decimal.
pub open spec fn rgb_text(dat: Seq<u8>, i: int) -> Seq<char> {
    hex_run(dat, i + 1, 3) + paren_line(
        "QoiOps::RGB "@ + dec(dat[i + 1] as nat) + " "@ + dec(dat[i + 2] as nat) + " "@ + dec(dat[i + 3] as nat),
    )
}

/// A full-colour chunk with alpha at byte `i`: its bytes in hexadecimal, then in decimal.
pub open spec fn rgba_text(dat: Seq<u8>, i: int) -> Seq<char> {
    hex_run(dat, i + 1, 4) + paren_line(
        "QoiOps::RGBA "@ + dec(dat[i + 1] as nat) + " "@ + dec(dat[i + 2] as nat) + " "@ + dec(dat[i + 3] as nat)
            + " "@ + dec(dat[i + 4] as nat),
    )
}

/// A table chunk with byte `b`: the table position.
pub open spec fn index_text(b: u8) -> Seq<char> {
    paren_line("QoiOps::INDEX "@ + dec((b as int % 64) as nat))
}

/// A small-difference chunk with byte `b`: the three differences.
pub open spec fn diff_text(b: u8) -> Seq<char> {
    paren_line(
        "QoiOps::DIFF "@ + dec_signed((b as int / 16) % 4 - 2) + " "@ + dec_signed((b as int / 4) % 4 - 2) + " "@
            + dec_signed(b as int % 4 - 2),
    )
}

/// A luma chunk with bytes `b` and `d`: the second byte in hexadecimal, then the
/// red, green and blue differences.
pub open spec fn luma_text(b: u8, d: u8) -> Seq<char> {
    let gd = b as int % 64 - 32;
    hex_byte(d) + " "@ + paren_line(
        "QoiOps::LUMA "@ + dec_signed(d as int / 16 - 8 + gd) + " "@ + dec_signed(gd) + " "@ + dec_signed(
            d as int % 16 - 8 + gd,
        ),
    )
}

/// A run chunk with byte `b`: the stored run length.
pub open spec fn run_text(b: u8) -> Seq<char> {
    paren_line("QoiOps::RUN "@ + dec((b as int % 64) as nat))
}

/// The description of the chunk at byte `i`, after its first byte.
pub open spec fn op_text(dat: Seq<u8>, i: int) -> Seq<char> {
    let b = dat[i];
    match spec_op(b) {
        QoiOps::RGB => rgb_text(dat, i),
        QoiOps::RGBA => rgba_text(dat, i),
        QoiOps::INDEX => index_text(b),
        QoiOps::DIFF => diff_text(b),
        QoiOps::LUMA => luma_text(b, dat[i + 1]),
        QoiOps::RUN => run_text(b),
    }
}

/// The listing of the chunks from byte `i` up to the last eight bytes of `dat`.
pub open spec fn ops_text(dat: Seq<u8>, i: int) -> Seq<char>
    decreases dat.len() - i,
{
    if i < 0 || i + 8 >= dat.len() {
        seq![]
    } else {
        hex_sp(dat[i]) + op_text(dat, i) + ops_text(dat, i + listed_len(dat[i]))
    }
}

/// After every fourth pixel byte (counted from byte 10), the last four bytes in decimal.
pub open spec fn group_text(dat: Seq<u8>, i: int) -> Seq<char> {
    if (i - 10) % 4 == 0 {
        "( "@ + dec(dat[i - 4] as nat) + " "@ + dec(dat[i - 3] as nat) + " "@ + dec(dat[i - 2] as nat) + " "@
            + dec(dat[i - 1] as nat) + " "@ + ")\n"@
    } else {
        seq![]
    }
}

/// The listing of the pixel bytes from byte `i` on.
pub open spec fn raw_text(dat: Seq<u8>, i: int) -> Seq<char>
    decreases dat.len() - i,
{
    if i >= dat.len() {
        group_text(dat, i)
    } else {
        group_text(dat, i) + hex_sp(dat[i]) + raw_text(dat, i + 1)
    }
}

/// The listing of an encoded stream (`oflag`) or of a decoded image.
pub open spec fn dbg_text(dat: Seq<u8>, oflag: bool) -> Seq<char> {
    if oflag {
        magic_text(dat) + fields_text(dat, 4) + ops_text(dat, 14)
            + "00 00 00 00 00 00 00 00 ( QOI END MARKER )\n"@
    } else {
        fields_text(dat, 0) + hex_sp(dat[10]) + raw_text(dat, 11)
    }
}

/// The number that the decimal digits `s` stand for.
pub open spec fn digits_value(s: Seq<char>) -> int
    decreases s.len(),
{
    if s.len() == 0 {
        0
    } else {
        digits_value(s.drop_last()) * 10 + (s.last() as int - 48)
    }
}

/// `dec(n)` is the decimal writing of `n`: digits '0' to '9' only, no leading
/// zero but for `n == 0` itself, standing for `n`.
pub proof fn lemma_dec_is_decimal(n: nat)
    ensures
        dec(n).len() >= 1,
        forall|j: int| 0 <= j < dec(n).len() ==> '0' <= #[trigger] dec(n)[j] <= '9',
        n > 0 ==> dec(n)[0] != '0',
        n == 0 ==> dec(n) == seq!['0'],
        digits_value(dec(n)) == n,
    decreases n,
{
    if n >= 10 {
        lemma_dec_is_decimal(n / 10);
        let s = dec(n);
        assert(s.drop_last() =~= dec(n / 10));
        assert(s[0] == dec(n / 10)[0]);
        assert(s.last() as int == 48 + n % 10);
        assert(digits_value(s) == digits_value(dec(n / 10)) * 10 + (s.last() as int - 48));
        assert(n == (n / 10) * 10 + n % 10);
        assert forall|j: int| 0 <= j < s.len() implies '0' <= #[trigger] s[j] <= '9' by {
            if j < s.len() - 1 {
                assert(s[j] == dec(n / 10)[j]);
            }
        }
    } else {
        assert(dec(n).drop_last() =~= Seq::<char>::empty());
        assert(dec(n).last() as int == 48 + n);
        assert(digits_value(dec(n).drop_last()) == 0);
    }
}

/// The line for a big-endian number at byte `i` shows its four bytes in
/// hexadecimal, then `dat[i] * 2^24 + dat[i+1] * 2^16 + dat[i+2] * 2^8 + dat[i+3]` in decimal.
pub proof fn lemma_number_listing(dat: Seq<u8>, i: int)
    requires
        0 <= i,
        i + 4 <= dat.len(),
    ensures
        number_text(dat, i) == hex_sp(dat[i]) + hex_sp(dat[i + 1]) + hex_sp(dat[i + 2]) + hex_sp(dat[i + 3])
            + "( "@ + dec(
            (dat[i] as int * 0x100_0000 + dat[i + 1] as int * 0x1_0000 + dat[i + 2] as int * 0x100
                + dat[i + 3] as int) as nat,
        ) + " )\n"@,
{
    reveal_with_fuel(hex_run, 5);
    let v = dat.subrange(i, i + 4);
    assert(v[0] == dat[i] && v[1] == dat[i + 1] && v[2] == dat[i + 2] && v[3] == dat[i + 3]);
    assert(hex_run(dat, i, 4) =~= hex_sp(dat[i]) + hex_sp(dat[i + 1]) + hex_sp(dat[i + 2]) + hex_sp(dat[i + 3]));
}

/// One pixel of a decoded image at byte `p`: its four bytes in hexadecimal, then
/// the same four in decimal in parentheses.
pub open spec fn pixel_line(dat: Seq<u8>, p: int) -> Seq<char> {
    hex_sp(dat[p]) + hex_sp(dat[p + 1]) + hex_sp(dat[p + 2]) + hex_sp(dat[p + 3]) + "( "@ + dec(dat[p] as nat)
        + " "@ + dec(dat[p + 1] as nat) + " "@ + dec(dat[p + 2] as nat) + " "@ + dec(dat[p + 3] as nat) + " "@
        + ")\n"@
}

/// The lines of `n` pixels from byte `p` on.
pub open spec fn pixel_lines(dat: Seq<u8>, p: int, n: nat) -> Seq<char>
    decreases n,
{
    if n == 0 {
        seq![]
    } else {
        pixel_line(dat, p) + pixel_lines(dat, p + 4, (n - 1) as nat)
    }
}

proof fn lemma_concat_assoc(a: Seq<char>, b: Seq<char>, c: Seq<char>)
    ensures
        a + (b + c) == (a + b) + c,
{
    assert(a + (b + c) =~= (a + b) + c);
}

#[verifier::rlimit(50)]
proof fn lemma_raw_from_pixel(dat: Seq<u8>, p: int, m: nat)
    requires
        m >= 1,
        p >= 10,
        (p - 10) % 4 == 0,
        dat.len() == p + 4 * m,
    ensures
        hex_sp(dat[p]) + raw_text(dat, p + 1) == pixel_lines(dat, p, m),
    decreases m,
{
    let d = dat;
    let h0 = hex_sp(d[p]);
    let h1 = hex_sp(d[p + 1]);
    let h2 = hex_sp(d[p + 2]);
    let h3 = hex_sp(d[p + 3]);
    assert(group_text(d, p + 1) =~= seq![]);
    assert(group_text(d, p + 2) =~= seq![]);
    assert(group_text(d, p + 3) =~= seq![]);
    let g = group_text(d, p + 4);
    assert(g == "( "@ + dec(d[p] as nat) + " "@ + dec(d[p + 1] as nat) + " "@ + dec(d[p + 2] as nat) + " "@
        + dec(d[p + 3] as nat) + " "@ + ")\n"@);
    let rest = pixel_lines(d, p + 4, (m - 1) as nat);
    if m == 1 {
        assert(raw_text(d, p + 4) == g);
        assert(rest =~= seq![]);
        assert(raw_text(d, p + 4) =~= g + rest);
    } else {
        assert(raw_text(d, p + 4) == g + hex_sp(d[p + 4]) + raw_text(d, p + 5));
        lemma_raw_from_pixel(d, p + 4, (m - 1) as nat);
        lemma_concat_assoc(g, hex_sp(d[p + 4]), raw_text(d, p + 5));
    }
    let r4 = raw_text(d, p + 4);
    assert(raw_text(d, p + 3) =~= h3 + r4);
    assert(raw_text(d, p + 2) =~= h2 + (h3 + r4));
    assert(raw_text(d, p + 1) =~= h1 + (h2 + (h3 + r4)));
    let x = h0 + h1 + h2 + h3;
    assert(h0 + (h1 + (h2 + (h3 + (g + rest)))) =~= x + g + rest);
    assert(pixel_line(d, p) =~= x + g);
}

/// The listing of a decoded image of `n` pixels (10 header bytes, then four per
/// pixel) is the header lines and then one line per pixel: its four bytes in
/// hexadecimal and, in parentheses, in decimal.
pub proof fn lemma_image_listing(dat: Seq<u8>, n: nat)
    requires
        n >= 1,
        dat.len() == 10 + 4 * n,
    ensures
        dbg_text(dat, false) == fields_text(dat, 0) + pixel_lines(dat, 10, n),
{
    lemma_raw_from_pixel(dat, 10, n);
    assert(dbg_text(dat, false) =~= fields_text(dat, 0) + (hex_sp(dat[10]) + raw_text(dat, 11)));
}

/// The header lines list the width at byte `i`, then the height at byte `i + 4`,
/// then the channels and colour space bytes in hexadecimal and in decimal.
pub proof fn lemma_fields_listing(dat: Seq<u8>, i: int)
    ensures
        fields_text(dat, i) == number_text(dat, i) + number_text(dat, i + 4) + hex_sp(dat[i + 8]) + hex_sp(
            dat[i + 9],
        ) + "( "@ + dec(dat[i + 8] as nat) + ", "@ + dec(dat[i + 9] as nat) + " )\n"@,
{
    reveal_with_fuel(hex_run, 3);
    assert(hex_run(dat, i + 8, 2) =~= hex_sp(dat[i + 8]) + hex_sp(dat[i + 9]));
    assert(fields_text(dat, i) =~= number_text(dat, i) + number_text(dat, i + 4) + hex_sp(dat[i + 8]) + hex_sp(
        dat[i + 9],
    ) + "( "@ + dec(dat[i + 8] as nat) + ", "@ + dec(dat[i + 9] as nat) + " )\n"@);
}

/// The listing of a stream is its magic bytes (in hexadecimal, then as text),
/// the header lines from byte 4, one line per chunk from byte 14 until the last
/// eight bytes, and the end-marker line; each chunk line starts with the chunk's
/// first byte and the next line starts 4 bytes on after 254, 5 after 255, 2
/// after a luma byte (128 to 191) and 1 after any other byte.
pub proof fn lemma_stream_listing(dat: Seq<u8>, i: int)
    ensures
        dbg_text(dat, true) == hex_sp(dat[0]) + hex_sp(dat[1]) + hex_sp(dat[2]) + hex_sp(dat[3]) + "( "@
            + decode_utf8(dat.subrange(0, 4)) + " )\n"@ + fields_text(dat, 4) + ops_text(dat, 14)
            + "00 00 00 00 00 00 00 00 ( QOI END MARKER )\n"@,
        0 <= i && i + 8 < dat.len() ==> ops_text(dat, i) == hex_sp(dat[i]) + op_text(dat, i) + ops_text(
            dat,
            i + if dat[i] == 254 {
                4int
            } else if dat[i] == 255 {
                5int
            } else if 128 <= dat[i] < 192 {
                2int
            } else {
                1int
            },
        ),
{
    reveal_with_fuel(hex_run, 5);
    assert(hex_run(dat, 0, 4) =~= hex_sp(dat[0]) + hex_sp(dat[1]) + hex_sp(dat[2]) + hex_sp(dat[3]));
    assert(dbg_text(dat, true) =~= hex_sp(dat[0]) + hex_sp(dat[1]) + hex_sp(dat[2]) + hex_sp(dat[3]) + "( "@
        + decode_utf8(dat.subrange(0, 4)) + " )\n"@ + fields_text(dat, 4) + ops_text(dat, 14)
        + "00 00 00 00 00 00 00 00 ( QOI END MARKER )\n"@);
}

/// `dec_signed(x)` is a minus sign and the decimal digits of `-x` where `x` is
/// negative, and the decimal digits of `x` otherwise.
pub proof fn lemma_signed_decimal(x: int)
    ensures
        x < 0 ==> dec_signed(x)[0] == '-' && digits_value(dec_signed(x).drop_first()) == -x
            && dec_signed(x).drop_first() == dec((-x) as nat),
        x >= 0 ==> digits_value(dec_signed(x)) == x && dec_signed(x)[0] != '-',
{
    if x < 0 {
        lemma_dec_is_decimal((-x) as nat);
        assert(dec_signed(x).drop_first() =~= dec((-x) as nat));
    } else {
        lemma_dec_is_decimal(x as nat);
        assert('0' <= dec(x as nat)[0] <= '9');
    }
}

/// The value of a lower-case hexadecimal digit.
pub open spec fn hex_value(c: char) -> int {
    if '0' <= c <= '9' {
        c as int - 48
    } else {
        c as int - 87
    }
}

/// `hex_byte(b)` is two lower-case hexadecimal digits, most significant first,
/// that stand for `b`.
pub proof fn lemma_hex_byte(b: u8)
    ensures
        hex_byte(b).len() == 2,
        forall|j: int| 0 <= j < 2 ==> ('0' <= #[trigger] hex_byte(b)[j] <= '9' || 'a' <= hex_byte(b)[j] <= 'f'),
        16 * hex_value(hex_byte(b)[0]) + hex_value(hex_byte(b)[1]) == b,
{
}

/// The line for a small-difference chunk `64 + 16 r + 4 g + b'` lists the steps
/// `r - 2`, `g - 2` and `b' - 2` for red, green and blue.
pub proof fn lemma_diff_listing(dat: Seq<u8>, i: int, r: int, g: int, bl: int)
    requires
        0 <= i < dat.len(),
        0 <= r < 4,
        0 <= g < 4,
        0 <= bl < 4,
        dat[i] == 64 + 16 * r + 4 * g + bl,
    ensures
        op_text(dat, i) == paren_line(
            "QoiOps::DIFF "@ + dec_signed(r - 2) + " "@ + dec_signed(g - 2) + " "@ + dec_signed(bl - 2),
        ),
{
    let b = dat[i] as int;
    assert((b / 16) % 4 == r && (b / 4) % 4 == g && b % 4 == bl) by (nonlinear_arith)
        requires
            b == 64 + 16 * r + 4 * g + bl,
            0 <= r < 4,
            0 <= g < 4,
            0 <= bl < 4,
    ;
}

/// The lines for a luma chunk `128 + v`, `16 x + y` show the second byte in
/// hexadecimal and list the steps: `v - 32 + x - 8` for red, `v - 32` for green
/// and `v - 32 + y - 8` for blue.
pub proof fn lemma_luma_listing(dat: Seq<u8>, i: int, v: int, x: int, y: int)
    requires
        0 <= i,
        i + 1 < dat.len(),
        0 <= v < 64,
        0 <= x < 16,
        0 <= y < 16,
        dat[i] == 128 + v,
        dat[i + 1] == 16 * x + y,
    ensures
        op_text(dat, i) == hex_byte(dat[i + 1]) + " "@ + paren_line(
            "QoiOps::LUMA "@ + dec_signed(v - 32 + x - 8) + " "@ + dec_signed(v - 32) + " "@ + dec_signed(
                v - 32 + y - 8,
            ),
        ),
{
    let d = dat[i + 1] as int;
    assert(d / 16 == x && d % 16 == y) by (nonlinear_arith)
        requires
            d == 16 * x + y,
            0 <= x < 16,
            0 <= y < 16,
    ;
    assert((128 + v) % 64 == v);
}

/// The line for a table byte `k` (below 64) lists `k`; for a run byte `192 + n`
/// (below 254) it lists the stored run length `n`.
pub proof fn lemma_index_run_listing(dat: Seq<u8>, i: int)
    requires
        0 <= i < dat.len(),
        dat[i] < 64 || 192 <= dat[i] < 254,
    ensures
        dat[i] < 64 ==> op_text(dat, i) == paren_line("QoiOps::INDEX "@ + dec(dat[i] as nat)),
        192 <= dat[i] ==> op_text(dat, i) == paren_line("QoiOps::RUN "@ + dec((dat[i] - 192) as nat)),
{
}

/// The line for a full-colour chunk lists its colour bytes in hexadecimal and
/// then in decimal, red, green, blue (and alpha after 255).
pub proof fn lemma_colour_listing(dat: Seq<u8>, i: int)
    requires
        0 <= i,
        i + 4 < dat.len(),
        dat[i] == 254 || dat[i] == 255,
    ensures
        dat[i] == 254 ==> op_text(dat, i) == hex_sp(dat[i + 1]) + hex_sp(dat[i + 2]) + hex_sp(dat[i + 3])
            + paren_line(
            "QoiOps::RGB "@ + dec(dat[i + 1] as nat) + " "@ + dec(dat[i + 2] as nat) + " "@ + dec(dat[i + 3] as nat),
        ),
        dat[i] == 255 ==> op_text(dat, i) == hex_sp(dat[i + 1]) + hex_sp(dat[i + 2]) + hex_sp(dat[i + 3])
            + hex_sp(dat[i + 4]) + paren_line(
            "QoiOps::RGBA "@ + dec(dat[i + 1] as nat) + " "@ + dec(dat[i + 2] as nat) + " "@ + dec(dat[i + 3] as nat)
                + " "@ + dec(dat[i + 4] as nat),
        ),
{
    reveal_with_fuel(hex_run, 5);
    assert(hex_run(dat, i + 1, 3) =~= hex_sp(dat[i + 1]) + hex_sp(dat[i + 2]) + hex_sp(dat[i + 3]));
    assert(hex_run(dat, i + 1, 4) =~= hex_sp(dat[i + 1]) + hex_sp(dat[i + 2]) + hex_sp(dat[i + 3]) + hex_sp(dat[i + 4]));
}

fn push_dec(s: &mut String, n: u32)
    ensures
        final(s)@ == old(s)@ + dec(n as nat),
    decreases n,
{
    if n >= 10 {
        push_dec(s, n / 10);
    }
    let d = (n % 10) as u8;
    push_char(s, (48 + d) as char);
}

fn push_signed(s: &mut String, x: i16)
    requires
        x > i16::MIN,
    ensures
        final(s)@ == old(s)@ + dec_signed(x as int),
{
    if x < 0 {
        push_char(s, '-');
        push_dec(s, (-x) as u32);
        assert(s@ =~= old(s)@ + dec_signed(x as int));
    } else {
        push_dec(s, x as u32);
    }
}

fn push_hex(s: &mut String, b: u8)
    ensures
        final(s)@ == old(s)@ + hex_byte(b),
{
    assert(b >> 4 == b / 16 && b & 0xf == b % 16) by (bit_vector);
    push_char(s, hex_digit(b >> 4));
    push_char(s, hex_digit(b & 0xf));
    assert(s@ =~= old(s)@ + hex_byte(b));
}

fn push_hex_sp(s: &mut String, b: u8)
    ensures
        final(s)@ == old(s)@ + hex_sp(b),
{
    push_hex(s, b);
    push_char(s, ' ');
    assert(s@ =~= old(s)@ + hex_sp(b));
}

/// Converts `v` with `String::from_utf8`; trusted to succeed exactly where `v`
/// is valid UTF-8 and then to hold the characters that `v` encodes.
#[verifier::external_body]
fn utf8_string(v: Vec<u8>) -> (r: Option<String>)
    ensures
        r is Some <==> valid_utf8(v@),
        r matches Some(t) ==> t@ == decode_utf8(v@),
{
    String::from_utf8(v).ok()
}

fn push_paren_dec(s: &mut String, n: u32)
    ensures
        final(s)@ == old(s)@ + paren_line(dec(n as nat)),
{
    push_lit(s, "( ");
    push_dec(s, n);
    push_lit(s, " )\n");
    assert(s@ =~= old(s)@ + paren_line(dec(n as nat)));
}

fn push_hex_run(s: &mut String, dat: &Vec<u8>, i: usize, n: usize)
    requires
        i + n <= dat@.len(),
    ensures
        final(s)@ == old(s)@ + hex_run(dat@, i as int, n as nat),
{
    let l = dat.len();
    let mut j: usize = 0;
    while j < n
        invariant
            j <= n,
            i + n <= l == dat@.len(),
            s@ == old(s)@ + hex_run(dat@, i as int, j as nat),
        decreases n - j,
    {
        push_hex_sp(s, dat[i + j]);
        j += 1;
        assert(s@ =~= old(s)@ + hex_run(dat@, i as int, j as nat));
    }
}

fn push_number(s: &mut String, dat: &Vec<u8>, i: usize)
    requires
        i + 4 <= dat@.len(),
    ensures
        final(s)@ == old(s)@ + number_text(dat@, i as int),
{
    let l = dat.len();
    push_hex_run(s, dat, i, 4);
    let mut buf: [u8; 4] = [0; 4];
    mv_un_tosized_buf(&dat.as_slice()[i..(i + 4)], &mut buf);
    push_paren_dec(s, u8arr_to_u32(&buf));
    assert(s@ =~= old(s)@ + number_text(dat@, i as int));
}

#[verifier::rlimit(50)]
fn push_fields(s: &mut String, dat: &Vec<u8>, i: usize)
    requires
        i + 10 <= dat@.len(),
    ensures
        final(s)@ == old(s)@ + fields_text(dat@, i as int),
{
    let l = dat.len();
    push_number(s, dat, i);
    push_number(s, dat, i + 4);
    push_hex_run(s, dat, i + 8, 2);
    push_lit(s, "( ");
    push_dec(s, dat[i + 8] as u32);
    push_lit(s, ", ");
    push_dec(s, dat[i + 9] as u32);
    push_lit(s, " )\n");
    assert(s@ =~= old(s)@ + fields_text(dat@, i as int));
}

#[verifier::rlimit(50)]
fn push_rgb(s: &mut String, dat: &Vec<u8>, i: usize)
    requires
        i + 4 < dat@.len(),
    ensures
        final(s)@ == old(s)@ + rgb_text(dat@, i as int),
{
    let l = dat.len();
    push_hex_run(s, dat, i + 1, 3);
    push_lit(s, "( ");
    push_lit(s, "QoiOps::RGB ");
    push_dec(s, dat[i + 1] as u32);
    push_lit(s, " ");
    push_dec(s, dat[i + 2] as u32);
    push_lit(s, " ");
    push_dec(s, dat[i + 3] as u32);
    push_lit(s, " )\n");
    assert(s@ =~= old(s)@ + rgb_text(dat@, i as int));
}

#[verifier::rlimit(50)]
fn push_rgba(s: &mut String, dat: &Vec<u8>, i: usize)
    requires
        i + 5 < dat@.len(),
    ensures
        final(s)@ == old(s)@ + rgba_text(dat@, i as int),
{
    let l = dat.len();
    push_hex_run(s, dat, i + 1, 4);
    let ghost s1 = s@;
    push_lit(s, "( ");
    push_lit(s, "QoiOps::RGBA ");
    push_dec(s, dat[i + 1] as u32);
    push_lit(s, " ");
    push_dec(s, dat[i + 2] as u32);
    let ghost x1 = "QoiOps::RGBA "@ + dec(dat@[i + 1] as nat) + " "@ + dec(dat@[i + 2] as nat);
    assert(s@ =~= s1 + "( "@ + x1);
    let ghost s2 = s@;
    push_lit(s, " ");
    push_dec(s, dat[i + 3] as u32);
    push_lit(s, " ");
    push_dec(s, dat[i + 4] as u32);
    let ghost x2 = " "@ + dec(dat@[i + 3] as nat) + " "@ + dec(dat@[i + 4] as nat);
    assert(s@ =~= s2 + x2);
    push_lit(s, " )\n");
    assert(x1 + x2 =~= "QoiOps::RGBA "@ + dec(dat@[i + 1] as nat) + " "@ + dec(dat@[i + 2] as nat) + " "@ + dec(dat@[i + 3] as nat)
            + " "@ + dec(dat@[i + 4] as nat));
    assert(s@ =~= s1 + paren_line(x1 + x2));
}

fn push_index_or_run(s: &mut String, b: u8, run: bool)
    ensures
        final(s)@ == old(s)@ + if run { run_text(b) } else { index_text(b) },
{
    let v = b & !(0b11 << 6);
    assert(v == b % 64) by (bit_vector)
        requires
            v == b & !(0b11u8 << 6u8),
    ;
    push_lit(s, "( ");
    if run {
        push_lit(s, "QoiOps::RUN ");
    } else {
        push_lit(s, "QoiOps::INDEX ");
    }
    push_dec(s, v as u32);
    push_lit(s, " )\n");
    assert(s@ =~= old(s)@ + if run { run_text(b) } else { index_text(b) });
}

fn push_diff(s: &mut String, b: u8)
    ensures
        final(s)@ == old(s)@ + diff_text(b),
{
    let dr = (b >> 4) & 3;
    let dg = (b >> 2) & 3;
    let db = b & 3;
    assert(dr == (b / 16) % 4 && dg == (b / 4) % 4 && db == b % 4) by (bit_vector)
        requires
            dr == (b >> 4u8) & 3u8,
            dg == (b >> 2u8) & 3u8,
            db == b & 3u8,
    ;
    push_lit(s, "( ");
    push_lit(s, "QoiOps::DIFF ");
    push_signed(s, dr as i16 - 2);
    push_lit(s, " ");
    push_signed(s, dg as i16 - 2);
    push_lit(s, " ");
    push_signed(s, db as i16 - 2);
    push_lit(s, " )\n");
    assert(s@ =~= old(s)@ + diff_text(b));
}

fn push_luma(s: &mut String, b: u8, d: u8)
    ensures
        final(s)@ == old(s)@ + luma_text(b, d),
{
    push_hex(s, d);
    let m = b & 0b00111111;
    let hi = d >> 4;
    let lo = d & 0xf;
    assert(m == b % 64 && hi == d / 16 && lo == d % 16) by (bit_vector)
        requires
            m == b & 0b00111111u8,
            hi == d >> 4u8,
            lo == d & 0xfu8,
    ;
    let gd: i16 = (m as i16) - 32;
    push_lit(s, " ");
    push_lit(s, "( ");
    push_lit(s, "QoiOps::LUMA ");
    push_signed(s, hi as i16 - 8 + gd);
    push_lit(s, " ");
    push_signed(s, gd);
    push_lit(s, " ");
    push_signed(s, lo as i16 - 8 + gd);
    push_lit(s, " )\n");
    assert(s@ =~= old(s)@ + luma_text(b, d));
}

fn push_op(s: &mut String, dat: &Vec<u8>, i: usize)
    requires
        i + 8 < dat@.len(),
    ensures
        final(s)@ == old(s)@ + op_text(dat@, i as int),
{
    let l = dat.len();
    let b = dat[i];
    match QoiOps::get_op(b) {
        QoiOps::RGB => push_rgb(s, dat, i),
        QoiOps::RGBA => push_rgba(s, dat, i),
        QoiOps::INDEX => push_index_or_run(s, b, false),
        QoiOps::DIFF => push_diff(s, b),
        QoiOps::LUMA => push_luma(s, b, dat[i + 1]),
        QoiOps::RUN => push_index_or_run(s, b, true),
    }
}

#[verifier::rlimit(50)]
fn push_group(s: &mut String, dat: &Vec<u8>, i: usize)
    requires
        10 <= i <= dat@.len(),
        (i - 10) % 4 == 0,
    ensures
        final(s)@ == old(s)@ + group_text(dat@, i as int),
{
    push_lit(s, "( ");
    push_dec(s, dat[i - 4] as u32);
    push_lit(s, " ");
    push_dec(s, dat[i - 3] as u32);
    let ghost x1 = "( "@ + dec(dat@[i - 4] as nat) + " "@ + dec(dat@[i - 3] as nat);
    assert(s@ =~= old(s)@ + x1);
    let ghost s1 = s@;
    push_lit(s, " ");
    push_dec(s, dat[i - 2] as u32);
    push_lit(s, " ");
    push_dec(s, dat[i - 1] as u32);
    let ghost x2 = " "@ + dec(dat@[i - 2] as nat) + " "@ + dec(dat@[i - 1] as nat);
    assert(s@ =~= s1 + x2);
    push_lit(s, " ");
    push_lit(s, ")\n");
    assert(s@ =~= old(s)@ + (x1 + x2 + " "@ + ")\n"@));
    assert(x1 + x2 + " "@ + ")\n"@ =~= group_text(dat@, i as int));
}

/// A readable listing of `dat`. With `oflag`, `dat` is an encoded stream: the
/// magic bytes, width, height, channels and colour space, then one line per
/// chunk up to the last eight bytes, then the end marker. Without it, `dat` is
/// a decoded image: width, height, channels and colour space, then the pixel
/// bytes in hexadecimal with every group of four repeated in decimal. Each byte
/// is shown as two lower-case hexadecimal digits and a space; values in
/// parentheses.
pub fn dbgout_convert(dat: &Vec<u8>, oflag: bool) -> (res: String)
    requires
        oflag ==> dat@.len() >= 14 && valid_utf8(dat@.subrange(0, 4)),
        !oflag ==> dat@.len() >= 11,
    ensures
        res@ == dbg_text(dat@, oflag),
{
    let l: usize = dat.len();
    let mut sres: String = String::new();
    let mut i: usize = 0;
    if oflag {
        push_hex_run(&mut sres, dat, 0, 4);
        let m = utf8_string(vstd::slice::slice_to_vec(&dat.as_slice()[0..4]));
        match m {
            Some(t) => {
                push_lit(&mut sres, "( ");
                push_lit(&mut sres, t.as_str());
                push_lit(&mut sres, " )\n");
            },
            None => {},
        }
        assert(sres@ =~= magic_text(dat@));
        i = 4;
    }
    push_fields(&mut sres, dat, i);
    i += 10;
    if oflag {
        let ghost head = sres@;
        let pl = l - 8;
        while i < pl
            invariant
                l == dat@.len(),
                pl == l - 8,
                14 <= i,
                head + ops_text(dat@, 14) == sres@ + ops_text(dat@, i as int),
            decreases l - i,
        {
            let ghost before = sres@;
            push_hex_sp(&mut sres, dat[i]);
            push_op(&mut sres, dat, i);
            assert(sres@ =~= before + (hex_sp(dat@[i as int]) + op_text(dat@, i as int)));
            let b = dat[i];
            i += match QoiOps::get_op(b) {
                QoiOps::RGB => 4,
                QoiOps::RGBA => 5,
                QoiOps::LUMA => 2,
                _ => 1,
            };
        }
        push_lit(&mut sres, "00 00 00 00 00 00 00 00 ( QOI END MARKER )\n");
        assert(ops_text(dat@, i as int) =~= seq![]);
        return sres;
    }
    push_hex_sp(&mut sres, dat[i]);
    i += 1;
    let ghost head = sres@;
    loop
        invariant_except_break
            l == dat@.len(),
            11 <= i <= l,
            head + raw_text(dat@, 11) == sres@ + raw_text(dat@, i as int),
        ensures
            head + raw_text(dat@, 11) == sres@,
        decreases l - i,
    {
        let ghost before = sres@;
        if (i - 10) % 4 == 0 {
            push_group(&mut sres, dat, i);
        }
        assert(sres@ == before + group_text(dat@, i as int));
        if i >= l {
            assert(sres@ =~= before + raw_text(dat@, i as int));
            break;
        }
        push_hex_sp(&mut sres, dat[i]);
        assert(sres@ + raw_text(dat@, i + 1) =~= before + raw_text(dat@, i as int));
        i += 1;
    }
    sres
}

} // verus!

//! Frames: their pixel formats, their rows as red, green and blue, and the
//! frame that a matte is written as.

use crate::accuracy;
use crate::accuracy::near;
use crate::arith;
use crate::num;
use crate::num::Num;
use crate::rounding;
use crate::single::Single;
use crate::text;
use vstd::prelude::*;

verus! {

/// The pixel format an instance was opened for, fixed for its life.
#[derive(Clone, Copy, Debug, PartialEq, Eq, Structural)]
pub enum PixFmt {
    Yuv420p,
    Rgba,
}

impl PixFmt {
    /// The format of a name, where it has one.
    pub open spec fn named(name: Seq<char>) -> Option<PixFmt> {
        if name == "yuv420p"@ {
            Some(PixFmt::Yuv420p)
        } else if name == "rgba"@ {
            Some(PixFmt::Rgba)
        } else {
            None
        }
    }

    /// What is said of a format that is not one of these.
    pub open spec fn refusal(name: Seq<char>) -> Seq<char> {
        "matte does not accept pixel format "@ + name
    }

    /// The format the host named, or an error naming what it was.
    pub fn parse(named: &str) -> (r: Result<PixFmt, String>)
        ensures
            match PixFmt::named(named@) {
                Some(fmt) => r == Ok::<PixFmt, String>(fmt),
                None => r matches Err(message) && message@ == PixFmt::refusal(named@),
            },
            r == Ok::<PixFmt, String>(PixFmt::Yuv420p) <==> named@ == "yuv420p"@,
            r == Ok::<PixFmt, String>(PixFmt::Rgba) <==> named@ == "rgba"@,
            r matches Err(message) ==> message@ == "matte does not accept pixel format "@ + named@,
    {
        proof {
            reveal_strlit("yuv420p");
            reveal_strlit("rgba");
            assert("yuv420p"@.len() != "rgba"@.len());
        }
        if text::same_text(named, "yuv420p") {
            Ok(PixFmt::Yuv420p)
        } else if text::same_text(named, "rgba") {
            Ok(PixFmt::Rgba)
        } else {
            let mut message = "matte does not accept pixel format ".to_string();
            message.append(named);
            Err(message)
        }
    }
}

/// The chroma planes have half the luma's width and height, rounded up.
pub open spec fn halved(n: nat) -> nat {
    (n / 2 + n % 2) as nat
}

/// Where in a chroma plane the sample for the pixel at `x`, `y` lies.
pub open spec fn chroma_index(width: nat, height: nat, y: nat, x: nat) -> nat {
    let cw = halved(width);
    let ch = halved(height);
    let row = if y / 2 < ch - 1 {
        y / 2
    } else {
        (ch - 1) as nat
    };
    let column = if x / 2 < cw - 1 {
        x / 2
    } else {
        (cw - 1) as nat
    };
    row * cw + column
}

/// The channel `c` - red, green, blue - of a pixel given as luma and chroma:
/// the usual BT.601 inverse, in full range.
#[verifier::opaque]
pub open spec fn bt601(luma: u8, cb: u8, cr: u8, c: nat) -> Num {
    let l = num::whole(luma as nat);
    let u = num::whole(cb as nat).minus(num::whole(128));
    let v = num::whole(cr as nat).minus(num::whole(128));
    if c == 0 {
        l.plus(num::fraction(1402, 1000).times(v))
    } else if c == 1 {
        l.minus(num::fraction(344_136, 1_000_000).times(u)).minus(
            num::fraction(714_136, 1_000_000).times(v),
        )
    } else {
        l.plus(num::fraction(1772, 1000).times(u))
    }
}

/// The channel `c` - red, green, blue - of the pixel at `x`, `y`.
pub open spec fn channel(
    frame: Seq<u8>,
    pix_fmt: PixFmt,
    width: nat,
    height: nat,
    y: nat,
    x: nat,
    c: nat,
) -> Num {
    match pix_fmt {
        PixFmt::Rgba => num::whole(frame[((y * width + x) * 4 + c) as int] as nat),
        PixFmt::Yuv420p => {
            let pixels = width * height;
            let chroma = halved(width) * halved(height);
            let at = chroma_index(width, height, y, x);
            bt601(
                frame[(y * width + x) as int],
                frame[(pixels + at) as int],
                frame[(pixels + chroma + at) as int],
                c,
            )
        },
    }
}

/// A frame of `len` bytes holds all that its row `y` is made of.
pub open spec fn row_readable(
    len: nat,
    pix_fmt: PixFmt,
    width: nat,
    height: nat,
    y: nat,
) -> bool {
    match pix_fmt {
        PixFmt::Rgba => (y + 1) * width * 4 <= len,
        PixFmt::Yuv420p => {
            let cw = halved(width);
            let ch = halved(height);
            let row = if y / 2 < ch - 1 {
                y / 2
            } else {
                (ch - 1) as nat
            };
            &&& height > 0
            &&& (y + 1) * width <= len
            &&& width * height + cw * ch + row * cw + cw <= len
        },
    }
}

/// The bytes of a whole frame.
pub open spec fn frame_size(pix_fmt: PixFmt, width: nat, height: nat) -> nat {
    match pix_fmt {
        PixFmt::Rgba => width * height * 4,
        PixFmt::Yuv420p => width * height + 2 * (halved(width) * halved(height)),
    }
}

/// A whole frame holds all of its rows.
pub proof fn lemma_whole_frame_readable(
    len: nat,
    pix_fmt: PixFmt,
    width: nat,
    height: nat,
    y: nat,
)
    requires
        y < height,
        frame_size(pix_fmt, width, height) <= len,
    ensures
        row_readable(len, pix_fmt, width, height, y),
{
    assert((y + 1) * width <= width * height) by (nonlinear_arith)
        requires
            y < height,
    ;
    match pix_fmt {
        PixFmt::Rgba => {
            assert((y + 1) * width * 4 <= width * height * 4);
        },
        PixFmt::Yuv420p => {
            let (cw, ch) = (halved(width), halved(height));
            let row = if y / 2 < ch - 1 {
                y / 2
            } else {
                (ch - 1) as nat
            };
            assert(row * cw + cw <= cw * ch) by (nonlinear_arith)
                requires
                    row + 1 <= ch,
            ;
        },
    }
}

/// Whether a frame of `len` bytes holds all that its row `y` is made of.
pub fn can_read_row(len: usize, pix_fmt: PixFmt, width: usize, height: usize, y: usize) -> (r: bool)
    ensures
        r == row_readable(len as nat, pix_fmt, width as nat, height as nat, y as nat),
{
    proof {
        lemma_product_fits(y as nat + 1, width as nat);
        lemma_product_fits(width as nat, height as nat);
        lemma_product_fits(halved(width as nat), halved(height as nat));
    }
    let rows: u128 = y as u128 + 1;
    match pix_fmt {
        PixFmt::Rgba => rows * (width as u128) <= len as u128 / 4,
        PixFmt::Yuv420p => {
            if height == 0 {
                return false;
            }
            let cw: usize = width / 2 + width % 2;
            let ch: usize = height / 2 + height % 2;
            let row: usize = if y / 2 < ch - 1 {
                y / 2
            } else {
                ch - 1
            };
            proof {
                lemma_product_fits(row as nat, cw as nat);
                assert(row * cw <= cw * ch) by (nonlinear_arith)
                    requires
                        row <= ch,
                ;
                assert(cw * ch <= width * height) by (nonlinear_arith)
                    requires
                        cw <= width,
                        ch <= height,
                ;
            }
            let luma: u128 = width as u128 * height as u128;
            rows * (width as u128) <= len as u128 && luma <= len as u128 && luma + cw as u128
                * ch as u128 + row as u128 * cw as u128 + cw as u128 <= len as u128
        },
    }
}

proof fn lemma_product_fits(a: nat, b: nat)
    requires
        a <= 0x1_0000_0000_0000_0000,
        b < 0x1_0000_0000_0000_0000,
    ensures
        0 <= a * b <= u128::MAX,
{
    assert(0 <= a * b <= 0x1_0000_0000_0000_0000 * 0xffff_ffff_ffff_ffff) by (nonlinear_arith)
        requires
            a <= 0x1_0000_0000_0000_0000,
            b <= 0xffff_ffff_ffff_ffff,
    ;
}

/// The coefficients of the BT.601 inverse.
struct Bt601 {
    red_v: Single,
    green_u: Single,
    green_v: Single,
    blue_u: Single,
    middle: Single,
}

impl Bt601 {
    spec fn wf(&self) -> bool {
        &&& self.red_v@ == num::fraction(1402, 1000)
        &&& self.green_u@ == num::fraction(344_136, 1_000_000)
        &&& self.green_v@ == num::fraction(714_136, 1_000_000)
        &&& self.blue_u@ == num::fraction(1772, 1000)
        &&& self.middle@ == num::whole(128)
    }

    fn new() -> (r: Bt601)
        ensures
            r.wf(),
    {
        Bt601 {
            red_v: Single::ratio(1402, 1000),
            green_u: Single::ratio(344_136, 1_000_000),
            green_v: Single::ratio(714_136, 1_000_000),
            blue_u: Single::ratio(1772, 1000),
            middle: Single::from_u8(128),
        }
    }

    /// The usual BT.601 inverse, in full range: the frames a module is
    /// handed are what the host decoded, not studio-swing video.
    fn rgb(&self, luma: u8, cb: u8, cr: u8) -> (r: (Single, Single, Single))
        requires
            self.wf(),
        ensures
            r.0@ == bt601(luma, cb, cr, 0),
            r.1@ == bt601(luma, cb, cr, 1),
            r.2@ == bt601(luma, cb, cr, 2),
    {
        reveal(bt601);
        let l = Single::from_u8(luma);
        let u = Single::from_u8(cb).minus(&self.middle);
        let v = Single::from_u8(cr).minus(&self.middle);
        (
            l.plus(&self.red_v.times(&v)),
            l.minus(&self.green_u.times(&u)).minus(&self.green_v.times(&v)),
            l.plus(&self.blue_u.times(&u)),
        )
    }
}

/// One frame row as red, green and blue, a channel at a time so each is
/// contiguous.
pub fn row_to_rgb(
    frame: &[u8],
    pix_fmt: PixFmt,
    width: usize,
    height: usize,
    y: usize,
    out: &mut [Single],
)
    requires
        y < usize::MAX,
        row_readable(frame@.len(), pix_fmt, width as nat, height as nat, y as nat),
        width * 3 <= old(out)@.len(),
    ensures
        final(out)@.len() == old(out)@.len(),
        forall|c: nat, x: nat|
            c < 3 && x < width ==> final(out)@[c * width + x]@ == #[trigger] channel(
                frame@,
                pix_fmt,
                width as nat,
                height as nat,
                y as nat,
                x,
                c,
            ),
        forall|i: int|
            width * 3 <= i < old(out)@.len() ==> #[trigger] final(out)@[i] == old(out)@[i],
{
    match pix_fmt {
        PixFmt::Rgba => rgba_row(frame, width, Ghost(height as nat), y, out),
        PixFmt::Yuv420p => yuv420p_row(frame, width, height, y, out),
    }
}

fn rgba_row(frame: &[u8], width: usize, Ghost(height): Ghost<nat>, y: usize, out: &mut [Single])
    requires
        y < usize::MAX,
        row_readable(frame@.len(), PixFmt::Rgba, width as nat, height, y as nat),
        width * 3 <= old(out)@.len(),
    ensures
        final(out)@.len() == old(out)@.len(),
        forall|c: nat, x: nat|
            c < 3 && x < width ==> final(out)@[c * width + x]@ == #[trigger] channel(
                frame@,
                PixFmt::Rgba,
                width as nat,
                height,
                y as nat,
                x,
                c,
            ),
        forall|i: int|
            width * 3 <= i < old(out)@.len() ==> #[trigger] final(out)@[i] == old(out)@[i],
{
    let ghost w = width as nat;
    let size: usize = frame.len();
    let room: usize = out.len();
    proof {
        assert(y * width * 4 + width * 4 == (y + 1) * width * 4) by (nonlinear_arith);
        assert(y * width <= y * width * 4 && 0 <= y * width) by (nonlinear_arith);
    }
    let start: usize = y * width * 4;
    for x in 0..width
        invariant
            size == frame@.len(),
            start == y * width * 4,
            start + width * 4 <= size,
            room == out@.len(),
            width * 3 <= room,
            out@.len() == old(out)@.len(),
            w == width,
            forall|c: nat, k: nat|
                c < 3 && k < x ==> out@[(c * w + k) as int]@ == #[trigger] channel(
                    frame@,
                    PixFmt::Rgba,
                    w,
                    height,
                    y as nat,
                    k,
                    c,
                ),
            forall|i: int| w * 3 <= i < out@.len() ==> #[trigger] out@[i] == old(out)@[i],
    {
        let at: usize = start + x * 4;
        proof {
            assert((y * w + x) * 4 == at) by (nonlinear_arith)
                requires
                    start == y * w * 4,
                    at == start + x * 4,
            ;
        }
        out[x] = Single::from_u8(frame[at]);
        out[width + x] = Single::from_u8(frame[at + 1]);
        out[2 * width + x] = Single::from_u8(frame[at + 2]);
        assert forall|c: nat, k: nat| c < 3 && k < x + 1 implies out@[(c * w + k) as int]@
            == #[trigger] channel(frame@, PixFmt::Rgba, w, height, y as nat, k, c) by {
            assert(c == 0 || c == 1 || c == 2);
            assert(0 * w == 0 && 1 * w == w && 2 * w == w + w);
        }
    }
}

fn yuv420p_row(frame: &[u8], width: usize, height: usize, y: usize, out: &mut [Single])
    requires
        y < usize::MAX,
        row_readable(frame@.len(), PixFmt::Yuv420p, width as nat, height as nat, y as nat),
        width * 3 <= old(out)@.len(),
    ensures
        final(out)@.len() == old(out)@.len(),
        forall|c: nat, x: nat|
            c < 3 && x < width ==> final(out)@[c * width + x]@ == #[trigger] channel(
                frame@,
                PixFmt::Yuv420p,
                width as nat,
                height as nat,
                y as nat,
                x,
                c,
            ),
        forall|i: int|
            width * 3 <= i < old(out)@.len() ==> #[trigger] final(out)@[i] == old(out)@[i],
{
    let ghost (w, h) = (width as nat, height as nat);
    let size: usize = frame.len();
    let room: usize = out.len();
    let cw: usize = width / 2 + width % 2;
    let ch: usize = height / 2 + height % 2;
    let row: usize = if y / 2 < ch - 1 {
        y / 2
    } else {
        ch - 1
    };
    proof {
        assert(0 <= w * h && 0 <= cw * ch && 0 <= row * cw) by (nonlinear_arith);
        assert(y * width + width == (y + 1) * width) by (nonlinear_arith);
        assert(0 <= y * width) by (nonlinear_arith);
    }
    let pixels: usize = width * height;
    let chroma: usize = cw * ch;
    let start: usize = y * width;
    let crow: usize = row * cw;
    let matrix = Bt601::new();
    for x in 0..width
        invariant
            w == width,
            h == height,
            cw == halved(w),
            ch == halved(h),
            height > 0,
            row == if y / 2 < ch - 1 {
                y / 2
            } else {
                (ch - 1) as usize
            },
            pixels == w * h,
            chroma == cw * ch,
            start == y * width,
            crow == row * cw,
            size == frame@.len(),
            start + width <= size,
            pixels + chroma + crow + cw <= size,
            matrix.wf(),
            room == out@.len(),
            width * 3 <= room,
            out@.len() == old(out)@.len(),
            forall|c: nat, k: nat|
                c < 3 && k < x ==> out@[(c * w + k) as int]@ == #[trigger] channel(
                    frame@,
                    PixFmt::Yuv420p,
                    w,
                    h,
                    y as nat,
                    k,
                    c,
                ),
            forall|i: int| w * 3 <= i < out@.len() ==> #[trigger] out@[i] == old(out)@[i],
    {
        let ci: usize = crow + if x / 2 < cw - 1 {
            x / 2
        } else {
            cw - 1
        };
        assert(ci == chroma_index(w, h, y as nat, x as nat));
        let (red, green, blue) = matrix.rgb(
            frame[start + x],
            frame[pixels + ci],
            frame[pixels + chroma + ci],
        );
        out[x] = red;
        out[width + x] = green;
        out[2 * width + x] = blue;
        assert forall|c: nat, k: nat| c < 3 && k < x + 1 implies out@[(c * w + k) as int]@
            == #[trigger] channel(frame@, PixFmt::Yuv420p, w, h, y as nat, k, c) by {
            assert(c == 0 || c == 1 || c == 2);
            assert(0 * w == 0 && 1 * w == w && 2 * w == w + w);
        }
    }
}

/// The byte at `i` of a matte written as a frame: the luma plane with
/// neutral chroma, or the same value in red, green and blue, opaque.
pub open spec fn matte_byte(map: Seq<u8>, pix_fmt: PixFmt, len: nat, i: int) -> u8 {
    match pix_fmt {
        PixFmt::Yuv420p => if i < map.len() {
            map[i]
        } else {
            128
        },
        PixFmt::Rgba => if i / 4 < map.len() && i / 4 < len / 4 {
            if i % 4 == 3 {
                255
            } else {
                map[i / 4]
            }
        } else {
            0
        },
    }
}

/// A matte written as a frame of the instance's own format: the luma plane
/// with neutral chroma, or the same value in red, green and blue.
pub fn to_frame(map: &[u8], pix_fmt: PixFmt, width: usize, height: usize, len: usize) -> (out: Vec<
    u8,
>)
    requires
        pix_fmt is Yuv420p ==> map@.len() == width * height && map@.len() <= len,
    ensures
        out@.len() == len,
        forall|i: int| 0 <= i < len ==> out@[i] == matte_byte(map@, pix_fmt, len as nat, i),
        pix_fmt is Yuv420p ==> forall|i: int| 0 <= i < width * height ==> out@[i] == map@[i],
        pix_fmt is Yuv420p ==> forall|i: int| width * height <= i < len ==> out@[i] == 128,
        pix_fmt is Rgba ==> forall|i: int|
            0 <= i < map@.len() && 4 * i + 4 <= len ==> {
                &&& out@[4 * i] == #[trigger] map@[i]
                &&& out@[4 * i + 1] == map@[i]
                &&& out@[4 * i + 2] == map@[i]
                &&& out@[4 * i + 3] == 255
            },
        pix_fmt is Rgba ==> forall|i: int|
            0 <= i < len && (4 * map@.len() <= i || len - len % 4 <= i) ==> out@[i] == 0,
{
    let mut out: Vec<u8> = Vec::new();
    match pix_fmt {
        PixFmt::Yuv420p => {
            for i in 0..map.len()
                invariant
                    out@.len() == i,
                    forall|j: int| 0 <= j < i ==> out@[j] == map@[j],
            {
                out.push(map[i]);
            }
            // 128 in both chroma planes is no colour at all.
            for i in map.len()..len
                invariant
                    map@.len() <= len,
                    out@.len() == i,
                    forall|j: int|
                        0 <= j < i ==> out@[j] == matte_byte(map@, pix_fmt, len as nat, j),
                    pix_fmt is Yuv420p,
            {
                out.push(128);
            }
        },
        PixFmt::Rgba => {
            for i in 0..len
                invariant
                    out@.len() == i,
                    forall|j: int|
                        0 <= j < i ==> out@[j] == matte_byte(map@, pix_fmt, len as nat, j),
                    pix_fmt is Rgba,
            {
                let pixel: usize = i / 4;
                if pixel < map.len() && pixel < len / 4 {
                    if i % 4 == 3 {
                        out.push(255);
                    } else {
                        out.push(map[pixel]);
                    }
                } else {
                    out.push(0);
                }
            }
        },
    }
    out
}

/// Neutral chroma is no colour at all: red, green and blue are the luma.
pub proof fn lemma_neutral_chroma_is_gray(
    frame: Seq<u8>,
    width: nat,
    height: nat,
    y: nat,
    x: nat,
    c: nat,
)
    requires
        x < width,
        row_readable(frame.len(), PixFmt::Yuv420p, width, height, y),
        forall|i: int| width * height <= i < frame.len() ==> frame[i] == 128,
    ensures
        channel(frame, PixFmt::Yuv420p, width, height, y, x, c) == num::whole(
            frame[(y * width + x) as int] as nat,
        ),
{
    lemma_chroma_in_plane(width, height, y, x);
    let at = chroma_index(width, height, y, x);
    let chroma = halved(width) * halved(height);
    assert(frame[(width * height + at) as int] == 128);
    assert(frame[(width * height + chroma + at) as int] == 128);
    lemma_neutral_pixel(frame[(y * width + x) as int], c);
}

/// Where a chroma sample lies in its row.
proof fn lemma_chroma_in_plane(width: nat, height: nat, y: nat, x: nat)
    requires
        x < width,
        height > 0,
    ensures
        ({
            let (cw, ch) = (halved(width), halved(height));
            let row = if y / 2 < ch - 1 {
                y / 2
            } else {
                (ch - 1) as nat
            };
            &&& 0 <= cw * ch
            &&& row * cw <= chroma_index(width, height, y, x) < row * cw + cw
        }),
{
}

proof fn lemma_neutral_pixel(luma: u8, c: nat)
    ensures
        bt601(luma, 128, 128, c) == num::whole(luma as nat),
{
    reveal(bt601);
    let l = num::whole(luma as nat);
    let nothing = num::whole(0);
    rounding::lemma_whole_exact(luma as nat);
    rounding::lemma_whole_exact(128);
    rounding::lemma_whole_exact(0);
    assert(0 * num::one() == 0);
    assert(num::whole(128).minus(num::whole(128)) == nothing);
    lemma_times_nothing(1402, 1000);
    lemma_times_nothing(344_136, 1_000_000);
    lemma_times_nothing(714_136, 1_000_000);
    lemma_times_nothing(1772, 1000);
    rounding::lemma_exact(l->Finite_units);
    assert(l.plus(nothing) == l);
    assert(l.minus(nothing) == l);
}

proof fn lemma_times_nothing(n: nat, d: nat)
    requires
        d > 0,
        n <= 2 * d,
    ensures
        num::fraction(n, d).times(num::whole(0)) == num::whole(0),
{
    arith::lemma_within_fraction(n, d, 2);
    rounding::lemma_whole_exact(0);
    assert(0 * num::one() == 0);
    let u = num::fraction(n, d)->Finite_units;
    assert(u * 0 == 0);
    vstd::arithmetic::power2::lemma_pow2_pos(149);
    rounding::lemma_nearest_at_most(0, num::one(), 0);
}

/// A colour channel is a finite number of moderate size, and never the
/// negative zero.
pub proof fn lemma_channel_is_moderate(
    frame: Seq<u8>,
    pix_fmt: PixFmt,
    width: nat,
    height: nat,
    y: nat,
    x: nat,
    c: nat,
)
    ensures
        ({
            let value = channel(frame, pix_fmt, width, height, y, x, c);
            &&& arith::within(value, 1021)
            &&& value.is_representable()
            &&& value.signed() == 0 ==> !value.sign()
        }),
{
    match pix_fmt {
        PixFmt::Rgba => {
            lemma_byte(frame[((y * width + x) * 4 + c) as int]);
            lemma_wider(channel(frame, pix_fmt, width, height, y, x, c), 255, 1021);
        },
        PixFmt::Yuv420p => {
            let at = chroma_index(width, height, y, x);
            let pixels = width * height;
            let chroma = halved(width) * halved(height);
            lemma_bt601_is_moderate(
                frame[(y * width + x) as int],
                frame[(pixels + at) as int],
                frame[(pixels + chroma + at) as int],
                c,
            );
        },
    }
}

proof fn lemma_wider(x: Num, a: nat, b: nat)
    requires
        arith::within(x, a),
        a <= b,
    ensures
        arith::within(x, b),
{
    assert(a * num::one() <= b * num::one()) by (nonlinear_arith)
        requires
            a <= b,
    ;
}

proof fn lemma_byte(n: u8)
    ensures
        arith::within(num::whole(n as nat), 255),
        num::whole(n as nat).is_representable(),
        !num::whole(n as nat).sign(),
{
    rounding::lemma_whole_exact(n as nat);
    lemma_wider(num::whole(n as nat), n as nat, 255);
}

proof fn lemma_bt601_is_moderate(luma: u8, cb: u8, cr: u8, c: nat)
    ensures
        arith::within(bt601(luma, cb, cr, c), 1021),
        bt601(luma, cb, cr, c).is_representable(),
        bt601(luma, cb, cr, c).signed() == 0 ==> !bt601(luma, cb, cr, c).sign(),
{
    reveal(bt601);
    let l = num::whole(luma as nat);
    let u = num::whole(cb as nat).minus(num::whole(128));
    let v = num::whole(cr as nat).minus(num::whole(128));
    lemma_byte(luma);
    lemma_byte(cb);
    lemma_byte(cr);
    rounding::lemma_whole_exact(128);
    arith::lemma_within_plus(num::whole(cb as nat), num::whole(128), 255, 128);
    arith::lemma_within_plus(num::whole(cr as nat), num::whole(128), 255, 128);
    arith::lemma_within_fraction(1402, 1000, 2);
    arith::lemma_within_fraction(344_136, 1_000_000, 1);
    arith::lemma_within_fraction(714_136, 1_000_000, 1);
    arith::lemma_within_fraction(1772, 1000, 2);
    let red = num::fraction(1402, 1000).times(v);
    let green_u = num::fraction(344_136, 1_000_000).times(u);
    let green_v = num::fraction(714_136, 1_000_000).times(v);
    let blue = num::fraction(1772, 1000).times(u);
    arith::lemma_within_times(num::fraction(1402, 1000), v, 2, 383);
    arith::lemma_within_times(num::fraction(344_136, 1_000_000), u, 1, 383);
    arith::lemma_within_times(num::fraction(714_136, 1_000_000), v, 1, 383);
    arith::lemma_within_times(num::fraction(1772, 1000), u, 2, 383);
    arith::lemma_within_plus(l, red, 255, 766);
    arith::lemma_within_plus(l, blue, 255, 766);
    arith::lemma_within_plus(l, green_u, 255, 383);
    arith::lemma_within_plus(l.minus(green_u), green_v, 638, 383);
    arith::lemma_sum_is_representable(l, red);
    arith::lemma_sum_is_representable(l, blue);
    arith::lemma_sum_is_representable(l, green_u.negated());
    arith::lemma_sum_is_representable(l.minus(green_u), green_v.negated());
}

/// A yuv420p matte is the map followed by neutral chroma: every byte past the
/// map is 128.
pub proof fn lemma_yuv420p_matte_has_neutral_chroma(map: Seq<u8>, len: nat, i: int)
    requires
        0 <= i < len,
    ensures
        i < map.len() ==> matte_byte(map, PixFmt::Yuv420p, len, i) == map[i],
        i >= map.len() ==> matte_byte(map, PixFmt::Yuv420p, len, i) == 128,
{
}

/// What is no pixel of an rgba matte is left empty: the bytes past the map,
/// and those past the last whole pixel.
pub proof fn lemma_rgba_matte_is_empty_past_its_pixels(map: Seq<u8>, len: nat, i: int)
    requires
        0 <= i < len,
        4 * map.len() <= i || len - len % 4 <= i,
    ensures
        matte_byte(map, PixFmt::Rgba, len, i) == 0,
{
}

/// A matte of a whole rgba frame has the same value in red, green and blue of
/// each pixel, opaque.
pub proof fn lemma_rgba_matte_is_gray_and_opaque(map: Seq<u8>, pixel: int)
    requires
        0 <= pixel < map.len(),
    ensures
        ({
            let len = 4 * map.len();
            &&& matte_byte(map, PixFmt::Rgba, len, 4 * pixel) == map[pixel]
            &&& matte_byte(map, PixFmt::Rgba, len, 4 * pixel + 1) == map[pixel]
            &&& matte_byte(map, PixFmt::Rgba, len, 4 * pixel + 2) == map[pixel]
            &&& matte_byte(map, PixFmt::Rgba, len, 4 * pixel + 3) == 255
        }),
{
}

/// A matte read back as a yuv420p frame is gray: every channel of a pixel is
/// what the map has there.
pub proof fn lemma_yuv420p_matte_reads_back(
    map: Seq<u8>,
    width: nat,
    height: nat,
    len: nat,
    y: nat,
    x: nat,
    c: nat,
)
    requires
        x < width,
        y < height,
        map.len() == width * height,
        frame_size(PixFmt::Yuv420p, width, height) <= len,
    ensures
        channel(
            Seq::new(len, |i: int| matte_byte(map, PixFmt::Yuv420p, len, i)),
            PixFmt::Yuv420p,
            width,
            height,
            y,
            x,
            c,
        ) == num::whole(map[(y * width + x) as int] as nat),
{
    let frame = Seq::new(len, |i: int| matte_byte(map, PixFmt::Yuv420p, len, i));
    lemma_whole_frame_readable(len, PixFmt::Yuv420p, width, height, y);
    assert(0 <= y * width + x < width * height) by (nonlinear_arith)
        requires
            x < width,
            y < height,
    ;
    lemma_neutral_chroma_is_gray(frame, width, height, y, x, c);
}

/// A matte read back as an rgba frame is gray: every channel of a pixel is
/// what the map has there.
pub proof fn lemma_rgba_matte_reads_back(
    map: Seq<u8>,
    width: nat,
    height: nat,
    len: nat,
    y: nat,
    x: nat,
    c: nat,
)
    requires
        x < width,
        y < height,
        c < 3,
        map.len() == width * height,
        frame_size(PixFmt::Rgba, width, height) <= len,
    ensures
        channel(
            Seq::new(len, |i: int| matte_byte(map, PixFmt::Rgba, len, i)),
            PixFmt::Rgba,
            width,
            height,
            y,
            x,
            c,
        ) == num::whole(map[(y * width + x) as int] as nat),
{
    assert(0 <= y * width + x < width * height) by (nonlinear_arith)
        requires
            x < width,
            y < height,
    ;
}

/// A chroma sample is exact about its middle.
proof fn lemma_centered(n: u8)
    ensures
        num::whole(n as nat).minus(num::whole(128)) is Finite,
        num::whole(n as nat).minus(num::whole(128)).signed() == (n - 128) * num::one(),
{
    let one = num::one();
    rounding::lemma_whole_exact(n as nat);
    rounding::lemma_whole_exact(128);
    assert((n - 128) * one == n * one - 128 * one) by (nonlinear_arith);
    if n >= 128 {
        rounding::lemma_whole_exact((n - 128) as nat);
    } else {
        rounding::lemma_whole_exact((128 - n) as nat);
        assert((128 - n) * one == 128 * one - n * one) by (nonlinear_arith);
    }
    vstd::arithmetic::power2::lemma_pow2_pos(149);
}

/// What a chroma sample adds, by a coefficient of `n / d`.
proof fn lemma_term_near(n: nat, d: nat, v: Num, k: int)
    requires
        d > 0,
        n <= 2 * d,
        -128 <= k <= 128,
        v is Finite,
        v.signed() == k * num::one(),
    ensures
        ({
            let term = num::fraction(n, d).times(v);
            &&& term is Finite
            &&& -(256 * num::one()) <= term.signed() <= 256 * num::one()
            &&& near(d * term.signed(), (n * k) * num::one(), 513 * accuracy::grain() * d)
        }),
{
    let one = num::one();
    let g = accuracy::grain();
    let f = num::fraction(n, d).signed();
    accuracy::lemma_grain();
    accuracy::lemma_fraction_near(n, d, 2);
    assert(-((256 * one) * one) <= f * v.signed() <= (256 * one) * one) by (nonlinear_arith)
        requires
            v.signed() == k * one,
            -128 <= k <= 128,
            0 <= f <= 2 * one,
    ;
    accuracy::lemma_times_near(num::fraction(n, d), v, 256);
    let t = num::fraction(n, d).times(v).signed();
    assert(-(256 * g + 1) <= t - f * k <= 256 * g + 1) by (nonlinear_arith)
        requires
            -((256 * g + 1) * one) <= t * one - f * v.signed() <= (256 * g + 1) * one,
            v.signed() == k * one,
            one > 0,
    ;
    let e = f * d - n * one;
    assert(-(128 * ((2 * g + 1) * d)) <= e * k <= 128 * ((2 * g + 1) * d)) by (nonlinear_arith)
        requires
            -((2 * g + 1) * d) <= e <= (2 * g + 1) * d,
            -128 <= k <= 128,
    ;
    let off = t - f * k;
    assert(-((256 * g + 1) * d) <= off * d <= (256 * g + 1) * d) by (nonlinear_arith)
        requires
            -(256 * g + 1) <= off <= 256 * g + 1,
    ;
    assert(d * t - (n * k) * one == off * d + e * k) by (nonlinear_arith)
        requires
            off == t - f * k,
            e == f * d - n * one,
    ;
    assert((256 * g + 1) * d + 128 * ((2 * g + 1) * d) <= 513 * g * d) by (nonlinear_arith)
        requires
            g >= 129,
    ;
}

/// The conversion is the BT.601 inverse, to a thousandth of a level: with the
/// luma and the two chroma samples taken about their middle, red is
/// `luma + 1.402 cr`, green `luma - 0.344136 cb - 0.714136 cr` and blue
/// `luma + 1.772 cb`.
pub proof fn lemma_bt601_is_the_inverse(luma: u8, cb: u8, cr: u8)
    ensures
        bt601(luma, cb, cr, 0) is Finite,
        bt601(luma, cb, cr, 1) is Finite,
        bt601(luma, cb, cr, 2) is Finite,
        -num::one() <= 1_000 * bt601(luma, cb, cr, 0).signed() - (1_000 * luma + 1_402 * (cr - 128))
            * num::one() <= num::one(),
        -(1_000 * num::one()) <= 1_000_000 * bt601(luma, cb, cr, 1).signed() - (1_000_000 * luma
            - 344_136 * (cb - 128) - 714_136 * (cr - 128)) * num::one() <= 1_000 * num::one(),
        -num::one() <= 1_000 * bt601(luma, cb, cr, 2).signed() - (1_000 * luma + 1_772 * (cb - 128))
            * num::one() <= num::one(),
{
    reveal(bt601);
    let one = num::one();
    let g = accuracy::grain();
    accuracy::lemma_grain();
    let l = num::whole(luma as nat);
    let u = num::whole(cb as nat).minus(num::whole(128));
    let v = num::whole(cr as nat).minus(num::whole(128));
    let (a, b) = (cb - 128, cr - 128);
    rounding::lemma_whole_exact(luma as nat);
    assert(0 <= luma * one <= 255 * one) by (nonlinear_arith)
        requires
            luma <= 255,
    ;
    lemma_centered(cb);
    lemma_centered(cr);
    lemma_term_near(1402, 1000, v, b);
    lemma_term_near(344_136, 1_000_000, u, a);
    lemma_term_near(714_136, 1_000_000, v, b);
    lemma_term_near(1772, 1000, u, a);
    let red = num::fraction(1402, 1000).times(v);
    let green_u = num::fraction(344_136, 1_000_000).times(u);
    let green_v = num::fraction(714_136, 1_000_000).times(v);
    let blue = num::fraction(1772, 1000).times(u);
    accuracy::lemma_plus_near(l, red, 511);
    accuracy::lemma_plus_near(l, blue, 511);
    accuracy::lemma_minus_near(l, green_u, 511);
    accuracy::lemma_minus_near(l.minus(green_u), green_v, 767);
    assert((1_000 * luma + 1_402 * b) * one == 1_000 * (luma * one) + (1402 * b) * one)
        by (nonlinear_arith);
    assert((1_000 * luma + 1_772 * a) * one == 1_000 * (luma * one) + (1772 * a) * one)
        by (nonlinear_arith);
    assert((1_000_000 * luma - 344_136 * a - 714_136 * b) * one == 1_000_000 * (luma * one) - (
    344_136 * a) * one - (714_136 * b) * one) by (nonlinear_arith);
}

/// What a pixel of a yuv420p frame is made of: the byte of the luma plane at
/// its own place, and one byte of each chroma plane, which both have half the
/// rows and columns, rounded up. The first chroma plane, right behind the
/// luma, is blue's and the second, behind that one, is red's: to a thousandth
/// of a level, red is `luma + 1.402 second`, green
/// `luma - 0.344136 first - 0.714136 second` and blue `luma + 1.772 first`,
/// the chroma taken about 128. A row past the last is read with the last
/// row's chroma.
pub proof fn lemma_yuv420p_pixel(frame: Seq<u8>, width: nat, height: nat, y: nat, x: nat)
    requires
        x < width,
        height > 0,
    ensures
        ({
            let columns = (width + 1) / 2;
            let rows = (height + 1) / 2;
            let row = if y / 2 < rows {
                y / 2
            } else {
                (rows - 1) as nat
            };
            let luma = frame[(y * width + x) as int];
            let first = frame[(width * height + row * columns + x / 2) as int] - 128;
            let second = frame[(width * height + columns * rows + row * columns + x / 2) as int]
                - 128;
            let red = channel(frame, PixFmt::Yuv420p, width, height, y, x, 0);
            let green = channel(frame, PixFmt::Yuv420p, width, height, y, x, 1);
            let blue = channel(frame, PixFmt::Yuv420p, width, height, y, x, 2);
            &&& red is Finite && green is Finite && blue is Finite
            &&& -num::one() <= 1_000 * red.signed() - (1_000 * luma + 1_402 * second) * num::one()
                <= num::one()
            &&& -(1_000 * num::one()) <= 1_000_000 * green.signed() - (1_000_000 * luma - 344_136
                * first - 714_136 * second) * num::one() <= 1_000 * num::one()
            &&& -num::one() <= 1_000 * blue.signed() - (1_000 * luma + 1_772 * first) * num::one()
                <= num::one()
        }),
{
    let at = chroma_index(width, height, y, x);
    let chroma = halved(width) * halved(height);
    lemma_bt601_is_the_inverse(
        frame[(y * width + x) as int],
        frame[(width * height + at) as int],
        frame[(width * height + chroma + at) as int],
    );
    assert(halved(width) == (width + 1) / 2);
    assert(halved(height) == (height + 1) / 2);
}

/// What a pixel of an rgba frame is made of: four bytes at its own place, of
/// which the first three are red, green and blue as they are.
pub proof fn lemma_rgba_pixel(frame: Seq<u8>, width: nat, height: nat, y: nat, x: nat, c: nat)
    requires
        c < 3,
    ensures
        ({
            let value = channel(frame, PixFmt::Rgba, width, height, y, x, c);
            &&& value is Finite
            &&& value.signed() == frame[(4 * (y * width + x) + c) as int] * num::one()
        }),
{
    rounding::lemma_whole_exact(frame[((y * width + x) * 4 + c) as int] as nat);
}

/// A coefficient times a chroma sample never falls as the sample rises.
proof fn lemma_terms_ordered(n: nat, d: nat, a: u8, b: u8)
    requires
        d > 0,
        n <= 2 * d,
        a <= b,
    ensures
        ({
            let low = num::fraction(n, d).times(num::whole(a as nat).minus(num::whole(128)));
            let high = num::fraction(n, d).times(num::whole(b as nat).minus(num::whole(128)));
            &&& low is Finite && high is Finite
            &&& low.signed() <= high.signed()
            &&& -(256 * num::one()) <= low.signed() && high.signed() <= 256 * num::one()
        }),
{
    let one = num::one();
    let (u, v) = (
        num::whole(a as nat).minus(num::whole(128)),
        num::whole(b as nat).minus(num::whole(128)),
    );
    let f = num::fraction(n, d);
    lemma_centered(a);
    lemma_centered(b);
    lemma_term_near(n, d, u, a - 128);
    lemma_term_near(n, d, v, b - 128);
    arith::lemma_within_fraction(n, d, 2);
    assert((a - 128) * one <= (b - 128) * one) by (nonlinear_arith)
        requires
            a <= b,
    ;
    arith::lemma_times_signed(u, f);
    arith::lemma_times_monotone(u, v, f);
    assert(u.times(f) == f.times(u) && v.times(f) == f.times(v)) by {
        assert(u->Finite_units * f->Finite_units == f->Finite_units * u->Finite_units)
            by (nonlinear_arith);
        assert(v->Finite_units * f->Finite_units == f->Finite_units * v->Finite_units)
            by (nonlinear_arith);
    }
}

/// Sums of what is no larger are no larger.
proof fn lemma_sums_ordered(a: Num, b: Num, x: Num, y: Num)
    requires
        arith::within(a, 1021),
        arith::within(b, 1021),
        arith::within(x, 1021),
        arith::within(y, 1021),
        a.signed() <= b.signed(),
        x.signed() <= y.signed(),
    ensures
        a.plus(x).signed() <= b.plus(y).signed(),
{
    arith::lemma_plus_signed(a, x);
    arith::lemma_plus_signed(b, y);
    arith::lemma_rounded_monotone(a.signed() + x.signed(), b.signed() + y.signed(), 1);
}

/// Red and blue never fall as the luma or the chroma they take rises.
proof fn lemma_bt601_ordered(l: u8, k: u8, p: u8, q: u8, s: u8, t: u8)
    requires
        l <= k,
        p <= q,
    ensures
        bt601(l, s, p, 0).signed() <= bt601(k, t, q, 0).signed(),
        bt601(l, p, s, 2).signed() <= bt601(k, q, t, 2).signed(),
{
    reveal(bt601);
    let one = num::one();
    lemma_byte(l);
    lemma_byte(k);
    rounding::lemma_whole_exact(l as nat);
    rounding::lemma_whole_exact(k as nat);
    lemma_wider(num::whole(l as nat), 255, 1021);
    lemma_wider(num::whole(k as nat), 255, 1021);
    assert(l * one <= k * one) by (nonlinear_arith)
        requires
            l <= k,
    ;
    lemma_terms_ordered(1402, 1000, p, q);
    lemma_terms_ordered(1772, 1000, p, q);
    let (u, v) = (
        num::whole(p as nat).minus(num::whole(128)),
        num::whole(q as nat).minus(num::whole(128)),
    );
    lemma_sums_ordered(
        num::whole(l as nat),
        num::whole(k as nat),
        num::fraction(1402, 1000).times(u),
        num::fraction(1402, 1000).times(v),
    );
    lemma_sums_ordered(
        num::whole(l as nat),
        num::whole(k as nat),
        num::fraction(1772, 1000).times(u),
        num::fraction(1772, 1000).times(v),
    );
}

/// Green never rises as a chroma sample does, and never falls as the luma
/// rises.
proof fn lemma_green_ordered(l: u8, k: u8, a: u8, b: u8, p: u8, q: u8)
    requires
        l <= k,
        b <= a,
        q <= p,
    ensures
        bt601(l, a, p, 1).signed() <= bt601(k, b, q, 1).signed(),
{
    reveal(bt601);
    let one = num::one();
    lemma_byte(l);
    lemma_byte(k);
    rounding::lemma_whole_exact(l as nat);
    rounding::lemma_whole_exact(k as nat);
    lemma_wider(num::whole(l as nat), 255, 1021);
    lemma_wider(num::whole(k as nat), 255, 1021);
    assert(l * one <= k * one) by (nonlinear_arith)
        requires
            l <= k,
    ;
    lemma_terms_ordered(344_136, 1_000_000, b, a);
    lemma_terms_ordered(714_136, 1_000_000, q, p);
    let term = |n: nat, s: u8|
        num::fraction(n, 1_000_000).times(num::whole(s as nat).minus(num::whole(128)));
    let (x, y) = (term(344_136, a), term(344_136, b));
    let (z, w) = (term(714_136, p), term(714_136, q));
    let (low, high) = (num::whole(l as nat), num::whole(k as nat));
    lemma_sums_ordered(low, high, x.negated(), y.negated());
    arith::lemma_within_plus(low, x, 255, 256);
    arith::lemma_within_plus(high, y, 255, 256);
    lemma_wider(low.minus(x), 511, 1021);
    lemma_wider(high.minus(y), 511, 1021);
    lemma_sums_ordered(low.minus(x), high.minus(y), z.negated(), w.negated());
}

/// Red does not depend on the first chroma plane, and never falls as a byte
/// of the luma or of the second rises.
pub proof fn lemma_red_follows_luma_and_second_chroma(
    frame: Seq<u8>,
    other: Seq<u8>,
    width: nat,
    height: nat,
    y: nat,
    x: nat,
)
    requires
        x < width,
        y < height,
        frame.len() == other.len(),
        width * height + 2 * (((width + 1) / 2) * ((height + 1) / 2)) <= frame.len(),
        forall|i: int| 0 <= i < width * height ==> frame[i] <= other[i],
        forall|i: int|
            width * height + ((width + 1) / 2) * ((height + 1) / 2) <= i < frame.len() ==> frame[i]
                <= other[i],
    ensures
        channel(frame, PixFmt::Yuv420p, width, height, y, x, 0).signed() <= channel(
            other,
            PixFmt::Yuv420p,
            width,
            height,
            y,
            x,
            0,
        ).signed(),
{
    lemma_pixel_places(frame.len(), width, height, y, x);
    let at = chroma_index(width, height, y, x);
    let chroma = halved(width) * halved(height);
    lemma_bt601_ordered(
        frame[(y * width + x) as int],
        other[(y * width + x) as int],
        frame[(width * height + chroma + at) as int],
        other[(width * height + chroma + at) as int],
        frame[(width * height + at) as int],
        other[(width * height + at) as int],
    );
}

/// Blue does not depend on the second chroma plane, and never falls as a byte
/// of the luma or of the first rises.
pub proof fn lemma_blue_follows_luma_and_first_chroma(
    frame: Seq<u8>,
    other: Seq<u8>,
    width: nat,
    height: nat,
    y: nat,
    x: nat,
)
    requires
        x < width,
        y < height,
        frame.len() == other.len(),
        width * height + 2 * (((width + 1) / 2) * ((height + 1) / 2)) <= frame.len(),
        forall|i: int|
            0 <= i < width * height + ((width + 1) / 2) * ((height + 1) / 2) ==> frame[i]
                <= other[i],
    ensures
        channel(frame, PixFmt::Yuv420p, width, height, y, x, 2).signed() <= channel(
            other,
            PixFmt::Yuv420p,
            width,
            height,
            y,
            x,
            2,
        ).signed(),
{
    lemma_pixel_places(frame.len(), width, height, y, x);
    let at = chroma_index(width, height, y, x);
    let chroma = halved(width) * halved(height);
    lemma_bt601_ordered(
        frame[(y * width + x) as int],
        other[(y * width + x) as int],
        frame[(width * height + at) as int],
        other[(width * height + at) as int],
        frame[(width * height + chroma + at) as int],
        other[(width * height + chroma + at) as int],
    );
}

/// Green never rises as a byte of either chroma plane does, and never falls
/// as one of the luma rises.
pub proof fn lemma_green_follows_luma_against_chroma(
    frame: Seq<u8>,
    other: Seq<u8>,
    width: nat,
    height: nat,
    y: nat,
    x: nat,
)
    requires
        x < width,
        y < height,
        frame.len() == other.len(),
        width * height + 2 * (((width + 1) / 2) * ((height + 1) / 2)) <= frame.len(),
        forall|i: int| 0 <= i < width * height ==> frame[i] <= other[i],
        forall|i: int| width * height <= i < frame.len() ==> other[i] <= frame[i],
    ensures
        channel(frame, PixFmt::Yuv420p, width, height, y, x, 1).signed() <= channel(
            other,
            PixFmt::Yuv420p,
            width,
            height,
            y,
            x,
            1,
        ).signed(),
{
    lemma_pixel_places(frame.len(), width, height, y, x);
    let at = chroma_index(width, height, y, x);
    let chroma = halved(width) * halved(height);
    lemma_green_ordered(
        frame[(y * width + x) as int],
        other[(y * width + x) as int],
        frame[(width * height + at) as int],
        other[(width * height + at) as int],
        frame[(width * height + chroma + at) as int],
        other[(width * height + chroma + at) as int],
    );
}

/// The three bytes of a pixel lie in their planes.
proof fn lemma_pixel_places(len: nat, width: nat, height: nat, y: nat, x: nat)
    requires
        x < width,
        y < height,
        width * height + 2 * (((width + 1) / 2) * ((height + 1) / 2)) <= len,
    ensures
        0 <= y * width + x < width * height,
        0 <= chroma_index(width, height, y, x) < ((width + 1) / 2) * ((height + 1) / 2),
        halved(width) * halved(height) == ((width + 1) / 2) * ((height + 1) / 2),
{
    lemma_chroma_in_plane(width, height, y, x);
    assert(halved(width) == (width + 1) / 2);
    assert(halved(height) == (height + 1) / 2);
    let (cw, ch) = (halved(width), halved(height));
    let row = if y / 2 < ch - 1 {
        y / 2
    } else {
        (ch - 1) as nat
    };
    assert(0 <= row * cw && row * cw + cw <= cw * ch) by (nonlinear_arith)
        requires
            row + 1 <= ch,
    ;
    assert(0 <= y * width + x < width * height) by (nonlinear_arith)
        requires
            x < width,
            y < height,
    ;
}

/// Every row of a whole frame can be read: of an rgba frame of four bytes to
/// the pixel, and of a yuv420p frame of one byte to the pixel and two chroma
/// planes of half the rows and columns, rounded up.
pub proof fn lemma_sized_frames_are_readable(len: nat, width: nat, height: nat, y: nat)
    requires
        y < height,
    ensures
        4 * (width * height) <= len ==> row_readable(len, PixFmt::Rgba, width, height, y),
        width * height + 2 * (((width + 1) / 2) * ((height + 1) / 2)) <= len ==> row_readable(
            len,
            PixFmt::Yuv420p,
            width,
            height,
            y,
        ),
{
    assert(halved(width) == (width + 1) / 2);
    assert(halved(height) == (height + 1) / 2);
    if 4 * (width * height) <= len {
        lemma_whole_frame_readable(len, PixFmt::Rgba, width, height, y);
    }
    if width * height + 2 * (((width + 1) / 2) * ((height + 1) / 2)) <= len {
        lemma_whole_frame_readable(len, PixFmt::Yuv420p, width, height, y);
    }
}

/// Only chroma of 128 is no colour: red is above the luma where the second
/// chroma sample is above 128 and below it where that is below, and blue goes
/// by the first one in the same way.
pub proof fn lemma_other_chroma_is_colour(luma: u8, cb: u8, cr: u8)
    ensures
        cr > 128 ==> bt601(luma, cb, cr, 0).signed() > luma * num::one(),
        cr < 128 ==> bt601(luma, cb, cr, 0).signed() < luma * num::one(),
        cb > 128 ==> bt601(luma, cb, cr, 2).signed() > luma * num::one(),
        cb < 128 ==> bt601(luma, cb, cr, 2).signed() < luma * num::one(),
{
    let one = num::one();
    vstd::arithmetic::power2::lemma_pow2_pos(149);
    lemma_bt601_is_the_inverse(luma, cb, cr);
    let (a, b) = (cb - 128, cr - 128);
    assert((1_000 * luma + 1_402 * b) * one == 1_000 * (luma * one) + 1_402 * (b * one))
        by (nonlinear_arith);
    assert((1_000 * luma + 1_772 * a) * one == 1_000 * (luma * one) + 1_772 * (a * one))
        by (nonlinear_arith);
    assert((a > 0 ==> a * one >= one) && (a < 0 ==> a * one <= -one) && (b > 0 ==> b * one >= one)
        && (b < 0 ==> b * one <= -one)) by (nonlinear_arith)
        requires
            one > 0,
    ;
}

} // verus!

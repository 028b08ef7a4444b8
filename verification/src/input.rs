//! The tensor that a frame becomes: stretched to the model's size, planar,
//! rescaled to 0..1.

use crate::accuracy;
use crate::arith;
use crate::model::{MODEL_H, MODEL_PLANE, MODEL_W};
use crate::num;
use crate::num::Num;
use crate::pixels;
use crate::pixels::PixFmt;
use crate::rounding;
use crate::single;
use crate::single::Single;
use crate::taps;
use crate::taps::Taps;
use vstd::prelude::*;

verus! {

/// Where the sample at `x`, `y` of the plane `c` lies in the tensor.
pub open spec fn slot(c: nat, y: nat, x: nat) -> int {
    c * MODEL_PLANE + y * MODEL_W + x
}

/// The channel `c` of the frame's row `y`, resized to the model's column `x`.
pub open spec fn column_sample(
    frame: Seq<u8>,
    pix_fmt: PixFmt,
    width: nat,
    height: nat,
    y: nat,
    x: nat,
    c: nat,
) -> Num {
    let low = taps::tap_low(MODEL_W as nat, width, x);
    let high = taps::tap_high(MODEL_W as nat, width, x);
    taps::blended(
        pixels::channel(frame, pix_fmt, width, height, y, low, c),
        pixels::channel(frame, pix_fmt, width, height, y, high, c),
        taps::tap_fraction(MODEL_W as nat, width, x),
    )
}

/// `n` held to 0..255 and rescaled to 0..1.
pub open spec fn rescaled(n: Num) -> Num {
    n.held(num::whole(0), num::whole(255)).over(num::whole(255))
}

/// The sample at `x`, `y` of the plane `c`: the frame stretched, each axis by
/// its own ratio, and rescaled to 0..1.
pub open spec fn input_sample(
    frame: Seq<u8>,
    pix_fmt: PixFmt,
    width: nat,
    height: nat,
    y: nat,
    x: nat,
    c: nat,
) -> Num {
    let low = taps::tap_low(MODEL_H as nat, height, y);
    let high = taps::tap_high(MODEL_H as nat, height, y);
    rescaled(
        taps::blended(
            column_sample(frame, pix_fmt, width, height, low, x, c),
            column_sample(frame, pix_fmt, width, height, high, x, c),
            taps::tap_fraction(MODEL_H as nat, height, y),
        ),
    )
}

/// The number that the bytes hold at the place `i` of a tensor.
pub open spec fn number_at(bytes: Seq<u8>, i: int) -> Num {
    single::decode(
        single::le_word(bytes[4 * i], bytes[4 * i + 1], bytes[4 * i + 2], bytes[4 * i + 3]),
    )
}

/// How many samples a resize to the model's columns fills.
pub open spec fn filled(columns: Taps) -> nat {
    let n = columns.low@.len();
    let n = if columns.high@.len() < n {
        columns.high@.len()
    } else {
        n
    };
    let n = if columns.fraction@.len() < n {
        columns.fraction@.len()
    } else {
        n
    };
    if MODEL_W < n {
        MODEL_W as nat
    } else {
        n
    }
}

/// The channel `c` of a row resized to the model's column `i`.
pub open spec fn resized(rgb: Seq<Single>, columns: Taps, width: nat, c: nat, i: nat) -> Num {
    taps::blended(
        rgb[c * width + columns.low@[i as int]]@,
        rgb[c * width + columns.high@[i as int]]@,
        columns.fraction@[i as int]@,
    )
}

/// One frame row resized to the model's columns, channel by channel.
pub fn resize_rgb_row(rgb: &[Single], columns: &Taps, width: usize, out: &mut [Single])
    requires
        width * 3 <= rgb@.len(),
        MODEL_W * 3 <= old(out)@.len(),
        forall|i: int|
            0 <= i < filled(*columns) ==> #[trigger] columns.low@[i] < width && columns.high@[i]
                < width,
    ensures
        final(out)@.len() == old(out)@.len(),
        forall|c: nat, i: nat|
            c < 3 && i < filled(*columns) ==> final(out)@[c * MODEL_W + i]@ == #[trigger] resized(
                rgb@,
                *columns,
                width as nat,
                c,
                i,
            ),
        forall|j: int|
            0 <= j < old(out)@.len() && (j % MODEL_W as int >= filled(*columns) || MODEL_W * 3 <= j)
                ==> #[trigger] final(out)@[j] == old(out)@[j],
{
    let mut c: usize = 0;
    while c < 3
        invariant
            c <= 3,
            width * 3 <= rgb@.len(),
            MODEL_W * 3 <= out@.len(),
            out@.len() == old(out)@.len(),
            forall|i: int|
                0 <= i < filled(*columns) ==> #[trigger] columns.low@[i] < width
                    && columns.high@[i] < width,
            forall|d: nat, i: nat|
                d < c && i < filled(*columns) ==> out@[d * MODEL_W + i]@ == #[trigger] resized(
                    rgb@,
                    *columns,
                    width as nat,
                    d,
                    i,
                ),
            forall|j: int|
                0 <= j < out@.len() && (j % MODEL_W as int >= filled(*columns) || c * MODEL_W <= j)
                    ==> #[trigger] out@[j] == old(out)@[j],
        decreases 3 - c,
    {
        resize_channel(rgb, columns, width, c, out);
        c = c + 1;
    }
}

fn resize_channel(
    rgb: &[Single],
    columns: &Taps,
    width: usize,
    c: usize,
    out: &mut [Single],
)
    requires
        c < 3,
        width * 3 <= rgb@.len(),
        MODEL_W * 3 <= old(out)@.len(),
        forall|i: int|
            0 <= i < filled(*columns) ==> #[trigger] columns.low@[i] < width && columns.high@[i]
                < width,
    ensures
        final(out)@.len() == old(out)@.len(),
        forall|i: nat|
            i < filled(*columns) ==> final(out)@[c * MODEL_W + i]@ == #[trigger] resized(
                rgb@,
                *columns,
                width as nat,
                c as nat,
                i,
            ),
        forall|j: int|
            0 <= j < old(out)@.len() && !(c * MODEL_W <= j < c * MODEL_W + filled(*columns))
                ==> #[trigger] final(out)@[j] == old(out)@[j],
{
    let room: usize = rgb.len();
    proof {
        assert(c * width + width <= width * 3) by (nonlinear_arith)
            requires
                c < 3,
        ;
        assert(0 <= c * width) by (nonlinear_arith);
    }
    let start: usize = c * width;
    let mut i: usize = 0;
    while i < MODEL_W && i < columns.low.len() && i < columns.high.len() && i
        < columns.fraction.len()
        invariant
            c < 3,
            room == rgb@.len(),
            start == c * width,
            start + width <= room,
            MODEL_W * 3 <= out@.len(),
            out@.len() == old(out)@.len(),
            i <= filled(*columns),
            forall|k: int|
                0 <= k < filled(*columns) ==> #[trigger] columns.low@[k] < width
                    && columns.high@[k] < width,
            forall|k: nat|
                k < i ==> out@[c * MODEL_W + k]@ == #[trigger] resized(
                    rgb@,
                    *columns,
                    width as nat,
                    c as nat,
                    k,
                ),
            forall|j: int|
                0 <= j < out@.len() && !(c * MODEL_W <= j < c * MODEL_W + i)
                    ==> #[trigger] out@[j] == old(out)@[j],
        decreases MODEL_W - i,
    {
        let low: usize = columns.low[i];
        let high: usize = columns.high[i];
        let sample = taps::blend(&rgb[start + low], &rgb[start + high], &columns.fraction[i]);
        assert(sample@ == resized(rgb@, *columns, width as nat, c as nat, i as nat));
        out[c * MODEL_W + i] = sample;
        i = i + 1;
    }
}

/// A frame that is all there, a row of which has room as three channels.
pub open spec fn is_whole(len: nat, pix_fmt: PixFmt, width: nat, height: nat) -> bool {
    &&& 0 < width
    &&& width * 3 <= usize::MAX
    &&& 0 < height <= usize::MAX
    &&& pixels::frame_size(pix_fmt, width, height) <= len
}

/// All that a stretch of a frame to the model's size reads is there: the
/// frame's bytes hold every row that it falls on.
pub open spec fn stretchable(len: nat, pix_fmt: PixFmt, width: nat, height: nat) -> bool {
    &&& 0 < width
    &&& 0 < height
    &&& width * 3 <= usize::MAX
    &&& forall|y: nat| #![trigger taps::tap_low(MODEL_H as nat, height, y)]
        y < MODEL_H ==> {
            let low = taps::tap_low(MODEL_H as nat, height, y);
            let high = taps::tap_high(MODEL_H as nat, height, y);
            &&& pixels::row_readable(len, pix_fmt, width, height, low)
            &&& pixels::row_readable(len, pix_fmt, width, height, high)
        }
}

/// A frame that is all there can be stretched.
pub proof fn lemma_whole_frame_stretchable(len: nat, pix_fmt: PixFmt, width: nat, height: nat)
    requires
        is_whole(len, pix_fmt, width, height),
    ensures
        stretchable(len, pix_fmt, width, height),
{
    assert forall|y: nat| #![trigger taps::tap_low(MODEL_H as nat, height, y)]
        y < MODEL_H implies {
        let low = taps::tap_low(MODEL_H as nat, height, y);
        let high = taps::tap_high(MODEL_H as nat, height, y);
        &&& pixels::row_readable(len, pix_fmt, width, height, low)
        &&& pixels::row_readable(len, pix_fmt, width, height, high)
    } by {
        taps::lemma_few_taps_in_source(MODEL_H as nat, height, y);
        let low = taps::tap_low(MODEL_H as nat, height, y);
        let high = taps::tap_high(MODEL_H as nat, height, y);
        pixels::lemma_whole_frame_readable(len, pix_fmt, width, height, low);
        pixels::lemma_whole_frame_readable(len, pix_fmt, width, height, high);
    }
}

/// Whether all that a stretch of a frame to the model's size reads is there.
pub fn can_stretch(len: usize, pix_fmt: PixFmt, width: usize, height: usize) -> (r: bool)
    ensures
        r == stretchable(len as nat, pix_fmt, width as nat, height as nat),
{
    if width == 0 || height == 0 || width > usize::MAX / 3 {
        return false;
    }
    for y in 0..MODEL_H
        invariant
            0 < height,
            forall|k: nat| #![trigger taps::tap_low(MODEL_H as nat, height as nat, k)]
                k < y ==> {
                    let low = taps::tap_low(MODEL_H as nat, height as nat, k);
                    let high = taps::tap_high(MODEL_H as nat, height as nat, k);
                    &&& pixels::row_readable(
                        len as nat,
                        pix_fmt,
                        width as nat,
                        height as nat,
                        low,
                    )
                    &&& pixels::row_readable(
                        len as nat,
                        pix_fmt,
                        width as nat,
                        height as nat,
                        high,
                    )
                },
    {
        proof {
            taps::lemma_few_taps_in_source(MODEL_H as nat, height as nat, y as nat);
        }
        let low: usize = taps::low_tap(MODEL_H, height, y);
        let high: usize = taps::sample_after(low, height);
        if !pixels::can_read_row(len, pix_fmt, width, height, low) || !pixels::can_read_row(
            len,
            pix_fmt,
            width,
            height,
            high,
        ) {
            return false;
        }
    }
    true
}

/// One row of the tensor, blended from two resized frame rows.
fn blend_rows(
    top: &Vec<Single>,
    bottom: &Vec<Single>,
    ty: &Single,
    y: usize,
    planes: &mut Vec<Single>,
)
    requires
        y < MODEL_H,
        top@.len() == MODEL_W * 3,
        bottom@.len() == MODEL_W * 3,
        old(planes)@.len() == MODEL_PLANE * 3,
    ensures
        final(planes)@.len() == MODEL_PLANE * 3,
        forall|c: nat, x: nat|
            c < 3 && x < MODEL_W ==> final(planes)@[#[trigger] slot(c, y as nat, x)]@ == rescaled(
                taps::blended(top@[c * MODEL_W + x]@, bottom@[c * MODEL_W + x]@, ty@),
            ),
        forall|c: nat, k: nat, x: nat|
            c < 3 && k < MODEL_H && k != y && x < MODEL_W ==> final(planes)@[#[trigger] slot(
                c,
                k,
                x,
            )] == old(planes)@[slot(c, k, x)],
{
    let least = Single::from_u8(0);
    let most = Single::from_u8(255);
    for x in 0..MODEL_W
        invariant
            y < MODEL_H,
            top@.len() == MODEL_W * 3,
            bottom@.len() == MODEL_W * 3,
            planes@.len() == MODEL_PLANE * 3,
            least@ == num::whole(0),
            most@ == num::whole(255),
            forall|c: nat, k: nat|
                c < 3 && k < x ==> planes@[#[trigger] slot(c, y as nat, k)]@ == rescaled(
                    taps::blended(top@[c * MODEL_W + k]@, bottom@[c * MODEL_W + k]@, ty@),
                ),
            forall|c: nat, r: nat, k: nat|
                c < 3 && r < MODEL_H && r != y && k < MODEL_W ==> planes@[#[trigger] slot(c, r, k)]
                    == old(planes)@[slot(c, r, k)],
    {
        let mut c: usize = 0;
        while c < 3
            invariant
                c <= 3,
                x < MODEL_W,
                y < MODEL_H,
                top@.len() == MODEL_W * 3,
                bottom@.len() == MODEL_W * 3,
                planes@.len() == MODEL_PLANE * 3,
                least@ == num::whole(0),
                most@ == num::whole(255),
                forall|d: nat, k: nat|
                    d < 3 && (k < x || (k == x && d < c)) ==> planes@[#[trigger] slot(
                        d,
                        y as nat,
                        k,
                    )]@ == rescaled(
                        taps::blended(top@[d * MODEL_W + k]@, bottom@[d * MODEL_W + k]@, ty@),
                    ),
                forall|d: nat, r: nat, k: nat|
                    d < 3 && r < MODEL_H && r != y && k < MODEL_W ==> planes@[#[trigger] slot(
                        d,
                        r,
                        k,
                    )] == old(planes)@[slot(d, r, k)],
            decreases 3 - c,
        {
            let sample = taps::blend(&top[c * MODEL_W + x], &bottom[c * MODEL_W + x], ty).held(
                &least,
                &most,
            ).over(&most);
            planes[c * MODEL_PLANE + y * MODEL_W + x] = sample;
            c = c + 1;
        }
    }
}

/// One frame row, as red, green and blue, resized to the model's columns.
fn resized_row(
    frame: &[u8],
    pix_fmt: PixFmt,
    width: usize,
    height: usize,
    y: usize,
    columns: &Taps,
    rgb: &mut [Single],
    out: &mut [Single],
)
    requires
        y < usize::MAX,
        pixels::row_readable(frame@.len(), pix_fmt, width as nat, height as nat, y as nat),
        old(rgb)@.len() == width * 3,
        old(out)@.len() == MODEL_W * 3,
        0 < width,
        columns.holds(MODEL_W as nat, width as nat, MODEL_W as nat),
    ensures
        final(rgb)@.len() == width * 3,
        final(out)@.len() == MODEL_W * 3,
        forall|c: nat, x: nat|
            c < 3 && x < MODEL_W ==> final(out)@[c * MODEL_W + x]@ == #[trigger] column_sample(
                frame@,
                pix_fmt,
                width as nat,
                height as nat,
                y as nat,
                x,
                c,
            ),
{
    pixels::row_to_rgb(frame, pix_fmt, width, height, y, rgb);
    assert forall|i: int| 0 <= i < filled(*columns) implies #[trigger] columns.low@[i] < width
        && columns.high@[i] < width by {
        taps::lemma_few_taps_in_source(MODEL_W as nat, width as nat, i as nat);
        assert(columns.high@[i] == taps::tap_high(MODEL_W as nat, width as nat, i as nat));
    }
    resize_rgb_row(rgb, columns, width, out);
    proof {
        let (w, h) = (width as nat, height as nat);
        assert forall|c: nat, x: nat| c < 3 && x < MODEL_W implies out@[c * MODEL_W + x]@
            == #[trigger] column_sample(frame@, pix_fmt, w, h, y as nat, x, c) by {
            let low = taps::tap_low(MODEL_W as nat, w, x);
            let high = taps::tap_high(MODEL_W as nat, w, x);
            taps::lemma_few_taps_in_source(MODEL_W as nat, w, x);
            assert(columns.low@[x as int] == low);
            assert(columns.high@[x as int] == high);
            assert(columns.fraction@[x as int]@ == taps::tap_fraction(MODEL_W as nat, w, x));
            assert(resized(rgb@, *columns, w, c, x) == out@[c * MODEL_W + x]@);
            assert(rgb@[(c * w + low) as int]@ == pixels::channel(
                frame@,
                pix_fmt,
                w,
                h,
                y as nat,
                low,
                c,
            ));
            assert(rgb@[(c * w + high) as int]@ == pixels::channel(
                frame@,
                pix_fmt,
                w,
                h,
                y as nat,
                high,
                c,
            ));
        }
    }
}

/// The frame stretched to the model's 320x192 - each axis by its own ratio,
/// no letterbox, the contract the weights shipped with - and laid out as the
/// planar fp32 tensor the graph expects: red, green and blue in turn, each
/// rescaled to 0..1 and nothing else.
pub fn to_input(frame: &[u8], pix_fmt: PixFmt, width: usize, height: usize) -> (bytes: Vec<u8>)
    requires
        is_whole(frame@.len(), pix_fmt, width as nat, height as nat) || stretchable(
            frame@.len(),
            pix_fmt,
            width as nat,
            height as nat,
        ),
    ensures
        bytes@.len() == 3 * MODEL_H * MODEL_W * 4,
        forall|c: nat, y: nat, x: nat|
            c < 3 && y < MODEL_H && x < MODEL_W ==> number_at(bytes@, slot(c, y, x))
                == #[trigger] input_sample(
                frame@,
                pix_fmt,
                width as nat,
                height as nat,
                y,
                x,
                c,
            ),
        forall|c: nat, y: nat, x: nat|
            c < 3 && y < 192 && x < 320 ==> ({
                let at = 4 * (c * 61440 + y * 320 + x) as int;
                single::decode(
                    (bytes@[at] + 0x100 * bytes@[at + 1] + 0x1_0000 * bytes@[at + 2]
                        + 0x100_0000 * bytes@[at + 3]) as u32,
                )
            }) == #[trigger] input_sample(
                frame@,
                pix_fmt,
                width as nat,
                height as nat,
                y,
                x,
                c,
            ),
{
    let ghost (w, h) = (width as nat, height as nat);
    proof {
        if is_whole(frame@.len(), pix_fmt, w, h) {
            lemma_whole_frame_stretchable(frame@.len(), pix_fmt, w, h);
        }
    }
    let nothing = Single::from_u8(0);
    let mut planes: Vec<Single> = vec![nothing; MODEL_PLANE * 3];
    let columns = Taps::build(MODEL_W, width);
    let rows = Taps::build(MODEL_H, height);
    let mut rgb: Vec<Single> = vec![nothing; width * 3];
    let mut top: Vec<Single> = vec![nothing; MODEL_W * 3];
    let mut bottom: Vec<Single> = vec![nothing; MODEL_W * 3];
    for my in 0..MODEL_H
        invariant
            w == width,
            h == height,
            stretchable(frame@.len(), pix_fmt, w, h),
            columns.holds(MODEL_W as nat, w, MODEL_W as nat),
            rows.holds(MODEL_H as nat, h, MODEL_H as nat),
            planes@.len() == MODEL_PLANE * 3,
            rgb@.len() == width * 3,
            top@.len() == MODEL_W * 3,
            bottom@.len() == MODEL_W * 3,
            forall|c: nat, y: nat, x: nat|
                c < 3 && y < my && x < MODEL_W ==> planes@[#[trigger] slot(c, y, x)]@
                    == input_sample(frame@, pix_fmt, w, h, y, x, c),
    {
        let low: usize = rows.low[my as usize];
        let high: usize = rows.high[my as usize];
        proof {
            taps::lemma_few_taps_in_source(MODEL_H as nat, h, my as nat);
        }
        assert(low == taps::tap_low(MODEL_H as nat, h, my as nat));
        resized_row(frame, pix_fmt, width, height, low, &columns, rgb.as_mut_slice(), top.as_mut_slice());
        if high != low {
            resized_row(frame, pix_fmt, width, height, high, &columns, rgb.as_mut_slice(), bottom.as_mut_slice());
        } else {
            bottom = vstd::slice::slice_to_vec(top.as_slice());
        }
        let ghost before = planes@;
        let ty = rows.fraction[my as usize];
        blend_rows(&top, &bottom, &ty, my, &mut planes);
        assert forall|c: nat, y: nat, x: nat|
            c < 3 && y < my + 1 && x < MODEL_W implies planes@[#[trigger] slot(c, y, x)]@
            == input_sample(frame@, pix_fmt, w, h, y, x, c) by {
            if y < my {
                assert(planes@[slot(c, y, x)] == before[slot(c, y, x)]);
            } else {
                assert(top@[c * MODEL_W + x]@ == column_sample(
                    frame@,
                    pix_fmt,
                    w,
                    h,
                    low as nat,
                    x,
                    c,
                ));
                assert(bottom@[c * MODEL_W + x]@ == column_sample(
                    frame@,
                    pix_fmt,
                    w,
                    h,
                    high as nat,
                    x,
                    c,
                ));
            }
        }
    }
    let bytes = to_bytes(&planes);
    assert forall|c: nat, y: nat, x: nat|
        c < 3 && y < MODEL_H && x < MODEL_W implies number_at(bytes@, slot(c, y, x))
        == #[trigger] input_sample(frame@, pix_fmt, w, h, y, x, c) by {
        assert(0 <= slot(c, y, x) < MODEL_PLANE * 3);
        assert(planes@[slot(c, y, x)]@ == number_at(bytes@, slot(c, y, x)));
    }
    bytes
}

/// The numbers as bytes, four to each, the lowest first.
fn to_bytes(numbers: &Vec<Single>) -> (bytes: Vec<u8>)
    ensures
        bytes@.len() == 4 * numbers@.len(),
        forall|i: int|
            0 <= i < numbers@.len() ==> #[trigger] numbers@[i]@ == number_at(bytes@, i),
{
    let mut bytes: Vec<u8> = Vec::new();
    for i in 0..numbers.len()
        invariant
            bytes@.len() == 4 * i,
            forall|j: int|
                0 <= j < i ==> #[trigger] numbers@[j]@ == number_at(bytes@, j),
    {
        let word: [u8; 4] = numbers[i].to_le_bytes();
        bytes.push(word[0]);
        bytes.push(word[1]);
        bytes.push(word[2]);
        bytes.push(word[3]);
    }
    bytes
}

/// What holds of the fractions that a stretch blends by.
proof fn lemma_stretch_fractions(
    len: nat,
    pix_fmt: PixFmt,
    width: nat,
    height: nat,
    y: nat,
    x: nat,
)
    requires
        stretchable(len, pix_fmt, width, height),
        height <= usize::MAX,
        y < MODEL_H,
        x < MODEL_W,
    ensures
        arith::within(taps::tap_fraction(MODEL_W as nat, width, x), 1),
        arith::within(taps::tap_fraction(MODEL_H as nat, height, y), 1),
{
    taps::lemma_few_taps_in_source(MODEL_W as nat, width, x);
    taps::lemma_few_taps_in_source(MODEL_H as nat, height, y);
    taps::lemma_fraction(MODEL_W as nat, width, x);
    taps::lemma_fraction(MODEL_H as nat, height, y);
    assert(1 * num::one() == num::one());
}

proof fn lemma_within_blended(a: Num, b: Num, t: Num, most: nat)
    requires
        arith::within(a, most),
        arith::within(b, most),
        arith::within(t, 1),
        3 * most <= 0x100_0000,
    ensures
        arith::within(taps::blended(a, b, t), 3 * most),
{
    reveal(taps::blended);
    arith::lemma_within_plus(b, a, most, most);
    assert((2 * most) * 1 == 2 * most);
    arith::lemma_within_times(b.minus(a), t, 2 * most, 1);
    arith::lemma_within_plus(a, b.minus(a).times(t), most, 2 * most);
}

/// Whatever the frame, every sample of the tensor is a number from 0 to 1.
pub proof fn lemma_input_lands_in_zero_to_one(
    frame: Seq<u8>,
    pix_fmt: PixFmt,
    width: nat,
    height: nat,
    y: nat,
    x: nat,
    c: nat,
)
    requires
        stretchable(frame.len(), pix_fmt, width, height),
        height <= usize::MAX,
        y < MODEL_H,
        x < MODEL_W,
        c < 3,
    ensures
        input_sample(frame, pix_fmt, width, height, y, x, c) is Finite,
        0 <= input_sample(frame, pix_fmt, width, height, y, x, c).signed() <= num::one(),
{
    let low = taps::tap_low(MODEL_H as nat, height, y);
    let high = taps::tap_high(MODEL_H as nat, height, y);
    let left = taps::tap_low(MODEL_W as nat, width, x);
    let right = taps::tap_high(MODEL_W as nat, width, x);
    let fx = taps::tap_fraction(MODEL_W as nat, width, x);
    let fy = taps::tap_fraction(MODEL_H as nat, height, y);
    lemma_stretch_fractions(frame.len(), pix_fmt, width, height, y, x);
    let value = |row: nat, column: nat|
        pixels::channel(frame, pix_fmt, width, height, row, column, c);
    pixels::lemma_channel_is_moderate(frame, pix_fmt, width, height, low, left, c);
    pixels::lemma_channel_is_moderate(frame, pix_fmt, width, height, low, right, c);
    pixels::lemma_channel_is_moderate(frame, pix_fmt, width, height, high, left, c);
    pixels::lemma_channel_is_moderate(frame, pix_fmt, width, height, high, right, c);
    lemma_within_blended(value(low, left), value(low, right), fx, 1021);
    lemma_within_blended(value(high, left), value(high, right), fx, 1021);
    let top = column_sample(frame, pix_fmt, width, height, low, x, c);
    let bottom = column_sample(frame, pix_fmt, width, height, high, x, c);
    lemma_within_blended(top, bottom, fy, 3063);
    lemma_rescaled_range(taps::blended(top, bottom, fy));
}

proof fn lemma_rescaled_range(n: Num)
    requires
        n is Finite,
    ensures
        rescaled(n) is Finite,
        0 <= rescaled(n).signed() <= num::one(),
{
    let one = num::one();
    vstd::arithmetic::power2::lemma_pow2_pos(149);
    rounding::lemma_whole_exact(0);
    rounding::lemma_whole_exact(1);
    rounding::lemma_whole_exact(255);
    assert(0 * one == 0 && 1 * one == one);
    arith::lemma_held_monotone(n, n, num::whole(0), num::whole(255));
    let held = n.held(num::whole(0), num::whole(255));
    let u = held->Finite_units;
    assert(u * one <= one * (255 * one)) by (nonlinear_arith)
        requires
            u <= 255 * one,
    ;
    rounding::lemma_nearest_at_most(u * one, 255 * one, one);
    if held.sign() {
        assert(u == 0);
        assert(0 * one == 0);
        rounding::lemma_nearest_at_most(0, 255 * one, 0);
    }
}

/// A channel that is the same all over the frame is the same all over the
/// tensor, rescaled: a stretch cannot invent detail.
pub proof fn lemma_flat_frame_stays_flat(
    frame: Seq<u8>,
    pix_fmt: PixFmt,
    width: nat,
    height: nat,
    value: Num,
    y: nat,
    x: nat,
    c: nat,
)
    requires
        stretchable(frame.len(), pix_fmt, width, height),
        height <= usize::MAX,
        forall|row: nat, column: nat|
            row < height && column < width ==> #[trigger] pixels::channel(
                frame,
                pix_fmt,
                width,
                height,
                row,
                column,
                c,
            ) == value,
        y < MODEL_H,
        x < MODEL_W,
        c < 3,
    ensures
        input_sample(frame, pix_fmt, width, height, y, x, c) == rescaled(value),
{
    let low = taps::tap_low(MODEL_H as nat, height, y);
    let high = taps::tap_high(MODEL_H as nat, height, y);
    let left = taps::tap_low(MODEL_W as nat, width, x);
    let right = taps::tap_high(MODEL_W as nat, width, x);
    let fx = taps::tap_fraction(MODEL_W as nat, width, x);
    let fy = taps::tap_fraction(MODEL_H as nat, height, y);
    taps::lemma_few_taps_in_source(MODEL_W as nat, width, x);
    taps::lemma_few_taps_in_source(MODEL_H as nat, height, y);
    lemma_stretch_fractions(frame.len(), pix_fmt, width, height, y, x);
    pixels::lemma_channel_is_moderate(frame, pix_fmt, width, height, low, left, c);
    assert(value == pixels::channel(frame, pix_fmt, width, height, low, left, c));
    taps::lemma_blended_with_itself(value, fx);
    assert(column_sample(frame, pix_fmt, width, height, low, x, c) == value);
    assert(column_sample(frame, pix_fmt, width, height, high, x, c) == value);
    taps::lemma_blended_with_itself(value, fy);
}

/// A byte `n` rescaled is the number nearest to `n / 255`.
pub proof fn lemma_byte_rescaled(n: u8)
    ensures
        rescaled(num::whole(n as nat)) == num::fraction(n as nat, 255),
{
    let one = num::one();
    vstd::arithmetic::power2::lemma_pow2_pos(149);
    rounding::lemma_whole_exact(0);
    rounding::lemma_whole_exact(n as nat);
    rounding::lemma_whole_exact(255);
    assert(0 * one == 0);
    assert(n as nat * one <= 255 * one) by (nonlinear_arith)
        requires
            n <= 255,
    ;
    rounding::lemma_nearest_factor(n as nat * one, 255, one);
}

/// A finite number rescaled: held to 0..255, and off by the rounding alone.
proof fn lemma_rescaled_near(n: Num)
    requires
        n is Finite,
    ensures
        rescaled(n) is Finite,
        ({
            let one = num::one() as int;
            let held = if n.signed() < 0 {
                0
            } else if n.signed() > 255 * one {
                255 * one
            } else {
                n.signed()
            };
            accuracy::near(255 * rescaled(n).signed(), held, 256 * accuracy::grain())
        }),
{
    let one = num::one();
    let g = accuracy::grain();
    accuracy::lemma_grain();
    lemma_rescaled_range(n);
    rounding::lemma_whole_exact(0);
    rounding::lemma_whole_exact(255);
    assert(0 * one == 0);
    let held = n.held(num::whole(0), num::whole(255));
    let u = held->Finite_units;
    let d = 255 * one;
    assert(d > 0);
    rounding::lemma_nearest_error(u * one, d);
    let r = num::nearest(u * one, d);
    assert(rescaled(n) == num::rounded(held.sign(), u * one, d));
    assert(held.sign() ==> u == 0);
    if u == 0 {
        assert(0 * one == 0);
        rounding::lemma_nearest_at_most(0, d, 0);
        assert(r == 0);
    }
    assert(rescaled(n).signed() == r);
    let o = 255 * r - u;
    assert(r * d - u * one == o * one) by (nonlinear_arith)
        requires
            d == 255 * one,
            o == 255 * r - u,
    ;
    assert(-256 * g <= o <= 256 * g) by (nonlinear_arith)
        requires
            0x100_0000 * (o * one) <= u * one + 0x80_0000 * (255 * one),
            0x100_0000 * (-(o * one)) <= u * one + 0x80_0000 * (255 * one),
            u <= 255 * one,
            one == 0x100_0000 * g,
            g >= 0x100_0000,
    ;
}

/// A tensor's sample is the frame's own picture there: the four pixels that
/// its place falls between, weighted by how near it lies to each, held to
/// 0..255 and rescaled to 0..1. It is exact to a hundredth of a level.
pub proof fn lemma_input_is_the_bilinear_mean(
    frame: Seq<u8>,
    pix_fmt: PixFmt,
    width: nat,
    height: nat,
    y: nat,
    x: nat,
    c: nat,
)
    requires
        stretchable(frame.len(), pix_fmt, width, height),
        height <= usize::MAX,
        y < 192,
        x < 320,
        c < 3,
    ensures
        input_sample(frame, pix_fmt, width, height, y, x, c) is Finite,
        ({
            let one = num::one() as int;
            let (above, below) = (taps::tap_low(192, height, y), taps::tap_high(192, height, y));
            let (left, right) = (taps::tap_low(320, width, x), taps::tap_high(320, width, x));
            let down = taps::tap_fraction(192, height, y).signed();
            let across = taps::tap_fraction(320, width, x).signed();
            let a = pixels::channel(frame, pix_fmt, width, height, above, left, c).signed();
            let b = pixels::channel(frame, pix_fmt, width, height, above, right, c).signed();
            let d = pixels::channel(frame, pix_fmt, width, height, below, left, c).signed();
            let e = pixels::channel(frame, pix_fmt, width, height, below, right, c).signed();
            let top = (one - across) * a + across * b;
            let bottom = (one - across) * d + across * e;
            let mean = (one - down) * top + down * bottom;
            let most = 255 * one * (one * one);
            let held = if mean < 0 {
                0
            } else if mean > most {
                most
            } else {
                mean
            };
            let sample = 255 * (one * one) * input_sample(
                frame,
                pix_fmt,
                width,
                height,
                y,
                x,
                c,
            ).signed();
            &&& 100 * (sample - held) <= one * (one * one)
            &&& 100 * (held - sample) <= one * (one * one)
        }),
{
    let one = num::one() as int;
    let g = accuracy::grain() as int;
    accuracy::lemma_grain();
    let (above, below) = (taps::tap_low(192, height, y), taps::tap_high(192, height, y));
    let (left, right) = (taps::tap_low(320, width, x), taps::tap_high(320, width, x));
    let fy = taps::tap_fraction(192, height, y);
    let fx = taps::tap_fraction(320, width, x);
    taps::lemma_few_taps_in_source(320, width, x);
    taps::lemma_few_taps_in_source(192, height, y);
    taps::lemma_fraction(320, width, x);
    taps::lemma_fraction(192, height, y);
    let value = |row: nat, column: nat|
        pixels::channel(frame, pix_fmt, width, height, row, column, c);
    pixels::lemma_channel_is_moderate(frame, pix_fmt, width, height, above, left, c);
    pixels::lemma_channel_is_moderate(frame, pix_fmt, width, height, above, right, c);
    pixels::lemma_channel_is_moderate(frame, pix_fmt, width, height, below, left, c);
    pixels::lemma_channel_is_moderate(frame, pix_fmt, width, height, below, right, c);
    taps::lemma_bilinear_near(
        value(above, left),
        value(above, right),
        value(below, left),
        value(below, right),
        fx,
        fy,
        1021,
    );
    let n = taps::blended(
        taps::blended(value(above, left), value(above, right), fx),
        taps::blended(value(below, left), value(below, right), fx),
        fy,
    );
    lemma_rescaled_near(n);
    let r = rescaled(n).signed();
    assert(input_sample(frame, pix_fmt, width, height, y, x, c) == rescaled(n));
    let v = n.signed();
    let top = (one - fx.signed()) * value(above, left).signed() + fx.signed() * value(
        above,
        right,
    ).signed();
    let bottom = (one - fx.signed()) * value(below, left).signed() + fx.signed() * value(
        below,
        right,
    ).signed();
    let mean = (one - fy.signed()) * top + fy.signed() * bottom;
    lemma_held_mean(one, g, v, r, mean);
}

/// What holding to 0..255 makes of a number that is near the mean.
proof fn lemma_held_mean(one: int, g: int, v: int, r: int, mean: int)
    requires
        one == 0x100_0000 * g,
        g > 0,
        -((32 * (1021 * g)) * (one * one)) <= (one * one) * v - mean <= (32 * (1021 * g)) * (one
            * one),
        ({
            let held = if v < 0 {
                0
            } else if v > 255 * one {
                255 * one
            } else {
                v
            };
            -256 * g <= 255 * r - held <= 256 * g
        }),
    ensures
        ({
            let most = 255 * one * (one * one);
            let held = if mean < 0 {
                0
            } else if mean > most {
                most
            } else {
                mean
            };
            let sample = 255 * (one * one) * r;
            &&& 100 * (sample - held) <= one * (one * one)
            &&& 100 * (held - sample) <= one * (one * one)
        }),
{
    let s = one * one;
    assert(s > 0) by (nonlinear_arith)
        requires
            s == one * one,
            one == 0x100_0000 * g,
            g > 0,
    ;
    let held = if v < 0 {
        0
    } else if v > 255 * one {
        255 * one
    } else {
        v
    };
    let gs = g * s;
    assert((32 * (1021 * g)) * s == 32672 * gs) by (nonlinear_arith)
        requires
            gs == g * s,
    ;
    let (vs, hs) = (s * v, s * held);
    let os = one * s;
    assert(os == 0x100_0000 * gs) by (nonlinear_arith)
        requires
            os == one * s,
            gs == g * s,
            one == 0x100_0000 * g,
    ;
    assert(gs >= 0) by (nonlinear_arith)
        requires
            gs == g * s,
            g > 0,
            s > 0,
    ;
    let ms = s * (255 * one);
    assert(ms == 255 * os) by (nonlinear_arith)
        requires
            ms == s * (255 * one),
            os == one * s,
    ;
    assert((v < 0 ==> vs <= 0) && (v > 255 * one ==> vs >= ms) && (v >= 0 ==> vs >= 0) && (v <= 255
        * one ==> vs <= ms)) by (nonlinear_arith)
        requires
            vs == s * v,
            ms == s * (255 * one),
            s > 0,
    ;
    assert(s * 0 == 0);
    let rs = s * (255 * r);
    let off = 255 * r - held;
    assert(rs - hs == s * off) by (nonlinear_arith)
        requires
            rs == s * (255 * r),
            hs == s * held,
            off == 255 * r - held,
    ;
    assert(-(256 * gs) <= s * off <= 256 * gs) by (nonlinear_arith)
        requires
            -256 * g <= off <= 256 * g,
            gs == g * s,
            s > 0,
    ;
    assert(255 * s * r == rs) by (nonlinear_arith)
        requires
            rs == s * (255 * r),
    ;
    assert(255 * one * s == 255 * os) by (nonlinear_arith)
        requires
            os == one * s,
    ;
}

/// The picture stays the right way up and the right way round: a later row or
/// column of the tensor never reads from an earlier row or column of the
/// frame than an earlier one does.
pub proof fn lemma_stretch_keeps_order(extent: nat, count: nat, step: nat, later: nat)
    requires
        step <= later < count <= 0x1000,
        0 < extent <= usize::MAX,
    ensures
        taps::tap_low(count, extent, step) <= taps::tap_low(count, extent, later),
        taps::tap_high(count, extent, step) <= taps::tap_high(count, extent, later),
{
    let one = num::one();
    vstd::arithmetic::power2::lemma_pow2_pos(149);
    taps::lemma_few_taps_in_source(count, extent, step);
    taps::lemma_few_taps_in_source(count, extent, later);
    taps::lemma_taps_straddle_position(count, extent, step);
    taps::lemma_taps_straddle_position(count, extent, later);
    taps::lemma_positions_ordered(count, extent, step, later);
    let (a, b) = (taps::tap_low(count, extent, step), taps::tap_low(count, extent, later));
    let (p, q) = (
        taps::tap_position(count, extent, step).signed(),
        taps::tap_position(count, extent, later).signed(),
    );
    assert(a <= b) by (nonlinear_arith)
        requires
            a * one <= p <= q < (b + 1) * one,
            one > 0,
    ;
}

/// Where a channel is the same all over the frame's rows and columns that a
/// sample's place falls between, the sample is that value, rescaled. With
/// [`lemma_stretch_keeps_order`], a band across the top of the frame is a
/// band across the top of the tensor.
pub proof fn lemma_flat_neighbourhood_stays_flat(
    frame: Seq<u8>,
    pix_fmt: PixFmt,
    width: nat,
    height: nat,
    value: Num,
    y: nat,
    x: nat,
    c: nat,
)
    requires
        stretchable(frame.len(), pix_fmt, width, height),
        height <= usize::MAX,
        forall|row: nat, column: nat|
            taps::tap_low(192, height, y) <= row <= taps::tap_low(192, height, y) + 1 && row
                < height && taps::tap_low(320, width, x) <= column <= taps::tap_low(320, width, x)
                + 1 && column < width ==> #[trigger] pixels::channel(
                frame,
                pix_fmt,
                width,
                height,
                row,
                column,
                c,
            ) == value,
        y < 192,
        x < 320,
        c < 3,
    ensures
        rescaled(value) == input_sample(frame, pix_fmt, width, height, y, x, c),
{
    let low = taps::tap_low(192, height, y);
    let high = taps::tap_high(192, height, y);
    let left = taps::tap_low(320, width, x);
    let right = taps::tap_high(320, width, x);
    let fx = taps::tap_fraction(320, width, x);
    let fy = taps::tap_fraction(192, height, y);
    taps::lemma_few_taps_in_source(320, width, x);
    taps::lemma_few_taps_in_source(192, height, y);
    lemma_stretch_fractions(frame.len(), pix_fmt, width, height, y, x);
    pixels::lemma_channel_is_moderate(frame, pix_fmt, width, height, low, left, c);
    assert(value == pixels::channel(frame, pix_fmt, width, height, low, left, c));
    assert(value == pixels::channel(frame, pix_fmt, width, height, low, right, c));
    assert(value == pixels::channel(frame, pix_fmt, width, height, high, left, c));
    assert(value == pixels::channel(frame, pix_fmt, width, height, high, right, c));
    taps::lemma_blended_with_itself(value, fx);
    taps::lemma_blended_with_itself(value, fy);
}

/// The same of an rgba frame, over its bytes: where the pixels about the
/// place have the byte `value` in a channel, the sample is the number nearest
/// to `value / 255`.
pub proof fn lemma_flat_rgba_neighbourhood_stays_flat(
    frame: Seq<u8>,
    width: nat,
    height: nat,
    value: u8,
    y: nat,
    x: nat,
    c: nat,
)
    requires
        width > 0,
        0 < height <= usize::MAX,
        width * 3 <= usize::MAX,
        4 * (width * height) <= frame.len(),
        forall|row: int, column: int|
            taps::tap_low(192, height, y) <= row <= taps::tap_low(192, height, y) + 1 && row
                < height && taps::tap_low(320, width, x) <= column <= taps::tap_low(320, width, x)
                + 1 && column < width ==> #[trigger] frame[4 * (row * width + column) + c] == value,
        y < 192,
        x < 320,
        c < 3,
    ensures
        input_sample(frame, PixFmt::Rgba, width, height, y, x, c) == num::fraction(
            value as nat,
            255,
        ),
{
    lemma_whole_frame_stretchable(frame.len(), PixFmt::Rgba, width, height);
    let low = taps::tap_low(192, height, y);
    let left = taps::tap_low(320, width, x);
    assert forall|row: nat, column: nat|
        low <= row <= low + 1 && row < height && left <= column <= left + 1 && column
            < width implies #[trigger] pixels::channel(
        frame,
        PixFmt::Rgba,
        width,
        height,
        row,
        column,
        c,
    ) == num::whole(value as nat) by {
        let (r, k) = (row as int, column as int);
        assert(frame[4 * (r * width + k) + c] == value);
        assert(4 * (r * width + k) + c == (row * width + column) * 4 + c);
    }
    lemma_flat_neighbourhood_stays_flat(
        frame,
        PixFmt::Rgba,
        width,
        height,
        num::whole(value as nat),
        y,
        x,
        c,
    );
    lemma_byte_rescaled(value);
}

/// A frame of the model's own size is not resampled: each sample is the pixel
/// at the same row and column, rescaled.
pub proof fn lemma_model_sized_frame_is_kept(
    frame: Seq<u8>,
    pix_fmt: PixFmt,
    y: nat,
    x: nat,
    c: nat,
)
    requires
        stretchable(frame.len(), pix_fmt, 320, 192),
        y < 192,
        x < 320,
        c < 3,
    ensures
        input_sample(frame, pix_fmt, 320, 192, y, x, c) == rescaled(
            pixels::channel(frame, pix_fmt, 320, 192, y, x, c),
        ),
        pix_fmt is Rgba ==> input_sample(frame, pix_fmt, 320, 192, y, x, c) == num::fraction(
            frame[(4 * (320 * y + x) + c) as int] as nat,
            255,
        ),
{
    taps::lemma_identity_reads_squarely(320, x);
    taps::lemma_identity_reads_squarely(192, y);
    let right = taps::tap_high(320, 320, x);
    let below = taps::tap_high(192, 192, y);
    rounding::lemma_whole_exact(0);
    assert(0 * num::one() == 0);
    let nothing = num::whole(0);
    let value = |row: nat, column: nat|
        pixels::channel(frame, pix_fmt, 320, 192, row, column, c);
    pixels::lemma_channel_is_moderate(frame, pix_fmt, 320, 192, y, x, c);
    pixels::lemma_channel_is_moderate(frame, pix_fmt, 320, 192, y, right, c);
    pixels::lemma_channel_is_moderate(frame, pix_fmt, 320, 192, below, x, c);
    pixels::lemma_channel_is_moderate(frame, pix_fmt, 320, 192, below, right, c);
    taps::lemma_blended_by_nothing(value(y, x), value(y, right), nothing, 1021);
    taps::lemma_blended_by_nothing(value(below, x), value(below, right), nothing, 1021);
    taps::lemma_blended_by_nothing(value(y, x), value(below, x), nothing, 1021);
    assert(column_sample(frame, pix_fmt, 320, 192, y, x, c) == value(y, x));
    assert(column_sample(frame, pix_fmt, 320, 192, below, x, c) == value(below, x));
    if pix_fmt is Rgba {
        lemma_byte_rescaled(frame[(4 * (320 * y + x) + c) as int]);
    }
}

/// Whole frames can be stretched: an rgba frame of four bytes to the pixel,
/// and a yuv420p frame of one byte to the pixel and two chroma planes of half
/// the rows and columns, rounded up.
pub proof fn lemma_sized_frames_can_be_stretched(len: nat, width: nat, height: nat)
    requires
        0 < width,
        width * 3 <= usize::MAX,
        0 < height <= usize::MAX,
    ensures
        4 * (width * height) <= len ==> stretchable(len, PixFmt::Rgba, width, height),
        width * height + 2 * (((width + 1) / 2) * ((height + 1) / 2)) <= len ==> stretchable(
            len,
            PixFmt::Yuv420p,
            width,
            height,
        ),
{
    assert(pixels::halved(width) == (width + 1) / 2);
    assert(pixels::halved(height) == (height + 1) / 2);
    if 4 * (width * height) <= len {
        lemma_whole_frame_stretchable(len, PixFmt::Rgba, width, height);
    }
    if width * height + 2 * (((width + 1) / 2) * ((height + 1) / 2)) <= len {
        lemma_whole_frame_stretchable(len, PixFmt::Yuv420p, width, height);
    }
}

/// A resize of a row fills as many of the model's 320 columns as it has taps
/// for, each with the weighted mean of the two samples that its taps name.
pub proof fn lemma_resized_is_the_mean(
    rgb: Seq<Single>,
    columns: Taps,
    width: nat,
    c: nat,
    i: nat,
    most: nat,
)
    requires
        i < 320,
        i < columns.low@.len(),
        i < columns.high@.len(),
        i < columns.fraction@.len(),
        0 < most <= 0x10_0000,
        ({
            let a = rgb[(c * width + columns.low@[i as int]) as int]@;
            let b = rgb[(c * width + columns.high@[i as int]) as int]@;
            let t = columns.fraction@[i as int]@;
            &&& a is Finite && b is Finite && t is Finite
            &&& -(most * num::one()) <= a.signed() <= most * num::one()
            &&& -(most * num::one()) <= b.signed() <= most * num::one()
            &&& 0 <= t.signed() <= num::one()
        }),
    ensures
        i < filled(columns),
        resized(rgb, columns, width, c, i) is Finite,
        ({
            let one = num::one() as int;
            let a = rgb[(c * width + columns.low@[i as int]) as int]@.signed();
            let b = rgb[(c * width + columns.high@[i as int]) as int]@.signed();
            let t = columns.fraction@[i as int]@.signed();
            let mean = (one - t) * a + t * b;
            let value = one * resized(rgb, columns, width, c, i).signed();
            &&& 0x20_0000 * (value - mean) <= (most * one) * one
            &&& 0x20_0000 * (mean - value) <= (most * one) * one
        }),
{
    taps::lemma_blended_is_the_mean(
        rgb[(c * width + columns.low@[i as int]) as int]@,
        rgb[(c * width + columns.high@[i as int]) as int]@,
        columns.fraction@[i as int]@,
        most,
    );
}

/// What a stretch reads ends with the row below its last one: a frame can be
/// stretched where its bytes reach that far, and only there. In yuv420p they
/// reach through the luma and the first chroma plane to the second's sample
/// of that row.
pub proof fn lemma_stretch_reads_to_its_last_row(len: nat, width: nat, height: nat)
    requires
        0 < width,
        width * 3 <= usize::MAX,
        0 < height <= usize::MAX,
    ensures
        ({
            let last = taps::tap_high(192, height, 191);
            let (columns, rows) = ((width + 1) / 2, (height + 1) / 2);
            &&& last < height
            &&& stretchable(len, PixFmt::Rgba, width, height) <==> 4 * ((last + 1) * width) <= len
            &&& stretchable(len, PixFmt::Yuv420p, width, height) <==> (last + 1) * width <= len
                && width * height + columns * rows + (last / 2 + 1) * columns <= len
        }),
{
    let last = taps::tap_high(192, height, 191);
    let (columns, rows) = ((width + 1) / 2, (height + 1) / 2);
    taps::lemma_few_taps_in_source(192, height, 191);
    assert(pixels::halved(width) == columns && pixels::halved(height) == rows);
    assert((last / 2 + 1) * columns == (last / 2) * columns + columns) by (nonlinear_arith);
    assert((last + 1) * width * 4 == 4 * ((last + 1) * width));
    assert(taps::tap_low(192, height, 191) <= last);
    assert forall|y: nat| #![trigger taps::tap_low(192, height, y)]
        y < 192 implies taps::tap_low(192, height, y) <= taps::tap_high(192, height, y) <= last by {
        taps::lemma_few_taps_in_source(192, height, y);
        lemma_stretch_keeps_order(height, 192, y, 191);
    }
    assert forall|row: nat|
        row <= last && 4 * ((last + 1) * width) <= len implies #[trigger] pixels::row_readable(
        len,
        PixFmt::Rgba,
        width,
        height,
        row,
    ) by {
        assert((row + 1) * width <= (last + 1) * width) by (nonlinear_arith)
            requires
                row <= last,
        ;
    }
    assert forall|row: nat|
        row <= last && (last + 1) * width <= len && width * height + columns * rows + (last / 2 + 1)
            * columns <= len implies #[trigger] pixels::row_readable(
        len,
        PixFmt::Yuv420p,
        width,
        height,
        row,
    ) by {
        assert((row + 1) * width <= (last + 1) * width) by (nonlinear_arith)
            requires
                row <= last,
        ;
        let (a, b) = (row / 2, last / 2);
        assert(a * columns <= b * columns) by (nonlinear_arith)
            requires
                a <= b,
        ;
    }
    if stretchable(len, PixFmt::Rgba, width, height) {
        let low = taps::tap_low(MODEL_H as nat, height, 191);
        assert(pixels::row_readable(len, PixFmt::Rgba, width, height, last));
    }
    if stretchable(len, PixFmt::Yuv420p, width, height) {
        let low = taps::tap_low(MODEL_H as nat, height, 191);
        assert(pixels::row_readable(len, PixFmt::Yuv420p, width, height, last));
    }
}

} // verus!

//! The alpha that comes back from the graph.

use crate::accuracy;
use crate::arith;
use crate::model::{MODEL_H, MODEL_PLANE, MODEL_W};
use crate::num;
use crate::num::Num;
use crate::rounding;
use crate::single;
use crate::single::Single;
use crate::taps;
use crate::taps::Taps;
use crate::text;
use vstd::arithmetic::div_mod::*;
use vstd::arithmetic::power2::*;
use vstd::prelude::*;

verus! {

/// A tensor's floats, out of the little-endian bytes it arrived as.
pub fn le_f32s(data: &[u8]) -> (r: Vec<Single>)
    ensures
        r@.len() == data@.len() / 4,
        forall|i: int|
            0 <= i < data@.len() / 4 ==> #[trigger] r@[i].bits == single::le_word(
                data@[4 * i],
                data@[4 * i + 1],
                data@[4 * i + 2],
                data@[4 * i + 3],
            ),
        forall|i: int|
            0 <= i < data@.len() / 4 ==> #[trigger] r@[i].bits == data@[4 * i] + 0x100 * data@[4 * i
                + 1] + 0x1_0000 * data@[4 * i + 2] + 0x100_0000 * data@[4 * i + 3],
{
    let mut r: Vec<Single> = Vec::new();
    let n: usize = data.len() / 4;
    for i in 0..n
        invariant
            n == data@.len() / 4,
            data@.len() <= usize::MAX,
            r@.len() == i,
            forall|j: int|
                0 <= j < i ==> #[trigger] r@[j].bits == single::le_word(
                    data@[4 * j],
                    data@[4 * j + 1],
                    data@[4 * j + 2],
                    data@[4 * j + 3],
                ),
    {
        let at: usize = 4 * i;
        r.push(Single::from_le_bytes(data[at], data[at + 1], data[at + 2], data[at + 3]));
    }
    r
}

/// The shape of the alpha: the trailing two dimensions are the model's own
/// plane and the leading ones are all 1.
pub open spec fn is_alpha(dimensions: Seq<u32>) -> bool {
    let n = dimensions.len();
    &&& n >= 2
    &&& dimensions[n - 2] == MODEL_H
    &&& dimensions[n - 1] == MODEL_W
    &&& forall|i: int| 0 <= i < n - 2 ==> dimensions[i] == 1
}

/// Whether a shape is the alpha's.
pub fn has_alpha_shape(dimensions: &Vec<u32>) -> (r: bool)
    ensures
        r == is_alpha(dimensions@),
        r ==> dimensions@.len() >= 2 && dimensions@[dimensions@.len() - 2] == 192
            && dimensions@[dimensions@.len() - 1] == 320,
        r ==> forall|i: int| 0 <= i < dimensions@.len() - 2 ==> dimensions@[i] == 1,
{
    let n: usize = dimensions.len();
    if n < 2 || dimensions[n - 2] as usize != MODEL_H || dimensions[n - 1] as usize != MODEL_W {
        return false;
    }
    for i in 0..n - 2
        invariant
            2 <= n == dimensions@.len(),
            forall|j: int| 0 <= j < i ==> dimensions@[j] == 1,
    {
        if dimensions[i] != 1 {
            return false;
        }
    }
    true
}

/// How many samples a tensor of these dimensions holds.
pub open spec fn sample_count(dimensions: Seq<u32>) -> int
    decreases dimensions.len(),
{
    if dimensions.len() == 0 {
        1
    } else {
        dimensions.last() * sample_count(dimensions.drop_last())
    }
}

/// The alpha is the model's own plane, once: of the shapes that end in 192
/// rows of 320 columns, those that hold no more and no fewer samples than
/// that. A picture of three channels, or a batch of two, is never the alpha.
pub proof fn lemma_alpha_is_one_plane(dimensions: Seq<u32>)
    ensures
        is_alpha(dimensions) <==> {
            &&& dimensions.len() >= 2
            &&& dimensions[dimensions.len() - 2] == 192
            &&& dimensions[dimensions.len() - 1] == 320
            &&& sample_count(dimensions) == 192 * 320
        },
{
    let n = dimensions.len();
    if n >= 2 && dimensions[n - 2] == 192 && dimensions[n - 1] == 320 {
        let rest = dimensions.take(n - 2);
        assert(dimensions.drop_last().drop_last() =~= rest);
        reveal_with_fuel(sample_count, 3);
        assert(sample_count(dimensions) == 320 * (192 * sample_count(rest)));
        lemma_one_sample(rest);
        if is_alpha(dimensions) {
            assert forall|i: int| 0 <= i < rest.len() implies rest[i] == 1 by {
                assert(dimensions[i] == 1);
            }
        } else {
            let i = choose|i: int| 0 <= i < n - 2 && dimensions[i] != 1;
            assert(rest[i] != 1);
        }
    }
}

/// One sample is held where every dimension is 1, and nowhere else.
proof fn lemma_one_sample(dimensions: Seq<u32>)
    ensures
        sample_count(dimensions) >= 0,
        sample_count(dimensions) == 1 <==> forall|i: int|
            0 <= i < dimensions.len() ==> dimensions[i] == 1,
    decreases dimensions.len(),
{
    if dimensions.len() > 0 {
        let rest = dimensions.drop_last();
        let (a, b) = (dimensions.last() as int, sample_count(rest));
        lemma_one_sample(rest);
        assert(a * b >= 0 && (a * b == 1 <==> a == 1 && b == 1)) by (nonlinear_arith)
            requires
                a >= 0,
                b >= 0,
        ;
        if forall|i: int| 0 <= i < dimensions.len() ==> dimensions[i] == 1 {
            assert forall|i: int| 0 <= i < rest.len() implies rest[i] == 1 by {
                assert(dimensions[i] == 1);
            }
        }
        if a == 1 && b == 1 {
            assert forall|i: int| 0 <= i < dimensions.len() implies dimensions[i] == 1 by {
                if i < rest.len() {
                    assert(rest[i] == 1);
                }
            }
        }
    }
}

/// The shapes, each as its dimensions.
pub open spec fn dimensions_of(shapes: Seq<Vec<u32>>) -> Seq<Seq<u32>> {
    shapes.map_values(|shape: Vec<u32>| shape@)
}

/// A shape as a message names it, `[1, 1, 192, 320]`.
pub open spec fn shape_text(dimensions: Seq<u32>) -> Seq<char> {
    text::listed(dimensions.map_values(|d: u32| text::decimal(d as nat)))
}

/// Shapes as a message names them, `[[1, 1, 192, 320], [1, 4]]`.
pub open spec fn shapes_text(shapes: Seq<Seq<u32>>) -> Seq<char> {
    text::listed(shapes.map_values(|dimensions: Seq<u32>| shape_text(dimensions)))
}

/// What is said where no returned tensor is the alpha.
pub open spec fn no_alpha_text(shapes: Seq<Seq<u32>>) -> Seq<char> {
    "matte: the graph returned "@ + shapes_text(shapes)
        + ", and this module wants the [1, 1, 192, 320] alpha of longpipe's small export"@
}

fn append_shape(out: &mut String, dimensions: &Vec<u32>)
    ensures
        final(out)@ == old(out)@ + shape_text(dimensions@),
{
    let ghost parts = dimensions@.map_values(|d: u32| text::decimal(d as nat));
    let ghost start = old(out)@ + "["@;
    out.append("[");
    for i in 0..dimensions.len()
        invariant
            parts == dimensions@.map_values(|d: u32| text::decimal(d as nat)),
            out@ == start + text::joined(parts.take(i as int)),
    {
        if i > 0 {
            out.append(", ");
        }
        text::append_decimal(out, dimensions[i]);
        proof {
            text::lemma_joined_next(parts, i as int);
            assert(out@ =~= start + text::joined(parts.take(i + 1)));
        }
    }
    assert(parts.take(dimensions@.len() as int) =~= parts);
    out.append("]");
    assert(out@ =~= old(out)@ + shape_text(dimensions@));
}

fn no_alpha_message(shapes: &[Vec<u32>]) -> (out: String)
    ensures
        out@ == no_alpha_text(dimensions_of(shapes@)),
{
    let ghost all = dimensions_of(shapes@);
    let ghost parts = all.map_values(|dimensions: Seq<u32>| shape_text(dimensions));
    let ghost start = "matte: the graph returned "@ + "["@;
    let mut out = "matte: the graph returned ".to_string();
    out.append("[");
    for i in 0..shapes.len()
        invariant
            all == dimensions_of(shapes@),
            parts == all.map_values(|dimensions: Seq<u32>| shape_text(dimensions)),
            out@ == start + text::joined(parts.take(i as int)),
    {
        if i > 0 {
            out.append(", ");
        }
        append_shape(&mut out, &shapes[i]);
        proof {
            text::lemma_joined_next(parts, i as int);
            assert(out@ =~= start + text::joined(parts.take(i + 1)));
        }
    }
    assert(parts.take(shapes@.len() as int) =~= parts);
    out.append("]");
    out.append(", and this module wants the [1, 1, 192, 320] alpha of longpipe's small export");
    assert(out@ =~= no_alpha_text(all));
    out
}

/// Which returned tensor is the alpha, by shape: the one whose trailing two
/// dimensions are the model's own 192x320 plane and whose leading ones are
/// all 1. Names are not read, so an export that spells its output
/// differently still resolves.
pub fn output(shapes: &[Vec<u32>]) -> (r: Result<usize, String>)
    ensures
        match r {
            Ok(alpha) => {
                &&& alpha < shapes@.len()
                &&& is_alpha(shapes@[alpha as int]@)
                &&& forall|i: int| 0 <= i < alpha ==> !is_alpha(#[trigger] shapes@[i]@)
                &&& shapes@[alpha as int]@.len() >= 2
                &&& shapes@[alpha as int]@[shapes@[alpha as int]@.len() - 2] == 192
                &&& shapes@[alpha as int]@[shapes@[alpha as int]@.len() - 1] == 320
                &&& forall|k: int|
                    0 <= k < shapes@[alpha as int]@.len() - 2 ==> #[trigger] shapes@[alpha as int]@[k]
                        == 1
                &&& forall|i: int|
                    0 <= i < alpha ==> {
                        let shape = (#[trigger] shapes@[i])@;
                        ||| shape.len() < 2
                        ||| shape[shape.len() - 2] != 192
                        ||| shape[shape.len() - 1] != 320
                        ||| exists|k: int| 0 <= k < shape.len() - 2 && shape[k] != 1
                    }
            },
            Err(message) => {
                &&& forall|i: int| 0 <= i < shapes@.len() ==> !is_alpha(#[trigger] shapes@[i]@)
                &&& message@ == no_alpha_text(dimensions_of(shapes@))
                &&& forall|i: int|
                    0 <= i < shapes@.len() ==> {
                        let shape = (#[trigger] shapes@[i])@;
                        ||| shape.len() < 2
                        ||| shape[shape.len() - 2] != 192
                        ||| shape[shape.len() - 1] != 320
                        ||| exists|k: int| 0 <= k < shape.len() - 2 && shape[k] != 1
                    }
            },
        },
{
    for i in 0..shapes.len()
        invariant
            forall|j: int| 0 <= j < i ==> !is_alpha(#[trigger] shapes@[j]@),
    {
        if has_alpha_shape(&shapes[i]) {
            return Ok(i);
        }
    }
    Err(no_alpha_message(shapes))
}

/// An alpha as 8-bit gray: 255 times it, rounded, halves away from zero, and
/// held to 0..255; what is no number is 0.
#[verifier::opaque]
pub open spec fn gray(alpha: Num) -> nat {
    alpha.times(num::whole(255)).to_nearest_whole().held(num::whole(0), num::whole(255)).whole_part(
        255,
    )
}

fn to_gray(alpha: &Single) -> (r: u8)
    ensures
        r == gray(alpha@),
{
    reveal(gray);
    let least = Single::from_u8(0);
    let most = Single::from_u8(255);
    alpha.times(&most).to_nearest_whole().held(&least, &most).whole_part(255) as u8
}

/// The alpha's row `y` read at the column `x` of `width`.
pub open spec fn alpha_across(alpha: Seq<Num>, width: nat, y: nat, x: nat) -> Num {
    let low = taps::tap_low(width, MODEL_W as nat, x);
    let high = taps::tap_high(width, MODEL_W as nat, x);
    taps::blended(
        alpha[y * MODEL_W + low],
        alpha[y * MODEL_W + high],
        taps::tap_fraction(width, MODEL_W as nat, x),
    )
}

/// The model's alpha brought onto a frame of `width` and `height`, at `x`,
/// `y`.
pub open spec fn alpha_at(alpha: Seq<Num>, width: nat, height: nat, y: nat, x: nat) -> Num {
    taps::blended(
        alpha_across(alpha, width, taps::tap_low(height, MODEL_H as nat, y), x),
        alpha_across(alpha, width, taps::tap_high(height, MODEL_H as nat, y), x),
        taps::tap_fraction(height, MODEL_H as nat, y),
    )
}

/// The values of the numbers.
pub open spec fn values(numbers: Seq<Single>) -> Seq<Num> {
    numbers.map_values(|n: Single| n@)
}

/// The model's alpha on a frame of `width` and `height`, as 8-bit gray, row
/// by row.
pub open spec fn matte_map(alpha: Seq<Num>, width: nat, height: nat) -> Seq<u8> {
    Seq::new(
        width * height,
        |i: int|
            gray(
                alpha_at(alpha, width, height, (i / width as int) as nat, (i % width as int) as nat),
            ) as u8,
    )
}

/// `len` samples hold every row that a resize to `height` rows reads.
pub open spec fn alpha_covers(len: nat, height: nat) -> bool {
    forall|y: nat| #![trigger taps::tap_low(height, MODEL_H as nat, y)]
        y < height ==> {
            &&& (taps::tap_low(height, MODEL_H as nat, y) + 1) * MODEL_W <= len
            &&& (taps::tap_high(height, MODEL_H as nat, y) + 1) * MODEL_W <= len
        }
}

/// A whole plane covers a frame of any height.
pub proof fn lemma_plane_covers(len: nat, height: nat)
    requires
        len >= MODEL_PLANE,
    ensures
        alpha_covers(len, height),
{
    assert forall|y: nat| #![trigger taps::tap_low(height, MODEL_H as nat, y)]
        y < height implies {
        &&& (taps::tap_low(height, MODEL_H as nat, y) + 1) * MODEL_W <= len
        &&& (taps::tap_high(height, MODEL_H as nat, y) + 1) * MODEL_W <= len
    } by {
        taps::lemma_taps_in_source(height, MODEL_H as nat, y);
    }
}

/// Whether `len` samples hold every row that a resize to `height` rows reads.
pub fn can_cover(len: usize, height: usize) -> (r: bool)
    ensures
        r == alpha_covers(len as nat, height as nat),
{
    for y in 0..height
        invariant
            forall|k: nat| #![trigger taps::tap_low(height as nat, MODEL_H as nat, k)]
                k < y ==> {
                    &&& (taps::tap_low(height as nat, MODEL_H as nat, k) + 1) * MODEL_W <= len
                    &&& (taps::tap_high(height as nat, MODEL_H as nat, k) + 1) * MODEL_W <= len
                },
    {
        proof {
            taps::lemma_taps_in_source(height as nat, MODEL_H as nat, y as nat);
        }
        let low: usize = taps::low_tap(height, MODEL_H, y);
        let high: usize = taps::sample_after(low, MODEL_H);
        if (low + 1) * MODEL_W > len || (high + 1) * MODEL_W > len {
            return false;
        }
    }
    true
}

/// The model's alpha brought onto the frame's own geometry, bilinearly, as
/// 8-bit gray.
pub fn upscale_alpha(alpha: &[Single], width: usize, height: usize) -> (map: Vec<u8>)
    requires
        width * height <= usize::MAX,
        alpha@.len() >= MODEL_PLANE || alpha_covers(alpha@.len(), height as nat),
    ensures
        map@ == matte_map(values(alpha@), width as nat, height as nat),
        map@.len() == width * height,
{
    let ghost (w, h) = (width as nat, height as nat);
    proof {
        if alpha@.len() >= MODEL_PLANE {
            lemma_plane_covers(alpha@.len(), h);
        }
    }
    let columns = Taps::build(width, MODEL_W);
    let rows = Taps::build(height, MODEL_H);
    let mut map: Vec<u8> = Vec::new();
    assert(0 * width == 0);
    for y in 0..height
        invariant
            w == width,
            h == height,
            width * height <= usize::MAX,
            alpha_covers(alpha@.len(), h),
            columns.holds(w, MODEL_W as nat, w),
            rows.holds(h, MODEL_H as nat, h),
            map@.len() == y * width,
            forall|j: nat, x: nat|
                j < y && x < w ==> map@[j * width + x] == gray(
                    #[trigger] alpha_at(values(alpha@), w, h, j, x),
                ),
    {
        proof {
            assert(y * width + width <= height * width) by (nonlinear_arith)
                requires
                    y < height,
            ;
            assert(height * width == width * height) by (nonlinear_arith);
            assert((y + 1) * width == y * width + width) by (nonlinear_arith);
        }
        let ghost before = map@;
        upscale_row(
            alpha,
            &columns,
            width,
            height,
            y,
            rows.low[y],
            rows.high[y],
            &rows.fraction[y],
            &mut map,
        );
        assert forall|j: nat, x: nat| j < y + 1 && x < w implies map@[j * width + x] == gray(
            #[trigger] alpha_at(values(alpha@), w, h, j, x),
        ) by {
            if j < y {
                assert(j * width + width <= y * width) by (nonlinear_arith)
                    requires
                        j < y,
                ;
                assert(0 <= j * width) by (nonlinear_arith);
                assert(map@[j * width + x] == before[j * width + x]);
            }
        }
    }
    proof {
        lemma_map_filled(map@, values(alpha@), w, h);
    }
    map
}

/// A map filled row by row is the whole map.
proof fn lemma_map_filled(map: Seq<u8>, alpha: Seq<Num>, width: nat, height: nat)
    requires
        map.len() == height * width,
        forall|j: nat, x: nat|
            j < height && x < width ==> map[(j * width + x) as int] == gray(
                #[trigger] alpha_at(alpha, width, height, j, x),
            ),
    ensures
        map == matte_map(alpha, width, height),
{
    let expected = matte_map(alpha, width, height);
    assert(height * width == width * height) by (nonlinear_arith);
    assert forall|i: int| 0 <= i < width * height implies map[i] == expected[i] by {
        lemma_row_and_column(i as nat, width, height);
        let (y, x) = ((i / width as int) as nat, (i % width as int) as nat);
        assert(map[(y * width + x) as int] == gray(alpha_at(alpha, width, height, y, x)));
    }
    assert(map =~= expected);
}

/// The place `i` of a map lies in a row and a column of it.
pub proof fn lemma_row_and_column(i: nat, width: nat, height: nat)
    requires
        i < width * height,
    ensures
        width > 0,
        i / width < height,
        i % width < width,
        i == (i / width) * width + i % width,
{
    assert(width > 0) by (nonlinear_arith)
        requires
            i < width * height,
    ;
    lemma_fundamental_div_mod(i as int, width as int);
    lemma_mod_bound(i as int, width as int);
    assert(width * (i / width) == (i / width) * width) by (nonlinear_arith);
    assert(i / width < height) by (nonlinear_arith)
        requires
            i < width * height,
            i >= (i / width) * width,
            width > 0,
    ;
}

/// One more row of the map.
fn upscale_row(
    alpha: &[Single],
    columns: &Taps,
    width: usize,
    height: usize,
    y: usize,
    low_row: usize,
    high_row: usize,
    ty: &Single,
    map: &mut Vec<u8>,
)
    requires
        y < height,
        old(map)@.len() + width <= usize::MAX,
        columns.holds(width as nat, MODEL_W as nat, width as nat),
        alpha_covers(alpha@.len(), height as nat),
        low_row == taps::tap_low(height as nat, MODEL_H as nat, y as nat),
        high_row == taps::tap_high(height as nat, MODEL_H as nat, y as nat),
        ty@ == taps::tap_fraction(height as nat, MODEL_H as nat, y as nat),
    ensures
        final(map)@.len() == old(map)@.len() + width,
        forall|i: int| 0 <= i < old(map)@.len() ==> final(map)@[i] == old(map)@[i],
        forall|x: nat|
            x < width ==> final(map)@[(old(map)@.len() + x) as int] == gray(
                #[trigger] alpha_at(values(alpha@), width as nat, height as nat, y as nat, x),
            ),
{
    let ghost (w, h) = (width as nat, height as nat);
    let ghost all = values(alpha@);
    let ghost start = old(map)@.len();
    let size: usize = alpha.len();
    assert((low_row + 1) * MODEL_W <= size && (high_row + 1) * MODEL_W <= size);
    let top: usize = low_row * MODEL_W;
    let bottom: usize = high_row * MODEL_W;
    for x in 0..width
        invariant
            w == width,
            h == height,
            y < height,
            start == old(map)@.len(),
            all == values(alpha@),
            size == alpha@.len(),
            top == low_row * MODEL_W,
            bottom == high_row * MODEL_W,
            top + MODEL_W <= size,
            bottom + MODEL_W <= size,
            columns.holds(w, MODEL_W as nat, w),
            low_row == taps::tap_low(h, MODEL_H as nat, y as nat),
            high_row == taps::tap_high(h, MODEL_H as nat, y as nat),
            ty@ == taps::tap_fraction(h, MODEL_H as nat, y as nat),
            map@.len() == start + x,
            forall|i: int| 0 <= i < start ==> map@[i] == old(map)@[i],
            forall|k: nat|
                k < x ==> map@[(start + k) as int] == gray(#[trigger] alpha_at(all, w, h, y as nat, k)),
    {
        let low: usize = columns.low[x];
        let high: usize = columns.high[x];
        let fx = columns.fraction[x];
        proof {
            taps::lemma_taps_in_source(w, MODEL_W as nat, x as nat);
        }
        let a = taps::blend(&alpha[top + low], &alpha[top + high], &fx);
        let b = taps::blend(&alpha[bottom + low], &alpha[bottom + high], &fx);
        assert(a@ == alpha_across(all, w, low_row as nat, x as nat));
        assert(b@ == alpha_across(all, w, high_row as nat, x as nat));
        map.push(to_gray(&taps::blend(&a, &b, ty)));
    }
}

/// The nearest whole number, of a magnitude.
spec fn nearest_whole(units: nat) -> nat {
    ((2 * units + num::one()) / (2 * num::one())) * num::one()
}

proof fn lemma_nearest_whole_monotone(a: nat, b: nat)
    requires
        a <= b <= num::past_finite(),
    ensures
        nearest_whole(a) <= nearest_whole(b) <= num::past_finite(),
{
    let one = num::one();
    let past = num::past_finite();
    lemma_pow2_pos(149);
    lemma_pow2_adds(128, 149);
    assert(past == pow2(128) * one);
    lemma_div_is_ordered((2 * a + one) as int, (2 * b + one) as int, (2 * one) as int);
    lemma_div_is_ordered((2 * b + one) as int, (2 * past + one) as int, (2 * one) as int);
    let c = pow2(128);
    assert(2 * past + one == c * (2 * one) + one) by (nonlinear_arith)
        requires
            past == c * one,
    ;
    lemma_fundamental_div_mod_converse(
        (2 * past + one) as int,
        (2 * one) as int,
        c as int,
        one as int,
    );
    let (x, y) = ((2 * a + one) / (2 * one), (2 * b + one) / (2 * one));
    assert(x * one <= y * one <= c * one) by (nonlinear_arith)
        requires
            x <= y <= c,
    ;
}

/// A larger alpha is never a darker gray.
pub proof fn lemma_gray_monotone(a: Num, b: Num)
    requires
        a.is_number(),
        b.is_number(),
        a.is_representable(),
        b.is_representable(),
        a.signed() <= b.signed(),
    ensures
        gray(a) <= gray(b) <= 255,
{
    reveal(gray);
    let one = num::one();
    let most = num::whole(255);
    lemma_pow2_pos(149);
    lemma_pow2_pos(277);
    rounding::lemma_whole_exact(0);
    rounding::lemma_whole_exact(255);
    assert(0 * one == 0);
    assert(255 * one > 0) by (nonlinear_arith)
        requires
            one > 0,
    ;
    if a is Finite && b is Finite {
        arith::lemma_times_monotone(a, b, most);
    } else {
        if a is Finite {
            arith::lemma_times_signed(a, most);
        }
        if b is Finite {
            arith::lemma_times_signed(b, most);
        }
    }
    let (p, q) = (a.times(most), b.times(most));
    assert(p.is_number() && q.is_number() && p.signed() <= q.signed());
    lemma_whole_number_ordered(p, q);
    let (r, t) = (p.to_nearest_whole(), q.to_nearest_whole());
    arith::lemma_held_monotone(r, t, num::whole(0), most);
    let (u, v) = (r.held(num::whole(0), most), t.held(num::whole(0), most));
    assert(u is Finite && v is Finite);
    lemma_div_is_ordered(u->Finite_units as int, v->Finite_units as int, one as int);
    lemma_div_is_ordered(v->Finite_units as int, (255 * one) as int, one as int);
    lemma_div_multiples_vanish(255, one as int);
    assert(one * 255 == 255 * one);
    assert(0int / one as int == 0) by (nonlinear_arith)
        requires
            one > 0,
    ;
}

proof fn lemma_whole_number_ordered(p: Num, q: Num)
    requires
        p.is_number(),
        q.is_number(),
        p.signed() <= q.signed(),
        p is Finite ==> p->Finite_units < num::past_finite(),
        q is Finite ==> q->Finite_units < num::past_finite(),
    ensures
        p.to_nearest_whole().is_number(),
        q.to_nearest_whole().is_number(),
        p.to_nearest_whole().signed() <= q.to_nearest_whole().signed(),
{
    lemma_pow2_pos(277);
    let size = |n: Num|
        if n is Finite {
            n->Finite_units
        } else {
            num::past_finite()
        };
    let (a, b) = (size(p), size(q));
    lemma_nearest_whole_monotone(a, a);
    lemma_nearest_whole_monotone(b, b);
    lemma_nearest_whole_monotone(0, a);
    lemma_nearest_whole_monotone(0, b);
    if a <= b {
        lemma_nearest_whole_monotone(a, b);
    }
    if b <= a {
        lemma_nearest_whole_monotone(b, a);
    }
    lemma_pow2_pos(149);
    let one = num::one();
    assert(nearest_whole(0) == 0) by {
        lemma_basic_div(one as int, (2 * one) as int);
        assert(0 * one == 0);
    }
}

/// The background is black and the subject is white.
pub proof fn lemma_gray_ends()
    ensures
        gray(num::whole(0)) == 0,
        gray(num::whole(1)) == 255,
{
    reveal(gray);
    let one = num::one();
    lemma_pow2_pos(149);
    lemma_pow2_pos(277);
    rounding::lemma_whole_exact(0);
    rounding::lemma_whole_exact(1);
    rounding::lemma_whole_exact(255);
    assert(0 * one == 0 && 1 * one == one);
    assert(0 * (255 * one) == 0);
    rounding::lemma_nearest_at_most(0, one, 0);
    assert(num::whole(0).times(num::whole(255)) == num::whole(0));
    assert((one * (255 * one)) * 1 == (255 * one) * one) by (nonlinear_arith);
    rounding::lemma_nearest_same(one * (255 * one), one, 255 * one, 1);
    assert(num::whole(1).times(num::whole(255)) == num::whole(255));
    lemma_basic_div(one as int, (2 * one) as int);
    assert(2 * (255 * one) + one == 255 * (2 * one) + one) by (nonlinear_arith);
    lemma_fundamental_div_mod_converse(
        (2 * (255 * one) + one) as int,
        (2 * one) as int,
        255,
        one as int,
    );
    lemma_div_multiples_vanish(255, one as int);
    assert(one * 255 == 255 * one);
    assert(0int / one as int == 0) by (nonlinear_arith)
        requires
            one > 0,
    ;
}

proof fn lemma_same_gray(a: Num, b: Num)
    requires
        a is Finite,
        b is Finite,
        a.is_representable(),
        b.is_representable(),
        a.signed() == b.signed(),
    ensures
        gray(a) == gray(b),
{
    lemma_gray_monotone(a, b);
    lemma_gray_monotone(b, a);
}

/// The fractions that an upscale blends by are finite.
proof fn lemma_upscale_fractions(width: nat, height: nat, y: nat, x: nat)
    requires
        y < height <= usize::MAX,
        x < width <= usize::MAX,
    ensures
        taps::tap_fraction(width, MODEL_W as nat, x) is Finite,
        taps::tap_fraction(height, MODEL_H as nat, y) is Finite,
{
    taps::lemma_taps_in_source(width, MODEL_W as nat, x);
    taps::lemma_taps_in_source(height, MODEL_H as nat, y);
    taps::lemma_fraction(width, MODEL_W as nat, x);
    taps::lemma_fraction(height, MODEL_H as nat, y);
}

/// Where the four samples that a pixel falls between agree, the pixel is
/// their gray: with [`lemma_gray_ends`], 255 where the subject owns it and 0
/// where the background does. Infinite samples do not blend: the difference
/// of infinities is no number.
pub proof fn lemma_agreeing_samples_are_kept(
    alpha: Seq<Num>,
    value: Num,
    width: nat,
    height: nat,
    y: nat,
    x: nat,
)
    requires
        x < width <= usize::MAX,
        y < height <= usize::MAX,
        value !is Infinite,
        value.is_representable(),
        ({
            let low = taps::tap_low(height, MODEL_H as nat, y);
            let high = taps::tap_high(height, MODEL_H as nat, y);
            let left = taps::tap_low(width, MODEL_W as nat, x);
            let right = taps::tap_high(width, MODEL_W as nat, x);
            &&& alpha[low * MODEL_W + left] == value
            &&& alpha[low * MODEL_W + right] == value
            &&& alpha[high * MODEL_W + left] == value
            &&& alpha[high * MODEL_W + right] == value
        }),
    ensures
        matte_map(alpha, width, height)[(y * width + x) as int] == gray(value),
{
    lemma_upscale_fractions(width, height, y, x);
    let fx = taps::tap_fraction(width, MODEL_W as nat, x);
    let fy = taps::tap_fraction(height, MODEL_H as nat, y);
    let low = taps::tap_low(height, MODEL_H as nat, y);
    let high = taps::tap_high(height, MODEL_H as nat, y);
    let across = taps::blended(value, value, fx);
    assert(alpha_across(alpha, width, low, x) == across);
    assert(alpha_across(alpha, width, high, x) == across);
    if value is Finite {
        taps::lemma_blended_with_itself(value, fx);
        taps::lemma_blended_with_itself(across, fy);
        lemma_same_gray(value, taps::blended(across, across, fy));
    } else {
        lemma_no_number(fx);
        lemma_no_number(fy);
    }
    lemma_gray_is_byte(value);
    lemma_place_in_map(width, height, y, x);
}

/// An alpha that is the same everywhere upscales to the same gray
/// everywhere.
pub proof fn lemma_flat_alpha_upscales_flat(
    alpha: Seq<Num>,
    value: Num,
    width: nat,
    height: nat,
    i: int,
)
    requires
        width <= usize::MAX,
        height <= usize::MAX,
        alpha_covers(alpha.len(), height),
        value !is Infinite,
        value.is_representable(),
        forall|j: int| 0 <= j < alpha.len() ==> alpha[j] == value,
        0 <= i < width * height,
    ensures
        matte_map(alpha, width, height)[i] == gray(value),
{
    lemma_row_and_column(i as nat, width, height);
    let y = (i / width as int) as nat;
    let x = (i % width as int) as nat;
    taps::lemma_taps_in_source(width, MODEL_W as nat, x);
    let low = taps::tap_low(height, MODEL_H as nat, y);
    let high = taps::tap_high(height, MODEL_H as nat, y);
    assert((low + 1) * MODEL_W <= alpha.len() && (high + 1) * MODEL_W <= alpha.len());
    lemma_agreeing_samples_are_kept(alpha, value, width, height, y, x);
}

proof fn lemma_no_number(t: Num)
    ensures
        taps::blended(Num::Nan, Num::Nan, t) == Num::Nan,
{
    reveal(taps::blended);
}

/// A gray fits in a byte.
proof fn lemma_gray_is_byte(a: Num)
    ensures
        gray(a) <= 255,
{
    reveal(gray);
}

/// The alpha of an edge: nothing left of the column `edge`, everything from
/// it on.
pub open spec fn is_edge(alpha: Seq<Num>, edge: nat) -> bool {
    forall|i: int|
        0 <= i < alpha.len() ==> #[trigger] alpha[i] == if i % (MODEL_W as int) < edge {
            num::whole(0)
        } else {
            num::whole(1)
        }
}

/// An edge read across: nothing, everything, or the fraction between.
proof fn lemma_edge_across(alpha: Seq<Num>, edge: nat, width: nat, row: nat, x: nat)
    requires
        x < width <= usize::MAX,
        is_edge(alpha, edge),
        (row + 1) * MODEL_W <= alpha.len(),
    ensures
        ({
            let low = taps::tap_low(width, MODEL_W as nat, x);
            let high = taps::tap_high(width, MODEL_W as nat, x);
            let t = taps::tap_fraction(width, MODEL_W as nat, x);
            let value = alpha_across(alpha, width, row, x);
            &&& value is Finite
            &&& value.is_representable()
            &&& value.signed() == if edge <= low {
                num::one() as int
            } else if edge <= high {
                t.signed()
            } else {
                0
            }
        }),
{
    let one = num::one();
    let low = taps::tap_low(width, MODEL_W as nat, x);
    let high = taps::tap_high(width, MODEL_W as nat, x);
    let t = taps::tap_fraction(width, MODEL_W as nat, x);
    taps::lemma_taps_in_source(width, MODEL_W as nat, x);
    taps::lemma_fraction(width, MODEL_W as nat, x);
    let (zero, full) = (num::whole(0), num::whole(1));
    rounding::lemma_whole_exact(0);
    rounding::lemma_whole_exact(1);
    assert(0 * one == 0 && 1 * one == one);
    assert(alpha[row * MODEL_W + low] == if low < edge {
        zero
    } else {
        full
    });
    assert(alpha[row * MODEL_W + high] == if high < edge {
        zero
    } else {
        full
    });
    if edge <= low {
        taps::lemma_blended_with_itself(full, t);
    } else if edge <= high {
        taps::lemma_blended_from_nothing_to_all(t);
    } else {
        taps::lemma_blended_with_itself(zero, t);
    }
}

/// An edge in the alpha upscales as a ramp: no row of the map ever steps
/// down.
pub proof fn lemma_edge_upscales_as_ramp(
    alpha: Seq<Num>,
    edge: nat,
    width: nat,
    height: nat,
    y: nat,
    x: nat,
    later: nat,
)
    requires
        width <= usize::MAX,
        y < height <= usize::MAX,
        x <= later < width,
        alpha_covers(alpha.len(), height),
        is_edge(alpha, edge),
    ensures
        matte_map(alpha, width, height)[(y * width + x) as int] <= matte_map(
            alpha,
            width,
            height,
        )[(y * width + later) as int],
{
    lemma_edge_at(alpha, edge, width, height, y, x);
    lemma_edge_at(alpha, edge, width, height, y, later);
    let one = num::one();
    let source = MODEL_W as nat;
    lemma_pow2_pos(149);
    taps::lemma_taps_in_source(width, source, x);
    taps::lemma_taps_in_source(width, source, later);
    taps::lemma_fraction(width, source, x);
    taps::lemma_fraction(width, source, later);
    taps::lemma_positions_ordered(width, source, x, later);
    let (a, b) = (taps::tap_low(width, source, x), taps::tap_low(width, source, later));
    let (p, q) = (
        taps::tap_position(width, source, x).signed(),
        taps::tap_position(width, source, later).signed(),
    );
    assert(a <= b) by (nonlinear_arith)
        requires
            a * one <= p <= q < b * one + one,
            one > 0,
    ;
    lemma_gray_monotone(
        alpha_at(alpha, width, height, y, x),
        alpha_at(alpha, width, height, y, later),
    );
    lemma_place_in_map(width, height, y, x);
    lemma_place_in_map(width, height, y, later);
}

/// The map's row and column of the place `y * width + x`.
proof fn lemma_place_in_map(width: nat, height: nat, y: nat, x: nat)
    requires
        x < width,
        y < height,
    ensures
        0 <= y * width + x < width * height,
        (y * width + x) / width == y,
        (y * width + x) % width == x,
{
    lemma_fundamental_div_mod_converse(
        (y * width + x) as int,
        width as int,
        y as int,
        x as int,
    );
    assert(0 <= y * width + x < width * height) by (nonlinear_arith)
        requires
            x < width,
            y < height,
    ;
}

/// An edge brought onto a frame: blending equal rows changes nothing.
proof fn lemma_edge_at(alpha: Seq<Num>, edge: nat, width: nat, height: nat, y: nat, x: nat)
    requires
        x < width <= usize::MAX,
        y < height <= usize::MAX,
        alpha_covers(alpha.len(), height),
        is_edge(alpha, edge),
    ensures
        ({
            let low = taps::tap_low(width, MODEL_W as nat, x);
            let high = taps::tap_high(width, MODEL_W as nat, x);
            let t = taps::tap_fraction(width, MODEL_W as nat, x);
            let value = alpha_at(alpha, width, height, y, x);
            &&& value is Finite
            &&& value.is_representable()
            &&& value.signed() == if edge <= low {
                num::one() as int
            } else if edge <= high {
                t.signed()
            } else {
                0
            }
        }),
{
    let low_row = taps::tap_low(height, MODEL_H as nat, y);
    let high_row = taps::tap_high(height, MODEL_H as nat, y);
    let fy = taps::tap_fraction(height, MODEL_H as nat, y);
    lemma_upscale_fractions(width, height, y, x);
    taps::lemma_taps_in_source(width, MODEL_W as nat, x);
    assert((low_row + 1) * MODEL_W <= alpha.len() && (high_row + 1) * MODEL_W <= alpha.len());
    lemma_edge_across(alpha, edge, width, low_row, x);
    let top = alpha_across(alpha, width, low_row, x);
    let bottom = alpha_across(alpha, width, high_row, x);
    let (left, right) = (
        taps::tap_low(width, MODEL_W as nat, x),
        taps::tap_high(width, MODEL_W as nat, x),
    );
    assert(alpha[low_row * MODEL_W + left] == alpha[high_row * MODEL_W + left]);
    assert(alpha[low_row * MODEL_W + right] == alpha[high_row * MODEL_W + right]);
    assert(top == bottom);
    taps::lemma_blended_with_itself(top, fy);
}

/// A magnitude rounded to a whole number moves by half of one at most.
proof fn lemma_nearest_whole_near(u: nat)
    ensures
        2 * (nearest_whole(u) - u) <= num::one(),
        2 * (u - nearest_whole(u)) <= num::one(),
{
    let one = num::one();
    lemma_pow2_pos(149);
    let k = (2 * u + one) / (2 * one);
    lemma_fundamental_div_mod((2 * u + one) as int, (2 * one) as int);
    lemma_mod_bound((2 * u + one) as int, (2 * one) as int);
    assert((2 * one) * k == 2 * (k * one)) by (nonlinear_arith);
}

/// A gray is 255 times the alpha, held to 0..255, to half a level and what
/// the rounding adds.
proof fn lemma_gray_near(a: Num, most: nat)
    requires
        arith::within(a, most),
        most <= 0xffff,
    ensures
        ({
            let one = num::one() as int;
            let full = 255 * a.signed();
            let held = if full < 0 {
                0
            } else if full > 255 * one {
                255 * one
            } else {
                full
            };
            let slack = one + 2 * ((255 * most) * accuracy::grain() + 1);
            -slack <= 2 * (gray(a) * one - held) <= slack
        }),
{
    reveal(gray);
    let one = num::one();
    let g = accuracy::grain();
    lemma_pow2_pos(149);
    lemma_pow2_pos(277);
    rounding::lemma_whole_exact(0);
    rounding::lemma_whole_exact(255);
    assert(0 * one == 0);
    let times = num::whole(255);
    let m = 255 * most;
    let v = a.signed();
    assert(-((m * one) * one) <= v * (255 * one) <= (m * one) * one) by (nonlinear_arith)
        requires
            -(most * one) <= v <= most * one,
            m == 255 * most,
            one > 0,
    ;
    accuracy::lemma_times_near(a, times, m);
    let t = a.times(times);
    let k = m * g + 1;
    let x = t.signed();
    assert(-k <= x - 255 * v <= k) by (nonlinear_arith)
        requires
            -(k * one) <= x * one - v * (255 * one) <= k * one,
            one > 0,
    ;
    let u = t->Finite_units;
    lemma_nearest_whole_near(u);
    let w = t.to_nearest_whole();
    let n = (2 * u + one) / (2 * one);
    assert(w->Finite_units == nearest_whole(u));
    assert(nearest_whole(u) == n * one);
    let h = w.held(num::whole(0), times);
    if t.sign() {
        if n > 0 {
            assert(n * one > 0) by (nonlinear_arith)
                requires
                    n > 0,
                    one > 0,
            ;
            assert(h == num::whole(0));
        } else {
            assert(n * one == 0) by (nonlinear_arith)
                requires
                    n == 0,
            ;
        }
        assert(0int / one as int == 0) by (nonlinear_arith)
            requires
                one > 0,
        ;
        assert(gray(a) == 0);
        assert(0 * one == 0);
    } else {
        let kept: nat = if n > 255 {
            255
        } else {
            n
        };
        assert((n > 255 ==> n * one > 255 * one) && (n <= 255 ==> n * one <= 255 * one))
            by (nonlinear_arith)
            requires
                one > 0,
        ;
        assert(n * one >= 0) by (nonlinear_arith);
        assert(h->Finite_units == kept * one);
        lemma_div_multiples_vanish(kept as int, one as int);
        assert(one * kept == kept * one) by (nonlinear_arith);
        assert(gray(a) == kept);
    }
}

/// A map's pixel is the model's own alpha there: the four samples that its
/// place falls between, weighted by how near it lies to each, times 255,
/// rounded and held to 0..255. Of samples of up to `most` either side of
/// zero, it lies within half a level and `most` thousandths of one of the
/// exact mean.
pub proof fn lemma_map_is_the_bilinear_mean(
    alpha: Seq<Num>,
    width: nat,
    height: nat,
    y: nat,
    x: nat,
    most: nat,
)
    requires
        x < width <= usize::MAX,
        y < height <= usize::MAX,
        0 < most <= 0x1000,
        ({
            let (above, below) = (taps::tap_low(height, 192, y), taps::tap_high(height, 192, y));
            let (left, right) = (taps::tap_low(width, 320, x), taps::tap_high(width, 320, x));
            forall|i: int|
                i == 320 * above + left || i == 320 * above + right || i == 320 * below + left || i
                    == 320 * below + right ==> (#[trigger] alpha[i]) is Finite && -(most
                    * num::one()) <= alpha[i].signed() <= most * num::one()
        }),
    ensures
        ({
            let one = num::one() as int;
            let (above, below) = (taps::tap_low(height, 192, y), taps::tap_high(height, 192, y));
            let (left, right) = (taps::tap_low(width, 320, x), taps::tap_high(width, 320, x));
            let down = taps::tap_fraction(height, 192, y).signed();
            let across = taps::tap_fraction(width, 320, x).signed();
            let top = (one - across) * alpha[(320 * above + left) as int].signed() + across
                * alpha[(320 * above + right) as int].signed();
            let bottom = (one - across) * alpha[(320 * below + left) as int].signed() + across
                * alpha[(320 * below + right) as int].signed();
            let full = 255 * ((one - down) * top + down * bottom);
            let cube = one * (one * one);
            let held = if full < 0 {
                0
            } else if full > 255 * cube {
                255 * cube
            } else {
                full
            };
            let pixel = matte_map(alpha, width, height)[(y * width + x) as int] * cube;
            &&& 1000 * (pixel - held) <= (500 + most) * cube
            &&& 1000 * (held - pixel) <= (500 + most) * cube
        }),
{
    let one = num::one() as int;
    let g = accuracy::grain() as int;
    accuracy::lemma_grain();
    let (above, below) = (taps::tap_low(height, 192, y), taps::tap_high(height, 192, y));
    let (left, right) = (taps::tap_low(width, 320, x), taps::tap_high(width, 320, x));
    let fy = taps::tap_fraction(height, 192, y);
    let fx = taps::tap_fraction(width, 320, x);
    taps::lemma_taps_in_source(width, 320, x);
    taps::lemma_taps_in_source(height, 192, y);
    taps::lemma_fraction(width, 320, x);
    taps::lemma_fraction(height, 192, y);
    let a = alpha[(320 * above + left) as int];
    let b = alpha[(320 * above + right) as int];
    let c = alpha[(320 * below + left) as int];
    let d = alpha[(320 * below + right) as int];
    taps::lemma_bilinear_near(a, b, c, d, fx, fy, most);
    let value = taps::blended(taps::blended(a, b, fx), taps::blended(c, d, fx), fy);
    assert(alpha_across(alpha, width, above, x) == taps::blended(a, b, fx));
    assert(alpha_across(alpha, width, below, x) == taps::blended(c, d, fx));
    assert(alpha_at(alpha, width, height, y, x) == value);
    lemma_gray_near(value, 9 * most);
    lemma_gray_is_byte(value);
    lemma_place_in_map(width, height, y, x);
    assert(matte_map(alpha, width, height)[(y * width + x) as int] == gray(value));
    let top = (one - fx.signed()) * a.signed() + fx.signed() * b.signed();
    let bottom = (one - fx.signed()) * c.signed() + fx.signed() * d.signed();
    let mean = (one - fy.signed()) * top + fy.signed() * bottom;
    lemma_held_gray(one, g, most as int, value.signed(), gray(value) as int, mean);
}

/// What holding to 0..255 makes of a number that is near the mean.
proof fn lemma_held_gray(one: int, g: int, most: int, v: int, r: int, mean: int)
    requires
        one == 0x100_0000 * g,
        g >= 0x100_0000,
        most > 0,
        -((32 * (most * g)) * (one * one)) <= (one * one) * v - mean <= (32 * (most * g)) * (one
            * one),
        ({
            let full = 255 * v;
            let held = if full < 0 {
                0
            } else if full > 255 * one {
                255 * one
            } else {
                full
            };
            let slack = one + 2 * ((255 * (9 * most)) * g + 1);
            -slack <= 2 * (r * one - held) <= slack
        }),
    ensures
        ({
            let full = 255 * mean;
            let cube = one * (one * one);
            let held = if full < 0 {
                0
            } else if full > 255 * cube {
                255 * cube
            } else {
                full
            };
            &&& 1000 * (r * cube - held) <= (500 + most) * cube
            &&& 1000 * (held - r * cube) <= (500 + most) * cube
        }),
{
    let s = one * one;
    assert(s > 0) by (nonlinear_arith)
        requires
            s == one * one,
            one == 0x100_0000 * g,
            g > 0,
    ;
    let cube = one * s;
    let mg = most * g;
    let mgs = mg * s;
    assert(mg >= g) by (nonlinear_arith)
        requires
            mg == most * g,
            most >= 1,
            g > 0,
    ;
    assert(mgs >= s) by (nonlinear_arith)
        requires
            mgs == mg * s,
            mg >= 1,
            s > 0,
    ;
    assert((255 * (9 * most)) * g == 2295 * mg) by (nonlinear_arith)
        requires
            mg == most * g,
    ;
    assert((32 * mg) * s == 32 * mgs) by (nonlinear_arith)
        requires
            mgs == mg * s,
    ;
    // One thousandth of a level, for each of `most`.
    let mc = most * cube;
    assert(mc == 0x100_0000 * mgs) by (nonlinear_arith)
        requires
            mc == most * cube,
            cube == one * s,
            one == 0x100_0000 * g,
            mgs == mg * s,
            mg == most * g,
    ;
    assert((500 + most) * cube == 500 * cube + mc) by (nonlinear_arith)
        requires
            mc == most * cube,
    ;
    let held = if 255 * v < 0 {
        0
    } else if 255 * v > 255 * one {
        255 * one
    } else {
        255 * v
    };
    let (vs, hs, rs) = (s * (255 * v), s * held, r * cube);
    let vm = s * v;
    assert(vs == 255 * vm) by (nonlinear_arith)
        requires
            vs == s * (255 * v),
            vm == s * v,
    ;
    let top = s * (255 * one);
    assert(top == 255 * cube) by (nonlinear_arith)
        requires
            top == s * (255 * one),
            cube == one * s,
    ;
    assert((v < 0 ==> vs <= 0) && (v >= 0 ==> vs >= 0) && (v > one ==> vs >= top) && (v <= one ==> vs
        <= top)) by (nonlinear_arith)
        requires
            vs == s * (255 * v),
            top == s * (255 * one),
            s > 0,
    ;
    assert(s * 0 == 0);
    let off = r * one - held;
    assert(rs - hs == s * off) by (nonlinear_arith)
        requires
            rs == r * cube,
            cube == one * s,
            hs == s * held,
            off == r * one - held,
    ;
    let slack = one + 2 * (2295 * mg + 1);
    assert(-(s * slack) <= 2 * (s * off) <= s * slack) by (nonlinear_arith)
        requires
            -slack <= 2 * off <= slack,
            s > 0,
    ;
    assert(s * slack == cube + 4590 * mgs + 2 * s) by (nonlinear_arith)
        requires
            slack == one + 2 * (2295 * mg + 1),
            cube == one * s,
            mgs == mg * s,
    ;
    assert(cube >= 0) by (nonlinear_arith)
        requires
            cube == one * s,
            one > 0,
            s > 0,
    ;
}

/// An edge between rows read across: a row is nothing or everything.
proof fn lemma_level_row_across(alpha: Seq<Num>, edge: nat, width: nat, row: nat, x: nat)
    requires
        x < width <= usize::MAX,
        forall|i: int|
            0 <= i < alpha.len() ==> #[trigger] alpha[i] == if i < 320 * edge {
                num::whole(0)
            } else {
                num::whole(1)
            },
        (row + 1) * 320 <= alpha.len(),
    ensures
        alpha_across(alpha, width, row, x) == if row < edge {
            num::whole(0)
        } else {
            num::whole(1)
        },
{
    let one = num::one();
    let low = taps::tap_low(width, 320, x);
    let high = taps::tap_high(width, 320, x);
    let t = taps::tap_fraction(width, 320, x);
    taps::lemma_taps_in_source(width, 320, x);
    taps::lemma_fraction(width, 320, x);
    lemma_pow2_pos(149);
    rounding::lemma_whole_exact(0);
    rounding::lemma_whole_exact(1);
    assert(0 * one == 0 && 1 * one == one);
    taps::lemma_blended_with_itself(num::whole(0), t);
    taps::lemma_blended_with_itself(num::whole(1), t);
    assert(alpha[row * MODEL_W + low] == if row < edge {
        num::whole(0)
    } else {
        num::whole(1)
    });
    assert(alpha[row * MODEL_W + high] == if row < edge {
        num::whole(0)
    } else {
        num::whole(1)
    });
}

/// An edge between rows upscales as a ramp too: of an alpha that is nothing
/// above the row `edge` and everything from it on, no column of the map ever
/// steps down.
pub proof fn lemma_edge_between_rows_upscales_as_ramp(
    alpha: Seq<Num>,
    edge: nat,
    width: nat,
    height: nat,
    y: nat,
    later: nat,
    x: nat,
)
    requires
        x < width <= usize::MAX,
        y <= later < height <= usize::MAX,
        alpha.len() >= 192 * 320,
        forall|i: int|
            0 <= i < alpha.len() ==> #[trigger] alpha[i] == if i < 320 * edge {
                num::whole(0)
            } else {
                num::whole(1)
            },
    ensures
        matte_map(alpha, width, height)[(y * width + x) as int] <= matte_map(
            alpha,
            width,
            height,
        )[(later * width + x) as int],
{
    lemma_level_edge_at(alpha, edge, width, height, y, x);
    lemma_level_edge_at(alpha, edge, width, height, later, x);
    let one = num::one();
    lemma_pow2_pos(149);
    taps::lemma_taps_in_source(height, 192, y);
    taps::lemma_taps_in_source(height, 192, later);
    taps::lemma_fraction(height, 192, y);
    taps::lemma_fraction(height, 192, later);
    taps::lemma_positions_ordered(height, 192, y, later);
    let (a, b) = (taps::tap_low(height, 192, y), taps::tap_low(height, 192, later));
    let (p, q) = (
        taps::tap_position(height, 192, y).signed(),
        taps::tap_position(height, 192, later).signed(),
    );
    assert(a <= b) by (nonlinear_arith)
        requires
            a * one <= p <= q < b * one + one,
            one > 0,
    ;
    lemma_gray_monotone(
        alpha_at(alpha, width, height, y, x),
        alpha_at(alpha, width, height, later, x),
    );
    lemma_place_in_map(width, height, y, x);
    lemma_place_in_map(width, height, later, x);
}

proof fn lemma_level_edge_at(alpha: Seq<Num>, edge: nat, width: nat, height: nat, y: nat, x: nat)
    requires
        x < width <= usize::MAX,
        y < height <= usize::MAX,
        alpha.len() >= 192 * 320,
        forall|i: int|
            0 <= i < alpha.len() ==> #[trigger] alpha[i] == if i < 320 * edge {
                num::whole(0)
            } else {
                num::whole(1)
            },
    ensures
        ({
            let low = taps::tap_low(height, 192, y);
            let high = taps::tap_high(height, 192, y);
            let value = alpha_at(alpha, width, height, y, x);
            &&& value is Finite
            &&& value.is_representable()
            &&& value.signed() == if edge <= low {
                num::one() as int
            } else if edge <= high {
                taps::tap_fraction(height, 192, y).signed()
            } else {
                0
            }
        }),
{
    let one = num::one();
    let low = taps::tap_low(height, 192, y);
    let high = taps::tap_high(height, 192, y);
    let t = taps::tap_fraction(height, 192, y);
    taps::lemma_taps_in_source(height, 192, y);
    taps::lemma_fraction(height, 192, y);
    lemma_level_row_across(alpha, edge, width, low, x);
    lemma_level_row_across(alpha, edge, width, high, x);
    lemma_pow2_pos(149);
    rounding::lemma_whole_exact(0);
    rounding::lemma_whole_exact(1);
    assert(0 * one == 0 && 1 * one == one);
    if edge <= low {
        taps::lemma_blended_with_itself(num::whole(1), t);
    } else if edge <= high {
        taps::lemma_blended_from_nothing_to_all(t);
    } else {
        taps::lemma_blended_with_itself(num::whole(0), t);
    }
}

/// A blend of moderate numbers is representable and moderate.
proof fn lemma_blend_is_moderate(a: Num, b: Num, t: Num, most: nat)
    requires
        arith::within(a, most),
        arith::within(b, most),
        t is Finite,
        0 <= t.signed() <= num::one(),
        0 < most <= 0x1000,
    ensures
        arith::within(taps::blended(a, b, t), 3 * most),
        taps::blended(a, b, t).is_representable(),
{
    reveal(taps::blended);
    taps::lemma_blended_near(a, b, t, most);
    arith::lemma_within_plus(b, a, most, most);
    assert(t->Finite_units <= 1 * num::one());
    arith::lemma_within_times(b.minus(a), t, 2 * most, 1);
    arith::lemma_sum_is_representable(a, b.minus(a).times(t));
}

/// Where a row of the map falls on a row of the alpha, it is read from that
/// row alone: two alphas that agree there have the same row in the map,
/// whatever else they hold.
pub proof fn lemma_row_on_a_row_reads_it_alone(
    alpha: Seq<Num>,
    other: Seq<Num>,
    width: nat,
    height: nat,
    y: nat,
    x: nat,
    row: nat,
    most: nat,
)
    requires
        x < width <= usize::MAX,
        y < height <= usize::MAX,
        alpha.len() >= 192 * 320,
        other.len() >= 192 * 320,
        0 < most <= 0x1000,
        forall|i: int|
            0 <= i < alpha.len() ==> (#[trigger] alpha[i]) is Finite && -(most * num::one())
                <= alpha[i].signed() <= most * num::one(),
        forall|i: int|
            0 <= i < other.len() ==> (#[trigger] other[i]) is Finite && -(most * num::one())
                <= other[i].signed() <= most * num::one(),
        taps::tap_position(height, 192, y).signed() == row * num::one(),
        forall|i: int| 320 * row <= i < 320 * row + 320 ==> #[trigger] alpha[i] == other[i],
    ensures
        matte_map(alpha, width, height)[(y * width + x) as int] == matte_map(other, width, height)[(
        y * width + x) as int],
{
    lemma_on_row(alpha, width, height, y, x, row, most);
    lemma_on_row(other, width, height, y, x, row, most);
    let (left, right) = (taps::tap_low(width, 320, x), taps::tap_high(width, 320, x));
    taps::lemma_taps_in_source(width, 320, x);
    assert(alpha[row * MODEL_W + left] == other[row * MODEL_W + left]);
    assert(alpha[row * MODEL_W + right] == other[row * MODEL_W + right]);
    assert(alpha_across(alpha, width, row, x) == alpha_across(other, width, row, x));
    lemma_same_gray(
        alpha_at(alpha, width, height, y, x),
        alpha_at(other, width, height, y, x),
    );
    lemma_place_in_map(width, height, y, x);
}

proof fn lemma_on_row(
    alpha: Seq<Num>,
    width: nat,
    height: nat,
    y: nat,
    x: nat,
    row: nat,
    most: nat,
)
    requires
        x < width <= usize::MAX,
        y < height <= usize::MAX,
        alpha.len() >= 192 * 320,
        0 < most <= 0x1000,
        forall|i: int|
            0 <= i < alpha.len() ==> (#[trigger] alpha[i]) is Finite && -(most * num::one())
                <= alpha[i].signed() <= most * num::one(),
        taps::tap_position(height, 192, y).signed() == row * num::one(),
    ensures
        row < 192,
        ({
            let value = alpha_at(alpha, width, height, y, x);
            &&& value is Finite
            &&& value.is_representable()
            &&& value.signed() == alpha_across(alpha, width, row, x).signed()
        }),
{
    let one = num::one();
    lemma_pow2_pos(149);
    let (low, high) = (taps::tap_low(height, 192, y), taps::tap_high(height, 192, y));
    let (left, right) = (taps::tap_low(width, 320, x), taps::tap_high(width, 320, x));
    let (fx, fy) = (taps::tap_fraction(width, 320, x), taps::tap_fraction(height, 192, y));
    taps::lemma_taps_in_source(width, 320, x);
    taps::lemma_taps_in_source(height, 192, y);
    taps::lemma_fraction(width, 320, x);
    taps::lemma_fraction(height, 192, y);
    assert(low == row) by (nonlinear_arith)
        requires
            0 <= row * one - low * one < one,
            one > 0,
    ;
    assert(arith::within(alpha[low * MODEL_W + left], most));
    assert(arith::within(alpha[low * MODEL_W + right], most));
    assert(arith::within(alpha[high * MODEL_W + left], most));
    assert(arith::within(alpha[high * MODEL_W + right], most));
    lemma_blend_is_moderate(alpha[low * MODEL_W + left], alpha[low * MODEL_W + right], fx, most);
    lemma_blend_is_moderate(alpha[high * MODEL_W + left], alpha[high * MODEL_W + right], fx, most);
    taps::lemma_blended_by_nothing(
        alpha_across(alpha, width, low, x),
        alpha_across(alpha, width, high, x),
        fy,
        3 * most,
    );
}

/// A frame of the model's own size takes the alpha as it is: each pixel is
/// the gray of the sample at the same place.
pub proof fn lemma_model_sized_map_is_kept(alpha: Seq<Num>, i: int, most: nat)
    requires
        0 <= i < 192 * 320,
        alpha.len() >= 192 * 320,
        0 < most <= 0x1000,
        forall|k: int|
            0 <= k < alpha.len() ==> (#[trigger] alpha[k]) is Finite && -(most * num::one())
                <= alpha[k].signed() <= most * num::one() && alpha[k].is_representable(),
    ensures
        matte_map(alpha, 320, 192)[i] == gray(alpha[i]),
{
    let (y, x) = ((i / 320) as nat, (i % 320) as nat);
    let one = num::one();
    taps::lemma_identity_reads_squarely(320, x);
    taps::lemma_identity_reads_squarely(192, y);
    taps::lemma_fraction(192, 192, y);
    rounding::lemma_whole_exact(0);
    assert(0 * one == 0);
    lemma_on_row(alpha, 320, 192, y, x, y, most);
    let right = taps::tap_high(320, 320, x);
    taps::lemma_taps_in_source(320, 320, x);
    assert(arith::within(alpha[y * MODEL_W + x], most));
    assert(arith::within(alpha[y * MODEL_W + right], most));
    taps::lemma_blended_by_nothing(
        alpha[y * MODEL_W + x],
        alpha[y * MODEL_W + right],
        num::whole(0),
        most,
    );
    assert(y * MODEL_W + x == i);
    lemma_same_gray(alpha_at(alpha, 320, 192, y, x), alpha[i]);
    lemma_gray_is_byte(alpha[i]);
    lemma_place_in_map(320, 192, y, x);
}

/// What is no number is background: a pixel any of whose four samples is no
/// number is black.
pub proof fn lemma_no_number_is_background(
    alpha: Seq<Num>,
    width: nat,
    height: nat,
    y: nat,
    x: nat,
)
    requires
        x < width,
        y < height,
        ({
            let (above, below) = (taps::tap_low(height, 192, y), taps::tap_high(height, 192, y));
            let (left, right) = (taps::tap_low(width, 320, x), taps::tap_high(width, 320, x));
            ||| alpha[(320 * above + left) as int] is Nan
            ||| alpha[(320 * above + right) as int] is Nan
            ||| alpha[(320 * below + left) as int] is Nan
            ||| alpha[(320 * below + right) as int] is Nan
        }),
    ensures
        matte_map(alpha, width, height)[(y * width + x) as int] == 0,
{
    reveal(taps::blended);
    reveal(gray);
    lemma_place_in_map(width, height, y, x);
    assert(alpha_at(alpha, width, height, y, x) is Nan);
}

/// The values of numbers are those of their bit patterns, in order.
pub proof fn lemma_values_in_order(numbers: Seq<Single>, i: int)
    requires
        0 <= i < numbers.len(),
    ensures
        values(numbers).len() == numbers.len(),
        values(numbers)[i] == single::decode(numbers[i].bits),
{
}

/// An infinite sample does not blend either: a pixel whose upper left sample
/// is infinite is black, whatever the others are.
pub proof fn lemma_infinite_sample_is_background(
    alpha: Seq<Num>,
    width: nat,
    height: nat,
    y: nat,
    x: nat,
)
    requires
        x < width <= usize::MAX,
        y < height <= usize::MAX,
        alpha[(320 * taps::tap_low(height, 192, y) + taps::tap_low(width, 320, x)) as int]
            is Infinite,
    ensures
        matte_map(alpha, width, height)[(y * width + x) as int] == 0,
{
    reveal(taps::blended);
    reveal(gray);
    taps::lemma_taps_in_source(width, 320, x);
    taps::lemma_fraction(width, 320, x);
    lemma_pow2_pos(277);
    lemma_place_in_map(width, height, y, x);
    let above = taps::tap_low(height, 192, y);
    let t = taps::tap_fraction(width, 320, x);
    let a = alpha[(320 * above + taps::tap_low(width, 320, x)) as int];
    let b = alpha[(320 * above + taps::tap_high(width, 320, x)) as int];
    if b.minus(a) is Infinite && t.signed() != 0 {
        assert(b.minus(a).times(t) == b.minus(a));
    }
    assert(alpha_across(alpha, width, above, x) == taps::blended(a, b, t));
    assert(taps::blended(a, b, t) is Nan);
    assert(alpha_at(alpha, width, height, y, x) is Nan);
}

/// What is said where no tensor is the alpha names every shape that came
/// back, in order, each dimension in decimal.
pub proof fn lemma_no_alpha_text_names_every_shape(shapes: Seq<Seq<u32>>)
    ensures
        ({
            let named = Seq::new(
                shapes.len(),
                |i: int|
                    "["@ + text::joined(
                        Seq::new(shapes[i].len(), |k: int| text::decimal(shapes[i][k] as nat)),
                    ) + "]"@,
            );
            no_alpha_text(shapes) == "matte: the graph returned "@ + ("["@ + text::joined(named)
                + "]"@)
                + ", and this module wants the [1, 1, 192, 320] alpha of longpipe's small export"@
        }),
{
    let named = Seq::new(
        shapes.len(),
        |i: int|
            "["@ + text::joined(
                Seq::new(shapes[i].len(), |k: int| text::decimal(shapes[i][k] as nat)),
            ) + "]"@,
    );
    let parts = shapes.map_values(|dimensions: Seq<u32>| shape_text(dimensions));
    assert forall|i: int| 0 <= i < shapes.len() implies named[i] == parts[i] by {
        assert(shapes[i].map_values(|d: u32| text::decimal(d as nat)) =~= Seq::new(
            shapes[i].len(),
            |k: int| text::decimal(shapes[i][k] as nat),
        ));
    }
    assert(named =~= parts);
}

/// Halves of a level go up: an alpha whose 255-fold, as it is computed, lies
/// halfway between two levels is the brighter one.
pub proof fn lemma_half_a_level_goes_up(a: Num, n: nat)
    requires
        a is Finite,
        n < 255,
        a.times(num::whole(255)) == (Num::Finite { negative: false, units: (2 * n + 1) * pow2(148) }),
    ensures
        gray(a) == n + 1,
{
    reveal(gray);
    let one = num::one();
    lemma_pow2_pos(149);
    accuracy::lemma_halves_go_away_from_zero(false, n);
    rounding::lemma_whole_exact(0);
    rounding::lemma_whole_exact(255);
    assert(0 * one == 0);
    assert(0 <= (n + 1) * one <= 255 * one) by (nonlinear_arith)
        requires
            n < 255,
    ;
    lemma_div_multiples_vanish((n + 1) as int, one as int);
    assert(one * (n + 1) == (n + 1) * one) by (nonlinear_arith);
}

/// Whole levels stay what they are: an alpha whose 255-fold, as it is
/// computed, is the level `n` is that level.
pub proof fn lemma_a_whole_level_is_kept(a: Num, n: nat)
    requires
        a is Finite,
        n <= 255,
        a.times(num::whole(255)) == (Num::Finite { negative: false, units: n * num::one() }),
    ensures
        gray(a) == n,
{
    reveal(gray);
    let one = num::one();
    lemma_pow2_pos(149);
    rounding::lemma_whole_exact(0);
    rounding::lemma_whole_exact(255);
    assert(0 * one == 0);
    assert(2 * (n * one) + one == n * (2 * one) + one) by (nonlinear_arith);
    lemma_fundamental_div_mod_converse(
        (2 * (n * one) + one) as int,
        (2 * one) as int,
        n as int,
        one as int,
    );
    assert(0 <= n * one <= 255 * one) by (nonlinear_arith)
        requires
            n <= 255,
    ;
    lemma_div_multiples_vanish(n as int, one as int);
    assert(one * n == n * one) by (nonlinear_arith);
}

/// What an upscale reads ends with the row below its last one: samples cover
/// a frame where they reach through that row, and only there.
pub proof fn lemma_upscale_reads_to_its_last_row(len: nat, height: nat)
    requires
        0 < height <= usize::MAX,
    ensures
        alpha_covers(len, height) <==> 320 * (taps::tap_high(height, 192, (height - 1) as nat) + 1)
            <= len,
{
    let end = (height - 1) as nat;
    let last = taps::tap_high(height, 192, end);
    assert forall|y: nat| #![trigger taps::tap_low(height, 192, y)]
        y < height implies taps::tap_low(height, 192, y) <= taps::tap_high(height, 192, y)
        <= last by {
        let one = num::one();
        lemma_pow2_pos(149);
        taps::lemma_taps_in_source(height, 192, y);
        taps::lemma_taps_in_source(height, 192, end);
        taps::lemma_fraction(height, 192, y);
        taps::lemma_fraction(height, 192, end);
        taps::lemma_positions_ordered(height, 192, y, end);
        let (a, b) = (taps::tap_low(height, 192, y), taps::tap_low(height, 192, end));
        let (p, q) = (
            taps::tap_position(height, 192, y).signed(),
            taps::tap_position(height, 192, end).signed(),
        );
        assert(a <= b) by (nonlinear_arith)
            requires
                a * one <= p <= q < b * one + one,
                one > 0,
        ;
    }
    if alpha_covers(len, height) {
        let low = taps::tap_low(height, MODEL_H as nat, end);
        assert((taps::tap_high(height, MODEL_H as nat, end) + 1) * MODEL_W <= len);
    }
}

} // verus!

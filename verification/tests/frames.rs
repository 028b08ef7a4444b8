use matte::{
    output, row_to_rgb, to_frame, to_input, upscale_alpha, validate_params, PixFmt, Single, Taps,
    MODEL_H, MODEL_W,
};

fn value(number: &Single) -> f32 {
    f32::from_bits(number.bits)
}

fn number(value: f32) -> Single {
    Single { bits: value.to_bits() }
}

fn values(bytes: &[u8]) -> Vec<f32> {
    bytes
        .chunks_exact(4)
        .map(|word| f32::from_le_bytes([word[0], word[1], word[2], word[3]]))
        .collect()
}

#[test]
fn an_identity_resize_reads_each_sample_squarely() {
    let taps = Taps::build(4, 4);
    assert_eq!(taps.low, vec![0, 1, 2, 3]);
    assert_eq!(taps.high, vec![1, 2, 3, 3]);
    assert!(taps.fraction.iter().all(|f| value(f) == 0.0));
}

#[test]
fn a_two_to_one_shrink_reads_between_its_pairs() {
    // Destination 0 sits at source 0.5: halfway between samples 0 and 1.
    let taps = Taps::build(2, 4);
    assert_eq!((taps.low[0], taps.high[0]), (0, 1));
    assert!((value(&taps.fraction[0]) - 0.5).abs() < 1e-6);
    assert_eq!((taps.low[1], taps.high[1]), (2, 3));
    assert!((value(&taps.fraction[1]) - 0.5).abs() < 1e-6);
}

#[test]
fn the_input_is_the_models_own_plane_count_and_size() {
    let (width, height) = (8usize, 8usize);
    let frame = vec![0u8; width * height * 4];
    let bytes = to_input(&frame, PixFmt::Rgba, width, height);
    assert_eq!(bytes.len(), 3 * MODEL_H * MODEL_W * 4);
}

#[test]
fn a_flat_frame_stays_flat_and_lands_in_zero_to_one() {
    // Every pixel 51 in every channel: the stretch cannot invent detail,
    // and 51/255 is exactly 0.2.
    let (width, height) = (16usize, 16usize);
    let frame: Vec<u8> = std::iter::repeat([51, 51, 51, 255])
        .take(width * height)
        .flatten()
        .collect();
    let bytes = to_input(&frame, PixFmt::Rgba, width, height);
    for value in values(&bytes) {
        assert!((value - 0.2).abs() < 1e-6, "got {value}");
    }
}

#[test]
fn neutral_chroma_yuv_is_grayscale_rgb() {
    let (width, height) = (4usize, 4usize);
    let mut frame = vec![100u8; width * height];
    frame.extend(vec![128u8; 2 * 2 * 2]);
    let mut rgb = vec![number(0.0); width * 3];
    row_to_rgb(&frame, PixFmt::Yuv420p, width, height, 0, &mut rgb);
    for x in 0..width {
        assert!((value(&rgb[x]) - 100.0).abs() < 0.01, "red is the luma");
        assert!((value(&rgb[width + x]) - 100.0).abs() < 0.01);
        assert!((value(&rgb[2 * width + x]) - 100.0).abs() < 0.01);
    }
}

#[test]
fn a_flat_alpha_upscales_flat_and_rounds_to_full() {
    let alpha = vec![number(1.0); MODEL_W * MODEL_H];
    let map = upscale_alpha(&alpha, 33, 17);
    assert!(map.iter().all(|v| *v == 255));
    let none = vec![number(0.0); MODEL_W * MODEL_H];
    assert!(upscale_alpha(&none, 33, 17).iter().all(|v| *v == 0));
}

#[test]
fn an_alpha_edge_upscales_as_a_monotonic_ramp() {
    // Left half 0, right half 1: each output row must never step down.
    let mut alpha = vec![number(0.0); MODEL_W * MODEL_H];
    for row in alpha.chunks_exact_mut(MODEL_W) {
        for value in &mut row[MODEL_W / 2..] {
            *value = number(1.0);
        }
    }
    let width = 640;
    let map = upscale_alpha(&alpha, width, 360);
    let row = &map[0..width];
    assert!(row.windows(2).all(|pair| pair[0] <= pair[1]));
    assert_eq!(row[0], 0);
    assert_eq!(row[width - 1], 255);
}

#[test]
fn a_matte_writes_neutral_chroma_and_opaque_alpha() {
    let map = vec![255u8; 4 * 4];
    let yuv = to_frame(&map, PixFmt::Yuv420p, 4, 4, 4 * 4 + 2 * 2 * 2);
    assert!(yuv[..16].iter().all(|v| *v == 255), "the luma is the matte");
    assert!(
        yuv[16..].iter().all(|v| *v == 128),
        "and the chroma is neutral"
    );

    let rgba = to_frame(&map, PixFmt::Rgba, 4, 4, 4 * 4 * 4);
    for pixel in rgba.chunks_exact(4) {
        assert_eq!(
            pixel,
            [255, 255, 255, 255],
            "equal in every channel, and opaque"
        );
    }
}

#[test]
fn the_alpha_tensor_is_found_by_shape() {
    assert_eq!(output(&[vec![1, 1, 192, 320]]).expect("found"), 0);
    // Beside something else, in either order.
    assert_eq!(
        output(&[vec![1, 4, 96, 160], vec![1, 1, 192, 320]]).expect("found"),
        1
    );
    let error = output(&[vec![1, 1, 320, 192]]).expect_err("transposed is not the alpha");
    assert!(error.starts_with("matte: "), "{error}");
}

#[test]
fn params_are_refused_because_there_are_none() {
    assert!(validate_params("").is_ok());
    assert!(validate_params("{}").is_ok());
    let error = validate_params(r#"{"conf":0.5}"#).expect_err("no params exist");
    assert!(error.contains("matte takes no params"), "{error}");
}

/// One row as red, green and blue, in the machine's own arithmetic.
fn machine_row(frame: &[u8], yuv: bool, width: usize, height: usize, y: usize) -> Vec<f32> {
    let mut out = vec![0f32; width * 3];
    for x in 0..width {
        if yuv {
            let pixels = width * height;
            let (cw, ch) = (width.div_ceil(2), height.div_ceil(2));
            let ci = (y / 2).min(ch - 1) * cw + (x / 2).min(cw - 1);
            let l = f32::from(frame[y * width + x]);
            let u = f32::from(frame[pixels + ci]) - 128.0;
            let v = f32::from(frame[pixels + cw * ch + ci]) - 128.0;
            out[x] = l + 1.402 * v;
            out[width + x] = l - 0.344_136 * u - 0.714_136 * v;
            out[2 * width + x] = l + 1.772 * u;
        } else {
            for c in 0..3 {
                out[c * width + x] = f32::from(frame[(y * width + x) * 4 + c]);
            }
        }
    }
    out
}

/// The two samples and the fraction of one step, in the machine's arithmetic.
fn machine_tap(count: usize, extent: usize, step: usize) -> (usize, usize, f32) {
    let per_step = extent as f32 / count as f32;
    let f = ((step as f32 + 0.5) * per_step - 0.5).clamp(0.0, (extent - 1) as f32);
    let base = f.floor() as usize;
    (base, (base + 1).min(extent - 1), f - base as f32)
}

fn machine_input(frame: &[u8], yuv: bool, width: usize, height: usize) -> Vec<u32> {
    let mut planes = vec![0u32; 3 * MODEL_W * MODEL_H];
    for y in 0..MODEL_H {
        let (low, high, ty) = machine_tap(MODEL_H, height, y);
        let top = machine_row(frame, yuv, width, height, low);
        let bottom = machine_row(frame, yuv, width, height, high);
        for x in 0..MODEL_W {
            let (left, right, tx) = machine_tap(MODEL_W, width, x);
            for c in 0..3 {
                let at = |row: &[f32]| {
                    let (a, b) = (row[c * width + left], row[c * width + right]);
                    a + (b - a) * tx
                };
                let (ta, tb) = (at(&top), at(&bottom));
                let sample = (ta + (tb - ta) * ty).clamp(0.0, 255.0) / 255.0;
                planes[(c * MODEL_H + y) * MODEL_W + x] = sample.to_bits();
            }
        }
    }
    planes
}

fn noise(len: usize, seed: u32) -> Vec<u8> {
    let mut state = seed;
    (0..len)
        .map(|_| {
            state = state.wrapping_mul(1_664_525).wrapping_add(1_013_904_223);
            (state >> 24) as u8
        })
        .collect()
}

#[test]
fn an_rgba_frame_is_stretched_bit_for_bit() {
    let (width, height) = (37usize, 23usize);
    let frame = noise(width * height * 4, 7);
    let bytes = to_input(&frame, PixFmt::Rgba, width, height);
    let bits: Vec<u32> = values(&bytes).iter().map(|v| v.to_bits()).collect();
    assert_eq!(bits, machine_input(&frame, false, width, height));
}

#[test]
fn an_odd_yuv_frame_is_stretched_bit_for_bit() {
    let (width, height) = (35usize, 21usize);
    let frame = noise(width * height + 2 * 18 * 11, 99);
    let bytes = to_input(&frame, PixFmt::Yuv420p, width, height);
    let bits: Vec<u32> = values(&bytes).iter().map(|v| v.to_bits()).collect();
    assert_eq!(bits, machine_input(&frame, true, width, height));
    assert!(values(&bytes).iter().all(|v| (0.0..=1.0).contains(v)));
}

#[test]
fn a_frame_larger_than_the_model_is_stretched_bit_for_bit() {
    let (width, height) = (700usize, 401usize);
    let frame = noise(width * height * 4, 3);
    let bytes = to_input(&frame, PixFmt::Rgba, width, height);
    let bits: Vec<u32> = values(&bytes).iter().map(|v| v.to_bits()).collect();
    assert_eq!(bits, machine_input(&frame, false, width, height));
}

#[test]
fn an_alpha_is_upscaled_byte_for_byte() {
    let alpha: Vec<f32> = noise(MODEL_W * MODEL_H, 11)
        .iter()
        .map(|b| f32::from(*b) / 200.0 - 0.1)
        .collect();
    let numbers: Vec<Single> = alpha.iter().map(|v| number(*v)).collect();
    let (width, height) = (97usize, 61usize);
    let mut expected = vec![0u8; width * height];
    for y in 0..height {
        let (low, high, ty) = machine_tap(height, MODEL_H, y);
        for x in 0..width {
            let (left, right, tx) = machine_tap(width, MODEL_W, x);
            let at = |row: usize| {
                let (a, b) = (alpha[row * MODEL_W + left], alpha[row * MODEL_W + right]);
                a + (b - a) * tx
            };
            let value = at(low) + (at(high) - at(low)) * ty;
            expected[y * width + x] = (value * 255.0).round().clamp(0.0, 255.0) as u8;
        }
    }
    assert_eq!(upscale_alpha(&numbers, width, height), expected);
}

#[test]
fn a_pixel_format_is_known_by_its_name() {
    assert_eq!(PixFmt::parse("yuv420p"), Ok(PixFmt::Yuv420p));
    assert_eq!(PixFmt::parse("rgba"), Ok(PixFmt::Rgba));
    assert_eq!(
        PixFmt::parse("nv12"),
        Err("matte does not accept pixel format nv12".to_string())
    );
    assert!(PixFmt::parse("RGBA").is_err());
    assert!(PixFmt::parse("").is_err());
}

#[test]
fn the_alpha_may_have_any_number_of_leading_ones() {
    assert_eq!(output(&[vec![192, 320]]), Ok(0));
    assert_eq!(output(&[vec![1, 1, 1, 192, 320]]), Ok(0));
    assert_eq!(output(&[vec![320], vec![], vec![192, 320], vec![1, 192, 320]]), Ok(2));
    assert!(output(&[vec![2, 192, 320]]).is_err());
}

#[test]
fn what_the_graph_returned_is_named_where_no_alpha_is() {
    assert_eq!(
        output(&[vec![1, 4, 96, 160], vec![], vec![10]]),
        Err(
            "matte: the graph returned [[1, 4, 96, 160], [], [10]], and this module wants the \
             [1, 1, 192, 320] alpha of longpipe's small export"
                .to_string()
        )
    );
    assert_eq!(
        output(&[]),
        Err(
            "matte: the graph returned [], and this module wants the [1, 1, 192, 320] alpha of \
             longpipe's small export"
                .to_string()
        )
    );
}

#[test]
fn params_may_have_white_space_around_them() {
    assert_eq!(validate_params(" \t\r\n"), Ok(()));
    assert_eq!(validate_params("\u{2003}{}\u{a0}\u{85}"), Ok(()));
    assert_eq!(
        validate_params(" { } "),
        Err("matte takes no params, got: { }".to_string())
    );
    // A zero-width space is no white space.
    assert!(validate_params("\u{200b}").is_err());
}

#[test]
fn every_character_is_trimmed_as_white_space_is() {
    for code in 0u32..0x3100 {
        if let Some(c) = char::from_u32(code) {
            let text = format!("{c}{{}}{c}");
            assert_eq!(validate_params(&text).is_ok(), c.is_whitespace(), "{code:x}");
        }
    }
}

#[test]
fn a_gray_matte_reads_back_as_it_was_written() {
    let (width, height) = (5usize, 3usize);
    let map = noise(width * height, 5);
    for (pix_fmt, len) in [(PixFmt::Rgba, 60), (PixFmt::Yuv420p, 15 + 2 * 3 * 2)] {
        let frame = to_frame(&map, pix_fmt, width, height, len);
        for y in 0..height {
            let mut rgb = vec![number(0.0); width * 3];
            row_to_rgb(&frame, pix_fmt, width, height, y, &mut rgb);
            for x in 0..width {
                for c in 0..3 {
                    assert_eq!(value(&rgb[c * width + x]), f32::from(map[y * width + x]));
                }
            }
        }
    }
}

#[test]
fn a_matte_leaves_what_is_no_pixel_empty() {
    assert_eq!(
        to_frame(&[9, 8], PixFmt::Rgba, 2, 1, 10),
        vec![9, 9, 9, 255, 8, 8, 8, 255, 0, 0]
    );
    assert_eq!(to_frame(&[9], PixFmt::Rgba, 1, 1, 3), vec![0, 0, 0]);
    assert_eq!(to_frame(&[9, 8], PixFmt::Yuv420p, 2, 1, 4), vec![9, 8, 128, 128]);
}

#[test]
fn a_resize_of_nothing_reads_nothing() {
    let taps = Taps::build(0, 0);
    assert!(taps.low.is_empty() && taps.high.is_empty() && taps.fraction.is_empty());
    let one = Taps::build(3, 1);
    assert_eq!(one.low, vec![0, 0, 0]);
    assert_eq!(one.high, vec![0, 0, 0]);
}

#[test]
fn taps_match_the_machine() {
    for (count, extent) in [(320, 1920), (192, 1080), (1920, 320), (7, 5), (3, 1000), (1000, 3)] {
        let taps = Taps::build(count, extent);
        for step in 0..count {
            let (low, high, fraction) = machine_tap(count, extent, step);
            assert_eq!((taps.low[step], taps.high[step]), (low, high));
            assert_eq!(taps.fraction[step].bits, fraction.to_bits());
        }
    }
}

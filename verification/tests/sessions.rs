use matte::session::{load_failed, session_failed, ErrorCode};
use matte::{
    describe, failed, set_params, Format, GraphError, InputName, Next, Opened, PixFmt, Processed,
    Tensor, Video, MODEL_H, MODEL_W, PARAMS_SCHEMA,
};

fn video(pix_fmt: &str, width: u32, height: u32) -> Format {
    Format::Video(Video { pix_fmt: pix_fmt.to_string(), width, height })
}

fn opened(pix_fmt: &str, width: u32, height: u32) -> Opened {
    match Opened::init(&video(pix_fmt, width, height), "{}") {
        Ok(opened) => opened,
        Err(message) => panic!("{message}"),
    }
}

fn refused(format: &Format, params: &str) -> String {
    match Opened::init(format, params) {
        Ok(_) => panic!("opened"),
        Err(message) => message,
    }
}

fn error(code: ErrorCode) -> GraphError {
    GraphError { code, data: "no such input".to_string() }
}

fn flat(value: f32) -> Tensor {
    let mut data: Vec<u8> = Vec::new();
    for _ in 0..MODEL_W * MODEL_H {
        data.extend(value.to_le_bytes());
    }
    Tensor { dimensions: vec![1, 1, 192, 320], data }
}

#[test]
fn opening_settles_the_geometry() {
    let opened = opened("yuv420p", 1920, 1080);
    assert_eq!((opened.width, opened.height), (1920, 1080));
    assert_eq!(opened.pix_fmt, PixFmt::Yuv420p);
    assert_eq!(opened.input_name, InputName::Rgb);
    assert_eq!(opened.input_name.spelled(), "rgb");
    assert_eq!(InputName::First.spelled(), "0");
}

#[test]
fn streams_are_refused_in_turn() {
    assert_eq!(
        refused(&Format::Audio, "{\"conf\":1}"),
        "matte reads frames, and this stream is audio"
    );
    assert_eq!(
        refused(&video("nv12", 2, 2), "{\"conf\":1}"),
        "matte does not accept pixel format nv12"
    );
    assert_eq!(
        refused(&video("rgba", 2, 2), " {\"conf\":1} "),
        "matte takes no params, got: {\"conf\":1}"
    );
    assert_eq!(set_params(""), Ok(()));
    assert_eq!(set_params("x"), Err("matte takes no params, got: x".to_string()));
}

#[test]
fn a_failure_spells_its_code() {
    let codes = [
        (ErrorCode::InvalidArgument, "invalid-argument"),
        (ErrorCode::InvalidEncoding, "invalid-encoding"),
        (ErrorCode::Timeout, "timeout"),
        (ErrorCode::RuntimeError, "runtime-error"),
        (ErrorCode::UnsupportedOperation, "unsupported-operation"),
        (ErrorCode::TooLarge, "too-large"),
        (ErrorCode::NotFound, "not-found"),
        (ErrorCode::Security, "security"),
        (ErrorCode::Unknown, "unknown"),
    ];
    for (code, spelled) in codes {
        assert_eq!(
            failed("compute", &error(code)),
            format!("matte: compute: {spelled} (no such input)")
        );
    }
    assert_eq!(
        load_failed(&error(ErrorCode::NotFound)),
        "matte: load-by-name(\"matte\"): not-found (no such input)"
    );
    assert_eq!(
        session_failed(&error(ErrorCode::TooLarge)),
        "matte: init-execution-context: too-large (no such input)"
    );
}

#[test]
fn an_input_of_another_name_is_reached_by_position_once_and_for_all() {
    let mut opened = opened("rgba", 4, 4);
    let request = opened.request(&[0; 64]);
    assert_eq!(request.name, InputName::Rgb);
    assert!(matches!(
        opened.replied(request.name, Err(error(ErrorCode::InvalidArgument))),
        Next::Retry
    ));
    assert_eq!(opened.input_name, InputName::Rgb);
    match opened.replied(request.by_position().name, Ok(vec![("alpha".to_string(), flat(1.0))])) {
        Next::Read(returned) => assert_eq!(returned[0].0, "alpha"),
        _ => panic!("not read"),
    }
    assert_eq!(opened.input_name, InputName::First);
    match opened.replied(opened.input_name, Err(error(ErrorCode::RuntimeError))) {
        Next::Fail(message) => {
            assert_eq!(message, "matte: compute: runtime-error (no such input)")
        }
        _ => panic!("not failed"),
    }
    assert_eq!(opened.input_name, InputName::First);
}

#[test]
fn a_name_is_settled_only_by_a_call_that_works() {
    let mut opened = opened("rgba", 4, 4);
    for _ in 0..2 {
        assert_eq!(opened.request(&[0u8; 64]).name, InputName::Rgb);
        assert!(matches!(
            opened.replied(InputName::Rgb, Err(error(ErrorCode::Timeout))),
            Next::Retry
        ));
        match opened.replied(InputName::First, Err(error(ErrorCode::Timeout))) {
            Next::Fail(message) => assert_eq!(message, "matte: compute: timeout (no such input)"),
            _ => panic!("not failed"),
        }
        assert_eq!(opened.input_name, InputName::Rgb);
    }
    assert!(matches!(opened.replied(InputName::Rgb, Ok(vec![])), Next::Read(_)));
    assert_eq!(opened.input_name, InputName::Rgb);
}

#[test]
fn a_request_is_the_frame_as_a_tensor() {
    let opened = opened("rgba", 8, 8);
    let frame = vec![255u8; 8 * 8 * 4];
    assert!(opened.reads(frame.len()));
    let request = opened.request(&frame);
    assert_eq!(request.name, InputName::Rgb);
    assert_eq!(request.tensor.dimensions, vec![1, 3, 192, 320]);
    assert_eq!(request.tensor.data.len(), 3 * 192 * 320 * 4);
    assert_eq!(request.tensor.data[..4], 1.0f32.to_le_bytes());
    assert!(!opened.reads(frame.len() - 1));
}

#[test]
fn a_retry_asks_by_position_with_the_same_tensor() {
    let opened = opened("rgba", 2, 2);
    let frame: Vec<u8> = (0..16).collect();
    let again = opened.request(&frame).by_position();
    assert_eq!(again.name, InputName::First);
    assert_eq!(again.name.spelled(), "0");
    let first = opened.request(&frame);
    assert_eq!(again.tensor.dimensions, first.tensor.dimensions);
    assert_eq!(again.tensor.data, first.tensor.data);
}

#[test]
fn a_matte_is_made_of_the_first_alpha_whatever_its_name() {
    let opened = opened("yuv420p", 3, 3);
    let len = 9 + 2 * 4;
    let returned = vec![
        ("alpha".to_string(), Tensor { dimensions: vec![1, 4], data: vec![0; 16] }),
        ("anything".to_string(), flat(0.5)),
        ("alpha".to_string(), flat(1.0)),
    ];
    assert!(opened.accepts(&returned, len));
    let frame = match opened.matte(&returned, len) {
        Ok(frame) => frame,
        Err(message) => panic!("{message}"),
    };
    let mut expected = vec![128u8; 9];
    expected.extend([128u8; 8]);
    assert_eq!(frame, expected);

    let none = vec![("alpha".to_string(), Tensor { dimensions: vec![1, 4], data: vec![] })];
    assert!(opened.accepts(&none, len));
    assert_eq!(
        opened.matte(&none, len),
        Err(
            "matte: the graph returned [[1, 4]], and this module wants the [1, 1, 192, 320] \
             alpha of longpipe's small export"
                .to_string()
        )
    );
}

#[test]
fn an_alpha_too_short_for_its_shape_is_not_accepted() {
    let opened = opened("rgba", 3, 300);
    let mut tensor = flat(1.0);
    tensor.data.pop();
    let returned = vec![("alpha".to_string(), tensor)];
    assert!(!opened.accepts(&returned, 3 * 300 * 4));
    assert!(opened.accepts(&vec![("alpha".to_string(), flat(0.0))], 3 * 300 * 4));
}

#[test]
fn a_frame_too_short_for_the_luma_is_not_accepted() {
    let opened = opened("yuv420p", 4, 4);
    let returned = vec![("alpha".to_string(), flat(1.0))];
    assert!(!opened.accepts(&returned, 15));
    assert!(opened.accepts(&returned, 16));
}

#[test]
fn each_frame_leaves_as_one_matte_in_order() {
    let mut out: Processed<i64> = Processed::new();
    assert_eq!(out.next(2), Some(0));
    assert_eq!(out.add_matte(40, Ok(vec![1])), Ok(()));
    assert_eq!(out.next(2), Some(1));
    assert_eq!(
        out.add_matte(80, Err("matte: compute".to_string())),
        Err("matte: compute".to_string())
    );
    assert_eq!(out.next(2), Some(1));
    assert_eq!(out.add_matte(80, Ok(vec![2, 3])), Ok(()));
    assert_eq!(out.next(2), None);
    let frames: Vec<(i64, Vec<u8>)> =
        out.frames.iter().map(|f| (f.pts, f.frame.clone())).collect();
    assert_eq!(frames, vec![(40, vec![1]), (80, vec![2, 3])]);
    assert!(out.frames.iter().all(|f| f.rows.is_empty()) && out.trailing.is_empty());
}

#[test]
fn the_module_describes_itself() {
    let about = describe();
    assert_eq!(about.meta.name, "matte");
    assert_eq!(about.meta.version, "0.1.0");
    assert_eq!(
        about.meta.params_schema,
        r#"{"type":"object","properties":{},"additionalProperties":false}"#
    );
    assert_eq!(about.meta.params_schema, PARAMS_SCHEMA);
    assert_eq!(about.meta.rows_schema, "");
    assert_eq!(about.meta.pixel_formats, vec!["yuv420p", "rgba"]);
    assert!(about.meta.pixel_formats.iter().all(|name| PixFmt::parse(name).is_ok()));
    assert!(about.meta.sample_formats.is_empty() && about.meta.sample_rates.is_empty());
    assert!(about.meta.channel_counts.is_empty() && about.meta.rows_language.is_empty());
    assert_eq!((about.window, about.stride, about.inputs), (1, 1, 1));
    assert!(about.pure && about.one_to_one);
    assert!(!about.reads_rows && !about.forwards_rows);
}

//! An open instance: what `init` settles, what each frame asks of the graph,
//! and what is made of its answers.

use crate::alpha;
use crate::input;
use crate::model::{MODEL_H, MODEL_W};
use crate::params;
use crate::pixels;
use crate::pixels::PixFmt;
use vstd::prelude::*;

verus! {

/// What went wrong with the graph.
#[derive(Clone, Copy, Debug, PartialEq, Eq, Structural)]
pub enum ErrorCode {
    InvalidArgument,
    InvalidEncoding,
    Timeout,
    RuntimeError,
    UnsupportedOperation,
    TooLarge,
    NotFound,
    Security,
    Unknown,
}

impl ErrorCode {
    /// The `wasi:nn` spelling.
    pub open spec fn spelling(self) -> Seq<char> {
        match self {
            ErrorCode::InvalidArgument => "invalid-argument"@,
            ErrorCode::InvalidEncoding => "invalid-encoding"@,
            ErrorCode::Timeout => "timeout"@,
            ErrorCode::RuntimeError => "runtime-error"@,
            ErrorCode::UnsupportedOperation => "unsupported-operation"@,
            ErrorCode::TooLarge => "too-large"@,
            ErrorCode::NotFound => "not-found"@,
            ErrorCode::Security => "security"@,
            ErrorCode::Unknown => "unknown"@,
        }
    }

    fn spelled(&self) -> (r: &'static str)
        ensures
            r@ == self.spelling(),
    {
        match self {
            ErrorCode::InvalidArgument => "invalid-argument",
            ErrorCode::InvalidEncoding => "invalid-encoding",
            ErrorCode::Timeout => "timeout",
            ErrorCode::RuntimeError => "runtime-error",
            ErrorCode::UnsupportedOperation => "unsupported-operation",
            ErrorCode::TooLarge => "too-large",
            ErrorCode::NotFound => "not-found",
            ErrorCode::Security => "security",
            ErrorCode::Unknown => "unknown",
        }
    }
}

/// An error of the graph: its code, and what the host had to say of it.
pub struct GraphError {
    pub code: ErrorCode,
    pub data: String,
}

/// `matte: {what}: {code} ({data})`
pub open spec fn failure_text(what: Seq<char>, error: GraphError) -> Seq<char> {
    "matte: "@ + what + ": "@ + error.code.spelling() + " ("@ + error.data@ + ")"@
}

/// The `wasi:nn` spelling of an error code, so a message says what actually
/// went wrong rather than how this module happens to format things.
pub fn failed(what: &str, error: &GraphError) -> (message: String)
    ensures
        message@ == failure_text(what@, *error),
        message@ == "matte: "@ + what@ + ": "@ + error.code.spelling() + " ("@ + error.data@ + ")"@,
{
    let mut message = "matte: ".to_string();
    message.append(what);
    message.append(": ");
    message.append(error.code.spelled());
    message.append(" (");
    message.append(error.data.as_str());
    message.append(")");
    message
}

/// The video a stream carries.
pub struct Video {
    pub pix_fmt: String,
    pub width: u32,
    pub height: u32,
}

/// What a stream carries.
pub enum Format {
    Video(Video),
    Audio,
}

/// How the graph's input is named.
#[derive(Clone, Copy, Debug, PartialEq, Eq, Structural)]
pub enum InputName {
    /// What the export calls its input tensor.
    Rgb,
    /// The host accepts a position where it accepts a name, which is what an
    /// export that named its input something else is reached by.
    First,
}

impl InputName {
    pub open spec fn spelling(self) -> Seq<char> {
        match self {
            InputName::Rgb => "rgb"@,
            InputName::First => "0"@,
        }
    }

    /// The name as the host is told it.
    pub fn spelled(&self) -> (r: &'static str)
        ensures
            r@ == self.spelling(),
    {
        match self {
            InputName::Rgb => "rgb",
            InputName::First => "0",
        }
    }
}

/// What `init` settled.
pub struct Opened {
    pub width: usize,
    pub height: usize,
    pub pix_fmt: PixFmt,
    /// What the graph calls its input, settled by the first call that works.
    pub input_name: InputName,
}

impl Opened {
    /// What opening a stream settles before the graph is loaded, or why the
    /// stream is refused: audio first, then the pixel format, then the
    /// parameters.
    pub fn init(format: &Format, params: &str) -> (r: Result<Opened, String>)
        ensures
            match *format {
                Format::Audio => r matches Err(message) && message@
                    == "matte reads frames, and this stream is audio"@,
                Format::Video(video) => match PixFmt::named(video.pix_fmt@) {
                    None => r matches Err(message) && message@ == PixFmt::refusal(video.pix_fmt@),
                    Some(pix_fmt) => if !params::says_nothing(params@) {
                        r matches Err(message) && message@ == params::no_params_text(params@)
                    } else {
                        &&& r matches Ok(opened)
                        &&& opened.width == video.width
                        &&& opened.height == video.height
                        &&& opened.pix_fmt == pix_fmt
                        &&& opened.input_name == InputName::Rgb
                    },
                },
            },
            r is Ok <==> (*format matches Format::Video(video) && (video.pix_fmt@ == "yuv420p"@
                || video.pix_fmt@ == "rgba"@) && (crate::text::trimmed(params@) == ""@
                || crate::text::trimmed(params@) == "{}"@)),
            r matches Ok(opened) ==> (*format matches Format::Video(video) && (opened.pix_fmt
                == PixFmt::Yuv420p <==> video.pix_fmt@ == "yuv420p"@) && opened.width == video.width
                && opened.height == video.height && opened.input_name == InputName::Rgb),
    {
        match format {
            Format::Audio => Err("matte reads frames, and this stream is audio".to_string()),
            Format::Video(video) => match PixFmt::parse(video.pix_fmt.as_str()) {
                Err(message) => Err(message),
                Ok(pix_fmt) => match params::validate_params(params) {
                    Err(message) => Err(message),
                    Ok(()) => Ok(
                        Opened {
                            width: video.width as usize,
                            height: video.height as usize,
                            pix_fmt,
                            input_name: InputName::Rgb,
                        },
                    ),
                },
            },
        }
    }
}

/// What is said where the graph does not load.
pub fn load_failed(error: &GraphError) -> (message: String)
    ensures
        message@ == failure_text("load-by-name(\"matte\")"@, *error),
        message@ == "matte: "@ + "load-by-name(\"matte\")"@ + ": "@ + error.code.spelling() + " ("@
            + error.data@ + ")"@,
{
    failed("load-by-name(\"matte\")", error)
}

/// What is said where the graph loads and no session can be had.
pub fn session_failed(error: &GraphError) -> (message: String)
    ensures
        message@ == failure_text("init-execution-context"@, *error),
        message@ == "matte: "@ + "init-execution-context"@ + ": "@ + error.code.spelling() + " ("@
            + error.data@ + ")"@,
{
    failed("init-execution-context", error)
}

/// A tensor: its dimensions and its bytes.
pub struct Tensor {
    pub dimensions: Vec<u32>,
    pub data: Vec<u8>,
}

/// What the graph is asked to compute for a frame.
pub struct Request {
    pub name: InputName,
    pub tensor: Tensor,
}

impl Request {
    /// The same tensor, asked for by position.
    pub fn by_position(self) -> (r: Request)
        ensures
            r.name == InputName::First,
            r.tensor == self.tensor,
    {
        Request { name: InputName::First, tensor: self.tensor }
    }
}

/// What the graph answers: the tensors it returned, each with its name, or
/// an error.
pub type Reply = Result<Vec<(String, Tensor)>, GraphError>;

/// What a reply of the graph calls for.
pub enum Next {
    /// The graph computed: these tensors are there to be read.
    Read(Vec<(String, Tensor)>),
    /// Ask once more, with the same tensor, by position: what
    /// [`Request::by_position`] makes of the request.
    Retry,
    /// The frame failed, with this message.
    Fail(String),
}

impl Opened {
    /// The frame as the tensor the graph takes, under the name its input has.
    pub fn request(&self, frame: &[u8]) -> (r: Request)
        requires
            input::is_whole(
                frame@.len(),
                self.pix_fmt,
                self.width as nat,
                self.height as nat,
            ) || input::stretchable(
                frame@.len(),
                self.pix_fmt,
                self.width as nat,
                self.height as nat,
            ),
        ensures
            r.name == self.input_name,
            r.tensor.dimensions@ == seq![1u32, 3, 192, 320],
            r.tensor.data@.len() == 3 * MODEL_H * MODEL_W * 4,
            forall|c: nat, y: nat, x: nat|
                c < 3 && y < MODEL_H && x < MODEL_W ==> input::number_at(
                    r.tensor.data@,
                    input::slot(c, y, x),
                ) == #[trigger] input::input_sample(
                    frame@,
                    self.pix_fmt,
                    self.width as nat,
                    self.height as nat,
                    y,
                    x,
                    c,
                ),
            forall|c: nat, y: nat, x: nat|
                c < 3 && y < 192 && x < 320 ==> ({
                    let at = 4 * (c * 61440 + y * 320 + x) as int;
                    crate::single::decode(
                        (r.tensor.data@[at] + 0x100 * r.tensor.data@[at + 1] + 0x1_0000
                            * r.tensor.data@[at + 2] + 0x100_0000 * r.tensor.data@[at + 3]) as u32,
                    )
                }) == #[trigger] input::input_sample(
                    frame@,
                    self.pix_fmt,
                    self.width as nat,
                    self.height as nat,
                    y,
                    x,
                    c,
                ),
    {
        let dimensions: Vec<u32> = vec![1, 3, 192, 320];
        assert(dimensions@ =~= seq![1u32, 3, 192, 320]);
        let data = input::to_input(frame, self.pix_fmt, self.width, self.height);
        Request { name: self.input_name, tensor: Tensor { dimensions, data } }
    }

    /// What the graph's reply to a request under the name `asked` calls for.
    ///
    /// An error under the export's own name may be an export whose input is
    /// not called that. The host takes a position where it takes a name, so
    /// the retry names none, and the name that worked is kept for every frame
    /// after this one. Where neither works, nothing is settled.
    pub fn replied(&mut self, asked: InputName, reply: Reply) -> (next: Next)
        ensures
            final(self).width == old(self).width,
            final(self).height == old(self).height,
            final(self).pix_fmt == old(self).pix_fmt,
            final(self).input_name == name_after(old(self).input_name, asked, reply is Err),
            match reply {
                Ok(returned) => next == Next::Read(returned),
                Err(error) => if calls_for_retry(asked, true) {
                    next == Next::Retry
                } else {
                    next matches Next::Fail(message) && message@ == failure_text(
                        "compute"@,
                        error,
                    )
                },
            },
            reply is Ok ==> final(self).input_name == asked,
            reply is Err ==> final(self).input_name == old(self).input_name,
            next is Read <==> reply is Ok,
            next is Retry <==> reply is Err && asked == InputName::Rgb,
            next matches Next::Fail(message) ==> message@ == "matte: "@ + "compute"@ + ": "@ + (
            reply->Err_0).code.spelling() + " ("@ + (reply->Err_0).data@ + ")"@,
    {
        match reply {
            Ok(returned) => {
                self.input_name = asked;
                Next::Read(returned)
            },
            Err(error) => match asked {
                InputName::Rgb => Next::Retry,
                InputName::First => Next::Fail(failed("compute", &error)),
            },
        }
    }
}

/// The name of the input after a reply to a request under `asked`: the one
/// that worked, or, where it did not work, the one so far.
pub open spec fn name_after(name: InputName, asked: InputName, is_error: bool) -> InputName {
    if is_error {
        name
    } else {
        asked
    }
}

/// Whether a reply to a request under `asked` calls for another, by position.
pub open spec fn calls_for_retry(asked: InputName, is_error: bool) -> bool {
    is_error && asked == InputName::Rgb
}

/// How many retries a frame takes that is first asked for under `asked`, of
/// the replies that are there for it; each tells whether it is an error.
pub open spec fn retries(asked: InputName, replies: Seq<bool>) -> nat
    decreases replies.len(),
{
    if replies.len() > 0 && calls_for_retry(asked, replies.first()) {
        1 + retries(InputName::First, replies.drop_first())
    } else {
        0
    }
}

/// The name of the input after a frame that is first asked for under `asked`.
pub open spec fn name_after_frame(
    name: InputName,
    asked: InputName,
    replies: Seq<bool>,
) -> InputName
    decreases replies.len(),
{
    if replies.len() == 0 {
        name
    } else {
        let next = name_after(name, asked, replies.first());
        if calls_for_retry(asked, replies.first()) {
            name_after_frame(next, InputName::First, replies.drop_first())
        } else {
            next
        }
    }
}

/// The name of the input after frames, each asked for under the name so far.
pub open spec fn name_after_frames(name: InputName, frames: Seq<Seq<bool>>) -> InputName
    decreases frames.len(),
{
    if frames.len() == 0 {
        name
    } else {
        name_after_frames(name_after_frame(name, name, frames.first()), frames.drop_first())
    }
}

/// A frame is retried once at most, and not at all where it is asked for by
/// position.
pub proof fn lemma_at_most_one_retry_a_frame(asked: InputName, replies: Seq<bool>)
    ensures
        retries(asked, replies) <= 1,
        asked == InputName::First ==> retries(asked, replies) == 0,
{
    reveal_with_fuel(retries, 2);
}

/// Once a call by position has worked, the position is kept: whatever frames
/// follow, and whatever the graph replies, none is retried.
pub proof fn lemma_no_retry_once_position_worked(
    name: InputName,
    between: Seq<Seq<bool>>,
    replies: Seq<bool>,
)
    ensures
        ({
            let settled = name_after(name, InputName::First, false);
            let later = name_after_frames(settled, between);
            &&& later == InputName::First
            &&& retries(later, replies) == 0
        }),
{
    lemma_position_is_kept(between);
    lemma_at_most_one_retry_a_frame(InputName::First, replies);
}

proof fn lemma_position_is_kept(frames: Seq<Seq<bool>>)
    ensures
        name_after_frames(InputName::First, frames) == InputName::First,
    decreases frames.len(),
{
    if frames.len() > 0 {
        lemma_position_is_kept(frames.drop_first());
    }
}

/// The first call that works settles the name: while none does, it stays
/// what it was, and the next frame is asked for under it again.
pub proof fn lemma_failures_settle_nothing(name: InputName, frames: Seq<Seq<bool>>)
    requires
        forall|i: int, j: int|
            0 <= i < frames.len() && 0 <= j < frames[i].len() ==> #[trigger] frames[i][j],
    ensures
        name_after_frames(name, frames) == name,
    decreases frames.len(),
{
    if frames.len() > 0 {
        let replies = frames.first();
        assert forall|j: int| 0 <= j < replies.len() implies replies[j] by {
            assert(frames[0][j]);
        }
        reveal_with_fuel(name_after_frame, 3);
        assert(name_after_frame(name, name, replies) == name);
        let rest = frames.drop_first();
        assert forall|i: int, j: int|
            0 <= i < rest.len() && 0 <= j < rest[i].len() implies #[trigger] rest[i][j] by {
            assert(frames[i + 1][j]);
        }
        lemma_failures_settle_nothing(name, rest);
    }
}

/// The shapes of the tensors that came back.
pub open spec fn shapes_of(returned: Seq<(String, Tensor)>) -> Seq<Seq<u32>> {
    returned.map_values(|named: (String, Tensor)| named.1.dimensions@)
}

/// `i` is the first of the shapes that is the alpha's.
pub open spec fn is_first_alpha(shapes: Seq<Seq<u32>>, i: int) -> bool {
    &&& 0 <= i < shapes.len()
    &&& alpha::is_alpha(shapes[i])
    &&& forall|j: int| 0 <= j < i ==> !alpha::is_alpha(#[trigger] shapes[j])
}

/// No shape is the alpha's.
pub open spec fn lacks_alpha(shapes: Seq<Seq<u32>>) -> bool {
    forall|i: int| 0 <= i < shapes.len() ==> !alpha::is_alpha(#[trigger] shapes[i])
}

/// The values of the floats in a tensor's bytes.
pub open spec fn floats(data: Seq<u8>) -> Seq<crate::num::Num> {
    Seq::new(data.len() / 4, |i: int| input::number_at(data, i))
}

/// The matte of a frame of `len` bytes, out of the alpha's bytes.
pub open spec fn matte_frame(
    data: Seq<u8>,
    pix_fmt: PixFmt,
    width: nat,
    height: nat,
    len: nat,
) -> Seq<u8> {
    let map = alpha::matte_map(floats(data), width, height);
    Seq::new(len, |i: int| pixels::matte_byte(map, pix_fmt, len, i))
}

/// The alpha's bytes are enough for the frame, and a frame of `len` bytes has
/// room for the matte.
pub open spec fn fits(
    data: Seq<u8>,
    pix_fmt: PixFmt,
    width: nat,
    height: nat,
    len: nat,
) -> bool {
    &&& width * height <= usize::MAX
    &&& alpha::alpha_covers(data.len() / 4, height)
    &&& pix_fmt is Yuv420p ==> width * height <= len
}

impl Opened {
    /// The matte of a frame of `len` bytes, out of what the graph returned.
    pub fn matte(&self, returned: &Vec<(String, Tensor)>, len: usize) -> (r: Result<
        Vec<u8>,
        String,
    >)
        requires
            forall|i: int|
                is_first_alpha(shapes_of(returned@), i) ==> fits(
                    (#[trigger] returned@[i]).1.data@,
                    self.pix_fmt,
                    self.width as nat,
                    self.height as nat,
                    len as nat,
                ),
        ensures
            r matches Ok(frame) ==> frame@.len() == len,
            r matches Ok(frame) ==> self.pix_fmt is Yuv420p ==> forall|i: int|
                self.width * self.height <= i < len ==> frame@[i] == 128,
            match r {
                Ok(frame) => exists|i: int|
                    is_first_alpha(shapes_of(returned@), i) && frame@ == matte_frame(
                        (#[trigger] returned@[i]).1.data@,
                        self.pix_fmt,
                        self.width as nat,
                        self.height as nat,
                        len as nat,
                    ),
                Err(message) => {
                    &&& lacks_alpha(shapes_of(returned@))
                    &&& message@ == alpha::no_alpha_text(shapes_of(returned@))
                },
            },
    {
        let mut shapes: Vec<Vec<u32>> = Vec::new();
        for i in 0..returned.len()
            invariant
                alpha::dimensions_of(shapes@) == shapes_of(returned@).take(i as int),
                shapes@.len() == i,
        {
            let shape = vstd::slice::slice_to_vec(returned[i].1.dimensions.as_slice());
            shapes.push(shape);
            assert(alpha::dimensions_of(shapes@) =~= shapes_of(returned@).take(i + 1));
        }
        let ghost all = shapes_of(returned@);
        assert(all.take(returned@.len() as int) =~= all);
        proof {
            assert forall|i: int| 0 <= i < all.len() implies #[trigger] all[i] == shapes@[i]@ by {
                assert(alpha::dimensions_of(shapes@)[i] == shapes@[i]@);
            }
        }
        match alpha::output(shapes.as_slice()) {
            Err(message) => Err(message),
            Ok(found) => {
                assert(is_first_alpha(all, found as int));
                let tensor = &returned[found].1;
                assert(fits(
                    returned@[found as int].1.data@,
                    self.pix_fmt,
                    self.width as nat,
                    self.height as nat,
                    len as nat,
                ));
                let numbers = alpha::le_f32s(tensor.data.as_slice());
                assert(alpha::values(numbers@) =~= floats(tensor.data@));
                let map = alpha::upscale_alpha(numbers.as_slice(), self.width, self.height);
                let frame = pixels::to_frame(
                    map.as_slice(),
                    self.pix_fmt,
                    self.width,
                    self.height,
                    len,
                );
                assert(frame@ =~= matte_frame(
                    tensor.data@,
                    self.pix_fmt,
                    self.width as nat,
                    self.height as nat,
                    len as nat,
                ));
                Ok(frame)
            },
        }
    }
}

impl Opened {
    /// Whether a frame of `len` bytes holds all that its request reads.
    pub fn reads(&self, len: usize) -> (r: bool)
        ensures
            r == input::stretchable(
                len as nat,
                self.pix_fmt,
                self.width as nat,
                self.height as nat,
            ),
    {
        input::can_stretch(len, self.pix_fmt, self.width, self.height)
    }

    /// Whether the alpha among the tensors, where there is one, is enough for
    /// the matte of a frame of `len` bytes.
    pub fn accepts(&self, returned: &Vec<(String, Tensor)>, len: usize) -> (r: bool)
        ensures
            r == forall|i: int|
                is_first_alpha(shapes_of(returned@), i) ==> fits(
                    (#[trigger] returned@[i]).1.data@,
                    self.pix_fmt,
                    self.width as nat,
                    self.height as nat,
                    len as nat,
                ),
    {
        let ghost all = shapes_of(returned@);
        for i in 0..returned.len()
            invariant
                all == shapes_of(returned@),
                forall|j: int| 0 <= j < i ==> !alpha::is_alpha(#[trigger] all[j]),
        {
            assert(all[i as int] == returned@[i as int].1.dimensions@);
            if alpha::has_alpha_shape(&returned[i].1.dimensions) {
                assert(is_first_alpha(all, i as int));
                let tensor = &returned[i].1;
                proof {
                    let (w, h) = (self.width as nat, self.height as nat);
                    assert forall|j: int| is_first_alpha(all, j) implies j == i by {
                        if j < i {
                            assert(!alpha::is_alpha(all[j]));
                        } else if i < j {
                            assert(!alpha::is_alpha(all[i as int]));
                        }
                    }
                    assert((forall|j: int|
                        is_first_alpha(all, j) ==> fits(
                            (#[trigger] returned@[j]).1.data@,
                            self.pix_fmt,
                            w,
                            h,
                            len as nat,
                        )) == fits(returned@[i as int].1.data@, self.pix_fmt, w, h, len as nat));
                }
                return self.has_room(len) && alpha::can_cover(tensor.data.len() / 4, self.height);
            }
        }
        true
    }

    fn has_room(&self, len: usize) -> (r: bool)
        ensures
            r == (self.width * self.height <= usize::MAX && (self.pix_fmt is Yuv420p ==> self.width
                * self.height <= len)),
    {
        match self.width.checked_mul(self.height) {
            None => false,
            Some(pixels) => match self.pix_fmt {
                PixFmt::Yuv420p => pixels <= len,
                PixFmt::Rgba => true,
            },
        }
    }
}

/// Names are not read: the same tensors under other names have the same
/// shapes, and so the same alpha and the same matte.
pub proof fn lemma_names_are_not_read(a: Seq<(String, Tensor)>, b: Seq<(String, Tensor)>)
    requires
        a.len() == b.len(),
        forall|i: int| 0 <= i < a.len() ==> (#[trigger] a[i]).1 == b[i].1,
    ensures
        shapes_of(a) == shapes_of(b),
        forall|i: int| is_first_alpha(shapes_of(a), i) <==> is_first_alpha(shapes_of(b), i),
        lacks_alpha(shapes_of(a)) <==> lacks_alpha(shapes_of(b)),
{
    assert(shapes_of(a) =~= shapes_of(b));
}

/// There is one alpha at most, and one where any shape is the alpha's.
pub proof fn lemma_one_alpha(shapes: Seq<Seq<u32>>, i: int, j: int)
    requires
        is_first_alpha(shapes, i),
    ensures
        is_first_alpha(shapes, j) ==> i == j,
        !lacks_alpha(shapes),
{
}

/// The floats of a tensor, one for each four bytes, the lowest byte first.
pub proof fn lemma_floats_are_little_endian(data: Seq<u8>, i: int)
    requires
        0 <= i,
        4 * i + 3 < data.len(),
    ensures
        floats(data).len() == data.len() / 4,
        floats(data)[i] == crate::single::decode(
            (data[4 * i] + 0x100 * data[4 * i + 1] + 0x1_0000 * data[4 * i + 2] + 0x100_0000
                * data[4 * i + 3]) as u32,
        ),
{
}

/// The matte of a frame shows, at each pixel, the gray of the alpha there: in
/// yuv420p as the luma, with 128 in every byte behind it, and in rgba as red,
/// green and blue alike, opaque.
pub proof fn lemma_matte_frame_shows_the_map(
    data: Seq<u8>,
    width: nat,
    height: nat,
    len: nat,
    y: nat,
    x: nat,
)
    requires
        x < width,
        y < height,
    ensures
        ({
            let gray = alpha::matte_map(floats(data), width, height)[(y * width + x) as int];
            let yuv = matte_frame(data, PixFmt::Yuv420p, width, height, len);
            let rgba = matte_frame(data, PixFmt::Rgba, width, height, len);
            let at = (y * width + x) as int;
            &&& width * height <= len ==> yuv[at] == gray
            &&& 4 * (width * height) <= len ==> {
                &&& rgba[4 * at] == gray
                &&& rgba[4 * at + 1] == gray
                &&& rgba[4 * at + 2] == gray
                &&& rgba[4 * at + 3] == 255
            }
            &&& forall|i: int| width * height <= i < len ==> yuv[i] == 128
        }),
{
    assert(0 <= y * width + x < width * height) by (nonlinear_arith)
        requires
            x < width,
            y < height,
    ;
}

/// The alpha among the tensors is the first that holds the model's own plane
/// once: 192 rows of 320 columns, and 1 in every dimension before them.
pub proof fn lemma_first_alpha_is_known_by_shape(returned: Seq<(String, Tensor)>, i: int)
    requires
        0 <= i < returned.len(),
    ensures
        is_first_alpha(shapes_of(returned), i) ==> {
            let shape = returned[i].1.dimensions@;
            &&& shape.len() >= 2
            &&& shape[shape.len() - 2] == 192
            &&& shape[shape.len() - 1] == 320
            &&& forall|k: int| 0 <= k < shape.len() - 2 ==> shape[k] == 1
        },
        is_first_alpha(shapes_of(returned), i) ==> forall|j: int|
            0 <= j < i ==> {
                let shape = (#[trigger] returned[j]).1.dimensions@;
                ||| shape.len() < 2
                ||| shape[shape.len() - 2] != 192
                ||| shape[shape.len() - 1] != 320
                ||| exists|k: int| 0 <= k < shape.len() - 2 && shape[k] != 1
            },
        lacks_alpha(shapes_of(returned)) ==> {
            let shape = returned[i].1.dimensions@;
            ||| shape.len() < 2
            ||| shape[shape.len() - 2] != 192
            ||| shape[shape.len() - 1] != 320
            ||| exists|k: int| 0 <= k < shape.len() - 2 && shape[k] != 1
        },
        lacks_alpha(shapes_of(returned)) ==> !is_first_alpha(shapes_of(returned), i),
{
    let shapes = shapes_of(returned);
    assert(shapes[i] == returned[i].1.dimensions@);
    assert forall|j: int| 0 <= j < i && is_first_alpha(shapes, i) implies {
        let shape = (#[trigger] returned[j]).1.dimensions@;
        ||| shape.len() < 2
        ||| shape[shape.len() - 2] != 192
        ||| shape[shape.len() - 1] != 320
        ||| exists|k: int| 0 <= k < shape.len() - 2 && shape[k] != 1
    } by {
        assert(shapes[j] == returned[j].1.dimensions@);
        assert(!alpha::is_alpha(shapes[j]));
    }
}

/// The bytes of a whole plane are enough for a frame of any geometry that has
/// room for its matte.
pub proof fn lemma_whole_alpha_fits(
    data: Seq<u8>,
    pix_fmt: PixFmt,
    width: nat,
    height: nat,
    len: nat,
)
    requires
        data.len() >= 4 * (192 * 320),
        width * height <= usize::MAX,
        pix_fmt is Yuv420p ==> width * height <= len,
    ensures
        fits(data, pix_fmt, width, height, len),
{
    alpha::lemma_plane_covers(data.len() / 4, height);
}

} // verus!

//! What the module says of itself, and the frames that leave it.

use crate::params::PARAMS_SCHEMA;
use crate::pixels::PixFmt;
use vstd::prelude::*;

verus! {

/// What a module says of itself.
pub struct Meta {
    pub name: String,
    pub version: String,
    pub params_schema: String,
    pub rows_schema: String,
    pub pixel_formats: Vec<String>,
    pub sample_formats: Vec<String>,
    pub sample_rates: Vec<u32>,
    pub channel_counts: Vec<u32>,
    pub rows_language: Vec<String>,
}

/// What a module says of the windows it takes.
pub struct WindowMeta {
    pub meta: Meta,
    pub window: u32,
    pub stride: u32,
    pub pure: bool,
    pub one_to_one: bool,
    pub reads_rows: bool,
    pub forwards_rows: bool,
    pub inputs: u32,
}

/// The pixel formats that the module says it takes.
pub open spec fn described_formats() -> Seq<Seq<char>> {
    seq!["yuv420p"@, "rgba"@]
}

/// A module of pictures alone, with no parameters and no rows: each frame on
/// its own, one out for each one in, from one input.
pub fn describe() -> (r: WindowMeta)
    ensures
        r.meta.name@ == "matte"@,
        r.meta.version@ == "0.1.0"@,
        r.meta.params_schema@ == PARAMS_SCHEMA@,
        r.meta.rows_schema@ == ""@,
        r.meta.params_schema@
            == "{\"type\":\"object\",\"properties\":{},\"additionalProperties\":false}"@,
        r.meta.pixel_formats@.map_values(|name: String| name@) == described_formats(),
        r.meta.pixel_formats@.len() == 2,
        r.meta.pixel_formats@[0]@ == "yuv420p"@,
        r.meta.pixel_formats@[1]@ == "rgba"@,
        r.meta.sample_formats@.len() == 0,
        r.meta.sample_rates@.len() == 0,
        r.meta.channel_counts@.len() == 0,
        r.meta.rows_language@.len() == 0,
        r.window == 1,
        r.stride == 1,
        r.pure,
        r.one_to_one,
        !r.reads_rows,
        !r.forwards_rows,
        r.inputs == 1,
{
    let mut pixel_formats: Vec<String> = Vec::new();
    pixel_formats.push("yuv420p".to_string());
    pixel_formats.push("rgba".to_string());
    assert(pixel_formats@.map_values(|name: String| name@) =~= described_formats());
    proof {
        reveal_strlit("");
        assert(""@ =~= Seq::<char>::empty());
    }
    WindowMeta {
        meta: Meta {
            name: "matte".to_string(),
            version: "0.1.0".to_string(),
            params_schema: PARAMS_SCHEMA.to_string(),
            rows_schema: String::new(),
            pixel_formats,
            sample_formats: Vec::new(),
            sample_rates: Vec::new(),
            channel_counts: Vec::new(),
            rows_language: Vec::new(),
        },
        window: 1,
        stride: 1,
        pure: true,
        one_to_one: true,
        reads_rows: false,
        forwards_rows: false,
        inputs: 1,
    }
}

/// The formats that the module says it takes are those it takes.
pub proof fn lemma_described_formats_are_accepted(name: Seq<char>)
    ensures
        described_formats().contains(name) <==> PixFmt::named(name) is Some,
{
    let formats = described_formats();
    if PixFmt::named(name) is Some {
        assert(formats[0] == name || formats[1] == name);
    }
}

/// A frame that leaves: its time, its bytes, and rows, of which there are
/// none.
pub struct OutFrame<P> {
    pub pts: P,
    pub frame: Vec<u8>,
    pub rows: Vec<String>,
}

/// What leaves for a window: the frames so far, and nothing trailing.
pub struct Processed<P> {
    pub frames: Vec<OutFrame<P>>,
    pub trailing: Vec<String>,
}

impl<P> Processed<P> {
    /// The time and the bytes of each frame so far.
    pub open spec fn outs(&self) -> Seq<(P, Seq<u8>)> {
        self.frames@.map_values(|out: OutFrame<P>| (out.pts, out.frame@))
    }

    /// There are no rows anywhere.
    pub open spec fn wf(&self) -> bool {
        &&& self.trailing@.len() == 0
        &&& forall|i: int| 0 <= i < self.frames@.len() ==> (#[trigger] self.frames@[i]).rows@.len()
            == 0
    }

    pub fn new() -> (r: Processed<P>)
        ensures
            r.wf(),
            r.outs() == Seq::<(P, Seq<u8>)>::empty(),
    {
        let r = Processed { frames: Vec::new(), trailing: Vec::new() };
        assert(r.outs() =~= Seq::<(P, Seq<u8>)>::empty());
        r
    }

    /// Which frame of a window of `count` is next, where one is left.
    pub fn next(&self, count: u32) -> (r: Option<u32>)
        ensures
            match r {
                Some(i) => i == self.outs().len() && i < count,
                None => self.outs().len() >= count,
            },
            r is Some <==> self.frames@.len() < count,
            r matches Some(i) ==> i == self.frames@.len(),
    {
        assert(self.outs().len() == self.frames@.len());
        let done: usize = self.frames.len();
        if done < count as usize {
            Some(done as u32)
        } else {
            None
        }
    }

    /// The matte of the next frame joins those that leave, under the frame's
    /// own time. There is no way to say no of a frame, so one that failed
    /// stops the run, and nothing is passed off as its matte.
    pub fn add_matte(&mut self, pts: P, matte: Result<Vec<u8>, String>) -> (r: Result<(), String>)
        requires
            old(self).wf(),
        ensures
            final(self).wf(),
            match matte {
                Ok(frame) => r is Ok && final(self).outs() == old(self).outs().push((pts, frame@)),
                Err(message) => r == Err::<(), String>(message) && final(self).outs() == old(
                    self,
                ).outs(),
            },
            forall|i: int|
                0 <= i < old(self).frames@.len() ==> final(self).frames@[i] == old(self).frames@[i],
            match matte {
                Ok(frame) => {
                    &&& final(self).frames@.len() == old(self).frames@.len() + 1
                    &&& final(self).frames@.last().pts == pts
                    &&& final(self).frames@.last().frame == frame
                },
                Err(_) => final(self).frames@.len() == old(self).frames@.len(),
            },
            final(self).trailing == old(self).trailing,
    {
        match matte {
            Ok(frame) => {
                let ghost before = self.outs();
                self.frames.push(OutFrame { pts, frame, rows: Vec::new() });
                assert(self.outs() =~= before.push((pts, frame@)));
                Ok(())
            },
            Err(message) => Err(message),
        }
    }
}

} // verus!

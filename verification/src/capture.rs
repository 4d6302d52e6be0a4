//! Where frames come from.

use crate::preprocess::BgrImage;
use crate::text;
use vstd::prelude::*;

verus! {

/// The width that a video is taken to have where nothing says it.
pub const VIDEO_WIDTH: u32 = 640;

/// The height that a video is taken to have where nothing says it.
pub const VIDEO_HEIGHT: u32 = 360;

/// A source of frames.
#[derive(Clone, Copy, PartialEq, Eq, Structural)]
pub enum Source {
    /// Bytes of frames on the standard input.
    Raw,
    /// A picture.
    Still,
    /// A film.
    Video,
    /// The camera with a number.
    Camera { idx: u32 },
}

/// The whole number that a text says, zero where it says none.
pub open spec fn camera_number(capture: Seq<char>) -> u32 {
    match text::number_in(capture) {
        Some(n) if n <= u32::MAX => n as u32,
        _ => 0,
    }
}

/// The source that is asked for: raw frames, a file that is a picture or a film, or the camera with
/// the given number.
pub fn choose_source(capture: &str, raw_rgb: bool, is_file: bool, is_picture: bool) -> (r: Source)
    ensures
        r == (if raw_rgb {
            Source::Raw
        } else if is_file && is_picture {
            Source::Still
        } else if is_file {
            Source::Video
        } else {
            Source::Camera { idx: camera_number(capture@) }
        }),
{
    if raw_rgb {
        return Source::Raw;
    }
    if is_file {
        if is_picture {
            return Source::Still;
        }
        return Source::Video;
    }
    let v: Vec<char> = text::chars(capture);
    let idx: u32 = match text::parse_u32(v.as_slice()) {
        Some(n) => n,
        None => 0,
    };
    Source::Camera { idx }
}

/// The size of the first buffers: no side is zero.
pub fn buffer_size(width: u32, height: u32) -> (r: (u32, u32))
    ensures
        r.0 == (if width < 1 {
            1
        } else {
            width
        }),
        r.1 == (if height < 1 {
            1
        } else {
            height
        }),
{
    (
        if width < 1 {
            1
        } else {
            width
        },
        if height < 1 {
            1
        } else {
            height
        },
    )
}

/// Whether a picture is shown once more: it is the first time, or it is to be repeated.
pub fn still_goes_on(done: bool, repeat: bool) -> (r: bool)
    ensures
        r == (!done || repeat),
{
    !done || repeat
}

/// Whether a character ends a field of what is told of a video.
pub open spec fn ends_field_spec(c: char) -> bool {
    c == ',' || c == 'x' || c == '\n'
}

/// Whether a character ends a field of what is told of a video.
#[verifier::when_used_as_spec(ends_field_spec)]
pub fn ends_field(c: char) -> (r: bool)
    ensures
        r == ends_field_spec(c),
{
    c == ',' || c == 'x' || c == '\n'
}

/// Where the field that starts at `i` ends.
pub open spec fn field_end(s: Seq<char>, i: int) -> int
    decreases s.len() - i,
{
    if i < 0 || i >= s.len() || ends_field(s[i]) {
        i
    } else {
        field_end(s, i + 1)
    }
}

proof fn lemma_field_end(s: Seq<char>, i: int)
    requires
        0 <= i <= s.len(),
    ensures
        i <= field_end(s, i) <= s.len(),
    decreases s.len() - i,
{
    if i < s.len() && !ends_field(s[i]) {
        lemma_field_end(s, i + 1);
    }
}

/// The number in a field, or what stands for it where there is none.
pub open spec fn field_number(field: Seq<char>, otherwise: u32) -> u32 {
    match text::number_in(text::trimmed(field)) {
        Some(n) if n <= u32::MAX => n as u32,
        _ => otherwise,
    }
}

/// The width and height in the first two fields of what is told of a video.
pub open spec fn told_size(told: Seq<char>) -> (u32, u32) {
    let s = text::trimmed(told);
    let a = field_end(s, 0);
    let w = field_number(s.subrange(0, a), VIDEO_WIDTH);
    if a < s.len() {
        let b = field_end(s, a + 1);
        (w, field_number(s.subrange(a + 1, b), VIDEO_HEIGHT))
    } else {
        (w, VIDEO_HEIGHT)
    }
}

fn next_end(s: &[char], from: usize) -> (r: usize)
    requires
        from <= s@.len(),
    ensures
        r == field_end(s@, from as int),
        from <= r <= s@.len(),
{
    proof {
        lemma_field_end(s@, from as int);
    }
    let mut i: usize = from;
    while i < s.len() && !ends_field(s[i])
        invariant
            from <= i <= s@.len(),
            field_end(s@, from as int) == field_end(s@, i as int),
        decreases s@.len() - i,
    {
        i = i + 1;
    }
    i
}

fn number_of(field: &[char], otherwise: u32) -> (r: u32)
    ensures
        r == field_number(field@, otherwise),
{
    let t: Vec<char> = text::trim(field);
    match text::parse_u32(t.as_slice()) {
        Some(n) => n,
        None => otherwise,
    }
}

/// The width and height in what is told of a video: two numbers with a comma, an `x` or a line end
/// between them.
pub fn probed_size(told: &str) -> (r: (u32, u32))
    ensures
        r == told_size(told@),
{
    let all: Vec<char> = text::chars(told);
    let s: Vec<char> = text::trim(all.as_slice());
    let a: usize = next_end(s.as_slice(), 0);
    let first: &[char] = vstd::slice::slice_subrange(s.as_slice(), 0, a);
    let w: u32 = number_of(first, VIDEO_WIDTH);
    if a < s.len() {
        let b: usize = next_end(s.as_slice(), a + 1);
        let second: &[char] = vstd::slice::slice_subrange(s.as_slice(), a + 1, b);
        (w, number_of(second, VIDEO_HEIGHT))
    } else {
        (w, VIDEO_HEIGHT)
    }
}

/// The picture with left and right swapped.
pub fn mirror_bgr(frame: &BgrImage) -> (r: BgrImage)
    requires
        frame.wf(),
    ensures
        r.wf(),
        r.width == frame.width,
        r.height == frame.height,
        r.data@ == frame.mirrored(),
{
    frame.flip_h()
}

} // verus!

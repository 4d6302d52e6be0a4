//! Landmarks drawn over a frame.

use crate::ieee::decimal;
use crate::ieee::fixed;
use crate::ieee::single;
use crate::ieee::single::Single;
use crate::pnp;
use crate::pnp::solve::CosSin;
use crate::pnp::{project_points, Camera};
use crate::preprocess;
use crate::preprocess::BgrImage;
use crate::text;
use crate::tracker::face::LANDMARKS;
use crate::tracker::FaceReport;
use vstd::prelude::*;

verus! {

/// A pixel that is given a colour.
#[derive(Clone, Copy)]
pub struct Mark {
    pub x: i64,
    pub y: i64,
    pub color: [u8; 3],
}

/// The bytes of a picture with one pixel given a colour.
pub open spec fn marked(data: Seq<u8>, w: int, h: int, m: Mark) -> Seq<u8> {
    if 0 <= m.x < w && 0 <= m.y < h {
        let i = preprocess::place(w, m.x as int, m.y as int, 0);
        data.update(i, m.color[0]).update(i + 1, m.color[1]).update(i + 2, m.color[2])
    } else {
        data
    }
}

/// The bytes of a picture with marks put on it, one after the other.
pub open spec fn painted(data: Seq<u8>, w: int, h: int, marks: Seq<Mark>) -> Seq<u8>
    decreases marks.len(),
{
    if marks.len() == 0 {
        data
    } else {
        marked(painted(data, w, h, marks.drop_last()), w, h, marks.last())
    }
}

/// The last of the marks on a pixel.
pub open spec fn last_mark(marks: Seq<Mark>, x: int, y: int) -> Option<Mark>
    decreases marks.len(),
{
    if marks.len() == 0 {
        None
    } else if marks.last().x == x && marks.last().y == y {
        Some(marks.last())
    } else {
        last_mark(marks.drop_last(), x, y)
    }
}

/// A pixel has the colour of the last mark on it; one without a mark stays as it is.
pub proof fn lemma_painted(data: Seq<u8>, w: int, h: int, marks: Seq<Mark>, x: int, y: int, c: int)
    requires
        data.len() == w * h * 3,
        0 <= x < w,
        0 <= y < h,
        0 <= c < 3,
    ensures
        painted(data, w, h, marks).len() == data.len(),
        painted(data, w, h, marks)[preprocess::place(w, x, y, c)] == (match last_mark(marks, x, y) {
            Some(m) => m.color[c],
            None => data[preprocess::place(w, x, y, c)],
        }),
    decreases marks.len(),
{
    preprocess::lemma_place(w, h, x, y, c);
    preprocess::lemma_place(w, h, x, y, 0);
    if marks.len() > 0 {
        let m = marks.last();
        lemma_painted(data, w, h, marks.drop_last(), x, y, c);
        if 0 <= m.x < w && 0 <= m.y < h {
            preprocess::lemma_place(w, h, m.x as int, m.y as int, 0);
            preprocess::lemma_place(w, h, m.x as int, m.y as int, 2);
            if m.x != x || m.y != y {
                let i = preprocess::place(w, m.x as int, m.y as int, 0);
                let j = preprocess::place(w, x, y, c);
                preprocess::lemma_place(w, h, m.x as int, m.y as int, 1);
                assert(j != i && j != i + 1 && j != i + 2) by {
                    if j == i || j == i + 1 || j == i + 2 {
                        let k = j - i;
                        assert(j == preprocess::place(w, m.x as int, m.y as int, k));
                        preprocess::lemma_place(w, h, m.x as int, m.y as int, k);
                    }
                }
            }
        }
    }
}

/// Puts marks on a picture, one after the other; those outside of it are left out.
pub fn paint(frame: &mut BgrImage, marks: &[Mark])
    requires
        old(frame).wf(),
    ensures
        final(frame).wf(),
        final(frame).width == old(frame).width,
        final(frame).height == old(frame).height,
        final(frame).data@ == painted(
            old(frame).data@,
            old(frame).width as int,
            old(frame).height as int,
            marks@,
        ),
{
    let ghost start = *frame;
    let mut i: usize = 0;
    assert(marks@.take(0) =~= Seq::empty());
    while i < marks.len()
        invariant
            i <= marks@.len(),
            frame.wf(),
            start == *old(frame),
            frame.width == start.width,
            frame.height == start.height,
            frame.data@ == painted(
                start.data@,
                start.width as int,
                start.height as int,
                marks@.take(i as int),
            ),
        decreases marks@.len() - i,
    {
        let m: Mark = marks[i];
        proof {
            assert(marks@.take(i + 1).drop_last() =~= marks@.take(i as int));
            assert(marks@.take(i + 1).last() == m);
            assert(frame.width as int * frame.height as int >= frame.width as int || frame.height
                == 0) by (nonlinear_arith);
            assert(frame.width as int * frame.height as int >= frame.height as int || frame.width
                == 0) by (nonlinear_arith);
        }
        if 0 <= m.x && m.x < frame.width as i64 && 0 <= m.y && m.y < frame.height as i64 {
            frame.set(m.x as i32, m.y as i32, m.color);
        }
        i = i + 1;
    }
    assert(marks@.take(i as int) =~= marks@);
}

/// The rows of the picture of a character, five pixels each.
pub open spec fn glyph_spec(ch: char) -> [u8; 7] {
    if ch == '0' {
        [14, 17, 19, 21, 25, 17, 14]
    } else if ch == '1' {
        [4, 12, 4, 4, 4, 4, 14]
    } else if ch == '2' {
        [14, 17, 1, 6, 8, 16, 31]
    } else if ch == '3' {
        [14, 17, 1, 6, 1, 17, 14]
    } else if ch == '4' {
        [2, 6, 10, 18, 31, 2, 2]
    } else if ch == '5' {
        [31, 16, 30, 1, 1, 17, 14]
    } else if ch == '6' {
        [14, 16, 30, 17, 17, 17, 14]
    } else if ch == '7' {
        [31, 1, 2, 4, 8, 8, 8]
    } else if ch == '8' {
        [14, 17, 17, 14, 17, 17, 14]
    } else if ch == '9' {
        [14, 17, 17, 15, 1, 1, 14]
    } else if ch == '.' {
        [0, 0, 0, 0, 0, 4, 4]
    } else if ch == '-' {
        [0, 0, 0, 31, 0, 0, 0]
    } else {
        [31, 17, 17, 17, 17, 17, 31]
    }
}

/// The rows of the picture of a character, five pixels each: digits, the point and the minus sign,
/// and a box for all else.
#[verifier::when_used_as_spec(glyph_spec)]
pub fn glyph(ch: char) -> (r: [u8; 7])
    ensures
        r == glyph_spec(ch),
{
    if ch == '0' {
        [14, 17, 19, 21, 25, 17, 14]
    } else if ch == '1' {
        [4, 12, 4, 4, 4, 4, 14]
    } else if ch == '2' {
        [14, 17, 1, 6, 8, 16, 31]
    } else if ch == '3' {
        [14, 17, 1, 6, 1, 17, 14]
    } else if ch == '4' {
        [2, 6, 10, 18, 31, 2, 2]
    } else if ch == '5' {
        [31, 16, 30, 1, 1, 17, 14]
    } else if ch == '6' {
        [14, 16, 30, 17, 17, 17, 14]
    } else if ch == '7' {
        [31, 1, 2, 4, 8, 8, 8]
    } else if ch == '8' {
        [14, 17, 17, 14, 17, 17, 14]
    } else if ch == '9' {
        [14, 17, 17, 15, 1, 1, 14]
    } else if ch == '.' {
        [0, 0, 0, 0, 0, 4, 4]
    } else if ch == '-' {
        [0, 0, 0, 31, 0, 0, 0]
    } else {
        [31, 17, 17, 17, 17, 17, 31]
    }
}

/// What the pixels of a row of a glyph count for.
pub const COLUMNS: [u8; 5] = [16, 8, 4, 2, 1];

/// Whether a pixel of a row of a glyph is set.
pub open spec fn lit(bits: u8, col: int) -> bool {
    (bits / COLUMNS[col]) % 2 == 1
}

/// The marks of the first `k` pixels of a character, row by row.
pub open spec fn char_marks(ch: char, x: int, y: int, color: [u8; 3], k: int) -> Seq<Mark>
    decreases k,
{
    if k <= 0 {
        Seq::empty()
    } else {
        let before = char_marks(ch, x, y, color, k - 1);
        let (row, col) = ((k - 1) / 5, (k - 1) % 5);
        if lit(glyph(ch)[row], col) {
            before.push(Mark { x: (x + col) as i64, y: (y + row) as i64, color })
        } else {
            before
        }
    }
}

/// The marks of the first `n` characters of a text.
pub open spec fn text_marks(s: Seq<char>, x: int, y: int, color: [u8; 3], n: int) -> Seq<Mark>
    decreases n,
{
    if n <= 0 {
        Seq::empty()
    } else {
        text_marks(s, x, y, color, n - 1) + char_marks(s[n - 1], x + 6 * (n - 1), y, color, 35)
    }
}

/// Adds the marks of a character.
pub fn draw_char(marks: &mut Vec<Mark>, ch: char, x: i64, y: i64, color: [u8; 3])
    requires
        -0x1_0000_0000 <= x <= 0x10_0000_0000_0000,
        -0x1_0000_0000 <= y <= 0x1_0000_0000,
    ensures
        final(marks)@ == old(marks)@ + char_marks(ch, x as int, y as int, color, 35),
{
    let bits: [u8; 7] = glyph(ch);
    let ghost start = marks@;
    assert(start + Seq::<Mark>::empty() =~= start);
    let mut row: usize = 0;
    while row < 7
        invariant
            row <= 7,
            bits == glyph(ch),
            -0x1_0000_0000 <= x <= 0x10_0000_0000_0000,
            -0x1_0000_0000 <= y <= 0x1_0000_0000,
            marks@ == start + char_marks(ch, x as int, y as int, color, 5 * row),
        decreases 7 - row,
    {
        let mut col: usize = 0;
        while col < 5
            invariant
                row < 7,
                col <= 5,
                bits == glyph(ch),
                -0x1_0000_0000 <= x <= 0x10_0000_0000_0000,
                -0x1_0000_0000 <= y <= 0x1_0000_0000,
                marks@ == start + char_marks(ch, x as int, y as int, color, 5 * row + col),
            decreases 5 - col,
        {
            let ghost before = char_marks(ch, x as int, y as int, color, 5 * row + col);
            proof {
                assert((5 * row + col) / 5 == row && (5 * row + col) % 5 == col as int);
            }
            if (bits[row] / COLUMNS[col]) % 2 == 1 {
                let m: Mark = Mark { x: x + col as i64, y: y + row as i64, color };
                marks.push(m);
                assert(start + before.push(m) =~= (start + before).push(m));
            }
            col = col + 1;
        }
        row = row + 1;
    }
}

/// Adds the marks of a text, whose characters stand six pixels apart.
pub fn put_text(marks: &mut Vec<Mark>, s: &[char], x: i64, y: i64, color: [u8; 3])
    requires
        -0x1_0000_0000 <= x <= 0x1_0000_0000,
        -0x1_0000_0000 <= y <= 0x1_0000_0000,
        s@.len() <= 0xffff_ffff,
    ensures
        final(marks)@ == old(marks)@ + text_marks(s@, x as int, y as int, color, s@.len() as int),
{
    let ghost start = marks@;
    assert(start + Seq::<Mark>::empty() =~= start);
    let mut i: usize = 0;
    while i < s.len()
        invariant
            i <= s@.len() <= 0xffff_ffff,
            -0x1_0000_0000 <= x <= 0x1_0000_0000,
            -0x1_0000_0000 <= y <= 0x1_0000_0000,
            marks@ == start + text_marks(s@, x as int, y as int, color, i as int),
        decreases s@.len() - i,
    {
        let ghost before = text_marks(s@, x as int, y as int, color, i as int);
        draw_char(marks, s[i], x + 6 * (i as i64), y, color);
        proof {
            let more = char_marks(s@[i as int], x + 6 * i, y as int, color, 35);
            assert((start + before) + more =~= start + (before + more));
        }
        i = i + 1;
    }
}

/// A coordinate as the pixel that it is nearest to.
pub open spec fn pixel(v: Single) -> int {
    (v + single::of(decimal::N0_5)).to_int(i32::MIN as int, i32::MAX as int)
}

fn pixel_of(v: Single) -> (r: i64)
    ensures
        r == pixel(v),
        i32::MIN <= r <= i32::MAX,
{
    (v + single::of(decimal::N0_5)).to_i32() as i64
}

/// Whether a landmark is left out: a pupil of an eye that is shut, or one that is not sure.
pub open spec fn left_out(f: FaceReport, i: int) -> bool {
    &&& i == 66 || i == 67
    &&& f.eye_blink[i - 66].lt(single::of(decimal::N0_15)) || f.lms@[i][2].lt(single::of(decimal::N0_20))
}

/// The marks of the first `n` landmarks of a face; with their numbers where all is shown.
pub open spec fn landmark_marks(f: FaceReport, visualize: i32, n: int) -> Seq<Mark>
    decreases n,
{
    if n <= 0 {
        Seq::empty()
    } else {
        let before = landmark_marks(f, visualize, n - 1);
        let i = n - 1;
        if left_out(f, i) {
            before
        } else {
            let (x, y) = (pixel(f.lms@[i][0]), pixel(f.lms@[i][1]));
            let named = if visualize > 3 {
                let s = text::digits_of(i as nat);
                before + text_marks(s, y, x, [0, 255, 255], s.len() as int)
            } else {
                before
            };
            let blue = if i >= LANDMARKS {
                255
            } else {
                0u8
            };
            named.push(Mark { x: y as i64, y: x as i64, color: [0, 255, blue] })
        }
    }
}

/// The marks of the first `n` points of a solid face, four pixels each.
pub open spec fn solid_marks(pts: Seq<[Single; 2]>, n: int) -> Seq<Mark>
    decreases n,
{
    if n <= 0 {
        Seq::empty()
    } else {
        let (x, y) = (pixel(pts[n - 1][0]), pixel(pts[n - 1][1]));
        let color = [0u8, 255, 255];
        solid_marks(pts, n - 1).push(Mark { x: y as i64, y: x as i64, color }).push(
            Mark { x: y as i64, y: (x + 1) as i64, color },
        ).push(Mark { x: y as i64, y: (x + 2) as i64, color }).push(
            Mark { x: y as i64, y: (x + 3) as i64, color },
        )
    }
}

/// The marks of the number of a face and how sure it is.
pub open spec fn title_marks(f: FaceReport, visualize: i32) -> Seq<Mark> {
    let x = f.bbox[0].to_int(i32::MIN as int, i32::MAX as int);
    let y = f.bbox[1].to_int(i32::MIN as int, i32::MAX as int);
    let name = text::integer_text(f.id as int);
    let a = if visualize > 1 {
        text_marks(name, x, y, [255, 0, 255], name.len() as int)
    } else {
        Seq::empty()
    };
    let conf = fixed::fixed_text(f.conf, 4);
    if visualize > 2 {
        a + text_marks(conf, x + 18, y - 6, [0, 0, 255], conf.len() as int)
    } else {
        a
    }
}

/// The points of a solid face that are drawn: those that the pose is fitted to, or all landmarks.
pub open spec fn solid_points(f: FaceReport, pnp_points: i32) -> Seq<[Single; 3]> {
    if pnp_points > 1 {
        if f.face_3d@.len() < LANDMARKS {
            f.face_3d@
        } else {
            f.face_3d@.take(LANDMARKS as int)
        }
    } else {
        f.contour@
    }
}

/// Whether `pts` is where a solid face is seen.
pub open spec fn are_projected(
    f: FaceReport,
    pnp_points: i32,
    trig: CosSin,
    cam: Camera,
    pts: Seq<[Single; 2]>,
) -> bool {
    let solid = solid_points(f, pnp_points);
    &&& pts.len() == solid.len()
    &&& forall|i: int|
        0 <= i < pts.len() ==> (#[trigger] pts[i])@ == pnp::projected(
            solid[i]@,
            pnp::rotation_rows(f.rotation->0@, trig.cos, trig.sin),
            f.translation@,
            cam,
        )
}

/// Adds the marks of the number of a face and how sure it is.
fn add_title(marks: &mut Vec<Mark>, f: &FaceReport, visualize: i32)
    ensures
        final(marks)@ == old(marks)@ + title_marks(*f, visualize),
{
    let x: i64 = f.bbox[0].to_i32() as i64;
    let y: i64 = f.bbox[1].to_i32() as i64;
    let ghost start = marks@;
    let ghost mut seen: Seq<Mark> = Seq::empty();
    assert(start + seen =~= start);
    if visualize > 1 {
        let s: Vec<char> = text::integer(f.id);
        proof {
            text::lemma_integer_len(f.id as int);
        }
        put_text(marks, s.as_slice(), x, y, [255, 0, 255]);
        proof {
            seen = text_marks(s@, x as int, y as int, [255, 0, 255], s@.len() as int);
        }
    }
    if visualize > 2 {
        let s: Vec<char> = fixed::fixed(f.conf, 4);
        put_text(marks, s.as_slice(), x + 18, y - 6, [0, 0, 255]);
        proof {
            let more = text_marks(s@, x + 18, y - 6, [0, 0, 255], s@.len() as int);
            assert((start + seen) + more =~= start + (seen + more));
        }
    }
}

/// Adds the marks of the landmarks of a face.
fn add_landmarks(marks: &mut Vec<Mark>, f: &FaceReport, visualize: i32)
    ensures
        final(marks)@ == old(marks)@ + landmark_marks(*f, visualize, f.lms@.len() as int),
{
    let ghost start = marks@;
    assert(start + Seq::<Mark>::empty() =~= start);
    let mut i: usize = 0;
    while i < f.lms.len()
        invariant
            i <= f.lms@.len(),
            marks@ == start + landmark_marks(*f, visualize, i as int),
        decreases f.lms@.len() - i,
    {
        let ghost before = landmark_marks(*f, visualize, i as int);
        let p: [Single; 3] = f.lms[i];
        let skip: bool = (i == 66 || i == 67) && (f.eye_blink[i - 66].lt(single::of(decimal::N0_15))
            || p[2].lt(single::of(decimal::N0_20)));
        if !skip {
            let x: i64 = pixel_of(p[0]);
            let y: i64 = pixel_of(p[1]);
            let ghost mut named = before;
            if visualize > 3 {
                let s: Vec<char> = text::digits(i as u64);
                proof {
                    text::lemma_digits_len(i as nat);
                }
                put_text(marks, s.as_slice(), y, x, [0, 255, 255]);
                proof {
                    let more = text_marks(s@, y as int, x as int, [0, 255, 255], s@.len() as int);
                    assert((start + before) + more =~= start + (before + more));
                    named = before + more;
                }
            }
            let blue: u8 = if i >= LANDMARKS {
                255
            } else {
                0
            };
            let m: Mark = Mark { x: y, y: x, color: [0, 255, blue] };
            marks.push(m);
            assert((start + named).push(m) =~= start + named.push(m));
        }
        i = i + 1;
    }
}

/// Adds the marks of the points of a solid face.
fn add_solid(marks: &mut Vec<Mark>, pts: &[[Single; 2]])
    ensures
        final(marks)@ == old(marks)@ + solid_marks(pts@, pts@.len() as int),
{
    let ghost start = marks@;
    assert(start + Seq::<Mark>::empty() =~= start);
    let mut i: usize = 0;
    while i < pts.len()
        invariant
            i <= pts@.len(),
            marks@ == start + solid_marks(pts@, i as int),
        decreases pts@.len() - i,
    {
        let ghost before = marks@;
        let x: i64 = pixel_of(pts[i][0]);
        let y: i64 = pixel_of(pts[i][1]);
        let color: [u8; 3] = [0, 255, 255];
        marks.push(Mark { x: y, y: x, color });
        marks.push(Mark { x: y, y: x + 1, color });
        marks.push(Mark { x: y, y: x + 2, color });
        marks.push(Mark { x: y, y: x + 3, color });
        i = i + 1;
        assert(marks@ =~= start + solid_marks(pts@, i as int));
    }
}

/// Whether `marks` are those of a face.
pub open spec fn are_face_marks(
    f: FaceReport,
    visualize: i32,
    pnp_points: i32,
    trig: CosSin,
    cam: Camera,
    marks: Seq<Mark>,
) -> bool {
    let front = title_marks(f, visualize) + landmark_marks(f, visualize, f.lms@.len() as int);
    if pnp_points != 0 && f.rotation is Some {
        exists|pts: Seq<[Single; 2]>|
            #[trigger] are_projected(f, pnp_points, trig, cam, pts) && marks == front + solid_marks(
                pts,
                pts.len() as int,
            )
    } else {
        marks == front
    }
}

/// The marks of a face. `trig` belongs to the angle of its rotation.
pub fn face_marks(f: &FaceReport, visualize: i32, pnp_points: i32, trig: CosSin, cam: &Camera) -> (r: Vec<
    Mark,
>)
    ensures
        are_face_marks(*f, visualize, pnp_points, trig, *cam, r@),
{
    let mut marks: Vec<Mark> = Vec::new();
    add_title(&mut marks, f, visualize);
    add_landmarks(&mut marks, f, visualize);
    let ghost front = title_marks(*f, visualize) + landmark_marks(*f, visualize, f.lms@.len() as int);
    assert(marks@ =~= front);
    if pnp_points != 0 {
        if let Some(rvec) = f.rotation {
            let pts: Vec<[Single; 2]> = if pnp_points > 1 {
                if f.face_3d.len() < LANDMARKS {
                    project_points(f.face_3d.as_slice(), rvec, trig.cos, trig.sin, f.translation, cam)
                } else {
                    let part: &[[Single; 3]] = vstd::slice::slice_subrange(
                        f.face_3d.as_slice(),
                        0,
                        LANDMARKS,
                    );
                    assert(part@ =~= f.face_3d@.take(LANDMARKS as int));
                    project_points(part, rvec, trig.cos, trig.sin, f.translation, cam)
                }
            } else {
                project_points(f.contour.as_slice(), rvec, trig.cos, trig.sin, f.translation, cam)
            };
            add_solid(&mut marks, pts.as_slice());
            proof {
                assert(are_projected(*f, pnp_points, trig, *cam, pts@));
            }
        }
    }
    marks
}

/// Whether `marks` are those of the first `n` faces.
pub open spec fn are_all_marks(
    faces: Seq<FaceReport>,
    trig: Seq<CosSin>,
    visualize: i32,
    pnp_points: i32,
    cam: Camera,
    n: int,
    marks: Seq<Mark>,
) -> bool
    decreases n,
{
    if n <= 0 {
        marks.len() == 0
    } else {
        exists|a: Seq<Mark>, b: Seq<Mark>|
            #![trigger (a + b)]
            are_all_marks(faces, trig, visualize, pnp_points, cam, n - 1, a) && are_face_marks(
                faces[n - 1],
                visualize,
                pnp_points,
                trig[n - 1],
                cam,
                b,
            ) && marks == a + b
    }
}

/// Draws faces over a frame: from level 2 on their numbers, from 3 how sure they are, from 4 the
/// numbers of their landmarks; and with `pnp_points` the solid face. `trig` holds the cosine and sine
/// of the angle of the rotation of each.
pub fn draw_tracking(
    frame: &mut BgrImage,
    faces: &[FaceReport],
    trig: &[CosSin],
    visualize: i32,
    pnp_points: i32,
    cam: &Camera,
)
    requires
        old(frame).wf(),
        trig@.len() == faces@.len(),
    ensures
        final(frame).wf(),
        final(frame).width == old(frame).width,
        final(frame).height == old(frame).height,
        exists|marks: Seq<Mark>|
            #[trigger] are_all_marks(
                faces@,
                trig@,
                visualize,
                pnp_points,
                *cam,
                faces@.len() as int,
                marks,
            ) && final(frame).data@ == painted(
                old(frame).data@,
                old(frame).width as int,
                old(frame).height as int,
                marks,
            ),
{
    let mut all: Vec<Mark> = Vec::new();
    let mut i: usize = 0;
    while i < faces.len()
        invariant
            i <= faces@.len(),
            trig@.len() == faces@.len(),
            are_all_marks(faces@, trig@, visualize, pnp_points, *cam, i as int, all@),
        decreases faces@.len() - i,
    {
        let ghost before = all@;
        let mut m: Vec<Mark> = face_marks(&faces[i], visualize, pnp_points, trig[i], cam);
        let ghost more = m@;
        all.append(&mut m);
        proof {
            assert(all@ == before + more);
        }
        i = i + 1;
    }
    paint(frame, all.as_slice());
}

/// A pixel as a window takes it.
pub open spec fn packed(b: u8, g: u8, r: u8) -> u32 {
    (r * 0x1_0000 + g * 0x100 + b) as u32
}

/// The pixel of a window that shows a frame; black where the frame ends.
pub open spec fn shown(frame: BgrImage, x: int, y: int) -> u32 {
    if frame.holds(x, y) {
        packed(frame.at(x, y, 0), frame.at(x, y, 1), frame.at(x, y, 2))
    } else {
        0
    }
}

/// The pixels of a window of the given size, row by row.
pub fn window_pixels(frame: &BgrImage, w: u32, h: u32) -> (r: Vec<u32>)
    requires
        frame.wf(),
        w <= i32::MAX,
        h <= i32::MAX,
        w * h <= usize::MAX,
    ensures
        r@ == Seq::new((w * h) as nat, |k: int| shown(*frame, k % w as int, k / w as int)),
{
    let mut r: Vec<u32> = Vec::new();
    let mut y: u32 = 0;
    assert(0 * w == 0);
    while y < h
        invariant
            y <= h,
            frame.wf(),
            w <= i32::MAX,
            h <= i32::MAX,
            r@.len() == y * w,
            forall|k: int|
                0 <= k < r@.len() ==> #[trigger] r@[k] == shown(*frame, k % w as int, k / w as int),
        decreases h - y,
    {
        let mut x: u32 = 0;
        while x < w
            invariant
                y < h,
                x <= w,
                frame.wf(),
                w <= i32::MAX,
                h <= i32::MAX,
                r@.len() == y * w + x,
                forall|k: int|
                    0 <= k < r@.len() ==> #[trigger] r@[k] == shown(*frame, k % w as int, k / w as int),
            decreases w - x,
        {
            let c: [u8; 3] = frame.get(x as i32, y as i32);
            proof {
                vstd::arithmetic::div_mod::lemma_fundamental_div_mod_converse(
                    y * w + x,
                    w as int,
                    y as int,
                    x as int,
                );
            }
            r.push(c[2] as u32 * 0x1_0000 + c[1] as u32 * 0x100 + c[0] as u32);
            x = x + 1;
        }
        proof {
            assert(y * w + w == (y + 1) * w) by (nonlinear_arith);
        }
        y = y + 1;
    }
    proof {
        assert(y * w == w * h) by (nonlinear_arith)
            requires
                y == h,
        ;
        assert(r@ =~= Seq::new((w * h) as nat, |k: int| shown(*frame, k % w as int, k / w as int)));
    }
    r
}

/// The landmark on the other side of the face; itself for those on the middle line.
pub const MIRROR: [usize; 66] = [
    16, 15, 14, 13, 12, 11, 10, 9, 8, 7, 6, 5, 4, 3, 2, 1, 0, 26, 25, 24, 23, 22, 21, 20, 19, 18, 17, 27,
    28, 29, 30, 35, 34, 33, 32, 31, 45, 44, 43, 42, 47, 46, 39, 38, 37, 36, 41, 40, 52, 51, 50, 49, 48, 57,
    56, 55, 54, 53, 62, 61, 60, 59, 58, 65, 64, 63,
];

/// Whether a landmark is the one of its pair that the other is taken from.
pub const LEADS: [bool; 66] = [
    true, true, true, true, true, true, true, true, false, false, false, false, false, false, false,
    false, false, true, true, true, true, true, false, false, false, false, false, false, false, false,
    false, true, true, false, false, false, true, true, true, true, true, true, false, false, false,
    false, false, false, true, true, false, false, false, false, false, false, true, true, true, true,
    false, false, false, false, false, true,
];

/// A point of a solid face made symmetric: pairs share height and depth and stand as far from the
/// middle line on either side, the others of the landmarks stand on that line, the tip of the nose
/// is where all is measured from. Points past the landmarks stay as they are.
pub open spec fn symmetric_point(pts: Seq<[Single; 3]>, i: int) -> Seq<Single> {
    let z = single::of(0);
    let two = single::of(decimal::N2);
    if i >= LANDMARKS {
        pts[i]@
    } else if i == 30 {
        seq![z, z, z]
    } else if MIRROR[i] == i {
        seq![z, pts[i][1], pts[i][2]]
    } else {
        let j = MIRROR[i] as int;
        let (a, b) = if LEADS[i] {
            (pts[i], pts[j])
        } else {
            (pts[j], pts[i])
        };
        let x = (a[0] - b[0]) / two;
        seq![
            if LEADS[i] {
                x
            } else {
                x.negated()
            },
            (a[1] + b[1]) / two,
            (a[2] + b[2]) / two,
        ]
    }
}

/// A solid face made symmetric.
pub fn symmetric_points(pts: &[[Single; 3]]) -> (r: Vec<[Single; 3]>)
    requires
        pts@.len() >= LANDMARKS,
    ensures
        r@.len() == pts@.len(),
        forall|i: int| 0 <= i < r@.len() ==> (#[trigger] r@[i])@ == symmetric_point(pts@, i),
{
    let z: Single = single::of(0);
    let two: Single = single::of(decimal::N2);
    let mut r: Vec<[Single; 3]> = Vec::new();
    let mut i: usize = 0;
    while i < pts.len()
        invariant
            i <= pts@.len(),
            pts@.len() >= LANDMARKS,
            z == single::of(0),
            two == single::of(decimal::N2),
            r@.len() == i,
            forall|k: int| 0 <= k < i ==> (#[trigger] r@[k])@ == symmetric_point(pts@, k),
        decreases pts@.len() - i,
    {
        let p: [Single; 3] = if i >= LANDMARKS {
            pts[i]
        } else if i == 30 {
            [z, z, z]
        } else if MIRROR[i] == i {
            [z, pts[i][1], pts[i][2]]
        } else {
            let j: usize = MIRROR[i];
            proof {
                lemma_mirror(i as int);
            }
            let leads: bool = LEADS[i];
            let (a, b): ([Single; 3], [Single; 3]) = if leads {
                (pts[i], pts[j])
            } else {
                (pts[j], pts[i])
            };
            let x: Single = (a[0] - b[0]) / two;
            [
                if leads {
                    x
                } else {
                    x.negated()
                },
                (a[1] + b[1]) / two,
                (a[2] + b[2]) / two,
            ]
        };
        assert(p@ =~= symmetric_point(pts@, i as int));
        r.push(p);
        i = i + 1;
    }
    r
}

/// Every landmark is the mirror of its mirror, and one of each pair leads.
proof fn lemma_mirror(i: int)
    requires
        0 <= i < LANDMARKS,
    ensures
        MIRROR[i] < LANDMARKS,
        MIRROR[MIRROR[i] as int] == i,
        MIRROR[i] != i ==> LEADS[i] != LEADS[MIRROR[i] as int],
{
}

/// The two sides of a symmetric face mirror each other, and its middle stands on the middle line.
pub proof fn lemma_symmetric(pts: Seq<[Single; 3]>, i: int)
    requires
        pts.len() >= LANDMARKS,
        0 <= i < LANDMARKS,
    ensures
        ({
            let p = symmetric_point(pts, i);
            let q = symmetric_point(pts, MIRROR[i] as int);
            &&& MIRROR[i] < LANDMARKS
            &&& p[1] == q[1]
            &&& p[2] == q[2]
            &&& MIRROR[i] == i ==> p[0] == single::of(0)
            &&& MIRROR[i] != i ==> p[0] == q[0].negated() || q[0] == p[0].negated()
        }),
{
    lemma_mirror(i);
}

} // verus!

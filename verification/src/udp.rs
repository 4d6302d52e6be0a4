//! The packet that is sent for each face: 1805 bytes, little endian, 19 expression features.

use crate::features;
use crate::features::FeatureVec;
use crate::ieee::double::Double;
use crate::ieee::single;
use crate::ieee::single::Single;
use crate::tracker::face::copy_points;
use crate::tracker::FaceReport;
use vstd::prelude::*;

verus! {

/// Bytes per face.
pub const PACKET_FRAME_SIZE: usize = 1805;

/// Bytes per face in packets with 17 features.
pub const PACKET_FRAME_SIZE_17: usize = 1797;

/// Bytes per face in packets with 14 features.
pub const PACKET_FRAME_SIZE_LEGACY: usize = 1785;

/// Features in a packet: the first ones of the feature vector.
pub const PACKET_FEATURE_COUNT: usize = 19;

/// What is sent for a face.
#[derive(Debug)]
pub struct FacePacket {
    pub time: Double,
    pub id: i32,
    pub width: Single,
    pub height: Single,
    pub eye_blink: [Single; 2],
    pub success: bool,
    pub pnp_error: Single,
    pub quaternion: [Single; 4],
    pub euler: [Single; 3],
    pub translation: [Single; 3],
    pub lms: Vec<[Single; 3]>,
    pub pts_3d: [[Single; 3]; 70],
    pub features: FeatureVec,
}

impl FacePacket {
    /// What is sent of a face under the number `id`, with the time and the size of the frame.
    pub fn from_face(f: &FaceReport, time: Double, width: Single, height: Single, id: i32) -> (r:
        FacePacket)
        ensures
            r == (FacePacket {
                time,
                id,
                width,
                height,
                eye_blink: f.eye_blink,
                success: f.success,
                pnp_error: f.pnp_error,
                quaternion: f.quaternion,
                euler: f.euler,
                translation: f.translation,
                lms: r.lms,
                pts_3d: f.pts_3d,
                features: f.current_features,
            }),
            r.lms@ == f.lms@,
    {
        FacePacket {
            time,
            id,
            width,
            height,
            eye_blink: f.eye_blink,
            success: f.success,
            pnp_error: f.pnp_error,
            quaternion: f.quaternion,
            euler: f.euler,
            translation: f.translation,
            lms: copy_points(f.lms.as_slice()),
            pts_3d: f.pts_3d,
            features: f.current_features,
        }
    }
}

/// Byte `i` of a word, the lowest first.
pub open spec fn byte_of(w: int, i: int) -> u8 {
    (if i == 0 {
        w % 256
    } else if i == 1 {
        w / 256 % 256
    } else if i == 2 {
        w / 0x1_0000 % 256
    } else {
        w / 0x100_0000 % 256
    }) as u8
}

/// The bytes of a run of words, each with its lowest byte first.
pub open spec fn word_bytes(words: Seq<u32>) -> Seq<u8> {
    Seq::new((4 * words.len()) as nat, |i: int| byte_of(words[i / 4] as int, i % 4))
}

/// The word whose lowest byte stands at `at`.
#[verifier::opaque]
pub open spec fn word_at(bytes: Seq<u8>, at: int) -> int {
    bytes[at] + 256 * bytes[at + 1] + 0x1_0000 * bytes[at + 2] + 0x100_0000 * bytes[at + 3]
}

/// The words of a row of numbers.
pub open spec fn bits_of(v: Seq<Single>) -> Seq<u32> {
    v.map_values(|x: Single| x.bits)
}

/// A coordinate of a landmark, zero where the face has no such landmark.
pub open spec fn landmark_word(lms: Seq<[Single; 3]>, i: int, c: int) -> u32 {
    if i < lms.len() {
        lms[i][c].bits
    } else {
        0
    }
}

/// A coordinate of a solid point: the second and third axis change direction.
pub open spec fn point_word(p: [Single; 3], c: int) -> u32 {
    if c == 0 {
        p[0].bits
    } else {
        p[c].negated().bits
    }
}

/// The words before the flag.
pub open spec fn head_words(f: FacePacket) -> Seq<u32> {
    seq![
        (f.time.bits % 0x1_0000_0000) as u32,
        (f.time.bits / 0x1_0000_0000) as u32,
        f.id as u32,
        f.width.bits,
        f.height.bits,
        f.eye_blink[0].bits,
        f.eye_blink[1].bits,
    ]
}

/// The words behind the flag: error, pose, confidences, landmarks as rows and columns,
/// solid points, features.
pub open spec fn tail_words(f: FacePacket) -> Seq<u32> {
    seq![f.pnp_error.bits] + bits_of(f.quaternion@) + bits_of(f.euler@) + bits_of(f.translation@)
        + Seq::new(68, |k: int| landmark_word(f.lms@, k, 2)) + Seq::new(
        136,
        |k: int| landmark_word(f.lms@, k / 2, 1 - k % 2),
    ) + Seq::new(210, |k: int| point_word(f.pts_3d[k / 3], k % 3)) + Seq::new(
        19,
        |k: int| f.features[k].bits,
    )
}

/// The bytes of a face.
pub open spec fn face_bytes(f: FacePacket) -> Seq<u8> {
    word_bytes(head_words(f)) + seq![if f.success {
        1u8
    } else {
        0u8
    }] + word_bytes(tail_words(f))
}

/// The bytes of several faces, one behind the other.
pub open spec fn faces_bytes(faces: Seq<FacePacket>) -> Seq<u8>
    decreases faces.len(),
{
    if faces.len() == 0 {
        Seq::empty()
    } else {
        faces_bytes(faces.drop_last()) + face_bytes(faces.last())
    }
}

proof fn lemma_bytes_join(a: Seq<u32>, b: Seq<u32>)
    ensures
        word_bytes(a + b) == word_bytes(a) + word_bytes(b),
{
    assert forall|i: int| 0 <= i < 4 * (a + b).len() implies word_bytes(a + b)[i] == (word_bytes(a)
        + word_bytes(b))[i] by {
        if i >= 4 * a.len() {
            let j = i - 4 * a.len();
            assert(i / 4 == j / 4 + a.len() && i % 4 == j % 4);
        }
    }
    assert(word_bytes(a + b) =~= word_bytes(a) + word_bytes(b));
}

fn push_word(out: &mut Vec<u8>, w: u32, Ghost(done): Ghost<Seq<u32>>, Ghost(start): Ghost<Seq<u8>>)
    requires
        old(out)@ == start + word_bytes(done),
    ensures
        final(out)@ == start + word_bytes(done.push(w)),
{
    out.push((w % 256) as u8);
    out.push((w / 256 % 256) as u8);
    out.push((w / 0x1_0000 % 256) as u8);
    out.push((w / 0x100_0000 % 256) as u8);
    proof {
        lemma_bytes_join(done, seq![w]);
        assert(done + seq![w] =~= done.push(w));
        let e = word_bytes(seq![w]);
        assert(e.len() == 4);
        assert(e[0] == byte_of(w as int, 0));
        assert(e[1] == byte_of(w as int, 1));
        assert(e[2] == byte_of(w as int, 2));
        assert(e[3] == byte_of(w as int, 3));
        assert(out@ =~= start + word_bytes(done.push(w)));
    }
}

fn push_words(out: &mut Vec<u8>, v: &[Single], Ghost(done): Ghost<Seq<u32>>, Ghost(start): Ghost<Seq<u8>>)
    requires
        old(out)@ == start + word_bytes(done),
    ensures
        final(out)@ == start + word_bytes(done + bits_of(v@)),
{
    let mut i: usize = 0;
    assert(done + bits_of(v@).take(0) =~= done);
    while i < v.len()
        invariant
            i <= v@.len(),
            out@ == start + word_bytes(done + bits_of(v@).take(i as int)),
        decreases v@.len() - i,
    {
        push_word(out, v[i].bits, Ghost(done + bits_of(v@).take(i as int)), Ghost(start));
        assert((done + bits_of(v@).take(i as int)).push(v@[i as int].bits) =~= done + bits_of(v@).take(
            i + 1,
        ));
        i = i + 1;
    }
    assert(bits_of(v@).take(i as int) =~= bits_of(v@));
}

fn landmark_at(lms: &Vec<[Single; 3]>, i: usize, c: usize) -> (r: u32)
    requires
        c < 3,
    ensures
        r == landmark_word(lms@, i as int, c as int),
{
    if i < lms.len() {
        lms[i][c].bits
    } else {
        0
    }
}

/// The tail as it has grown: everything up to the landmarks.
spec fn pose_words(f: FacePacket) -> Seq<u32> {
    seq![f.pnp_error.bits] + bits_of(f.quaternion@) + bits_of(f.euler@) + bits_of(f.translation@)
}

fn push_landmarks(p: &mut Vec<u8>, f: &FacePacket, Ghost(start): Ghost<Seq<u8>>)
    requires
        old(p)@ == start + word_bytes(pose_words(*f)),
    ensures
        final(p)@ == start + word_bytes(
            pose_words(*f) + Seq::new(68, |k: int| landmark_word(f.lms@, k, 2)) + Seq::new(
                136,
                |k: int| landmark_word(f.lms@, k / 2, 1 - k % 2),
            ),
        ),
{
    let ghost pose = pose_words(*f);
    let ghost conf = Seq::new(68, |k: int| landmark_word(f.lms@, k, 2));
    let ghost place = Seq::new(136, |k: int| landmark_word(f.lms@, k / 2, 1 - k % 2));
    assert(pose + conf.take(0) =~= pose);
    let mut i: usize = 0;
    while i < 68
        invariant
            i <= 68,
            conf == Seq::new(68, |k: int| landmark_word(f.lms@, k, 2)),
            p@ == start + word_bytes(pose + conf.take(i as int)),
        decreases 68 - i,
    {
        push_word(p, landmark_at(&f.lms, i, 2), Ghost(pose + conf.take(i as int)), Ghost(start));
        assert((pose + conf.take(i as int)).push(conf[i as int]) =~= pose + conf.take(i + 1));
        i = i + 1;
    }
    assert(conf.take(68) =~= conf);
    let ghost base = pose + conf;
    assert(base + place.take(0) =~= base);
    let mut k: usize = 0;
    while k < 68
        invariant
            k <= 68,
            place == Seq::new(136, |k: int| landmark_word(f.lms@, k / 2, 1 - k % 2)),
            p@ == start + word_bytes(base + place.take(2 * k as int)),
        decreases 68 - k,
    {
        let ghost n = 2 * k as int;
        push_word(p, landmark_at(&f.lms, k, 1), Ghost(base + place.take(n)), Ghost(start));
        assert(n / 2 == k && n % 2 == 0 && (n + 1) / 2 == k && (n + 1) % 2 == 1);
        assert((base + place.take(n)).push(place[n]) =~= base + place.take(n + 1));
        push_word(p, landmark_at(&f.lms, k, 0), Ghost(base + place.take(n + 1)), Ghost(start));
        assert((base + place.take(n + 1)).push(place[n + 1]) =~= base + place.take(n + 2));
        k = k + 1;
    }
    assert(place.take(136) =~= place);
}

fn push_points(p: &mut Vec<u8>, pts: &[[Single; 3]; 70], Ghost(base): Ghost<Seq<u32>>, Ghost(start): Ghost<Seq<u8>>)
    requires
        old(p)@ == start + word_bytes(base),
    ensures
        final(p)@ == start + word_bytes(
            base + Seq::new(210, |k: int| point_word(pts[k / 3], k % 3)),
        ),
{
    let ghost all = Seq::new(210, |k: int| point_word(pts[k / 3], k % 3));
    assert(base + all.take(0) =~= base);
    let mut i: usize = 0;
    while i < 70
        invariant
            i <= 70,
            all == Seq::new(210, |k: int| point_word(pts[k / 3], k % 3)),
            p@ == start + word_bytes(base + all.take(3 * i as int)),
        decreases 70 - i,
    {
        let ghost n = 3 * i as int;
        let pt: [Single; 3] = pts[i];
        assert(n / 3 == i && n % 3 == 0 && (n + 1) / 3 == i && (n + 1) % 3 == 1 && (n + 2) / 3 == i
            && (n + 2) % 3 == 2);
        push_word(p, pt[0].bits, Ghost(base + all.take(n)), Ghost(start));
        assert((base + all.take(n)).push(all[n]) =~= base + all.take(n + 1));
        push_word(p, pt[1].negated().bits, Ghost(base + all.take(n + 1)), Ghost(start));
        assert((base + all.take(n + 1)).push(all[n + 1]) =~= base + all.take(n + 2));
        push_word(p, pt[2].negated().bits, Ghost(base + all.take(n + 2)), Ghost(start));
        assert((base + all.take(n + 2)).push(all[n + 2]) =~= base + all.take(n + 3));
        i = i + 1;
    }
    assert(all.take(210) =~= all);
}

fn push_head(p: &mut Vec<u8>, f: &FacePacket)
    ensures
        final(p)@ == old(p)@ + word_bytes(head_words(*f)),
{
    let ghost start = p@;
    let lo: u32 = (f.time.bits % 0x1_0000_0000) as u32;
    let hi: u32 = (f.time.bits / 0x1_0000_0000) as u32;
    let ghost w = head_words(*f);
    assert(start + word_bytes(w.take(0)) =~= start);
    push_word(p, lo, Ghost(w.take(0)), Ghost(start));
    assert(w.take(0).push(w[0]) =~= w.take(1));
    push_word(p, hi, Ghost(w.take(1)), Ghost(start));
    assert(w.take(1).push(w[1]) =~= w.take(2));
    push_word(p, f.id as u32, Ghost(w.take(2)), Ghost(start));
    assert(w.take(2).push(w[2]) =~= w.take(3));
    push_word(p, f.width.bits, Ghost(w.take(3)), Ghost(start));
    assert(w.take(3).push(w[3]) =~= w.take(4));
    push_word(p, f.height.bits, Ghost(w.take(4)), Ghost(start));
    assert(w.take(4).push(w[4]) =~= w.take(5));
    push_word(p, f.eye_blink[0].bits, Ghost(w.take(5)), Ghost(start));
    assert(w.take(5).push(w[5]) =~= w.take(6));
    push_word(p, f.eye_blink[1].bits, Ghost(w.take(6)), Ghost(start));
    assert(w.take(6).push(w[6]) =~= w);
}

/// Appends the bytes of a face.
pub fn encode_face_append(p: &mut Vec<u8>, f: &FacePacket)
    ensures
        final(p)@ == old(p)@ + face_bytes(*f),
{
    let ghost before = p@;
    push_head(p, f);
    p.push(
        if f.success {
            1
        } else {
            0
        },
    );
    let ghost start = p@;
    assert(start + word_bytes(Seq::empty()) =~= start);
    push_word(p, f.pnp_error.bits, Ghost(Seq::empty()), Ghost(start));
    assert(Seq::<u32>::empty().push(f.pnp_error.bits) =~= seq![f.pnp_error.bits]);
    let ghost w0 = seq![f.pnp_error.bits];
    push_words(p, f.quaternion.as_slice(), Ghost(w0), Ghost(start));
    let ghost w1 = w0 + bits_of(f.quaternion@);
    push_words(p, f.euler.as_slice(), Ghost(w1), Ghost(start));
    let ghost w2 = w1 + bits_of(f.euler@);
    push_words(p, f.translation.as_slice(), Ghost(w2), Ghost(start));
    push_landmarks(p, f, Ghost(start));
    let ghost w3 = pose_words(*f) + Seq::new(68, |k: int| landmark_word(f.lms@, k, 2)) + Seq::new(
        136,
        |k: int| landmark_word(f.lms@, k / 2, 1 - k % 2),
    );
    push_points(p, &f.pts_3d, Ghost(w3), Ghost(start));
    let ghost w4 = w3 + Seq::new(210, |k: int| point_word(f.pts_3d[k / 3], k % 3));
    let ghost fs = Seq::new(19, |k: int| f.features[k].bits);
    assert(w4 + fs.take(0) =~= w4);
    let mut i: usize = 0;
    while i < PACKET_FEATURE_COUNT
        invariant
            i <= 19,
            fs == Seq::new(19, |k: int| f.features[k].bits),
            p@ == start + word_bytes(w4 + fs.take(i as int)),
        decreases 19 - i,
    {
        push_word(p, f.features[i].bits, Ghost(w4 + fs.take(i as int)), Ghost(start));
        assert((w4 + fs.take(i as int)).push(fs[i as int]) =~= w4 + fs.take(i + 1));
        i = i + 1;
    }
    assert(fs.take(19) =~= fs);
    assert(w4 + fs == tail_words(*f));
    assert(p@ =~= before + face_bytes(*f));
}

/// A face takes 1805 bytes.
pub proof fn lemma_face_len(f: FacePacket)
    ensures
        face_bytes(f).len() == PACKET_FRAME_SIZE,
        tail_words(f).len() == 444,
{
}

/// The bytes of a face.
pub fn encode_face(f: &FacePacket) -> (p: Vec<u8>)
    ensures
        p@ == face_bytes(*f),
        p@.len() == PACKET_FRAME_SIZE,
{
    let mut p: Vec<u8> = Vec::new();
    encode_face_append(&mut p, f);
    assert(p@ =~= face_bytes(*f));
    proof {
        lemma_face_len(*f);
    }
    p
}

/// The bytes of several faces.
pub fn encode_faces(faces: &[FacePacket]) -> (out: Vec<u8>)
    ensures
        out@ == faces_bytes(faces@),
{
    let mut out: Vec<u8> = Vec::new();
    encode_faces_into(&mut out, faces);
    out
}

/// Replaces what `out` holds by the bytes of several faces.
pub fn encode_faces_into(out: &mut Vec<u8>, faces: &[FacePacket])
    ensures
        final(out)@ == faces_bytes(faces@),
{
    out.clear();
    let mut i: usize = 0;
    while i < faces.len()
        invariant
            i <= faces@.len(),
            out@ == faces_bytes(faces@.take(i as int)),
        decreases faces@.len() - i,
    {
        encode_face_append(out, &faces[i]);
        assert(faces@.take(i + 1).drop_last() =~= faces@.take(i as int));
        i = i + 1;
    }
    assert(faces@.take(i as int) =~= faces@);
}

/// A word is read back from its bytes.
proof fn lemma_word_reads_back(words: Seq<u32>, k: int)
    requires
        0 <= k < words.len(),
    ensures
        word_at(word_bytes(words), 4 * k) == words[k],
{
    reveal(word_at);
    let w = words[k] as int;
    let b = word_bytes(words);
    assert(b[4 * k] == byte_of(w, 0));
    assert(b[4 * k + 1] == byte_of(w, 1));
    assert(b[4 * k + 2] == byte_of(w, 2));
    assert(b[4 * k + 3] == byte_of(w, 3));
    let q1 = w / 256;
    let q2 = w / 0x1_0000;
    let q3 = w / 0x100_0000;
    assert(q2 == q1 / 256 && q3 == q2 / 256 && q3 < 256);
}

proof fn lemma_words_in_place(f: FacePacket)
    ensures
        forall|k: int|
            0 <= k < 7 ==> word_at(face_bytes(f), 4 * k) == #[trigger] head_words(f)[k],
        forall|k: int|
            0 <= k < 444 ==> word_at(face_bytes(f), 29 + 4 * k) == #[trigger] tail_words(f)[k],
        face_bytes(f)[28] == (if f.success {
            1u8
        } else {
            0u8
        }),
{
    let b = face_bytes(f);
    let h = head_words(f);
    let t = tail_words(f);
    lemma_face_len(f);
    assert forall|k: int| 0 <= k < 7 implies word_at(b, 4 * k) == #[trigger] h[k] by {
        lemma_word_reads_back(h, k);
        reveal(word_at);
    }
    assert forall|k: int| 0 <= k < 444 implies word_at(b, 29 + 4 * k) == #[trigger] t[k] by {
        lemma_word_reads_back(t, k);
        reveal(word_at);
    }
}

/// A receiver that reads little-endian words finds every number of the packet at its place:
/// the time, the identity, the sizes and the eyes before the flag, and behind it the error, the
/// pose, the landmarks, the points with two axes turned round and the features.
pub proof fn lemma_packet_reads_back(f: FacePacket)
    ensures
        ({
            let b = face_bytes(f);
            &&& word_at(b, 0) + 0x1_0000_0000 * word_at(b, 4) == f.time.bits
            &&& word_at(b, 8) == f.id as u32
            &&& word_at(b, 12) == f.width.bits
            &&& word_at(b, 16) == f.height.bits
            &&& word_at(b, 20) == f.eye_blink[0].bits
            &&& word_at(b, 24) == f.eye_blink[1].bits
            &&& b[28] == (if f.success {
                1u8
            } else {
                0u8
            })
            &&& word_at(b, 29) == f.pnp_error.bits
            &&& forall|i: int|
                0 <= i < 4 ==> word_at(b, 33 + 4 * i) == #[trigger] f.quaternion[i].bits
            &&& forall|i: int| 0 <= i < 3 ==> word_at(b, 49 + 4 * i) == #[trigger] f.euler[i].bits
            &&& forall|i: int|
                0 <= i < 3 ==> word_at(b, 61 + 4 * i) == #[trigger] f.translation[i].bits
            &&& forall|i: int|
                #![trigger f.lms@[i]]
                0 <= i < 68 && i < f.lms@.len() ==> {
                    &&& word_at(b, 73 + 4 * i) == f.lms@[i][2].bits
                    &&& word_at(b, 345 + 8 * i) == f.lms@[i][1].bits
                    &&& word_at(b, 349 + 8 * i) == f.lms@[i][0].bits
                }
            &&& forall|i: int|
                #![trigger f.pts_3d[i]]
                0 <= i < 70 ==> {
                    &&& word_at(b, 889 + 12 * i) == f.pts_3d[i][0].bits
                    &&& word_at(b, 893 + 12 * i) == f.pts_3d[i][1].negated().bits
                    &&& word_at(b, 897 + 12 * i) == f.pts_3d[i][2].negated().bits
                }
            &&& forall|i: int|
                0 <= i < 19 ==> word_at(b, 1729 + 4 * i) == #[trigger] f.features[i].bits
        }),
{
    let b = face_bytes(f);
    let h = head_words(f);
    let t = tail_words(f);
    lemma_words_in_place(f);
    assert(word_at(b, 0) == h[0]);
    assert(word_at(b, 4) == h[1]);
    assert(word_at(b, 8) == h[2]);
    assert(word_at(b, 12) == h[3]);
    assert(word_at(b, 16) == h[4]);
    assert(word_at(b, 20) == h[5]);
    assert(word_at(b, 24) == h[6]);
    assert(word_at(b, 29) == t[0]);
    assert forall|i: int| 0 <= i < 4 implies word_at(b, 33 + 4 * i) == #[trigger] f.quaternion[i].bits by {
        assert(t[1 + i] == f.quaternion[i].bits);
    }
    assert forall|i: int| 0 <= i < 3 implies word_at(b, 49 + 4 * i) == #[trigger] f.euler[i].bits by {
        assert(t[5 + i] == f.euler[i].bits);
    }
    assert forall|i: int| 0 <= i < 3 implies word_at(b, 61 + 4 * i) == #[trigger] f.translation[i].bits by {
        assert(t[8 + i] == f.translation[i].bits);
    }
    assert forall|i: int|
        #![trigger f.lms@[i]]
        0 <= i < 68 && i < f.lms@.len() implies word_at(b, 73 + 4 * i) == f.lms@[i][2].bits && word_at(b, 345 + 8 * i)
        == f.lms@[i][1].bits && word_at(b, 349 + 8 * i) == f.lms@[i][0].bits by {
        assert(t[11 + i] == f.lms@[i][2].bits);
        let n = 2 * i;
        assert(n / 2 == i && n % 2 == 0 && (n + 1) / 2 == i && (n + 1) % 2 == 1);
        assert(t[79 + n] == f.lms@[i][1].bits);
        assert(t[80 + n] == f.lms@[i][0].bits);
    }
    assert forall|i: int|
        #![trigger f.pts_3d[i]]
        0 <= i < 70 implies word_at(b, 889 + 12 * i) == f.pts_3d[i][0].bits && word_at(b, 893 + 12 * i)
        == f.pts_3d[i][1].negated().bits && word_at(b, 897 + 12 * i) == f.pts_3d[i][2].negated().bits by {
        let n = 3 * i;
        assert(n / 3 == i && n % 3 == 0 && (n + 1) / 3 == i && (n + 1) % 3 == 1 && (n + 2) / 3 == i
            && (n + 2) % 3 == 2);
        assert(t[215 + n] == f.pts_3d[i][0].bits);
        assert(t[216 + n] == f.pts_3d[i][1].negated().bits);
        assert(t[217 + n] == f.pts_3d[i][2].negated().bits);
    }
    assert forall|i: int| 0 <= i < 19 implies word_at(b, 1729 + 4 * i) == #[trigger] f.features[i].bits by {
        assert(t[425 + i] == f.features[i].bits);
    }
}

/// Face `i` of several stands at its multiple of the packet size.
pub proof fn lemma_faces_in_order(faces: Seq<FacePacket>, i: int)
    requires
        0 <= i < faces.len(),
    ensures
        faces_bytes(faces).len() == PACKET_FRAME_SIZE * faces.len(),
        faces_bytes(faces).subrange(PACKET_FRAME_SIZE * i, PACKET_FRAME_SIZE * (i + 1)) == face_bytes(
            faces[i],
        ),
    decreases faces.len(),
{
    lemma_face_len(faces.last());
    let front = faces.drop_last();
    if front.len() == 0 {
        assert(faces_bytes(front) =~= Seq::empty());
    } else {
        lemma_faces_in_order(
            front,
            if i < front.len() {
                i
            } else {
                0
            },
        );
    }
    assert(faces_bytes(faces).subrange(PACKET_FRAME_SIZE * i, PACKET_FRAME_SIZE * (i + 1))
        =~= face_bytes(faces[i])) by {
        if i < front.len() {
            assert(front[i] == faces[i]);
            assert(faces_bytes(faces).subrange(PACKET_FRAME_SIZE * i, PACKET_FRAME_SIZE * (i + 1))
                =~= faces_bytes(front).subrange(
                PACKET_FRAME_SIZE * i,
                PACKET_FRAME_SIZE * (i + 1),
            ));
        }
    }
}

} // verus!

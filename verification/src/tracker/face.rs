//! A face that is followed from frame to frame.

use crate::crop;
use crate::crop::{stable_landmark_bbox, CropSmoothState};
use crate::decode;
use crate::features;
use crate::features::{FeatureExtractor, FeatureVec, Turns};
use crate::filter;
use crate::filter::{FilterCfg, FilterQuality, OutputFilter};
use crate::ieee::decimal;
use crate::ieee::maths;
use crate::ieee::single;
use crate::ieee::single::Single;
use crate::pnp;
use crate::pnp::{adjust_3d, apply_features, normalize_pts3d, Camera, DepthResult};
use vstd::prelude::*;

verus! {

/// How many frames in a row may fail to fit before the solid face is given up.
pub const FAILS_MAX: i32 = 5;

/// How many landmarks a face has without its pupils.
pub const LANDMARKS: usize = 66;

/// A face that is followed.
pub struct FaceInfo {
    pub id: i32,
    pub conf: Single,
    pub lms: Vec<[Single; 3]>,
    pub eye_state: [[Single; 4]; 2],
    pub rotation: Option<[Single; 3]>,
    pub translation: [Single; 3],
    pub success: bool,
    pub quaternion: [Single; 4],
    pub euler: [Single; 3],
    pub pnp_error: Single,
    pub pts_3d: [[Single; 3]; 70],
    pub eye_blink: [Single; 2],
    pub bbox: [Single; 4],
    pub current_features: FeatureVec,
    pub face_3d: Vec<[Single; 3]>,
    pub contour: Vec<[Single; 3]>,
    pub alive: bool,
    pub coord: Option<[Single; 2]>,
    pub frame_count: i32,
    pub fail_count: i32,
    pub update_counts: Vec<[Single; 2]>,
    pub features: FeatureExtractor,
    pub crop_smooth: CropSmoothState,
    pub output_filter: OutputFilter,
}

/// What is told of a face in a frame.
pub struct FaceReport {
    pub id: i32,
    pub conf: Single,
    pub lms: Vec<[Single; 3]>,
    pub eye_state: [[Single; 4]; 2],
    pub rotation: Option<[Single; 3]>,
    pub translation: [Single; 3],
    pub success: bool,
    pub quaternion: [Single; 4],
    pub euler: [Single; 3],
    pub pnp_error: Single,
    pub pts_3d: [[Single; 3]; 70],
    pub eye_blink: [Single; 2],
    pub bbox: [Single; 4],
    pub current_features: FeatureVec,
    pub face_3d: Vec<[Single; 3]>,
    pub contour: Vec<[Single; 3]>,
}

/// The landmarks that the pose is fitted to.
pub open spec fn contour_places(model_type: i32) -> Seq<usize> {
    if model_type == -1 {
        pnp::CONTOUR_PTS_T@
    } else {
        pnp::CONTOUR_PTS@
    }
}

/// The landmarks that the pose is fitted to.
pub fn contour_idx(model_type: i32) -> (r: Vec<usize>)
    ensures
        r@ == contour_places(model_type),
        forall|k: int| 0 <= k < r@.len() ==> (#[trigger] r@[k]) < LANDMARKS,
{
    let mut r: Vec<usize> = Vec::new();
    let mut k: usize = 0;
    if model_type == -1 {
        while k < 8
            invariant
                k <= 8,
                r@.len() == k,
                forall|i: int| 0 <= i < k ==> #[trigger] r@[i] == pnp::CONTOUR_PTS_T[i] && r@[i] < LANDMARKS,
            decreases 8 - k,
        {
            r.push(pnp::CONTOUR_PTS_T[k]);
            k = k + 1;
        }
        assert(r@ =~= pnp::CONTOUR_PTS_T@);
    } else {
        while k < 14
            invariant
                k <= 14,
                r@.len() == k,
                forall|i: int| 0 <= i < k ==> #[trigger] r@[i] == pnp::CONTOUR_PTS[i] && r@[i] < LANDMARKS,
            decreases 14 - k,
        {
            r.push(pnp::CONTOUR_PTS[k]);
            k = k + 1;
        }
        assert(r@ =~= pnp::CONTOUR_PTS@);
    }
    r
}

/// Whether points are those of the solid face that every face starts with.
pub open spec fn is_solid(v: Seq<[Single; 3]>) -> bool {
    &&& v.len() == 70
    &&& forall|i: int, c: int|
        0 <= i < 70 && 0 <= c < 3 ==> #[trigger] v[i][c] == single::of(pnp::FACE_3D[i][c])
}

/// Whether no point has been changed yet.
pub open spec fn untouched(v: Seq<[Single; 2]>) -> bool {
    &&& v.len() == LANDMARKS
    &&& forall|i: int, c: int| 0 <= i < LANDMARKS && 0 <= c < 2 ==> #[trigger] v[i][c] == single::of(0)
}

fn no_counts() -> (r: Vec<[Single; 2]>)
    ensures
        untouched(r@),
{
    let z: Single = single::of(0);
    let mut r: Vec<[Single; 2]> = Vec::new();
    while r.len() < LANDMARKS
        invariant
            z == single::of(0),
            r@.len() <= LANDMARKS,
            forall|i: int, c: int| 0 <= i < r@.len() && 0 <= c < 2 ==> #[trigger] r@[i][c] == z,
        decreases LANDMARKS - r@.len(),
    {
        r.push([z, z]);
    }
    r
}

fn no_points() -> (r: [[Single; 3]; 70])
    ensures
        forall|i: int, c: int| 0 <= i < 70 && 0 <= c < 3 ==> #[trigger] r[i][c] == single::of(0),
{
    let z: Single = single::of(0);
    let row: [Single; 3] = [z, z, z];
    let mut pts: [[Single; 3]; 70] = [row; 70];
    let mut i: usize = 0;
    while i < 70
        invariant
            i <= 70,
            forall|c: int| 0 <= c < 3 ==> row[c] == single::of(0),
            forall|k: int| 0 <= k < i ==> #[trigger] pts[k] == row,
        decreases 70 - i,
    {
        pts[i] = row;
        i = i + 1;
    }
    pts
}

/// The points of a solid face at given places.
pub open spec fn points_at(face: Seq<[Single; 3]>, idx: Seq<usize>) -> Seq<[Single; 3]> {
    Seq::new(idx.len(), |k: int| face[idx[k] as int])
}

fn pick_points(face: &[[Single; 3]], idx: &[usize]) -> (r: Vec<[Single; 3]>)
    requires
        forall|k: int| 0 <= k < idx@.len() ==> (#[trigger] idx@[k]) < face@.len(),
    ensures
        r@ == points_at(face@, idx@),
{
    let mut r: Vec<[Single; 3]> = Vec::new();
    let mut k: usize = 0;
    while k < idx.len()
        invariant
            k <= idx@.len(),
            r@.len() == k,
            forall|i: int| 0 <= i < idx@.len() ==> (#[trigger] idx@[i]) < face@.len(),
            forall|i: int| 0 <= i < k ==> #[trigger] r@[i] == face@[idx@[i] as int],
        decreases idx@.len() - k,
    {
        r.push(face[idx[k]]);
        k = k + 1;
    }
    assert(r@ =~= points_at(face@, idx@));
    r
}

/// A copy of points.
pub(crate) fn copy_points(v: &[[Single; 3]]) -> (r: Vec<[Single; 3]>)
    ensures
        r@ == v@,
{
    let mut r: Vec<[Single; 3]> = Vec::new();
    let mut i: usize = 0;
    while i < v.len()
        invariant
            i <= v@.len(),
            r@ == v@.take(i as int),
        decreases v@.len() - i,
    {
        r.push(v[i]);
        i = i + 1;
        assert(v@.take(i as int) =~= v@.take(i - 1).push(v@[i - 1]));
    }
    assert(v@.take(i as int) =~= v@);
    r
}

/// What eyes are taken for that were not looked at: open, with pupils nowhere.
pub open spec fn plain_eyes_spec() -> [[Single; 4]; 2] {
    let z = single::of(0);
    let eye = [single::of(single::ONE), z, z, z];
    [eye, eye]
}

/// What eyes are taken for that were not looked at: open, with pupils nowhere.
#[verifier::when_used_as_spec(plain_eyes_spec)]
pub fn plain_eyes() -> (r: [[Single; 4]; 2])
    ensures
        r == plain_eyes_spec(),
{
    let z: Single = single::of(0);
    let eye: [Single; 4] = [single::of(single::ONE), z, z, z];
    [eye, eye]
}

/// The box about the landmarks of a face, without its pupils: the top row, the left column, height
/// and width.
pub open spec fn bbox_of(lms: Seq<[Single; 3]>) -> Seq<Single> {
    let n = if lms.len() < LANDMARKS {
        lms.len() as int
    } else {
        LANDMARKS as int
    };
    let h = decode::hull(decode::points(lms.take(n)));
    seq![h[2], h[0], h[3] - h[2], h[1] - h[0]]
}

/// What is remembered of the last box, given the box of this frame.
pub open spec fn seeded(s: CropSmoothState, b: [Single; 4]) -> CropSmoothState {
    if s.last is None {
        CropSmoothState { last: Some(b), ..s }
    } else {
        s
    }
}

impl FaceInfo {
    /// Whether the solid face and the counts of its changes have their sizes, and the points that the
    /// pose is fitted to are those of the solid face.
    pub open spec fn wf(self, model_type: i32) -> bool {
        &&& self.face_3d@.len() == 70
        &&& self.update_counts@.len() == LANDMARKS
        &&& self.contour@ == points_at(self.face_3d@, contour_places(model_type))
        &&& 0 <= self.fail_count
    }

    /// Whether the face is one that nothing was seen of.
    pub open spec fn unseen(self) -> bool {
        let z = single::of(0);
        let one = single::of(single::ONE);
        &&& !self.alive
        &&& self.conf == z
        &&& self.lms@ == Seq::<[Single; 3]>::empty()
        &&& self.eye_state == plain_eyes()
        &&& self.rotation is None
        &&& self.translation@ == seq![z, z, z]
        &&& !self.success
        &&& self.quaternion@ == seq![z, z, z, one]
        &&& self.euler@ == seq![z, z, z]
        &&& self.pnp_error == z
        &&& forall|i: int, c: int| 0 <= i < 70 && 0 <= c < 3 ==> #[trigger] self.pts_3d[i][c] == z
        &&& self.eye_blink@ == seq![one, one]
        &&& self.bbox@ == seq![z, z, z, z]
        &&& forall|i: int| 0 <= i < 20 ==> #[trigger] self.current_features[i] == z
        &&& self.fail_count == 0
        &&& self.coord is None
        &&& self.crop_smooth == crop::fresh()
        &&& self.output_filter.is_fresh()
    }

    /// A face that nothing was seen of yet.
    pub fn new(id: i32, model_type: i32, max_feature_updates: Single, filter: FilterCfg) -> (r: FaceInfo)
        ensures
            r.wf(model_type),
            r.unseen(),
            r.id == id,
            r.frame_count == -1,
            is_solid(r.face_3d@),
            untouched(r.update_counts@),
            r.features.is_new(max_feature_updates),
            r.output_filter.cfg == filter,
    {
        let z: Single = single::of(0);
        let one: Single = single::of(single::ONE);
        let face_3d: Vec<[Single; 3]> = pnp::solid_face();
        let idx: Vec<usize> = contour_idx(model_type);
        let contour: Vec<[Single; 3]> = pick_points(face_3d.as_slice(), idx.as_slice());
        let translation: [Single; 3] = [z, z, z];
        let quaternion: [Single; 4] = [z, z, z, one];
        let euler: [Single; 3] = [z, z, z];
        let eye_blink: [Single; 2] = [one, one];
        let bbox: [Single; 4] = [z, z, z, z];
        let current_features: FeatureVec = [
            z, z, z, z, z, z, z, z, z, z, z, z, z, z, z, z, z, z, z, z,
        ];
        proof {
            assert(translation@ =~= seq![z, z, z]);
            assert(quaternion@ =~= seq![z, z, z, one]);
            assert(euler@ =~= seq![z, z, z]);
            assert(eye_blink@ =~= seq![one, one]);
            assert(bbox@ =~= seq![z, z, z, z]);
        }
        FaceInfo {
            id,
            conf: z,
            lms: Vec::new(),
            eye_state: plain_eyes(),
            rotation: None,
            translation,
            success: false,
            quaternion,
            euler,
            pnp_error: z,
            pts_3d: no_points(),
            eye_blink,
            bbox,
            current_features,
            face_3d,
            contour,
            alive: false,
            coord: None,
            frame_count: -1,
            fail_count: 0,
            update_counts: no_counts(),
            features: FeatureExtractor::new(max_feature_updates),
            crop_smooth: CropSmoothState::default(),
            output_filter: OutputFilter::new(filter),
        }
    }

    /// Takes the points that the pose is fitted to from the solid face.
    pub fn update_contour(&mut self, model_type: i32)
        requires
            old(self).face_3d@.len() == 70,
        ensures
            final(self).contour@ == points_at(old(self).face_3d@, contour_places(model_type)),
            *final(self) == (FaceInfo { contour: final(self).contour, ..*old(self) }),
    {
        let idx: Vec<usize> = contour_idx(model_type);
        self.contour = pick_points(self.face_3d.as_slice(), idx.as_slice());
    }

    /// Forgets what was seen of a face. Its solid face stays, and so do its features, unless those
    /// are learned anew all the time.
    pub fn reset(&mut self, model_type: i32, max_feature_updates: Single)
        requires
            old(self).face_3d@.len() == 70,
        ensures
            final(self).unseen(),
            final(self).contour@ == points_at(old(self).face_3d@, contour_places(model_type)),
            final(self).id == old(self).id,
            final(self).frame_count == old(self).frame_count,
            final(self).face_3d == old(self).face_3d,
            final(self).update_counts == old(self).update_counts,
            final(self).output_filter.cfg == old(self).output_filter.cfg,
            if max_feature_updates.lt(single::of(single::ONE)) {
                final(self).features.is_new(single::of(0))
            } else {
                final(self).features == old(self).features
            },
    {
        let z: Single = single::of(0);
        let one: Single = single::of(single::ONE);
        self.alive = false;
        self.conf = z;
        self.lms.clear();
        self.eye_state = plain_eyes();
        self.rotation = None;
        self.translation = [z, z, z];
        self.success = false;
        self.quaternion = [z, z, z, one];
        self.euler = [z, z, z];
        self.pnp_error = z;
        self.pts_3d = no_points();
        self.eye_blink = [one, one];
        self.bbox = [z, z, z, z];
        self.current_features = [z, z, z, z, z, z, z, z, z, z, z, z, z, z, z, z, z, z, z, z];
        if max_feature_updates.lt(one) {
            self.features = FeatureExtractor::new(z);
        }
        self.update_contour(model_type);
        self.fail_count = 0;
        self.coord = None;
        self.crop_smooth.reset();
        self.output_filter.reset();
        proof {
            assert(self.translation@ =~= seq![z, z, z]);
            assert(self.quaternion@ =~= seq![z, z, z, one]);
            assert(self.euler@ =~= seq![z, z, z]);
            assert(self.eye_blink@ =~= seq![one, one]);
            assert(self.bbox@ =~= seq![z, z, z, z]);
        }
    }

    /// Takes in where a face was found in a frame.
    pub fn update_det(
        &mut self,
        conf: Single,
        lms: Vec<[Single; 3]>,
        eyes: [[Single; 4]; 2],
        coord: [Single; 2],
        frame_count: i32,
    )
        ensures
            *final(self) == (FaceInfo {
                frame_count,
                conf,
                lms,
                eye_state: eyes,
                coord: Some(coord),
                alive: true,
                ..*old(self)
            }),
    {
        self.frame_count = frame_count;
        self.conf = conf;
        self.lms = lms;
        self.eye_state = eyes;
        self.coord = Some(coord);
        self.alive = true;
    }

    /// The pose of the last frame, which the search for the next one starts from.
    pub fn guess(&self) -> (r: Option<([Single; 3], [Single; 3])>)
        ensures
            r == (match self.rotation {
                Some(v) => Some((v, self.translation)),
                None => None,
            }),
    {
        match self.rotation {
            Some(v) => Some((v, self.translation)),
            None => None,
        }
    }

    /// Takes in how a face stands in space. After more than a few frames in a row that do not fit,
    /// it starts over from the common solid face; whether it did is returned.
    pub fn take_depth(&mut self, d: DepthResult, model_type: i32) -> (r: bool)
        requires
            old(self).wf(model_type),
            old(self).fail_count < i32::MAX,
        ensures
            final(self).wf(model_type),
            r == (d.pnp_error.gt(single::of(decimal::N300)) && old(self).fail_count >= FAILS_MAX),
            final(self).success == d.success,
            final(self).quaternion == d.quaternion,
            final(self).euler == d.euler,
            final(self).pnp_error == d.pnp_error,
            final(self).pts_3d == d.pts_3d,
            final(self).lms == d.lms,
            final(self).fail_count == (if d.pnp_error.gt(single::of(decimal::N300)) {
                old(self).fail_count + 1
            } else {
                0
            }),
            r ==> {
                let z = single::of(0);
                &&& final(self).rotation is None
                &&& final(self).translation@ == seq![z, z, z]
                &&& is_solid(final(self).face_3d@)
                &&& untouched(final(self).update_counts@)
                &&& final(self).crop_smooth == crop::fresh()
                &&& final(self).output_filter.cfg == old(self).output_filter.cfg
                &&& final(self).output_filter.is_fresh()
            },
            !r ==> {
                &&& final(self).rotation == Some(d.rotation)
                &&& final(self).translation == d.translation
                &&& final(self).face_3d == old(self).face_3d
                &&& final(self).update_counts == old(self).update_counts
                &&& final(self).crop_smooth == old(self).crop_smooth
                &&& final(self).output_filter == old(self).output_filter
            },
            *final(self) == (FaceInfo {
                id: old(self).id,
                conf: old(self).conf,
                eye_state: old(self).eye_state,
                eye_blink: old(self).eye_blink,
                bbox: old(self).bbox,
                current_features: old(self).current_features,
                alive: old(self).alive,
                coord: old(self).coord,
                frame_count: old(self).frame_count,
                features: old(self).features,
                ..*final(self)
            }),
    {
        let lost: bool = d.pnp_error.gt(single::of(decimal::N300));
        self.success = d.success;
        self.quaternion = d.quaternion;
        self.euler = d.euler;
        self.pnp_error = d.pnp_error;
        self.pts_3d = d.pts_3d;
        self.lms = d.lms;
        self.rotation = Some(d.rotation);
        self.translation = d.translation;
        if lost {
            self.fail_count = self.fail_count + 1;
            if self.fail_count > FAILS_MAX {
                let z: Single = single::of(0);
                self.face_3d = pnp::solid_face();
                self.rotation = None;
                self.translation = [z, z, z];
                self.update_counts = no_counts();
                self.update_contour(model_type);
                self.crop_smooth.reset();
                self.output_filter.reset();
                assert(self.translation@ =~= seq![z, z, z]);
                return true;
            }
        } else {
            self.fail_count = 0;
        }
        false
    }

    /// Adjusts the solid face to the frame. `rotation` and `translation` are the pose that was
    /// found, `cos` and `sin` belong to its angle, `drawn` holds a number between zero and one for
    /// each coordinate.
    pub fn shape(
        &mut self,
        rotation: [Single; 3],
        cos: Single,
        sin: Single,
        translation: [Single; 3],
        cam: &Camera,
        static_model: bool,
        model_type: i32,
        drawn: &[[Single; 3]],
    )
        requires
            old(self).wf(model_type),
            old(self).lms@.len() >= LANDMARKS,
            drawn@.len() >= LANDMARKS,
        ensures
            final(self).wf(model_type),
            *final(self) == (FaceInfo {
                face_3d: final(self).face_3d,
                contour: final(self).contour,
                update_counts: final(self).update_counts,
                ..*old(self)
            }),
            ({
                let p = pnp::adjust::plan(old(self).euler);
                let x = pnp::adjust::Trial {
                    plan: p,
                    drawn: drawn@,
                    m: pnp::rotation_rows(rotation@, cos, sin),
                    t: translation@,
                    cam: *cam,
                    lms: old(self).lms@,
                };
                let (f0, f1) = (old(self).face_3d@, final(self).face_3d@);
                let (c0, c1) = (old(self).update_counts@, final(self).update_counts@);
                if !pnp::adjust::good_frame(old(self).conf, old(self).pnp_error) || model_type == -1
                    || static_model || p == pnp::adjust::Plan::Skip {
                    &&& f1 == f0
                    &&& c1 == c0
                } else {
                    &&& forall|i: int|
                        0 <= i < 70 ==> (#[trigger] f1[i])@ == pnp::adjust::point_after(x, f0, c0, i)
                    &&& forall|i: int, c: int|
                        0 <= i < LANDMARKS && 0 <= c < 2 ==> #[trigger] c1[i][c]
                            == pnp::adjust::count_after(x, f0, c0, i, c)
                }
            }),
    {
        adjust_3d(
            &mut self.face_3d,
            &mut self.update_counts,
            self.lms.as_slice(),
            self.euler,
            rotation,
            cos,
            sin,
            translation,
            cam,
            self.conf,
            self.pnp_error,
            static_model,
            model_type,
            drawn,
        );
        self.update_contour(model_type);
    }

    /// Sets the points of the face upright and in the size of the solid face. `c` and `s` are the
    /// cosine and sine of `pnp::adjust::normal_angle`.
    pub fn stand_upright(&mut self, c: Single, s: Single)
        requires
            old(self).face_3d@.len() == 70,
        ensures
            forall|i: int|
                0 <= i < 70 ==> (#[trigger] final(self).pts_3d[i])@ == pnp::adjust::normal_point(
                    old(self).pts_3d@,
                    old(self).face_3d@,
                    c,
                    s,
                    i,
                ),
            *final(self) == (FaceInfo { pts_3d: final(self).pts_3d, ..*old(self) }),
    {
        normalize_pts3d(&mut self.pts_3d, self.face_3d.as_slice(), c, s);
    }

    /// Reads the features off the points of the face: none at level 0, all at level 2.
    pub fn read_features(&mut self, level: i32, now: Single, turns: &Turns)
        ensures
            level < 1 ==> *final(self) == *old(self),
            level >= 1 ==> {
                let sure = decode::named_confs(old(self).lms@, decode::EYE_IDX@);
                let eye_conf = if sure.len() == 0 {
                    None
                } else {
                    Some(maths::sum_of(sure) / Single::from_int(sure.len() as int))
                };
                let f = final(self).current_features;
                &&& features::updated(
                    old(self).features,
                    final(self).features,
                    f@,
                    old(self).pts_3d@,
                    level == 2,
                    eye_conf,
                    now,
                    *turns,
                )
                &&& final(self).eye_blink@ == seq![
                    pnp::adjust::openness(f[1]),
                    pnp::adjust::openness(f[0]),
                ]
            },
            *final(self) == (FaceInfo {
                features: final(self).features,
                current_features: final(self).current_features,
                eye_blink: final(self).eye_blink,
                ..*old(self)
            }),
    {
        let eye_conf: Option<Single> = decode::mean_conf(
            self.lms.as_slice(),
            decode::EYE_IDX.as_slice(),
        );
        match apply_features(&self.pts_3d, level, &mut self.features, eye_conf, now, turns) {
            Some((f, open)) => {
                self.current_features = f;
                self.eye_blink = open;
                assert(self.eye_blink@ =~= seq![
                    pnp::adjust::openness(f[1]),
                    pnp::adjust::openness(f[0]),
                ]);
            },
            None => {},
        }
    }

    /// Takes the box about the landmarks, and gives the box in which the face is looked for in the
    /// next frame.
    pub fn follow(&mut self) -> (r: [Single; 4])
        ensures
            final(self).bbox@ == bbox_of(old(self).lms@),
            ({
                let s = seeded(old(self).crop_smooth, final(self).bbox);
                let b = crop::stable_box(old(self).lms@, Some(s));
                &&& crop::stable_after(old(self).lms@, s, b, final(self).crop_smooth)
                &&& r@ == (match b {
                    Some(v) => v,
                    None => match final(self).crop_smooth.last {
                        Some(v) => v@,
                        None => {
                            let z = single::of(0);
                            let one = single::of(single::ONE);
                            seq![z, z, one, one]
                        },
                    },
                })
            }),
            *final(self) == (FaceInfo {
                bbox: final(self).bbox,
                crop_smooth: final(self).crop_smooth,
                ..*old(self)
            }),
    {
        let n: usize = if self.lms.len() < LANDMARKS {
            self.lms.len()
        } else {
            LANDMARKS
        };
        let front: &[[Single; 3]] = vstd::slice::slice_subrange(self.lms.as_slice(), 0, n);
        assert(front@ =~= self.lms@.take(n as int));
        let h: [Single; 4] = decode::hull_of(front);
        self.bbox = [h[2], h[0], h[3] - h[2], h[1] - h[0]];
        assert(self.bbox@ =~= bbox_of(self.lms@));
        self.crop_smooth.seed_size(self.bbox);
        let (b, s) = stable_landmark_bbox(self.lms.as_slice(), Some(self.crop_smooth));
        match s {
            Some(s) => {
                self.crop_smooth = s;
            },
            None => {},
        }
        match b {
            Some(v) => {
                let r: [Single; 4] = [v[0], v[1], v[2], v[3]];
                proof {
                    let want = crop::stable_box(old(self).lms@, Some(seeded(old(self).crop_smooth, self.bbox)))->0;
                    assert(v@.len() == 5);
                    assert(want.len() == 4);
                    assert forall|i: int| 0 <= i < 4 implies r@[i] == want[i] by {
                        assert(v@[i] == want[i]);
                    }
                    assert(r@ =~= want);
                }
                r
            },
            None => match self.crop_smooth.last_box() {
                Some(v) => v,
                None => {
                    let z: Single = single::of(0);
                    let one: Single = single::of(single::ONE);
                    let r: [Single; 4] = [z, z, one, one];
                    assert(r@ =~= seq![z, z, one, one]);
                    r
                },
            },
        }
    }

    /// What is told of the face, smoothed over time by its quality, and, where the smoothed angles give its
    /// quaternion, those in radians for `filter::euler_to_quat`.
    pub fn report(&mut self, dt: Single) -> (r: (FaceReport, Option<[Single; 3]>))
        ensures
            filter::smoothed(
                old(self).output_filter,
                final(self).output_filter,
                old(self).euler@,
                r.0.euler@,
                old(self).translation@,
                r.0.translation@,
                old(self).lms@,
                r.0.lms@,
                old(self).pts_3d@,
                r.0.pts_3d@,
                dt,
                old(self).output_filter.cfg.rated(
                    FilterQuality {
                        conf: old(self).conf,
                        pnp_error: old(self).pnp_error,
                        success: old(self).success,
                    },
                ),
                r.1,
            ),
            r.0.face_3d@ == old(self).face_3d@,
            r.0.contour@ == old(self).contour@,
            r.0 == (FaceReport {
                id: old(self).id,
                conf: old(self).conf,
                eye_state: old(self).eye_state,
                rotation: old(self).rotation,
                success: old(self).success,
                quaternion: old(self).quaternion,
                pnp_error: old(self).pnp_error,
                eye_blink: old(self).eye_blink,
                bbox: old(self).bbox,
                current_features: old(self).current_features,
                ..r.0
            }),
            *final(self) == (FaceInfo { output_filter: final(self).output_filter, ..*old(self) }),
    {
        let mut euler: [Single; 3] = self.euler;
        let mut translation: [Single; 3] = self.translation;
        let mut lms: Vec<[Single; 3]> = copy_points(self.lms.as_slice());
        let mut points: Vec<[Single; 3]> = copy_points(self.pts_3d.as_slice());
        let quality = FilterQuality {
            conf: self.conf,
            pnp_error: self.pnp_error,
            success: self.success,
        };
        let angles: Option<[Single; 3]> = self.output_filter.apply_rated(
            &mut euler,
            &mut translation,
            lms.as_mut_slice(),
            points.as_mut_slice(),
            dt,
            quality,
        );
        let mut pts_3d: [[Single; 3]; 70] = self.pts_3d;
        let mut i: usize = 0;
        while i < 70 && i < points.len()
            invariant
                i <= 70,
                i <= points@.len(),
                forall|k: int| 0 <= k < i ==> #[trigger] pts_3d[k] == points@[k],
            decreases 70 - i,
        {
            pts_3d[i] = points[i];
            i = i + 1;
        }
        assert(pts_3d@ =~= points@);
        let face_3d: Vec<[Single; 3]> = copy_points(self.face_3d.as_slice());
        let contour: Vec<[Single; 3]> = copy_points(self.contour.as_slice());
        (
            FaceReport {
                id: self.id,
                conf: self.conf,
                lms,
                eye_state: self.eye_state,
                rotation: self.rotation,
                translation,
                success: self.success,
                quaternion: self.quaternion,
                euler,
                pnp_error: self.pnp_error,
                pts_3d,
                eye_blink: self.eye_blink,
                bbox: self.bbox,
                current_features: self.current_features,
                face_3d,
                contour,
            },
            angles,
        )
    }
}

} // verus!

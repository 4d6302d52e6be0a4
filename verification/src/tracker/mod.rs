//! The faces that are followed from frame to frame.

use crate::decode;
use crate::decode::{detect_faces_n, InvalidModel, LmSpec, TensorF16};
use crate::ext;
use crate::filter;
use crate::filter::{FilterCfg, FilterKind};
use crate::ieee::decimal;
use crate::ieee::single;
use crate::ieee::single::Single;
use crate::pnp::Camera;
use vstd::prelude::*;

pub mod assign;
pub mod face;
pub mod pick;

pub use assign::match_faces;
pub use face::{contour_idx, plain_eyes, FaceInfo, FaceReport};
pub use pick::{bonus, mean_xy, pick, region, remap_lms, sure, Candidate, Region, MAP30};

verus! {

/// The word of a thirtieth, the seconds that the first frame stands for.
pub const FIRST_STEP: u32 = 0x3d08_8889;

/// How frames are looked at, and for how many faces.
pub struct TrackerConfig {
    pub width: u32,
    pub height: u32,
    pub model_type: i32,
    pub detection_threshold: Single,
    pub threshold: Option<Single>,
    pub max_faces: usize,
    pub discard_after: i32,
    pub scan_every: i32,
    pub max_threads: usize,
    pub silent: bool,
    pub no_gaze: bool,
    pub use_retinaface: bool,
    pub max_feature_updates: Single,
    pub static_model: bool,
    pub try_hard: bool,
    pub filter: FilterKind,
    pub filter_mincutoff: Single,
    pub filter_beta: Single,
}

impl Default for TrackerConfig {
    fn default() -> (r: TrackerConfig)
        ensures
            r == (TrackerConfig {
                width: 640,
                height: 360,
                model_type: 3,
                detection_threshold: single::of(decimal::N0_6),
                threshold: None,
                max_faces: 1,
                discard_after: 10,
                scan_every: 3,
                max_threads: 4,
                silent: false,
                no_gaze: false,
                use_retinaface: false,
                max_feature_updates: single::of(0),
                static_model: true,
                try_hard: false,
                filter: FilterKind::OneEuro,
                filter_mincutoff: single::of(single::ONE),
                filter_beta: single::of(decimal::N0_007),
            }),
    {
        TrackerConfig {
            width: 640,
            height: 360,
            model_type: 3,
            detection_threshold: single::of(decimal::N0_6),
            threshold: None,
            max_faces: 1,
            discard_after: 10,
            scan_every: 3,
            max_threads: 4,
            silent: false,
            no_gaze: false,
            use_retinaface: false,
            max_feature_updates: single::of(0),
            static_model: true,
            try_hard: false,
            filter: FilterKind::OneEuro,
            filter_mincutoff: single::of(single::ONE),
            filter_beta: single::of(decimal::N0_007),
        }
    }
}

/// Which networks are wanted, and with how many threads each.
#[derive(Clone, Copy)]
pub struct LoadPlan {
    pub detection: usize,
    pub landmarks: usize,
    pub gaze: Option<usize>,
    pub retina: Option<usize>,
    pub scan: Option<usize>,
}

/// The least confidence of a face that is kept.
pub open spec fn least_conf(cfg: TrackerConfig) -> Single {
    match cfg.threshold {
        Some(v) => v,
        None => if cfg.model_type < 0 {
            single::of(decimal::N0_87)
        } else {
            single::of(decimal::N0_6)
        },
    }
}

impl TrackerConfig {
    /// Which networks are wanted, and with how many threads each.
    pub fn load_plan(&self) -> (r: LoadPlan)
        ensures
            ({
                let few = if self.max_threads < 1 {
                    1
                } else if self.max_threads > 4 {
                    4usize
                } else {
                    self.max_threads
                };
                let many = if self.max_threads < 4 {
                    4
                } else {
                    self.max_threads
                };
                r == LoadPlan {
                    detection: few,
                    landmarks: few,
                    gaze: if self.no_gaze {
                        None
                    } else {
                        Some(1usize)
                    },
                    retina: if self.use_retinaface || self.try_hard {
                        Some(many)
                    } else {
                        None
                    },
                    scan: if self.use_retinaface {
                        Some(2usize)
                    } else {
                        None
                    },
                }
            }),
    {
        let few: usize = if self.max_threads < 1 {
            1
        } else if self.max_threads > 4 {
            4
        } else {
            self.max_threads
        };
        let many: usize = if self.max_threads < 4 {
            4
        } else {
            self.max_threads
        };
        LoadPlan {
            detection: few,
            landmarks: few,
            gaze: if self.no_gaze {
                None
            } else {
                Some(1)
            },
            retina: if self.use_retinaface || self.try_hard {
                Some(many)
            } else {
                None
            },
            scan: if self.use_retinaface {
                Some(2)
            } else {
                None
            },
        }
    }
}

/// The faces that are followed, and how frames are looked at.
pub struct Tracker {
    pub width: u32,
    pub height: u32,
    pub spec: LmSpec,
    pub threshold: Single,
    pub detection_threshold: Single,
    pub max_faces: usize,
    pub discard_after: i32,
    pub scan_every: i32,
    pub silent: bool,
    pub try_hard: bool,
    pub no_gaze: bool,
    pub use_retinaface: bool,
    pub static_model: bool,
    pub feature_level: i32,
    pub max_feature_updates: Single,
    pub cam: Camera,
    pub faces: Vec<[Single; 4]>,
    pub face_info: Vec<FaceInfo>,
    pub detected: usize,
    pub discard: i32,
    pub wait_count: i32,
    pub frame_count: i32,
    pub last_tick: Option<u64>,
}

/// What is looked at in a frame, besides the places of the faces that are followed.
#[derive(Clone, Copy, PartialEq, Eq, Structural)]
pub struct FramePlan {
    /// The whole frame with the large detector.
    pub retina: bool,
    /// What the large detector found in the background.
    pub scan_results: bool,
    /// Hand the frame to the large detector, to be looked at in the background.
    pub scan_start: bool,
    /// The whole frame with the small detector.
    pub heatmap: bool,
    /// Take the whole frame for a face.
    pub whole_frame: bool,
}

/// Nothing is looked at but the faces that are followed.
pub open spec fn quiet() -> FramePlan {
    FramePlan {
        retina: false,
        scan_results: false,
        scan_start: false,
        heatmap: false,
        whole_frame: false,
    }
}

/// Whether none of the numbers of a box is missing.
pub open spec fn is_whole(b: [Single; 4]) -> bool {
    !b[0].is_nan() && !b[1].is_nan() && !b[2].is_nan() && !b[3].is_nan()
}

/// Boxes without those that have a number missing.
pub open spec fn whole_boxes(v: Seq<[Single; 4]>) -> Seq<[Single; 4]>
    decreases v.len(),
{
    if v.len() == 0 {
        v
    } else {
        let w = whole_boxes(v.drop_last());
        if is_whole(v.last()) {
            w.push(v.last())
        } else {
            w
        }
    }
}

/// Boxes without what follows their first four numbers.
pub open spec fn first_four(v: Seq<Seq<Single>>) -> Seq<Seq<Single>> {
    v.map_values(|b: Seq<Single>| b.take(4))
}

/// Boxes as sequences.
pub open spec fn quads(v: Seq<[Single; 4]>) -> Seq<Seq<Single>> {
    v.map_values(|b: [Single; 4]| b@)
}

/// Whether `new` is `old_face` found as `c` in frame `n`.
pub open spec fn is_found(old_face: FaceInfo, new: FaceInfo, c: Candidate, n: i32) -> bool {
    &&& new == (FaceInfo {
        frame_count: n,
        conf: c.conf,
        lms: new.lms,
        eye_state: c.eyes,
        coord: new.coord,
        alive: true,
        ..old_face
    })
    &&& new.lms@ == c.lms@
    &&& new.coord is Some
    &&& new.coord->0@ == pick::mean_place(c.lms@)
}

/// Whether `new` is `old_face` after a frame `n` in which it was not found.
pub open spec fn is_lost(
    old_face: FaceInfo,
    new: FaceInfo,
    n: i32,
    model_type: i32,
    max_feature_updates: Single,
) -> bool {
    if old_face.frame_count == n {
        new == old_face
    } else {
        &&& new.unseen()
        &&& new.frame_count == n
        &&& new.id == old_face.id
        &&& new.face_3d == old_face.face_3d
        &&& new.contour@ == face::points_at(old_face.face_3d@, face::contour_places(model_type))
        &&& new.update_counts == old_face.update_counts
        &&& new.output_filter.cfg == old_face.output_filter.cfg
        &&& if max_feature_updates.lt(single::of(single::ONE)) {
            new.features.is_new(single::of(0))
        } else {
            new.features == old_face.features
        }
    }
}

/// The places of followed faces.
pub open spec fn places_of(v: Seq<FaceInfo>) -> Seq<Option<[Single; 2]>> {
    Seq::new(v.len(), |i: int| v[i].coord)
}

/// Whether `v` holds the mean places of the picked candidates.
pub open spec fn are_means(cands: Seq<Candidate>, order: Seq<usize>, v: Seq<[Single; 2]>) -> bool {
    &&& v.len() == order.len()
    &&& forall|j: int|
        0 <= j < v.len() ==> (#[trigger] v[j])@ == pick::mean_place(cands[order[j] as int].lms@)
}

/// The distance that faces which are not seen yet count for: twice the diagonal of the frame.
pub open spec fn far_of(width: u32, height: u32) -> Single {
    single::of(decimal::N2) * Single::from_int(width * width + height * height).sqrt()
}

impl Tracker {
    /// Whether there is a place for every face, each under its number.
    pub open spec fn wf(self) -> bool {
        &&& self.spec.wf()
        &&& 1 <= self.max_faces == self.face_info@.len()
        &&& forall|i: int|
            0 <= i < self.face_info@.len() ==> (#[trigger] self.face_info@[i]).id == i
                && self.face_info@[i].wf(self.spec.model_type)
        &&& 0 <= self.wait_count
        &&& 0 <= self.frame_count
        &&& 0 <= self.discard
    }

    /// A tracker that has seen nothing yet. `has_gaze` says whether the network for the eyes is
    /// there.
    pub fn new(cfg: &TrackerConfig, has_gaze: bool) -> (r: Result<Tracker, InvalidModel>)
        requires
            cfg.max_faces <= i32::MAX,
        ensures
            r is Ok <==> -3 <= cfg.model_type <= 4,
            r is Err ==> r->Err_0 == (InvalidModel { model_type: cfg.model_type }),
            r matches Ok(t) ==> {
                &&& t.wf()
                &&& t.spec.describes(cfg.model_type as int)
                &&& t.max_faces == (if cfg.max_faces < 1 {
                    1
                } else {
                    cfg.max_faces
                })
                &&& forall|i: int|
                    0 <= i < t.max_faces ==> {
                        let f = #[trigger] t.face_info@[i];
                        &&& f.unseen()
                        &&& f.frame_count == -1
                        &&& face::is_solid(f.face_3d@)
                        &&& face::untouched(f.update_counts@)
                        &&& f.features.is_new(cfg.max_feature_updates)
                        &&& f.output_filter.cfg.kind == cfg.filter
                        &&& f.output_filter.cfg.mincutoff == cfg.filter_mincutoff
                        &&& f.output_filter.cfg.beta == cfg.filter_beta
                    }
                &&& t.faces@.len() == 0
                &&& t == (Tracker {
                    width: cfg.width,
                    height: cfg.height,
                    threshold: least_conf(*cfg),
                    detection_threshold: cfg.detection_threshold,
                    discard_after: cfg.discard_after,
                    scan_every: cfg.scan_every,
                    silent: cfg.silent,
                    try_hard: cfg.try_hard,
                    no_gaze: cfg.no_gaze || !has_gaze,
                    use_retinaface: cfg.use_retinaface,
                    static_model: cfg.static_model,
                    feature_level: if cfg.model_type == -1 {
                        1
                    } else {
                        2
                    },
                    max_feature_updates: cfg.max_feature_updates,
                    detected: 0,
                    discard: 0,
                    wait_count: 0,
                    frame_count: 0,
                    last_tick: None,
                    ..t
                })
                &&& t.cam == Camera::from_frame(cfg.width, cfg.height)
            },
    {
        let spec: LmSpec = match LmSpec::from_type(cfg.model_type) {
            Ok(s) => s,
            Err(e) => {
                return Err(e);
            },
        };
        let threshold: Single = match cfg.threshold {
            Some(v) => v,
            None => if cfg.model_type < 0 {
                single::of(decimal::N0_87)
            } else {
                single::of(decimal::N0_6)
            },
        };
        let max_faces: usize = if cfg.max_faces < 1 {
            1
        } else {
            cfg.max_faces
        };
        let filter: FilterCfg = FilterCfg::new(cfg.filter, cfg.filter_mincutoff, cfg.filter_beta);
        let mut face_info: Vec<FaceInfo> = Vec::new();
        while face_info.len() < max_faces
            invariant
                max_faces <= i32::MAX,
                face_info@.len() <= max_faces,
                filter.kind == cfg.filter,
                filter.mincutoff == cfg.filter_mincutoff,
                filter.beta == cfg.filter_beta,
                forall|i: int|
                    0 <= i < face_info@.len() ==> {
                        let f = #[trigger] face_info@[i];
                        &&& f.id == i
                        &&& f.wf(cfg.model_type)
                        &&& f.unseen()
                        &&& f.frame_count == -1
                        &&& face::is_solid(f.face_3d@)
                        &&& face::untouched(f.update_counts@)
                        &&& f.features.is_new(cfg.max_feature_updates)
                        &&& f.output_filter.cfg == filter
                    },
            decreases max_faces - face_info@.len(),
        {
            let id: i32 = face_info.len() as i32;
            face_info.push(FaceInfo::new(id, cfg.model_type, cfg.max_feature_updates, filter));
        }
        Ok(
            Tracker {
                width: cfg.width,
                height: cfg.height,
                spec,
                threshold,
                detection_threshold: cfg.detection_threshold,
                max_faces,
                discard_after: cfg.discard_after,
                scan_every: cfg.scan_every,
                silent: cfg.silent,
                try_hard: cfg.try_hard,
                no_gaze: cfg.no_gaze || !has_gaze,
                use_retinaface: cfg.use_retinaface,
                static_model: cfg.static_model,
                feature_level: if cfg.model_type == -1 {
                    1
                } else {
                    2
                },
                max_feature_updates: cfg.max_feature_updates,
                cam: Camera::from_frame(cfg.width, cfg.height),
                faces: Vec::new(),
                face_info,
                detected: 0,
                discard: 0,
                wait_count: 0,
                frame_count: 0,
                last_tick: None,
            },
        )
    }

    /// Takes in that frames have another size.
    pub fn set_size(&mut self, width: u32, height: u32)
        ensures
            *final(self) == (Tracker {
                width,
                height,
                cam: Camera::from_frame(width, height),
                ..*old(self)
            }),
    {
        self.width = width;
        self.height = height;
        self.cam = Camera::from_frame(width, height);
    }

    /// The seconds since the last frame, within bounds; a thirtieth before there was one. `now` is
    /// in nanoseconds of a clock that never goes back.
    pub fn tick(&mut self, now: u64) -> (r: Single)
        ensures
            r == (match old(self).last_tick {
                Some(t) => ext::age(t, now),
                None => single::of(FIRST_STEP),
            }).clamp(single::of(filter::SHORTEST), single::of(filter::LONGEST)),
            *final(self) == (Tracker { last_tick: Some(now), ..*old(self) }),
    {
        let dt: Single = match self.last_tick {
            Some(t) => ext::age(t, now),
            None => single::of(FIRST_STEP),
        };
        self.last_tick = Some(now);
        dt.clamp(single::of(filter::SHORTEST), single::of(filter::LONGEST))
    }

    /// What is looked at in the next frame. While no face is seen, all that is configured; while
    /// there is room for more faces, the frame every now and then; else nothing.
    pub open spec fn plan(self, has_retina: bool, has_scan: bool) -> FramePlan {
        if self.detected == 0 {
            FramePlan {
                retina: (self.use_retinaface || self.try_hard) && has_retina,
                scan_results: false,
                scan_start: false,
                heatmap: !self.use_retinaface || self.try_hard,
                whole_frame: self.try_hard,
            }
        } else if self.detected < self.max_faces {
            let due = self.wait_count + 1 >= self.scan_every;
            FramePlan {
                retina: false,
                scan_results: self.use_retinaface && has_scan,
                scan_start: due && self.use_retinaface && has_scan,
                heatmap: due && !self.use_retinaface,
                whole_frame: false,
            }
        } else {
            quiet()
        }
    }

    /// How many frames have passed since the last look at a whole frame, after the next frame.
    pub open spec fn waited(self) -> int {
        if self.detected == 0 || self.detected >= self.max_faces || (!self.use_retinaface
            && self.wait_count + 1 >= self.scan_every) {
            0
        } else {
            self.wait_count + 1
        }
    }

    /// Starts a frame: what is looked at in it. `has_retina` and `has_scan` say whether the networks
    /// of the large detector are there.
    pub fn begin(&mut self, has_retina: bool, has_scan: bool) -> (r: FramePlan)
        requires
            old(self).frame_count < i32::MAX,
            old(self).wait_count < i32::MAX,
        ensures
            r == old(self).plan(has_retina, has_scan),
            final(self).wait_count == old(self).waited(),
            final(self).frame_count == old(self).frame_count + 1,
            *final(self) == (Tracker {
                wait_count: final(self).wait_count,
                frame_count: final(self).frame_count,
                ..*old(self)
            }),
    {
        self.frame_count = self.frame_count + 1;
        self.wait_count = self.wait_count + 1;
        let mut plan: FramePlan = FramePlan {
            retina: false,
            scan_results: false,
            scan_start: false,
            heatmap: false,
            whole_frame: false,
        };
        if self.detected == 0 {
            plan.retina = (self.use_retinaface || self.try_hard) && has_retina;
            plan.heatmap = !self.use_retinaface || self.try_hard;
            plan.whole_frame = self.try_hard;
            self.wait_count = 0;
        } else if self.detected < self.max_faces {
            plan.scan_results = self.use_retinaface && has_scan;
            if self.wait_count >= self.scan_every {
                if self.use_retinaface {
                    plan.scan_start = has_scan;
                } else {
                    plan.heatmap = true;
                    self.wait_count = 0;
                }
            }
        } else {
            self.wait_count = 0;
        }
        plan
    }

    /// The boxes that the small detector found in a frame, from what its network gave.
    pub fn detect_heatmap(&self, outputs: &TensorF16, maxpool: &TensorF16, width: u32, height: u32) -> (r:
        Vec<[Single; 4]>)
        requires
            outputs.data@.len() >= 2 * decode::PLANE,
            maxpool.data@.len() >= decode::PLANE,
        ensures
            quads(r@) == first_four(
                decode::faces_of(
                    decode::heats(outputs.data@, maxpool.data@),
                    decode::radii(outputs.data@),
                    Seq::new(decode::PLANE as nat, |i: int| false),
                    width as int,
                    height as int,
                    self.detection_threshold,
                    self.max_faces as int,
                ),
            ),
    {
        let dets: Vec<[Single; 5]> = detect_faces_n(
            outputs,
            maxpool,
            width,
            height,
            self.detection_threshold,
            self.max_faces,
        );
        let mut r: Vec<[Single; 4]> = Vec::new();
        let mut i: usize = 0;
        while i < dets.len()
            invariant
                i <= dets@.len(),
                r@.len() == i,
                forall|k: int| 0 <= k < i ==> (#[trigger] r@[k])@ == dets@[k]@.take(4),
            decreases dets@.len() - i,
        {
            let d: [Single; 5] = dets[i];
            let b: [Single; 4] = [d[0], d[1], d[2], d[3]];
            assert(b@ =~= d@.take(4));
            r.push(b);
            i = i + 1;
        }
        proof {
            assert(decode::boxes(dets@).len() == dets@.len());
            assert forall|k: int| 0 <= k < r@.len() implies quads(r@)[k] == first_four(
                decode::boxes(dets@),
            )[k] by {
                assert(decode::boxes(dets@)[k] == dets@[k]@);
            }
            assert(quads(r@) =~= first_four(decode::boxes(dets@)));
        }
        r
    }

    /// The boxes that are looked at for landmarks: those of the faces that are followed, and what
    /// the detectors found.
    pub fn gather(
        &self,
        retina: &[[Single; 4]],
        scan: &[[Single; 4]],
        heatmap: &[[Single; 4]],
        whole_frame: bool,
    ) -> (r: Vec<[Single; 4]>)
        ensures
            ({
                let found = self.faces@ + retina@ + scan@ + heatmap@;
                if whole_frame {
                    let z = single::of(0);
                    &&& r@.len() == found.len() + 1
                    &&& r@.drop_last() == found
                    &&& r@.last()@ == seq![
                        z,
                        z,
                        Single::from_int(self.width as int),
                        Single::from_int(self.height as int),
                    ]
                } else {
                    r@ == found
                }
            }),
    {
        let mut r: Vec<[Single; 4]> = Vec::new();
        append_boxes(&mut r, self.faces.as_slice());
        append_boxes(&mut r, retina);
        append_boxes(&mut r, scan);
        append_boxes(&mut r, heatmap);
        proof {
            assert(Seq::<[Single; 4]>::empty() + self.faces@ =~= self.faces@);
        }
        let ghost found = r@;
        if whole_frame {
            let z: Single = single::of(0);
            let b: [Single; 4] = [
                z,
                z,
                single::from_u64(self.width as u64),
                single::from_u64(self.height as u64),
            ];
            r.push(b);
            proof {
                assert(r@.drop_last() =~= found);
                assert(b@ =~= seq![
                    z,
                    z,
                    Single::from_int(self.width as int),
                    Single::from_int(self.height as int),
                ]);
            }
        }
        r
    }

    /// Hands the candidates that were picked to the faces that are followed. Faces that none is left
    /// for are forgotten.
    pub fn assign_face_info(&mut self, cands: &[Candidate], order: &[usize])
        requires
            old(self).wf(),
            old(self).width * old(self).width + old(self).height * old(self).height <= u32::MAX,
            forall|j: int| 0 <= j < order@.len() ==> (#[trigger] order@[j]) < cands@.len(),
        ensures
            final(self).wf(),
            *final(self) == (Tracker { face_info: final(self).face_info, ..*old(self) }),
            ({
                let (f0, f1) = (old(self).face_info@, final(self).face_info@);
                let n = old(self).frame_count;
                if f0.len() == 1 && order@.len() == 1 {
                    is_found(f0[0], f1[0], cands@[order@[0] as int], n)
                } else {
                    exists|found: Seq<[Single; 2]>|
                        {
                            let s = assign::scene_of(
                                places_of(f0),
                                found,
                                far_of(old(self).width, old(self).height),
                            );
                            #[trigger] are_means(cands@, order@, found) && forall|i: int|
                                0 <= i < f0.len() ==> match assign::matches_of(s)[i] {
                                    Some(j) => is_found(
                                        f0[i],
                                        #[trigger] f1[i],
                                        cands@[order@[j] as int],
                                        n,
                                    ),
                                    None => is_lost(
                                        f0[i],
                                        f1[i],
                                        n,
                                        old(self).spec.model_type,
                                        old(self).max_feature_updates,
                                    ),
                                }
                        }
                }
            }),
    {
        let n: i32 = self.frame_count;
        let model_type: i32 = self.spec.model_type;
        if self.max_faces == 1 && order.len() == 1 {
            let k: usize = order[0];
            let c: &Candidate = &cands[k];
            let coord: [Single; 2] = mean_xy(c.lms.as_slice());
            let lms: Vec<[Single; 3]> = face::copy_points(c.lms.as_slice());
            self.face_info[0].update_det(c.conf, lms, c.eyes, coord, n);
            return;
        }
        let mut places: Vec<Option<[Single; 2]>> = Vec::new();
        let mut i: usize = 0;
        while i < self.face_info.len()
            invariant
                i <= self.face_info@.len(),
                places@.len() == i,
                forall|k: int| 0 <= k < i ==> #[trigger] places@[k] == self.face_info@[k].coord,
            decreases self.face_info@.len() - i,
        {
            places.push(self.face_info[i].coord);
            i = i + 1;
        }
        assert(places@ =~= places_of(self.face_info@));
        let mut found: Vec<[Single; 2]> = Vec::new();
        let mut j: usize = 0;
        while j < order.len()
            invariant
                j <= order@.len(),
                found@.len() == j,
                forall|k: int| 0 <= k < order@.len() ==> (#[trigger] order@[k]) < cands@.len(),
                forall|k: int|
                    0 <= k < j ==> (#[trigger] found@[k])@ == pick::mean_place(
                        cands@[order@[k] as int].lms@,
                    ),
            decreases order@.len() - j,
        {
            found.push(mean_xy(cands[order[j]].lms.as_slice()));
            j = j + 1;
        }
        proof {
            let (w, h) = (self.width as int, self.height as int);
            assert(w * w >= 0 && h * h >= 0) by (nonlinear_arith);
        }
        let far: Single = single::of(decimal::N2) * single::from_u64(
            (self.width * self.width + self.height * self.height) as u64,
        ).sqrt();
        let m: Vec<Option<usize>> = match_faces(places.as_slice(), found.as_slice(), far);
        let ghost f0 = self.face_info@;
        let ghost before = *self;
        let mut i: usize = 0;
        while i < self.face_info.len()
            invariant
                i <= self.face_info@.len(),
                self.face_info@.len() == f0.len(),
                before.wf(),
                f0 == before.face_info@,
                before == *old(self),
                *self == (Tracker { face_info: self.face_info, ..before }),
                m@.len() == f0.len(),
                n == before.frame_count,
                model_type == before.spec.model_type,
                found@.len() == order@.len(),
                are_means(cands@, order@, found@),
                forall|k: int| 0 <= k < order@.len() ==> (#[trigger] order@[k]) < cands@.len(),
                forall|k: int| 0 <= k < m@.len() && (#[trigger] m@[k]) is Some ==> m@[k]->0 < found@.len(),
                forall|k: int| i <= k < f0.len() ==> #[trigger] self.face_info@[k] == f0[k],
                forall|k: int|
                    0 <= k < i ==> match m@[k] {
                        Some(j) => is_found(
                            f0[k],
                            #[trigger] self.face_info@[k],
                            cands@[order@[j as int] as int],
                            n,
                        ),
                        None => is_lost(
                            f0[k],
                            self.face_info@[k],
                            n,
                            model_type,
                            before.max_feature_updates,
                        ),
                    },
                forall|k: int|
                    0 <= k < f0.len() ==> (#[trigger] self.face_info@[k]).id == k
                        && self.face_info@[k].wf(model_type),
            decreases self.face_info@.len() - i,
        {
            match m[i] {
                Some(j) => {
                    let c: &Candidate = &cands[order[j]];
                    let lms: Vec<[Single; 3]> = face::copy_points(c.lms.as_slice());
                    self.face_info[i].update_det(c.conf, lms, c.eyes, found[j], n);
                },
                None => {
                    if self.face_info[i].frame_count != n {
                        let most: Single = self.max_feature_updates;
                        self.face_info[i].reset(model_type, most);
                        self.face_info[i].frame_count = n;
                    }
                },
            }
            i = i + 1;
        }
        proof {
            let s = assign::scene_of(places_of(f0), found@, far_of(before.width, before.height));
            assert forall|i: int| 0 <= i < f0.len() implies match assign::matches_of(s)[i] {
                Some(j) => is_found(f0[i], #[trigger] self.face_info@[i], cands@[order@[j] as int], n),
                None => is_lost(
                    f0[i],
                    self.face_info@[i],
                    n,
                    model_type,
                    before.max_feature_updates,
                ),
            } by {
                assert(assign::as_ints(m@)[i] == assign::matches_of(s)[i]);
            }
            assert(are_means(cands@, order@, found@));
        }
    }

    /// Whether a face is told of in this frame.
    pub fn is_shown(&self, i: usize) -> (r: bool)
        requires
            i < self.face_info@.len(),
        ensures
            r == self.shows(i as int),
    {
        self.face_info[i].alive && self.face_info[i].conf.gt(self.threshold)
    }

    /// Whether face `i` is told of in this frame.
    pub open spec fn shows(self, i: int) -> bool {
        self.face_info@[i].alive && self.face_info@[i].conf.gt(self.threshold)
    }

    /// Those of the first `n` faces that are told of, after a look at so many boxes.
    pub open spec fn shown_of(self, boxes: int, n: int) -> Seq<int>
        decreases n,
    {
        if n <= 0 || boxes <= 0 {
            Seq::empty()
        } else if self.shows(n - 1) {
            self.shown_of(boxes, n - 1).push(n - 1)
        } else {
            self.shown_of(boxes, n - 1)
        }
    }

    /// The faces that are told of in this frame, after a look at so many boxes, by their places.
    pub fn shown(&self, boxes: usize) -> (r: Vec<usize>)
        ensures
            r@.map_values(|i: usize| i as int) == self.shown_of(
                boxes as int,
                self.face_info@.len() as int,
            ),
    {
        let mut r: Vec<usize> = Vec::new();
        let ghost as_int = |i: usize| i as int;
        assert(r@.map_values(as_int) =~= Seq::empty());
        if boxes == 0 {
            return r;
        }
        let mut i: usize = 0;
        while i < self.face_info.len()
            invariant
                boxes > 0,
                i <= self.face_info@.len(),
                as_int == (|i: usize| i as int),
                r@.map_values(as_int) == self.shown_of(boxes as int, i as int),
            decreases self.face_info@.len() - i,
        {
            let ghost before = r@;
            if self.is_shown(i) {
                r.push(i);
                assert(r@.map_values(as_int) =~= before.map_values(as_int).push(i as int));
            }
            i = i + 1;
        }
        r
    }

    /// The boxes that are followed into the next frame, given those of the faces of this one.
    pub open spec fn followed(self, boxes: Seq<[Single; 4]>) -> Seq<[Single; 4]> {
        whole_boxes(
            if boxes.len() > 0 {
                boxes
            } else if self.discard + 1 > self.discard_after {
                Seq::empty()
            } else {
                self.faces@
            },
        )
    }

    /// Ends a frame with the boxes in which its faces are looked for in the next one. Boxes are kept
    /// through a few frames without a face.
    pub fn end(&mut self, boxes: Vec<[Single; 4]>)
        requires
            old(self).discard < i32::MAX,
        ensures
            final(self).faces@ == old(self).followed(boxes@),
            final(self).detected == final(self).faces@.len(),
            final(self).discard == (if boxes@.len() > 0 {
                0
            } else {
                old(self).discard + 1
            }),
            *final(self) == (Tracker {
                faces: final(self).faces,
                detected: final(self).detected,
                discard: final(self).discard,
                ..*old(self)
            }),
    {
        if boxes.len() > 0 {
            self.faces = retain_whole(boxes.as_slice());
            self.discard = 0;
        } else {
            self.discard = self.discard + 1;
            if self.discard > self.discard_after {
                self.faces.clear();
            }
            self.faces = retain_whole(self.faces.as_slice());
        }
        self.detected = self.faces.len();
    }
}

fn append_boxes(r: &mut Vec<[Single; 4]>, v: &[[Single; 4]])
    ensures
        final(r)@ == old(r)@ + v@,
{
    let ghost start = r@;
    let mut i: usize = 0;
    assert(v@.take(0) =~= Seq::empty());
    assert(start + v@.take(0) =~= start);
    while i < v.len()
        invariant
            i <= v@.len(),
            r@ == start + v@.take(i as int),
        decreases v@.len() - i,
    {
        r.push(v[i]);
        i = i + 1;
        assert(start + v@.take(i as int) =~= (start + v@.take(i - 1)).push(v@[i - 1]));
    }
    assert(v@.take(i as int) =~= v@);
}

fn retain_whole(v: &[[Single; 4]]) -> (r: Vec<[Single; 4]>)
    ensures
        r@ == whole_boxes(v@),
{
    let mut r: Vec<[Single; 4]> = Vec::new();
    let mut i: usize = 0;
    assert(v@.take(0) =~= Seq::empty());
    while i < v.len()
        invariant
            i <= v@.len(),
            r@ == whole_boxes(v@.take(i as int)),
        decreases v@.len() - i,
    {
        let b: [Single; 4] = v[i];
        proof {
            assert(v@.take(i + 1).drop_last() =~= v@.take(i as int));
            assert(v@.take(i + 1).last() == v@[i as int]);
        }
        if !b[0].is_nan() && !b[1].is_nan() && !b[2].is_nan() && !b[3].is_nan() {
            r.push(b);
        }
        i = i + 1;
    }
    assert(v@.take(i as int) =~= v@);
    r
}

/// The faces that are told of have rising numbers, of which there are as many as configured; each is
/// alive and surer than the threshold, none that is so is left out, and there are none where no box
/// was looked at.
pub proof fn lemma_shown(t: Tracker, boxes: int)
    requires
        t.wf(),
    ensures
        ({
            let s = t.shown_of(boxes, t.max_faces as int);
            &&& s.len() <= t.max_faces
            &&& boxes <= 0 ==> s.len() == 0
            &&& forall|a: int, b: int|
                0 <= a < b < s.len() ==> t.face_info@[#[trigger] s[a]].id < t.face_info@[#[trigger] s[b]].id
            &&& forall|k: int|
                0 <= k < s.len() ==> 0 <= #[trigger] s[k] < t.max_faces && t.shows(s[k])
                    && t.face_info@[s[k]].id == s[k]
            &&& forall|i: int|
                boxes > 0 && 0 <= i < t.max_faces && t.shows(i) ==> #[trigger] s.contains(i)
        }),
{
    lemma_shown_of(t, boxes, t.max_faces as int);
}

proof fn lemma_shown_of(t: Tracker, boxes: int, n: int)
    requires
        0 <= n,
    ensures
        ({
            let s = t.shown_of(boxes, n);
            &&& s.len() <= n
            &&& boxes <= 0 ==> s.len() == 0
            &&& forall|a: int, b: int| 0 <= a < b < s.len() ==> #[trigger] s[a] < #[trigger] s[b]
            &&& forall|k: int| 0 <= k < s.len() ==> 0 <= #[trigger] s[k] < n && t.shows(s[k])
            &&& forall|i: int| boxes > 0 && 0 <= i < n && t.shows(i) ==> #[trigger] s.contains(i)
        }),
    decreases n,
{
    if n > 0 && boxes > 0 {
        lemma_shown_of(t, boxes, n - 1);
        let before = t.shown_of(boxes, n - 1);
        let s = t.shown_of(boxes, n);
        assert forall|i: int| 0 <= i < n && t.shows(i) implies #[trigger] s.contains(i) by {
            if i < n - 1 {
                assert(before.contains(i));
                let k = choose|k: int| 0 <= k < before.len() && before[k] == i;
                assert(s[k] == i);
            } else {
                assert(s[s.len() - 1] == i);
            }
        }
    }
}

/// While every place for a face is taken, no frame is looked at as a whole.
pub proof fn lemma_full_is_quiet(t: Tracker, has_retina: bool, has_scan: bool)
    requires
        t.wf(),
        t.detected >= t.max_faces,
    ensures
        t.plan(has_retina, has_scan) == quiet(),
        t.waited() == 0,
{
}

/// When the small detector looks at a frame, by how many boxes are followed from the last one: at
/// every frame where there is none; where some but not all places are taken, once as many frames as
/// configured have passed since it last did; and never where all are taken. Then only the boxes that
/// are followed are looked at.
pub proof fn lemma_when_detector_runs(t: Tracker, has_retina: bool, has_scan: bool)
    requires
        t.wf(),
        t.detected == t.faces@.len(),
        !t.use_retinaface,
    ensures
        ({
            let plan = t.plan(has_retina, has_scan);
            let none = Seq::<[Single; 4]>::empty();
            &&& t.faces@.len() == 0 ==> plan.heatmap && t.waited() == 0
            &&& 0 < t.faces@.len() < t.max_faces ==> (plan.heatmap <==> t.wait_count + 1 >= t.scan_every)
            &&& 0 < t.faces@.len() < t.max_faces ==> t.waited() == (if plan.heatmap {
                0
            } else {
                t.wait_count + 1
            })
            &&& t.faces@.len() >= t.max_faces ==> plan == quiet() && t.waited() == 0
            &&& t.faces@.len() > 0 ==> !plan.retina && !plan.scan_results && !plan.scan_start
                && !plan.whole_frame
            &&& t.faces@ + none + none + none == t.faces@
        }),
{
    let none = Seq::<[Single; 4]>::empty();
    assert(t.faces@ + none + none + none =~= t.faces@);
}

/// How many frames have passed since the last look with the small detector, `k` frames on, while
/// some but not all places are taken.
pub open spec fn waits(t: Tracker, k: nat) -> int
    decreases k,
{
    if k == 0 {
        0
    } else {
        (Tracker { wait_count: waits(t, (k - 1) as nat) as i32, ..t }).waited()
    }
}

/// While some but not all places are taken, the small detector looks at every frame whose number,
/// counted from its last look, is a multiple of the configured one.
pub proof fn lemma_scan_every(t: Tracker, k: nat)
    requires
        t.wf(),
        0 < t.detected < t.max_faces,
        !t.use_retinaface,
        1 <= t.scan_every,
    ensures
        waits(t, k) == k as int % t.scan_every as int,
        ({
            let next = Tracker { wait_count: waits(t, k) as i32, ..t };
            next.plan(false, false).heatmap <==> (k + 1) as int % t.scan_every as int == 0
        }),
    decreases k,
{
    let n = t.scan_every as int;
    vstd::arithmetic::div_mod::lemma_mod_bound(k as int, n);
    if k > 0 {
        lemma_scan_every(t, (k - 1) as nat);
        vstd::arithmetic::div_mod::lemma_mod_bound(k - 1, n);
        lemma_step(k - 1, n);
    } else {
        vstd::arithmetic::div_mod::lemma_small_mod(0, n as nat);
    }
    lemma_step(k as int, n);
}

proof fn lemma_step(k: int, n: int)
    requires
        0 <= k,
        1 <= n,
    ensures
        (k + 1) % n == (if k % n + 1 >= n {
            0
        } else {
            k % n + 1
        }),
        0 <= k % n < n,
{
    vstd::arithmetic::div_mod::lemma_mod_bound(k, n);
    vstd::arithmetic::div_mod::lemma_fundamental_div_mod(k, n);
    let (q, r) = (k / n, k % n);
    if r + 1 >= n {
        assert((q + 1) * n + 0 == k + 1) by (nonlinear_arith)
            requires
                k == n * q + r,
                r + 1 == n,
        ;
        vstd::arithmetic::div_mod::lemma_fundamental_div_mod_converse(k + 1, n, q + 1, 0);
    } else {
        assert(q * n + (r + 1) == k + 1) by (nonlinear_arith)
            requires
                k == n * q + r,
        ;
        vstd::arithmetic::div_mod::lemma_fundamental_div_mod_converse(k + 1, n, q, r + 1);
    }
}

proof fn lemma_whole_boxes(v: Seq<[Single; 4]>)
    ensures
        whole_boxes(v).len() <= v.len(),
        forall|i: int| 0 <= i < whole_boxes(v).len() ==> is_whole(#[trigger] whole_boxes(v)[i]),
        (forall|i: int| 0 <= i < v.len() ==> is_whole(#[trigger] v[i])) ==> whole_boxes(v) == v,
    decreases v.len(),
{
    if v.len() > 0 {
        lemma_whole_boxes(v.drop_last());
        if forall|i: int| 0 <= i < v.len() ==> is_whole(#[trigger] v[i]) {
            assert forall|i: int| 0 <= i < v.drop_last().len() implies is_whole(
                #[trigger] v.drop_last()[i],
            ) by {
                assert(is_whole(v[i]));
            }
            assert(is_whole(v[v.len() - 1]));
            assert(whole_boxes(v) =~= v);
        }
    }
}

/// No box with a missing number is followed, and a frame without a face leaves the boxes as they are
/// until as many such frames have passed as are configured; then none is left.
pub proof fn lemma_boxes_outlast(t: Tracker, boxes: Seq<[Single; 4]>)
    ensures
        forall|i: int| 0 <= i < t.followed(boxes).len() ==> is_whole(#[trigger] t.followed(boxes)[i]),
        boxes.len() == 0 && t.discard >= t.discard_after ==> t.followed(boxes).len() == 0,
        boxes.len() == 0 && t.discard < t.discard_after && (forall|i: int|
            0 <= i < t.faces@.len() ==> is_whole(#[trigger] t.faces@[i])) ==> t.followed(boxes) == t.faces@,
{
    lemma_whole_boxes(boxes);
    lemma_whole_boxes(t.faces@);
    lemma_whole_boxes(Seq::empty());
}

} // verus!

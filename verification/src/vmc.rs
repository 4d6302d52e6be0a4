//! A frame as messages of the VMC protocol.

use crate::blends;
use crate::ext;
use crate::ext::{encode_ext, ArgView, OscArg, OscMessage};
use crate::ieee::convert;
use crate::ieee::single::Single;
use crate::vrm::{BonePose, VrmFrame};
use vstd::prelude::*;

verus! {

/// The time tag of the bundle that carries the messages, in seconds and fractions.
pub const TIMETAG: (u32, u32) = (0, 1);

/// The arguments of a named place and rotation.
pub open spec fn pose_args(name: Seq<char>, pos: Seq<Single>, rot: Seq<Single>) -> Seq<ArgView> {
    seq![
        ArgView::Text(name),
        ArgView::Float(pos[0]),
        ArgView::Float(pos[1]),
        ArgView::Float(pos[2]),
        ArgView::Float(rot[0]),
        ArgView::Float(rot[1]),
        ArgView::Float(rot[2]),
        ArgView::Float(rot[3]),
    ]
}

/// The message of a bone.
pub open spec fn bone_message(b: BonePose) -> (Seq<char>, Seq<ArgView>) {
    ("/VMC/Ext/Bone/Pos"@, pose_args(b.name@, b.pos@, b.rot@))
}

/// The message of a blend shape.
pub open spec fn blend_message(b: (&'static str, Single)) -> (Seq<char>, Seq<ArgView>) {
    ("/VMC/Ext/Blend/Val"@, seq![ArgView::Text(b.0@), ArgView::Float(b.1)])
}

/// The messages of a frame: root, bones, blend shapes, what came from outside, apply, OK, time.
pub open spec fn frame_messages(f: VrmFrame) -> Seq<(Seq<char>, Seq<ArgView>)> {
    seq![("/VMC/Ext/Root/Pos"@, pose_args("root"@, f.root_pos@, f.root_rot@))] + f.bones@.map_values(
        |b: BonePose| bone_message(b),
    ) + f.blends.items@.map_values(|b: (&'static str, Single)| blend_message(b))
        + ext::ext_messages(f.visemes@, f.expression@, f.expression_weight, f.audio) + seq![
        ("/VMC/Ext/Blend/Apply"@, Seq::empty()),
        ("/VMC/Ext/OK"@, seq![ArgView::Int(1)]),
        ("/VMC/Ext/T"@, seq![ArgView::Float(convert::to_single(f.time))]),
    ]
}

fn pose_message(addr: &'static str, name: &str, pos: &[Single; 3], rot: &[Single; 4]) -> (r: OscMessage)
    ensures
        r.addr@ == addr@,
        ext::arg_views(r.args@) == pose_args(name@, pos@, rot@),
{
    let mut args: Vec<OscArg> = Vec::new();
    args.push(OscArg::Text(name.to_owned()));
    args.push(OscArg::Float(pos[0]));
    args.push(OscArg::Float(pos[1]));
    args.push(OscArg::Float(pos[2]));
    args.push(OscArg::Float(rot[0]));
    args.push(OscArg::Float(rot[1]));
    args.push(OscArg::Float(rot[2]));
    args.push(OscArg::Float(rot[3]));
    proof {
        assert(ext::arg_views(args@) =~= pose_args(name@, pos@, rot@));
    }
    OscMessage { addr, args }
}

/// The messages of a frame, for one bundle.
pub fn encode_vmc(frame: &VrmFrame) -> (r: Vec<OscMessage>)
    ensures
        ext::message_views(r@) == frame_messages(*frame),
{
    let ghost all = frame_messages(*frame);
    let ghost bones = frame.bones@.map_values(|b: BonePose| bone_message(b));
    let ghost shapes = frame.blends.items@.map_values(
        |b: (&'static str, Single)| blend_message(b),
    );
    let mut r: Vec<OscMessage> = Vec::new();
    r.push(pose_message("/VMC/Ext/Root/Pos", "root", &frame.root_pos, &frame.root_rot));
    let ghost first = seq![("/VMC/Ext/Root/Pos"@, pose_args("root"@, frame.root_pos@, frame.root_rot@))];
    assert(ext::message_views(r@) =~= first + bones.take(0));
    let mut i: usize = 0;
    while i < frame.bones.len()
        invariant
            i <= frame.bones@.len(),
            bones == frame.bones@.map_values(|b: BonePose| bone_message(b)),
            ext::message_views(r@) == first + bones.take(i as int),
        decreases frame.bones@.len() - i,
    {
        let b = &frame.bones[i];
        let ghost before = r@;
        r.push(pose_message("/VMC/Ext/Bone/Pos", b.name, &b.pos, &b.rot));
        proof {
            assert(ext::message_views(r@) =~= ext::message_views(before).push(bones[i as int]));
            assert(bones.take(i + 1) =~= bones.take(i as int).push(bones[i as int]));
            assert(ext::message_views(r@) =~= first + bones.take(i + 1));
        }
        i = i + 1;
    }
    let ghost base = first + bones;
    assert(bones.take(i as int) =~= bones);
    assert(ext::message_views(r@) =~= base + shapes.take(0));
    let mut k: usize = 0;
    while k < frame.blends.items.len()
        invariant
            k <= frame.blends.items@.len(),
            shapes == frame.blends.items@.map_values(
                |b: (&'static str, Single)| blend_message(b),
            ),
            ext::message_views(r@) == base + shapes.take(k as int),
        decreases frame.blends.items@.len() - k,
    {
        let (name, w) = frame.blends.items[k];
        let ghost before = r@;
        let mut args: Vec<OscArg> = Vec::new();
        args.push(OscArg::Text(name.to_owned()));
        args.push(OscArg::Float(w));
        proof {
            assert(ext::arg_views(args@) =~= seq![ArgView::Text(name@), ArgView::Float(w)]);
        }
        r.push(OscMessage { addr: "/VMC/Ext/Blend/Val", args });
        proof {
            assert(ext::message_views(r@) =~= ext::message_views(before).push(shapes[k as int]));
            assert(shapes.take(k + 1) =~= shapes.take(k as int).push(shapes[k as int]));
            assert(ext::message_views(r@) =~= base + shapes.take(k + 1));
        }
        k = k + 1;
    }
    assert(shapes.take(k as int) =~= shapes);
    let mut e: Vec<OscMessage> = encode_ext(
        &frame.visemes,
        frame.expression.as_str(),
        frame.expression_weight,
        frame.audio,
    );
    let ghost before = r@;
    let ghost told = e@;
    r.append(&mut e);
    proof {
        assert(ext::message_views(r@) =~= ext::message_views(before) + ext::message_views(told));
    }
    let ghost middle = r@;
    let mut ok: Vec<OscArg> = Vec::new();
    ok.push(OscArg::Int(1));
    let mut time: Vec<OscArg> = Vec::new();
    time.push(OscArg::Float(convert::to_single(frame.time)));
    proof {
        assert(ext::arg_views(ok@) =~= seq![ArgView::Int(1)]);
        assert(ext::arg_views(time@) =~= seq![ArgView::Float(convert::to_single(frame.time))]);
        assert(ext::arg_views(Seq::empty()) =~= Seq::empty());
    }
    r.push(OscMessage { addr: "/VMC/Ext/Blend/Apply", args: Vec::new() });
    r.push(OscMessage { addr: "/VMC/Ext/OK", args: ok });
    r.push(OscMessage { addr: "/VMC/Ext/T", args: time });
    proof {
        assert(ext::message_views(r@) =~= ext::message_views(middle) + seq![
            ("/VMC/Ext/Blend/Apply"@, Seq::empty()),
            ("/VMC/Ext/OK"@, seq![ArgView::Int(1)]),
            ("/VMC/Ext/T"@, seq![ArgView::Float(convert::to_single(frame.time))]),
        ]);
        assert(ext::message_views(r@) =~= all);
    }
    r
}

} // verus!

//! Visemes, an expression and an audio level from outside, as OSC messages under `/OSF/Ext/`.
//!
//! Viseme weights stand in the order sil, PP, FF, TH, DD, kk, CH, SS, nn, RR, aa, E, ih, oh, ou.

use crate::ieee::convert;
use crate::ieee::double::Double;
use crate::ieee::single;
use crate::ieee::single::Single;
use crate::text;
use vstd::prelude::*;
use vstd::string::StrSliceExecFns;

verus! {

/// Visemes in all.
pub const VISEME_COUNT: usize = 15;

/// The names of the visemes.
pub const VISEME_NAMES: [&'static str; 15] = [
    "sil",
    "PP",
    "FF",
    "TH",
    "DD",
    "kk",
    "CH",
    "SS",
    "nn",
    "RR",
    "aa",
    "E",
    "ih",
    "oh",
    "ou",
];

/// The names of the blend shapes that go with the visemes.
pub const VISEME_BLEND: [&'static str; 15] = [
    "SIL",
    "PP",
    "FF",
    "TH",
    "DD",
    "KK",
    "CH",
    "SS",
    "NN",
    "RR",
    "A",
    "E",
    "I",
    "O",
    "U",
];

/// The words of each viseme's weights of A, I, U, E and O, and of its open jaw.
pub const CATS: [[u32; 6]; 15] = [
    [0x0000_0000, 0x0000_0000, 0x0000_0000, 0x0000_0000, 0x0000_0000, 0x0000_0000],
    [0x3ecc_cccd, 0x0000_0000, 0x0000_0000, 0x0000_0000, 0x3ecc_cccd, 0x0000_0000],
    [0x3e4c_cccd, 0x3ecc_cccd, 0x0000_0000, 0x0000_0000, 0x0000_0000, 0x3dcc_cccd],
    [0x3ecc_cccd, 0x0000_0000, 0x0000_0000, 0x0000_0000, 0x3e19_999a, 0x3f00_0000],
    [0x3e99_999a, 0x3f33_3333, 0x0000_0000, 0x0000_0000, 0x0000_0000, 0x3f33_3333],
    [0x3f33_3333, 0x3ecc_cccd, 0x0000_0000, 0x0000_0000, 0x0000_0000, 0x0000_0000],
    [0x0000_0000, 0x3f7f_e5c9, 0x0000_0000, 0x0000_0000, 0x0000_0000, 0x3f80_0000],
    [0x0000_0000, 0x3f4c_cccd, 0x0000_0000, 0x0000_0000, 0x0000_0000, 0x3e99_999a],
    [0x3e4c_cccd, 0x3f33_3333, 0x0000_0000, 0x0000_0000, 0x0000_0000, 0x3dcc_cccd],
    [0x0000_0000, 0x3f00_0000, 0x0000_0000, 0x0000_0000, 0x3e99_999a, 0x3ecc_cccd],
    [0x3f7f_f2e5, 0x0000_0000, 0x0000_0000, 0x0000_0000, 0x0000_0000, 0x3f80_0000],
    [0x0000_0000, 0x0000_0000, 0x0000_0000, 0x3f7f_ec57, 0x0000_0000, 0x3f19_999a],
    [0x3f00_0000, 0x3e4c_cccd, 0x0000_0000, 0x0000_0000, 0x0000_0000, 0x3f00_0000],
    [0x0000_0000, 0x0000_0000, 0x0000_0000, 0x0000_0000, 0x3f7f_f972, 0x3f80_0000],
    [0x0000_0000, 0x0000_0000, 0x3f7f_df3b, 0x0000_0000, 0x0000_0000, 0x3f80_0000],
];

/// The viseme of silence.
pub const SIL: usize = 0;

/// The word of the age in seconds past which a value no longer counts.
pub const STALE: u32 = 0x3eb3_3333;

/// The word of the number of nanoseconds in a second.
pub const NANOS: u32 = 0x4e6e_6b28;

/// The first of the names, from `i` on, that spells `n` in any case.
pub open spec fn place_of(names: Seq<&'static str>, n: Seq<char>, i: int) -> Option<int>
    decreases names.len() - i,
{
    if i < 0 || i >= names.len() {
        None
    } else if text::lowered(names[i]@) == text::lowered(n) {
        Some(i)
    } else {
        place_of(names, n, i + 1)
    }
}

/// The viseme with the given name, or with a blend shape of that name.
pub open spec fn viseme_named(name: Seq<char>) -> Option<int> {
    let n = text::trimmed(name);
    match place_of(VISEME_NAMES@, n, 0) {
        Some(i) => Some(i),
        None => place_of(VISEME_BLEND@, n, 0),
    }
}

fn find_name(names: &[&'static str], n: &[char]) -> (r: Option<usize>)
    ensures
        match r {
            Some(i) => i < names@.len() && place_of(names@, n@, 0) == Some(i as int),
            None => place_of(names@, n@, 0) is None,
        },
{
    let mut i: usize = 0;
    while i < names.len()
        invariant
            i <= names@.len(),
            place_of(names@, n@, 0) == place_of(names@, n@, i as int),
        decreases names@.len() - i,
    {
        if text::spells_any_case(n, names[i]) {
            return Some(i);
        }
        i = i + 1;
    }
    None
}

/// The viseme with the given name, white space around it and the case of letters aside.
pub fn parse_viseme_name(name: &str) -> (r: Option<usize>)
    ensures
        match r {
            Some(i) => i < VISEME_COUNT && viseme_named(name@) == Some(i as int),
            None => viseme_named(name@) is None,
        },
{
    let c = text::chars(name);
    let n = text::trim(c.as_slice());
    let names: [&'static str; 15] = VISEME_NAMES;
    let blends: [&'static str; 15] = VISEME_BLEND;
    match find_name(names.as_slice(), n.as_slice()) {
        Some(i) => Some(i),
        None => find_name(blends.as_slice(), n.as_slice()),
    }
}

/// The mouth shapes of a viseme, none for an unknown one.
pub open spec fn cats_of(i: int) -> Seq<Single> {
    Seq::new(
        6,
        |c: int|
            if 0 <= i < 15 {
                single::of(CATS[i][c])
            } else {
                single::of(0)
            },
    )
}

/// The mouth shapes of a viseme, none for an unknown one.
pub fn cats(i: usize) -> (r: [Single; 6])
    ensures
        r@ == cats_of(i as int),
{
    let w: [u32; 6] = if i < VISEME_COUNT {
        CATS[i]
    } else {
        [0, 0, 0, 0, 0, 0]
    };
    let r: [Single; 6] = [
        single::of(w[0]),
        single::of(w[1]),
        single::of(w[2]),
        single::of(w[3]),
        single::of(w[4]),
        single::of(w[5]),
    ];
    proof {
        assert(r@ =~= cats_of(i as int));
    }
    r
}

/// The place of the largest of the first `n` weights, the last one among equals.
pub open spec fn leader(v: Seq<Single>, n: int) -> int
    decreases n,
{
    if n <= 1 {
        0
    } else {
        let best = leader(v, n - 1);
        if v[best].gt(v[n - 1]) {
            best
        } else {
            n - 1
        }
    }
}

/// The place of the largest of some weights, the last one among equals.
pub fn lead(v: &[Single]) -> (r: usize)
    requires
        v@.len() > 0,
    ensures
        r == leader(v@, v@.len() as int),
        r < v@.len(),
{
    let mut best: usize = 0;
    let mut n: usize = 1;
    while n < v.len()
        invariant
            1 <= n <= v@.len(),
            best == leader(v@, n as int),
            best < n,
        decreases v@.len() - n,
    {
        if !v[best].gt(v[n]) {
            best = n;
        }
        n = n + 1;
    }
    best
}

/// The strongest viseme and its weight.
pub fn winning(v: &[Single; 15]) -> (r: (usize, Single))
    ensures
        r.0 == leader(v@, 15),
        r.0 < VISEME_COUNT,
        r.1 == v[r.0 as int],
{
    let best: usize = lead(v.as_slice());
    (best, v[best])
}

/// The leader has the largest weight, where all are numbers.
pub proof fn lemma_leader_is_largest(v: Seq<Single>, n: int, i: int)
    requires
        0 <= i < n <= v.len(),
        forall|j: int| 0 <= j < n ==> !(#[trigger] v[j]).is_nan(),
    ensures
        0 <= leader(v, n) < n,
        v[i].le(v[leader(v, n)]),
        i > leader(v, n) ==> v[i].lt(v[leader(v, n)]),
    decreases n,
{
    if n > 1 {
        if i < n - 1 {
            lemma_leader_is_largest(v, n - 1, i);
        } else {
            lemma_leader_is_largest(v, n - 1, 0);
        }
    }
}

/// The blend shape of an expression.
pub open spec fn blend_named(n: Seq<char>) -> Option<Seq<char>> {
    if n == "fun"@ || n == "smile"@ {
        Some("Fun"@)
    } else if n == "joy"@ || n == "shocked"@ {
        Some("Joy"@)
    } else if n == "angry"@ {
        Some("Angry"@)
    } else if n == "sorrow"@ || n == "sad"@ {
        Some("Sorrow"@)
    } else if n == "surprise"@ || n == "surprised"@ {
        Some("Surprised"@)
    } else {
        None
    }
}

/// The blend shape of an expression, white space around its name and the case of letters aside.
pub fn expr_blend(name: &str) -> (r: Option<&'static str>)
    ensures
        match r {
            Some(b) => blend_named(text::lowered(text::trimmed(name@))) == Some(b@),
            None => blend_named(text::lowered(text::trimmed(name@))) is None,
        },
{
    let c = text::chars(name);
    let t = text::trim(c.as_slice());
    let n = text::lower_all(t.as_slice());
    let v = n.as_slice();
    if text::spells(v, "fun") || text::spells(v, "smile") {
        Some("Fun")
    } else if text::spells(v, "joy") || text::spells(v, "shocked") {
        Some("Joy")
    } else if text::spells(v, "angry") {
        Some("Angry")
    } else if text::spells(v, "sorrow") || text::spells(v, "sad") {
        Some("Sorrow")
    } else if text::spells(v, "surprise") || text::spells(v, "surprised") {
        Some("Surprised")
    } else {
        None
    }
}

/// What has come in. Times are nanoseconds of a clock that never goes back.
#[derive(Debug)]
pub struct ExtState {
    pub visemes: [Single; 15],
    pub visemes_at: Option<u64>,
    pub expression: String,
    pub expression_weight: Single,
    pub expression_at: Option<u64>,
    pub audio: Single,
}

/// What has come in, as a value.
#[verifier::ext_equal]
pub ghost struct ExtView {
    pub visemes: Seq<Single>,
    pub visemes_at: Option<u64>,
    pub expression: Seq<char>,
    pub expression_weight: Single,
    pub expression_at: Option<u64>,
    pub audio: Single,
}

impl View for ExtState {
    type V = ExtView;

    open spec fn view(&self) -> ExtView {
        ExtView {
            visemes: self.visemes@,
            visemes_at: self.visemes_at,
            expression: self.expression@,
            expression_weight: self.expression_weight,
            expression_at: self.expression_at,
            audio: self.audio,
        }
    }
}

impl Default for ExtState {
    fn default() -> (r: ExtState)
        ensures
            r@.visemes == Seq::new(15, |i: int| single::of(0)),
            r@.visemes_at is None,
            r@.expression == Seq::<char>::empty(),
            r@.expression_weight == single::of(0),
            r@.expression_at is None,
            r@.audio == single::of(0),
    {
        let z: Single = single::of(0);
        let r = ExtState {
            visemes: [z, z, z, z, z, z, z, z, z, z, z, z, z, z, z],
            visemes_at: None,
            expression: String::new(),
            expression_weight: single::of(0),
            expression_at: None,
            audio: single::of(0),
        };
        proof {
            assert(r@.visemes =~= Seq::new(15, |i: int| single::of(0)));
            assert(r.expression@ =~= Seq::<char>::empty());
        }
        r
    }
}

pub open spec fn age_spec(at: u64, now: u64) -> Single {
    let d = if now < at {
        0
    } else {
        now - at
    };
    Single::from_int(d / 1_000_000_000) + Single::from_int(d % 1_000_000_000) / single::of(NANOS)
}

/// The seconds from `at` to `now`, zero where `now` comes first.
#[verifier::when_used_as_spec(age_spec)]
pub fn age(at: u64, now: u64) -> (r: Single)
    ensures
        r == age_spec(at, now),
{
    let d: u64 = if now < at {
        0
    } else {
        now - at
    };
    single::from_u64(d / 1_000_000_000) + single::from_u64(d % 1_000_000_000) / single::of(NANOS)
}

/// The viseme weights, while they are fresh.
pub open spec fn fresh_visemes(e: ExtState, now: u64) -> Option<[Single; 15]> {
    match e.visemes_at {
        Some(t) if age(t, now).le(single::of(STALE)) => Some(e.visemes),
        _ => None,
    }
}

/// The expression and its weight, while they are fresh and there is one.
pub open spec fn fresh_expression(e: ExtState, now: u64) -> Option<(Seq<char>, Single)> {
    match e.expression_at {
        Some(t) if !age(t, now).gt(single::of(STALE)) && e.expression@.len() > 0 => Some(
            (e.expression@, e.expression_weight),
        ),
        _ => None,
    }
}

impl ExtState {
    /// The viseme weights, while they are fresh.
    pub fn visemes_live(&self, now: u64) -> (r: Option<[Single; 15]>)
        ensures
            r == fresh_visemes(*self, now),
    {
        match self.visemes_at {
            Some(t) => {
                if age(t, now).le(single::of(STALE)) {
                    Some(self.visemes)
                } else {
                    None
                }
            },
            None => None,
        }
    }

    /// The expression and its weight, while they are fresh and there is one.
    pub fn expression_live(&self, now: u64) -> (r: Option<(&str, Single)>)
        ensures
            match r {
                Some((name, w)) => fresh_expression(*self, now) == Some((name@, w)),
                None => fresh_expression(*self, now) is None,
            },
    {
        match self.expression_at {
            Some(t) => {
                if age(t, now).gt(single::of(STALE)) || self.expression.as_str().unicode_len() == 0 {
                    None
                } else {
                    Some((self.expression.as_str(), self.expression_weight))
                }
            },
            None => None,
        }
    }
}

/// An argument of a message.
#[derive(Debug)]
pub enum OscArg {
    Float(Single),
    Double(Double),
    Int(i32),
    Text(String),
    Other,
}

/// An argument of a message, as a value.
pub ghost enum ArgView {
    Float(Single),
    Double(Double),
    Int(i32),
    Text(Seq<char>),
    Other,
}

impl View for OscArg {
    type V = ArgView;

    open spec fn view(&self) -> ArgView {
        match *self {
            OscArg::Float(v) => ArgView::Float(v),
            OscArg::Double(v) => ArgView::Double(v),
            OscArg::Int(v) => ArgView::Int(v),
            OscArg::Text(s) => ArgView::Text(s@),
            OscArg::Other => ArgView::Other,
        }
    }
}

/// The arguments as values.
pub open spec fn arg_views(args: Seq<OscArg>) -> Seq<ArgView> {
    args.map_values(|a: OscArg| a@)
}

/// A packet, as a value: a message with its address and arguments, or a bundle of packets.
pub ghost enum PacketView {
    Message(Seq<char>, Seq<ArgView>),
    Bundle(Seq<PacketView>),
}

/// A packet as the crate `rosc` holds it.
#[verifier::external_type_specification]
#[verifier::external_body]
pub struct ExOscPacket(rosc::OscPacket);

/// What a packet holds.
pub uninterp spec fn packet_tree(p: rosc::OscPacket) -> PacketView;

/// What `rosc::decoder::decode_udp` makes of a datagram: the packet at its start, or nothing
/// where it reports an error.
pub uninterp spec fn osc_decoded(bytes: Seq<u8>) -> Option<PacketView>;

/// A packet taken apart.
pub enum Opened<'a> {
    Message(&'a str, Vec<OscArg>),
    Bundle(&'a Vec<rosc::OscPacket>),
}

/// Takes a `rosc::OscPacket` apart. Claimed of it: it is either a message, whose address and
/// arguments are handed out with the bits of floating-point numbers kept, or a bundle, whose
/// packets are handed out in order.
#[verifier::external_body]
fn opened<'a>(p: &'a rosc::OscPacket) -> (r: Opened<'a>)
    ensures
        match r {
            Opened::Message(addr, args) => packet_tree(*p) == PacketView::Message(
                addr@,
                arg_views(args@),
            ),
            Opened::Bundle(v) => packet_tree(*p) == PacketView::Bundle(
                v@.map_values(|q: rosc::OscPacket| packet_tree(q)),
            ),
        },
{
    let arg = |a: &rosc::OscType| match a {
        rosc::OscType::Float(v) => OscArg::Float(Single { bits: v.to_bits() }),
        rosc::OscType::Double(v) => OscArg::Double(Double { bits: v.to_bits() }),
        rosc::OscType::Int(v) => OscArg::Int(*v),
        rosc::OscType::String(s) => OscArg::Text(s.clone()),
        _ => OscArg::Other,
    };
    match p {
        rosc::OscPacket::Message(m) => Opened::Message(&m.addr, m.args.iter().map(arg).collect()),
        rosc::OscPacket::Bundle(b) => Opened::Bundle(&b.content),
    }
}

/// Calls `rosc::decoder::decode_udp`. Claimed of it: whether it finds a packet, and what that
/// packet holds, depends on the bytes alone.
#[verifier::external_body]
fn decode_udp(bytes: &[u8]) -> (r: Option<rosc::OscPacket>)
    requires
        bytes@.len() <= 65535,
    ensures
        match r {
            Some(p) => osc_decoded(bytes@) == Some(packet_tree(p)),
            None => osc_decoded(bytes@) is None,
        },
{
    match rosc::decoder::decode_udp(bytes) {
        Ok((_, p)) => Some(p),
        Err(_) => None,
    }
}

/// The number in an argument.
pub open spec fn number_in(args: Seq<ArgView>, i: int) -> Option<Single> {
    if 0 <= i < args.len() {
        match args[i] {
            ArgView::Float(v) => Some(v),
            ArgView::Double(v) => Some(convert::to_single(v)),
            ArgView::Int(v) => Some(Single::from_int(v as int)),
            _ => None,
        }
    } else {
        None
    }
}

fn number_arg(args: &Vec<OscArg>, i: usize) -> (r: Option<Single>)
    ensures
        r == number_in(arg_views(args@), i as int),
{
    if i < args.len() {
        match &args[i] {
            OscArg::Float(v) => Some(*v),
            OscArg::Double(v) => Some(convert::to_single(*v)),
            OscArg::Int(v) => Some(single::from_i64(*v as i64)),
            OscArg::Text(_) => None,
            OscArg::Other => None,
        }
    } else {
        None
    }
}

/// A weight held to the range from zero to one.
pub open spec fn unit_range(v: Single) -> Single {
    v.clamp(single::of(0), single::of(single::ONE))
}

/// The state after a message.
pub open spec fn told(s: ExtView, addr: Seq<char>, args: Seq<ArgView>, now: u64) -> ExtView {
    if addr == "/OSF/Ext/Visemes"@ {
        if args.len() >= VISEME_COUNT {
            ExtView {
                visemes: Seq::new(
                    15,
                    |i: int|
                        match number_in(args, i) {
                            Some(v) => unit_range(v),
                            None => s.visemes[i],
                        },
                ),
                visemes_at: Some(now),
                ..s
            }
        } else {
            s
        }
    } else if addr == "/OSF/Ext/Viseme"@ {
        if args.len() > 0 && args[0] is Text && number_in(args, 1) is Some && viseme_named(
            args[0]->Text_0,
        ) is Some {
            ExtView {
                visemes: s.visemes.update(
                    viseme_named(args[0]->Text_0)->0,
                    unit_range(number_in(args, 1)->0),
                ),
                visemes_at: Some(now),
                ..s
            }
        } else {
            s
        }
    } else if addr == "/OSF/Ext/Expression"@ {
        if args.len() > 0 && args[0] is Text {
            ExtView {
                expression: args[0]->Text_0,
                expression_weight: match number_in(args, 1) {
                    Some(w) => unit_range(w),
                    None => single::of(single::ONE),
                },
                expression_at: Some(now),
                ..s
            }
        } else {
            s
        }
    } else if addr == "/OSF/Ext/Audio"@ {
        match number_in(args, 0) {
            Some(v) => ExtView { audio: unit_range(v), ..s },
            None => s,
        }
    } else {
        s
    }
}

/// The state after a packet: its messages take effect one after the other.
pub open spec fn applied(s: ExtView, p: PacketView, now: u64) -> ExtView
    decreases p,
{
    match p {
        PacketView::Message(addr, args) => told(s, addr, args, now),
        PacketView::Bundle(content) => all_applied(s, content, now),
    }
}

/// The state after several packets.
pub open spec fn all_applied(s: ExtView, content: Seq<PacketView>, now: u64) -> ExtView
    decreases content,
{
    if content.len() == 0 {
        s
    } else {
        applied(all_applied(s, content.drop_last(), now), content.last(), now)
    }
}

/// A weight held to the range from zero to one.
pub fn hold(v: Single) -> (r: Single)
    ensures
        r == unit_range(v),
{
    v.clamp(single::of(0), single::of(single::ONE))
}

fn take_visemes(state: &mut ExtState, args: &Vec<OscArg>, now: u64)
    requires
        args@.len() >= VISEME_COUNT,
    ensures
        final(state)@ == told(old(state)@, "/OSF/Ext/Visemes"@, arg_views(args@), now),
{
    let ghost before = state@;
    let mut i: usize = 0;
    while i < 15
        invariant
            i <= 15,
            state@ == (ExtView { visemes: state.visemes@, ..before }),
            before == old(state)@,
            forall|j: int|
                0 <= j < i ==> #[trigger] state.visemes[j] == (match number_in(arg_views(args@), j) {
                    Some(v) => unit_range(v),
                    None => before.visemes[j],
                }),
            forall|j: int| i <= j < 15 ==> #[trigger] state.visemes[j] == before.visemes[j],
        decreases 15 - i,
    {
        if let Some(v) = number_arg(args, i) {
            state.visemes[i] = hold(v);
        }
        i = i + 1;
    }
    state.visemes_at = Some(now);
    proof {
        assert(state@.visemes =~= told(before, "/OSF/Ext/Visemes"@, arg_views(args@), now).visemes);
    }
}

fn take_viseme(state: &mut ExtState, args: &Vec<OscArg>, now: u64)
    ensures
        final(state)@ == told(old(state)@, "/OSF/Ext/Viseme"@, arg_views(args@), now),
{
    proof {
        reveal_strlit("/OSF/Ext/Visemes");
        reveal_strlit("/OSF/Ext/Viseme");
        assert("/OSF/Ext/Visemes"@.len() != "/OSF/Ext/Viseme"@.len());
    }
    if args.len() == 0 {
        return;
    }
    match &args[0] {
        OscArg::Text(name) => {
            if let Some(w) = number_arg(args, 1) {
                if let Some(i) = parse_viseme_name(name.as_str()) {
                    state.visemes[i] = hold(w);
                    state.visemes_at = Some(now);
                }
            }
        },
        _ => {},
    }
}

fn take_expression(state: &mut ExtState, args: &Vec<OscArg>, now: u64)
    ensures
        final(state)@ == told(old(state)@, "/OSF/Ext/Expression"@, arg_views(args@), now),
{
    proof {
        reveal_strlit("/OSF/Ext/Visemes");
        reveal_strlit("/OSF/Ext/Viseme");
        reveal_strlit("/OSF/Ext/Expression");
        assert("/OSF/Ext/Expression"@.len() == 19);
    }
    if args.len() == 0 {
        return;
    }
    match &args[0] {
        OscArg::Text(name) => {
            state.expression = name.clone();
            state.expression_weight = match number_arg(args, 1) {
                Some(w) => hold(w),
                None => single::of(single::ONE),
            };
            state.expression_at = Some(now);
        },
        _ => {},
    }
}

fn take_audio(state: &mut ExtState, args: &Vec<OscArg>, now: u64)
    ensures
        final(state)@ == told(old(state)@, "/OSF/Ext/Audio"@, arg_views(args@), now),
{
    proof {
        reveal_strlit("/OSF/Ext/Visemes");
        reveal_strlit("/OSF/Ext/Viseme");
        reveal_strlit("/OSF/Ext/Expression");
        reveal_strlit("/OSF/Ext/Audio");
        assert("/OSF/Ext/Audio"@.len() == 14);
    }
    if let Some(v) = number_arg(args, 0) {
        state.audio = hold(v);
    }
}

/// Takes in a message.
pub fn apply_msg(state: &mut ExtState, addr: &str, args: &Vec<OscArg>, now: u64)
    ensures
        final(state)@ == told(old(state)@, addr@, arg_views(args@), now),
{
    let c = text::chars(addr);
    let a = c.as_slice();
    if text::spells(a, "/OSF/Ext/Visemes") {
        if args.len() >= VISEME_COUNT {
            take_visemes(state, args, now);
        }
    } else if text::spells(a, "/OSF/Ext/Viseme") {
        take_viseme(state, args, now);
    } else if text::spells(a, "/OSF/Ext/Expression") {
        take_expression(state, args, now);
    } else if text::spells(a, "/OSF/Ext/Audio") {
        take_audio(state, args, now);
    }
}

/// Takes in a packet: a message, or the messages of a bundle in order.
pub fn apply_packet(state: &mut ExtState, packet: &rosc::OscPacket, now: u64)
    ensures
        final(state)@ == applied(old(state)@, packet_tree(*packet), now),
    decreases packet_tree(*packet),
{
    match opened(packet) {
        Opened::Message(addr, args) => apply_msg(state, addr, &args, now),
        Opened::Bundle(content) => {
            let ghost trees = content@.map_values(|q: rosc::OscPacket| packet_tree(q));
            let ghost before = state@;
            let mut i: usize = 0;
            assert(trees.take(0) =~= Seq::empty());
            while i < content.len()
                invariant
                    i <= content@.len(),
                    trees == content@.map_values(|q: rosc::OscPacket| packet_tree(q)),
                    packet_tree(*packet) == PacketView::Bundle(trees),
                    state@ == all_applied(before, trees.take(i as int), now),
                decreases content@.len() - i,
            {
                proof {
                    assert(decreases_to!(packet_tree(*packet) => packet_tree(*packet)->Bundle_0));
                    assert(decreases_to!(trees => trees[i as int]));
                }
                apply_packet(state, &content[i], now);
                proof {
                    assert(trees.take(i + 1).drop_last() =~= trees.take(i as int));
                }
                i = i + 1;
            }
            assert(trees.take(i as int) =~= trees);
        },
    }
}

/// Takes in a datagram. One that holds no packet changes nothing.
pub fn receive(state: &mut ExtState, bytes: &[u8], now: u64)
    requires
        bytes@.len() <= 65535,
    ensures
        final(state)@ == (match osc_decoded(bytes@) {
            Some(p) => applied(old(state)@, p, now),
            None => old(state)@,
        }),
{
    if let Some(p) = decode_udp(bytes) {
        apply_packet(state, &p, now);
    }
}

/// A message to be sent.
#[derive(Debug)]
pub struct OscMessage {
    pub addr: &'static str,
    pub args: Vec<OscArg>,
}

/// The three messages that carry visemes, expression and audio level, as address and arguments.
pub open spec fn ext_messages(
    visemes: Seq<Single>,
    expression: Seq<char>,
    weight: Single,
    audio: Single,
) -> Seq<(Seq<char>, Seq<ArgView>)> {
    seq![
        ("/OSF/Ext/Visemes"@, visemes.map_values(|v: Single| ArgView::Float(v))),
        ("/OSF/Ext/Expression"@, seq![ArgView::Text(expression), ArgView::Float(weight)]),
        ("/OSF/Ext/Audio"@, seq![ArgView::Float(audio)]),
    ]
}

/// Messages as address and arguments.
pub open spec fn message_views(m: Seq<OscMessage>) -> Seq<(Seq<char>, Seq<ArgView>)> {
    m.map_values(|x: OscMessage| (x.addr@, arg_views(x.args@)))
}

/// The messages that carry visemes, expression and audio level.
pub fn encode_ext(visemes: &[Single; 15], expression: &str, weight: Single, audio: Single) -> (r: Vec<
    OscMessage,
>)
    ensures
        message_views(r@) == ext_messages(visemes@, expression@, weight, audio),
{
    let mut v: Vec<OscArg> = Vec::new();
    let mut i: usize = 0;
    while i < 15
        invariant
            i <= 15,
            v@.len() == i,
            forall|j: int| 0 <= j < i ==> #[trigger] v@[j]@ == ArgView::Float(visemes[j]),
        decreases 15 - i,
    {
        v.push(OscArg::Float(visemes[i]));
        i = i + 1;
    }
    let mut e: Vec<OscArg> = Vec::new();
    e.push(OscArg::Text(expression.to_owned()));
    e.push(OscArg::Float(weight));
    let mut a: Vec<OscArg> = Vec::new();
    a.push(OscArg::Float(audio));
    proof {
        assert(arg_views(v@) =~= visemes@.map_values(|v: Single| ArgView::Float(v)));
        assert(arg_views(e@) =~= seq![ArgView::Text(expression@), ArgView::Float(weight)]);
        assert(arg_views(a@) =~= seq![ArgView::Float(audio)]);
    }
    let mut r: Vec<OscMessage> = Vec::new();
    r.push(OscMessage { addr: "/OSF/Ext/Visemes", args: v });
    r.push(OscMessage { addr: "/OSF/Ext/Expression", args: e });
    r.push(OscMessage { addr: "/OSF/Ext/Audio", args: a });
    proof {
        assert(message_views(r@) =~= ext_messages(visemes@, expression@, weight, audio));
    }
    r
}

/// Whoever takes in the three messages has the visemes, the expression and the audio level that
/// were sent, each held to the range from zero to one.
pub proof fn lemma_ext_round_trip(
    s: ExtView,
    visemes: Seq<Single>,
    expression: Seq<char>,
    weight: Single,
    audio: Single,
    now: u64,
)
    requires
        visemes.len() == VISEME_COUNT,
        s.visemes.len() == VISEME_COUNT,
    ensures
        ({
            let m = ext_messages(visemes, expression, weight, audio);
            all_applied(s, m.map_values(|x: (Seq<char>, Seq<ArgView>)| PacketView::Message(x.0, x.1)), now)
                == (ExtView {
                visemes: visemes.map_values(|v: Single| unit_range(v)),
                visemes_at: Some(now),
                expression,
                expression_weight: unit_range(weight),
                expression_at: Some(now),
                audio: unit_range(audio),
            })
        }),
{
    reveal_strlit("/OSF/Ext/Visemes");
    reveal_strlit("/OSF/Ext/Viseme");
    reveal_strlit("/OSF/Ext/Expression");
    reveal_strlit("/OSF/Ext/Audio");
    let m = ext_messages(visemes, expression, weight, audio);
    let p = m.map_values(|x: (Seq<char>, Seq<ArgView>)| PacketView::Message(x.0, x.1));
    reveal_with_fuel(all_applied, 4);
    assert("/OSF/Ext/Expression"@.len() == 19);
    assert("/OSF/Ext/Audio"@.len() == 14);
    let s1 = told(s, m[0].0, m[0].1, now);
    let s2 = told(s1, m[1].0, m[1].1, now);
    let s3 = told(s2, m[2].0, m[2].1, now);
    assert(p.drop_last().drop_last().drop_last() =~= Seq::empty());
    assert(all_applied(s, p.drop_last().drop_last(), now) == s1);
    assert(all_applied(s, p.drop_last(), now) == s2);
    assert(all_applied(s, p, now) == s3);
    assert(s1.visemes =~= visemes.map_values(|v: Single| unit_range(v)));
}

} // verus!

//! Where networks run, and the shapes that they are bound with.

use crate::text;
use std::str::FromStr;
use vstd::prelude::*;

verus! {

/// Where networks run.
#[derive(Clone, Copy, Debug, PartialEq, Eq, Structural)]
pub enum Device {
    Cpu,
    Gpu,
}

impl Default for Device {
    fn default() -> (r: Device)
        ensures
            r == Device::Cpu,
    {
        Device::Cpu
    }
}

/// A name that is not that of a device.
#[derive(Debug)]
pub struct UnknownDevice {
    pub name: Vec<char>,
}

/// The device with a name, in any case.
pub open spec fn device_named(name: Seq<char>) -> Option<Device> {
    if text::lowered(name) == text::lowered("cpu"@) {
        Some(Device::Cpu)
    } else if text::lowered(name) == text::lowered("gpu"@) {
        Some(Device::Gpu)
    } else {
        None
    }
}

impl Device {
    /// The name of the device.
    pub open spec fn name(self) -> Seq<char> {
        match self {
            Device::Cpu => "cpu"@,
            Device::Gpu => "gpu"@,
        }
    }

    /// The name of the device.
    pub fn as_str(self) -> (r: &'static str)
        ensures
            r@ == self.name(),
    {
        match self {
            Device::Cpu => "cpu",
            Device::Gpu => "gpu",
        }
    }

    /// The device with a name, in any case.
    pub fn parse(s: &str) -> (r: Result<Device, UnknownDevice>)
        ensures
            match r {
                Ok(d) => device_named(s@) == Some(d),
                Err(e) => device_named(s@) is None && e.name@ == s@,
            },
    {
        let name: Vec<char> = text::chars(s);
        if text::spells_any_case(name.as_slice(), "cpu") {
            Ok(Device::Cpu)
        } else if text::spells_any_case(name.as_slice(), "gpu") {
            Ok(Device::Gpu)
        } else {
            Err(UnknownDevice { name })
        }
    }
}

impl FromStr for Device {
    type Err = UnknownDevice;

    fn from_str(s: &str) -> (r: Result<Device, UnknownDevice>)
        ensures
            match r {
                Ok(d) => device_named(s@) == Some(d),
                Err(e) => device_named(s@) is None && e.name@ == s@,
            },
    {
        Device::parse(s)
    }
}

/// Every device is found by its name.
pub proof fn lemma_devices_round_trip(d: Device)
    ensures
        device_named(d.name()) == Some(d),
{
    reveal_strlit("cpu");
    reveal_strlit("gpu");
    assert(text::lowered("cpu"@)[0] == 'c');
    assert(text::lowered("gpu"@)[0] == 'g');
}

/// The shape that an output is bound with: a first axis of unknown length holds the batch.
pub open spec fn bound_shape(shape: Seq<i64>, batch: i64) -> Seq<i64> {
    if shape.len() > 0 && shape[0] <= 0 {
        shape.update(0, batch)
    } else {
        shape
    }
}

/// The shape that an output is bound with: a first axis of unknown length holds the batch.
pub fn output_dims(shape: &[i64], batch: i64) -> (r: Vec<i64>)
    ensures
        r@ == bound_shape(shape@, batch),
{
    let mut r: Vec<i64> = Vec::new();
    let mut i: usize = 0;
    while i < shape.len()
        invariant
            i <= shape@.len(),
            r@ == bound_shape(shape@, batch).take(i as int),
        decreases shape@.len() - i,
    {
        let d: i64 = shape[i];
        if i == 0 && d <= 0 {
            r.push(batch);
        } else {
            r.push(d);
        }
        i = i + 1;
        assert(bound_shape(shape@, batch).take(i as int) =~= bound_shape(shape@, batch).take(
            i - 1,
        ).push(bound_shape(shape@, batch)[i - 1]));
    }
    assert(bound_shape(shape@, batch).take(i as int) =~= bound_shape(shape@, batch));
    r
}

/// Whether an axis of a shape has no length yet, so that only a run of the network tells it.
pub fn is_open(shape: &[i64]) -> (r: bool)
    ensures
        r == exists|i: int| 0 <= i < shape@.len() && #[trigger] shape@[i] <= 0,
{
    let mut i: usize = 0;
    while i < shape.len()
        invariant
            i <= shape@.len(),
            forall|k: int| 0 <= k < i ==> #[trigger] shape@[k] > 0,
        decreases shape@.len() - i,
    {
        if shape[i] <= 0 {
            return true;
        }
        i = i + 1;
    }
    false
}

/// The batch of an input: its first axis, one where it has none.
pub fn batch_of(shape: &[i64]) -> (r: i64)
    ensures
        r == (if shape@.len() > 0 {
            shape@[0]
        } else {
            1
        }),
{
    if shape.len() > 0 {
        shape[0]
    } else {
        1
    }
}

/// Whether two shapes are the same, so that what is bound can be used again.
pub fn same_shape(a: &[i64], b: &[i64]) -> (r: bool)
    ensures
        r == (a@ == b@),
{
    if a.len() != b.len() {
        return false;
    }
    let mut i: usize = 0;
    while i < a.len()
        invariant
            a@.len() == b@.len(),
            i <= a@.len(),
            forall|k: int| 0 <= k < i ==> #[trigger] a@[k] == b@[k],
        decreases a@.len() - i,
    {
        if a[i] != b[i] {
            return false;
        }
        i = i + 1;
    }
    assert(a@ =~= b@);
    true
}

} // verus!

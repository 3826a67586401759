//! Choosing a microphone.
//!
//! Devices are told apart by an id that is stable across launches, so the
//! selection survives a relaunch and a changed device list.

use vstd::prelude::*;

use crate::picking;
use crate::text;

verus! {

/// A microphone that the device dropdown offers.
#[derive(Debug, Clone, PartialEq, Eq)]
pub struct InputDevice {
    /// Stable across launches.
    pub id: String,
    pub name: String,
    pub channels: u16,
    pub sample_rate: u32,
    pub is_default: bool,
}

/// What a device says of itself, as far as it says anything: `config` is the
/// number of channels and the sample rate it records with unless told otherwise.
#[derive(Debug, Clone, PartialEq, Eq)]
pub struct FoundDevice {
    pub id: Option<String>,
    pub name: Option<String>,
    pub config: Option<(u16, u32)>,
}

/// What is known of a device that can be offered.
#[verifier::ext_equal]
pub struct DeviceView {
    pub id: Seq<char>,
    pub name: Seq<char>,
    pub channels: u16,
    pub sample_rate: u32,
    pub is_default: bool,
}

impl View for InputDevice {
    type V = DeviceView;

    open spec fn view(&self) -> DeviceView {
        DeviceView {
            id: self.id@,
            name: self.name@,
            channels: self.channels,
            sample_rate: self.sample_rate,
            is_default: self.is_default,
        }
    }
}

/// The views of a sequence of devices.
pub open spec fn device_views(v: Seq<InputDevice>) -> Seq<DeviceView> {
    Seq::new(v.len(), |i: int| v[i]@)
}

/// A device as it is offered: it has to have an id and a configuration, and goes
/// by its id where it has no name.
pub open spec fn described(found: FoundDevice, default_id: Option<Seq<char>>) -> Option<DeviceView> {
    match (found.id, found.config) {
        (Some(id), Some((channels, sample_rate))) => Some(
            DeviceView {
                id: id@,
                name: match found.name {
                    Some(name) => name@,
                    None => id@,
                },
                channels,
                sample_rate,
                is_default: default_id == Some(id@),
            },
        ),
        _ => None,
    }
}

/// The devices of `found` that can be offered.
pub open spec fn offered(found: Seq<FoundDevice>, default_id: Option<Seq<char>>) -> Seq<DeviceView>
    decreases found.len(),
{
    if found.len() == 0 {
        Seq::empty()
    } else {
        let before = offered(found.drop_last(), default_id);
        match described(found.last(), default_id) {
            Some(device) => before.push(device),
            None => before,
        }
    }
}

/// The view of an optional text.
pub open spec fn id_view(id: Option<&str>) -> Option<Seq<char>> {
    match id {
        Some(s) => Some(s@),
        None => None,
    }
}

/// A device as it is offered, if it can be.
pub fn describe(found: &FoundDevice, default_id: Option<&str>) -> (r: Option<InputDevice>)
    ensures
        match r {
            Some(device) => described(*found, id_view(default_id)) == Some(device@),
            None => described(*found, id_view(default_id)) is None,
        },
{
    let id: &String = match &found.id {
        Some(id) => id,
        None => return None,
    };
    let config: (u16, u32) = match found.config {
        Some(config) => config,
        None => return None,
    };
    let name: String = match &found.name {
        Some(name) => name.clone(),
        None => id.clone(),
    };
    let is_default: bool = match default_id {
        Some(default) => text::same(default, id.as_str()),
        None => false,
    };
    Some(
        InputDevice {
            id: id.clone(),
            name,
            channels: config.0,
            sample_rate: config.1,
            is_default,
        },
    )
}

/// Every input device that reports a usable default configuration.
///
/// A device that fails to describe itself is skipped rather than surfaced as a
/// broken entry: a dropdown row that cannot be recorded from is worse than one
/// that isn't offered.
pub fn list_input_devices(found: &Vec<FoundDevice>, default_id: Option<&str>) -> (r: Vec<
    InputDevice,
>)
    ensures
        device_views(r@) == offered(found@, id_view(default_id)),
{
    let ghost id = id_view(default_id);
    let mut r: Vec<InputDevice> = Vec::new();
    assert(device_views(r@) == offered(found@.take(0), id));
    for i in 0..found.len()
        invariant
            id == id_view(default_id),
            device_views(r@) == offered(found@.take(i as int), id),
    {
        assert(found@.take(i + 1).drop_last() == found@.take(i as int));
        let ghost before = device_views(r@);
        if let Some(device) = describe(&found[i], default_id) {
            let ghost seen = device@;
            r.push(device);
            assert(device_views(r@) == before.push(seen));
        }
    }
    assert(found@.take(found@.len() as int) == found@);
    r
}

/// The system's own choice, as it is offered.
pub fn default_input_device(found: Option<&FoundDevice>) -> (r: Option<InputDevice>)
    ensures
        match found {
            Some(device) => match r {
                Some(offer) => described(*device, text::view_of(device.id)) == Some(offer@)
                    && offer.is_default,
                None => described(*device, text::view_of(device.id)) is None,
            },
            None => r is None,
        },
{
    match found {
        Some(device) => match &device.id {
            Some(id) => describe(device, Some(id.as_str())),
            None => None,
        },
        None => None,
    }
}

/// Whether a device is the one asked for.
pub open spec fn wanted_one(id: Option<String>, wanted: Seq<char>) -> bool {
    text::view_of(id) == Some(wanted)
}

/// Which of the devices with these ids is the one the UI asked for: the first
/// whose id it is. `None` means the system default.
///
/// That fallback matters: a user who recorded with a headset last week and opens
/// the app without it should get a working recording, not an error.
pub fn resolve_input_device(ids: &Vec<Option<String>>, wanted: Option<&str>) -> (r: Option<usize>)
    ensures
        match wanted {
            Some(id) => match r {
                Some(k) => k < ids@.len() && wanted_one(ids@[k as int], id@) && forall|i: int|
                    0 <= i < k ==> !wanted_one(#[trigger] ids@[i], id@),
                None => forall|i: int| 0 <= i < ids@.len() ==> !wanted_one(#[trigger] ids@[i], id@),
            },
            None => r is None,
        },
{
    if let Some(id) = wanted {
        for k in 0..ids.len()
            invariant
                wanted == Some(id),
                forall|i: int| 0 <= i < k ==> !wanted_one(#[trigger] ids@[i], id@),
        {
            if let Some(found) = &ids[k] {
                if text::same(found.as_str(), id) {
                    assert(wanted_one(ids@[k as int], id@));
                    return Some(k);
                }
            }
        }
    }
    None
}

proof fn lemma_offered_come_from(found: Seq<FoundDevice>, default_id: Option<Seq<char>>, k: int)
    requires
        0 <= k < offered(found, default_id).len(),
    ensures
        exists|i: int|
            0 <= i < found.len() && described(#[trigger] found[i], default_id) == Some(
                offered(found, default_id)[k],
            ),
    decreases found.len(),
{
    let front = found.drop_last();
    if k < offered(front, default_id).len() {
        lemma_offered_come_from(front, default_id, k);
        let i = choose|i: int|
            0 <= i < front.len() && described(#[trigger] front[i], default_id) == Some(
                offered(front, default_id)[k],
            );
        assert(found[i] == front[i]);
    } else {
        assert(described(found[found.len() - 1], default_id) == Some(offered(found, default_id)[k]));
    }
}

/// Every device offered is one that was found and can be recorded from, and
/// claims to be the default exactly where its id is the default's.
pub proof fn law_offered_devices(found: Seq<FoundDevice>, default_id: Option<Seq<char>>)
    ensures
        forall|k: int|
            0 <= k < offered(found, default_id).len() ==> {
                let device = #[trigger] offered(found, default_id)[k];
                &&& device.is_default <==> default_id == Some(device.id)
                &&& exists|i: int|
                    0 <= i < found.len() && described(#[trigger] found[i], default_id) == Some(
                        device,
                    )
            },
{
    assert forall|k: int| 0 <= k < offered(found, default_id).len() implies {
        let device = #[trigger] offered(found, default_id)[k];
        &&& device.is_default <==> default_id == Some(device.id)
        &&& exists|i: int|
            0 <= i < found.len() && described(#[trigger] found[i], default_id) == Some(device)
    } by {
        lemma_offered_come_from(found, default_id, k);
    }
}

proof fn lemma_offered(found: Seq<FoundDevice>, default_id: Option<Seq<char>>)
    ensures
        ({
            let chosen = picking::positions(
                found.len(),
                |i: int| found[i].id is Some && found[i].config is Some,
            );
            &&& offered(found, default_id).len() == chosen.len()
            &&& forall|k: int|
                0 <= k < chosen.len() ==> described(found[#[trigger] chosen[k]], default_id) == Some(
                    offered(found, default_id)[k],
                )
        }),
    decreases found.len(),
{
    if found.len() > 0 {
        let front = found.drop_last();
        let n = front.len();
        let wanted = |i: int| found[i].id is Some && found[i].config is Some;
        lemma_offered(front, default_id);
        picking::lemma_positions_same(
            n,
            |i: int| front[i].id is Some && front[i].config is Some,
            wanted,
        );
        picking::lemma_positions(n, wanted);
        let before = picking::positions(n, wanted);
        let chosen = picking::positions(found.len(), wanted);
        assert forall|k: int| 0 <= k < chosen.len() implies described(
            found[#[trigger] chosen[k]],
            default_id,
        ) == Some(offered(found, default_id)[k]) by {
            if k < before.len() {
                assert(chosen[k] == before[k]);
                assert(front[before[k]] == found[before[k]]);
            }
        }
    }
}

/// Every device that has an id and a configuration is offered, in the order it was
/// found in, by its name or, without one, its id; and no other is.
pub proof fn law_every_usable_device_is_offered(
    found: Seq<FoundDevice>,
    default_id: Option<Seq<char>>,
)
    ensures
        exists|chosen: Seq<int>|
            #![trigger chosen.len()]
            {
                let devices = offered(found, default_id);
                &&& picking::exactly(
                    chosen,
                    found.len() as int,
                    |i: int| found[i].id is Some && found[i].config is Some,
                )
                &&& devices.len() == chosen.len()
                &&& forall|k: int|
                    0 <= k < chosen.len() ==> {
                        let device = found[#[trigger] chosen[k]];
                        &&& devices[k].id == (device.id->0)@
                        &&& device.name is Some ==> devices[k].name == (device.name->0)@
                        &&& device.name is None ==> devices[k].name == devices[k].id
                        &&& devices[k].channels == (device.config->0).0
                        &&& devices[k].sample_rate == (device.config->0).1
                        &&& devices[k].is_default <==> default_id == Some(devices[k].id)
                    }
            },
{
    let wanted = |i: int| found[i].id is Some && found[i].config is Some;
    lemma_offered(found, default_id);
    picking::lemma_positions(found.len(), wanted);
    let chosen = picking::positions(found.len(), wanted);
    assert(chosen.len() == offered(found, default_id).len());
}

} // verus!

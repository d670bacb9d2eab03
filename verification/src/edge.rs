//! The telemetry payload a device sends, with the bounds of its fixed-size
//! string fields (64 bytes of id, 16 bytes of firmware version).
use vstd::prelude::*;

use vstd::utf8::encode_utf8;

verus! {

/// Telemetry payload sent from the device to the cloud API.
#[derive(Debug)]
pub struct UplinkMessage {
    /// Unique identifier for this device or message (at most 64 bytes).
    pub id: String,
    /// Sensor reading (e.g. current in milliamps).
    pub current: i32,
    /// Firmware version this device is running (at most 16 bytes); empty
    /// when it does not fit or was not reported.
    pub fw: String,
}

impl UplinkMessage {
    /// The string fields fit their fixed capacities.
    pub open spec fn wf(&self) -> bool {
        encode_utf8(self.id@).len() <= 64 && encode_utf8(self.fw@).len() <= 16
    }

    /// Build an uplink stamped with the firmware version `firmware_version`
    /// (the device's build version); a version longer than 16 bytes does not
    /// fit and leaves the field empty.
    pub fn new(id: String, current: i32, firmware_version: &str) -> (m: Self)
        requires
            encode_utf8(id@).len() <= 64,
        ensures
            m.wf(),
            m.id == id,
            m.current == current,
            m.fw@ == if encode_utf8(firmware_version@).len() <= 16 {
                firmware_version@
            } else {
                Seq::empty()
            },
    {
        let fw = if firmware_version.as_bytes().len() <= 16 {
            firmware_version.to_owned()
        } else {
            String::new()
        };
        proof {
            if encode_utf8(firmware_version@).len() > 16 {
                assert(fw@ =~= Seq::<char>::empty());
                assert(encode_utf8(Seq::<char>::empty()) =~= Seq::<u8>::empty()) by {
                    reveal_with_fuel(encode_utf8, 1);
                }
            }
        }
        UplinkMessage { id, current, fw }
    }
}

} // verus!

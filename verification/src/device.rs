//! The device a tensor computation runs on: the host processor, or one of
//! the numbered accelerator cards.

use vstd::prelude::*;
use vstd::string::StringExecFns;

use crate::text::{dec_digits, usize_to_string};

verus! {

/// Where a computation runs: the host processor or an accelerator card
/// picked by its ordinal.
#[derive(Debug, PartialEq, Eq, Structural)]
pub enum Device {
    Cpu,
    Cuda(u8),
}

/// The textual form of a device: `cpu`, or `cuda:` followed by the card's
/// ordinal in decimal.
pub open spec fn device_text(d: Device) -> Seq<char> {
    match d {
        Device::Cpu => "cpu"@,
        Device::Cuda(id) => "cuda:"@ + dec_digits(id as nat),
    }
}

impl Device {
    /// Render the device as text.
    pub fn describe(&self) -> (r: String)
        ensures
            r@ == device_text(*self),
    {
        match self {
            Device::Cpu => "cpu".to_owned(),
            Device::Cuda(id) => {
                let mut out = "cuda:".to_owned();
                out.append(usize_to_string(*id as usize).as_str());
                out
            },
        }
    }
}

} // verus!

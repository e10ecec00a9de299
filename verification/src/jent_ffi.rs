//! Types of the workspace variant's C interface.

use vstd::prelude::*;
use crate::jent_core::collector::JentCollector;
use crate::jent_platform::RdtscTimer;

verus! {

/// The conditioners that the C interface offers.
#[allow(non_camel_case_types)]
#[derive(Debug, Clone, Copy, PartialEq, Eq, Structural)]
pub enum jent_conditioner_kind {
    JentConditionerSha3_512,
    JentConditionerShake256,
}

/// A collector handed out through the C interface.
pub struct CollectorHandle {
    pub collector: JentCollector<RdtscTimer>,
}

} // verus!

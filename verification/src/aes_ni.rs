//! What the processor reports of itself, as far as the choice of an AES
//! implementation goes.

use vstd::prelude::*;

verus! {

/// The four registers that one query of the processor's identification leaves.
pub struct CPUID {
    pub eax: u32,
    pub ebx: u32,
    pub edx: u32,
    pub ecx: u32,
}

/// The bit of `ecx`, in the answer to query 1, that stands for the AES
/// instructions.
pub const AES_FEATURE_BIT: u32 = 25;

impl CPUID {
    /// Whether this answer to query 0 says that the processor answers the
    /// query `leaf`: `eax` holds the highest query that it answers.
    pub fn answers(&self, leaf: u32) -> (res: bool)
        ensures
            res == (leaf <= self.eax),
    {
        leaf <= self.eax
    }

    /// Whether this answer to query 1 says that the processor has the AES
    /// instructions.
    pub fn has_aes(&self) -> (res: bool)
        ensures
            res == (self.ecx & (1u32 << AES_FEATURE_BIT) != 0),
    {
        self.ecx & (1u32 << AES_FEATURE_BIT) != 0
    }
}

} // verus!

use vstd::prelude::*;

verus! {

/// Shorthand for the mathematical value of `u64::wrapping_add`.
pub open spec fn wrap_add(x: u64, y: u64) -> u64 {
    vstd::wrapping::u64_specs::wrapping_add(x, y)
}

/// Shorthand for the mathematical value of `u64::wrapping_sub`.
pub open spec fn wrap_sub(x: u64, y: u64) -> u64 {
    vstd::wrapping::u64_specs::wrapping_sub(x, y)
}

/// The additive offset between a documented (static) address and a leaked
/// (runtime) address, applied in both directions with wrapping arithmetic.
/// Immutable after construction; no input validation is performed.
pub struct MemoryBase {
    base: u64,
}

impl MemoryBase {
    /// The load base this translator was constructed with.
    pub closed spec fn base(&self) -> u64 {
        self.base
    }

    /// Records `leaked - documented` (wrapping) as the load base.
    pub fn new(documented: u64, leaked: u64) -> (r: Self)
        ensures
            r.base() == wrap_sub(leaked, documented),
    {
        MemoryBase { base: leaked.wrapping_sub(documented) }
    }

    /// Translates a documented address into its runtime location.
    pub fn documented_to_leaked(&self, documented: u64) -> (r: u64)
        ensures
            r == wrap_add(documented, self.base()),
    {
        documented.wrapping_add(self.base)
    }

    /// Translates a leaked runtime address back to its documented location.
    pub fn leaked_to_documented(&self, leaked: u64) -> (r: u64)
        ensures
            r == wrap_sub(leaked, self.base()),
    {
        leaked.wrapping_sub(self.base)
    }
}

/// Translating an address to the runtime image and back, or back and then
/// forth, returns the original address for every base and every address,
/// wrap-around included.
pub proof fn lemma_translation_round_trip(base: u64, x: u64)
    ensures
        wrap_sub(wrap_add(x, base), base) == x,
        wrap_add(wrap_sub(x, base), base) == x,
{
}

} // verus!

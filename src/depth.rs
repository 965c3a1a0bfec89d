use crate::error::{Error, MaxDepthExceeded};
use vstd::prelude::*;

verus! {

/// The deepest nesting of structures allowed.
pub const MAX_STRUCT_DEPTH: u8 = 32;

/// The deepest nesting of arrays allowed.
pub const MAX_ARRAY_DEPTH: u8 = 32;

/// The deepest nesting of containers of all kinds, variants included.
pub const MAX_TOTAL_DEPTH: u8 = 64;

/// How deep an encode or decode currently is inside each kind of container.
#[derive(Clone, Copy, Debug, PartialEq, Eq, Structural)]
pub struct ContainerDepths {
    pub array: u8,
    pub structure: u8,
    pub variant: u8,
}

/// The counters themselves if they are within every ceiling, else the error
/// for the first ceiling they exceed (structure, then array, then total).
pub open spec fn check_depths(d: ContainerDepths) -> Result<ContainerDepths, Error> {
    if d.structure > MAX_STRUCT_DEPTH {
        Err(Error::MaxDepthExceeded(MaxDepthExceeded::Structure))
    } else if d.array > MAX_ARRAY_DEPTH {
        Err(Error::MaxDepthExceeded(MaxDepthExceeded::Array))
    } else if d.structure + d.array + d.variant > MAX_TOTAL_DEPTH {
        Err(Error::MaxDepthExceeded(MaxDepthExceeded::Container))
    } else {
        Ok(d)
    }
}

/// Counters within every ceiling.
pub open spec fn depths_ok(d: ContainerDepths) -> bool {
    check_depths(d) is Ok
}

/// The counters after entering an array (or dictionary).
pub open spec fn enter_array(d: ContainerDepths) -> Result<ContainerDepths, Error> {
    check_depths(ContainerDepths { array: (d.array + 1) as u8, ..d })
}

/// The counters after entering a structure.
pub open spec fn enter_structure(d: ContainerDepths) -> Result<ContainerDepths, Error> {
    check_depths(ContainerDepths { structure: (d.structure + 1) as u8, ..d })
}

/// The counters after entering a variant.
pub open spec fn enter_variant(d: ContainerDepths) -> Result<ContainerDepths, Error> {
    check_depths(ContainerDepths { variant: (d.variant + 1) as u8, ..d })
}

impl ContainerDepths {
    /// Counters at the top of a value: nothing entered yet.
    pub fn new() -> (r: ContainerDepths)
        ensures
            r == (ContainerDepths { array: 0, structure: 0, variant: 0 }),
            depths_ok(r),
    {
        ContainerDepths { array: 0, structure: 0, variant: 0 }
    }

    fn check(self) -> (r: Result<ContainerDepths, Error>)
        requires
            self.structure + self.array + self.variant <= 255,
        ensures
            r == check_depths(self),
    {
        if self.structure > MAX_STRUCT_DEPTH {
            Err(Error::MaxDepthExceeded(MaxDepthExceeded::Structure))
        } else if self.array > MAX_ARRAY_DEPTH {
            Err(Error::MaxDepthExceeded(MaxDepthExceeded::Array))
        } else if self.structure + self.array + self.variant > MAX_TOTAL_DEPTH {
            Err(Error::MaxDepthExceeded(MaxDepthExceeded::Container))
        } else {
            Ok(self)
        }
    }

    /// Enters an array, failing if a ceiling is exceeded.
    pub fn inc_array(self) -> (r: Result<ContainerDepths, Error>)
        requires
            depths_ok(self),
        ensures
            r == enter_array(self),
            r matches Ok(d) ==> depths_ok(d),
    {
        ContainerDepths { array: self.array + 1, ..self }.check()
    }

    /// Enters a structure, failing if a ceiling is exceeded.
    pub fn inc_structure(self) -> (r: Result<ContainerDepths, Error>)
        requires
            depths_ok(self),
        ensures
            r == enter_structure(self),
            r matches Ok(d) ==> depths_ok(d),
    {
        ContainerDepths { structure: self.structure + 1, ..self }.check()
    }

    /// Enters a variant, failing if a ceiling is exceeded.
    pub fn inc_variant(self) -> (r: Result<ContainerDepths, Error>)
        requires
            depths_ok(self),
        ensures
            r == enter_variant(self),
            r matches Ok(d) ==> depths_ok(d),
    {
        ContainerDepths { variant: self.variant + 1, ..self }.check()
    }
}

} // verus!

use vstd::prelude::*;
use crate::engine::func::ComponentFn;

verus! {

/// Text.
#[derive(Debug, Default, PartialEq, Eq, Clone, Copy, Hash)]
pub struct Text;

impl Text {
    /// The contract of [`Self::init_engine`].
    pub open spec fn engine_match(&self, r: Option<ComponentFn>) -> bool {
        &&& r is None
    }

    /// Text has no engine component.
    pub fn init_engine(&self) -> (r: Option<ComponentFn>)
        ensures
            self.engine_match(r),
    {
        None
    }

    /// The contract of [`Self::component_name`].
    pub open spec fn name_match(&self, r: &'static str) -> bool {
        &&& r@ == "Text"@
    }

    /// The name of the component.
    pub fn component_name(&self) -> (r: &'static str)
        ensures
            self.name_match(r),
    {
        "Text"
    }
}

} // verus!

//! One accepted reading of one named device.
use vstd::prelude::*;
use vstd::laws_eq::obeys_view_eq;

use crate::object::Object;

verus! {

#[derive(Clone, Debug)]
pub struct Update {
    pub name: String,
    pub object: Object,
}

impl View for Update {
    type V = (Seq<char>, Object);

    open spec fn view(&self) -> (Seq<char>, Object) {
        (self.name@, self.object)
    }
}

impl Update {
    pub fn new(name: String, object: Object) -> (u: Update)
        ensures
            u.name@ == name@,
            u.object == object,
    {
        Update { name, object }
    }
}

impl PartialEq for Update {
    fn eq(&self, other: &Update) -> (r: bool) {
        self.name == other.name && self.object == other.object
    }
}

impl vstd::std_specs::cmp::PartialEqSpecImpl for Update {
    open spec fn obeys_eq_spec() -> bool {
        true
    }

    open spec fn eq_spec(&self, other: &Update) -> bool {
        self@ == other@
    }
}

/// Two updates compare equal exactly when their names and readings are
/// equal.
pub proof fn lemma_update_eq()
    ensures
        obeys_view_eq::<Update>(),
{
    reveal(obeys_view_eq);
}

/// Two readings compare equal exactly when they are the same value.
pub proof fn lemma_object_eq()
    ensures
        obeys_view_eq::<Object>(),
{
    reveal(obeys_view_eq);
}

} // verus!

//! The two halves of a dependency coordinate's key: the organization
//! that publishes an artifact, and the artifact's name.

use vstd::prelude::*;

verus! {

/// The organization (group) part of a coordinate.
#[derive(Debug)]
pub struct Group {
    pub value: String,
}

impl Group {
    pub fn new(name: &str) -> (g: Group)
        ensures
            g.value@ == name@,
    {
        Group { value: name.to_owned() }
    }
}

impl View for Group {
    type V = Seq<char>;

    open spec fn view(&self) -> Seq<char> {
        self.value@
    }
}

impl DeepView for Group {
    type V = Seq<char>;

    open spec fn deep_view(&self) -> Seq<char> {
        self.value@
    }
}

impl Clone for Group {
    fn clone(&self) -> (r: Self)
        ensures
            r == *self,
    {
        Group { value: self.value.clone() }
    }
}

impl PartialEq for Group {
    fn eq(&self, other: &Self) -> (r: bool) {
        self.value == other.value
    }
}

impl vstd::std_specs::cmp::PartialEqSpecImpl for Group {
    open spec fn obeys_eq_spec() -> bool {
        true
    }

    open spec fn eq_spec(&self, other: &Self) -> bool {
        self@ == other@
    }
}

/// The artifact (name) part of a coordinate.
#[derive(Debug)]
pub struct Artifact {
    pub value: String,
}

impl Artifact {
    pub fn new(name: &str) -> (a: Artifact)
        ensures
            a.value@ == name@,
    {
        Artifact { value: name.to_owned() }
    }
}

impl View for Artifact {
    type V = Seq<char>;

    open spec fn view(&self) -> Seq<char> {
        self.value@
    }
}

impl DeepView for Artifact {
    type V = Seq<char>;

    open spec fn deep_view(&self) -> Seq<char> {
        self.value@
    }
}

impl Clone for Artifact {
    fn clone(&self) -> (r: Self)
        ensures
            r == *self,
    {
        Artifact { value: self.value.clone() }
    }
}

impl PartialEq for Artifact {
    fn eq(&self, other: &Self) -> (r: bool) {
        self.value == other.value
    }
}

impl vstd::std_specs::cmp::PartialEqSpecImpl for Artifact {
    open spec fn obeys_eq_spec() -> bool {
        true
    }

    open spec fn eq_spec(&self, other: &Self) -> bool {
        self@ == other@
    }
}

} // verus!

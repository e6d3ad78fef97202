use vstd::prelude::*;

verus! {

/// A text label attached to an entity, for finding it again in systems.
#[derive(Debug, Clone)]
pub struct Tag(pub String);

impl Tag {
    pub fn new(s: &str) -> (t: Self)
        ensures
            t.0@ == s@,
    {
        Tag(s.to_owned())
    }

    /// The label is exactly `s`.
    pub fn is(&self, s: &str) -> (b: bool)
        ensures
            b == (self.0@ == s@),
    {
        let other = s.to_owned();
        self.0 == other
    }
}

} // verus!

use vstd::prelude::*;

verus! {

/// One rigid-body-element ("RBE2") constraint entry: an element identifier,
/// a governing node, a component selector, and an ordered list of dependent
/// node identifiers. Immutable once constructed; the store never changes it.
#[derive(Debug, PartialEq, Eq)]
pub struct RBE2 {
    pub eid: u32,
    pub gm: u32,
    pub cn: u32,
    pub gns: Vec<u32>,
}

/// The mathematical value of a record: the same four fields, with the
/// dependent-node list as a sequence. Contracts speak of records through
/// this view.
pub struct Rbe2View {
    pub eid: u32,
    pub gm: u32,
    pub cn: u32,
    pub gns: Seq<u32>,
}

impl View for RBE2 {
    type V = Rbe2View;

    open spec fn view(&self) -> Rbe2View {
        Rbe2View { eid: self.eid, gm: self.gm, cn: self.cn, gns: self.gns@ }
    }
}

impl RBE2 {
    /// Builds a record holding the four given values unchanged. Any
    /// combination of values is accepted, including an empty dependent-node
    /// list or duplicate entries within it; construction never fails.
    pub fn new(eid: u32, gm: u32, cn: u32, gns: Vec<u32>) -> (r: RBE2)
        ensures
            r@ == (Rbe2View { eid, gm, cn, gns: gns@ }),
    {
        RBE2 { eid, gm, cn, gns }
    }
}

impl Clone for RBE2 {
    /// A clone carries the same four field values as the original.
    fn clone(&self) -> (r: Self)
        ensures
            r@ == self@,
    {
        let gns = self.gns.clone();
        proof {
            assert forall|i: int| 0 <= i < self.gns@.len() implies gns@[i] == self.gns@[i] by {
                assert(cloned::<u32>(self.gns[i], gns[i]));
            }
            assert(gns@ =~= self.gns@);
        }
        RBE2 { eid: self.eid, gm: self.gm, cn: self.cn, gns }
    }
}

} // verus!

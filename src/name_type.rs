use vstd::prelude::*;

verus! {

/// Number of bytes in a name.
pub const NAME_TYPE_LEN: usize = 64;

/// A fixed-width identifier, used both as a node's identity and as a content
/// address.
#[derive(Clone, Copy, Debug)]
pub struct NameType {
    pub bytes: [u8; 64],
}

impl View for NameType {
    type V = Seq<u8>;

    open spec fn view(&self) -> Seq<u8> {
        self.bytes@
    }
}

impl NameType {
    pub fn new(bytes: [u8; 64]) -> (r: NameType)
        ensures
            r@ == bytes@,
    {
        NameType { bytes }
    }

    /// Byte-wise equality of two names.
    pub fn same_as(&self, other: &NameType) -> (r: bool)
        ensures
            r == (self@ == other@),
    {
        let mut i: usize = 0;
        while i < NAME_TYPE_LEN
            invariant
                0 <= i <= NAME_TYPE_LEN,
                self@.len() == NAME_TYPE_LEN,
                other@.len() == NAME_TYPE_LEN,
                forall|j: int| 0 <= j < i ==> self@[j] == other@[j],
            decreases NAME_TYPE_LEN - i,
        {
            if self.bytes[i] != other.bytes[i] {
                return false;
            }
            i = i + 1;
        }
        assert(self@ =~= other@);
        true
    }
}

impl PartialEq for NameType {
    fn eq(&self, other: &NameType) -> (r: bool) {
        self.same_as(other)
    }
}

impl vstd::std_specs::cmp::PartialEqSpecImpl for NameType {
    open spec fn obeys_eq_spec() -> bool {
        true
    }

    open spec fn eq_spec(&self, other: &NameType) -> bool {
        self@ == other@
    }
}

impl Eq for NameType {
}

} // verus!

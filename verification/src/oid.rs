//! Object ids: 20-byte content hashes; the all-zero id stands for "absent".

use vstd::prelude::*;

verus! {

/// Number of bytes in an object id.
pub const OID_LEN: usize = 20;

/// The byte sequence of the all-zero id, which denotes "absent".
pub open spec fn zero_oid_seq() -> Seq<u8> {
    Seq::new(OID_LEN as nat, |i: int| 0u8)
}

/// A git object id: a 20-byte content hash of an object.
pub struct Oid {
    bytes: Vec<u8>,
}

impl View for Oid {
    type V = Seq<u8>;

    closed spec fn view(&self) -> Seq<u8> {
        self.bytes@
    }
}

impl Oid {
    /// An id is well formed when it holds exactly 20 bytes.
    pub open spec fn wf(&self) -> bool {
        self@.len() == OID_LEN
    }

    /// The all-zero id.
    pub fn zero() -> (r: Oid)
        ensures
            r.wf(),
            r@ == zero_oid_seq(),
    {
        let mut b: Vec<u8> = Vec::new();
        let mut i: usize = 0;
        while i < OID_LEN
            invariant
                i <= OID_LEN,
                b@.len() == i,
                forall|j: int| 0 <= j < i ==> b@[j] == 0u8,
            decreases OID_LEN - i,
        {
            b.push(0u8);
            i = i + 1;
        }
        proof {
            assert(b@ =~= zero_oid_seq());
        }
        Oid { bytes: b }
    }

    /// Build an id from exactly 20 bytes; any other length is rejected.
    pub fn from_bytes(bytes: Vec<u8>) -> (r: Option<Oid>)
        ensures
            bytes@.len() == OID_LEN ==> (r matches Some(o) && o@ == bytes@ && o.wf()),
            bytes@.len() != OID_LEN ==> r is None,
    {
        if bytes.len() == OID_LEN {
            Some(Oid { bytes })
        } else {
            None
        }
    }

    /// The bytes of the id.
    pub fn as_bytes(&self) -> (r: &Vec<u8>)
        ensures
            r@ == self@,
    {
        &self.bytes
    }

    /// Whether this id is the all-zero "absent" id.
    pub fn is_zero(&self) -> (r: bool)
        requires
            self.wf(),
        ensures
            r == (self@ == zero_oid_seq()),
    {
        let mut i: usize = 0;
        while i < OID_LEN
            invariant
                self.wf(),
                i <= OID_LEN,
                forall|j: int| 0 <= j < i ==> self@[j] == 0u8,
            decreases OID_LEN - i,
        {
            if self.bytes[i] != 0u8 {
                proof {
                    assert(self@[i as int] != zero_oid_seq()[i as int]);
                }
                return false;
            }
            i = i + 1;
        }
        proof {
            assert(self@ =~= zero_oid_seq());
        }
        true
    }

    /// Bytewise equality of two ids.
    pub fn same(&self, other: &Oid) -> (r: bool)
        requires
            self.wf(),
            other.wf(),
        ensures
            r == (self@ == other@),
    {
        let mut i: usize = 0;
        while i < OID_LEN
            invariant
                self.wf(),
                other.wf(),
                i <= OID_LEN,
                forall|j: int| 0 <= j < i ==> self@[j] == other@[j],
            decreases OID_LEN - i,
        {
            if self.bytes[i] != other.bytes[i] {
                proof {
                    assert(self@[i as int] != other@[i as int]);
                }
                return false;
            }
            i = i + 1;
        }
        proof {
            assert(self@ =~= other@);
        }
        true
    }

    /// An owned copy of the id.
    pub fn dup(&self) -> (r: Oid)
        requires
            self.wf(),
        ensures
            r.wf(),
            r@ == self@,
    {
        let mut b: Vec<u8> = Vec::new();
        let mut i: usize = 0;
        while i < OID_LEN
            invariant
                self.wf(),
                i <= OID_LEN,
                b@.len() == i,
                forall|j: int| 0 <= j < i ==> b@[j] == self@[j],
            decreases OID_LEN - i,
        {
            b.push(self.bytes[i]);
            i = i + 1;
        }
        proof {
            assert(b@ =~= self@);
        }
        Oid { bytes: b }
    }
}

} // verus!

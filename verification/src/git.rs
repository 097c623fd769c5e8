//! The repository: the names git gives objects, the commands it is asked to run, what is
//! read from it and how its history is laid out.
use vstd::prelude::*;

pub mod command;
pub mod history;
pub mod read;

verus! {

/// The name of an object: the bytes of its hash.
#[derive(Clone)]
pub struct ObjectId {
    pub bytes: Vec<u8>,
}

impl View for ObjectId {
    type V = Seq<u8>;

    open spec fn view(&self) -> Seq<u8> {
        self.bytes@
    }
}

/// The views of a run of object names.
pub open spec fn ids_view(ids: Seq<ObjectId>) -> Seq<Seq<u8>> {
    ids.map_values(|id: ObjectId| id@)
}

/// How std orders byte arrays: by the first byte that differs, a proper prefix first.
pub open spec fn bytes_less(a: Seq<u8>, b: Seq<u8>) -> bool
    decreases a.len(),
{
    if a.len() == 0 {
        b.len() > 0
    } else if b.len() == 0 {
        false
    } else if a[0] != b[0] {
        a[0] < b[0]
    } else {
        bytes_less(a.drop_first(), b.drop_first())
    }
}

impl ObjectId {
    pub fn from_bytes(bytes: Vec<u8>) -> (id: ObjectId)
        ensures
            id@ == bytes@,
    {
        ObjectId { bytes }
    }

    pub fn duplicate(&self) -> (copy: ObjectId)
        ensures
            copy@ == self@,
    {
        let bytes = self.bytes.clone();
        assert(bytes@ =~= self.bytes@);
        ObjectId { bytes }
    }

    /// Whether two names are the same name.
    pub fn same(&self, other: &ObjectId) -> (r: bool)
        ensures
            r == (self@ == other@),
    {
        if self.bytes.len() != other.bytes.len() {
            return false;
        }
        for i in 0..self.bytes.len()
            invariant
                self.bytes.len() == other.bytes.len(),
                forall|j: int| 0 <= j < i ==> self.bytes@[j] == other.bytes@[j],
        {
            if self.bytes[i] != other.bytes[i] {
                return false;
            }
        }
        assert(self.bytes@ =~= other.bytes@);
        true
    }

    /// Whether `self` comes before `other` in the order std gives byte arrays.
    pub fn less(&self, other: &ObjectId) -> (r: bool)
        ensures
            r == bytes_less(self@, other@),
    {
        let mut i: usize = 0;
        assert(self@.skip(0) =~= self@);
        assert(other@.skip(0) =~= other@);
        while i < self.bytes.len() && i < other.bytes.len()
            invariant
                i <= self.bytes.len(),
                i <= other.bytes.len(),
                forall|j: int| 0 <= j < i ==> self.bytes@[j] == other.bytes@[j],
                bytes_less(self@, other@) == bytes_less(self@.skip(i as int), other@.skip(i as int)),
            decreases self.bytes.len() - i,
        {
            if self.bytes[i] != other.bytes[i] {
                return self.bytes[i] < other.bytes[i];
            }
            assert(self@.skip(i as int).drop_first() =~= self@.skip(i + 1));
            assert(other@.skip(i as int).drop_first() =~= other@.skip(i + 1));
            i = i + 1;
        }
        i < other.bytes.len()
    }
}

/// The position of the first name in `ids` equal to `id`.
pub fn position_of(ids: &Vec<ObjectId>, id: &ObjectId) -> (r: Option<usize>)
    ensures
        match r {
            Some(i) => i < ids.len() && ids@[i as int]@ == id@ && forall|j: int|
                0 <= j < i ==> ids@[j]@ != id@,
            None => forall|j: int| 0 <= j < ids.len() ==> ids@[j]@ != id@,
        },
{
    for i in 0..ids.len()
        invariant
            forall|j: int| 0 <= j < i ==> ids@[j]@ != id@,
    {
        if ids[i].same(id) {
            return Some(i);
        }
    }
    None
}

/// A copy of a run of object names.
pub fn duplicate_ids(ids: &Vec<ObjectId>) -> (copy: Vec<ObjectId>)
    ensures
        ids_view(copy@) == ids_view(ids@),
{
    let mut copy: Vec<ObjectId> = Vec::new();
    for i in 0..ids.len()
        invariant
            copy.len() == i,
            forall|j: int| 0 <= j < i ==> copy@[j]@ == ids@[j]@,
    {
        copy.push(ids[i].duplicate());
    }
    assert(ids_view(copy@) =~= ids_view(ids@));
    copy
}

} // verus!

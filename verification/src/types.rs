use vstd::prelude::*;

verus! {

/// The identifier of one operation: a per-actor counter and the actor that
/// issued it. Two operations never share an identifier.
#[derive(PartialEq, Eq, Structural, Debug, Clone, Copy, Hash)]
pub struct OpId {
    pub counter: u64,
    pub actor: u64,
}

impl OpId {
    pub fn new(counter: u64, actor: u64) -> (r: Self)
        ensures
            r == (OpId { counter, actor }),
    {
        OpId { counter, actor }
    }

    pub fn counter(&self) -> (r: u64)
        ensures
            r == self.counter,
    {
        self.counter
    }

    pub fn actor(&self) -> (r: u64)
        ensures
            r == self.actor,
    {
        self.actor
    }

    /// The identifier issued by the same actor just before this one. A range
    /// is opened by the operation just before the one that closes it.
    pub open spec fn spec_prev(&self) -> OpId
        recommends
            self.counter > 0,
    {
        OpId { counter: (self.counter - 1) as u64, actor: self.actor }
    }

    #[verifier::when_used_as_spec(spec_prev)]
    pub fn prev(&self) -> (r: OpId)
        requires
            self.counter > 0,
        ensures
            r == self.prev(),
    {
        OpId { counter: self.counter - 1, actor: self.actor }
    }

    /// The identifier issued by the same actor just after this one.
    pub open spec fn spec_next(&self) -> OpId
        recommends
            self.counter < u64::MAX,
    {
        OpId { counter: (self.counter + 1) as u64, actor: self.actor }
    }

    #[verifier::when_used_as_spec(spec_next)]
    pub fn next(&self) -> (r: OpId)
        requires
            self.counter < u64::MAX,
        ensures
            r == self.next(),
    {
        OpId { counter: self.counter + 1, actor: self.actor }
    }
}

/// An object of a document, named by the operation that created it. The
/// document itself, the root, was created by no operation: its counter is 0.
#[derive(PartialEq, Eq, Structural, Debug, Clone, Copy, Hash)]
pub struct ObjId(pub OpId);

impl ObjId {
    pub fn root() -> (r: ObjId)
        ensures
            r.is_root(),
            r == ObjId(OpId { counter: 0, actor: 0 }),
    {
        ObjId(OpId { counter: 0, actor: 0 })
    }

    pub open spec fn spec_is_root(&self) -> bool {
        self.0.counter == 0
    }

    #[verifier::when_used_as_spec(spec_is_root)]
    pub fn is_root(&self) -> (r: bool)
        ensures
            r == self.is_root(),
    {
        self.0.counter == 0
    }
}

/// The name under which an object is known outside the document.
#[derive(PartialEq, Eq, Structural, Debug, Clone, Copy, Hash)]
pub enum ExId {
    Root,
    Id(OpId),
}

/// Where a value lies within an object: under a key of a map, or at an index
/// of a sequence.
#[derive(PartialEq, Eq, Debug, Hash)]
pub enum Prop {
    /// A key of a map.
    Key(String),
    /// An index of a sequence.
    Index(usize),
}

impl Clone for Prop {
    fn clone(&self) -> (r: Self)
        ensures
            r == *self,
    {
        match self {
            Prop::Key(key) => Prop::Key(key.clone()),
            Prop::Index(index) => Prop::Index(*index),
        }
    }
}

/// The hash that names a change in the history of a document.
#[derive(PartialEq, Eq, Debug, Clone, Copy, Hash)]
pub struct ChangeHash(pub [u8; 32]);

/// Why a document refused an operation.
#[derive(PartialEq, Eq, Debug)]
pub enum AutomergeError {
    /// The object does not exist.
    InvalidObjId(String),
    /// The key is of the wrong kind for the object.
    InvalidOp,
    /// The index lies outside the sequence.
    InvalidIndex(usize),
    /// The key does not exist in the object.
    MissingKey(String),
    /// The value to increment is no counter.
    MissingCounter,
    Fail,
}

} // verus!

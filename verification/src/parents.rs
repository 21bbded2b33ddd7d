//! The way from an object of a document up to the root.

use vstd::prelude::*;
use crate::types::{ExId, ObjId, OpId, Prop};

verus! {

/// Where one object lies: in which object, under which key or index, and
/// whether it can be seen there.
#[derive(Debug)]
pub struct Placement {
    pub obj: ObjId,
    pub parent: ObjId,
    pub prop: Prop,
    pub visible: bool,
}

/// Where the objects of a document lie. An object is created after the
/// object that holds it, so its counter is the greater of the two.
#[derive(Debug)]
pub struct OpSet {
    objects: Vec<Placement>,
}

/// A component of a path to an object.
#[derive(Debug, PartialEq, Eq)]
pub struct Parent {
    /// The object that this component refers to.
    pub obj: ExId,
    /// The key or index within `obj` that this component refers to.
    pub prop: Prop,
    /// Whether this component can be seen. It cannot where the key or index
    /// was deleted, or holds another value that wins over this one.
    pub visible: bool,
}

/// The parents of an object, from the object that holds it up to the root.
#[derive(Debug)]
pub struct Parents<'a> {
    pub(crate) obj: ObjId,
    pub(crate) ops: &'a OpSet,
}

/// The name of the object that operation `id` created.
pub open spec fn exid_of(id: OpId) -> ExId {
    if id.counter == 0 {
        ExId::Root
    } else {
        ExId::Id(id)
    }
}

/// Every object lies in one that was created before it.
pub open spec fn contained(objects: Seq<Placement>) -> bool {
    forall|i: int|
        0 <= i < objects.len() ==> (#[trigger] objects[i]).parent.0.counter
            < objects[i].obj.0.counter
}

/// The first placement of `obj` from index `from` on.
pub open spec fn placement_of(objects: Seq<Placement>, obj: ObjId, from: int) -> Option<Placement>
    decreases objects.len() - from,
{
    if from < 0 || from >= objects.len() {
        None
    } else if objects[from].obj == obj {
        Some(objects[from])
    } else {
        placement_of(objects, obj, from + 1)
    }
}

/// The path component that a placement gives.
pub open spec fn component(p: Placement) -> Parent {
    Parent { obj: exid_of(p.parent.0), prop: p.prop, visible: p.visible }
}

/// The parents of `obj`, nearest first: none for the root and for an object
/// that lies nowhere; else where the object lies, and then the parents of the
/// object that holds it.
pub open spec fn chain(objects: Seq<Placement>, obj: ObjId) -> Seq<Parent>
    decreases obj.0.counter,
{
    if obj.is_root() {
        Seq::empty()
    } else {
        match placement_of(objects, obj, 0) {
            Some(p) => if p.parent.0.counter < obj.0.counter {
                seq![component(p)] + chain(objects, p.parent)
            } else {
                seq![component(p)]
            },
            None => Seq::empty(),
        }
    }
}

/// The path that the parents spell, from the root down.
pub open spec fn path_of(parents: Seq<Parent>) -> Seq<(ExId, Prop)> {
    parents.reverse().map_values(|p: Parent| (p.obj, p.prop))
}

/// Every component can be seen.
pub open spec fn all_visible(parents: Seq<Parent>) -> bool {
    forall|i: int| 0 <= i < parents.len() ==> (#[trigger] parents[i]).visible
}

/// What is placed is found at or after `from` only if it was placed.
proof fn lemma_placement_of(objects: Seq<Placement>, obj: ObjId, from: int)
    requires
        0 <= from,
    ensures
        match placement_of(objects, obj, from) {
            Some(p) => p.obj == obj && exists|i: int|
                from <= i < objects.len() && #[trigger] objects[i] == p,
            None => true,
        },
    decreases objects.len() - from,
{
    if from < objects.len() && objects[from].obj != obj {
        lemma_placement_of(objects, obj, from + 1);
    }
}

impl View for OpSet {
    type V = Seq<Placement>;

    closed spec fn view(&self) -> Seq<Placement> {
        self.objects@
    }
}

impl OpSet {
    #[verifier::type_invariant]
    spec fn inv(&self) -> bool {
        contained(self.objects@)
    }

    /// A document with no object but the root.
    pub fn new() -> (r: Self)
        ensures
            r@ == Seq::<Placement>::empty(),
    {
        OpSet { objects: Vec::new() }
    }

    /// Records that `obj` lies in `parent` at `prop`. An object that is not
    /// younger than `parent` cannot lie in it: nothing is recorded then, and
    /// the result is `false`.
    pub fn add_object(&mut self, obj: ObjId, parent: ObjId, prop: Prop, visible: bool) -> (r: bool)
        ensures
            r == (parent.0.counter < obj.0.counter),
            r ==> final(self)@ == old(self)@.push(Placement { obj, parent, prop, visible }),
            !r ==> final(self)@ == old(self)@,
    {
        if parent.0.counter < obj.0.counter {
            let mut taken = OpSet { objects: Vec::new() };
            std::mem::swap(self, &mut taken);
            proof {
                use_type_invariant(&taken);
            }
            let mut objects = taken.objects;
            objects.push(Placement { obj, parent, prop, visible });
            *self = OpSet { objects };
            true
        } else {
            false
        }
    }

    /// Where `obj` lies, if it lies anywhere.
    pub fn parent_object(&self, obj: &ObjId) -> (r: Option<&Placement>)
        ensures
            match r {
                Some(p) => placement_of(self@, *obj, 0) == Some(*p),
                None => placement_of(self@, *obj, 0) is None,
            },
    {
        let mut i: usize = 0;
        while i < self.objects.len()
            invariant
                i <= self.objects.len(),
                placement_of(self@, *obj, 0) == placement_of(self@, *obj, i as int),
            decreases self.objects.len() - i,
        {
            if self.objects[i].obj == *obj {
                return Some(&self.objects[i]);
            }
            i += 1;
        }
        None
    }

    /// The name of the object that operation `id` created.
    pub fn id_to_exid(&self, id: OpId) -> (r: ExId)
        ensures
            r == exid_of(id),
    {
        if id.counter == 0 {
            ExId::Root
        } else {
            ExId::Id(id)
        }
    }

    /// The parents of `obj`.
    pub fn parents(&self, obj: ObjId) -> (r: Parents<'_>)
        ensures
            r.remaining() == chain(self@, obj),
    {
        Parents { obj, ops: self }
    }
}

impl<'a> Parents<'a> {
    /// The parents that are still to come, nearest first.
    pub closed spec fn remaining(&self) -> Seq<Parent> {
        chain(self.ops@, self.obj)
    }

    /// The next parent, one step nearer to the root; `None` at the root.
    pub fn next(&mut self) -> (r: Option<Parent>)
        ensures
            r == if old(self).remaining().len() == 0 {
                None
            } else {
                Some(old(self).remaining()[0])
            },
            final(self).remaining() == if old(self).remaining().len() == 0 {
                old(self).remaining()
            } else {
                old(self).remaining().skip(1)
            },
    {
        proof {
            use_type_invariant(self.ops);
            lemma_placement_of(self.ops@, self.obj, 0);
        }
        if self.obj.is_root() {
            None
        } else if let Some(p) = self.ops.parent_object(&self.obj) {
            let ghost before = self.remaining();
            self.obj = p.parent;
            assert(before.skip(1) =~= self.remaining());
            Some(Parent { obj: self.ops.id_to_exid(self.obj.0), prop: p.prop.clone(), visible: p.visible })
        } else {
            None
        }
    }

    /// The path that these parents spell, from the root down.
    pub fn path(self) -> (r: Vec<(ExId, Prop)>)
        ensures
            r@ == path_of(self.remaining()),
    {
        let ghost all = self.remaining();
        let mut parents = self;
        let mut path: Vec<(ExId, Prop)> = Vec::new();
        loop
            invariant
                path@.len() + parents.remaining().len() == all.len(),
                parents.remaining() == all.skip(path@.len() as int),
                forall|i: int| 0 <= i < path@.len() ==> path@[i] == (all[i].obj, all[i].prop),
            ensures
                path@.len() == all.len(),
            decreases parents.remaining().len(),
        {
            match parents.next() {
                Some(Parent { obj, prop, .. }) => {
                    path.push((obj, prop));
                },
                None => {
                    break ;
                },
            }
        }
        let path = reversed(path);
        assert(path@ =~= path_of(all));
        path
    }

    /// Like `path`, but `None` if a component cannot be seen.
    pub fn visible_path(self) -> (r: Option<Vec<(ExId, Prop)>>)
        ensures
            r is Some <==> all_visible(self.remaining()),
            r is Some ==> r->0@ == path_of(self.remaining()),
    {
        let ghost all = self.remaining();
        let mut parents = self;
        let mut path: Vec<(ExId, Prop)> = Vec::new();
        loop
            invariant
                path@.len() + parents.remaining().len() == all.len(),
                parents.remaining() == all.skip(path@.len() as int),
                forall|i: int| 0 <= i < path@.len() ==> path@[i] == (all[i].obj, all[i].prop),
                forall|i: int| 0 <= i < path@.len() ==> (#[trigger] all[i]).visible,
                all == self.remaining(),
            ensures
                path@.len() == all.len(),
            decreases parents.remaining().len(),
        {
            match parents.next() {
                Some(Parent { obj, prop, visible }) => {
                    if !visible {
                        assert(all.skip(path@.len() as int)[0] == all[path@.len() as int]);
                        assert(!all[path@.len() as int].visible);
                        return None;
                    }
                    path.push((obj, prop));
                },
                None => {
                    break ;
                },
            }
        }
        let path = reversed(path);
        assert(path@ =~= path_of(all));
        Some(path)
    }
}

/// The same items, last first.
fn reversed<T>(v: Vec<T>) -> (r: Vec<T>)
    ensures
        r@ == v@.reverse(),
{
    let ghost all = v@;
    let mut v = v;
    let mut out: Vec<T> = Vec::new();
    while v.len() > 0
        invariant
            v@.len() + out@.len() == all.len(),
            v@ == all.take(v@.len() as int),
            forall|k: int| 0 <= k < out@.len() ==> out@[k] == all[all.len() - 1 - k],
        decreases v@.len(),
    {
        let last = v.pop().unwrap();
        out.push(last);
    }
    assert(out@ =~= all.reverse());
    out
}

} // verus!

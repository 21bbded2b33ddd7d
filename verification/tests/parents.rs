use docmarks::parents::{OpSet, Parent};
use docmarks::types::{ExId, ObjId, OpId, Prop};

fn obj(counter: u64) -> ObjId {
    ObjId(OpId::new(counter, 0))
}

fn list_with_two_maps() -> OpSet {
    // A list under the key "list" of the root, two maps in the list, and the
    // first map deleted again.
    let mut ops = OpSet::new();
    assert!(ops.add_object(obj(1), ObjId::root(), Prop::Key("list".to_string()), true));
    assert!(ops.add_object(obj(2), obj(1), Prop::Index(0), false));
    assert!(ops.add_object(obj(3), obj(1), Prop::Index(1), true));
    ops
}

#[test]
fn test_invisible_parents() {
    let ops = list_with_two_maps();
    let list = ExId::Id(OpId::new(1, 0));

    let mut walk = ops.parents(obj(2));
    let mut parents = Vec::new();
    while let Some(parent) = walk.next() {
        parents.push(parent);
    }
    parents.reverse();
    assert_eq!(
        parents,
        vec![
            Parent { obj: ExId::Root, prop: Prop::Key("list".to_string()), visible: true },
            Parent { obj: list, prop: Prop::Index(0), visible: false },
        ]
    );
}

#[test]
fn path_runs_from_the_root_down() {
    let ops = list_with_two_maps();
    let list = ExId::Id(OpId::new(1, 0));
    assert_eq!(
        ops.parents(obj(3)).path(),
        vec![(ExId::Root, Prop::Key("list".to_string())), (list, Prop::Index(1))]
    );
    assert_eq!(
        ops.parents(obj(2)).path(),
        vec![(ExId::Root, Prop::Key("list".to_string())), (list, Prop::Index(0))]
    );
}

#[test]
fn visible_path_needs_every_component_visible() {
    let ops = list_with_two_maps();
    let list = ExId::Id(OpId::new(1, 0));
    assert_eq!(
        ops.parents(obj(3)).visible_path(),
        Some(vec![(ExId::Root, Prop::Key("list".to_string())), (list, Prop::Index(1))])
    );
    assert_eq!(ops.parents(obj(2)).visible_path(), None);
}

#[test]
fn root_has_no_parents() {
    let ops = list_with_two_maps();
    assert_eq!(ops.parents(ObjId::root()).next(), None);
    assert_eq!(ops.parents(ObjId::root()).path(), vec![]);
    assert_eq!(ops.parents(ObjId::root()).visible_path(), Some(vec![]));
}

#[test]
fn unplaced_object_has_no_parents() {
    let ops = list_with_two_maps();
    assert_eq!(ops.parents(obj(9)).next(), None);
    assert_eq!(ops.parents(obj(9)).path(), vec![]);
}

#[test]
fn object_cannot_lie_in_a_younger_one() {
    let mut ops = OpSet::new();
    assert!(!ops.add_object(obj(2), obj(5), Prop::Index(0), true));
    assert!(!ops.add_object(obj(2), obj(2), Prop::Index(0), true));
    assert!(ops.parent_object(&obj(2)).is_none());
    assert!(ops.add_object(obj(2), ObjId::root(), Prop::Index(0), true));
    assert_eq!(ops.parent_object(&obj(2)).unwrap().parent, ObjId::root());
}

#[test]
fn exid_of_the_root_is_root() {
    let ops = OpSet::new();
    assert_eq!(ops.id_to_exid(OpId::new(0, 0)), ExId::Root);
    assert_eq!(ops.id_to_exid(OpId::new(4, 1)), ExId::Id(OpId::new(4, 1)));
    assert!(ObjId::root().is_root());
    assert!(!obj(1).is_root());
}

use docmarks::mark_state::MarkStateMachine;
use docmarks::marks::{ExpandMark, Mark, MarkData};
use docmarks::order::LamportOrder;
use docmarks::types::OpId;
use docmarks::value::ScalarValue;
use smol_str::SmolStr;

fn data(name: &str, value: ScalarValue) -> MarkData {
    MarkData { name: SmolStr::new(name), value }
}

fn id(counter: u64) -> OpId {
    OpId::new(counter, 0)
}

#[test]
fn expand_mark_truth_table() {
    assert_eq!((ExpandMark::Before.before(), ExpandMark::Before.after()), (true, false));
    assert_eq!((ExpandMark::After.before(), ExpandMark::After.after()), (false, true));
    assert_eq!((ExpandMark::Both.before(), ExpandMark::Both.after()), (true, true));
    assert_eq!((ExpandMark::Neither.before(), ExpandMark::Neither.after()), (false, false));
}

#[test]
fn expand_mark_default_is_after() {
    assert_eq!(ExpandMark::default(), ExpandMark::After);
}

#[test]
fn expand_mark_from_flags() {
    assert_eq!(ExpandMark::from(true, true), ExpandMark::Both);
    assert_eq!(ExpandMark::from(false, true), ExpandMark::After);
    assert_eq!(ExpandMark::from(true, false), ExpandMark::Before);
    assert_eq!(ExpandMark::from(false, false), ExpandMark::Neither);
}

#[test]
fn simple_span_is_reported_when_it_closes() {
    let bold = data("bold", ScalarValue::Boolean(true));
    let order = LamportOrder::new();
    let mut machine = MarkStateMachine::new();
    assert_eq!(machine.mark_begin(id(1), 2, &bold, &order), None);
    assert_eq!(machine.len(), 1);
    let closed = machine.mark_end(id(2), 6, &order);
    assert_eq!(closed, Some(Mark::new("bold".to_string(), true, 2, 6)));
    assert_eq!(machine.len(), 0);
}

#[test]
fn uncontested_begin_reports_nothing() {
    let bold = data("bold", ScalarValue::Boolean(true));
    let order = LamportOrder::new();
    let mut machine = MarkStateMachine::new();
    assert_eq!(machine.mark_begin(id(1), 0, &bold, &order), None);
    let (opened_by, mark) = machine.get(0).unwrap();
    assert_eq!(opened_by, id(1));
    assert_eq!(*mark, Mark::new("bold".to_string(), true, 0, 0));
}

#[test]
fn shadowing_cuts_the_span_below() {
    let on = data("bold", ScalarValue::Boolean(true));
    let off = data("bold", ScalarValue::Boolean(false));
    let order = LamportOrder::new();
    let mut machine = MarkStateMachine::new();
    assert_eq!(machine.mark_begin(id(1), 0, &on, &order), None);
    let delta = machine.mark_begin(id(3), 2, &off, &order);
    assert_eq!(delta, Some(Mark::new("bold".to_string(), true, 0, 2)));
    assert_eq!(machine.len(), 2);
    let (opened_by, mark) = machine.get(1).unwrap();
    assert_eq!(opened_by, id(3));
    assert_eq!(mark.start, 2);
    assert_eq!(mark.name(), "bold");
    assert_eq!(*mark.value(), ScalarValue::Boolean(false));
}

#[test]
fn coalescing_takes_the_start_of_the_span_below() {
    let first = data("bold", ScalarValue::Boolean(true));
    let second = data("bold", ScalarValue::Boolean(true));
    let order = LamportOrder::new();
    let mut machine = MarkStateMachine::new();
    assert_eq!(machine.mark_begin(id(1), 0, &first, &order), None);
    assert_eq!(machine.mark_begin(id(2), 3, &second, &order), None);
    let (opened_by, mark) = machine.get(1).unwrap();
    assert_eq!(opened_by, id(2));
    assert_eq!(mark.start, 0);
    assert_eq!(mark.end, 3);
}

#[test]
fn coalescing_takes_the_start_of_the_span_above() {
    let first = data("bold", ScalarValue::Boolean(true));
    let second = data("bold", ScalarValue::Boolean(true));
    let order = LamportOrder::new();
    let mut machine = MarkStateMachine::new();
    assert_eq!(machine.mark_begin(id(5), 1, &first, &order), None);
    assert_eq!(machine.mark_begin(id(3), 4, &second, &order), None);
    let (opened_by, mark) = machine.get(0).unwrap();
    assert_eq!(opened_by, id(3));
    assert_eq!(mark.start, 1);
}

#[test]
fn null_delta_is_suppressed_at_begin() {
    let unmark = data("bold", ScalarValue::Null);
    let on = data("bold", ScalarValue::Boolean(true));
    let order = LamportOrder::new();

    let mut machine = MarkStateMachine::new();
    assert_eq!(machine.mark_begin(id(1), 0, &unmark, &order), None);
    assert_eq!(machine.mark_begin(id(3), 2, &on, &order), None);
    assert_eq!(machine.len(), 2);

    let mut raw = MarkStateMachine::new();
    assert_eq!(raw.mark_or_unmark_begin(id(1), 0, &unmark, &order), None);
    let delta = raw.mark_or_unmark_begin(id(3), 2, &on, &order);
    assert_eq!(delta, Some(Mark::new("bold".to_string(), ScalarValue::Null, 0, 2)));
}

#[test]
fn null_delta_is_suppressed_at_end() {
    let unmark = data("bold", ScalarValue::Null);
    let order = LamportOrder::new();

    let mut machine = MarkStateMachine::new();
    assert_eq!(machine.mark_begin(id(1), 0, &unmark, &order), None);
    assert_eq!(machine.mark_end(id(2), 5, &order), None);
    assert_eq!(machine.len(), 0);

    let mut raw = MarkStateMachine::new();
    assert_eq!(raw.mark_or_unmark_begin(id(1), 0, &unmark, &order), None);
    let delta = raw.mark_or_unmark_end(id(2), 5, &order);
    assert_eq!(delta, Some(Mark::new("bold".to_string(), ScalarValue::Null, 0, 5)));
}

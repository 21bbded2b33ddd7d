use docmarks::mark_state::MarkStateMachine;
use docmarks::marks::{Mark, MarkData};
use docmarks::order::LamportOrder;
use docmarks::types::OpId;
use docmarks::value::ScalarValue;
use smol_str::SmolStr;

fn data(name: &str, value: ScalarValue) -> MarkData {
    MarkData { name: SmolStr::new(name), value }
}

fn open_marks(machine: &MarkStateMachine<'_>) -> Vec<(OpId, String, ScalarValue)> {
    let mut out = Vec::new();
    for i in 0..machine.len() {
        let (id, mark) = machine.get(i).unwrap();
        out.push((id, mark.name().to_string(), mark.value().clone()));
    }
    out
}

fn spans(machine: &MarkStateMachine<'_>) -> Vec<(OpId, Mark<'static>)> {
    let mut out = Vec::new();
    for i in 0..machine.len() {
        let (id, mark) = machine.get(i).unwrap();
        out.push((id, mark.clone().into_owned()));
    }
    out
}

#[test]
fn orders_of_arrival_converge() {
    let on = data("bold", ScalarValue::Boolean(true));
    let off = data("bold", ScalarValue::Boolean(false));
    let slanted = data("italic", ScalarValue::Boolean(true));
    let order = LamportOrder::new();

    let mut one = MarkStateMachine::new();
    one.mark_begin(OpId::new(1, 0), 0, &on, &order);
    one.mark_begin(OpId::new(1, 1), 2, &off, &order);
    one.mark_begin(OpId::new(3, 0), 4, &slanted, &order);
    one.mark_end(OpId::new(2, 0), 6, &order);

    let mut two = MarkStateMachine::new();
    two.mark_begin(OpId::new(3, 0), 4, &slanted, &order);
    two.mark_begin(OpId::new(1, 1), 2, &off, &order);
    two.mark_begin(OpId::new(1, 0), 0, &on, &order);
    two.mark_end(OpId::new(2, 0), 6, &order);

    let expected = vec![
        (OpId::new(1, 1), "bold".to_string(), ScalarValue::Boolean(false)),
        (OpId::new(3, 0), "italic".to_string(), ScalarValue::Boolean(true)),
    ];
    assert_eq!(open_marks(&one), expected);
    assert_eq!(open_marks(&two), expected);
    assert!(one.in_order(&order));
    assert!(two.in_order(&order));
}

#[test]
fn starts_depend_on_the_order_of_arrival() {
    let first = data("bold", ScalarValue::Boolean(true));
    let second = data("bold", ScalarValue::Boolean(true));
    let order = LamportOrder::new();

    let mut one = MarkStateMachine::new();
    one.mark_begin(OpId::new(1, 0), 0, &first, &order);
    one.mark_begin(OpId::new(3, 0), 3, &second, &order);

    let mut two = MarkStateMachine::new();
    two.mark_begin(OpId::new(3, 0), 3, &second, &order);
    two.mark_begin(OpId::new(1, 0), 0, &first, &order);

    assert_eq!(open_marks(&one), open_marks(&two));
    assert_eq!(one.get(1).unwrap().1.start, 0);
    assert_eq!(two.get(1).unwrap().1.start, 3);
    assert_eq!(two.get(0).unwrap().1.start, 3);
}

#[test]
fn begin_is_idempotent() {
    let on = data("bold", ScalarValue::Boolean(true));
    let off = data("bold", ScalarValue::Boolean(false));
    let order = LamportOrder::new();
    let mut machine = MarkStateMachine::new();
    machine.mark_begin(OpId::new(1, 0), 0, &on, &order);
    assert!(machine.mark_begin(OpId::new(3, 0), 2, &off, &order).is_some());
    let before = spans(&machine);
    assert_eq!(machine.mark_begin(OpId::new(3, 0), 2, &off, &order), None);
    assert_eq!(spans(&machine), before);
    assert_eq!(machine.mark_begin(OpId::new(3, 0), 9, &on, &order), None);
    assert_eq!(spans(&machine), before);
}

#[test]
fn end_is_idempotent() {
    let on = data("bold", ScalarValue::Boolean(true));
    let off = data("bold", ScalarValue::Boolean(false));
    let order = LamportOrder::new();
    let mut machine = MarkStateMachine::new();
    machine.mark_begin(OpId::new(1, 0), 0, &on, &order);
    machine.mark_begin(OpId::new(3, 0), 2, &off, &order);
    assert_eq!(
        machine.mark_end(OpId::new(4, 0), 5, &order),
        Some(Mark::new("bold".to_string(), false, 2, 5))
    );
    let before = spans(&machine);
    assert_eq!(machine.mark_end(OpId::new(4, 0), 5, &order), None);
    assert_eq!(spans(&machine), before);
    assert_eq!(machine.mark_end(OpId::new(4, 0), 8, &order), None);
    assert_eq!(spans(&machine), before);
}

#[test]
fn end_without_begin_changes_nothing() {
    let on = data("bold", ScalarValue::Boolean(true));
    let order = LamportOrder::new();
    let mut machine = MarkStateMachine::new();
    machine.mark_begin(OpId::new(1, 0), 0, &on, &order);
    let before = spans(&machine);
    assert_eq!(machine.mark_end(OpId::new(7, 0), 5, &order), None);
    assert_eq!(machine.mark_end(OpId::new(2, 1), 5, &order), None);
    assert_eq!(spans(&machine), before);
}

#[test]
fn names_do_not_touch_each_other() {
    let on = data("bold", ScalarValue::Boolean(true));
    let off = data("bold", ScalarValue::Boolean(false));
    let slanted = data("italic", ScalarValue::Boolean(true));
    let upright = data("italic", ScalarValue::Boolean(false));
    let order = LamportOrder::new();

    let mut mixed = MarkStateMachine::new();
    let mut alone = MarkStateMachine::new();

    assert_eq!(mixed.mark_begin(OpId::new(1, 0), 0, &on, &order), None);
    assert_eq!(alone.mark_begin(OpId::new(1, 0), 0, &on, &order), None);
    assert_eq!(mixed.mark_begin(OpId::new(3, 0), 1, &slanted, &order), None);
    assert_eq!(
        mixed.mark_begin(OpId::new(7, 0), 2, &upright, &order),
        Some(Mark::new("italic".to_string(), true, 1, 2))
    );

    let in_mixed = mixed.mark_begin(OpId::new(5, 0), 3, &off, &order);
    let in_alone = alone.mark_begin(OpId::new(5, 0), 3, &off, &order);
    assert_eq!(in_mixed, Some(Mark::new("bold".to_string(), true, 0, 3)));
    assert_eq!(in_mixed, in_alone);

    let in_mixed = mixed.mark_end(OpId::new(6, 0), 8, &order);
    let in_alone = alone.mark_end(OpId::new(6, 0), 8, &order);
    assert_eq!(in_mixed, Some(Mark::new("bold".to_string(), false, 3, 8)));
    assert_eq!(in_mixed, in_alone);

    let bold_of_mixed: Vec<_> =
        spans(&mixed).into_iter().filter(|(_, mark)| mark.name() == "bold").collect();
    assert_eq!(bold_of_mixed, spans(&alone));
    assert_eq!(bold_of_mixed, vec![(OpId::new(1, 0), Mark::new("bold".to_string(), true, 8, 0))]);

    let italic_of_mixed: Vec<_> =
        spans(&mixed).into_iter().filter(|(_, mark)| mark.name() == "italic").collect();
    assert_eq!(
        italic_of_mixed,
        vec![
            (OpId::new(3, 0), Mark::new("italic".to_string(), true, 1, 1)),
            (OpId::new(7, 0), Mark::new("italic".to_string(), false, 2, 2)),
        ]
    );
}

#[test]
fn closing_a_hidden_span_reports_nothing() {
    let on = data("bold", ScalarValue::Boolean(true));
    let off = data("bold", ScalarValue::Boolean(false));
    let order = LamportOrder::new();
    let mut machine = MarkStateMachine::new();
    machine.mark_begin(OpId::new(1, 0), 0, &on, &order);
    machine.mark_begin(OpId::new(3, 0), 2, &off, &order);
    assert_eq!(machine.mark_end(OpId::new(2, 0), 4, &order), None);
    assert_eq!(spans(&machine), vec![(OpId::new(3, 0), Mark::new("bold".to_string(), false, 2, 2))]);
}

#[test]
fn closing_over_the_same_value_reports_nothing() {
    let first = data("bold", ScalarValue::Boolean(true));
    let second = data("bold", ScalarValue::Boolean(true));
    let order = LamportOrder::new();
    let mut machine = MarkStateMachine::new();
    machine.mark_begin(OpId::new(1, 0), 0, &first, &order);
    machine.mark_begin(OpId::new(3, 0), 2, &second, &order);
    assert_eq!(machine.mark_end(OpId::new(4, 0), 4, &order), None);
    assert_eq!(spans(&machine), vec![(OpId::new(1, 0), Mark::new("bold".to_string(), true, 0, 0))]);
}

#[test]
fn closing_over_another_value_restarts_the_span_below() {
    let on = data("bold", ScalarValue::Boolean(true));
    let off = data("bold", ScalarValue::Boolean(false));
    let order = LamportOrder::new();
    let mut machine = MarkStateMachine::new();
    machine.mark_begin(OpId::new(1, 0), 0, &on, &order);
    machine.mark_begin(OpId::new(3, 0), 2, &off, &order);
    assert_eq!(
        machine.mark_end(OpId::new(4, 0), 5, &order),
        Some(Mark::new("bold".to_string(), false, 2, 5))
    );
    assert_eq!(spans(&machine), vec![(OpId::new(1, 0), Mark::new("bold".to_string(), true, 5, 0))]);
    assert_eq!(
        machine.mark_end(OpId::new(2, 0), 9, &order),
        Some(Mark::new("bold".to_string(), true, 5, 9))
    );
    assert_eq!(machine.len(), 0);
}

#[test]
fn spans_stand_in_the_order_of_their_operations() {
    let a = data("a", ScalarValue::Int(1));
    let b = data("b", ScalarValue::Int(2));
    let c = data("c", ScalarValue::Int(3));
    let d = data("d", ScalarValue::Int(4));
    let order = LamportOrder::new();
    let mut machine = MarkStateMachine::new();
    machine.mark_begin(OpId::new(5, 0), 0, &a, &order);
    machine.mark_begin(OpId::new(2, 3), 0, &b, &order);
    machine.mark_begin(OpId::new(2, 1), 0, &c, &order);
    machine.mark_begin(OpId::new(9, 0), 0, &d, &order);
    let ids: Vec<OpId> = spans(&machine).into_iter().map(|(id, _)| id).collect();
    assert_eq!(ids, vec![OpId::new(2, 1), OpId::new(2, 3), OpId::new(5, 0), OpId::new(9, 0)]);
    assert!(machine.in_order(&order));
    assert_eq!(machine.get(4), None);
}

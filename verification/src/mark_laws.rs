//! What holds of the mark state machine whatever it is fed.

use vstd::prelude::*;
use crate::mark_model::{
    begin_outcome, end_outcome, has_id, last_named, lemma_begin_outcome, lemma_end_outcome,
    lemma_last_named, lemma_sorted_ids_differ, same_payload, sorted, Outcome, Span,
};
use crate::marks::MarkDataView;
use crate::value::ScalarView;
use crate::order::OpOrder;
use crate::types::OpId;

verus! {

/// A begin operation that is applied a second time changes nothing and
/// reports nothing, wherever and with whatever payload it comes again.
pub proof fn lemma_begin_is_idempotent<C: OpOrder>(
    ctx: &C,
    s: Seq<Span>,
    id: OpId,
    pos: nat,
    data: MarkDataView,
    pos_again: nat,
    data_again: MarkDataView,
)
    requires
        sorted(ctx, s),
    ensures
        begin_outcome(
            ctx,
            begin_outcome(ctx, s, id, pos, data).state,
            id,
            pos_again,
            data_again,
        ) == (Outcome { state: begin_outcome(ctx, s, id, pos, data).state, delta: None }),
{
    lemma_begin_outcome(ctx, s, id, pos, data);
}

/// An end operation that is applied a second time changes nothing and reports
/// nothing: the span that it closes, opened by `id`, is no longer there.
pub proof fn lemma_end_is_idempotent<C: OpOrder>(
    ctx: &C,
    s: Seq<Span>,
    id: OpId,
    pos: nat,
    pos_again: nat,
)
    requires
        sorted(ctx, s),
    ensures
        end_outcome(ctx, end_outcome(ctx, s, id, pos).state, id, pos_again) == (Outcome {
            state: end_outcome(ctx, s, id, pos).state,
            delta: None,
        }),
{
    lemma_end_outcome(ctx, s, id, pos);
}

/// One operation of a log of mark operations.
pub ghost enum MarkOp {
    /// Operation `id` opens a span of `data` at `pos`.
    Begin { id: OpId, pos: nat, data: MarkDataView },
    /// Operation `id` closes, at `pos`, the span that the operation before it
    /// opened.
    End { id: OpId, pos: nat },
}

/// The open spans after one more operation.
pub open spec fn apply<C: OpOrder>(ctx: &C, s: Seq<Span>, op: MarkOp) -> Seq<Span> {
    match op {
        MarkOp::Begin { id, pos, data } => begin_outcome(ctx, s, id, pos, data).state,
        MarkOp::End { id, pos } => end_outcome(ctx, s, id.prev(), pos).state,
    }
}

/// The open spans after a machine without spans has taken the operations of
/// `ops`, first to last.
pub open spec fn replay<C: OpOrder>(ctx: &C, ops: Seq<MarkOp>) -> Seq<Span>
    decreases ops.len(),
{
    if ops.len() == 0 {
        Seq::empty()
    } else {
        apply(ctx, replay(ctx, ops.drop_last()), ops.last())
    }
}

/// `op` is the begin operation `id`.
pub open spec fn opens(op: MarkOp, id: OpId) -> bool {
    op matches MarkOp::Begin { id: b, .. } && b == id
}

/// `op` is the end operation that closes the span of `id`.
pub open spec fn closes(op: MarkOp, id: OpId) -> bool {
    op matches MarkOp::End { id: e, .. } && e.prev() == id
}

/// `op` is the begin operation of the span `x`: it has its identifier, name
/// and value.
pub open spec fn begins(op: MarkOp, x: Span) -> bool {
    op matches MarkOp::Begin { id, data, .. } && id == x.id && data.name == x.mark.name
        && data.value == x.mark.value
}

/// Some operation of the log opens a span for `id`.
pub open spec fn opened(ops: Seq<MarkOp>, id: OpId) -> bool {
    exists|i: int| 0 <= i < ops.len() && opens(#[trigger] ops[i], id)
}

/// Some operation of the log closes the span of `id`.
pub open spec fn closed(ops: Seq<MarkOp>, id: OpId) -> bool {
    exists|i: int| 0 <= i < ops.len() && closes(#[trigger] ops[i], id)
}

/// A log as causal delivery hands it over: no two begin operations share an
/// identifier, and no end operation comes before the begin operation whose
/// span it closes.
pub open spec fn consistent(ops: Seq<MarkOp>) -> bool {
    &&& forall|i: int, j: int, id: OpId|
        #![trigger opens(ops[i], id), opens(ops[j], id)]
        0 <= i < j < ops.len() && opens(ops[i], id) ==> !opens(ops[j], id)
    &&& forall|i: int, j: int, id: OpId|
        #![trigger closes(ops[i], id), opens(ops[j], id)]
        0 <= i < j < ops.len() && closes(ops[i], id) ==> !opens(ops[j], id)
}

/// Of each open span: who opened it, its name and its value. Where the span
/// starts is left out.
pub open spec fn open_marks(s: Seq<Span>) -> Seq<(OpId, Seq<char>, ScalarView)> {
    s.map_values(|x: Span| (x.id, x.mark.name, x.mark.value))
}

/// The value that a reader sees for `name`: that of the open span of the name
/// whose operation comes last in the order. `None` if no span of the name is
/// open.
pub open spec fn visible_value(s: Seq<Span>, name: Seq<char>) -> Option<ScalarView> {
    match last_named(s, s.len() as int, name) {
        Some(i) => Some(s[i].mark.value),
        None => None,
    }
}

/// After a consistent log the machine is in order, the spans that are open
/// are those that the log opens and does not close, and each has the name and
/// value that its begin operation gave it.
pub proof fn lemma_replay<C: OpOrder>(ctx: &C, ops: Seq<MarkOp>)
    requires
        consistent(ops),
    ensures
        sorted(ctx, replay(ctx, ops)),
        forall|id: OpId| #[trigger]
            has_id(replay(ctx, ops), id) <==> opened(ops, id) && !closed(ops, id),
        forall|k: int|
            0 <= k < replay(ctx, ops).len() ==> exists|i: int|
                0 <= i < ops.len() && begins(#[trigger] ops[i], #[trigger] replay(ctx, ops)[k]),
    decreases ops.len(),
{
    if ops.len() > 0 {
        let p = ops.drop_last();
        let n = ops.len() - 1;
        assert(forall|i: int| 0 <= i < p.len() ==> p[i] == ops[i]);
        assert(consistent(p)) by {
            assert forall|i: int, j: int, id: OpId|
                #![trigger opens(p[i], id), opens(p[j], id)]
                0 <= i < j < p.len() && opens(p[i], id) implies !opens(p[j], id) by {
                assert(opens(ops[i], id) ==> !opens(ops[j], id));
            }
            assert forall|i: int, j: int, id: OpId|
                #![trigger closes(p[i], id), opens(p[j], id)]
                0 <= i < j < p.len() && closes(p[i], id) implies !opens(p[j], id) by {
                assert(closes(ops[i], id) ==> !opens(ops[j], id));
            }
        }
        lemma_replay(ctx, p);
        let s0 = replay(ctx, p);
        let s = replay(ctx, ops);
        assert forall|x: OpId| opened(ops, x) <==> opened(p, x) || opens(ops[n], x) by {
            if opened(ops, x) {
                let i = choose|i: int| 0 <= i < ops.len() && opens(#[trigger] ops[i], x);
                if i < n {
                    assert(opens(p[i], x));
                }
            }
            if opened(p, x) {
                let i = choose|i: int| 0 <= i < p.len() && opens(#[trigger] p[i], x);
                assert(opens(ops[i], x));
            }
            if opens(ops[n], x) {
            }
        }
        assert forall|x: OpId| closed(ops, x) <==> closed(p, x) || closes(ops[n], x) by {
            if closed(ops, x) {
                let i = choose|i: int| 0 <= i < ops.len() && closes(#[trigger] ops[i], x);
                if i < n {
                    assert(closes(p[i], x));
                }
            }
            if closed(p, x) {
                let i = choose|i: int| 0 <= i < p.len() && closes(#[trigger] p[i], x);
                assert(closes(ops[i], x));
            }
            if closes(ops[n], x) {
            }
        }
        match ops[n] {
            MarkOp::Begin { id, pos, data } => {
                lemma_begin_outcome(ctx, s0, id, pos, data);
                assert(opens(ops[n], id));
                if opened(p, id) {
                    let i = choose|i: int| 0 <= i < p.len() && opens(#[trigger] p[i], id);
                    assert(opens(ops[i], id));
                    assert(false);
                }
                if closed(p, id) {
                    let i = choose|i: int| 0 <= i < p.len() && closes(#[trigger] p[i], id);
                    assert(closes(ops[i], id));
                    assert(false);
                }
                assert(!has_id(s0, id));
                assert forall|x: OpId| #[trigger]
                    has_id(s, x) <==> opened(ops, x) && !closed(ops, x) by {
                    assert(has_id(s0, x) <==> opened(p, x) && !closed(p, x));
                }
                assert forall|k: int| 0 <= k < s.len() implies exists|i: int|
                    0 <= i < ops.len() && begins(#[trigger] ops[i], #[trigger] s[k]) by {
                    let y = s[k];
                    if exists|k0: int| 0 <= k0 < s0.len() && #[trigger] s0[k0] == y {
                        let k0 = choose|k0: int| 0 <= k0 < s0.len() && #[trigger] s0[k0] == y;
                        let i = choose|i: int|
                            0 <= i < p.len() && begins(#[trigger] p[i], #[trigger] s0[k0]);
                        assert(begins(ops[i], s[k]));
                    } else {
                        assert(begins(ops[n], s[k]));
                    }
                }
            },
            MarkOp::End { id, pos } => {
                let b = id.prev();
                lemma_end_outcome(ctx, s0, b, pos);
                assert(closes(ops[n], b));
                assert forall|x: OpId| #[trigger]
                    has_id(s, x) <==> opened(ops, x) && !closed(ops, x) by {
                    assert(has_id(s0, x) <==> opened(p, x) && !closed(p, x));
                }
                assert forall|k: int| 0 <= k < s.len() implies exists|i: int|
                    0 <= i < ops.len() && begins(#[trigger] ops[i], #[trigger] s[k]) by {
                    let k0 = choose|k0: int|
                        0 <= k0 < s0.len() && same_payload(#[trigger] s0[k0], #[trigger] s[k]);
                    let i = choose|i: int|
                        0 <= i < p.len() && begins(#[trigger] p[i], #[trigger] s0[k0]);
                    assert(begins(ops[i], s[k]));
                }
            },
        }
    }
}

/// Two sorted states with spans of the same operations hold them at the same
/// places.
pub proof fn lemma_sorted_same_ids<C: OpOrder>(ctx: &C, s: Seq<Span>, t: Seq<Span>)
    requires
        sorted(ctx, s),
        sorted(ctx, t),
        forall|id: OpId| has_id(s, id) <==> has_id(t, id),
    ensures
        s.len() == t.len(),
        forall|i: int| 0 <= i < s.len() ==> (#[trigger] s[i]).id == t[i].id,
    decreases s.len(),
{
    if s.len() == 0 {
        if t.len() > 0 {
            assert(has_id(t, t[0].id));
        }
    } else {
        let n = s.len() - 1;
        let m = s[n].id;
        assert(has_id(s, m));
        assert(has_id(t, m));
        let j = choose|j: int| 0 <= j < t.len() && (#[trigger] t[j]).id == m;
        let u = t.len() - 1;
        let w = t[u].id;
        assert(has_id(t, w));
        let i = choose|i: int| 0 <= i < s.len() && (#[trigger] s[i]).id == w;
        ctx.order_is_total(m, w);
        if j < u {
            assert(ctx.precedes(t[j].id, t[u].id));
        }
        if i < n {
            assert(ctx.precedes(s[i].id, s[n].id));
        }
        assert(m == w);
        let s1 = s.drop_last();
        let t1 = t.drop_last();
        assert(forall|k: int| 0 <= k < s1.len() ==> s1[k] == s[k]);
        assert(forall|k: int| 0 <= k < t1.len() ==> t1[k] == t[k]);
        assert forall|id: OpId| has_id(s1, id) <==> has_id(t1, id) by {
            if has_id(s1, id) {
                let k = choose|k: int| 0 <= k < s1.len() && (#[trigger] s1[k]).id == id;
                assert(s[k].id == id);
                lemma_sorted_ids_differ(ctx, s, k, n);
                assert(has_id(t, id));
                let l = choose|l: int| 0 <= l < t.len() && (#[trigger] t[l]).id == id;
                assert(t1[l].id == id);
            }
            if has_id(t1, id) {
                let k = choose|k: int| 0 <= k < t1.len() && (#[trigger] t1[k]).id == id;
                assert(t[k].id == id);
                lemma_sorted_ids_differ(ctx, t, k, u);
                assert(has_id(s, id));
                let l = choose|l: int| 0 <= l < s.len() && (#[trigger] s[l]).id == id;
                assert(s1[l].id == id);
            }
        }
        lemma_sorted_same_ids(ctx, s1, t1);
        assert forall|k: int| 0 <= k < s.len() implies (#[trigger] s[k]).id == t[k].id by {
            if k < n {
                assert(s1[k].id == t1[k].id);
            }
        }
    }
}

/// Which span of a name comes last depends on the names alone.
pub proof fn lemma_last_named_by_names(s: Seq<Span>, t: Seq<Span>, upto: int, name: Seq<char>)
    requires
        s.len() == t.len(),
        forall|i: int| 0 <= i < s.len() ==> (#[trigger] s[i]).mark.name == t[i].mark.name,
    ensures
        last_named(s, upto, name) == last_named(t, upto, name),
    decreases upto,
{
    if 0 < upto <= s.len() && s[upto - 1].mark.name != name {
        lemma_last_named_by_names(s, t, upto - 1, name);
    }
}

/// Convergence. Two machines that are fed the same operations in different
/// orders, each order consistent, end with the same open spans: opened by the
/// same operations, in the same order, with the same names and values. So
/// both show the same value for every name.
pub proof fn lemma_convergence<C: OpOrder>(ctx: &C, a: Seq<MarkOp>, b: Seq<MarkOp>)
    requires
        consistent(a),
        consistent(b),
        a.to_multiset() == b.to_multiset(),
    ensures
        open_marks(replay(ctx, a)) == open_marks(replay(ctx, b)),
        forall|name: Seq<char>|
            visible_value(replay(ctx, a), name) == visible_value(replay(ctx, b), name),
{
    let s = replay(ctx, a);
    let t = replay(ctx, b);
    lemma_replay(ctx, a);
    lemma_replay(ctx, b);
    a.to_multiset_ensures();
    b.to_multiset_ensures();
    assert forall|op: MarkOp| a.contains(op) <==> b.contains(op) by {
        assert(a.contains(op) <==> a.to_multiset().count(op) > 0);
        assert(b.contains(op) <==> b.to_multiset().count(op) > 0);
    }
    assert forall|id: OpId| has_id(s, id) <==> has_id(t, id) by {
        lemma_same_members(a, b, id);
        lemma_same_members(b, a, id);
    }
    lemma_sorted_same_ids(ctx, s, t);
    assert forall|k: int| 0 <= k < s.len() implies same_payload(#[trigger] s[k], t[k]) by {
        let i = choose|i: int| 0 <= i < a.len() && begins(#[trigger] a[i], #[trigger] s[k]);
        let j = choose|j: int| 0 <= j < b.len() && begins(#[trigger] b[j], #[trigger] t[k]);
        assert(b.contains(b[j]));
        let l = choose|l: int| 0 <= l < a.len() && a[l] == b[j];
        assert(opens(a[i], s[k].id));
        assert(opens(a[l], s[k].id));
        if i < l {
            assert(!opens(a[l], s[k].id));
        } else if l < i {
            assert(!opens(a[i], s[k].id));
        }
    }
    assert(open_marks(s) =~= open_marks(t));
    assert forall|name: Seq<char>| visible_value(s, name) == visible_value(t, name) by {
        lemma_last_named_by_names(s, t, s.len() as int, name);
        lemma_last_named(s, s.len() as int, name);
    }
}

/// Logs with the same operations open and close the same spans.
proof fn lemma_same_members(a: Seq<MarkOp>, b: Seq<MarkOp>, id: OpId)
    requires
        forall|op: MarkOp| a.contains(op) <==> b.contains(op),
    ensures
        opened(a, id) ==> opened(b, id),
        closed(a, id) ==> closed(b, id),
{
    if opened(a, id) {
        let i = choose|i: int| 0 <= i < a.len() && opens(#[trigger] a[i], id);
        assert(a.contains(a[i]));
        let j = choose|j: int| 0 <= j < b.len() && b[j] == a[i];
        assert(opens(b[j], id));
    }
    if closed(a, id) {
        let i = choose|i: int| 0 <= i < a.len() && closes(#[trigger] a[i], id);
        assert(a.contains(a[i]));
        let j = choose|j: int| 0 <= j < b.len() && b[j] == a[i];
        assert(closes(b[j], id));
    }
}

} // verus!

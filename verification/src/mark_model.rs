//! The mark state machine as mathematics: the open spans as a sequence, and
//! what opening or closing a span does to them.

use vstd::prelude::*;
use crate::marks::{MarkDataView, MarkView};
use crate::order::OpOrder;
use crate::types::OpId;

verus! {

/// An open span: the operation that opened it, and the mark as it stands.
pub ghost struct Span {
    pub id: OpId,
    pub mark: MarkView,
}

/// What one operation does: the open spans after it, and the range it reports
/// as changed, if any.
pub ghost struct Outcome {
    pub state: Seq<Span>,
    pub delta: Option<MarkView>,
}

/// The spans stand in strictly ascending order of their identifiers.
pub open spec fn sorted<C: OpOrder>(ctx: &C, s: Seq<Span>) -> bool {
    forall|i: int, j: int|
        #![trigger s[i], s[j]]
        0 <= i < j < s.len() ==> ctx.precedes(s[i].id, s[j].id)
}

/// Some open span was opened by `id`.
pub open spec fn has_id(s: Seq<Span>, id: OpId) -> bool {
    exists|i: int| 0 <= i < s.len() && (#[trigger] s[i]).id == id
}

/// How many spans were opened by operations that precede `id`. In sorted
/// state this is where the span of `id` stands, or would stand.
pub open spec fn rank<C: OpOrder>(ctx: &C, s: Seq<Span>, id: OpId) -> nat
    decreases s.len(),
{
    if s.len() == 0 {
        0
    } else {
        rank(ctx, s.drop_last(), id) + if ctx.precedes(s.last().id, id) {
            1nat
        } else {
            0nat
        }
    }
}

/// The first span named `name` at or after index `from`.
pub open spec fn first_named(s: Seq<Span>, from: int, name: Seq<char>) -> Option<int>
    decreases s.len() - from,
{
    if from < 0 || from >= s.len() {
        None
    } else if s[from].mark.name == name {
        Some(from)
    } else {
        first_named(s, from + 1, name)
    }
}

/// The last span named `name` before index `upto`.
pub open spec fn last_named(s: Seq<Span>, upto: int, name: Seq<char>) -> Option<int>
    decreases upto,
{
    if upto <= 0 || upto > s.len() {
        None
    } else if s[upto - 1].mark.name == name {
        Some(upto - 1)
    } else {
        last_named(s, upto - 1, name)
    }
}

/// Where a span that opens at `pos` and takes index `idx` starts: where the
/// nearest span of its name above it starts if that one has the same value;
/// with none above, where the nearest below starts if that one has the same
/// value; else at `pos`.
pub open spec fn begin_start(s: Seq<Span>, idx: int, pos: nat, data: MarkDataView) -> nat {
    match first_named(s, idx, data.name) {
        Some(a) => if s[a].mark.value == data.value {
            s[a].mark.start
        } else {
            pos
        },
        None => match last_named(s, idx, data.name) {
            Some(b) => if s[b].mark.value == data.value {
                s[b].mark.start
            } else {
                pos
            },
            None => pos,
        },
    }
}

/// What opening a span at `pos` with index `idx` reports: with no span of its
/// name above and a span of another value below, that span cut off at `pos`.
pub open spec fn begin_delta(s: Seq<Span>, idx: int, pos: nat, data: MarkDataView) -> Option<
    MarkView,
> {
    match first_named(s, idx, data.name) {
        Some(_) => None,
        None => match last_named(s, idx, data.name) {
            Some(b) => if s[b].mark.value == data.value {
                None
            } else {
                Some(MarkView { end: pos, ..s[b].mark })
            },
            None => None,
        },
    }
}

/// Operation `id` opens a span of `data` at `pos`. An `id` that already has an
/// open span changes nothing.
pub open spec fn begin_outcome<C: OpOrder>(
    ctx: &C,
    s: Seq<Span>,
    id: OpId,
    pos: nat,
    data: MarkDataView,
) -> Outcome {
    if has_id(s, id) {
        Outcome { state: s, delta: None }
    } else {
        let idx = rank(ctx, s, id) as int;
        let mark = MarkView {
            start: begin_start(s, idx, pos, data),
            end: pos,
            name: data.name,
            value: data.value,
        };
        Outcome { state: s.insert(idx, Span { id, mark }), delta: begin_delta(s, idx, pos, data) }
    }
}

/// The span that `id` opened closes at `pos`. With a span of its name above
/// it, or one of the same value below, nothing is reported; else the closed
/// span is, and a span below of another value starts anew at `pos`. An `id`
/// without an open span changes nothing.
pub open spec fn end_outcome<C: OpOrder>(ctx: &C, s: Seq<Span>, id: OpId, pos: nat) -> Outcome {
    if !has_id(s, id) {
        Outcome { state: s, delta: None }
    } else {
        let idx = rank(ctx, s, id) as int;
        let closed = MarkView { end: pos, ..s[idx].mark };
        let rest = s.remove(idx);
        if first_named(rest, idx, closed.name) is Some {
            Outcome { state: rest, delta: None }
        } else {
            match last_named(rest, idx, closed.name) {
                None => Outcome { state: rest, delta: Some(closed) },
                Some(b) => if rest[b].mark.value == closed.value {
                    Outcome { state: rest, delta: None }
                } else {
                    Outcome {
                        state: rest.update(
                            b,
                            Span { id: rest[b].id, mark: MarkView { start: pos, ..rest[b].mark } },
                        ),
                        delta: Some(closed),
                    }
                },
            }
        }
    }
}

/// What a reader is told of a reported range: nothing, if its value is `Null`.
pub open spec fn visible_delta(delta: Option<MarkView>) -> Option<MarkView> {
    match delta {
        Some(m) => if m.value is Null {
            None
        } else {
            Some(m)
        },
        None => None,
    }
}

/// In sorted state, an index that parts the spans preceding `id` from the
/// rest is the rank of `id`.
pub proof fn lemma_rank_at_partition<C: OpOrder>(ctx: &C, s: Seq<Span>, id: OpId, k: int)
    requires
        0 <= k <= s.len(),
        forall|j: int| 0 <= j < k ==> ctx.precedes((#[trigger] s[j]).id, id),
        forall|j: int| k <= j < s.len() ==> !ctx.precedes((#[trigger] s[j]).id, id),
    ensures
        rank(ctx, s, id) == k,
    decreases s.len(),
{
    if s.len() > 0 {
        let t = s.drop_last();
        assert(forall|j: int| 0 <= j < t.len() ==> t[j] == s[j]);
        if k == s.len() {
            lemma_rank_at_partition(ctx, t, id, k - 1);
        } else {
            lemma_rank_at_partition(ctx, t, id, k);
        }
    }
}

/// In sorted state the span of `id`, if there is one, stands at the rank of
/// `id`; and every span before the rank precedes `id`, every span after the
/// span of `id` (or from the rank on, if there is none) follows it.
pub proof fn lemma_rank_in_sorted<C: OpOrder>(ctx: &C, s: Seq<Span>, id: OpId)
    requires
        sorted(ctx, s),
    ensures
        rank(ctx, s, id) <= s.len(),
        has_id(s, id) <==> (rank(ctx, s, id) < s.len() && s[rank(ctx, s, id) as int].id == id),
        forall|j: int| 0 <= j < rank(ctx, s, id) ==> ctx.precedes((#[trigger] s[j]).id, id),
        forall|j: int|
            rank(ctx, s, id) <= j < s.len() ==> (#[trigger] s[j]).id == id || ctx.precedes(
                id,
                s[j].id,
            ),
    decreases s.len(),
{
    if s.len() > 0 {
        let t = s.drop_last();
        let n = s.len() - 1;
        assert(forall|j: int| 0 <= j < t.len() ==> t[j] == s[j]);
        assert(sorted(ctx, t));
        lemma_rank_in_sorted(ctx, t, id);
        ctx.order_is_total(s[n].id, id);
        if ctx.precedes(s[n].id, id) {
            assert forall|j: int| 0 <= j < n implies ctx.precedes((#[trigger] s[j]).id, id) by {
                ctx.order_is_transitive(s[j].id, s[n].id, id);
            }
            lemma_rank_at_partition(ctx, t, id, n);
            assert forall|j: int| 0 <= j < s.len() implies (#[trigger] s[j]).id != id by {
                ctx.order_is_total(s[j].id, id);
            }
        } else {
            if has_id(s, id) {
                let i = choose|i: int| 0 <= i < s.len() && (#[trigger] s[i]).id == id;
                if i < n {
                    assert(t[i].id == id);
                } else {
                    assert forall|j: int| 0 <= j < n implies ctx.precedes(
                        (#[trigger] t[j]).id,
                        id,
                    ) by {
                        assert(ctx.precedes(s[j].id, s[n].id));
                    }
                    assert forall|j: int| 0 <= j < t.len() implies (#[trigger] t[j]).id != id by {
                        ctx.order_is_total(t[j].id, id);
                    }
                    lemma_rank_at_partition(ctx, t, id, n);
                }
            }
            let r = rank(ctx, t, id) as int;
            if r < n && t[r].id == id {
                assert(s[r].id == id);
            }
            assert forall|j: int| r <= j < s.len() implies (#[trigger] s[j]).id == id
                || ctx.precedes(id, s[j].id) by {
                if j < n {
                    assert(t[j].id == id || ctx.precedes(id, t[j].id));
                }
            }
        }
    }
}

/// What `first_named` finds is the first span of the name from `from` on.
pub proof fn lemma_first_named(s: Seq<Span>, from: int, name: Seq<char>)
    requires
        0 <= from,
    ensures
        match first_named(s, from, name) {
            Some(a) => {
                &&& from <= a < s.len()
                &&& s[a].mark.name == name
                &&& forall|j: int| from <= j < a ==> (#[trigger] s[j]).mark.name != name
            },
            None => forall|j: int| from <= j < s.len() ==> (#[trigger] s[j]).mark.name != name,
        },
    decreases s.len() - from,
{
    if from < s.len() && s[from].mark.name != name {
        lemma_first_named(s, from + 1, name);
    }
}

/// What `last_named` finds is the last span of the name before `upto`.
pub proof fn lemma_last_named(s: Seq<Span>, upto: int, name: Seq<char>)
    requires
        upto <= s.len(),
    ensures
        match last_named(s, upto, name) {
            Some(b) => {
                &&& 0 <= b < upto
                &&& s[b].mark.name == name
                &&& forall|j: int| b < j < upto ==> (#[trigger] s[j]).mark.name != name
            },
            None => forall|j: int| 0 <= j < upto ==> (#[trigger] s[j]).mark.name != name,
        },
    decreases upto,
{
    if upto > 0 && s[upto - 1].mark.name != name {
        lemma_last_named(s, upto - 1, name);
    }
}

/// The two spans were opened by the same operation with the same name and
/// value. A span keeps all three for as long as it is open.
pub open spec fn same_payload(x: Span, y: Span) -> bool {
    x.id == y.id && x.mark.name == y.mark.name && x.mark.value == y.mark.value
}

/// In sorted state no two spans were opened by the same operation.
pub proof fn lemma_sorted_ids_differ<C: OpOrder>(ctx: &C, s: Seq<Span>, i: int, j: int)
    requires
        sorted(ctx, s),
        0 <= i < s.len(),
        0 <= j < s.len(),
        i != j,
    ensures
        s[i].id != s[j].id,
{
    ctx.order_is_total(s[i].id, s[j].id);
    if i < j {
        assert(ctx.precedes(s[i].id, s[j].id));
    } else {
        assert(ctx.precedes(s[j].id, s[i].id));
    }
}

/// Opening a span keeps the state sorted, adds the one span and leaves all
/// others as they were.
pub proof fn lemma_begin_outcome<C: OpOrder>(
    ctx: &C,
    s: Seq<Span>,
    id: OpId,
    pos: nat,
    data: MarkDataView,
)
    requires
        sorted(ctx, s),
    ensures
        sorted(ctx, begin_outcome(ctx, s, id, pos, data).state),
        forall|x: OpId|
            has_id(begin_outcome(ctx, s, id, pos, data).state, x) <==> has_id(s, x) || x == id,
        forall|k: int|
            0 <= k < begin_outcome(ctx, s, id, pos, data).state.len() ==> {
                let y = #[trigger] begin_outcome(ctx, s, id, pos, data).state[k];
                ||| exists|k0: int| 0 <= k0 < s.len() && #[trigger] s[k0] == y
                ||| (!has_id(s, id) && y.id == id && y.mark.name == data.name && y.mark.value
                    == data.value && y.mark.end == pos)
            },
{
    let new = begin_outcome(ctx, s, id, pos, data).state;
    if !has_id(s, id) {
        lemma_rank_in_sorted(ctx, s, id);
        let idx = rank(ctx, s, id) as int;
        assert forall|i: int, j: int| 0 <= i < j < new.len() implies ctx.precedes(
            #[trigger] new[i].id,
            #[trigger] new[j].id,
        ) by {
            if i < idx && j > idx {
                assert(ctx.precedes(s[i].id, id));
                assert(s[j - 1].id == id || ctx.precedes(id, s[j - 1].id));
                ctx.order_is_transitive(new[i].id, id, new[j].id);
            } else if i < idx && j < idx {
                assert(ctx.precedes(s[i].id, s[j].id));
            } else if i > idx {
                assert(ctx.precedes(s[i - 1].id, s[j - 1].id));
            } else if i == idx {
                assert(s[j - 1].id == id || ctx.precedes(id, s[j - 1].id));
            } else {
                assert(ctx.precedes(s[i].id, id));
            }
        }
        assert forall|x: OpId| has_id(new, x) <==> has_id(s, x) || x == id by {
            if has_id(new, x) {
                let k = choose|k: int| 0 <= k < new.len() && (#[trigger] new[k]).id == x;
                if k < idx {
                    assert(s[k].id == x);
                } else if k > idx {
                    assert(s[k - 1].id == x);
                }
            }
            if has_id(s, x) {
                let k = choose|k: int| 0 <= k < s.len() && (#[trigger] s[k]).id == x;
                if k < idx {
                    assert(new[k].id == x);
                } else {
                    assert(new[k + 1].id == x);
                }
            }
            if x == id {
                assert(new[idx].id == x);
            }
        }
        assert forall|k: int| 0 <= k < new.len() implies {
            let y = #[trigger] new[k];
            ||| exists|k0: int| 0 <= k0 < s.len() && #[trigger] s[k0] == y
            ||| (!has_id(s, id) && y.id == id && y.mark.name == data.name && y.mark.value
                == data.value && y.mark.end == pos)
        } by {
            if k < idx {
                assert(s[k] == new[k]);
            } else if k > idx {
                assert(s[k - 1] == new[k]);
            }
        }
    } else {
        assert forall|k: int| 0 <= k < new.len() implies {
            let y = #[trigger] new[k];
            ||| exists|k0: int| 0 <= k0 < s.len() && #[trigger] s[k0] == y
            ||| (!has_id(s, id) && y.id == id && y.mark.name == data.name && y.mark.value
                == data.value && y.mark.end == pos)
        } by {
            assert(s[k] == new[k]);
        }
    }
}

/// Closing a span keeps the state sorted, takes the one span away and leaves
/// to all others their operation, name and value.
pub proof fn lemma_end_outcome<C: OpOrder>(ctx: &C, s: Seq<Span>, id: OpId, pos: nat)
    requires
        sorted(ctx, s),
    ensures
        sorted(ctx, end_outcome(ctx, s, id, pos).state),
        forall|x: OpId|
            has_id(end_outcome(ctx, s, id, pos).state, x) <==> has_id(s, x) && x != id,
        forall|k: int|
            0 <= k < end_outcome(ctx, s, id, pos).state.len() ==> exists|k0: int|
                0 <= k0 < s.len() && same_payload(
                    #[trigger] s[k0],
                    #[trigger] end_outcome(ctx, s, id, pos).state[k],
                ),
{
    let new = end_outcome(ctx, s, id, pos).state;
    if has_id(s, id) {
        lemma_rank_in_sorted(ctx, s, id);
        let idx = rank(ctx, s, id) as int;
        let rest = s.remove(idx);
        lemma_last_named(rest, idx, s[idx].mark.name);
        assert(new.len() == rest.len());
        assert forall|k: int| 0 <= k < new.len() implies same_payload(
            #[trigger] new[k],
            rest[k],
        ) by {}
        assert forall|i: int, j: int| 0 <= i < j < new.len() implies ctx.precedes(
            #[trigger] new[i].id,
            #[trigger] new[j].id,
        ) by {
            let i0 = if i < idx { i } else { i + 1 };
            let j0 = if j < idx { j } else { j + 1 };
            assert(same_payload(new[i], rest[i]));
            assert(same_payload(new[j], rest[j]));
            assert(ctx.precedes(s[i0].id, s[j0].id));
        }
        assert forall|x: OpId| has_id(new, x) <==> has_id(s, x) && x != id by {
            if has_id(new, x) {
                let k = choose|k: int| 0 <= k < new.len() && (#[trigger] new[k]).id == x;
                let k0 = if k < idx { k } else { k + 1 };
                assert(same_payload(new[k], rest[k]));
                assert(s[k0].id == x);
                lemma_sorted_ids_differ(ctx, s, k0, idx);
            }
            if has_id(s, x) && x != id {
                let k0 = choose|k: int| 0 <= k < s.len() && (#[trigger] s[k]).id == x;
                let k = if k0 < idx { k0 } else { k0 - 1 };
                assert(same_payload(new[k], rest[k]));
                assert(new[k].id == x);
            }
        }
        assert forall|k: int| 0 <= k < new.len() implies exists|k0: int|
            0 <= k0 < s.len() && same_payload(#[trigger] s[k0], #[trigger] new[k]) by {
            let k0 = if k < idx { k } else { k + 1 };
            assert(same_payload(new[k], rest[k]));
            assert(same_payload(s[k0], new[k]));
        }
    } else {
        assert forall|k: int| 0 <= k < new.len() implies exists|k0: int|
            0 <= k0 < s.len() && same_payload(#[trigger] s[k0], #[trigger] new[k]) by {
            assert(same_payload(s[k], new[k]));
        }
    }
}

} // verus!

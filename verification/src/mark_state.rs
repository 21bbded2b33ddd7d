//! The mark state machine: the spans that are open at one point of a walk
//! through a sequence, kept in the order of the operations that opened them.

use vstd::prelude::*;
use crate::mark_model::{
    begin_outcome, end_outcome, first_named, has_id, last_named, lemma_rank_at_partition,
    lemma_rank_in_sorted, rank, sorted, visible_delta, Span,
};
use crate::marks::{Mark, MarkData, MarkView};
use crate::order::OpOrder;
use crate::types::OpId;

verus! {

/// The open spans of a sequence. Each begin operation opens one and the end
/// operation that follows it closes it; both report the range of the sequence
/// whose visible mark changes thereby.
#[derive(Debug)]
pub struct MarkStateMachine<'a> {
    state: Vec<(OpId, Mark<'a>)>,
}

/// The spans that the entries stand for.
pub open spec fn spans_of<'a>(v: Seq<(OpId, Mark<'a>)>) -> Seq<Span> {
    v.map_values(|e: (OpId, Mark<'a>)| Span { id: e.0, mark: e.1@ })
}

/// The mark that a reported range stands for.
pub open spec fn delta_of<'a>(r: Option<Mark<'a>>) -> Option<MarkView> {
    match r {
        Some(m) => Some(m@),
        None => None,
    }
}

impl<'a> View for MarkStateMachine<'a> {
    type V = Seq<Span>;

    closed spec fn view(&self) -> Seq<Span> {
        spans_of(self.state@)
    }
}

impl<'a> Default for MarkStateMachine<'a> {
    fn default() -> (r: Self)
        ensures
            r@ == Seq::<Span>::empty(),
    {
        let r = MarkStateMachine { state: Vec::new() };
        assert(r@ =~= Seq::<Span>::empty());
        r
    }
}

impl<'a> MarkStateMachine<'a> {
    /// The machine holds its spans in the order of `ctx`.
    pub open spec fn wf<C: OpOrder>(&self, ctx: &C) -> bool {
        sorted(ctx, self@)
    }

    /// A machine without open spans. It is in order under every order.
    pub fn new() -> (r: Self)
        ensures
            r@ == Seq::<Span>::empty(),
    {
        let r = MarkStateMachine { state: Vec::new() };
        assert(r@ =~= Seq::<Span>::empty());
        r
    }

    /// Whether the machine holds its spans in the order of `ctx`, as every
    /// operation asks and leaves it.
    pub fn in_order<C: OpOrder>(&self, ctx: &C) -> (r: bool)
        ensures
            r == self.wf(ctx),
    {
        let ghost s = self@;
        let mut i: usize = 1;
        while i < self.state.len()
            invariant
                s == self@,
                s.len() == self.state.len(),
                1 <= i,
                forall|a: int, b: int|
                    #![trigger s[a], s[b]]
                    0 <= a < b < i && b < s.len() ==> ctx.precedes(s[a].id, s[b].id),
            decreases self.state.len() - i,
        {
            assert(s[i - 1].id == self.state[i - 1].0 && s[i as int].id == self.state[i as int].0);
            if !ctx.less(self.state[i - 1].0, self.state[i].0) {
                assert(!ctx.precedes(s[i - 1].id, s[i as int].id));
                return false;
            }
            proof {
                assert forall|a: int, b: int|
                    #![trigger s[a], s[b]]
                    0 <= a < b < i + 1 && b < s.len() implies ctx.precedes(s[a].id, s[b].id) by {
                    if b == i && a < i - 1 {
                        assert(ctx.precedes(s[a].id, s[i - 1].id));
                        ctx.order_is_transitive(s[a].id, s[i - 1].id, s[i as int].id);
                    }
                }
            }
            i += 1;
        }
        true
    }

    /// The number of open spans.
    pub fn len(&self) -> (r: usize)
        ensures
            r == self@.len(),
    {
        self.state.len()
    }

    /// The `i`-th open span in the order of the operations: who opened it, and
    /// the mark as it stands.
    pub fn get(&self, i: usize) -> (r: Option<(OpId, &Mark<'a>)>)
        ensures
            match r {
                Some(e) => i < self@.len() && e.0 == self@[i as int].id && e.1@
                    == self@[i as int].mark,
                None => i >= self@.len(),
            },
    {
        if i < self.state.len() {
            Some((self.state[i].0, &self.state[i].1))
        } else {
            None
        }
    }

    /// Opens a span of `data` at `pos` for operation `id`, and reports the
    /// range whose visible mark changes, unless that range carries `Null`.
    pub fn mark_begin<C: OpOrder>(
        &mut self,
        id: OpId,
        pos: usize,
        data: &'a MarkData,
        ctx: &C,
    ) -> (r: Option<Mark<'a>>)
        requires
            old(self).wf(ctx),
        ensures
            final(self).wf(ctx),
            final(self)@ == begin_outcome(ctx, old(self)@, id, pos as nat, data@).state,
            delta_of(r) == visible_delta(
                begin_outcome(ctx, old(self)@, id, pos as nat, data@).delta,
            ),
            r matches Some(m) ==> !(m@.value is Null),
    {
        match self.mark_or_unmark_begin(id, pos, data, ctx) {
            Some(m) => if m.is_null() {
                None
            } else {
                Some(m)
            },
            None => None,
        }
    }

    /// Opens a span of `data` at `pos` for operation `id`, and reports the
    /// range whose visible mark changes, whatever it carries.
    pub fn mark_or_unmark_begin<C: OpOrder>(
        &mut self,
        id: OpId,
        pos: usize,
        data: &'a MarkData,
        ctx: &C,
    ) -> (r: Option<Mark<'a>>)
        requires
            old(self).wf(ctx),
        ensures
            final(self).wf(ctx),
            final(self)@ == begin_outcome(ctx, old(self)@, id, pos as nat, data@).state,
            delta_of(r) == begin_outcome(ctx, old(self)@, id, pos as nat, data@).delta,
    {
        let mut result = None;
        let index = match self.find(id, ctx) {
            Ok(_) => {
                return None;
            },
            Err(i) => i,
        };

        let mut mark = Mark::from_data(pos, pos, data);

        match self.mark_above(index, &mark) {
            Some(a) => {
                if self.state[a].1.same_value(&mark) {
                    mark.start = self.state[a].1.start;
                }
            },
            None => match self.mark_below(index, &mark) {
                Some(b) => {
                    if self.state[b].1.same_value(&mark) {
                        mark.start = self.state[b].1.start;
                    } else {
                        let mut m = self.state[b].1.clone();
                        m.end = pos;
                        result = Some(m);
                    }
                },
                None => {},
            },
        }

        let ghost before = self@;
        let ghost span = Span { id, mark: mark@ };
        self.state.insert(index, (id, mark));
        proof {
            assert(self@ =~= before.insert(index as int, span));
            assert forall|i: int, j: int| 0 <= i < j < self@.len() implies ctx.precedes(
                #[trigger] self@[i].id,
                #[trigger] self@[j].id,
            ) by {
                if i < index && j > index {
                    ctx.order_is_transitive(self@[i].id, id, self@[j].id);
                }
            }
        }
        result
    }

    /// Closes the span that the operation before `id` opened, at `pos`, and
    /// reports the range whose visible mark changes, unless that range carries
    /// `Null`.
    pub fn mark_end<C: OpOrder>(&mut self, id: OpId, pos: usize, ctx: &C) -> (r: Option<Mark<'a>>)
        requires
            old(self).wf(ctx),
            id.counter > 0,
        ensures
            final(self).wf(ctx),
            final(self)@ == end_outcome(ctx, old(self)@, id.prev(), pos as nat).state,
            delta_of(r) == visible_delta(end_outcome(ctx, old(self)@, id.prev(), pos as nat).delta),
            r matches Some(m) ==> !(m@.value is Null),
    {
        match self.mark_or_unmark_end(id, pos, ctx) {
            Some(m) => if m.is_null() {
                None
            } else {
                Some(m)
            },
            None => None,
        }
    }

    /// Closes the span that the operation before `id` opened, at `pos`, and
    /// reports the range whose visible mark changes, whatever it carries.
    pub fn mark_or_unmark_end<C: OpOrder>(&mut self, id: OpId, pos: usize, ctx: &C) -> (r: Option<
        Mark<'a>,
    >)
        requires
            old(self).wf(ctx),
            id.counter > 0,
        ensures
            final(self).wf(ctx),
            final(self)@ == end_outcome(ctx, old(self)@, id.prev(), pos as nat).state,
            delta_of(r) == end_outcome(ctx, old(self)@, id.prev(), pos as nat).delta,
    {
        let index = match self.find(id.prev(), ctx) {
            Ok(i) => i,
            Err(_) => {
                return None;
            },
        };

        let ghost before = self@;
        let mut mark = self.state.remove(index).1;
        mark.end = pos;
        proof {
            assert(self@ =~= before.remove(index as int));
            assert(sorted(ctx, self@));
        }

        if self.mark_above(index, &mark).is_none() {
            match self.mark_below(index, &mark) {
                Some(b) => {
                    if self.state[b].1.same_value(&mark) {
                        None
                    } else {
                        let ghost rest = self@;
                        self.state[b].1.start = pos;
                        proof {
                            let span = Span {
                                id: rest[b as int].id,
                                mark: MarkView { start: pos as nat, ..rest[b as int].mark },
                            };
                            assert(self@ =~= rest.update(b as int, span));
                            assert forall|i: int, j: int| 0 <= i < j < self@.len() implies
                                ctx.precedes(#[trigger] self@[i].id, #[trigger] self@[j].id) by {
                                assert(ctx.precedes(rest[i].id, rest[j].id));
                            }
                        }
                        Some(mark)
                    }
                },
                None => Some(mark),
            }
        } else {
            None
        }
    }

    /// Where the span of `target` stands (`Ok`), or where it would have to be
    /// put (`Err`).
    fn find<C: OpOrder>(&self, target: OpId, ctx: &C) -> (r: Result<usize, usize>)
        requires
            self.wf(ctx),
        ensures
            r is Ok <==> has_id(self@, target),
            match r {
                Ok(i) => i < self@.len() && self@[i as int].id == target && i == rank(
                    ctx,
                    self@,
                    target,
                ),
                Err(i) => {
                    &&& i <= self@.len()
                    &&& i == rank(ctx, self@, target)
                    &&& forall|j: int| 0 <= j < i ==> ctx.precedes((#[trigger] self@[j]).id, target)
                    &&& forall|j: int|
                        i <= j < self@.len() ==> ctx.precedes(target, (#[trigger] self@[j]).id)
                },
            },
    {
        let ghost s = self@;
        proof {
            lemma_rank_in_sorted(ctx, s, target);
        }
        let mut lo: usize = 0;
        let mut hi: usize = self.state.len();
        while lo < hi
            invariant
                s == self@,
                sorted(ctx, s),
                lo <= hi <= s.len(),
                s.len() == self.state.len(),
                forall|j: int| 0 <= j < lo ==> ctx.precedes((#[trigger] s[j]).id, target),
                forall|j: int| hi <= j < s.len() ==> ctx.precedes(target, (#[trigger] s[j]).id),
            decreases hi - lo,
        {
            let mid = lo + (hi - lo) / 2;
            let probe = self.state[mid].0;
            assert(s[mid as int].id == probe);
            if probe == target {
                proof {
                    lemma_rank_in_sorted(ctx, s, target);
                    ctx.order_is_total(target, target);
                    let k = rank(ctx, s, target) as int;
                    if k < mid {
                        assert(ctx.precedes(s[k].id, s[mid as int].id));
                        ctx.order_is_total(s[k].id, target);
                    } else if k > mid {
                        assert(ctx.precedes(s[mid as int].id, target));
                    }
                }
                return Ok(mid);
            } else if ctx.less(probe, target) {
                proof {
                    assert forall|j: int| 0 <= j < mid + 1 implies ctx.precedes(
                        (#[trigger] s[j]).id,
                        target,
                    ) by {
                        if j < mid {
                            assert(ctx.precedes(s[j].id, s[mid as int].id));
                            ctx.order_is_transitive(s[j].id, probe, target);
                        }
                    }
                }
                lo = mid + 1;
            } else {
                proof {
                    ctx.order_is_total(probe, target);
                    assert forall|j: int| mid <= j < s.len() implies ctx.precedes(
                        target,
                        (#[trigger] s[j]).id,
                    ) by {
                        if j > mid {
                            assert(ctx.precedes(s[mid as int].id, s[j].id));
                            ctx.order_is_transitive(target, probe, s[j].id);
                        }
                    }
                }
                hi = mid;
            }
        }
        proof {
            assert forall|j: int| 0 <= j < s.len() implies (#[trigger] s[j]).id != target by {
                ctx.order_is_total(s[j].id, target);
            }
            assert forall|j: int| lo <= j < s.len() implies !ctx.precedes(
                (#[trigger] s[j]).id,
                target,
            ) by {
                ctx.order_is_total(s[j].id, target);
            }
            lemma_rank_at_partition(ctx, s, target, lo as int);
        }
        Err(lo)
    }

    /// The first span of the name of `mark` at or after `index`.
    fn mark_above(&self, index: usize, mark: &Mark<'a>) -> (r: Option<usize>)
        requires
            index <= self@.len(),
        ensures
            match r {
                Some(a) => first_named(self@, index as int, mark@.name) == Some(a as int) && index
                    <= a < self@.len(),
                None => first_named(self@, index as int, mark@.name) is None,
            },
    {
        let mut i = index;
        while i < self.state.len()
            invariant
                index <= i <= self@.len(),
                self@.len() == self.state.len(),
                first_named(self@, index as int, mark@.name) == first_named(
                    self@,
                    i as int,
                    mark@.name,
                ),
            decreases self.state.len() - i,
        {
            assert(self@[i as int].mark == self.state[i as int].1@);
            if self.state[i].1.same_name(mark) {
                return Some(i);
            }
            i += 1;
        }
        None
    }

    /// The last span of the name of `mark` before `index`.
    fn mark_below(&self, index: usize, mark: &Mark<'a>) -> (r: Option<usize>)
        requires
            index <= self@.len(),
        ensures
            match r {
                Some(b) => last_named(self@, index as int, mark@.name) == Some(b as int) && b
                    < index,
                None => last_named(self@, index as int, mark@.name) is None,
            },
    {
        let mut i = index;
        while i > 0
            invariant
                i <= index <= self@.len(),
                self@.len() == self.state.len(),
                last_named(self@, index as int, mark@.name) == last_named(
                    self@,
                    i as int,
                    mark@.name,
                ),
            decreases i,
        {
            assert(self@[i - 1].mark == self.state[i - 1].1@);
            if self.state[i - 1].1.same_name(mark) {
                return Some(i - 1);
            }
            i -= 1;
        }
        None
    }
}

} // verus!

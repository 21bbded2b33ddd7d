//! Marks of different names do not touch each other: what an operation does
//! to the spans of one name depends on the spans of that name alone.

use vstd::prelude::*;
use crate::mark_model::{
    begin_delta, begin_outcome, begin_start, end_outcome, first_named, has_id, last_named,
    lemma_first_named, lemma_last_named, lemma_rank_at_partition, lemma_rank_in_sorted,
    lemma_sorted_ids_differ, rank, sorted, Span,
};
use crate::marks::{MarkDataView, MarkView};
use crate::order::OpOrder;
use crate::types::OpId;

verus! {

/// The spans called `name`.
pub open spec fn has_name(name: Seq<char>) -> spec_fn(Span) -> bool {
    |x: Span| x.mark.name == name
}

/// The spans of `s` that are called `name`, in their order.
pub open spec fn named(s: Seq<Span>, name: Seq<char>) -> Seq<Span> {
    s.filter(has_name(name))
}

/// What a filter keeps are members of the sequence that pass it.
proof fn lemma_filter_members(s: Seq<Span>, p: spec_fn(Span) -> bool)
    ensures
        forall|i: int|
            0 <= i < s.filter(p).len() ==> p(#[trigger] s.filter(p)[i]) && s.contains(
                s.filter(p)[i],
            ),
    decreases s.len(),
{
    reveal(Seq::filter);
    if s.len() > 0 {
        let t = s.drop_last();
        let f = s.filter(p);
        lemma_filter_members(t, p);
        assert forall|i: int| 0 <= i < f.len() implies p(#[trigger] f[i]) && s.contains(f[i]) by {
            if p(s.last()) && i == f.len() - 1 {
                assert(s[s.len() - 1] == f[i]);
            } else {
                assert(f[i] == t.filter(p)[i]);
                assert(t.contains(t.filter(p)[i]));
                let j = choose|j: int| 0 <= j < t.len() && t[j] == t.filter(p)[i];
                assert(s[j] == f[i]);
            }
        }
    }
}

/// A filter that no member passes keeps nothing.
proof fn lemma_filter_none(s: Seq<Span>, p: spec_fn(Span) -> bool)
    requires
        forall|j: int| 0 <= j < s.len() ==> !p(#[trigger] s[j]),
    ensures
        s.filter(p).len() == 0,
    decreases s.len(),
{
    reveal(Seq::filter);
    if s.len() > 0 {
        let t = s.drop_last();
        assert(forall|j: int| 0 <= j < t.len() ==> t[j] == s[j]);
        lemma_filter_none(t, p);
    }
}

/// A filter keeps a single passing member as it is.
proof fn lemma_filter_one(x: Span, p: spec_fn(Span) -> bool)
    ensures
        seq![x].filter(p) == if p(x) {
            seq![x]
        } else {
            Seq::<Span>::empty()
        },
{
    reveal(Seq::filter);
    let s = seq![x];
    assert(s.drop_last() =~= Seq::<Span>::empty());
    assert(s.drop_last().filter(p) =~= Seq::<Span>::empty());
    assert(s.last() == x);
    if p(x) {
        assert(Seq::<Span>::empty().push(x) =~= seq![x]);
    }
}

/// The first member that passes a filter is the first that the filter keeps.
proof fn lemma_filter_first(s: Seq<Span>, p: spec_fn(Span) -> bool, a: int)
    requires
        0 <= a < s.len(),
        p(s[a]),
        forall|j: int| 0 <= j < a ==> !p(#[trigger] s[j]),
    ensures
        s.filter(p).len() > 0,
        s.filter(p)[0] == s[a],
    decreases s.len(),
{
    reveal(Seq::filter);
    let t = s.drop_last();
    assert(forall|j: int| 0 <= j < t.len() ==> t[j] == s[j]);
    if a == s.len() - 1 {
        lemma_filter_none(t, p);
    } else {
        lemma_filter_first(t, p, a);
    }
}

/// The last member that passes a filter is the last that the filter keeps,
/// and to replace it by another that passes replaces it in what is kept.
proof fn lemma_filter_last(s: Seq<Span>, p: spec_fn(Span) -> bool, b: int, y: Span)
    requires
        0 <= b < s.len(),
        p(s[b]),
        p(y),
        forall|j: int| b < j < s.len() ==> !p(#[trigger] s[j]),
    ensures
        s.filter(p).len() > 0,
        s.filter(p).last() == s[b],
        s.update(b, y).filter(p) == s.filter(p).update(s.filter(p).len() - 1, y),
    decreases s.len(),
{
    reveal(Seq::filter);
    let t = s.drop_last();
    assert(forall|j: int| 0 <= j < t.len() ==> t[j] == s[j]);
    if b == s.len() - 1 {
        assert(s.update(b, y).drop_last() =~= t);
        assert(s.update(b, y).filter(p) =~= s.filter(p).update(s.filter(p).len() - 1, y));
    } else {
        lemma_filter_last(t, p, b, y);
        assert(s.update(b, y).drop_last() =~= t.update(b, y));
    }
}

/// To replace a member that fails a filter by another that fails it leaves
/// what the filter keeps as it was.
proof fn lemma_filter_update_outside(s: Seq<Span>, p: spec_fn(Span) -> bool, b: int, y: Span)
    requires
        0 <= b < s.len(),
        !p(s[b]),
        !p(y),
    ensures
        s.update(b, y).filter(p) == s.filter(p),
    decreases s.len(),
{
    reveal(Seq::filter);
    let t = s.drop_last();
    if b == s.len() - 1 {
        assert(s.update(b, y).drop_last() =~= t);
    } else {
        lemma_filter_update_outside(t, p, b, y);
        assert(s.update(b, y).drop_last() =~= t.update(b, y));
    }
}

/// In sorted state, the spans of one name before the rank of `id` and those
/// from the rank on are the two parts of the spans of that name, and the
/// first part's length is the rank of `id` among them.
proof fn lemma_named_parts<C: OpOrder>(ctx: &C, s: Seq<Span>, id: OpId, name: Seq<char>)
    requires
        sorted(ctx, s),
    ensures
        rank(ctx, s, id) <= s.len(),
        named(s, name) == named(s.take(rank(ctx, s, id) as int), name) + named(
            s.skip(rank(ctx, s, id) as int),
            name,
        ),
        rank(ctx, named(s, name), id) == named(s.take(rank(ctx, s, id) as int), name).len(),
        has_id(named(s, name), id) ==> has_id(s, id),
{
    let p = has_name(name);
    let f = named(s, name);
    lemma_rank_in_sorted(ctx, s, id);
    let idx = rank(ctx, s, id) as int;
    let l = s.take(idx);
    let r = s.skip(idx);
    assert(s =~= l + r);
    Seq::filter_distributes_over_add(l, r, p);
    let fl = l.filter(p);
    let fr = r.filter(p);
    lemma_filter_members(l, p);
    lemma_filter_members(r, p);
    lemma_filter_members(s, p);
    assert forall|j: int| 0 <= j < fl.len() implies ctx.precedes((#[trigger] f[j]).id, id) by {
        assert(f[j] == fl[j]);
        assert(l.contains(fl[j]));
        let k = choose|k: int| 0 <= k < l.len() && l[k] == fl[j];
        assert(s[k] == l[k]);
    }
    assert forall|j: int| fl.len() <= j < f.len() implies !ctx.precedes(
        (#[trigger] f[j]).id,
        id,
    ) by {
        assert(f[j] == fr[j - fl.len()]);
        assert(r.contains(fr[j - fl.len()]));
        let k = choose|k: int| 0 <= k < r.len() && r[k] == fr[j - fl.len()];
        assert(s[idx + k] == r[k]);
        ctx.order_is_total(s[idx + k].id, id);
    }
    lemma_rank_at_partition(ctx, f, id, fl.len() as int);
    if has_id(f, id) {
        let j = choose|j: int| 0 <= j < f.len() && (#[trigger] f[j]).id == id;
        assert(s.contains(f[j]));
        let k = choose|k: int| 0 <= k < s.len() && s[k] == f[j];
        assert(s[k].id == id);
    }
}

/// What the nearest spans of a name around an index are is the same among
/// all spans as among the spans of that name alone.
proof fn lemma_named_neighbours(s: Seq<Span>, idx: int, name: Seq<char>)
    requires
        0 <= idx <= s.len(),
    ensures
        ({
            let f = named(s, name);
            let at = named(s.take(idx), name).len() as int;
            &&& f == named(s.take(idx), name) + named(s.skip(idx), name)
            &&& match first_named(s, idx, name) {
                Some(a) => first_named(f, at, name) == Some(at) && at < f.len() && f[at] == s[a],
                None => first_named(f, at, name) is None && at == f.len(),
            }
            &&& match last_named(s, idx, name) {
                Some(b) => last_named(f, at, name) == Some(at - 1) && at > 0 && f[at - 1] == s[b],
                None => last_named(f, at, name) is None && at == 0,
            }
        }),
{
    let p = has_name(name);
    let f = named(s, name);
    let l = s.take(idx);
    let r = s.skip(idx);
    assert(s =~= l + r);
    Seq::filter_distributes_over_add(l, r, p);
    let fl = l.filter(p);
    let fr = r.filter(p);
    let at = fl.len() as int;
    lemma_first_named(s, idx, name);
    lemma_last_named(s, idx, name);
    lemma_filter_members(s, p);
    match first_named(s, idx, name) {
        Some(a) => {
            assert(r[a - idx] == s[a]);
            assert forall|j: int| 0 <= j < a - idx implies !p(#[trigger] r[j]) by {
                assert(r[j] == s[idx + j]);
            }
            lemma_filter_first(r, p, a - idx);
            assert(f[at] == fr[0]);
        },
        None => {
            assert forall|j: int| 0 <= j < r.len() implies !p(#[trigger] r[j]) by {
                assert(r[j] == s[idx + j]);
            }
            lemma_filter_none(r, p);
        },
    }
    match last_named(s, idx, name) {
        Some(b) => {
            assert(l[b] == s[b]);
            assert forall|j: int| b < j < l.len() implies !p(#[trigger] l[j]) by {
                assert(l[j] == s[j]);
            }
            lemma_filter_last(l, p, b, s[b]);
            assert(f[at - 1] == fl[at - 1]);
            assert(p(f[at - 1]));
        },
        None => {
            assert forall|j: int| 0 <= j < l.len() implies !p(#[trigger] l[j]) by {
                assert(l[j] == s[j]);
            }
            lemma_filter_none(l, p);
        },
    }
}

/// Name isolation, for a begin operation. What it reports and the span that
/// it opens are the same whether the machine holds spans of other names or
/// not, and it leaves the spans of every other name as they were.
pub proof fn lemma_begin_name_isolation<C: OpOrder>(
    ctx: &C,
    s: Seq<Span>,
    id: OpId,
    pos: nat,
    data: MarkDataView,
    other: Seq<char>,
)
    requires
        sorted(ctx, s),
        forall|k: int| 0 <= k < s.len() && (#[trigger] s[k]).id == id ==> s[k].mark.name == data.name,
    ensures
        begin_outcome(ctx, named(s, data.name), id, pos, data).delta == begin_outcome(
            ctx,
            s,
            id,
            pos,
            data,
        ).delta,
        begin_outcome(ctx, named(s, data.name), id, pos, data).state == named(
            begin_outcome(ctx, s, id, pos, data).state,
            data.name,
        ),
        other != data.name ==> named(begin_outcome(ctx, s, id, pos, data).state, other) == named(
            s,
            other,
        ),
{
    let p = has_name(data.name);
    let q = has_name(other);
    let f = named(s, data.name);
    lemma_named_parts(ctx, s, id, data.name);
    if has_id(s, id) {
        let k = choose|k: int| 0 <= k < s.len() && (#[trigger] s[k]).id == id;
        s.lemma_filter_contains(p, k);
        let j = choose|j: int| 0 <= j < f.len() && f[j] == s[k];
        assert(f[j].id == id);
    } else {
        let idx = rank(ctx, s, id) as int;
        let l = s.take(idx);
        let r = s.skip(idx);
        let at = named(l, data.name).len() as int;
        lemma_named_neighbours(s, idx, data.name);
        assert(begin_start(f, at, pos, data) == begin_start(s, idx, pos, data));
        assert(begin_delta(f, at, pos, data) == begin_delta(s, idx, pos, data));
        let span = Span {
            id,
            mark: MarkView {
                start: begin_start(s, idx, pos, data),
                end: pos,
                name: data.name,
                value: data.value,
            },
        };
        assert(s.insert(idx, span) =~= (l + seq![span]) + r);
        Seq::filter_distributes_over_add(l + seq![span], r, p);
        Seq::filter_distributes_over_add(l, seq![span], p);
        lemma_filter_one(span, p);
        assert(f.insert(at, span) =~= (l.filter(p) + seq![span]) + r.filter(p));
        if other != data.name {
            Seq::filter_distributes_over_add(l + seq![span], r, q);
            Seq::filter_distributes_over_add(l, seq![span], q);
            lemma_filter_one(span, q);
            assert(s =~= l + r);
            Seq::filter_distributes_over_add(l, r, q);
            assert(l.filter(q) + Seq::<Span>::empty() =~= l.filter(q));
        }
    }
}

/// Name isolation, for an end operation. The spans of each name after it are
/// what it makes of the spans of that name alone, and what it reports is what
/// it would report if only the spans of the closed span's name were there.
pub proof fn lemma_end_name_isolation<C: OpOrder>(
    ctx: &C,
    s: Seq<Span>,
    id: OpId,
    pos: nat,
    name: Seq<char>,
)
    requires
        sorted(ctx, s),
    ensures
        named(end_outcome(ctx, s, id, pos).state, name) == end_outcome(
            ctx,
            named(s, name),
            id,
            pos,
        ).state,
        !has_id(s, id) || s[rank(ctx, s, id) as int].mark.name == name ==> end_outcome(
            ctx,
            named(s, name),
            id,
            pos,
        ).delta == end_outcome(ctx, s, id, pos).delta,
{
    let p = has_name(name);
    let f = named(s, name);
    lemma_named_parts(ctx, s, id, name);
    lemma_rank_in_sorted(ctx, s, id);
    if has_id(s, id) {
        let idx = rank(ctx, s, id) as int;
        let x = s[idx];
        let n = x.mark.name;
        let l = s.take(idx);
        let r1 = s.skip(idx + 1);
        let rest = s.remove(idx);
        let closed = MarkView { end: pos, ..x.mark };
        assert(s =~= (l + seq![x]) + r1);
        assert(rest =~= l + r1);
        assert(rest.take(idx) =~= l);
        assert(rest.skip(idx) =~= r1);
        Seq::filter_distributes_over_add(l + seq![x], r1, p);
        Seq::filter_distributes_over_add(l, seq![x], p);
        Seq::filter_distributes_over_add(l, r1, p);
        lemma_filter_one(x, p);
        let fl = l.filter(p);
        let at = fl.len() as int;
        lemma_last_named(rest, idx, n);
        if name == n {
            assert(f =~= (fl + seq![x]) + r1.filter(p));
            assert(f[at] == x);
            let g = f.remove(at);
            assert(g =~= fl + r1.filter(p));
            assert(g == named(rest, name));
            lemma_named_neighbours(rest, idx, name);
            if first_named(rest, idx, name) is None {
                match last_named(rest, idx, name) {
                    Some(b) => {
                        if rest[b].mark.value != closed.value {
                            let y = Span {
                                id: rest[b].id,
                                mark: MarkView { start: pos, ..rest[b].mark },
                            };
                            assert(l[b] == rest[b]);
                            assert forall|j: int| b < j < l.len() implies !p(#[trigger] l[j]) by {
                                assert(l[j] == rest[j]);
                            }
                            lemma_filter_last(l, p, b, y);
                            assert(rest.update(b, y) =~= l.update(b, y) + r1);
                            Seq::filter_distributes_over_add(l.update(b, y), r1, p);
                            assert(g.update(at - 1, y) =~= fl.update(at - 1, y) + r1.filter(p));
                        }
                    },
                    None => {},
                }
            }
        } else {
            assert(f =~= fl + r1.filter(p)) by {
                assert(fl + Seq::<Span>::empty() =~= fl);
            }
            if has_id(f, id) {
                lemma_filter_members(s, p);
                let j = choose|j: int| 0 <= j < f.len() && (#[trigger] f[j]).id == id;
                assert(s.contains(f[j]));
                let k = choose|k: int| 0 <= k < s.len() && s[k] == f[j];
                if k != idx {
                    lemma_sorted_ids_differ(ctx, s, k, idx);
                }
                assert(false);
            }
            if first_named(rest, idx, n) is None {
                match last_named(rest, idx, n) {
                    Some(b) => {
                        let y = Span {
                            id: rest[b].id,
                            mark: MarkView { start: pos, ..rest[b].mark },
                        };
                        lemma_filter_update_outside(rest, p, b, y);
                    },
                    None => {},
                }
            }
        }
    }
}

} // verus!

//! The two phases agree: when a batch is evaluated on a book with an empty
//! shadow and its instructions are then applied, every instruction is carried
//! out, and the book ends as the shadow said it would.

use crate::laws::{
    lemma_match_conserves,
    lemma_rank_bounds,
    lemma_side_quantity_nonnegative,
    lemma_step_keeps_ok,
    side_quantity,
};
use crate::level::{lemma_sum_insert, lemma_sum_remove, lemma_sum_update, sum_remaining};
use crate::model::{
    crosses,
    distinct_ids,
    effective,
    fill_instructions,
    has_id,
    id_index,
    run_match,
    take_from,
    BookView,
    InstructionView,
    Matching,
    OperationView,
};
use crate::order::OrderView;
use crate::side::rank;
use vstd::prelude::*;

verus! {

/// The resting order with this identifier, if the book has one.
pub open spec fn resting(book: BookView, id: Seq<char>) -> OrderView {
    if has_id(book.bids, id) {
        book.bids[id_index(book.bids, id)]
    } else {
        book.asks[id_index(book.asks, id)]
    }
}

/// An order is found under its identifier.
pub proof fn lemma_found(orders: Seq<OrderView>, k: int)
    requires
        distinct_ids(orders),
        0 <= k < orders.len(),
    ensures
        has_id(orders, orders[k].id),
        id_index(orders, orders[k].id) == k,
{
    let j = id_index(orders, orders[k].id);
    assert(orders[k].id == orders[k].id);
}

/// Taking an order out of a side leaves the other orders to be found as
/// before.
pub proof fn lemma_side_without(orders: Seq<OrderView>, k: int, id: Seq<char>)
    requires
        distinct_ids(orders),
        0 <= k < orders.len(),
    ensures
        id == orders[k].id ==> !has_id(orders.remove(k), id),
        id != orders[k].id ==> has_id(orders.remove(k), id) == has_id(orders, id),
        id != orders[k].id && has_id(orders, id) ==> orders.remove(k)[id_index(
            orders.remove(k),
            id,
        )] == orders[id_index(orders, id)],
{
    let rest = orders.remove(k);
    if has_id(rest, id) {
        let j = id_index(rest, id);
        let j0 = if j < k {
            j
        } else {
            j + 1
        };
        assert(rest[j] == orders[j0]);
        lemma_found(orders, j0);
    }
    if id != orders[k].id && has_id(orders, id) {
        let i = id_index(orders, id);
        let i1 = if i < k {
            i
        } else {
            i - 1
        };
        assert(rest[i1] == orders[i]);
    }
}

/// Replacing an order by one with the same identifier leaves the other orders
/// to be found as before.
pub proof fn lemma_side_with(orders: Seq<OrderView>, k: int, o: OrderView, id: Seq<char>)
    requires
        distinct_ids(orders),
        0 <= k < orders.len(),
        o.id == orders[k].id,
    ensures
        has_id(orders.update(k, o), id) == has_id(orders, id),
        id == o.id ==> orders.update(k, o)[id_index(orders.update(k, o), id)] == o,
        id != o.id && has_id(orders, id) ==> orders.update(k, o)[id_index(
            orders.update(k, o),
            id,
        )] == orders[id_index(orders, id)],
{
    let changed = orders.update(k, o);
    assert forall|a: int, b: int|
        0 <= a < changed.len() && 0 <= b < changed.len() && a != b implies (
    #[trigger] changed[a]).id != (#[trigger] changed[b]).id by {
        assert(orders[a].id != orders[b].id);
    }
    if has_id(changed, id) {
        let j = id_index(changed, id);
        assert(orders[j].id == id);
        lemma_found(orders, j);
    }
    if has_id(orders, id) {
        let i = id_index(orders, id);
        assert(changed[i].id == id);
        lemma_found(changed, i);
    }
}

/// Placing a new order on a side leaves the other orders to be found as
/// before.
pub proof fn lemma_side_grown(orders: Seq<OrderView>, k: int, o: OrderView, id: Seq<char>)
    requires
        distinct_ids(orders),
        !has_id(orders, o.id),
        0 <= k <= orders.len(),
    ensures
        has_id(orders.insert(k, o), o.id),
        orders.insert(k, o)[id_index(orders.insert(k, o), o.id)] == o,
        id != o.id ==> has_id(orders.insert(k, o), id) == has_id(orders, id),
        id != o.id && has_id(orders, id) ==> orders.insert(k, o)[id_index(
            orders.insert(k, o),
            id,
        )] == orders[id_index(orders, id)],
{
    let grown = orders.insert(k, o);
    assert(grown[k] == o);
    assert forall|a: int, b: int|
        0 <= a < grown.len() && 0 <= b < grown.len() && a != b implies (#[trigger] grown[a]).id != (
    #[trigger] grown[b]).id by {
        let a0 = if a < k {
            a
        } else {
            a - 1
        };
        let b0 = if b < k {
            b
        } else {
            b - 1
        };
        if a != k && b != k {
            assert(grown[a] == orders[a0]);
            assert(grown[b] == orders[b0]);
            assert(orders[a0].id != orders[b0].id);
        } else if a == k {
            assert(grown[b] == orders[b0]);
        } else {
            assert(grown[a] == orders[a0]);
        }
    }
    lemma_found(grown, k);
    if id != o.id && has_id(grown, id) {
        let j = id_index(grown, id);
        let j0 = if j < k {
            j
        } else {
            j - 1
        };
        assert(grown[j] == orders[j0]);
        lemma_found(orders, j0);
    }
    if id != o.id && has_id(orders, id) {
        let i = id_index(orders, id);
        let i1 = if i < k {
            i
        } else {
            i + 1
        };
        assert(grown[i1] == orders[i]);
        lemma_found(grown, i1);
    }
}

/// Whether two books hold the same orders, but perhaps for the order with the
/// identifier `id`.
pub open spec fn same_elsewhere(a: BookView, b: BookView, id: Seq<char>) -> bool {
    forall|other: Seq<char>|
        other != id ==> (#[trigger] b.rests(other)) == a.rests(other) && (a.rests(other)
            ==> resting(b, other) == resting(a, other))
}

/// What a fill that can be carried out does: it fills the order, or takes it
/// out of the book if nothing remains of it, and touches no other order.
pub proof fn lemma_fill_effect(book: BookView, id: Seq<char>, quantity: u64)
    requires
        book.ok(),
        book.rests(id),
        quantity <= resting(book, id).remaining,
    ensures
        book.fill(id, quantity).ok(),
        book.fill(id, quantity).shadow == book.shadow,
        same_elsewhere(book, book.fill(id, quantity), id),
        quantity == resting(book, id).remaining ==> !book.fill(id, quantity).rests(id),
        quantity < resting(book, id).remaining ==> book.fill(id, quantity).rests(id) && resting(
            book.fill(id, quantity),
            id,
        ) == resting(book, id).filled(quantity),
        sum_remaining(book.fill(id, quantity).bids) <= sum_remaining(book.bids),
        sum_remaining(book.fill(id, quantity).asks) <= sum_remaining(book.asks),
{
    let next = book.fill(id, quantity);
    lemma_step_keeps_ok(book, InstructionView::Fill(id, quantity));
    if has_id(book.bids, id) {
        let k = id_index(book.bids, id);
        let filled = book.bids[k].filled(quantity);
        lemma_found(book.bids, k);
        lemma_sum_remove(book.bids, k);
        lemma_sum_update(book.bids, k, filled);
        assert(!has_id(book.asks, id)) by {
            if has_id(book.asks, id) {
                assert(book.bids[k].id != book.asks[id_index(book.asks, id)].id);
            }
        }
        assert forall|other: Seq<char>| other != id implies (#[trigger] next.rests(other))
            == book.rests(other) && (book.rests(other) ==> resting(next, other) == resting(
            book,
            other,
        )) by {
            lemma_side_without(book.bids, k, other);
            lemma_side_with(book.bids, k, filled, other);
        }
        lemma_side_without(book.bids, k, id);
        lemma_side_with(book.bids, k, filled, id);
    } else {
        let k = id_index(book.asks, id);
        let filled = book.asks[k].filled(quantity);
        lemma_found(book.asks, k);
        lemma_sum_remove(book.asks, k);
        lemma_sum_update(book.asks, k, filled);
        assert forall|other: Seq<char>| other != id implies (#[trigger] next.rests(other))
            == book.rests(other) && (book.rests(other) ==> resting(next, other) == resting(
            book,
            other,
        )) by {
            lemma_side_without(book.asks, k, other);
            lemma_side_with(book.asks, k, filled, other);
        }
        lemma_side_without(book.asks, k, id);
        lemma_side_with(book.asks, k, filled, id);
    }
}

/// What a delete does: it takes the order out of the book, if it rests there,
/// and touches no other order.
pub proof fn lemma_delete_effect(book: BookView, id: Seq<char>)
    requires
        book.ok(),
    ensures
        book.delete(id).ok(),
        book.delete(id).shadow == book.shadow,
        same_elsewhere(book, book.delete(id), id),
        !book.delete(id).rests(id),
        sum_remaining(book.delete(id).bids) <= sum_remaining(book.bids),
        sum_remaining(book.delete(id).asks) <= sum_remaining(book.asks),
{
    let next = book.delete(id);
    lemma_step_keeps_ok(book, InstructionView::Delete(id));
    if has_id(book.bids, id) {
        let k = id_index(book.bids, id);
        lemma_found(book.bids, k);
        lemma_sum_remove(book.bids, k);
        assert(!has_id(book.asks, id)) by {
            if has_id(book.asks, id) {
                assert(book.bids[k].id != book.asks[id_index(book.asks, id)].id);
            }
        }
        assert forall|other: Seq<char>| other != id implies (#[trigger] next.rests(other))
            == book.rests(other) && (book.rests(other) ==> resting(next, other) == resting(
            book,
            other,
        )) by {
            lemma_side_without(book.bids, k, other);
        }
        lemma_side_without(book.bids, k, id);
    } else if has_id(book.asks, id) {
        let k = id_index(book.asks, id);
        lemma_found(book.asks, k);
        lemma_sum_remove(book.asks, k);
        assert forall|other: Seq<char>| other != id implies (#[trigger] next.rests(other))
            == book.rests(other) && (book.rests(other) ==> resting(next, other) == resting(
            book,
            other,
        )) by {
            lemma_side_without(book.asks, k, other);
        }
        lemma_side_without(book.asks, k, id);
    }
}

/// What an insert that can be carried out does: the order rests in the book
/// with the given quantity remaining, and no other order is touched.
pub proof fn lemma_insert_effect(book: BookView, o: OrderView, remaining: u64)
    requires
        book.ok(),
        book.can_insert(o, remaining),
    ensures
        book.insert(o, remaining).ok(),
        book.insert(o, remaining).shadow == book.shadow,
        same_elsewhere(book, book.insert(o, remaining), o.id),
        book.insert(o, remaining).rests(o.id),
        resting(book.insert(o, remaining), o.id) == (OrderView { remaining, ..o }),
        sum_remaining(book.insert(o, remaining).side(o.is_buy)) == sum_remaining(
            book.side(o.is_buy),
        ) + remaining,
        book.insert(o, remaining).side(!o.is_buy) == book.side(!o.is_buy),
{
    let next = book.insert(o, remaining);
    let placed = OrderView { remaining, ..o };
    let side = book.side(o.is_buy);
    let k = rank(side, o.is_buy, o.price);
    lemma_step_keeps_ok(book, InstructionView::Insert(o, remaining));
    lemma_rank_bounds(side, o.is_buy, o.price);
    lemma_sum_insert(side, k, placed);
    assert forall|other: Seq<char>| other != o.id implies (#[trigger] next.rests(other))
        == book.rests(other) && (book.rests(other) ==> resting(next, other) == resting(
        book,
        other,
    )) by {
        lemma_side_grown(side, k, placed, other);
    }
    lemma_side_grown(side, k, placed, o.id);
}

/// Whether a later book holds of the order with the identifier `id` what the
/// shadow says of it: no such order if the shadow says that nothing remains;
/// the order with that much remaining if the shadow says how much; and what the
/// earlier book holds if the shadow says nothing.
pub open spec fn agrees_on(
    before: BookView,
    after: BookView,
    shadow: Map<Seq<char>, u64>,
    id: Seq<char>,
) -> bool {
    if shadow.contains_key(id) {
        if shadow[id] == 0 {
            !after.rests(id)
        } else {
            &&& after.rests(id)
            &&& resting(after, id).remaining == shadow[id]
            &&& before.rests(id) ==> resting(after, id) == (OrderView {
                remaining: shadow[id],
                ..resting(before, id)
            })
        }
    } else {
        &&& after.rests(id) == before.rests(id)
        &&& before.rests(id) ==> resting(after, id) == resting(before, id)
    }
}

/// Whether a later book holds of every order what the shadow says of it.
pub open spec fn agrees(before: BookView, after: BookView, shadow: Map<Seq<char>, u64>) -> bool {
    forall|id: Seq<char>| #[trigger] agrees_on(before, after, shadow, id)
}

/// Whether a later book holds of every order, but perhaps of the one with the
/// identifier `x`, what the shadow says of it.
pub open spec fn agrees_but(
    before: BookView,
    after: BookView,
    shadow: Map<Seq<char>, u64>,
    x: Seq<char>,
) -> bool {
    forall|id: Seq<char>| id != x ==> #[trigger] agrees_on(before, after, shadow, id)
}

/// Carrying out a list of instructions and then one more is carrying out the
/// longer list.
pub proof fn lemma_steps_push(
    book: BookView,
    instructions: Seq<InstructionView>,
    last: InstructionView,
)
    ensures
        book.steps(instructions.push(last)) == book.steps(instructions).step(last),
    decreases instructions.len(),
{
    let longer = instructions.push(last);
    if instructions.len() == 0 {
        reveal_with_fuel(BookView::steps, 2);
        assert(longer.drop_first() =~= Seq::empty());
    } else {
        assert(longer[0] == instructions[0]);
        assert(longer.drop_first() =~= instructions.drop_first().push(last));
        lemma_steps_push(book.step(instructions[0]), instructions.drop_first(), last);
    }
}

/// Carrying out two lists of instructions one after the other is carrying out
/// the two laid end to end.
pub proof fn lemma_steps_concat(
    book: BookView,
    first: Seq<InstructionView>,
    second: Seq<InstructionView>,
)
    ensures
        book.steps(first + second) == book.steps(first).steps(second),
    decreases first.len(),
{
    if first.len() == 0 {
        assert(first + second =~= second);
    } else {
        assert((first + second)[0] == first[0]);
        assert((first + second).drop_first() =~= first.drop_first() + second);
        lemma_steps_concat(book.step(first[0]), first.drop_first(), second);
    }
}

/// The instructions do to the resting orders what they do whatever the shadow
/// holds.
pub proof fn lemma_steps_ignore_shadow(
    book: BookView,
    shadow: Map<Seq<char>, u64>,
    instructions: Seq<InstructionView>,
)
    ensures
        book.with_shadow(shadow).steps(instructions) == book.steps(instructions).with_shadow(shadow),
    decreases instructions.len(),
{
    if instructions.len() > 0 {
        let i = instructions[0];
        assert(book.with_shadow(shadow).step(i) == book.step(i).with_shadow(shadow));
        lemma_steps_ignore_shadow(book.step(i), shadow, instructions.drop_first());
        lemma_steps_keep_shadow(book, instructions);
        lemma_steps_keep_shadow(book.step(i), instructions.drop_first());
    } else {
    }
}

/// The instructions leave the shadow as it is.
pub proof fn lemma_steps_keep_shadow(book: BookView, instructions: Seq<InstructionView>)
    ensures
        book.steps(instructions).shadow == book.shadow,
    decreases instructions.len(),
{
    if instructions.len() > 0 {
        lemma_steps_keep_shadow(book.step(instructions[0]), instructions.drop_first());
    }
}

/// The fills of a matching are carried out as the matching staged them.
///
/// The makers rest in the book `before`, on which the matching is evaluated.
/// The fills are applied to a later book, `base`, which agrees with the shadow
/// of the matching but perhaps on the order `x`, which is no maker. Then every
/// fill finds its maker with at least that much remaining, and the book after
/// the fills agrees with the shadow after the matching.
proof fn lemma_match_agrees(
    before: BookView,
    base: BookView,
    makers: Seq<OrderView>,
    state: Matching,
    is_buy: bool,
    limit: u64,
    x: Seq<char>,
)
    requires
        before.ok(),
        base.steps(fill_instructions(state.fills)).ok(),
        agrees_but(before, base.steps(fill_instructions(state.fills)), state.shadow, x),
        forall|k: int|
            0 <= k < makers.len() ==> {
                &&& before.rests((#[trigger] makers[k]).id)
                &&& resting(before, makers[k].id) == makers[k]
                &&& makers[k].id != x
            },
    ensures
        ({
            let end = run_match(makers, state, is_buy, limit);
            let cur = base.steps(fill_instructions(state.fills));
            let next = base.steps(fill_instructions(end.fills));
            &&& next.ok()
            &&& agrees_but(before, next, end.shadow, x)
            &&& next.rests(x) == cur.rests(x)
            &&& cur.rests(x) ==> resting(next, x) == resting(cur, x)
            &&& end.shadow.contains_key(x) == state.shadow.contains_key(x)
            &&& sum_remaining(next.bids) <= sum_remaining(cur.bids)
            &&& sum_remaining(next.asks) <= sum_remaining(cur.asks)
        }),
    decreases makers.len(),
{
    let cur = base.steps(fill_instructions(state.fills));
    if makers.len() == 0 || !crosses(is_buy, limit, makers[0].price) {
    } else {
        let m = makers[0];
        let rest = makers.drop_first();
        assert forall|k: int| 0 <= k < rest.len() implies {
            &&& before.rests((#[trigger] rest[k]).id)
            &&& resting(before, rest[k].id) == rest[k]
            &&& rest[k].id != x
        } by {
            assert(rest[k] == makers[k + 1]);
        }
        let available = effective(state.shadow, m);
        if available == 0 {
            lemma_match_agrees(before, base, rest, state, is_buy, limit, x);
        } else {
            let after = take_from(state, m);
            let take = (state.remaining - after.remaining) as u64;
            assert(agrees_on(before, cur, state.shadow, m.id));
            assert(cur.rests(m.id));
            assert(resting(cur, m.id) == (OrderView { remaining: available, ..m }));
            assert(fill_instructions(after.fills) =~= fill_instructions(state.fills).push(
                InstructionView::Fill(m.id, take),
            ));
            lemma_steps_push(
                base,
                fill_instructions(state.fills),
                InstructionView::Fill(m.id, take),
            );
            lemma_fill_effect(cur, m.id, take);
            let next = cur.fill(m.id, take);
            assert(next == base.steps(fill_instructions(after.fills)));
            assert forall|id: Seq<char>| id != x implies #[trigger] agrees_on(
                before,
                next,
                after.shadow,
                id,
            ) by {
                assert(agrees_on(before, cur, state.shadow, id));
                if id != m.id {
                    assert(next.rests(id) == cur.rests(id));
                }
            }
            assert(next.rests(x) == cur.rests(x));
            if after.remaining != 0 {
                lemma_match_agrees(before, base, rest, after, is_buy, limit, x);
            }
        }
    }
}

/// The instructions of an evaluated insert are carried out as the evaluation
/// staged them: applied to a book that agrees with the shadow before the
/// evaluation, they leave a book that agrees with the shadow after it.
pub proof fn lemma_insert_agrees(
    before: BookView,
    cur: BookView,
    shadow: Map<Seq<char>, u64>,
    o: OrderView,
)
    requires
        before.ok(),
        cur.ok(),
        agrees(before, cur, shadow),
        o.remaining <= o.quantity,
        sum_remaining(cur.side(o.is_buy)) + o.quantity <= u64::MAX,
    ensures
        ({
            let e = before.with_shadow(shadow).eval_insert(o);
            let next = cur.steps(e.instructions);
            &&& next.ok()
            &&& agrees(before, next, e.book.shadow)
            &&& e.book == before.with_shadow(e.book.shadow)
            &&& sum_remaining(next.side(o.is_buy)) <= sum_remaining(cur.side(o.is_buy))
                + o.quantity
            &&& sum_remaining(next.side(!o.is_buy)) <= sum_remaining(cur.side(!o.is_buy))
        }),
{
    let book = before.with_shadow(shadow);
    let e = book.eval_insert(o);
    reveal_with_fuel(BookView::steps, 2);
    if book.rests(o.id) || shadow.contains_key(o.id) {
        assert(e.instructions.drop_first() =~= Seq::empty());
    } else {
        let makers = before.side(!o.is_buy);
        let start = Matching { remaining: o.remaining, fills: Seq::empty(), shadow };
        let end = run_match(makers, start, o.is_buy, o.price);
        let fills = fill_instructions(end.fills);
        lemma_match_conserves(makers, start, o.is_buy, o.price);
        assert(fill_instructions(start.fills) =~= Seq::empty());
        assert(agrees_on(before, cur, shadow, o.id));
        assert forall|k: int| 0 <= k < makers.len() implies {
            &&& before.rests((#[trigger] makers[k]).id)
            &&& resting(before, makers[k].id) == makers[k]
            &&& makers[k].id != o.id
        } by {
            lemma_found(makers, k);
            if !o.is_buy {
            } else {
                // The makers are asks: no bid has the identifier of one.
                if has_id(before.bids, makers[k].id) {
                    let j = id_index(before.bids, makers[k].id);
                    assert(before.bids[j].id != before.asks[k].id);
                }
            }
        }
        if end.remaining > 0 {
            let first = seq![InstructionView::Insert(o, end.remaining)];
            assert(e.instructions == first + fills);
            assert((first + fills)[0] == InstructionView::Insert(o, end.remaining));
            assert((first + fills).drop_first() =~= fills);
            assert(cur.can_insert(o, end.remaining));
            lemma_insert_effect(cur, o, end.remaining);
            let base = cur.insert(o, end.remaining);
            assert forall|id: Seq<char>| id != o.id implies #[trigger] agrees_on(
                before,
                base,
                shadow,
                id,
            ) by {
                assert(agrees_on(before, cur, shadow, id));
                assert(base.rests(id) == cur.rests(id));
            }
            lemma_match_agrees(before, base, makers, start, o.is_buy, o.price, o.id);
            let next = base.steps(fills);
            assert(next == cur.steps(e.instructions));
            assert forall|id: Seq<char>| #[trigger]
                agrees_on(before, next, e.book.shadow, id) by {
                if id != o.id {
                    assert(agrees_on(before, next, end.shadow, id));
                }
            }
        } else {
            assert(e.instructions == fills);
            assert forall|id: Seq<char>| id != o.id implies #[trigger] agrees_on(
                before,
                cur,
                shadow,
                id,
            ) by {}
            lemma_match_agrees(before, cur, makers, start, o.is_buy, o.price, o.id);
            let next = cur.steps(fills);
            assert forall|id: Seq<char>| #[trigger]
                agrees_on(before, next, e.book.shadow, id) by {
                if id != o.id {
                    assert(agrees_on(before, next, end.shadow, id));
                }
            }
        }
    }
}

/// The instruction of an evaluated cancel is carried out as the evaluation
/// staged it.
pub proof fn lemma_cancel_agrees(
    before: BookView,
    cur: BookView,
    shadow: Map<Seq<char>, u64>,
    id: Seq<char>,
)
    requires
        before.ok(),
        cur.ok(),
        agrees(before, cur, shadow),
    ensures
        ({
            let e = before.with_shadow(shadow).eval_cancel(id);
            let next = cur.steps(seq![e.0]);
            &&& next.ok()
            &&& agrees(before, next, e.1.shadow)
            &&& e.1 == before.with_shadow(e.1.shadow)
            &&& sum_remaining(next.bids) <= sum_remaining(cur.bids)
            &&& sum_remaining(next.asks) <= sum_remaining(cur.asks)
        }),
{
    let e = before.with_shadow(shadow).eval_cancel(id);
    reveal_with_fuel(BookView::steps, 2);
    assert(seq![e.0].drop_first() =~= Seq::empty());
    if before.rests(id) {
        lemma_delete_effect(cur, id);
        let next = cur.delete(id);
        assert forall|other: Seq<char>| #[trigger]
            agrees_on(before, next, e.1.shadow, other) by {
            assert(agrees_on(before, cur, shadow, other));
            if other != id {
                assert(next.rests(other) == cur.rests(other));
            }
        }
    }
}

/// Whether every order that a batch inserts has no more unfilled than it was
/// created with.
pub open spec fn sound_orders(operations: Seq<OperationView>) -> bool {
    forall|k: int|
        0 <= k < operations.len() ==> match #[trigger] operations[k] {
            OperationView::Insert(o) => o.remaining <= o.quantity,
            OperationView::Cancel(_) => true,
        }
}

/// The instructions of an evaluated batch are carried out as the evaluation
/// staged them: applied to a book that agrees with the shadow before the
/// evaluation, they leave a book that agrees with the shadow after it.
pub proof fn lemma_eval_agrees(
    before: BookView,
    cur: BookView,
    shadow: Map<Seq<char>, u64>,
    operations: Seq<OperationView>,
)
    requires
        before.ok(),
        cur.ok(),
        agrees(before, cur, shadow),
        sound_orders(operations),
        sum_remaining(cur.bids) + side_quantity(operations, true) <= u64::MAX,
        sum_remaining(cur.asks) + side_quantity(operations, false) <= u64::MAX,
    ensures
        ({
            let batch = before.with_shadow(shadow).eval(operations);
            let next = cur.steps(batch.instructions);
            &&& next.ok()
            &&& agrees(before, next, batch.book.shadow)
        }),
    decreases operations.len(),
{
    let book = before.with_shadow(shadow);
    if operations.len() > 0 {
        let first = book.eval_one(operations[0]);
        let rest = operations.drop_first();
        let later = first.book.eval(rest);
        lemma_side_quantity_nonnegative(rest, true);
        lemma_side_quantity_nonnegative(rest, false);
        assert forall|k: int| 0 <= k < rest.len() implies match #[trigger] rest[k] {
            OperationView::Insert(o) => o.remaining <= o.quantity,
            OperationView::Cancel(_) => true,
        } by {
            assert(rest[k] == operations[k + 1]);
        }
        match operations[0] {
            OperationView::Insert(o) => {
                lemma_insert_agrees(before, cur, shadow, o);
            },
            OperationView::Cancel(id) => {
                lemma_cancel_agrees(before, cur, shadow, id);
            },
        }
        let next = cur.steps(first.instructions);
        lemma_steps_concat(cur, first.instructions, later.instructions);
        lemma_eval_agrees(before, next, first.book.shadow, rest);
    }
}

/// The two phases agree. When a batch is evaluated on a book with an empty
/// shadow, and its instructions are then applied, every instruction is carried
/// out: the book ends as the shadow said it would. An order of which the
/// shadow says that nothing remains does not rest in the book; an order of
/// which the shadow says how much remains rests there with that much
/// remaining; and every other order rests as it did before, if it did.
///
/// The orders that the batch inserts must have no more unfilled than they were
/// created with, and the totals of the sides must have room for them.
pub proof fn lemma_batch_carried_out(book: BookView, operations: Seq<OperationView>)
    requires
        book.ok(),
        book.shadow == Map::<Seq<char>, u64>::empty(),
        sound_orders(operations),
        sum_remaining(book.bids) + side_quantity(operations, true) <= u64::MAX,
        sum_remaining(book.asks) + side_quantity(operations, false) <= u64::MAX,
    ensures
        ({
            let batch = book.eval(operations);
            let after = batch.book.apply(batch.instructions);
            &&& after.ok()
            &&& agrees(book, after, batch.book.shadow)
        }),
{
    let batch = book.eval(operations);
    assert(book.with_shadow(book.shadow) == book);
    assert forall|id: Seq<char>| #[trigger] agrees_on(book, book, book.shadow, id) by {}
    lemma_eval_agrees(book, book, book.shadow, operations);
    crate::laws::lemma_eval_keeps_resting(book, operations);
    assert(batch.book == book.with_shadow(batch.book.shadow));
    lemma_steps_ignore_shadow(book, batch.book.shadow, batch.instructions);
    let next = book.steps(batch.instructions);
    let after = batch.book.apply(batch.instructions);
    assert(after.bids == next.bids);
    assert(after.asks == next.asks);
    assert forall|id: Seq<char>| #[trigger]
        agrees_on(book, after, batch.book.shadow, id) by {
        assert(agrees_on(book, next, batch.book.shadow, id));
    }
}

} // verus!

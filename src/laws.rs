//! What holds of whole poll calls, stated over the transitions that the
//! methods of `Mux` are specified by.
use vstd::prelude::*;

use crate::model::{MuxModel, Outcome, Verdict};
use vstd::multiset::Multiset;
use vstd::seq_lib::lemma_multiset_commutative;

verus! {

broadcast use {
    vstd::seq_lib::group_to_multiset_ensures,
    vstd::multiset::group_multiset_axioms,
    vstd::multiset::group_multiset_properties,
};

/// One whole poll call from `m`, in which each source polled answers
/// `answer(source)` and the caller's handle is `w`: the new state and what
/// the call reports.
pub open spec fn call<S, W, T>(m: MuxModel<S, W>, answer: spec_fn(S) -> Outcome<T>, w: W) -> (
    MuxModel<S, W>,
    Verdict<T>,
)
    decreases m.queue.len(),
{
    if m.queue.len() == 0 {
        (m.finished(w), if m.completes() {
            Verdict::Complete
        } else {
            Verdict::Pending
        })
    } else {
        let s = m.queue[0];
        let next = m.taken().recorded(s, answer(s));
        match answer(s) {
            Outcome::Item(t) => (next, Verdict::Item(t)),
            _ => call(next, answer, w),
        }
    }
}

/// A call reports completion exactly when every source it finds reports
/// exhaustion, and then no source remains.
pub proof fn lemma_no_premature_completion<S, W, T>(
    m: MuxModel<S, W>,
    answer: spec_fn(S) -> Outcome<T>,
    w: W,
)
    ensures
        call(m, answer, w).1 is Complete <==> (m.bucket.len() == 0 && forall|i: int|
            0 <= i < m.queue.len() ==> answer(#[trigger] m.queue[i]) is Exhausted),
        call(m, answer, w).1 is Complete ==> call(m, answer, w).0.sources().len() == 0,
    decreases m.queue.len(),
{
    if m.queue.len() > 0 {
        let s = m.queue[0];
        let next = m.taken().recorded(s, answer(s));
        match answer(s) {
            Outcome::Exhausted => {
                lemma_no_premature_completion(next, answer, w);
                assert forall|i: int| 0 <= i < next.queue.len() implies #[trigger] next.queue[i]
                    == m.queue[i + 1] by {}
                if m.bucket.len() == 0 && forall|i: int|
                    0 <= i < next.queue.len() ==> answer(#[trigger] next.queue[i]) is Exhausted {
                    assert forall|i: int| 0 <= i < m.queue.len() implies answer(
                        #[trigger] m.queue[i],
                    ) is Exhausted by {
                        if i > 0 {
                            assert(m.queue[i] == next.queue[i - 1]);
                        }
                    }
                }
                if m.bucket.len() == 0 && forall|i: int|
                    0 <= i < m.queue.len() ==> answer(#[trigger] m.queue[i]) is Exhausted {
                    assert forall|i: int| 0 <= i < next.queue.len() implies answer(
                        #[trigger] next.queue[i],
                    ) is Exhausted by {
                        assert(next.queue[i] == m.queue[i + 1]);
                    }
                }
            },
            Outcome::Pending => {
                lemma_no_premature_completion(next, answer, w);
                assert(next.bucket.len() > 0);
            },
            Outcome::Item(_) => {},
        }
    }
}

/// A call yields at most one item, however many sources are ready: the
/// winner is the first source whose answer is an item, none after it is
/// polled, those stay in front in their order, and the winner goes last.
/// Returns the winner's place in the queue.
pub proof fn lemma_single_item<S, W, T>(
    m: MuxModel<S, W>,
    answer: spec_fn(S) -> Outcome<T>,
    w: W,
) -> (i: int)
    ensures
        call(m, answer, w).1 is Item ==> {
            let (after, verdict) = call(m, answer, w);
            &&& 0 <= i < m.queue.len()
            &&& answer(m.queue[i]) == Outcome::Item(verdict->Item_0)
            &&& forall|j: int| 0 <= j < i ==> !(answer(#[trigger] m.queue[j]) is Item)
            &&& after.bucket.len() == 0
            &&& after.wakers == m.wakers
            &&& after.queue.len() >= m.queue.len() - i
            &&& after.queue.subrange(0, m.queue.len() - i - 1) == m.queue.subrange(
                i + 1,
                m.queue.len() as int,
            )
            &&& after.queue.last() == m.queue[i]
        },
    decreases m.queue.len(),
{
    if m.queue.len() == 0 {
        0
    } else {
        let s = m.queue[0];
        let next = m.taken().recorded(s, answer(s));
        match answer(s) {
            Outcome::Item(_) => {
                let after = call(m, answer, w).0;
                assert(after.queue.subrange(0, m.queue.len() - 1) =~= m.queue.subrange(
                    1,
                    m.queue.len() as int,
                ));
                0
            },
            _ => {
                let k = lemma_single_item(next, answer, w);
                if call(m, answer, w).1 is Item {
                    assert forall|j: int| 0 <= j < k + 1 implies !(answer(
                        #[trigger] m.queue[j],
                    ) is Item) by {
                        if j > 0 {
                            assert(m.queue[j] == next.queue[j - 1]);
                        }
                    }
                    assert(m.queue.subrange(k + 2, m.queue.len() as int) =~= next.queue.subrange(
                        k + 1,
                        next.queue.len() as int,
                    ));
                }
                k + 1
            },
        }
    }
}

/// A call registers the caller's handle exactly when it reports pending, and
/// leaves the earlier handles as they were.
pub proof fn lemma_call_wakers<S, W, T>(m: MuxModel<S, W>, answer: spec_fn(S) -> Outcome<T>, w: W)
    ensures
        call(m, answer, w).0.wakers == if call(m, answer, w).1 is Pending {
            m.wakers.push(w)
        } else {
            m.wakers
        },
    decreases m.queue.len(),
{
    if m.queue.len() > 0 {
        let s = m.queue[0];
        let next = m.taken().recorded(s, answer(s));
        if !(answer(s) is Item) {
            lemma_call_wakers(next, answer, w);
        }
    }
}

/// The state after successive poll calls from `m`, the call number `k`
/// meeting the answers `answers[k]` and the caller's handle `ws[k]`.
pub open spec fn run<S, W, T>(
    m: MuxModel<S, W>,
    answers: Seq<spec_fn(S) -> Outcome<T>>,
    ws: Seq<W>,
) -> MuxModel<S, W>
    decreases ws.len(),
{
    if ws.len() == 0 || answers.len() == 0 {
        m
    } else {
        call(run(m, answers.drop_last(), ws.drop_last()), answers.last(), ws.last()).0
    }
}

/// After any number of calls that each reported pending, with no `add` in
/// between, every handle they registered is still held, in order, and the
/// next `add` hands all of them back for waking.
pub proof fn lemma_wake_completeness<S, W, T>(
    m: MuxModel<S, W>,
    answers: Seq<spec_fn(S) -> Outcome<T>>,
    ws: Seq<W>,
    s: S,
)
    requires
        answers.len() == ws.len(),
        forall|k: int|
            0 <= k < ws.len() ==> (#[trigger] call(
                run(m, answers.take(k), ws.take(k)),
                answers[k],
                ws[k],
            )).1 is Pending,
    ensures
        run(m, answers, ws).wakers == m.wakers + ws,
        run(m, answers, ws).added(s).wakers.len() == 0,
    decreases ws.len(),
{
    if ws.len() > 0 {
        let n = ws.len() - 1;
        let a0 = answers.drop_last();
        let w0 = ws.drop_last();
        assert forall|k: int| 0 <= k < w0.len() implies (#[trigger] call(
            run(m, a0.take(k), w0.take(k)),
            a0[k],
            w0[k],
        )).1 is Pending by {
            assert(a0.take(k) == answers.take(k));
            assert(w0.take(k) == ws.take(k));
            assert(call(run(m, answers.take(k), ws.take(k)), answers[k], ws[k]).1 is Pending);
        }
        lemma_wake_completeness(m, a0, w0, s);
        assert(answers.take(n) == a0);
        assert(ws.take(n) == w0);
        assert(call(run(m, answers.take(n), ws.take(n)), answers[n], ws[n]).1 is Pending);
        lemma_call_wakers(run(m, a0, w0), answers.last(), ws.last());
        assert(m.wakers + ws =~= (m.wakers + w0).push(ws.last()));
    } else {
        assert(m.wakers + ws =~= m.wakers);
    }
}

/// Two sources that are both always ready are served in turn: from the queue
/// `[a, b]` a call yields the item of `a` and leaves `[b, a]`; the next yields
/// the item of `b` and leaves `[a, b]` again.
pub proof fn lemma_round_robin<S, W, T>(
    m: MuxModel<S, W>,
    first: spec_fn(S) -> Outcome<T>,
    second: spec_fn(S) -> Outcome<T>,
    w1: W,
    w2: W,
    a: S,
    b: S,
)
    requires
        m.queue == seq![a, b],
        m.bucket.len() == 0,
        first(a) is Item,
        first(b) is Item,
        second(a) is Item,
        second(b) is Item,
    ensures
        call(m, first, w1).1 == Verdict::Item(first(a)->Item_0),
        call(m, first, w1).0.queue == seq![b, a],
        call(call(m, first, w1).0, second, w2).1 == Verdict::Item(second(b)->Item_0),
        call(call(m, first, w1).0, second, w2).0.queue == seq![a, b],
{
    let m1 = call(m, first, w1).0;
    assert(m1.queue =~= seq![b, a]);
    assert(call(m1, second, w2).0.queue =~= seq![a, b]);
}

/// How a source answers when `left(source)` is what it has still to produce:
/// its next item, or exhaustion once nothing is left.
pub open spec fn scripted<S, T>(left: spec_fn(S) -> Seq<T>) -> spec_fn(S) -> Outcome<T> {
    |s: S|
        if left(s).len() > 0 {
            Outcome::Item(left(s)[0])
        } else {
            Outcome::Exhausted
        }
}

/// What is left to produce once the source `s` has yielded its next item.
pub open spec fn advance<S, T>(left: spec_fn(S) -> Seq<T>, s: S) -> spec_fn(S) -> Seq<T> {
    |x: S|
        if x == s {
            left(s).drop_first()
        } else {
            left(x)
        }
}

/// Every item the sources of `q` have still to produce.
pub open spec fn owed<S, T>(q: Seq<S>, left: spec_fn(S) -> Seq<T>) -> Multiset<T>
    decreases q.len(),
{
    if q.len() == 0 {
        Multiset::empty()
    } else {
        left(q[0]).to_multiset().add(owed(q.drop_first(), left))
    }
}

/// One for each source of `q` and one for each item it has still to produce.
pub open spec fn weight<S, T>(q: Seq<S>, left: spec_fn(S) -> Seq<T>) -> nat
    decreases q.len(),
{
    if q.len() == 0 {
        0
    } else {
        left(q[0]).len() + 1 + weight(q.drop_first(), left)
    }
}

/// Polling up to `n` times over sources that answer from their scripts,
/// stopping at completion: the state reached, what is left of the scripts,
/// the items yielded in order, whether completion was reported, and the
/// source that yielded each item.
pub open spec fn drain<S, W, T>(
    m: MuxModel<S, W>,
    left: spec_fn(S) -> Seq<T>,
    w: W,
    n: nat,
) -> (MuxModel<S, W>, spec_fn(S) -> Seq<T>, Seq<T>, bool, Seq<S>)
    decreases n,
{
    if n == 0 {
        (m, left, Seq::empty(), false, Seq::empty())
    } else {
        let (after, verdict) = call(m, scripted(left), w);
        match verdict {
            Verdict::Item(t) => {
                let x = after.queue.last();
                let rest = drain(after, advance(left, x), w, (n - 1) as nat);
                (rest.0, rest.1, seq![t] + rest.2, rest.3, seq![x] + rest.4)
            },
            Verdict::Complete => (after, left, Seq::empty(), true, Seq::empty()),
            Verdict::Pending => (after, left, Seq::empty(), false, Seq::empty()),
        }
    }
}

/// The items of `items` that the source `x` yielded, in order, where
/// `from[k]` is the source that yielded `items[k]`.
pub open spec fn yielded_by<S, T>(from: Seq<S>, items: Seq<T>, x: S) -> Seq<T>
    decreases from.len(),
{
    if from.len() == 0 || items.len() == 0 {
        Seq::empty()
    } else if from[0] == x {
        seq![items[0]] + yielded_by(from.drop_first(), items.drop_first(), x)
    } else {
        yielded_by(from.drop_first(), items.drop_first(), x)
    }
}

proof fn lemma_scripted_call<S, W, T>(m: MuxModel<S, W>, left: spec_fn(S) -> Seq<T>, w: W) -> (i: int)
    requires
        m.bucket.len() == 0,
    ensures
        ({
            let (after, verdict) = call(m, scripted(left), w);
            if forall|j: int| 0 <= j < m.queue.len() ==> (#[trigger] left(m.queue[j])).len() == 0 {
                verdict is Complete
            } else {
                &&& 0 <= i < m.queue.len()
                &&& forall|j: int| 0 <= j < i ==> (#[trigger] left(m.queue[j])).len() == 0
                &&& left(m.queue[i]).len() > 0
                &&& verdict == Verdict::Item(left(m.queue[i])[0])
                &&& after.queue == m.queue.subrange(i + 1, m.queue.len() as int).push(m.queue[i])
                &&& after.bucket.len() == 0
            }
        }),
    decreases m.queue.len(),
{
    if m.queue.len() == 0 {
        0
    } else {
        let s = m.queue[0];
        if left(s).len() > 0 {
            let after = call(m, scripted(left), w).0;
            assert(after.queue =~= m.queue.subrange(1, m.queue.len() as int).push(s));
            0
        } else {
            let next = m.taken();
            assert(m.taken().recorded(s, scripted(left)(s)) == next);
            let k = lemma_scripted_call(next, left, w);
            if forall|j: int| 0 <= j < m.queue.len() ==> (#[trigger] left(m.queue[j])).len() == 0 {
                assert forall|j: int| 0 <= j < next.queue.len() implies (#[trigger] left(
                    next.queue[j],
                )).len() == 0 by {
                    assert(next.queue[j] == m.queue[j + 1]);
                }
            } else {
                let j0 = choose|j: int|
                    0 <= j < m.queue.len() && (#[trigger] left(m.queue[j])).len() != 0;
                assert(j0 > 0);
                assert(next.queue[j0 - 1] == m.queue[j0]);
                assert forall|j: int| 0 <= j < k + 1 implies (#[trigger] left(m.queue[j])).len()
                    == 0 by {
                    if j > 0 {
                        assert(m.queue[j] == next.queue[j - 1]);
                    }
                }
                assert(m.queue.subrange(k + 2, m.queue.len() as int) =~= next.queue.subrange(
                    k + 1,
                    next.queue.len() as int,
                ));
            }
            k + 1
        }
    }
}

proof fn lemma_owed_concat<S, T>(a: Seq<S>, b: Seq<S>, left: spec_fn(S) -> Seq<T>)
    ensures
        owed(a + b, left) == owed(a, left).add(owed(b, left)),
        weight(a + b, left) == weight(a, left) + weight(b, left),
    decreases a.len(),
{
    if a.len() == 0 {
        assert(a + b =~= b);
        assert(owed(a, left).add(owed(b, left)) =~= owed(b, left));
    } else {
        lemma_owed_concat(a.drop_first(), b, left);
        assert((a + b).drop_first() =~= a.drop_first() + b);
        assert(owed(a + b, left) =~= owed(a, left).add(owed(b, left)));
    }
}

proof fn lemma_owed_frame<S, T>(q: Seq<S>, left: spec_fn(S) -> Seq<T>, x: S)
    requires
        !q.contains(x),
    ensures
        owed(q, advance(left, x)) == owed(q, left),
        weight(q, advance(left, x)) == weight(q, left),
    decreases q.len(),
{
    if q.len() > 0 {
        assert(q.drop_first().contains(x) ==> q.contains(x));
        lemma_owed_frame(q.drop_first(), left, x);
    }
}

proof fn lemma_owed_spent<S, T>(q: Seq<S>, left: spec_fn(S) -> Seq<T>)
    requires
        forall|j: int| 0 <= j < q.len() ==> (#[trigger] left(q[j])).len() == 0,
    ensures
        owed(q, left) == Multiset::<T>::empty(),
        weight(q, left) == q.len(),
    decreases q.len(),
{
    if q.len() > 0 {
        assert forall|j: int| 0 <= j < q.drop_first().len() implies (#[trigger] left(
            q.drop_first()[j],
        )).len() == 0 by {
            assert(q.drop_first()[j] == q[j + 1]);
        }
        lemma_owed_spent(q.drop_first(), left);
        assert(left(q[0]).len() == 0);
        assert(left(q[0]) =~= Seq::<T>::empty());
        assert(owed(q, left) =~= Multiset::<T>::empty());
    }
}

proof fn lemma_owed_single<S, T>(s: S, left: spec_fn(S) -> Seq<T>)
    ensures
        owed(seq![s], left) == left(s).to_multiset(),
        weight(seq![s], left) == left(s).len() + 1,
{
    assert(seq![s].drop_first() =~= Seq::<S>::empty());
    assert(owed(Seq::<S>::empty(), left) == Multiset::<T>::empty());
    assert(weight(Seq::<S>::empty(), left) == 0);
    assert(left(s).to_multiset().add(Multiset::empty()) =~= left(s).to_multiset());
}

/// A call over scripted sources that are not all spent: the winner `q[i]`
/// goes to the back without duplicates, its first item leaves what is owed,
/// and the weight drops.
proof fn lemma_scripted_step<S, W, T>(m: MuxModel<S, W>, left: spec_fn(S) -> Seq<T>, w: W) -> (i: int)
    requires
        m.bucket.len() == 0,
        m.queue.no_duplicates(),
        exists|j: int| 0 <= j < m.queue.len() && (#[trigger] left(m.queue[j])).len() > 0,
    ensures
        ({
            let q = m.queue;
            let (after, verdict) = call(m, scripted(left), w);
            let left2 = advance(left, q[i]);
            &&& 0 <= i < q.len()
            &&& forall|j: int| 0 <= j < i ==> (#[trigger] left(q[j])).len() == 0
            &&& left(q[i]).len() > 0
            &&& verdict == Verdict::Item(left(q[i])[0])
            &&& after.queue == q.subrange(i + 1, q.len() as int).push(q[i])
            &&& after.bucket.len() == 0
            &&& after.queue.no_duplicates()
            &&& owed(q, left) == owed(after.queue, left2).insert(left(q[i])[0])
            &&& weight(after.queue, left2) < weight(q, left)
        }),
{
    let q = m.queue;
    let i = lemma_scripted_call(m, left, w);
    let after = call(m, scripted(left), w).0;
    let y = q[i];
    let t = left(y)[0];
    let rest = q.subrange(i + 1, q.len() as int);
    let left2 = advance(left, y);
    assert(q =~= q.subrange(0, i) + seq![y] + rest);
    assert forall|j: int| 0 <= j < q.subrange(0, i).len() implies (#[trigger] left(
        q.subrange(0, i)[j],
    )).len() == 0 by {
        assert(q.subrange(0, i)[j] == q[j]);
    }
    lemma_owed_spent(q.subrange(0, i), left);
    lemma_owed_concat(q.subrange(0, i) + seq![y], rest, left);
    lemma_owed_concat(q.subrange(0, i), seq![y], left);
    lemma_owed_single(y, left);
    assert(!rest.contains(y)) by {
        if rest.contains(y) {
            let k = choose|k: int| 0 <= k < rest.len() && rest[k] == y;
            assert(q[i + 1 + k] == q[i]);
        }
    }
    lemma_owed_frame(rest, left, y);
    lemma_owed_concat(rest, seq![y], left2);
    lemma_owed_single(y, left2);
    assert(rest.push(y) == rest + seq![y]);
    assert(left(y) =~= seq![t] + left(y).drop_first());
    lemma_multiset_commutative(seq![t], left(y).drop_first());
    assert(seq![t].to_multiset() =~= Multiset::<T>::empty().insert(t)) by {
        assert(seq![t] == Seq::<T>::empty().push(t));
    }
    assert(owed(q, left) =~= owed(after.queue, left2).insert(t));
    assert forall|a: int, b: int|
        0 <= a < after.queue.len() && 0 <= b < after.queue.len() && a != b implies after.queue[a]
        != after.queue[b] by {
        if a < rest.len() && b < rest.len() {
            assert(after.queue[a] == q[i + 1 + a]);
            assert(after.queue[b] == q[i + 1 + b]);
        } else if a < rest.len() {
            assert(after.queue[a] == rest[a]);
        } else if b < rest.len() {
            assert(after.queue[b] == rest[b]);
        }
    }
    i
}

/// Polling sources that each produce a finite sequence of items, with no
/// `add` in between, reports completion within `weight(m.queue, left) + 1`
/// calls, and the items yielded until then are exactly all the items of all
/// the sources, none lost and none repeated.
pub proof fn lemma_drain<S, W, T>(m: MuxModel<S, W>, left: spec_fn(S) -> Seq<T>, w: W, n: nat)
    requires
        m.bucket.len() == 0,
        m.queue.no_duplicates(),
        n > weight(m.queue, left),
    ensures
        drain(m, left, w, n).3,
        drain(m, left, w, n).2.to_multiset() == owed(m.queue, left),
    decreases n,
{
    let q = m.queue;
    if forall|j: int| 0 <= j < q.len() ==> (#[trigger] left(q[j])).len() == 0 {
        lemma_scripted_call(m, left, w);
        lemma_owed_spent(q, left);
        assert(Seq::<T>::empty().to_multiset() =~= Multiset::<T>::empty());
    } else {
        let i = lemma_scripted_step(m, left, w);
        let after = call(m, scripted(left), w).0;
        let t = left(q[i])[0];
        let left2 = advance(left, q[i]);
        let next = drain(after, left2, w, (n - 1) as nat);
        lemma_drain(after, left2, w, (n - 1) as nat);
        lemma_multiset_commutative(seq![t], next.2);
        assert(seq![t].to_multiset() =~= Multiset::<T>::empty().insert(t)) by {
            assert(seq![t] == Seq::<T>::empty().push(t));
        }
        assert(drain(m, left, w, n).2.to_multiset() =~= owed(q, left));
    }
}

/// Polling sources that each produce a finite sequence of items, with no
/// `add` in between, keeps the order within each source: the items that a
/// source yields are its own sequence, in order, and no item is credited to
/// a source that was not in the queue.
pub proof fn lemma_drain_order<S, W, T>(
    m: MuxModel<S, W>,
    left: spec_fn(S) -> Seq<T>,
    w: W,
    n: nat,
    x: S,
)
    requires
        m.bucket.len() == 0,
        m.queue.no_duplicates(),
        n > weight(m.queue, left),
    ensures
        m.queue.contains(x) ==> yielded_by(drain(m, left, w, n).4, drain(m, left, w, n).2, x)
            == left(x),
        !m.queue.contains(x) ==> yielded_by(drain(m, left, w, n).4, drain(m, left, w, n).2, x)
            == Seq::<T>::empty(),
    decreases n,
{
    let q = m.queue;
    if forall|j: int| 0 <= j < q.len() ==> (#[trigger] left(q[j])).len() == 0 {
        lemma_scripted_call(m, left, w);
        if q.contains(x) {
            let k = choose|k: int| 0 <= k < q.len() && q[k] == x;
            assert(left(q[k]).len() == 0);
            assert(left(x) =~= Seq::<T>::empty());
        }
    } else {
        let i = lemma_scripted_step(m, left, w);
        let after = call(m, scripted(left), w).0;
        let y = q[i];
        let t = left(y)[0];
        let left2 = advance(left, y);
        let next = drain(after, left2, w, (n - 1) as nat);
        lemma_drain_order(after, left2, w, (n - 1) as nat, x);
        let d = drain(m, left, w, n);
        assert(d.4.drop_first() =~= next.4);
        assert(d.2.drop_first() =~= next.2);
        if x == y {
            assert(after.queue.contains(x));
            assert(left(x) =~= seq![t] + left(x).drop_first());
        } else {
            if q.contains(x) && !after.queue.contains(x) {
                let k = choose|k: int| 0 <= k < q.len() && q[k] == x;
                if k > i {
                    assert(after.queue[k - i - 1] == x);
                }
                assert(left(x) =~= Seq::<T>::empty());
            }
            if after.queue.contains(x) {
                let k = choose|k: int| 0 <= k < after.queue.len() && after.queue[k] == x;
                assert(q[k + i + 1] == x);
            }
        }
    }
}

} // verus!

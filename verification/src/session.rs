//! Procedures that alternate decisions with work done by hardware.
//!
//! A procedure of this kind never touches the hardware itself. It is a value
//! that says which operation it wants performed next ([`Next`]), is handed the
//! reply, and goes on from there. What a whole procedure does is described by a
//! *script*: a spec function from the replies received so far to the next thing
//! that happens ([`Run`]).
use vstd::prelude::*;

verus! {

/// What a procedure does once it has received some replies: it wants one more
/// operation, or it has finished with a value and left the listed replies
/// unused.
pub enum Run<O, A, T> {
    Wants(O),
    Finished(T, Seq<A>),
}

/// What a procedure asks of whoever drives it.
#[derive(PartialEq, Eq, Debug)]
pub enum Next<O, T> {
    Op(O),
    Done(T),
}

/// One access to the hardware. A reply to anything but a read is ignored.
#[derive(Clone, Copy, PartialEq, Eq, Structural, Debug)]
pub enum RegOp {
    /// Read the 32-bit word at an address.
    Read(u64),
    /// Write a 32-bit word to an address.
    Write(u64, u32),
    /// Execute this many `nop` instructions.
    Nops(u64),
    /// `dmb sy`: earlier memory accesses become visible before later ones.
    DataMemoryBarrier,
    /// `dsb sy`: earlier memory accesses complete before execution goes on.
    DataSyncBarrier,
}

/// A script whose operations are register accesses.
pub type RegRun<T> = Run<RegOp, u32, T>;

impl<O, A, T> Run<O, A, T> {
    /// Goes on with `k` once the procedure has finished.
    pub open spec fn and_then<U>(self, k: spec_fn(T, Seq<A>) -> Run<O, A, U>) -> Run<O, A, U> {
        match self {
            Run::Wants(op) => Run::Wants(op),
            Run::Finished(v, rest) => k(v, rest),
        }
    }

    /// What a driver is told in this situation.
    pub open spec fn asks(self) -> Next<O, T> {
        match self {
            Run::Wants(op) => Next::Op(op),
            Run::Finished(v, _) => Next::Done(v),
        }
    }
}

/// The replies `h`, preceded by `r`.
pub open spec fn cons<A>(r: A, h: Seq<A>) -> Seq<A> {
    seq![r] + h
}

pub broadcast proof fn lemma_cons<A>(r: A, h: Seq<A>)
    ensures
        #![trigger cons(r, h)]
        cons(r, h).len() == h.len() + 1,
        cons(r, h)[0] == r,
        cons(r, h).drop_first() == h,
{
    assert(cons(r, h).drop_first() =~= h);
}

/// The script of a single operation, whose value is its reply.
pub open spec fn op_run<O, A>(op: O, h: Seq<A>) -> Run<O, A, A> {
    if h.len() == 0 {
        Run::Wants(op)
    } else {
        Run::Finished(h[0], h.drop_first())
    }
}

/// The script that performs `ops` in order, whatever the replies.
pub open spec fn batch_run<O, A>(ops: Seq<O>, h: Seq<A>) -> Run<O, A, ()>
    decreases ops.len(),
{
    if ops.len() == 0 {
        Run::Finished((), h)
    } else if h.len() == 0 {
        Run::Wants(ops[0])
    } else {
        batch_run(ops.drop_first(), h.drop_first())
    }
}

// ── Whole conversations ────────────────────────────────────────────────────

/// The script that is left of `script` after the reply `r`.
pub open spec fn rest<O, A, T>(script: spec_fn(Seq<A>) -> Run<O, A, T>, r: A) -> spec_fn(
    Seq<A>,
) -> Run<O, A, T> {
    |h: Seq<A>| script(cons(r, h))
}

/// Driven by someone who replies to each operation as `answers` says, the
/// procedure is handed exactly the replies `h` and ends with `v`.
pub open spec fn completes<O, A, T>(
    script: spec_fn(Seq<A>) -> Run<O, A, T>,
    answers: spec_fn(O) -> A,
    h: Seq<A>,
    v: T,
) -> bool
    decreases h.len(),
{
    if h.len() == 0 {
        forall|g: Seq<A>| #[trigger] script(g) == Run::<O, A, T>::Finished(v, g)
    } else {
        &&& script(Seq::empty()) matches Run::Wants(op)
        &&& h[0] == answers(op)
        &&& completes(rest(script, h[0]), answers, h.drop_first(), v)
    }
}

/// The operations that a procedure has had performed when it has been handed the
/// replies `h`.
pub open spec fn performed<O, A, T>(
    script: spec_fn(Seq<A>) -> Run<O, A, T>,
    h: Seq<A>,
) -> Seq<O>
    decreases h.len(),
{
    if h.len() == 0 {
        Seq::empty()
    } else {
        match script(Seq::empty()) {
            Run::Wants(op) => seq![op] + performed(rest(script, h[0]), h.drop_first()),
            Run::Finished(_, _) => Seq::empty(),
        }
    }
}

/// How a procedure ends is settled by how its operations are answered.
pub proof fn lemma_completes_once<O, A, T>(
    script: spec_fn(Seq<A>) -> Run<O, A, T>,
    answers: spec_fn(O) -> A,
    h1: Seq<A>,
    v1: T,
    h2: Seq<A>,
    v2: T,
)
    requires
        completes(script, answers, h1, v1),
        completes(script, answers, h2, v2),
    ensures
        h1 == h2,
        v1 == v2,
    decreases h1.len(),
{
    let e = Seq::<A>::empty();
    if h1.len() == 0 {
        assert(script(e) == Run::<O, A, T>::Finished(v1, e));
        assert(h1 =~= h2);
    } else if h2.len() == 0 {
        assert(script(e) == Run::<O, A, T>::Finished(v2, e));
    } else {
        lemma_completes_once(rest(script, h1[0]), answers, h1.drop_first(), v1, h2.drop_first(), v2);
        assert(h1 =~= seq![h1[0]] + h1.drop_first());
        assert(h2 =~= seq![h2[0]] + h2.drop_first());
    }
}

/// Takes one step: an operation, its reply, and what is left.
pub proof fn lemma_completes_step<O, A, T>(
    script: spec_fn(Seq<A>) -> Run<O, A, T>,
    left: spec_fn(Seq<A>) -> Run<O, A, T>,
    answers: spec_fn(O) -> A,
    op: O,
    h: Seq<A>,
    v: T,
)
    requires
        script(Seq::empty()) == Run::<O, A, T>::Wants(op),
        forall|g: Seq<A>| #[trigger] left(g) == script(cons(answers(op), g)),
        completes(left, answers, h, v),
    ensures
        completes(script, answers, cons(answers(op), h), v),
        performed(script, cons(answers(op), h)) == seq![op] + performed(left, h),
{
    lemma_cons(answers(op), h);
    assert(rest(script, answers(op)) =~= left);
}

/// Does one thing after the other.
pub proof fn lemma_completes_and_then<O, A, T, U>(
    script: spec_fn(Seq<A>) -> Run<O, A, T>,
    k: spec_fn(T, Seq<A>) -> Run<O, A, U>,
    answers: spec_fn(O) -> A,
    h1: Seq<A>,
    v: T,
    h2: Seq<A>,
    u: U,
)
    requires
        completes(script, answers, h1, v),
        completes(|h: Seq<A>| k(v, h), answers, h2, u),
    ensures
        completes(|h: Seq<A>| script(h).and_then(k), answers, h1 + h2, u),
        performed(|h: Seq<A>| script(h).and_then(k), h1 + h2) == performed(script, h1)
            + performed(|h: Seq<A>| k(v, h), h2),
    decreases h1.len(),
{
    let both = |h: Seq<A>| script(h).and_then(k);
    if h1.len() == 0 {
        assert(h1 + h2 =~= h2);
        assert(both =~= (|h: Seq<A>| k(v, h)));
    } else {
        let r = h1[0];
        lemma_completes_and_then(rest(script, r), k, answers, h1.drop_first(), v, h2, u);
        assert((h1 + h2)[0] == r);
        assert((h1 + h2).drop_first() =~= h1.drop_first() + h2);
        assert(rest(both, r) =~= (|h: Seq<A>| rest(script, r)(h).and_then(k)));
    }
}

/// A list of operations is performed as it is.
pub proof fn lemma_batch<O, A>(ops: Seq<O>, answers: spec_fn(O) -> A) -> (h: Seq<A>)
    ensures
        completes(|h: Seq<A>| batch_run(ops, h), answers, h, ()),
        performed(|h: Seq<A>| batch_run(ops, h), h) == ops,
    decreases ops.len(),
{
    let script = |h: Seq<A>| batch_run(ops, h);
    if ops.len() == 0 {
        assert(ops =~= Seq::empty());
        Seq::empty()
    } else {
        let left = |h: Seq<A>| batch_run(ops.drop_first(), h);
        let g = lemma_batch(ops.drop_first(), answers);
        assert forall|g: Seq<A>| #[trigger] left(g) == script(cons(answers(ops[0]), g)) by {
            lemma_cons(answers(ops[0]), g);
        }
        lemma_completes_step(script, left, answers, ops[0], g, ());
        assert(seq![ops[0]] + ops.drop_first() =~= ops);
        cons(answers(ops[0]), g)
    }
}

// ── Procedures that always end ─────────────────────────────────────────────

/// Whatever the replies, the procedure ends after at most `n` of them.
pub open spec fn ends_within<O, A, T>(
    script: spec_fn(Seq<A>) -> Run<O, A, T>,
    n: nat,
) -> bool {
    forall|h: Seq<A>|
        h.len() >= n ==> (#[trigger] script(h) matches Run::Finished(_, left) && left.len() + n
            >= h.len())
}

/// A list of operations takes its length.
pub proof fn lemma_batch_ends<O, A>(ops: Seq<O>, h: Seq<A>)
    requires
        h.len() >= ops.len(),
    ensures
        batch_run(ops, h) == Run::<O, A, ()>::Finished((), h.skip(ops.len() as int)),
    decreases ops.len(),
{
    if ops.len() == 0 {
        assert(h.skip(0) =~= h);
    } else {
        lemma_batch_ends(ops.drop_first(), h.drop_first());
        assert(h.drop_first().skip(ops.len() - 1) =~= h.skip(ops.len() as int));
    }
}

// ── Conversations with a device ────────────────────────────────────────────

/// Driven by a device that is in the state `s` and, for each operation, gives a reply
/// and goes to its next state, the procedure is handed exactly the replies `h` and ends
/// with `v`; the device is then in the state `t`.
pub open spec fn drives<S, O, A, T>(
    script: spec_fn(Seq<A>) -> Run<O, A, T>,
    device: spec_fn(S, O) -> (A, S),
    s: S,
    h: Seq<A>,
    v: T,
    t: S,
) -> bool
    decreases h.len(),
{
    if h.len() == 0 {
        &&& forall|g: Seq<A>| #[trigger] script(g) == Run::<O, A, T>::Finished(v, g)
        &&& t == s
    } else {
        &&& script(Seq::empty()) matches Run::Wants(op)
        &&& h[0] == device(s, op).0
        &&& drives(rest(script, h[0]), device, device(s, op).1, h.drop_first(), v, t)
    }
}

/// Driven by the device in the state `s`, the procedure comes to its end with `v`, and
/// leaves the device in the state `t`.
pub open spec fn ends_with_device<S, O, A, T>(
    script: spec_fn(Seq<A>) -> Run<O, A, T>,
    device: spec_fn(S, O) -> (A, S),
    s: S,
    v: T,
    t: S,
) -> bool {
    exists|h: Seq<A>| #[trigger] drives(script, device, s, h, v, t)
}

/// A procedure that has ended.
pub proof fn lemma_device_end<S, O, A, T>(
    script: spec_fn(Seq<A>) -> Run<O, A, T>,
    device: spec_fn(S, O) -> (A, S),
    s: S,
    v: T,
)
    requires
        forall|g: Seq<A>| #[trigger] script(g) == Run::<O, A, T>::Finished(v, g),
    ensures
        ends_with_device(script, device, s, v, s),
{
    assert(drives(script, device, s, Seq::empty(), v, s));
}

/// Takes one step: an operation, the device's reply, and what is left.
pub proof fn lemma_device_step<S, O, A, T>(
    script: spec_fn(Seq<A>) -> Run<O, A, T>,
    left: spec_fn(Seq<A>) -> Run<O, A, T>,
    device: spec_fn(S, O) -> (A, S),
    op: O,
    s: S,
    v: T,
    t: S,
)
    requires
        script(Seq::empty()) == Run::<O, A, T>::Wants(op),
        forall|g: Seq<A>| #[trigger] left(g) == script(cons(device(s, op).0, g)),
        ends_with_device(left, device, device(s, op).1, v, t),
    ensures
        ends_with_device(script, device, s, v, t),
{
    let r = device(s, op).0;
    let h = choose|h: Seq<A>| #[trigger] drives(left, device, device(s, op).1, h, v, t);
    lemma_cons(r, h);
    assert(rest(script, r) =~= left);
    assert(drives(script, device, s, cons(r, h), v, t));
}

proof fn lemma_drives_and_then<S, O, A, T, U>(
    script: spec_fn(Seq<A>) -> Run<O, A, T>,
    k: spec_fn(T, Seq<A>) -> Run<O, A, U>,
    device: spec_fn(S, O) -> (A, S),
    s: S,
    h1: Seq<A>,
    v: T,
    m: S,
    h2: Seq<A>,
    u: U,
    t: S,
)
    requires
        drives(script, device, s, h1, v, m),
        drives(|h: Seq<A>| k(v, h), device, m, h2, u, t),
    ensures
        drives(|h: Seq<A>| script(h).and_then(k), device, s, h1 + h2, u, t),
    decreases h1.len(),
{
    let both = |h: Seq<A>| script(h).and_then(k);
    if h1.len() == 0 {
        assert(h1 + h2 =~= h2);
        assert(both =~= (|h: Seq<A>| k(v, h)));
    } else {
        let r = h1[0];
        let op = script(Seq::empty())->Wants_0;
        lemma_drives_and_then(
            rest(script, r),
            k,
            device,
            device(s, op).1,
            h1.drop_first(),
            v,
            m,
            h2,
            u,
            t,
        );
        assert((h1 + h2)[0] == r);
        assert((h1 + h2).drop_first() =~= h1.drop_first() + h2);
        assert(rest(both, r) =~= (|h: Seq<A>| rest(script, r)(h).and_then(k)));
    }
}

/// Does one thing after the other with the device.
pub proof fn lemma_device_and_then<S, O, A, T, U>(
    script: spec_fn(Seq<A>) -> Run<O, A, T>,
    k: spec_fn(T, Seq<A>) -> Run<O, A, U>,
    device: spec_fn(S, O) -> (A, S),
    s: S,
    v: T,
    m: S,
    u: U,
    t: S,
)
    requires
        ends_with_device(script, device, s, v, m),
        ends_with_device(|h: Seq<A>| k(v, h), device, m, u, t),
    ensures
        ends_with_device(|h: Seq<A>| script(h).and_then(k), device, s, u, t),
{
    let after = |h: Seq<A>| k(v, h);
    let h1 = choose|h: Seq<A>| #[trigger] drives(script, device, s, h, v, m);
    let h2 = choose|h: Seq<A>| #[trigger] drives(after, device, m, h, u, t);
    lemma_drives_and_then(script, k, device, s, h1, v, m, h2, u, t);
}

/// A single operation.
pub proof fn lemma_device_op<S, O, A>(device: spec_fn(S, O) -> (A, S), op: O, s: S)
    ensures
        ends_with_device(
            |h: Seq<A>| op_run(op, h),
            device,
            s,
            device(s, op).0,
            device(s, op).1,
        ),
{
    let r = device(s, op).0;
    let left = |h: Seq<A>| Run::<O, A, A>::Finished(r, h);
    let script = |h: Seq<A>| op_run(op, h);
    lemma_device_end(left, device, device(s, op).1, r);
    assert forall|g: Seq<A>| #[trigger] left(g) == script(cons(r, g)) by {
        lemma_cons(r, g);
    }
    lemma_device_step(script, left, device, op, s, r, device(s, op).1);
}

/// The state of the device after a list of operations.
pub open spec fn state_after<S, O, A>(device: spec_fn(S, O) -> (A, S), ops: Seq<O>, s: S) -> S
    decreases ops.len(),
{
    if ops.len() == 0 {
        s
    } else {
        state_after(device, ops.drop_first(), device(s, ops[0]).1)
    }
}

/// A list of operations.
pub proof fn lemma_device_batch<S, O, A>(device: spec_fn(S, O) -> (A, S), ops: Seq<O>, s: S)
    ensures
        ends_with_device(
            |h: Seq<A>| batch_run(ops, h),
            device,
            s,
            (),
            state_after(device, ops, s),
        ),
    decreases ops.len(),
{
    let script = |h: Seq<A>| batch_run::<O, A>(ops, h);
    if ops.len() == 0 {
        lemma_device_end(script, device, s, ());
    } else {
        let next = device(s, ops[0]).1;
        let left = |h: Seq<A>| batch_run::<O, A>(ops.drop_first(), h);
        lemma_device_batch(device, ops.drop_first(), next);
        assert forall|g: Seq<A>| #[trigger] left(g) == script(cons(device(s, ops[0]).0, g)) by {
            lemma_cons(device(s, ops[0]).0, g);
        }
        lemma_device_step(script, left, device, ops[0], s, (), state_after(device, ops, s));
    }
}

// ── Where a procedure ends ─────────────────────────────────────────────────

/// The procedure takes its replies in order: once it has ended, the replies that
/// it did not take are what is left, and it would have ended in the same way
/// whatever had come after those that it took.
pub open spec fn orderly<O, A, T>(script: spec_fn(Seq<A>) -> Run<O, A, T>) -> bool {
    forall|h: Seq<A>| #[trigger] ends_orderly(script, h)
}

pub open spec fn ends_orderly<O, A, T>(script: spec_fn(Seq<A>) -> Run<O, A, T>, h: Seq<A>) -> bool {
    script(h) matches Run::Finished(v, left) ==> {
        let n = h.len() - left.len();
        &&& 0 <= n
        &&& left == h.skip(n)
        &&& forall|g: Seq<A>| #[trigger] script(h.take(n) + g) == Run::<O, A, T>::Finished(v, g)
    }
}

pub proof fn lemma_orderly_op<O, A>(op: O)
    ensures
        orderly(|h: Seq<A>| op_run(op, h)),
{
    let script = |h: Seq<A>| op_run(op, h);
    assert forall|h: Seq<A>| #[trigger] ends_orderly(script, h) by {
        if h.len() > 0 {
            assert(h.drop_first() =~= h.skip(1));
            assert forall|g: Seq<A>| #[trigger] script(h.take(1) + g) == Run::<O, A, A>::Finished(
                h[0],
                g,
            ) by {
                assert((h.take(1) + g).drop_first() =~= g);
            }
        }
    }
}

pub proof fn lemma_orderly_end<O, A, T>(v: T)
    ensures
        orderly(|h: Seq<A>| Run::<O, A, T>::Finished(v, h)),
{
    let script = |h: Seq<A>| Run::<O, A, T>::Finished(v, h);
    assert forall|h: Seq<A>| #[trigger] ends_orderly(script, h) by {
        assert(h.skip(0) =~= h);
        assert forall|g: Seq<A>| #[trigger] script(h.take(0) + g) == Run::<O, A, T>::Finished(
            v,
            g,
        ) by {
            assert(h.take(0) + g =~= g);
        }
    }
}

pub proof fn lemma_orderly_and_then<O, A, T, U>(
    first: spec_fn(Seq<A>) -> Run<O, A, T>,
    k: spec_fn(T, Seq<A>) -> Run<O, A, U>,
)
    requires
        orderly(first),
        forall|v: T| orderly(#[trigger] following(k, v)),
    ensures
        orderly(|h: Seq<A>| first(h).and_then(k)),
{
    let script = |h: Seq<A>| first(h).and_then(k);
    assert forall|h: Seq<A>| #[trigger] ends_orderly(script, h) by {
        assert(ends_orderly(first, h));
        if let Run::Finished(v, l1) = first(h) {
            let next = following(k, v);
            assert(orderly(next));
            assert(ends_orderly(next, l1));
            if let Run::Finished(u, l2) = k(v, l1) {
                assert(next(l1) == Run::<O, A, U>::Finished(u, l2));
                let n1 = h.len() - l1.len();
                let n2 = l1.len() - l2.len();
                assert(l2 =~= h.skip(n1 + n2));
                assert forall|g: Seq<A>| #[trigger] script(h.take(n1 + n2) + g) == Run::<
                    O,
                    A,
                    U,
                >::Finished(u, g) by {
                    let g1 = l1.take(n2) + g;
                    assert(h.take(n1 + n2) + g =~= h.take(n1) + g1);
                    assert(first(h.take(n1) + g1) == Run::<O, A, T>::Finished(v, g1));
                    assert(next(l1.take(n2) + g) == Run::<O, A, U>::Finished(u, g));
                }
            }
        }
    }
}

/// What `k` does with the value `v`.
pub open spec fn following<O, A, T, U>(k: spec_fn(T, Seq<A>) -> Run<O, A, U>, v: T) -> spec_fn(
    Seq<A>,
) -> Run<O, A, U> {
    |h: Seq<A>| k(v, h)
}

pub proof fn lemma_orderly_batch<O, A>(ops: Seq<O>)
    ensures
        orderly(|h: Seq<A>| batch_run::<O, A>(ops, h)),
    decreases ops.len(),
{
    let script = |h: Seq<A>| batch_run::<O, A>(ops, h);
    if ops.len() == 0 {
        lemma_orderly_end::<O, A, ()>(());
        assert(script =~= (|h: Seq<A>| Run::<O, A, ()>::Finished((), h)));
    } else {
        let tail = |h: Seq<A>| batch_run::<O, A>(ops.drop_first(), h);
        let first = |h: Seq<A>| op_run::<O, A>(ops[0], h);
        let k = |_v: A, h: Seq<A>| batch_run::<O, A>(ops.drop_first(), h);
        lemma_orderly_batch::<O, A>(ops.drop_first());
        lemma_orderly_op::<O, A>(ops[0]);
        assert forall|v: A| orderly(#[trigger] following(k, v)) by {
            assert(following(k, v) =~= tail);
        }
        lemma_orderly_and_then(first, k);
        assert(script =~= (|h: Seq<A>| first(h).and_then(k)));
    }
}

/// The operation that a procedure asks for after the replies `h` follows those
/// that it asked for on the way: `first` has taken the first `n` of them.
pub proof fn lemma_orderly_prefix<O, A, T, U>(
    first: spec_fn(Seq<A>) -> Run<O, A, T>,
    k: spec_fn(T, Seq<A>) -> Run<O, A, U>,
    h: Seq<A>,
    i: int,
)
    requires
        orderly(first),
        first(h) is Finished,
        0 <= i <= first(h)->Finished_1.len(),
    ensures
        ({
            let left = first(h)->Finished_1;
            let n = h.len() - left.len();
            &&& 0 <= n
            &&& left == h.skip(n)
            &&& first(h.take(n + i)).and_then(k) == k(first(h)->Finished_0, left.take(i))
        }),
{
    assert(ends_orderly(first, h));
    let left = first(h)->Finished_1;
    let n = h.len() - left.len();
    assert(h.take(n + i) =~= h.take(n) + left.take(i));
}

/// Does `first` with the device, and then what `k` makes of its value.
pub proof fn lemma_device_then<S, O, A, T, U>(
    device: spec_fn(S, O) -> (A, S),
    whole: spec_fn(Seq<A>) -> Run<O, A, U>,
    first: spec_fn(Seq<A>) -> Run<O, A, T>,
    k: spec_fn(T, Seq<A>) -> Run<O, A, U>,
    next: spec_fn(Seq<A>) -> Run<O, A, U>,
    s: S,
    v: T,
    m: S,
    u: U,
    t: S,
)
    requires
        forall|h: Seq<A>| #[trigger] whole(h) == first(h).and_then(k),
        forall|h: Seq<A>| #[trigger] next(h) == k(v, h),
        ends_with_device(first, device, s, v, m),
        ends_with_device(next, device, m, u, t),
    ensures
        ends_with_device(whole, device, s, u, t),
{
    assert(next =~= (|h: Seq<A>| k(v, h)));
    lemma_device_and_then(first, k, device, s, v, m, u, t);
    assert(whole =~= (|h: Seq<A>| first(h).and_then(k)));
}

} // verus!

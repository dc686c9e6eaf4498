//! A mathematical model of the delivery loop, and the guarantees proved of it.
//!
//! The model runs the router over a sequence of inputs: an event carrying its
//! wire text, a quiet poll (nothing available, connection alive), a terminal
//! feed failure, or a registration. Subscribers are named by their identities;
//! which sends succeed is an arbitrary predicate over identity and event
//! index, so every proof below holds whatever the transports do.
//!
//! One event is processed per step: the pending registrations are drained into
//! the active set, the event's one wire text is offered to every active
//! subscriber in order, and exactly the subscribers whose send succeeded stay
//! active — the rest are evicted on the spot. A terminal failure stops all
//! further delivery; registrations are still accepted but nothing is sent.

use vstd::prelude::*;

use crate::router::keep_flagged;

verus! {

/// A subscriber identity.
pub type Who = Seq<char>;

/// Which sends succeed: `ok(w, k)` says whether the send of the `k`-th
/// delivered event to subscriber `w` returns success.
pub type SendOutcome = spec_fn(Who, nat) -> bool;

/// The registry as the model sees it.
#[verifier::ext_equal]
pub struct RouterModel {
    /// Identities receiving events, in delivery order.
    pub active: Seq<Who>,
    /// Identities registered but not yet merged into `active`.
    pub pending: Seq<Who>,
    /// True once the feed has yielded its terminal error.
    pub stopped: bool,
}

/// One input consumed by the delivery loop.
pub enum RouterInput {
    /// A well-formed event, as its serialized wire text.
    Event(Seq<char>),
    /// Nothing to deliver this round: a transient feed gap or a discarded
    /// malformed payload.
    Quiet,
    /// The feed's terminal error.
    Fail,
    /// A subscriber registering mid-stream.
    Register(Who),
}

/// One delivery pass: the event's wire text, who was attempted, and who
/// actually received it (and therefore stayed active).
#[verifier::ext_equal]
pub struct PassRecord {
    pub message: Seq<char>,
    pub attempted: Seq<Who>,
    pub delivered: Seq<Who>,
}

/// A finished run: the final registry and one record per delivered event.
#[verifier::ext_equal]
pub struct RunResult {
    pub state: RouterModel,
    pub log: Seq<PassRecord>,
}

/// The delivery loop from an arbitrary state; `k` counts the events delivered
/// before this point, so send outcomes keep their global index.
pub open spec fn run_from(st: RouterModel, inputs: Seq<RouterInput>, ok: SendOutcome, k: nat) -> RunResult
    decreases inputs.len(),
{
    if inputs.len() == 0 {
        RunResult { state: st, log: Seq::empty() }
    } else {
        let rest = inputs.drop_first();
        match inputs[0] {
            RouterInput::Register(w) => run_from(
                RouterModel { active: st.active, pending: st.pending.push(w), stopped: st.stopped },
                rest,
                ok,
                k,
            ),
            RouterInput::Quiet => run_from(st, rest, ok, k),
            RouterInput::Fail => run_from(
                RouterModel { active: st.active, pending: st.pending, stopped: true },
                rest,
                ok,
                k,
            ),
            RouterInput::Event(m) => if st.stopped {
                run_from(st, rest, ok, k)
            } else {
                let attempted = st.active + st.pending;
                let delivered = attempted.filter(|w: Who| ok(w, k));
                let tail = run_from(
                    RouterModel { active: delivered, pending: Seq::empty(), stopped: false },
                    rest,
                    ok,
                    (k + 1) as nat,
                );
                RunResult {
                    state: tail.state,
                    log: seq![PassRecord { message: m, attempted, delivered }] + tail.log,
                }
            },
        }
    }
}

/// The delivery loop started fresh over a stable initial subscriber set.
pub open spec fn run(active: Seq<Who>, inputs: Seq<RouterInput>, ok: SendOutcome) -> RunResult {
    run_from(RouterModel { active, pending: Seq::empty(), stopped: false }, inputs, ok, 0)
}

/// The wire texts subscriber `w` received over a run, in order.
pub open spec fn received_by(log: Seq<PassRecord>, w: Who) -> Seq<Seq<char>>
    decreases log.len(),
{
    if log.len() == 0 {
        Seq::empty()
    } else {
        (if log[0].delivered.contains(w) {
            seq![log[0].message]
        } else {
            Seq::empty()
        }) + received_by(log.drop_first(), w)
    }
}

/// The wire texts of the events among the inputs, in feed order.
pub open spec fn event_messages(inputs: Seq<RouterInput>) -> Seq<Seq<char>>
    decreases inputs.len(),
{
    if inputs.len() == 0 {
        Seq::empty()
    } else {
        (match inputs[0] {
            RouterInput::Event(m) => seq![m],
            _ => Seq::empty(),
        }) + event_messages(inputs.drop_first())
    }
}

pub open spec fn no_fail(inputs: Seq<RouterInput>) -> bool {
    forall|i: int| 0 <= i < inputs.len() ==> !(#[trigger] inputs[i] matches RouterInput::Fail)
}

pub open spec fn no_register(inputs: Seq<RouterInput>) -> bool {
    forall|i: int| 0 <= i < inputs.len() ==> !(#[trigger] inputs[i] matches RouterInput::Register(_))
}

// ---------------------------------------------------------------------------
// Facts about filtering
// ---------------------------------------------------------------------------

proof fn lemma_filter_one<T>(x: T, p: spec_fn(T) -> bool)
    ensures
        seq![x].filter(p) == (if p(x) {
            seq![x]
        } else {
            Seq::<T>::empty()
        }),
{
    reveal(Seq::filter);
    assert(seq![x].drop_last() =~= Seq::<T>::empty());
    assert(Seq::<T>::empty().filter(p) =~= Seq::<T>::empty());
    assert(seq![x].last() == x);
    if p(x) {
        assert(seq![x].filter(p) =~= seq![x]);
    } else {
        assert(seq![x].filter(p) =~= Seq::<T>::empty());
    }
}

proof fn lemma_filter_two<T>(x: T, y: T, p: spec_fn(T) -> bool)
    ensures
        seq![x, y].filter(p) == (if p(x) {
            seq![x]
        } else {
            Seq::<T>::empty()
        }) + (if p(y) {
            seq![y]
        } else {
            Seq::<T>::empty()
        }),
{
    reveal(Seq::filter);
    lemma_filter_one(x, p);
    assert(seq![x, y].drop_last() =~= seq![x]);
    assert(seq![x, y].last() == y);
    if p(x) {
        if p(y) {
            assert(seq![x, y].filter(p) =~= seq![x] + seq![y]);
        } else {
            assert(seq![x, y].filter(p) =~= seq![x] + Seq::<T>::empty());
        }
    } else {
        if p(y) {
            assert(seq![x, y].filter(p) =~= Seq::<T>::empty() + seq![y]);
        } else {
            assert(seq![x, y].filter(p) =~= Seq::<T>::empty() + Seq::<T>::empty());
        }
    }
}

proof fn lemma_filter_all_true<T>(s: Seq<T>, p: spec_fn(T) -> bool)
    requires
        forall|i: int| 0 <= i < s.len() ==> p(#[trigger] s[i]),
    ensures
        s.filter(p) == s,
    decreases s.len(),
{
    reveal(Seq::filter);
    if s.len() > 0 {
        lemma_filter_all_true(s.drop_last(), p);
        assert(s.filter(p) =~= s);
    } else {
        assert(s.filter(p) =~= s);
    }
}

pub proof fn lemma_filter_member<T>(s: Seq<T>, p: spec_fn(T) -> bool, w: T)
    ensures
        s.filter(p).contains(w) <==> s.contains(w) && p(w),
    decreases s.len(),
{
    reveal(Seq::filter);
    if s.len() > 0 {
        lemma_filter_member(s.drop_last(), p, w);
        if s.contains(w) && p(w) {
            if w == s.last() {
                assert(s.filter(p).last() == w);
                assert(s.filter(p).contains(w));
            } else {
                let i = choose|i: int| 0 <= i < s.len() && s[i] == w;
                assert(s.drop_last()[i] == w);
                assert(s.drop_last().contains(w));
                let j = choose|j: int|
                    0 <= j < s.drop_last().filter(p).len() && s.drop_last().filter(p)[j] == w;
                assert(s.filter(p)[j] == w);
                assert(s.filter(p).contains(w));
            }
        }
        if s.filter(p).contains(w) {
            let j = choose|j: int| 0 <= j < s.filter(p).len() && s.filter(p)[j] == w;
            if p(s.last()) && j == s.filter(p).len() - 1 {
                assert(w == s.last());
                assert(s.contains(w));
            } else {
                assert(s.drop_last().filter(p)[j] == w);
                assert(s.drop_last().filter(p).contains(w));
                let i = choose|i: int| 0 <= i < s.drop_last().len() && s.drop_last()[i] == w;
                assert(s[i] == w);
                assert(s.contains(w));
            }
        }
    }
}

// ---------------------------------------------------------------------------
// Structural facts about runs
// ---------------------------------------------------------------------------

/// Once the feed has failed terminally, a run delivers nothing more, whatever
/// else arrives.
pub proof fn lemma_stopped_run_is_silent(
    st: RouterModel,
    inputs: Seq<RouterInput>,
    ok: SendOutcome,
    k: nat,
)
    requires
        st.stopped,
    ensures
        run_from(st, inputs, ok, k).log == Seq::<PassRecord>::empty(),
        run_from(st, inputs, ok, k).state.stopped,
        run_from(st, inputs, ok, k).state.active == st.active,
    decreases inputs.len(),
{
    if inputs.len() > 0 {
        let rest = inputs.drop_first();
        match inputs[0] {
            RouterInput::Register(w) => {
                lemma_stopped_run_is_silent(
                    RouterModel {
                        active: st.active,
                        pending: st.pending.push(w),
                        stopped: st.stopped,
                    },
                    rest,
                    ok,
                    k,
                );
            },
            RouterInput::Quiet => {
                lemma_stopped_run_is_silent(st, rest, ok, k);
            },
            RouterInput::Fail => {
                lemma_stopped_run_is_silent(
                    RouterModel { active: st.active, pending: st.pending, stopped: true },
                    rest,
                    ok,
                    k,
                );
            },
            RouterInput::Event(_) => {
                lemma_stopped_run_is_silent(st, rest, ok, k);
            },
        }
    }
}

/// A run splits at any point: the second half continues from the first half's
/// state, with the event counter advanced by the events the first half
/// delivered.
pub proof fn lemma_run_splits(
    st: RouterModel,
    a: Seq<RouterInput>,
    b: Seq<RouterInput>,
    ok: SendOutcome,
    k: nat,
)
    ensures
        ({
            let ra = run_from(st, a, ok, k);
            let rb = run_from(ra.state, b, ok, (k + ra.log.len()) as nat);
            run_from(st, a + b, ok, k).state == rb.state && run_from(st, a + b, ok, k).log
                == ra.log + rb.log
        }),
    decreases a.len(),
{
    let ra = run_from(st, a, ok, k);
    let rb = run_from(ra.state, b, ok, (k + ra.log.len()) as nat);
    if a.len() == 0 {
        assert(a + b =~= b);
        assert(ra.state == st);
        assert(ra.log + rb.log =~= rb.log);
    } else {
        let rest = a.drop_first();
        assert((a + b)[0] == a[0]);
        assert((a + b).drop_first() =~= rest + b);
        match a[0] {
            RouterInput::Register(w) => {
                lemma_run_splits(
                    RouterModel {
                        active: st.active,
                        pending: st.pending.push(w),
                        stopped: st.stopped,
                    },
                    rest,
                    b,
                    ok,
                    k,
                );
            },
            RouterInput::Quiet => {
                lemma_run_splits(st, rest, b, ok, k);
            },
            RouterInput::Fail => {
                lemma_run_splits(
                    RouterModel { active: st.active, pending: st.pending, stopped: true },
                    rest,
                    b,
                    ok,
                    k,
                );
            },
            RouterInput::Event(m) => {
                if st.stopped {
                    lemma_run_splits(st, rest, b, ok, k);
                } else {
                    let attempted = st.active + st.pending;
                    let delivered = attempted.filter(|w: Who| ok(w, k));
                    let mid = RouterModel {
                        active: delivered,
                        pending: Seq::empty(),
                        stopped: false,
                    };
                    lemma_run_splits(mid, rest, b, ok, (k + 1) as nat);
                    let rec = PassRecord { message: m, attempted, delivered };
                    let ta = run_from(mid, rest, ok, (k + 1) as nat);
                    assert(ra.log =~= seq![rec] + ta.log);
                    assert((k + ra.log.len()) as nat == ((k + 1) + ta.log.len()) as nat);
                    assert(ra.log + rb.log =~= seq![rec] + (ta.log + run_from(
                        ta.state,
                        b,
                        ok,
                        ((k + 1) + ta.log.len()) as nat,
                    ).log));
                }
            },
        }
    }
}

/// Peeling one event off a run: the head record and the continuation.
pub proof fn lemma_run_cons_event(
    st: RouterModel,
    m: Seq<char>,
    rest: Seq<RouterInput>,
    ok: SendOutcome,
    k: nat,
)
    requires
        !st.stopped,
    ensures
        ({
            let attempted = st.active + st.pending;
            let delivered = attempted.filter(|w: Who| ok(w, k));
            let tail = run_from(
                RouterModel { active: delivered, pending: Seq::empty(), stopped: false },
                rest,
                ok,
                (k + 1) as nat,
            );
            run_from(st, seq![RouterInput::Event(m)] + rest, ok, k).log == seq![
                PassRecord { message: m, attempted, delivered },
            ] + tail.log && run_from(st, seq![RouterInput::Event(m)] + rest, ok, k).state
                == tail.state
        }),
{
    let inputs = seq![RouterInput::Event(m)] + rest;
    assert(inputs[0] == RouterInput::Event(m));
    assert(inputs.drop_first() =~= rest);
}

/// A quiet input at the head of a run changes nothing.
pub proof fn lemma_run_cons_quiet(st: RouterModel, rest: Seq<RouterInput>, ok: SendOutcome, k: nat)
    ensures
        run_from(st, seq![RouterInput::Quiet] + rest, ok, k) == run_from(st, rest, ok, k),
{
    let inputs = seq![RouterInput::Quiet] + rest;
    assert(inputs[0] == RouterInput::Quiet);
    assert(inputs.drop_first() =~= rest);
}

/// Peeling one record off a received log.
pub proof fn lemma_received_cons(rec: PassRecord, log: Seq<PassRecord>, w: Who)
    ensures
        received_by(seq![rec] + log, w) == (if rec.delivered.contains(w) {
            seq![rec.message]
        } else {
            Seq::<Seq<char>>::empty()
        }) + received_by(log, w),
{
    let l = seq![rec] + log;
    assert(l[0] == rec);
    assert(l.drop_first() =~= log);
}

// ---------------------------------------------------------------------------
// Delivery guarantees
// ---------------------------------------------------------------------------

/// Order preservation: while the subscriber set is stable — no registrations,
/// no terminal failure, every send to the initial subscribers succeeding —
/// each initial subscriber receives exactly the events of the feed, in feed
/// order.
pub proof fn order_preserved(active: Seq<Who>, inputs: Seq<RouterInput>, ok: SendOutcome, w: Who)
    requires
        active.contains(w),
        no_fail(inputs),
        no_register(inputs),
        forall|x: Who, k: nat| active.contains(x) ==> #[trigger] ok(x, k),
    ensures
        received_by(run(active, inputs, ok).log, w) == event_messages(inputs),
        run(active, inputs, ok).state.active == active,
{
    lemma_order_preserved_from(active, inputs, ok, w, 0);
}

proof fn lemma_order_preserved_from(
    active: Seq<Who>,
    inputs: Seq<RouterInput>,
    ok: SendOutcome,
    w: Who,
    k: nat,
)
    requires
        active.contains(w),
        no_fail(inputs),
        no_register(inputs),
        forall|x: Who, k2: nat| active.contains(x) ==> #[trigger] ok(x, k2),
    ensures
        ({
            let st = RouterModel { active, pending: Seq::empty(), stopped: false };
            received_by(run_from(st, inputs, ok, k).log, w) == event_messages(inputs)
                && run_from(st, inputs, ok, k).state.active == active
        }),
    decreases inputs.len(),
{
    let st = RouterModel { active, pending: Seq::empty(), stopped: false };
    if inputs.len() == 0 {
        assert(received_by(run_from(st, inputs, ok, k).log, w) =~= event_messages(inputs));
    } else {
        let rest = inputs.drop_first();
        assert(!(inputs[0] matches RouterInput::Fail));
        assert(!(inputs[0] matches RouterInput::Register(_)));
        assert(forall|i: int|
            0 <= i < rest.len() ==> !(#[trigger] rest[i] matches RouterInput::Fail));
        assert(forall|i: int|
            0 <= i < rest.len() ==> !(#[trigger] rest[i] matches RouterInput::Register(_)));
        match inputs[0] {
            RouterInput::Quiet => {
                lemma_order_preserved_from(active, rest, ok, w, k);
                assert(event_messages(inputs) =~= event_messages(rest));
            },
            RouterInput::Event(m) => {
                let attempted = st.active + st.pending;
                assert(attempted =~= active);
                let delivered = attempted.filter(|x: Who| ok(x, k));
                lemma_filter_all_true(active, |x: Who| ok(x, k));
                assert(delivered == active);
                lemma_order_preserved_from(active, rest, ok, w, (k + 1) as nat);
                let rec = PassRecord { message: m, attempted, delivered };
                let tail = run_from(st, rest, ok, (k + 1) as nat);
                let log = seq![rec] + tail.log;
                assert(log[0] == rec);
                assert(log.drop_first() =~= tail.log);
                assert(delivered.contains(w));
                assert(received_by(log, w) =~= seq![m] + received_by(tail.log, w));
                assert(event_messages(inputs) =~= seq![m] + event_messages(rest));
            },
            _ => {
                assert(false);
            },
        }
    }
}

/// First event to subscribers `a` and `b`, both sends succeeding.
proof fn lemma_two_subscriber_step0(a: Who, b: Who, m0: Seq<char>, rest: Seq<RouterInput>, ok: SendOutcome)
    requires
        ok(a, 0),
        ok(b, 0),
    ensures
        ({
            let st0 = RouterModel { active: seq![a, b], pending: Seq::empty(), stopped: false };
            let st1 = RouterModel { active: seq![a, b], pending: Seq::empty(), stopped: false };
            let tail = run_from(st1, rest, ok, 1);
            run_from(st0, seq![RouterInput::Event(m0)] + rest, ok, 0).log == seq![
                PassRecord { message: m0, attempted: seq![a, b], delivered: seq![a, b] },
            ] + tail.log && run_from(st0, seq![RouterInput::Event(m0)] + rest, ok, 0).state
                == tail.state
        }),
{
    let st0 = RouterModel { active: seq![a, b], pending: Seq::empty(), stopped: false };
    let p0 = |w: Who| ok(w, 0);
    let att0 = st0.active + st0.pending;
    assert(att0 =~= seq![a, b]);
    lemma_filter_two(a, b, p0);
    assert(att0.filter(p0) =~= seq![a] + seq![b]);
    assert(att0.filter(p0) =~= seq![a, b]);
    lemma_run_cons_event(st0, m0, rest, ok, 0);
    assert(seq![PassRecord { message: m0, attempted: att0, delivered: att0.filter(p0) }] =~~= seq![
        PassRecord { message: m0, attempted: seq![a, b], delivered: seq![a, b] },
    ]);
}

/// Second event: `b`'s send fails and `b` is evicted in the pass.
proof fn lemma_two_subscriber_step1(a: Who, b: Who, m1: Seq<char>, rest: Seq<RouterInput>, ok: SendOutcome)
    requires
        ok(a, 1),
        !ok(b, 1),
    ensures
        ({
            let st1 = RouterModel { active: seq![a, b], pending: Seq::empty(), stopped: false };
            let st2 = RouterModel { active: seq![a], pending: Seq::empty(), stopped: false };
            let tail = run_from(st2, rest, ok, 2);
            run_from(st1, seq![RouterInput::Event(m1)] + rest, ok, 1).log == seq![
                PassRecord { message: m1, attempted: seq![a, b], delivered: seq![a] },
            ] + tail.log && run_from(st1, seq![RouterInput::Event(m1)] + rest, ok, 1).state
                == tail.state
        }),
{
    let st1 = RouterModel { active: seq![a, b], pending: Seq::empty(), stopped: false };
    let p1 = |w: Who| ok(w, 1);
    let att1 = st1.active + st1.pending;
    assert(att1 =~= seq![a, b]);
    lemma_filter_two(a, b, p1);
    assert(att1.filter(p1) =~= seq![a] + Seq::<Who>::empty());
    assert(att1.filter(p1) =~= seq![a]);
    lemma_run_cons_event(st1, m1, rest, ok, 1);
    assert(seq![PassRecord { message: m1, attempted: att1, delivered: att1.filter(p1) }] =~~= seq![
        PassRecord { message: m1, attempted: seq![a, b], delivered: seq![a] },
    ]);
    assert(RouterModel { active: att1.filter(p1), pending: Seq::empty(), stopped: false } =~~= (
    RouterModel { active: seq![a], pending: Seq::empty(), stopped: false }));
}

/// Third event: only `a` is left to attempt.
proof fn lemma_two_subscriber_step2(a: Who, m2: Seq<char>, ok: SendOutcome)
    requires
        ok(a, 2),
    ensures
        ({
            let st2 = RouterModel { active: seq![a], pending: Seq::empty(), stopped: false };
            run_from(st2, seq![RouterInput::Event(m2)], ok, 2).log == seq![
                PassRecord { message: m2, attempted: seq![a], delivered: seq![a] },
            ] && run_from(st2, seq![RouterInput::Event(m2)], ok, 2).state == st2
        }),
{
    let st2 = RouterModel { active: seq![a], pending: Seq::empty(), stopped: false };
    let p2 = |w: Who| ok(w, 2);
    let att2 = st2.active + st2.pending;
    assert(att2 =~= seq![a]);
    lemma_filter_one(a, p2);
    assert(att2.filter(p2) =~= seq![a]);
    let none = Seq::<RouterInput>::empty();
    assert(seq![RouterInput::Event(m2)] =~= seq![RouterInput::Event(m2)] + none);
    lemma_run_cons_event(st2, m2, none, ok, 2);
    let st3 = RouterModel { active: att2.filter(p2), pending: Seq::empty(), stopped: false };
    assert(run_from(st3, none, ok, 3).log =~= Seq::<PassRecord>::empty());
    assert(run_from(st3, none, ok, 3).state == st3);
    assert(seq![PassRecord { message: m2, attempted: att2, delivered: att2.filter(p2) }] + run_from(
        st3,
        none,
        ok,
        3,
    ).log =~~= seq![PassRecord { message: m2, attempted: seq![a], delivered: seq![a] }]);
    assert(st3 =~~= st2);
}

/// The full three-event log of the two-subscriber run, record by record.
proof fn lemma_two_subscriber_log(
    a: Who,
    b: Who,
    m0: Seq<char>,
    m1: Seq<char>,
    m2: Seq<char>,
    ok: SendOutcome,
)
    requires
        a != b,
        ok(a, 0),
        ok(a, 1),
        ok(a, 2),
        ok(b, 0),
        !ok(b, 1),
    ensures
        ({
            let r = run(
                seq![a, b],
                seq![RouterInput::Event(m0), RouterInput::Event(m1), RouterInput::Event(m2)],
                ok,
            );
            r.log == seq![
                PassRecord { message: m0, attempted: seq![a, b], delivered: seq![a, b] },
                PassRecord { message: m1, attempted: seq![a, b], delivered: seq![a] },
                PassRecord { message: m2, attempted: seq![a], delivered: seq![a] },
            ] && r.state.active == seq![a]
        }),
{
    let e0 = RouterInput::Event(m0);
    let e1 = RouterInput::Event(m1);
    let e2 = RouterInput::Event(m2);
    let inputs = seq![e0, e1, e2];
    let rest0 = seq![e1, e2];
    let rest1 = seq![e2];
    assert(inputs =~= seq![e0] + rest0);
    assert(rest0 =~= seq![e1] + rest1);
    lemma_two_subscriber_step0(a, b, m0, rest0, ok);
    lemma_two_subscriber_step1(a, b, m1, rest1, ok);
    lemma_two_subscriber_step2(a, m2, ok);
    let rec0 = PassRecord { message: m0, attempted: seq![a, b], delivered: seq![a, b] };
    let rec1 = PassRecord { message: m1, attempted: seq![a, b], delivered: seq![a] };
    let rec2 = PassRecord { message: m2, attempted: seq![a], delivered: seq![a] };
    let r = run(seq![a, b], inputs, ok);
    assert(r.log =~= seq![rec0] + (seq![rec1] + seq![rec2]));
    assert(r.log =~= seq![rec0, rec1, rec2]);
}

/// Eviction isolation: with subscribers `a` and `b` active, `a`'s sends all
/// succeeding and `b`'s second send failing, three events leave `a` with all
/// three, `b` with only the first, and `b` out of the active set.
pub proof fn eviction_isolated(
    a: Who,
    b: Who,
    m0: Seq<char>,
    m1: Seq<char>,
    m2: Seq<char>,
    ok: SendOutcome,
)
    requires
        a != b,
        ok(a, 0),
        ok(a, 1),
        ok(a, 2),
        ok(b, 0),
        !ok(b, 1),
    ensures
        ({
            let r = run(
                seq![a, b],
                seq![RouterInput::Event(m0), RouterInput::Event(m1), RouterInput::Event(m2)],
                ok,
            );
            r.log.len() == 3 && received_by(r.log, a) == seq![m0, m1, m2] && received_by(r.log, b)
                == seq![m0] && r.state.active == seq![a]
        }),
{
    lemma_two_subscriber_log(a, b, m0, m1, m2, ok);
    let rec0 = PassRecord { message: m0, attempted: seq![a, b], delivered: seq![a, b] };
    let rec1 = PassRecord { message: m1, attempted: seq![a, b], delivered: seq![a] };
    let rec2 = PassRecord { message: m2, attempted: seq![a], delivered: seq![a] };
    let r = run(
        seq![a, b],
        seq![RouterInput::Event(m0), RouterInput::Event(m1), RouterInput::Event(m2)],
        ok,
    );
    let empty_log = Seq::<PassRecord>::empty();
    assert(seq![a, b].contains(a)) by {
        assert(seq![a, b][0] == a);
    }
    assert(seq![a, b].contains(b)) by {
        assert(seq![a, b][1] == b);
    }
    assert(seq![a].contains(a)) by {
        assert(seq![a][0] == a);
    }
    assert(!seq![a].contains(b));
    assert(r.log =~= seq![rec0] + seq![rec1, rec2]);
    assert(seq![rec1, rec2] =~= seq![rec1] + seq![rec2]);
    assert(seq![rec2] =~= seq![rec2] + empty_log);
    assert(received_by(empty_log, a) =~= Seq::<Seq<char>>::empty());
    assert(received_by(empty_log, b) =~= Seq::<Seq<char>>::empty());
    lemma_received_cons(rec2, empty_log, a);
    lemma_received_cons(rec1, seq![rec2], a);
    lemma_received_cons(rec0, seq![rec1, rec2], a);
    assert(received_by(r.log, a) =~= seq![m0, m1, m2]);
    lemma_received_cons(rec2, empty_log, b);
    lemma_received_cons(rec1, seq![rec2], b);
    lemma_received_cons(rec0, seq![rec1, rec2], b);
    assert(received_by(r.log, b) =~= seq![m0]);
}

/// Registration during delivery: a subscriber registered while event `N` is
/// being delivered is not attempted for event `N`, and receives event `N + 1`
/// (its send succeeding).
pub proof fn registration_joins_next_pass(
    active: Seq<Who>,
    c: Who,
    m0: Seq<char>,
    m1: Seq<char>,
    ok: SendOutcome,
)
    requires
        !active.contains(c),
        ok(c, 1),
    ensures
        ({
            let r = run(
                active,
                seq![RouterInput::Event(m0), RouterInput::Register(c), RouterInput::Event(m1)],
                ok,
            );
            r.log.len() == 2 && !r.log[0].attempted.contains(c) && !r.log[0].delivered.contains(c)
                && r.log[1].attempted.contains(c) && r.log[1].delivered.contains(c) && received_by(
                r.log,
                c,
            ) == seq![m1]
        }),
{
    let inputs = seq![RouterInput::Event(m0), RouterInput::Register(c), RouterInput::Event(m1)];
    let i1 = seq![RouterInput::Register(c), RouterInput::Event(m1)];
    let i2 = seq![RouterInput::Event(m1)];
    assert(inputs.drop_first() =~= i1);
    assert(i1.drop_first() =~= i2);
    assert(i2.drop_first() =~= Seq::<RouterInput>::empty());

    let st0 = RouterModel { active, pending: Seq::empty(), stopped: false };
    let p0 = |w: Who| ok(w, 0);
    let p1 = |w: Who| ok(w, 1);

    let att0 = st0.active + st0.pending;
    assert(att0 =~= active);
    let del0 = att0.filter(p0);
    lemma_filter_member(att0, p0, c);
    assert(!del0.contains(c));

    let st1 = RouterModel { active: del0, pending: Seq::empty(), stopped: false };
    let st1r = RouterModel { active: del0, pending: Seq::empty().push(c), stopped: false };
    let att1 = st1r.active + st1r.pending;
    assert(att1.contains(c)) by {
        assert(att1[att1.len() - 1] == c);
    }
    let del1 = att1.filter(p1);
    lemma_filter_member(att1, p1, c);
    assert(del1.contains(c));

    let rec0 = PassRecord { message: m0, attempted: att0, delivered: del0 };
    let rec1 = PassRecord { message: m1, attempted: att1, delivered: del1 };

    let st2 = RouterModel { active: del1, pending: Seq::empty(), stopped: false };
    assert(run_from(st2, Seq::<RouterInput>::empty(), ok, 2).log =~= Seq::<PassRecord>::empty());
    let rr1 = run_from(st1r, i2, ok, 1);
    assert(rr1.log =~= seq![rec1]);
    assert(run_from(st1, i1, ok, 1) == rr1);
    let r = run(active, inputs, ok);
    assert(r.log =~= seq![rec0] + rr1.log);
    assert(r.log =~= seq![rec0, rec1]);

    assert(received_by(Seq::<PassRecord>::empty(), c) =~= Seq::<Seq<char>>::empty());
    assert(seq![rec1].drop_first() =~= Seq::<PassRecord>::empty());
    assert(seq![rec0, rec1].drop_first() =~= seq![rec1]);
    assert(received_by(seq![rec1], c) =~= seq![m1]);
    assert(received_by(seq![rec0, rec1], c) =~= seq![m1]);
    assert(received_by(r.log, c) == seq![m1]);
}

/// A run beginning with quiet polls — transient gaps or discarded payloads —
/// is the run without them: nothing is lost and nothing is terminated.
pub proof fn quiet_prefix_ignored(
    active: Seq<Who>,
    n: nat,
    rest: Seq<RouterInput>,
    ok: SendOutcome,
)
    ensures
        run(active, Seq::new(n, |i: int| RouterInput::Quiet) + rest, ok) == run(active, rest, ok),
    decreases n,
{
    let quiets = Seq::new(n, |i: int| RouterInput::Quiet);
    if n == 0 {
        assert(quiets + rest =~= rest);
    } else {
        let fewer = Seq::new((n - 1) as nat, |i: int| RouterInput::Quiet);
        quiet_prefix_ignored(active, (n - 1) as nat, rest, ok);
        assert((quiets + rest)[0] matches RouterInput::Quiet);
        assert((quiets + rest).drop_first() =~= fewer + rest);
    }
}

/// Terminal feed error: whatever arrives after the feed's terminal failure,
/// nothing further is ever delivered to anyone — the log is exactly the log of
/// the run up to the failure.
pub proof fn terminal_error_is_final(
    active: Seq<Who>,
    pre: Seq<RouterInput>,
    post: Seq<RouterInput>,
    ok: SendOutcome,
)
    ensures
        run(active, pre + seq![RouterInput::Fail] + post, ok).log == run(
            active,
            pre + seq![RouterInput::Fail],
            ok,
        ).log,
{
    let st = RouterModel { active, pending: Seq::empty(), stopped: false };
    let a = pre + seq![RouterInput::Fail];
    lemma_run_splits(st, a, post, ok, 0);
    let ra = run_from(st, a, ok, 0);
    lemma_run_splits(st, pre, seq![RouterInput::Fail], ok, 0);
    let rp = run_from(st, pre, ok, 0);
    let rf = run_from(rp.state, seq![RouterInput::Fail], ok, (0 + rp.log.len()) as nat);
    assert(seq![RouterInput::Fail].drop_first() =~= Seq::<RouterInput>::empty());
    let stopped_state = RouterModel {
        active: rp.state.active,
        pending: rp.state.pending,
        stopped: true,
    };
    assert(run_from(
        stopped_state,
        Seq::<RouterInput>::empty(),
        ok,
        (0 + rp.log.len()) as nat,
    ).state.stopped);
    assert(rf.state.stopped);
    assert(ra.state.stopped);
    lemma_stopped_run_is_silent(ra.state, post, ok, (0 + ra.log.len()) as nat);
    assert(run_from(st, a + post, ok, 0).log =~= ra.log);
}

/// The pass the registry performs and the pass the model takes are the same:
/// over flags read off a predicate, [`keep_flagged`] keeps exactly the
/// filter, so a run's `delivered` sets are what the in-place pruning loop
/// leaves in the active set.
pub proof fn lemma_pass_flags_filter<T>(s: Seq<T>, p: spec_fn(T) -> bool)
    ensures
        keep_flagged(s, Seq::new(s.len(), |i: int| p(s[i]))) == s.filter(p),
    decreases s.len(),
{
    let f = Seq::new(s.len(), |i: int| p(s[i]));
    reveal(Seq::filter);
    if s.len() == 0 {
        assert(keep_flagged(s, f) =~= s.filter(p));
    } else {
        let sd = s.drop_first();
        let fd = Seq::new(sd.len(), |i: int| p(sd[i]));
        assert(f.drop_first() =~= fd);
        lemma_pass_flags_filter(sd, p);
        assert(s =~= seq![s[0]] + sd);
        lemma_filter_one(s[0], p);
        Seq::filter_distributes_over_add(seq![s[0]], sd, p);
        assert(f[0] == p(s[0]));
        assert(keep_flagged(s, f) =~= s.filter(p));
    }
}

} // verus!

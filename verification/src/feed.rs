//! The change feed reader's decisions.
//!
//! The reader holds one listen connection against the store's publish
//! mechanism and polls it forever. Each poll ends one of three ways, and the
//! whole behaviour of the reader is the function from that outcome to what
//! the delivery loop does next: broadcast a parsed event, quietly carry on
//! (transient gap, or a malformed payload discarded), or stop for good on the
//! transport's terminal error. The polling itself is I/O and lives outside;
//! everything it decides is here.

use vstd::prelude::*;

use crate::event::Payload;
use crate::model::PassRecord;
use crate::model::RouterInput;
use crate::model::RouterModel;
use crate::model::SendOutcome;
use crate::model::Who;
use crate::model::lemma_filter_member;
use crate::model::lemma_received_cons;
use crate::model::lemma_run_cons_event;
use crate::model::lemma_run_cons_quiet;
use crate::model::quiet_prefix_ignored;
use crate::model::received_by;
use crate::model::run;
use crate::model::run_from;
use crate::wire::json_of;
use crate::wire::parse_payload;
use crate::wire::payload_from_json;

verus! {

/// The feed transport's terminal failure, as its message text.
pub struct FeedError {
    pub message: String,
}

/// What one poll of the notification channel yielded.
pub enum PollOutcome {
    /// A notification arrived, carrying its payload text.
    Notification(String),
    /// Nothing is available and the connection's state is unclear: the
    /// transport may have dropped and be reconnecting. Not a failure.
    Disconnected,
    /// The poll itself failed: a hard protocol or connection error.
    Failed(FeedError),
}

/// What the delivery loop does with one poll's outcome.
pub enum FeedStep {
    /// A well-formed event to broadcast.
    Event(Payload),
    /// Nothing to broadcast this round; keep polling.
    Skip,
    /// The feed is over; no further event is ever read.
    Terminate(FeedError),
}

/// One step of the feed reader: a notification's payload is parsed and
/// broadcast, a malformed payload is discarded without ending the feed, a
/// transient gap is waited out, and only a hard poll failure ends the feed.
pub fn feed_step(poll: PollOutcome) -> (r: FeedStep)
    ensures
        match poll {
            PollOutcome::Notification(s) => (match payload_from_json(s@) {
                Some(pv) => r matches FeedStep::Event(p) && p@ == pv,
                None => r matches FeedStep::Skip,
            }),
            PollOutcome::Disconnected => r matches FeedStep::Skip,
            PollOutcome::Failed(e) => r matches FeedStep::Terminate(e2) && e2 == e,
        },
{
    match poll {
        PollOutcome::Notification(s) => {
            match parse_payload(s.as_str()) {
                Some(p) => FeedStep::Event(p),
                None => FeedStep::Skip,
            }
        },
        PollOutcome::Disconnected => FeedStep::Skip,
        PollOutcome::Failed(e) => FeedStep::Terminate(e),
    }
}

/// What one notification payload means to the delivery loop: the event's one
/// wire text if it parses, and a quiet round if it is malformed.
pub open spec fn note_input(s: Seq<char>) -> RouterInput {
    match payload_from_json(s) {
        Some(pv) => RouterInput::Event(json_of(pv)),
        None => RouterInput::Quiet,
    }
}

/// Discard and continue: a malformed payload between two well-formed ones
/// delivers exactly the two well-formed events, in order and without
/// interruption, to every subscriber whose sends succeed.
pub proof fn discard_and_continue(
    active: Seq<Who>,
    s1: Seq<char>,
    s2: Seq<char>,
    s3: Seq<char>,
    ok: SendOutcome,
    w: Who,
)
    requires
        payload_from_json(s1) is Some,
        payload_from_json(s2) is None,
        payload_from_json(s3) is Some,
        active.contains(w),
        ok(w, 0),
        ok(w, 1),
    ensures
        ({
            let r = run(active, seq![note_input(s1), note_input(s2), note_input(s3)], ok);
            r.log.len() == 2 && r.log[0].message == json_of(payload_from_json(s1)->0)
                && r.log[1].message == json_of(payload_from_json(s3)->0) && received_by(r.log, w)
                == seq![json_of(payload_from_json(s1)->0), json_of(payload_from_json(s3)->0)]
        }),
{
    let m1 = json_of(payload_from_json(s1)->0);
    let m3 = json_of(payload_from_json(s3)->0);
    assert(note_input(s1) == RouterInput::Event(m1));
    assert(note_input(s2) == RouterInput::Quiet);
    assert(note_input(s3) == RouterInput::Event(m3));
    let inputs = seq![note_input(s1), note_input(s2), note_input(s3)];
    let rest0 = seq![RouterInput::Quiet, RouterInput::Event(m3)];
    let rest1 = seq![RouterInput::Event(m3)];
    let none = Seq::<RouterInput>::empty();
    assert(inputs =~= seq![RouterInput::Event(m1)] + rest0);
    assert(rest0 =~= seq![RouterInput::Quiet] + rest1);
    assert(rest1 =~= seq![RouterInput::Event(m3)] + none);

    let st0 = RouterModel { active, pending: Seq::empty(), stopped: false };
    let p0 = |x: Who| ok(x, 0);
    let p1 = |x: Who| ok(x, 1);
    let att0 = st0.active + st0.pending;
    assert(att0 =~= active);
    let del0 = att0.filter(p0);
    lemma_filter_member(att0, p0, w);
    assert(del0.contains(w));

    lemma_run_cons_event(st0, m1, rest0, ok, 0);
    let st1 = RouterModel { active: del0, pending: Seq::empty(), stopped: false };
    lemma_run_cons_quiet(st1, rest1, ok, 1);
    let att1 = st1.active + st1.pending;
    assert(att1 =~= del0);
    let del1 = att1.filter(p1);
    lemma_filter_member(att1, p1, w);
    assert(del1.contains(w));
    lemma_run_cons_event(st1, m3, none, ok, 1);
    let st2 = RouterModel { active: del1, pending: Seq::empty(), stopped: false };
    assert(run_from(st2, none, ok, 2).log =~= Seq::<PassRecord>::empty());

    let rec0 = PassRecord { message: m1, attempted: att0, delivered: del0 };
    let rec1 = PassRecord { message: m3, attempted: att1, delivered: del1 };
    let r = run(active, inputs, ok);
    assert(r.log =~= seq![rec0] + (seq![rec1] + Seq::<PassRecord>::empty()));
    assert(r.log =~= seq![rec0, rec1]);

    let empty_log = Seq::<PassRecord>::empty();
    assert(received_by(empty_log, w) =~= Seq::<Seq<char>>::empty());
    assert(seq![rec1] =~= seq![rec1] + empty_log);
    assert(r.log =~= seq![rec0] + seq![rec1]);
    lemma_received_cons(rec1, empty_log, w);
    lemma_received_cons(rec0, seq![rec1], w);
    assert(received_by(r.log, w) =~= seq![m1, m3]);
}

/// Transient gap tolerance: any number of quiet polls before a well-formed
/// payload neither ends the feed nor loses the payload's event — the run
/// delivers exactly that one event.
pub proof fn transient_gap_tolerated(active: Seq<Who>, n: nat, s: Seq<char>, ok: SendOutcome)
    requires
        payload_from_json(s) is Some,
    ensures
        ({
            let r = run(active, Seq::new(n, |i: int| RouterInput::Quiet) + seq![note_input(s)], ok);
            r.log.len() == 1 && r.log[0].message == json_of(payload_from_json(s)->0)
        }),
{
    let m = json_of(payload_from_json(s)->0);
    assert(note_input(s) == RouterInput::Event(m));
    quiet_prefix_ignored(active, n, seq![note_input(s)], ok);
    let st0 = RouterModel { active, pending: Seq::empty(), stopped: false };
    let none = Seq::<RouterInput>::empty();
    assert(seq![note_input(s)] =~= seq![RouterInput::Event(m)] + none);
    lemma_run_cons_event(st0, m, none, ok, 0);
    let p0 = |x: Who| ok(x, 0);
    let del0 = (st0.active + st0.pending).filter(p0);
    let st1 = RouterModel { active: del0, pending: Seq::empty(), stopped: false };
    assert(run_from(st1, none, ok, 1).log =~= Seq::<PassRecord>::empty());
    let r = run(active, seq![note_input(s)], ok);
    assert(r.log =~= seq![
        PassRecord { message: m, attempted: st0.active + st0.pending, delivered: del0 },
    ] + Seq::<PassRecord>::empty());
    assert(r.log.len() == 1);
    assert(r.log[0].message == m);
}

} // verus!

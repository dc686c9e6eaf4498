//! The fan-out router's registry: the set of live subscriber routes, the
//! pending additions not yet eligible for delivery, and the bookkeeping steps
//! of one delivery pass.
//!
//! The registry is deliberately free of any transport: a route's `sink` is an
//! arbitrary type owned by the caller, who performs the actual sends and
//! reports their outcomes back through [`ChangeRouter::evict`] or
//! [`prune_failed`]. Everything the registry decides — where a new route
//! waits, when it joins the active set, which routes survive a pass — is
//! stated and proved here.

use vstd::prelude::*;

verus! {

/// One live outbound connection: the write half of its transport and a stable
/// identity derived from the peer.
pub struct ClientRoute<S> {
    pub sink: S,
    pub who: String,
}

/// The router's authoritative state.
///
/// A route appears in at most one of `routes` (the active set, iterated in a
/// stable order during a delivery pass) and `new_routes` (registered since the
/// last pass began, kept aside so registration never contends with delivery).
pub struct ChangeRouter<S> {
    /// Existing routes to notify.
    pub routes: Vec<ClientRoute<S>>,
    /// Newly added routes, merged into `routes` when the next event is processed.
    pub new_routes: Vec<ClientRoute<S>>,
}

impl<S> ChangeRouter<S> {
    /// The identities of the active routes, in delivery order.
    pub open spec fn active_whos(&self) -> Seq<Seq<char>> {
        self.routes@.map_values(|r: ClientRoute<S>| r.who@)
    }

    /// The identities of the routes waiting to join the active set.
    pub open spec fn pending_whos(&self) -> Seq<Seq<char>> {
        self.new_routes@.map_values(|r: ClientRoute<S>| r.who@)
    }

    /// An empty registry: no one to notify, no one waiting.
    pub fn new() -> (r: Self)
        ensures
            r.routes@ == Seq::<ClientRoute<S>>::empty(),
            r.new_routes@ == Seq::<ClientRoute<S>>::empty(),
    {
        ChangeRouter { routes: Vec::new(), new_routes: Vec::new() }
    }

    /// Registers a subscriber: the route always enters the pending set, never
    /// the active one, so a pass already under way is not disturbed.
    pub fn add_client(&mut self, route: ClientRoute<S>)
        ensures
            final(self).routes@ == old(self).routes@,
            final(self).new_routes@ == old(self).new_routes@.push(route),
    {
        self.new_routes.push(route);
    }

    /// Start of a delivery pass: drains every pending route into the active
    /// set, after the routes already present, and leaves the pending set
    /// empty.
    pub fn merge_new_routes(&mut self)
        ensures
            final(self).routes@ == old(self).routes@ + old(self).new_routes@,
            final(self).new_routes@ == Seq::<ClientRoute<S>>::empty(),
    {
        let pending = &mut self.new_routes;
        self.routes.append(pending);
    }

    /// How many routes the current pass visits.
    pub fn route_count(&self) -> (n: usize)
        ensures
            n == self.routes@.len(),
    {
        self.routes.len()
    }

    /// A failed send: removes the route at the given position in place, shifting
    /// the later routes down one slot, and hands the route back so its sink can
    /// be closed. The caller must not advance its index past the removed slot.
    pub fn evict(&mut self, i: usize) -> (r: ClientRoute<S>)
        requires
            i < old(self).routes@.len(),
        ensures
            final(self).routes@ == old(self).routes@.remove(i as int),
            r == old(self).routes@[i as int],
            final(self).new_routes@ == old(self).new_routes@,
    {
        self.routes.remove(i)
    }
}

/// What a subscriber's inbound transport yielded to its lifecycle watcher.
pub enum Inbound {
    /// An explicit close signal, with its optional reason text.
    Close(Option<String>),
    /// An ordinary application message; no subscriber-to-router protocol
    /// exists, so it carries no meaning here.
    Text(String),
    /// Any other frame.
    Other,
}

/// The lifecycle watcher's single decision: keep watching until an explicit
/// close signal arrives, and stop then.
pub fn keep_watching(msg: &Inbound) -> (keep: bool)
    ensures
        keep == !(msg matches Inbound::Close(_)),
{
    !matches!(msg, Inbound::Close(_))
}

/// The routes kept by a pass whose per-route send outcomes are the flags:
/// exactly the routes whose flag is true, in their original order.
pub open spec fn keep_flagged<T>(s: Seq<T>, f: Seq<bool>) -> Seq<T>
    decreases s.len(),
{
    if s.len() == 0 || f.len() == 0 {
        Seq::empty()
    } else {
        (if f[0] {
            seq![s[0]]
        } else {
            Seq::empty()
        }) + keep_flagged(s.drop_first(), f.drop_first())
    }
}

/// The flags negated: marks the evicted routes instead of the kept ones.
pub open spec fn flip_all(f: Seq<bool>) -> Seq<bool> {
    f.map_values(|b: bool| !b)
}

proof fn lemma_keep_flagged_push<T>(s: Seq<T>, f: Seq<bool>, x: T, b: bool)
    requires
        s.len() == f.len(),
    ensures
        keep_flagged(s.push(x), f.push(b)) == keep_flagged(s, f) + (if b {
            seq![x]
        } else {
            Seq::<T>::empty()
        }),
    decreases s.len(),
{
    let tail = if b {
        seq![x]
    } else {
        Seq::<T>::empty()
    };
    if s.len() == 0 {
        assert(s.push(x).drop_first().len() == 0);
        assert(keep_flagged(s.push(x).drop_first(), f.push(b).drop_first()) =~= Seq::<T>::empty());
        assert(keep_flagged(s, f) =~= Seq::<T>::empty());
        assert(s.push(x)[0] == x && f.push(b)[0] == b);
        assert(keep_flagged(s.push(x), f.push(b)) =~= keep_flagged(s, f) + tail);
    } else {
        assert(s.push(x).drop_first() =~= s.drop_first().push(x));
        assert(f.push(b).drop_first() =~= f.drop_first().push(b));
        lemma_keep_flagged_push(s.drop_first(), f.drop_first(), x, b);
        assert(s.push(x)[0] == s[0] && f.push(b)[0] == f[0]);
        assert(keep_flagged(s.push(x), f.push(b)) == (if f[0] {
            seq![s[0]]
        } else {
            Seq::<T>::empty()
        }) + (keep_flagged(s.drop_first(), f.drop_first()) + tail));
        assert(keep_flagged(s.push(x), f.push(b)) =~= keep_flagged(s, f) + tail);
    }
}

/// One delivery pass, applied after the outcome of each route's send is known:
/// removes, in place and without skipping a survivor, every route whose send
/// failed, and returns the evicted routes so their sinks can be closed.
///
/// The active set afterwards holds exactly the routes that were sent to
/// successfully, in their original order; the evicted routes come back in
/// their original order too.
pub fn prune_failed<S>(routes: &mut Vec<ClientRoute<S>>, sent_ok: &Vec<bool>) -> (evicted: Vec<
    ClientRoute<S>,
>)
    requires
        old(routes)@.len() == sent_ok@.len(),
    ensures
        final(routes)@ == keep_flagged(old(routes)@, sent_ok@),
        evicted@ == keep_flagged(old(routes)@, flip_all(sent_ok@)),
{
    let ghost orig = routes@;
    let ghost flags = sent_ok@;
    let mut evicted: Vec<ClientRoute<S>> = Vec::new();
    let n = sent_ok.len();
    let mut i: usize = 0;
    let mut j: usize = 0;
    while j < n
        invariant
            n == flags.len(),
            n == orig.len(),
            j <= n,
            i <= j,
            flags == sent_ok@,
            routes@ == keep_flagged(orig.take(j as int), flags.take(j as int)) + orig.skip(
                j as int,
            ),
            i == keep_flagged(orig.take(j as int), flags.take(j as int)).len(),
            evicted@ == keep_flagged(orig.take(j as int), flip_all(flags.take(j as int))),
        decreases n - j,
    {
        proof {
            assert(orig.skip(j as int).len() == n - j);
            assert(routes@[i as int] == orig.skip(j as int)[0]);
            assert(orig.skip(j as int)[0] == orig[j as int]);
            assert(orig.take(j + 1 as int) =~= orig.take(j as int).push(orig[j as int]));
            assert(flags.take(j + 1 as int) =~= flags.take(j as int).push(flags[j as int]));
            assert(flip_all(flags.take(j + 1 as int)) =~= flip_all(flags.take(j as int)).push(
                !flags[j as int],
            ));
            lemma_keep_flagged_push(
                orig.take(j as int),
                flags.take(j as int),
                orig[j as int],
                flags[j as int],
            );
            lemma_keep_flagged_push(
                orig.take(j as int),
                flip_all(flags.take(j as int)),
                orig[j as int],
                !flags[j as int],
            );
            assert(orig.skip(j + 1 as int) =~= orig.skip(j as int).drop_first());
        }
        if sent_ok[j] {
            i = i + 1;
            proof {
                assert(routes@ =~= keep_flagged(orig.take(j + 1 as int), flags.take(j + 1 as int))
                    + orig.skip(j + 1 as int));
            }
        } else {
            let r = routes.remove(i);
            evicted.push(r);
            proof {
                assert(routes@ =~= keep_flagged(orig.take(j + 1 as int), flags.take(j + 1 as int))
                    + orig.skip(j + 1 as int));
            }
        }
        j = j + 1;
    }
    proof {
        assert(orig.take(n as int) =~= orig);
        assert(flags.take(n as int) =~= flags);
        assert(orig.skip(n as int) =~= Seq::<ClientRoute<S>>::empty());
        assert(routes@ =~= keep_flagged(orig, flags));
    }
    evicted
}

} // verus!

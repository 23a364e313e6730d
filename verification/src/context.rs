//! The concurrent directory of logged-in users.
//!
//! `UserPool` maps each registered handle to the producer end of that user's
//! outbound message queue. The map is a `dashmap::DashMap` and the queues are
//! `futures_channel` unbounded channels; both are outside crates, so each
//! operation on them stands behind a trusted wrapper whose contract states
//! what their sources show. The directory is modelled by two names:
//! [`pool_queues`], mapping each registered handle to the history of frames
//! enqueued onto its queue through the pool, and [`pool_handles`], its
//! domain. Registration, removal, and what every broadcast enqueues onto
//! which queue are verified against that model.

use vstd::prelude::*;

use futures_channel::mpsc::{UnboundedReceiver, UnboundedSender};

use crate::frame::{ServerFrame, ServerFrameView};

verus! {

#[verifier::external_type_specification]
#[verifier::external_body]
#[verifier::reject_recursive_types(T)]
pub struct ExUnboundedSender<T>(UnboundedSender<T>);

#[verifier::external_type_specification]
#[verifier::external_body]
#[verifier::reject_recursive_types(T)]
pub struct ExUnboundedReceiver<T>(UnboundedReceiver<T>);

#[verifier::external_type_specification]
#[verifier::external_body]
#[verifier::reject_recursive_types(K)]
#[verifier::reject_recursive_types(V)]
#[verifier::reject_recursive_types(S)]
pub struct ExDashMap<K, V, S>(dashmap::DashMap<K, V, S>);

/// The directory: handle → producer end of that user's outbound queue.
/// At most one entry per handle at any instant; an entry lives exactly from
/// a successful registration to its removal.
pub struct UserPool {
    inner: dashmap::DashMap<String, UnboundedSender<ServerFrame>>,
}

/// For each currently registered handle, the frames handed to its queue's
/// channel through this pool since the entry was created, in order. The
/// channel enqueues each such frame after everything before it, except that
/// a channel whose consuming end is gone drops the frame silently — so this
/// is the queue's delivery history whenever its consumer lives. It is a
/// history, not the queue's current contents: draining the consuming end
/// does not shorten it. The guard that `register_user` returns holds a
/// second producer for the same queue; what is sent through the guard is
/// tracked per guard ([`UserGuard::sent`]), not here.
pub uninterp spec fn pool_queues(p: UserPool) -> Map<Seq<char>, Seq<ServerFrameView>>;

/// The set of handles the directory currently holds.
pub open spec fn pool_handles(p: UserPool) -> Set<Seq<char>> {
    pool_queues(p).dom()
}

/// The directory model of an empty pool: no handle, no queue.
pub open spec fn empty_queues() -> Map<Seq<char>, Seq<ServerFrameView>> {
    Map::empty()
}

/// The character sequences of a sequence of handles.
pub open spec fn seq_views(handles: Seq<String>) -> Seq<Seq<char>> {
    handles.map_values(|h: String| h@)
}

/// The queue history at `h` gained exactly `f` at its end.
pub open spec fn queue_gained(
    before: Map<Seq<char>, Seq<ServerFrameView>>,
    after: Map<Seq<char>, Seq<ServerFrameView>>,
    h: Seq<char>,
    f: ServerFrameView,
) -> bool {
    after[h] == before[h].push(f)
}

/// The frames handed to the channel through this producer, in send order
/// (the channel drops a frame only when its consuming end is gone, as for
/// [`pool_queues`]). A fresh producer — a new channel's sender, or a clone —
/// starts with an empty history.
pub uninterp spec fn sender_history(tx: UnboundedSender<ServerFrame>) -> Seq<ServerFrameView>;

/// Proof of registration: handle `H` is currently in the directory, backed by
/// this queue. Created only by a successful `register_user`; the session that
/// owns it must hand it back to the directory on every exit path, which
/// removes the entry again.
pub struct UserGuard {
    handle: String,
    tx: UnboundedSender<ServerFrame>,
    rx: Option<UnboundedReceiver<ServerFrame>>,
}

impl View for UserGuard {
    type V = Seq<char>;

    /// The registered handle this guard stands for.
    closed spec fn view(&self) -> Seq<char> {
        self.handle@
    }
}

impl UserGuard {
    /// Whether the consuming end of the queue is still held by the guard.
    pub closed spec fn has_rx(&self) -> bool {
        self.rx is Some
    }

    /// The frames sent onto this user's queue through this guard, in order.
    pub closed spec fn sent(&self) -> Seq<ServerFrameView> {
        sender_history(self.tx)
    }

    /// The registered handle.
    pub fn handle(&self) -> (r: &str)
        ensures
            r@ == self@,
    {
        self.handle.as_str()
    }

    /// An owned copy of the registered handle.
    pub fn handle_string(&self) -> (r: String)
        ensures
            r@ == self@,
    {
        self.handle.clone()
    }

    /// Give up the guard, keeping only the handle. The queue ends held by
    /// the guard are dropped with it.
    pub fn into_handle(self) -> (r: String)
        ensures
            r@ == self@,
    {
        self.handle
    }

    /// Hand a frame to this user's own outbound queue, after everything
    /// previously sent through this guard. `true` when the frame was queued;
    /// `false` when the consuming end is gone — the frame is then dropped,
    /// never an error.
    pub fn send(&mut self, frame: ServerFrame) -> (r: bool)
        ensures
            final(self)@ == old(self)@,
            final(self).has_rx() == old(self).has_rx(),
            final(self).sent() == old(self).sent().push(frame@),
    {
        queue_send(&mut self.tx, frame)
    }

    /// Hand out the consuming end of the queue; present until first taken.
    /// It is the queue's only consumer: the pool's producer and this guard's
    /// feed it, nothing else drains it.
    pub fn take_rx(&mut self) -> (r: Option<UnboundedReceiver<ServerFrame>>)
        ensures
            r is Some <==> old(self).has_rx(),
            !final(self).has_rx(),
            final(self)@ == old(self)@,
            final(self).sent() == old(self).sent(),
    {
        self.rx.take()
    }
}

/// Relies on `futures_channel::mpsc::unbounded`: a fresh queue, its producer
/// (through which nothing has been sent yet) and its sole consumer.
#[verifier::external_body]
fn new_queue() -> (r: (UnboundedSender<ServerFrame>, UnboundedReceiver<ServerFrame>))
    ensures
        sender_history(r.0) == Seq::<ServerFrameView>::empty(),
{
    futures_channel::mpsc::unbounded()
}

/// Relies on `UnboundedSender::clone`: another producer for the same queue,
/// through which nothing has been sent yet.
#[verifier::external_body]
fn clone_queue_sender(tx: &UnboundedSender<ServerFrame>) -> (r: UnboundedSender<ServerFrame>)
    ensures
        sender_history(r) == Seq::<ServerFrameView>::empty(),
{
    tx.clone()
}

/// Relies on `UnboundedSender::unbounded_send`: the frame is handed to the
/// channel, which appends it at the tail of the queue after everything
/// previously sent through this producer; it fails, dropping the frame,
/// exactly when the consuming end is gone, and never panics.
#[verifier::external_body]
fn queue_send(tx: &mut UnboundedSender<ServerFrame>, frame: ServerFrame) -> (r: bool)
    ensures
        sender_history(*final(tx)) == sender_history(*old(tx)).push(frame@),
{
    tx.unbounded_send(frame).is_ok()
}

impl UserPool {
    /// Relies on `DashMap::new`: a freshly created map is empty.
    #[verifier::external_body]
    pub fn new() -> (r: UserPool)
        ensures
            pool_queues(r) == empty_queues(),
    {
        UserPool { inner: dashmap::DashMap::new() }
    }

    /// Relies on `DashMap::contains_key`.
    #[verifier::external_body]
    pub fn contains(&self, handle: &String) -> (r: bool)
        ensures
            r == pool_handles(*self).contains(handle@),
    {
        self.inner.contains_key(handle)
    }

    /// Relies on `DashMap::entry`: the look-up and the insert happen under
    /// one entry lock, so of two racing inserts of the same handle exactly
    /// one sees the vacant entry. A new entry's enqueue history is empty.
    #[verifier::external_body]
    fn try_insert(&mut self, handle: String, tx: UnboundedSender<ServerFrame>) -> (r: bool)
        ensures
            r == !pool_handles(*old(self)).contains(handle@),
            r ==> pool_queues(*final(self)) == pool_queues(*old(self)).insert(
                handle@,
                Seq::<ServerFrameView>::empty(),
            ),
            !r ==> pool_queues(*final(self)) == pool_queues(*old(self)),
    {
        match self.inner.entry(handle) {
            dashmap::mapref::entry::Entry::Occupied(_) => false,
            dashmap::mapref::entry::Entry::Vacant(entry) => {
                entry.insert(tx);
                true
            },
        }
    }

    /// Relies on `DashMap::remove`: deletes the entry if present, with its
    /// queue history; every other entry is untouched.
    #[verifier::external_body]
    fn remove_inner(&mut self, handle: &String)
        ensures
            pool_queues(*final(self)) == pool_queues(*old(self)).remove(handle@),
    {
        let _ = self.inner.remove(handle);
    }

    /// Relies on `DashMap::iter`: yields each entry exactly once, releasing
    /// the per-entry guard as the loop moves on, so the walk never holds up
    /// writers to entries it has passed or skipped. The order is unspecified.
    #[verifier::external_body]
    pub fn snapshot_handles(&self) -> (r: Vec<String>)
        ensures
            seq_views(r@).to_set() == pool_handles(*self),
            seq_views(r@).no_duplicates(),
    {
        let mut v = Vec::new();
        for entry in self.inner.iter() {
            v.push(entry.key().clone());
        }
        v
    }

    /// Relies on `DashMap::get` and `UnboundedSender::unbounded_send`: when
    /// `handle` is registered, the frame is handed to its queue's channel,
    /// which appends it at the tail after everything previously enqueued
    /// there through the pool, unless the consumer is gone (the frame is
    /// then dropped and `false` comes back — swallowed, never propagated);
    /// when `handle` is absent, nothing happens and `false` comes back.
    #[verifier::external_body]
    pub(crate) fn send_to(&mut self, handle: &String, frame: ServerFrame) -> (r: bool)
        ensures
            r ==> pool_handles(*old(self)).contains(handle@),
            pool_handles(*old(self)).contains(handle@) ==> pool_queues(*final(self))
                == pool_queues(*old(self)).insert(
                handle@,
                pool_queues(*old(self))[handle@].push(frame@),
            ),
            !pool_handles(*old(self)).contains(handle@) ==> pool_queues(*final(self))
                == pool_queues(*old(self)),
    {
        match self.inner.get(handle) {
            Some(entry) => entry.value().unbounded_send(frame).is_ok(),
            None => false,
        }
    }

    /// Atomically claim `handle`: checks and inserts in a single critical
    /// section, so of two racing registrations of one handle exactly one
    /// wins. On success the directory gains exactly that one entry, backed
    /// by a fresh, empty queue whose only consumer the guard holds (the pool
    /// keeps a producer for the same queue; the guard carries another).
    /// `None` exactly when the handle is already taken, and the directory —
    /// every entry and its queue — is then unchanged.
    pub fn register_user(&mut self, handle: String) -> (r: Option<UserGuard>)
        ensures
            r is Some <==> !pool_handles(*old(self)).contains(handle@),
            r matches Some(g) ==> {
                &&& pool_queues(*final(self)) == pool_queues(*old(self)).insert(
                    handle@,
                    Seq::<ServerFrameView>::empty(),
                )
                &&& g@ == handle@
                &&& g.has_rx()
                &&& g.sent() == Seq::<ServerFrameView>::empty()
            },
            r is None ==> pool_queues(*final(self)) == pool_queues(*old(self)),
    {
        let (tx, rx) = new_queue();
        let pool_tx = clone_queue_sender(&tx);
        if self.try_insert(handle.clone(), pool_tx) {
            Some(UserGuard { handle, tx, rx: Some(rx) })
        } else {
            None
        }
    }

    /// Delete `handle`'s entry; a no-op when it is absent. Every other entry
    /// and its queue are untouched.
    pub(crate) fn remove_user(&mut self, handle: &String)
        ensures
            pool_queues(*final(self)) == pool_queues(*old(self)).remove(handle@),
    {
        self.remove_inner(handle);
    }

    /// Hand a copy of `frame` to every currently registered user's queue,
    /// each exactly once, after everything previously enqueued there (a
    /// queue whose consumer is gone drops its copy silently, never an
    /// error). The set of registered handles is unchanged.
    pub fn broadcast(&mut self, frame: &ServerFrame)
        ensures
            pool_handles(*final(self)) == pool_handles(*old(self)),
            forall|h: Seq<char>| #[trigger] pool_handles(*old(self)).contains(h)
                ==> queue_gained(
                    pool_queues(*old(self)),
                    pool_queues(*final(self)),
                    h,
                    frame@,
                ),
    {
        let targets = self.snapshot_handles();
        self.deliver(targets, None, frame);
    }

    /// Like [`Self::broadcast`], but the entry matching `except` receives
    /// nothing: its queue history is unchanged, every other registered
    /// queue's gains `frame` at its end. When `except` is not registered the
    /// effect is exactly that of a plain broadcast.
    pub fn broadcast_except(&mut self, except: &String, frame: &ServerFrame)
        ensures
            pool_handles(*final(self)) == pool_handles(*old(self)),
            forall|h: Seq<char>| #[trigger] pool_handles(*old(self)).contains(h) ==> (if h
                == except@ {
                pool_queues(*final(self))[h] == pool_queues(*old(self))[h]
            } else {
                queue_gained(
                    pool_queues(*old(self)),
                    pool_queues(*final(self)),
                    h,
                    frame@,
                )
            }),
    {
        let targets = self.snapshot_handles();
        self.deliver(targets, Some(except), frame);
    }

    /// Hand a copy of `frame` to each of `targets` once, skipping the one
    /// matching `skip` if any: each registered target's queue history gains
    /// `frame` at its end; the skipped handle's, and every handle outside
    /// `targets`, stays as it was.
    fn deliver(&mut self, targets: Vec<String>, skip: Option<&String>, frame: &ServerFrame)
        requires
            seq_views(targets@).no_duplicates(),
            seq_views(targets@).to_set() == pool_handles(*old(self)),
        ensures
            pool_handles(*final(self)) == pool_handles(*old(self)),
            forall|h: Seq<char>| #[trigger] pool_handles(*old(self)).contains(h) ==> (if Some(h)
                == skip_view(skip) {
                pool_queues(*final(self))[h] == pool_queues(*old(self))[h]
            } else {
                queue_gained(
                    pool_queues(*old(self)),
                    pool_queues(*final(self)),
                    h,
                    frame@,
                )
            }),
    {
        let mut i: usize = 0;
        while i < targets.len()
            invariant
                i <= targets@.len(),
                seq_views(targets@).no_duplicates(),
                seq_views(targets@).to_set() == pool_handles(*old(self)),
                pool_handles(*self) == pool_handles(*old(self)),
                forall|h: Seq<char>| #[trigger] pool_handles(*old(self)).contains(h) ==> (if
                    delivered_prefix(targets@, i as int, h) && Some(h) != skip_view(skip) {
                    queue_gained(
                        pool_queues(*old(self)),
                        pool_queues(*self),
                        h,
                        frame@,
                    )
                } else {
                    pool_queues(*self)[h] == pool_queues(*old(self))[h]
                }),
            decreases targets@.len() - i,
        {
            let ghost pre = pool_queues(*self);
            let skipped: bool = match skip {
                Some(e) => targets[i] == *e,
                None => false,
            };
            if !skipped {
                let _ = self.send_to(&targets[i], frame.duplicate());
            }
            proof {
                let t = seq_views(targets@)[i as int];
                assert forall|h: Seq<char>| #[trigger] pool_handles(
                    *old(self),
                ).contains(h) implies (if delivered_prefix(targets@, i + 1, h) && Some(h)
                    != skip_view(skip) {
                    queue_gained(
                        pool_queues(*old(self)),
                        pool_queues(*self),
                        h,
                        frame@,
                    )
                } else {
                    pool_queues(*self)[h] == pool_queues(*old(self))[h]
                }) by {
                    if h == t {
                        assert(seq_views(targets@)[i as int] == h);
                        assert(delivered_prefix(targets@, i + 1, h));
                        assert(!delivered_prefix(targets@, i as int, h)) by {
                            if delivered_prefix(targets@, i as int, h) {
                                let j = choose|j: int|
                                    0 <= j < i && seq_views(targets@)[j] == h;
                                assert(seq_views(targets@)[j] == seq_views(
                                    targets@,
                                )[i as int]);
                            }
                        }
                    } else {
                        if delivered_prefix(targets@, i as int, h) {
                            let j = choose|j: int| 0 <= j < i && seq_views(targets@)[j] == h;
                            assert(0 <= j < i + 1 && seq_views(targets@)[j] == h);
                            assert(delivered_prefix(targets@, i + 1, h));
                        } else {
                            assert(!delivered_prefix(targets@, i + 1, h)) by {
                                if delivered_prefix(targets@, i + 1, h) {
                                    let j = choose|j: int|
                                        0 <= j < i + 1 && seq_views(targets@)[j] == h;
                                    assert(j == i || delivered_prefix(targets@, i as int, h));
                                }
                            }
                        }
                        assert(pool_queues(*self)[h] == pre[h]);
                    }
                }
            }
            i = i + 1;
        }
        proof {
            assert forall|h: Seq<char>| #[trigger] pool_handles(*old(self)).contains(
                h,
            ) implies delivered_prefix(targets@, targets@.len() as int, h) by {
                assert(seq_views(targets@).to_set().contains(h));
                assert(seq_views(targets@).contains(h));
            }
        }
    }
}

/// Whether `h` occurs among the first `i` of the targets.
spec fn delivered_prefix(targets: Seq<String>, i: int, h: Seq<char>) -> bool {
    exists|j: int| 0 <= j < i && seq_views(targets)[j] == h
}

/// The skipped handle, if any.
spec fn skip_view(skip: Option<&String>) -> Option<Seq<char>> {
    match skip {
        Some(e) => Some(e@),
        None => None,
    }
}

/// Shared state handed to every connection task.
pub struct Context {
    pub users: UserPool,
}

impl Context {
    /// A fresh context with an empty user directory.
    pub fn new() -> (r: Context)
        ensures
            pool_queues(r.users) == empty_queues(),
            pool_handles(r.users) == Set::<Seq<char>>::empty(),
    {
        let r = Context { users: UserPool::new() };
        proof {
            assert(pool_queues(r.users).dom() =~= Set::<Seq<char>>::empty());
        }
        r
    }

    /// The user directory.
    pub fn users(&self) -> (r: &UserPool)
        ensures
            *r == self.users,
    {
        &self.users
    }
}

/// Uniqueness law: once a registration of `h` has succeeded, any further
/// registration of `h` fails until the handle is removed, and can succeed
/// again afterwards. Reads together with `register_user`'s contract:
/// registration succeeds exactly on handles the directory does not contain.
pub proof fn lemma_register_uniqueness(before: Set<Seq<char>>, h: Seq<char>)
    requires
        !before.contains(h),
    ensures
        before.insert(h).contains(h),
        !before.insert(h).remove(h).contains(h),
{
}

/// Cleanup law: after the guard for `h` has been handed back (on any exit
/// path), the directory no longer contains `h`, whatever else it holds.
/// Reads together with `remove_user`'s contract.
pub proof fn lemma_release_cleans_up(before: Set<Seq<char>>, h: Seq<char>)
    ensures
        !before.remove(h).contains(h),
{
}

} // verus!

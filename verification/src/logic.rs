//! Per-connection session steps.
//!
//! A connection cycles AwaitingLogin → Active → AwaitingLogin → … until it
//! terminates. The decisions of that state machine are pure functions here,
//! from the current directory and the next inbound item to the next state,
//! the replies owed on the connection's own sink, and what is enqueued onto
//! which user's queue; the surrounding I/O loop (reading frames, writing the
//! sink, racing the outbound queue) is transport plumbing and stays outside
//! the library.

use vstd::prelude::*;
use vstd::string::StringExecFns;

use crate::context::{
    pool_handles, pool_queues, queue_gained, seq_views, UserGuard, UserPool,
};
use crate::frame::{ClientFrame, ClientFrameType, DecodeError, ServerFrame, ServerFrameView};

verus! {

/// What the session does with the next inbound item while awaiting login.
pub enum LoginStep {
    /// No next item, a malformed first item, or a frame that is not a login:
    /// a protocol violation or early disconnect; tear the connection down.
    Terminate,
    /// The handle was taken: send this reply on the sink and await another
    /// login on the same connection.
    Rejected(ServerFrame),
    /// Logged in: the registration guard, and the replies owed to this
    /// connection's sink, in order.
    LoggedIn(UserGuard, Vec<ServerFrame>),
}

/// What the session does with the next inbound item while active.
pub enum ChatStep {
    /// Keep reading: the item was a chat message (now acknowledged and
    /// relayed), a malformed frame (ignored), or a frame kind that is
    /// ignored while active.
    Continue,
    /// A logout frame with this correlation id: release the guard, then
    /// acknowledge with `Okay(id)` on the sink, then await another login.
    LoggedOut(u8),
    /// The inbound sequence ended: a disconnect; release the guard.
    Disconnected,
}

/// Whether the inbound item is a well-formed login request.
pub open spec fn is_login_item(item: Option<Result<ClientFrame, DecodeError>>) -> bool {
    match item {
        Some(Ok(f)) => f.data is Login,
        _ => false,
    }
}

/// The correlation id of a login item.
pub open spec fn login_id(item: Option<Result<ClientFrame, DecodeError>>) -> u8 {
    match item {
        Some(Ok(f)) => f.id,
        _ => arbitrary(),
    }
}

/// The requested handle of a login item.
pub open spec fn login_handle(item: Option<Result<ClientFrame, DecodeError>>) -> Seq<char> {
    match item {
        Some(Ok(f)) => match f.data {
            ClientFrameType::Login(h) => h@,
            _ => arbitrary(),
        },
        _ => arbitrary(),
    }
}

/// The handles named by the `Present` replies that follow the leading
/// acknowledgement.
pub open spec fn present_handles(replies: Seq<ServerFrame>) -> Seq<Seq<char>> {
    replies.skip(1).map_values(
        (|f: ServerFrame|
            match f {
                ServerFrame::Present(h) => h@,
                _ => arbitrary(),
            }),
    )
}

/// Handle one inbound item while the connection awaits a login.
///
/// On a login for a free handle: the handle is registered, backed by a fresh
/// empty queue; `Login(handle)` is handed to every other user's queue (one
/// whose consumer is gone drops it); the sink is owed `Okay(id)` followed by
/// one `Present(peer)` for each handle that was registered just before this
/// one, each exactly once (their order is the directory's, unspecified). On
/// a login for a taken handle: the directory and every queue are unchanged
/// and the sink is owed `Error(id, "handle taken")`. Anything else
/// terminates the connection.
pub fn handle_login(pool: &mut UserPool, item: Option<Result<ClientFrame, DecodeError>>) -> (r:
    LoginStep)
    ensures
        !is_login_item(item) ==> (r is Terminate && pool_queues(*final(pool)) == pool_queues(
            *old(pool),
        )),
        is_login_item(item) ==> (match r {
            LoginStep::Terminate => false,
            LoginStep::Rejected(reply) => {
                &&& pool_handles(*old(pool)).contains(login_handle(item))
                &&& pool_queues(*final(pool)) == pool_queues(*old(pool))
                &&& reply@ == ServerFrameView::Error(login_id(item), "handle taken"@)
            },
            LoginStep::LoggedIn(guard, replies) => {
                &&& !pool_handles(*old(pool)).contains(login_handle(item))
                &&& pool_handles(*final(pool)) == pool_handles(*old(pool)).insert(
                    login_handle(item),
                )
                &&& pool_queues(*final(pool))[login_handle(item)]
                    == Seq::<ServerFrameView>::empty()
                &&& (forall|h: Seq<char>| #[trigger] pool_handles(*old(pool)).contains(h)
                    ==> queue_gained(
                        pool_queues(*old(pool)),
                        pool_queues(*final(pool)),
                        h,
                        ServerFrameView::Login(login_handle(item)),
                    ))
                &&& guard@ == login_handle(item)
                &&& guard.has_rx()
                &&& guard.sent() == Seq::<ServerFrameView>::empty()
                &&& replies@.len() >= 1
                &&& replies@[0]@ == ServerFrameView::Okay(login_id(item))
                &&& (forall|j: int|
                    1 <= j < replies@.len() ==> (#[trigger] replies@[j])@ is Present)
                &&& present_handles(replies@).to_set() == pool_handles(*old(pool))
                &&& present_handles(replies@).no_duplicates()
            },
        }),
{
    match item {
        Some(Ok(frame)) => {
            let id = frame.id;
            match frame.data {
                ClientFrameType::Login(handle) => {
                    let peers = pool.snapshot_handles();
                    match pool.register_user(handle.clone()) {
                        Some(guard) => {
                            let ghost mid = *pool;
                            pool.broadcast_except(
                                &handle,
                                &ServerFrame::Login(handle.clone()),
                            );
                            proof {
                                assert(pool_handles(mid).contains(handle@));
                                assert forall|h: Seq<char>| #[trigger] pool_handles(
                                    *old(pool),
                                ).contains(h) implies queue_gained(
                                    pool_queues(*old(pool)),
                                    pool_queues(*pool),
                                    h,
                                    ServerFrameView::Login(handle@),
                                ) by {
                                    assert(pool_handles(mid).contains(h));
                                    assert(h != handle@);
                                    assert(pool_queues(mid)[h] == pool_queues(*old(pool))[h]);
                                }
                                assert(pool_handles(*pool) =~= pool_handles(
                                    *old(pool),
                                ).insert(handle@));
                            }
                            let mut replies: Vec<ServerFrame> = Vec::new();
                            replies.push(ServerFrame::Okay(id));
                            let mut i: usize = 0;
                            while i < peers.len()
                                invariant
                                    i <= peers@.len(),
                                    replies@.len() == i + 1,
                                    replies@[0] == ServerFrame::Okay(id),
                                    forall|j: int|
                                        1 <= j <= i ==> #[trigger] replies@[j]
                                            == ServerFrame::Present(peers@[j - 1]),
                                decreases peers@.len() - i,
                            {
                                replies.push(ServerFrame::Present(peers[i].clone()));
                                i = i + 1;
                            }
                            proof {
                                assert(present_handles(replies@) =~= seq_views(peers@));
                            }
                            LoginStep::LoggedIn(guard, replies)
                        },
                        None => LoginStep::Rejected(
                            ServerFrame::Error(id, String::from_str("handle taken")),
                        ),
                    }
                },
                _ => LoginStep::Terminate,
            }
        },
        _ => LoginStep::Terminate,
    }
}

/// Handle one inbound item while the connection is active as `user`.
///
/// A chat message `Msg(text)` with id `i` is acknowledged with `Okay(i)`
/// handed to the sender's own queue, and `Broadcast{sender, text}` is handed
/// to every other registered user's queue (a queue whose consumer is gone
/// drops its copy; the sender's own never receives the broadcast); a
/// logout yields `LoggedOut(id)`; the end of the inbound sequence yields
/// `Disconnected`; a malformed frame, or a frame kind not recognized here,
/// is ignored and reading continues. On everything but a chat message, the
/// directory and every queue are unchanged.
pub fn handle_chat_msgs(
    pool: &mut UserPool,
    user: &UserGuard,
    item: Option<Result<ClientFrame, DecodeError>>,
) -> (r: ChatStep)
    ensures
        (match item {
            None => r is Disconnected && pool_queues(*final(pool)) == pool_queues(*old(pool)),
            Some(decoded) => match decoded {
                Ok(f) => match f.data {
                    ClientFrameType::Login(_) => r is Continue && pool_queues(*final(pool))
                        == pool_queues(*old(pool)),
                    ClientFrameType::Msg(text) => {
                        &&& r is Continue
                        &&& pool_handles(*final(pool)) == pool_handles(*old(pool))
                        &&& (forall|h: Seq<char>| #[trigger] pool_handles(
                            *old(pool),
                        ).contains(h) ==> (if h == user@ {
                            queue_gained(
                                pool_queues(*old(pool)),
                                pool_queues(*final(pool)),
                                h,
                                ServerFrameView::Okay(f.id),
                            )
                        } else {
                            queue_gained(
                                pool_queues(*old(pool)),
                                pool_queues(*final(pool)),
                                h,
                                ServerFrameView::Broadcast { sender: user@, msg: text@ },
                            )
                        }))
                    },
                    ClientFrameType::Logout => r == ChatStep::LoggedOut(f.id) && pool_queues(
                        *final(pool),
                    ) == pool_queues(*old(pool)),
                },
                _ => r is Continue && pool_queues(*final(pool)) == pool_queues(*old(pool)),
            },
        }),
{
    match item {
        None => ChatStep::Disconnected,
        Some(decoded) => match decoded {
            Ok(frame) => match frame.data {
                ClientFrameType::Msg(text) => {
                    let sender = user.handle_string();
                    let _ = pool.send_to(&sender, ServerFrame::Okay(frame.id));
                    let ghost mid = *pool;
                    proof {
                        assert(pool_handles(mid) =~= pool_handles(*old(pool)));
                    }
                    pool.broadcast_except(
                        &sender,
                        &ServerFrame::Broadcast { sender: sender.clone(), msg: text },
                    );
                    proof {
                        assert forall|h: Seq<char>| #[trigger] pool_handles(
                            *old(pool),
                        ).contains(h) implies (if h == user@ {
                            queue_gained(
                                pool_queues(*old(pool)),
                                pool_queues(*pool),
                                h,
                                ServerFrameView::Okay(frame.id),
                            )
                        } else {
                            queue_gained(
                                pool_queues(*old(pool)),
                                pool_queues(*pool),
                                h,
                                ServerFrameView::Broadcast { sender: user@, msg: text@ },
                            )
                        }) by {
                            assert(pool_handles(mid).contains(h));
                            if h == user@ {
                                assert(pool_queues(*pool)[h] == pool_queues(mid)[h]);
                            } else {
                                assert(pool_queues(mid)[h] == pool_queues(*old(pool))[h]);
                            }
                        }
                        assert(pool_handles(*pool) =~= pool_handles(*old(pool)));
                    }
                    ChatStep::Continue
                },
                ClientFrameType::Logout => ChatStep::LoggedOut(frame.id),
                ClientFrameType::Login(_) => ChatStep::Continue,
            },
            _ => ChatStep::Continue,
        },
    }
}

/// Release a registration, on any exit path: remove the handle from the
/// directory, then hand `Logout(handle)` to every remaining user's queue (a
/// queue whose consumer is gone drops it). Safe when the handle is already
/// gone: removal of an absent handle is a no-op.
pub fn release_user(pool: &mut UserPool, user: UserGuard)
    ensures
        pool_handles(*final(pool)) == pool_handles(*old(pool)).remove(user@),
        forall|h: Seq<char>|
            #[trigger] pool_handles(*old(pool)).contains(h) && h != user@
                ==> queue_gained(
                pool_queues(*old(pool)),
                pool_queues(*final(pool)),
                h,
                ServerFrameView::Logout(user@),
            ),
{
    let ghost user_handle = user@;
    let handle = user.into_handle();
    pool.remove_user(&handle);
    let ghost mid = *pool;
    pool.broadcast(&ServerFrame::Logout(handle));
    proof {
        assert forall|h: Seq<char>|
            #[trigger] pool_handles(*old(pool)).contains(h) && h
                != user_handle implies queue_gained(
            pool_queues(*old(pool)),
            pool_queues(*pool),
            h,
            ServerFrameView::Logout(user_handle),
        ) by {
            assert(pool_handles(mid).contains(h));
            assert(pool_queues(mid)[h] == pool_queues(*old(pool))[h]);
        }
        assert(pool_handles(*pool) =~= pool_handles(*old(pool)).remove(user_handle));
    }
}

} // verus!

use std::collections::HashSet;

use minichat_server::context::{UserGuard, UserPool};
use minichat_server::frame::{ClientFrame, ClientFrameType, DecodeError, ServerFrame};
use minichat_server::logic::{handle_chat_msgs, handle_login, release_user, ChatStep, LoginStep};

fn login_item(id: u8, handle: &str) -> Option<Result<ClientFrame, DecodeError>> {
    Some(Ok(ClientFrame {
        id,
        data: ClientFrameType::Login(handle.to_string()),
    }))
}

fn must_log_in(pool: &mut UserPool, id: u8, handle: &str) -> (UserGuard, Vec<ServerFrame>) {
    match handle_login(pool, login_item(id, handle)) {
        LoginStep::LoggedIn(guard, replies) => (guard, replies),
        _ => panic!("expected {handle} to log in"),
    }
}

#[test]
fn login_broadcast() {
    let mut pool = UserPool::new();

    // bob logs in with id 0 and is owed exactly Okay(0): nobody else is present.
    let (mut bob, bob_replies) = must_log_in(&mut pool, 0, "bob");
    assert_eq!(bob_replies, vec![ServerFrame::Okay(0)]);
    let mut bob_rx = bob.take_rx().unwrap();

    // jolene logs in; bob's queue sees Login("jolene"), jolene is told nothing
    // about bob beyond her Present list.
    let (mut jolene, jolene_replies) = must_log_in(&mut pool, 0, "jolene");
    assert_eq!(
        bob_rx.try_next().unwrap().unwrap(),
        ServerFrame::Login("jolene".to_string())
    );
    assert_eq!(
        jolene_replies,
        vec![
            ServerFrame::Okay(0),
            ServerFrame::Present("bob".to_string()),
        ]
    );
    // Nothing about bob reaches jolene retroactively through her queue.
    assert!(jolene.take_rx().unwrap().try_next().is_err());
}

#[test]
fn whos_present_on_login() {
    let mut pool = UserPool::new();
    let (mut bob, _) = must_log_in(&mut pool, 0, "bob");
    let mut bob_rx = bob.take_rx().unwrap();
    let (mut jolene, jolene_replies) = must_log_in(&mut pool, 1, "jolene");
    let mut jolene_rx = jolene.take_rx().unwrap();
    assert_eq!(
        jolene_replies,
        vec![
            ServerFrame::Okay(1),
            ServerFrame::Present("bob".to_string()),
        ]
    );

    // A third client logging in afterwards is sent, directly, one Present for
    // each of the two already logged in (their order is the directory's).
    let (_samantha, replies) = must_log_in(&mut pool, 2, "samantha");
    assert_eq!(replies[0], ServerFrame::Okay(2));
    let presents: HashSet<ServerFrame> = replies[1..].iter().cloned().collect();
    assert_eq!(
        presents,
        HashSet::from([
            ServerFrame::Present("bob".to_string()),
            ServerFrame::Present("jolene".to_string()),
        ])
    );
    assert_eq!(replies.len(), 3);

    // Meanwhile the two of them each saw Login("samantha").
    assert_eq!(
        bob_rx.try_next().unwrap().unwrap(),
        ServerFrame::Login("jolene".to_string())
    );
    assert_eq!(
        bob_rx.try_next().unwrap().unwrap(),
        ServerFrame::Login("samantha".to_string())
    );
    assert_eq!(
        jolene_rx.try_next().unwrap().unwrap(),
        ServerFrame::Login("samantha".to_string())
    );
}

#[test]
fn msg_broadcast() {
    let mut pool = UserPool::new();
    let (mut bob, _) = must_log_in(&mut pool, 0, "bob");
    let mut bob_rx = bob.take_rx().unwrap();
    let (mut jolene, _) = must_log_in(&mut pool, 1, "jolene");
    let mut jolene_rx = jolene.take_rx().unwrap();
    let (mut samantha, _) = must_log_in(&mut pool, 2, "samantha");
    let mut samantha_rx = samantha.take_rx().unwrap();
    let _ = jolene_rx.try_next();
    let _ = bob_rx.try_next();
    let _ = bob_rx.try_next();

    // bob sends a message with id 5: he is acknowledged on his own queue,
    // the others see the broadcast, he does not see his own.
    let step = handle_chat_msgs(
        &mut pool,
        &bob,
        Some(Ok(ClientFrame {
            id: 5,
            data: ClientFrameType::Msg("hello there".to_string()),
        })),
    );
    assert!(matches!(step, ChatStep::Continue));

    let expected = ServerFrame::Broadcast {
        sender: "bob".to_string(),
        msg: "hello there".to_string(),
    };
    assert_eq!(bob_rx.try_next().unwrap().unwrap(), ServerFrame::Okay(5));
    assert!(bob_rx.try_next().is_err());
    assert_eq!(jolene_rx.try_next().unwrap().unwrap(), expected);
    assert_eq!(samantha_rx.try_next().unwrap().unwrap(), expected);
}

#[test]
fn logout_broadcast() {
    let mut pool = UserPool::new();
    let (bob, _) = must_log_in(&mut pool, 0, "bob");
    let (mut jolene, _) = must_log_in(&mut pool, 1, "jolene");
    let mut jolene_rx = jolene.take_rx().unwrap();
    let (mut samantha, _) = must_log_in(&mut pool, 2, "samantha");
    let mut samantha_rx = samantha.take_rx().unwrap();
    let _ = jolene_rx.try_next();

    // bob sends Logout with id 9: the step hands back the id to acknowledge
    // with Okay(9) after the guard is released.
    let step = handle_chat_msgs(
        &mut pool,
        &bob,
        Some(Ok(ClientFrame {
            id: 9,
            data: ClientFrameType::Logout,
        })),
    );
    assert!(matches!(step, ChatStep::LoggedOut(9)));
    release_user(&mut pool, bob);

    assert_eq!(
        jolene_rx.try_next().unwrap().unwrap(),
        ServerFrame::Logout("bob".to_string())
    );
    assert_eq!(
        samantha_rx.try_next().unwrap().unwrap(),
        ServerFrame::Logout("bob".to_string())
    );

    // The handle was freed: the same connection may log in as bob again, and
    // so may any other.
    let (bob_again, _) = must_log_in(&mut pool, 3, "bob");
    release_user(&mut pool, bob_again);
    let (_other, _) = must_log_in(&mut pool, 4, "bob");
}

#[test]
fn conflict_login() {
    let mut pool = UserPool::new();

    // Two connections race for "bob": exactly one gets Okay, the other gets
    // Err(id, "handle taken") and its directory state is untouched.
    let (_bob, replies) = must_log_in(&mut pool, 1, "bob");
    assert_eq!(replies, vec![ServerFrame::Okay(1)]);
    match handle_login(&mut pool, login_item(2, "bob")) {
        LoginStep::Rejected(reply) => {
            assert_eq!(reply, ServerFrame::Error(2, "handle taken".to_string()));
        }
        _ => panic!("second login of the same handle must be rejected"),
    }
    assert_eq!(pool.snapshot_handles(), vec!["bob".to_string()]);
}

#[test]
fn login_protocol_violations_terminate() {
    let mut pool = UserPool::new();
    // Inbound sequence ended before any login.
    assert!(matches!(handle_login(&mut pool, None), LoginStep::Terminate));
    // Malformed first frame.
    assert!(matches!(
        handle_login(&mut pool, Some(Err(DecodeError::InvalidFrame))),
        LoginStep::Terminate
    ));
    assert!(matches!(
        handle_login(&mut pool, Some(Err(DecodeError::InvalidWebsocketFrame))),
        LoginStep::Terminate
    ));
    // A non-login frame while awaiting login.
    assert!(matches!(
        handle_login(
            &mut pool,
            Some(Ok(ClientFrame {
                id: 1,
                data: ClientFrameType::Msg("hi".to_string()),
            }))
        ),
        LoginStep::Terminate
    ));
    assert!(pool.snapshot_handles().is_empty());
}

#[test]
fn active_state_ignores_strays() {
    let mut pool = UserPool::new();
    let (mut bob, _) = must_log_in(&mut pool, 0, "bob");
    let mut bob_rx = bob.take_rx().unwrap();

    // A malformed frame mid-session is ignored, not fatal.
    let step = handle_chat_msgs(&mut pool, &bob, Some(Err(DecodeError::InvalidFrame)));
    assert!(matches!(step, ChatStep::Continue));

    // A stray login while already active is ignored.
    let step = handle_chat_msgs(&mut pool, &bob, login_item(4, "tom"));
    assert!(matches!(step, ChatStep::Continue));
    assert!(!pool.contains(&"tom".to_string()));
    assert!(bob_rx.try_next().is_err());

    // The inbound sequence ending is a disconnect.
    let step = handle_chat_msgs(&mut pool, &bob, None);
    assert!(matches!(step, ChatStep::Disconnected));
    release_user(&mut pool, bob);
    assert!(!pool.contains(&"bob".to_string()));
}

use minichat_server::frame::{ClientFrame, ClientFrameType, DecodeError, ServerFrame};

#[test]
fn server_frames() {
    let frame = ServerFrame::Okay(2);
    assert_eq!(frame.encode().unwrap(), [0, 2]);

    let frame = ServerFrame::Error(2, "a".to_string());
    assert_eq!(frame.encode().unwrap(), [1, 2, 1, 0, 0, 0, 97]);

    let frame = ServerFrame::Broadcast {
        sender: "bob".to_string(),
        msg: "hi".to_string(),
    };
    assert_eq!(
        frame.encode().unwrap(),
        [2, 3, 0, 0, 0, 98, 111, 98, 2, 0, 0, 0, 104, 105]
    );

    let frame = ServerFrame::Present("a".to_string());
    assert_eq!(frame.encode().unwrap(), [3, 1, 0, 0, 0, 97]);
}

#[test]
fn client_frames() {
    let login_bytes = [103, 0, 3, 0, 0, 0, 98, 111, 98];
    let expected = ClientFrame {
        id: 103,
        data: ClientFrameType::Login("bob".to_string()),
    };
    assert_eq!(ClientFrame::decode(&login_bytes).unwrap(), expected);

    let msg_bytes = [22, 1, 2, 0, 0, 0, 104, 105];
    let expected = ClientFrame {
        id: 22,
        data: ClientFrameType::Msg("hi".to_string()),
    };
    assert_eq!(ClientFrame::decode(&msg_bytes).unwrap(), expected);
}

#[test]
fn client_encode_vectors() {
    let frame = ClientFrame {
        id: 103,
        data: ClientFrameType::Login("bob".to_string()),
    };
    assert_eq!(frame.encode().unwrap(), [103, 0, 3, 0, 0, 0, 98, 111, 98]);

    let frame = ClientFrame {
        id: 22,
        data: ClientFrameType::Msg("hi".to_string()),
    };
    assert_eq!(frame.encode().unwrap(), [22, 1, 2, 0, 0, 0, 104, 105]);

    let frame = ClientFrame {
        id: 7,
        data: ClientFrameType::Logout,
    };
    assert_eq!(frame.encode().unwrap(), [7, 2]);
}

#[test]
fn client_round_trip() {
    let frames = vec![
        ClientFrame {
            id: 0,
            data: ClientFrameType::Login("bob".to_string()),
        },
        ClientFrame {
            id: 5,
            data: ClientFrameType::Msg("hello there".to_string()),
        },
        ClientFrame {
            id: 9,
            data: ClientFrameType::Logout,
        },
        ClientFrame {
            id: 255,
            data: ClientFrameType::Msg(String::new()),
        },
        ClientFrame {
            id: 1,
            data: ClientFrameType::Login("gr\u{fc}\u{df}e \u{1f600}".to_string()),
        },
    ];
    for frame in frames {
        assert_eq!(ClientFrame::decode(&frame.encode().unwrap()).unwrap(), frame);
    }
}

#[test]
fn server_round_trip() {
    let frames = vec![
        ServerFrame::Okay(0),
        ServerFrame::Okay(255),
        ServerFrame::Error(3, "handle taken".to_string()),
        ServerFrame::Broadcast {
            sender: "bob".to_string(),
            msg: "general kenobi".to_string(),
        },
        ServerFrame::Present(String::new()),
        ServerFrame::Login("jolene".to_string()),
        ServerFrame::Logout("samantha".to_string()),
        ServerFrame::Broadcast {
            sender: String::new(),
            msg: "\u{17d} \u{1f91d}".to_string(),
        },
    ];
    for frame in frames {
        assert_eq!(ServerFrame::decode(&frame.encode().unwrap()).unwrap(), frame);
    }
}

#[test]
fn reject_malformed_client_frames() {
    // Too short for id and discriminant.
    assert_eq!(ClientFrame::decode(&[]), Err(DecodeError::InvalidFrame));
    assert_eq!(ClientFrame::decode(&[1]), Err(DecodeError::InvalidFrame));
    // Unknown payload discriminant.
    assert_eq!(ClientFrame::decode(&[1, 7]), Err(DecodeError::InvalidFrame));
    // Missing length field.
    assert_eq!(ClientFrame::decode(&[1, 0]), Err(DecodeError::InvalidFrame));
    // Length field promises more bytes than there are.
    assert_eq!(
        ClientFrame::decode(&[1, 0, 5, 0, 0, 0, 97]),
        Err(DecodeError::InvalidFrame)
    );
    // Trailing byte after a complete logout frame.
    assert_eq!(ClientFrame::decode(&[9, 2, 0]), Err(DecodeError::InvalidFrame));
    // String bytes that are not UTF-8.
    assert_eq!(
        ClientFrame::decode(&[1, 0, 1, 0, 0, 0, 255]),
        Err(DecodeError::InvalidFrame)
    );
}

#[test]
fn reject_malformed_server_frames() {
    assert_eq!(ServerFrame::decode(&[]), Err(DecodeError::InvalidFrame));
    // Unknown discriminant.
    assert_eq!(ServerFrame::decode(&[6]), Err(DecodeError::InvalidFrame));
    // Okay takes exactly one byte of payload.
    assert_eq!(ServerFrame::decode(&[0]), Err(DecodeError::InvalidFrame));
    assert_eq!(ServerFrame::decode(&[0, 2, 9]), Err(DecodeError::InvalidFrame));
    // Err frame truncated inside the reason string.
    assert_eq!(
        ServerFrame::decode(&[1, 2, 4, 0, 0, 0, 97]),
        Err(DecodeError::InvalidFrame)
    );
    // Broadcast with only one of its two strings.
    assert_eq!(
        ServerFrame::decode(&[2, 1, 0, 0, 0, 97]),
        Err(DecodeError::InvalidFrame)
    );
}

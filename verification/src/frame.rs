//! Protocol frames and their binary wire format.
//!
//! A frame is one discrete protocol message. The wire form of a tagged union
//! is a 1-byte discriminant (0-based, in declaration order) followed by the
//! variant's fields in declared order; a string is a 4-byte little-endian
//! byte length followed by that many UTF-8 bytes; a byte is itself. The
//! discriminant values are part of the protocol and are pinned here, never
//! inferred from the language.

use vstd::prelude::*;
use vstd::utf8::{encode_utf8, decode_utf8, valid_utf8};

verus! {

/// One protocol message from client to server: a client-chosen correlation
/// id, echoed back in the matching acknowledgement, plus the request payload.
#[derive(Debug, Clone, PartialEq, Eq, Hash)]
pub struct ClientFrame {
    pub id: u8,
    pub data: ClientFrameType,
}

/// The request payloads a client can send.
/// Wire discriminants: `Login` = 0, `Msg` = 1, `Logout` = 2.
#[derive(Debug, Clone, PartialEq, Eq, Hash)]
pub enum ClientFrameType {
    Login(String),
    Msg(String),
    Logout,
}

/// One protocol message from server to client.
/// Wire discriminants: `Okay` = 0, `Err` = 1, `Broadcast` = 2, `Present` = 3,
/// `Login` = 4, `Logout` = 5.
#[derive(Debug, Clone, PartialEq, Eq, Hash)]
pub enum ServerFrame {
    Okay(u8),
    Error(u8, String),
    Broadcast { sender: String, msg: String },
    Present(String),
    Login(String),
    Logout(String),
}

/// Why an inbound transport message failed to decode.
#[derive(Debug, Clone, PartialEq, Eq, Structural)]
pub enum DecodeError {
    /// The transport message was not a binary payload.
    InvalidWebsocketFrame,
    /// The binary payload is not a well-formed frame.
    InvalidFrame,
}

/// Mathematical model of a [`ClientFrameType`]: strings as character sequences.
pub enum ClientDataView {
    Login(Seq<char>),
    Msg(Seq<char>),
    Logout,
}

/// Mathematical model of a [`ClientFrame`].
pub struct ClientFrameView {
    pub id: u8,
    pub data: ClientDataView,
}

/// Mathematical model of a [`ServerFrame`].
pub enum ServerFrameView {
    Okay(u8),
    Error(u8, Seq<char>),
    Broadcast { sender: Seq<char>, msg: Seq<char> },
    Present(Seq<char>),
    Login(Seq<char>),
    Logout(Seq<char>),
}

impl View for ClientFrameType {
    type V = ClientDataView;

    open spec fn view(&self) -> ClientDataView {
        match self {
            ClientFrameType::Login(h) => ClientDataView::Login(h@),
            ClientFrameType::Msg(t) => ClientDataView::Msg(t@),
            ClientFrameType::Logout => ClientDataView::Logout,
        }
    }
}

impl View for ClientFrame {
    type V = ClientFrameView;

    open spec fn view(&self) -> ClientFrameView {
        ClientFrameView { id: self.id, data: self.data@ }
    }
}

impl View for ServerFrame {
    type V = ServerFrameView;

    open spec fn view(&self) -> ServerFrameView {
        match self {
            ServerFrame::Okay(id) => ServerFrameView::Okay(*id),
            ServerFrame::Error(id, reason) => ServerFrameView::Error(*id, reason@),
            ServerFrame::Broadcast { sender, msg } => ServerFrameView::Broadcast {
                sender: sender@,
                msg: msg@,
            },
            ServerFrame::Present(h) => ServerFrameView::Present(h@),
            ServerFrame::Login(h) => ServerFrameView::Login(h@),
            ServerFrame::Logout(h) => ServerFrameView::Logout(h@),
        }
    }
}

impl ServerFrame {
    /// An equal copy of this frame.
    pub fn duplicate(&self) -> (r: ServerFrame)
        ensures
            r == *self,
    {
        match self {
            ServerFrame::Okay(id) => ServerFrame::Okay(*id),
            ServerFrame::Error(id, reason) => ServerFrame::Error(*id, reason.clone()),
            ServerFrame::Broadcast { sender, msg } => ServerFrame::Broadcast {
                sender: sender.clone(),
                msg: msg.clone(),
            },
            ServerFrame::Present(h) => ServerFrame::Present(h.clone()),
            ServerFrame::Login(h) => ServerFrame::Login(h.clone()),
            ServerFrame::Logout(h) => ServerFrame::Logout(h.clone()),
        }
    }
}

/// The four little-endian bytes of the length value `n`.
pub open spec fn u32_le_bytes(n: nat) -> Seq<u8> {
    seq![
        (n % 256) as u8,
        ((n / 256) % 256) as u8,
        ((n / 65536) % 256) as u8,
        ((n / 16777216) % 256) as u8,
    ]
}

/// The value of four little-endian bytes.
pub open spec fn le_bytes_val(b0: u8, b1: u8, b2: u8, b3: u8) -> nat {
    (b0 as nat) + (b1 as nat) * 256 + (b2 as nat) * 65536 + (b3 as nat) * 16777216
}

/// A string fits on the wire when its UTF-8 byte length fits the length field.
pub open spec fn str_encodable(s: Seq<char>) -> bool {
    encode_utf8(s).len() < 0x100000000
}

/// Wire form of a string: 4-byte little-endian byte length, then UTF-8 bytes.
pub open spec fn spec_encode_str(s: Seq<char>) -> Seq<u8> {
    u32_le_bytes(encode_utf8(s).len()) + encode_utf8(s)
}

/// Parse one wire string from the front of `b`: the decoded characters and
/// the bytes that follow. `None` on a short buffer or ill-formed UTF-8.
pub open spec fn spec_take_str(b: Seq<u8>) -> Option<(Seq<char>, Seq<u8>)> {
    if b.len() < 4 {
        None
    } else {
        let n = le_bytes_val(b[0], b[1], b[2], b[3]);
        if b.len() < 4 + n {
            None
        } else if !valid_utf8(b.subrange(4, 4 + n as int)) {
            None
        } else {
            Some((decode_utf8(b.subrange(4, 4 + n as int)), b.skip(4 + n as int)))
        }
    }
}

pub open spec fn client_data_encodable(d: ClientDataView) -> bool {
    match d {
        ClientDataView::Login(h) => str_encodable(h),
        ClientDataView::Msg(t) => str_encodable(t),
        ClientDataView::Logout => true,
    }
}

pub open spec fn client_encodable(f: ClientFrameView) -> bool {
    client_data_encodable(f.data)
}

pub open spec fn server_encodable(f: ServerFrameView) -> bool {
    match f {
        ServerFrameView::Okay(_) => true,
        ServerFrameView::Error(_, reason) => str_encodable(reason),
        ServerFrameView::Broadcast { sender, msg } => str_encodable(sender)
            && str_encodable(msg),
        ServerFrameView::Present(h) => str_encodable(h),
        ServerFrameView::Login(h) => str_encodable(h),
        ServerFrameView::Logout(h) => str_encodable(h),
    }
}

/// Wire form of a client payload: discriminant byte, then fields in order.
pub open spec fn spec_encode_client_data(d: ClientDataView) -> Seq<u8> {
    match d {
        ClientDataView::Login(h) => seq![0u8] + spec_encode_str(h),
        ClientDataView::Msg(t) => seq![1u8] + spec_encode_str(t),
        ClientDataView::Logout => seq![2u8],
    }
}

/// Wire form of a client frame: the id byte, then the payload.
pub open spec fn spec_encode_client(f: ClientFrameView) -> Seq<u8> {
    seq![f.id] + spec_encode_client_data(f.data)
}

/// Wire form of a server frame: discriminant byte, then fields in order.
pub open spec fn spec_encode_server(f: ServerFrameView) -> Seq<u8> {
    match f {
        ServerFrameView::Okay(id) => seq![0u8, id],
        ServerFrameView::Error(id, reason) => seq![1u8, id] + spec_encode_str(reason),
        ServerFrameView::Broadcast { sender, msg } => seq![2u8] + spec_encode_str(sender)
            + spec_encode_str(msg),
        ServerFrameView::Present(h) => seq![3u8] + spec_encode_str(h),
        ServerFrameView::Login(h) => seq![4u8] + spec_encode_str(h),
        ServerFrameView::Logout(h) => seq![5u8] + spec_encode_str(h),
    }
}

/// Decoding of a client frame: the exact inverse of [`spec_encode_client`] on
/// well-formed input, `None` on anything else (truncated input, an unknown
/// discriminant, ill-formed UTF-8, or trailing bytes).
pub open spec fn spec_decode_client(b: Seq<u8>) -> Option<ClientFrameView> {
    if b.len() < 2 {
        None
    } else {
        let id = b[0];
        let rest = b.skip(2);
        if b[1] == 0 {
            match spec_take_str(rest) {
                Some((h, rem)) => if rem.len() == 0 {
                    Some(ClientFrameView { id, data: ClientDataView::Login(h) })
                } else {
                    None
                },
                None => None,
            }
        } else if b[1] == 1 {
            match spec_take_str(rest) {
                Some((t, rem)) => if rem.len() == 0 {
                    Some(ClientFrameView { id, data: ClientDataView::Msg(t) })
                } else {
                    None
                },
                None => None,
            }
        } else if b[1] == 2 {
            if rest.len() == 0 {
                Some(ClientFrameView { id, data: ClientDataView::Logout })
            } else {
                None
            }
        } else {
            None
        }
    }
}

/// Decoding of a server frame: the exact inverse of [`spec_encode_server`] on
/// well-formed input, `None` on anything else.
pub open spec fn spec_decode_server(b: Seq<u8>) -> Option<ServerFrameView> {
    if b.len() < 1 {
        None
    } else {
        let rest = b.skip(1);
        if b[0] == 0 {
            if rest.len() == 1 {
                Some(ServerFrameView::Okay(rest[0]))
            } else {
                None
            }
        } else if b[0] == 1 {
            if rest.len() < 1 {
                None
            } else {
                match spec_take_str(rest.skip(1)) {
                    Some((reason, rem)) => if rem.len() == 0 {
                        Some(ServerFrameView::Error(rest[0], reason))
                    } else {
                        None
                    },
                    None => None,
                }
            }
        } else if b[0] == 2 {
            match spec_take_str(rest) {
                Some((sender, rem)) => match spec_take_str(rem) {
                    Some((msg, rem2)) => if rem2.len() == 0 {
                        Some(ServerFrameView::Broadcast { sender, msg })
                    } else {
                        None
                    },
                    None => None,
                },
                None => None,
            }
        } else if b[0] == 3 {
            match spec_take_str(rest) {
                Some((h, rem)) => if rem.len() == 0 {
                    Some(ServerFrameView::Present(h))
                } else {
                    None
                },
                None => None,
            }
        } else if b[0] == 4 {
            match spec_take_str(rest) {
                Some((h, rem)) => if rem.len() == 0 {
                    Some(ServerFrameView::Login(h))
                } else {
                    None
                },
                None => None,
            }
        } else if b[0] == 5 {
            match spec_take_str(rest) {
                Some((h, rem)) => if rem.len() == 0 {
                    Some(ServerFrameView::Logout(h))
                } else {
                    None
                },
                None => None,
            }
        } else {
            None
        }
    }
}

/// Reading back the four little-endian bytes of `n` yields `n`.
proof fn lemma_le_bytes_round_trip(n: nat)
    requires
        n < 0x100000000,
    ensures
        le_bytes_val(
            u32_le_bytes(n)[0],
            u32_le_bytes(n)[1],
            u32_le_bytes(n)[2],
            u32_le_bytes(n)[3],
        ) == n,
{
    assert((n % 256) + ((n / 256) % 256) * 256 + ((n / 65536) % 256) * 65536 + ((n
        / 16777216) % 256) * 16777216 == n) by (nonlinear_arith)
        requires
            n < 0x100000000,
    ;
}

/// Parsing a wire string back off the front of a buffer yields the encoded
/// characters and leaves exactly the bytes that followed it.
proof fn lemma_take_str_round_trip(s: Seq<char>, tail: Seq<u8>)
    requires
        str_encodable(s),
    ensures
        spec_take_str(spec_encode_str(s) + tail) == Some((s, tail)),
{
    broadcast use vstd::utf8::encode_utf8_valid_utf8;
    broadcast use vstd::utf8::encode_utf8_decode_utf8;

    let bytes = encode_utf8(s);
    let n = bytes.len();
    let b = spec_encode_str(s) + tail;
    lemma_le_bytes_round_trip(n);
    assert(b[0] == u32_le_bytes(n)[0]);
    assert(b[1] == u32_le_bytes(n)[1]);
    assert(b[2] == u32_le_bytes(n)[2]);
    assert(b[3] == u32_le_bytes(n)[3]);
    assert(le_bytes_val(b[0], b[1], b[2], b[3]) == n);
    assert(b.subrange(4, 4 + n as int) =~= bytes);
    assert(b.skip(4 + n as int) =~= tail);
}

/// The little-endian length bytes are the only bytes that read back as their
/// value: writing the value out again gives the same four bytes.
proof fn lemma_le_bytes_exact(b0: u8, b1: u8, b2: u8, b3: u8)
    ensures
        u32_le_bytes(le_bytes_val(b0, b1, b2, b3)) =~= seq![b0, b1, b2, b3],
{
    let n = le_bytes_val(b0, b1, b2, b3);
    assert(n % 256 == b0 && (n / 256) % 256 == b1 && (n / 65536) % 256 == b2 && (n
        / 16777216) % 256 == b3) by (nonlinear_arith)
        requires
            n == (b0 as nat) + (b1 as nat) * 256 + (b2 as nat) * 65536 + (b3 as nat)
                * 16777216,
            b0 < 256 && b1 < 256 && b2 < 256 && b3 < 256,
    ;
}

/// A successful string parse is exact: what was parsed, re-encoded, followed
/// by the remainder, is the input byte for byte.
proof fn lemma_take_str_exact(b: Seq<u8>)
    requires
        spec_take_str(b) is Some,
    ensures
        str_encodable(spec_take_str(b).unwrap().0),
        spec_encode_str(spec_take_str(b).unwrap().0) + spec_take_str(b).unwrap().1 == b,
{
    broadcast use vstd::utf8::decode_utf8_encode_utf8;

    let n = le_bytes_val(b[0], b[1], b[2], b[3]);
    let sub = b.subrange(4, 4 + n as int);
    let s = decode_utf8(sub);
    assert(encode_utf8(s) == sub);
    lemma_le_bytes_exact(b[0], b[1], b[2], b[3]);
    assert(spec_encode_str(s) + b.skip(4 + n as int) =~= b);
}

/// Decoding a client frame is exact: a byte sequence that decodes at all is
/// precisely the encoding of the frame it decodes to; anything truncated,
/// trailing, ill-formed, or with an unknown discriminant is rejected.
pub proof fn lemma_client_decode_exact(b: Seq<u8>)
    requires
        spec_decode_client(b) is Some,
    ensures
        client_encodable(spec_decode_client(b).unwrap()),
        spec_encode_client(spec_decode_client(b).unwrap()) == b,
{
    let rest = b.skip(2);
    if b[1] == 0 || b[1] == 1 {
        lemma_take_str_exact(rest);
        let s = spec_take_str(rest).unwrap().0;
        assert(spec_encode_str(s) + spec_take_str(rest).unwrap().1 =~= spec_encode_str(s));
        assert(seq![b[0], b[1]] + rest =~= b);
    } else {
        assert(rest.len() == 0);
        assert(seq![b[0], b[1]] + rest =~= b);
        assert(spec_encode_client(spec_decode_client(b).unwrap()) =~= b);
    }
}

/// Decoding a server frame is exact, in the same sense.
#[verifier::rlimit(100)]
pub proof fn lemma_server_decode_exact(b: Seq<u8>)
    requires
        spec_decode_server(b) is Some,
    ensures
        server_encodable(spec_decode_server(b).unwrap()),
        spec_encode_server(spec_decode_server(b).unwrap()) == b,
{
    let rest = b.skip(1);
    if b[0] == 0 {
        assert(seq![b[0], rest[0]] =~= b);
    } else if b[0] == 1 {
        lemma_take_str_exact(rest.skip(1));
        let s = spec_take_str(rest.skip(1)).unwrap().0;
        assert(spec_encode_str(s) + spec_take_str(rest.skip(1)).unwrap().1 =~= spec_encode_str(
            s,
        ));
        assert(seq![b[0], rest[0]] + rest.skip(1) =~= b);
    } else if b[0] == 2 {
        lemma_take_str_exact(rest);
        let sender = spec_take_str(rest).unwrap().0;
        let rem = spec_take_str(rest).unwrap().1;
        lemma_take_str_exact(rem);
        let msg = spec_take_str(rem).unwrap().0;
        assert(spec_encode_str(msg) + spec_take_str(rem).unwrap().1 =~= spec_encode_str(msg));
        assert(spec_encode_str(sender) + spec_encode_str(msg) =~= rest);
        assert(seq![b[0]] + rest =~= b);
    } else {
        lemma_take_str_exact(rest);
        let s = spec_take_str(rest).unwrap().0;
        assert(spec_encode_str(s) + spec_take_str(rest).unwrap().1 =~= spec_encode_str(s));
        assert(seq![b[0]] + rest =~= b);
    }
}

/// Round trip for client frames: decoding an encoded frame gives the frame back.
pub proof fn lemma_client_round_trip(f: ClientFrameView)
    requires
        client_encodable(f),
    ensures
        spec_decode_client(spec_encode_client(f)) == Some(f),
{
    let b = spec_encode_client(f);
    match f.data {
        ClientDataView::Login(h) => {
            lemma_take_str_round_trip(h, Seq::<u8>::empty());
            assert(spec_encode_str(h) + Seq::<u8>::empty() =~= spec_encode_str(h));
            assert(b.skip(2) =~= spec_encode_str(h));
            assert(b[0] == f.id && b[1] == 0);
        },
        ClientDataView::Msg(t) => {
            lemma_take_str_round_trip(t, Seq::<u8>::empty());
            assert(spec_encode_str(t) + Seq::<u8>::empty() =~= spec_encode_str(t));
            assert(b.skip(2) =~= spec_encode_str(t));
            assert(b[0] == f.id && b[1] == 1);
        },
        ClientDataView::Logout => {
            assert(b.skip(2) =~= Seq::<u8>::empty());
            assert(b[0] == f.id && b[1] == 2);
        },
    }
}

/// Round trip for server frames: decoding an encoded frame gives the frame back.
#[verifier::rlimit(100)]
pub proof fn lemma_server_round_trip(f: ServerFrameView)
    requires
        server_encodable(f),
    ensures
        spec_decode_server(spec_encode_server(f)) == Some(f),
{
    let b = spec_encode_server(f);
    match f {
        ServerFrameView::Okay(id) => {
            assert(b.skip(1) =~= seq![id]);
        },
        ServerFrameView::Error(id, reason) => {
            lemma_take_str_round_trip(reason, Seq::<u8>::empty());
            assert(spec_encode_str(reason) + Seq::<u8>::empty() =~= spec_encode_str(reason));
            assert(b.skip(1).skip(1) =~= spec_encode_str(reason));
            assert(b.skip(1)[0] == id);
        },
        ServerFrameView::Broadcast { sender, msg } => {
            lemma_take_str_round_trip(sender, spec_encode_str(msg));
            lemma_take_str_round_trip(msg, Seq::<u8>::empty());
            assert(spec_encode_str(msg) + Seq::<u8>::empty() =~= spec_encode_str(msg));
            assert(b.skip(1) =~= spec_encode_str(sender) + spec_encode_str(msg));
        },
        ServerFrameView::Present(h) => {
            lemma_take_str_round_trip(h, Seq::<u8>::empty());
            assert(spec_encode_str(h) + Seq::<u8>::empty() =~= spec_encode_str(h));
            assert(b.skip(1) =~= spec_encode_str(h));
        },
        ServerFrameView::Login(h) => {
            lemma_take_str_round_trip(h, Seq::<u8>::empty());
            assert(spec_encode_str(h) + Seq::<u8>::empty() =~= spec_encode_str(h));
            assert(b.skip(1) =~= spec_encode_str(h));
        },
        ServerFrameView::Logout(h) => {
            lemma_take_str_round_trip(h, Seq::<u8>::empty());
            assert(spec_encode_str(h) + Seq::<u8>::empty() =~= spec_encode_str(h));
            assert(b.skip(1) =~= spec_encode_str(h));
        },
    }
}

} // verus!

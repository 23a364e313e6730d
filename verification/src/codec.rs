//! Executable encoder and decoder for the wire format described in `frame`.
//!
//! Both directions are proved against the mathematical wire model:
//! `encode` produces exactly `spec_encode_*` of the frame, and `decode`
//! agrees exactly with `spec_decode_*`, returning `DecodeError::InvalidFrame`
//! precisely on the byte sequences that no frame encodes to.

use vstd::prelude::*;
use vstd::string::StrSliceExecFns;
use vstd::utf8::{decode_utf8, valid_utf8};

use crate::frame::{
    client_encodable, server_encodable, spec_decode_client, spec_decode_server,
    spec_encode_client, spec_encode_server, spec_encode_str, spec_take_str, str_encodable,
    ClientFrame, ClientFrameType, DecodeError, ServerFrame,
};

verus! {

/// Relies on `String::from_utf8`: succeeds exactly on valid UTF-8, and the
/// returned string holds exactly the given bytes, decoded.
#[verifier::external_body]
fn string_from_utf8(bytes: Vec<u8>) -> (r: Option<String>)
    ensures
        r is Some <==> valid_utf8(bytes@),
        r matches Some(s) ==> s@ == decode_utf8(bytes@),
{
    String::from_utf8(bytes).ok()
}

/// Append the wire form of `s` to `out`. Fails, leaving `out` unchanged, when
/// the UTF-8 byte length of `s` does not fit the 4-byte length field.
fn push_wire_str(out: &mut Vec<u8>, s: &str) -> (ok: bool)
    ensures
        ok <==> str_encodable(s@),
        ok ==> final(out)@ == old(out)@ + spec_encode_str(s@),
        !ok ==> final(out)@ == old(out)@,
{
    let mut bytes = s.as_bytes_vec();
    if (bytes.len() as u64) >= 0x100000000u64 {
        return false;
    }
    let n = bytes.len() as u32;
    out.push((n % 256) as u8);
    out.push(((n / 256) % 256) as u8);
    out.push(((n / 65536) % 256) as u8);
    out.push(((n / 16777216) % 256) as u8);
    out.append(&mut bytes);
    proof {
        assert(out@ =~= old(out)@ + spec_encode_str(s@));
    }
    true
}

/// Parse one wire string out of `bytes`, starting at `start`. On success,
/// the string and the index of the first byte after it.
fn read_wire_str(bytes: &[u8], start: usize) -> (r: Option<(String, usize)>)
    requires
        start <= bytes@.len(),
    ensures
        match r {
            Some(p) => {
                &&& start <= p.1 <= bytes@.len()
                &&& spec_take_str(bytes@.skip(start as int)) == Some(
                    (p.0@, bytes@.skip(p.1 as int)),
                )
            },
            None => spec_take_str(bytes@.skip(start as int)) is None,
        },
{
    let len = bytes.len();
    if len - start < 4 {
        return None;
    }
    let b0 = bytes[start];
    let b1 = bytes[start + 1];
    let b2 = bytes[start + 2];
    let b3 = bytes[start + 3];
    let n: u32 = (b0 as u32) + (b1 as u32) * 256 + (b2 as u32) * 65536 + (b3 as u32)
        * 16777216;
    proof {
        assert(bytes@.skip(start as int)[0] == b0);
        assert(bytes@.skip(start as int)[1] == b1);
        assert(bytes@.skip(start as int)[2] == b2);
        assert(bytes@.skip(start as int)[3] == b3);
    }
    let avail = len - (start + 4);
    if (n as u64) > (avail as u64) {
        return None;
    }
    let n_us = n as usize;
    let mut field: Vec<u8> = Vec::new();
    let mut i: usize = 0;
    while i < n_us
        invariant
            i <= n_us,
            start + 4 + n_us <= bytes@.len(),
            bytes@.len() <= usize::MAX,
            field@ == bytes@.subrange(start + 4, start + 4 + i as int),
        decreases n_us - i,
    {
        field.push(bytes[start + 4 + i]);
        proof {
            assert(field@ =~= bytes@.subrange(start + 4, start + 4 + (i + 1)));
        }
        i = i + 1;
    }
    proof {
        assert(field@ =~= bytes@.skip(start as int).subrange(4, 4 + n as int));
    }
    match string_from_utf8(field) {
        Some(s) => {
            proof {
                assert(bytes@.skip(start as int).skip(4 + n as int) =~= bytes@.skip(
                    (start + 4 + n_us) as int,
                ));
            }
            Some((s, start + 4 + n_us))
        },
        None => None,
    }
}

impl ClientFrame {
    /// Wire encoding of this frame. `None` exactly when a string field's
    /// UTF-8 form is too long for the 4-byte length field.
    pub fn encode(&self) -> (r: Option<Vec<u8>>)
        ensures
            r is Some <==> client_encodable(self@),
            r matches Some(v) ==> v@ == spec_encode_client(self@),
    {
        let mut out: Vec<u8> = Vec::new();
        out.push(self.id);
        match &self.data {
            ClientFrameType::Login(h) => {
                out.push(0u8);
                if push_wire_str(&mut out, h.as_str()) {
                    proof {
                        assert(out@ =~= spec_encode_client(self@));
                    }
                    Some(out)
                } else {
                    None
                }
            },
            ClientFrameType::Msg(t) => {
                out.push(1u8);
                if push_wire_str(&mut out, t.as_str()) {
                    proof {
                        assert(out@ =~= spec_encode_client(self@));
                    }
                    Some(out)
                } else {
                    None
                }
            },
            ClientFrameType::Logout => {
                out.push(2u8);
                proof {
                    assert(out@ =~= spec_encode_client(self@));
                }
                Some(out)
            },
        }
    }

    /// Decode a binary payload into a client frame; rejects with
    /// `DecodeError::InvalidFrame` exactly the payloads no frame encodes to.
    pub fn decode(bytes: &[u8]) -> (r: Result<ClientFrame, DecodeError>)
        ensures
            r is Ok <==> spec_decode_client(bytes@) is Some,
            r matches Ok(f) ==> spec_decode_client(bytes@) == Some(f@),
            r matches Err(e) ==> e == DecodeError::InvalidFrame,
    {
        if bytes.len() < 2 {
            return Err(DecodeError::InvalidFrame);
        }
        let id = bytes[0];
        let tag = bytes[1];
        if tag == 0 || tag == 1 {
            match read_wire_str(bytes, 2) {
                Some((s, end)) => {
                    if end == bytes.len() {
                        proof {
                            assert(bytes@.skip(end as int).len() == 0);
                        }
                        if tag == 0 {
                            Ok(ClientFrame { id, data: ClientFrameType::Login(s) })
                        } else {
                            Ok(ClientFrame { id, data: ClientFrameType::Msg(s) })
                        }
                    } else {
                        Err(DecodeError::InvalidFrame)
                    }
                },
                None => Err(DecodeError::InvalidFrame),
            }
        } else if tag == 2 {
            if bytes.len() == 2 {
                proof {
                    assert(bytes@.skip(2).len() == 0);
                }
                Ok(ClientFrame { id, data: ClientFrameType::Logout })
            } else {
                Err(DecodeError::InvalidFrame)
            }
        } else {
            Err(DecodeError::InvalidFrame)
        }
    }
}

impl ServerFrame {
    /// Wire encoding of this frame. `None` exactly when a string field's
    /// UTF-8 form is too long for the 4-byte length field.
    pub fn encode(&self) -> (r: Option<Vec<u8>>)
        ensures
            r is Some <==> server_encodable(self@),
            r matches Some(v) ==> v@ == spec_encode_server(self@),
    {
        let mut out: Vec<u8> = Vec::new();
        match self {
            ServerFrame::Okay(id) => {
                out.push(0u8);
                out.push(*id);
                proof {
                    assert(out@ =~= spec_encode_server(self@));
                }
                Some(out)
            },
            ServerFrame::Error(id, reason) => {
                out.push(1u8);
                out.push(*id);
                if push_wire_str(&mut out, reason.as_str()) {
                    proof {
                        assert(out@ =~= spec_encode_server(self@));
                    }
                    Some(out)
                } else {
                    None
                }
            },
            ServerFrame::Broadcast { sender, msg } => {
                out.push(2u8);
                if !push_wire_str(&mut out, sender.as_str()) {
                    return None;
                }
                if !push_wire_str(&mut out, msg.as_str()) {
                    return None;
                }
                proof {
                    assert(out@ =~= spec_encode_server(self@));
                }
                Some(out)
            },
            ServerFrame::Present(h) => {
                out.push(3u8);
                if push_wire_str(&mut out, h.as_str()) {
                    proof {
                        assert(out@ =~= spec_encode_server(self@));
                    }
                    Some(out)
                } else {
                    None
                }
            },
            ServerFrame::Login(h) => {
                out.push(4u8);
                if push_wire_str(&mut out, h.as_str()) {
                    proof {
                        assert(out@ =~= spec_encode_server(self@));
                    }
                    Some(out)
                } else {
                    None
                }
            },
            ServerFrame::Logout(h) => {
                out.push(5u8);
                if push_wire_str(&mut out, h.as_str()) {
                    proof {
                        assert(out@ =~= spec_encode_server(self@));
                    }
                    Some(out)
                } else {
                    None
                }
            },
        }
    }

    /// Decode a binary payload into a server frame; rejects with
    /// `DecodeError::InvalidFrame` exactly the payloads no frame encodes to.
    pub fn decode(bytes: &[u8]) -> (r: Result<ServerFrame, DecodeError>)
        ensures
            r is Ok <==> spec_decode_server(bytes@) is Some,
            r matches Ok(f) ==> spec_decode_server(bytes@) == Some(f@),
            r matches Err(e) ==> e == DecodeError::InvalidFrame,
    {
        if bytes.len() < 1 {
            return Err(DecodeError::InvalidFrame);
        }
        let tag = bytes[0];
        proof {
            assert(bytes@.skip(1).len() == bytes@.len() - 1);
        }
        if tag == 0 {
            if bytes.len() == 2 {
                proof {
                    assert(bytes@.skip(1)[0] == bytes@[1]);
                }
                Ok(ServerFrame::Okay(bytes[1]))
            } else {
                Err(DecodeError::InvalidFrame)
            }
        } else if tag == 1 {
            if bytes.len() < 2 {
                return Err(DecodeError::InvalidFrame);
            }
            let id = bytes[1];
            match read_wire_str(bytes, 2) {
                Some((s, end)) => {
                    if end == bytes.len() {
                        proof {
                            assert(bytes@.skip(1).skip(1) =~= bytes@.skip(2));
                            assert(bytes@.skip(end as int).len() == 0);
                        }
                        Ok(ServerFrame::Error(id, s))
                    } else {
                        Err(DecodeError::InvalidFrame)
                    }
                },
                None => {
                    proof {
                        assert(bytes@.skip(1).skip(1) =~= bytes@.skip(2));
                    }
                    Err(DecodeError::InvalidFrame)
                },
            }
        } else if tag == 2 {
            match read_wire_str(bytes, 1) {
                Some((sender, end1)) => {
                    match read_wire_str(bytes, end1) {
                        Some((msg, end2)) => {
                            if end2 == bytes.len() {
                                proof {
                                    assert(bytes@.skip(end2 as int).len() == 0);
                                }
                                Ok(ServerFrame::Broadcast { sender, msg })
                            } else {
                                Err(DecodeError::InvalidFrame)
                            }
                        },
                        None => Err(DecodeError::InvalidFrame),
                    }
                },
                None => Err(DecodeError::InvalidFrame),
            }
        } else if tag == 3 {
            match read_wire_str(bytes, 1) {
                Some((h, end)) => {
                    if end == bytes.len() {
                        proof {
                            assert(bytes@.skip(end as int).len() == 0);
                        }
                        Ok(ServerFrame::Present(h))
                    } else {
                        Err(DecodeError::InvalidFrame)
                    }
                },
                None => Err(DecodeError::InvalidFrame),
            }
        } else if tag == 4 {
            match read_wire_str(bytes, 1) {
                Some((h, end)) => {
                    if end == bytes.len() {
                        proof {
                            assert(bytes@.skip(end as int).len() == 0);
                        }
                        Ok(ServerFrame::Login(h))
                    } else {
                        Err(DecodeError::InvalidFrame)
                    }
                },
                None => Err(DecodeError::InvalidFrame),
            }
        } else if tag == 5 {
            match read_wire_str(bytes, 1) {
                Some((h, end)) => {
                    if end == bytes.len() {
                        proof {
                            assert(bytes@.skip(end as int).len() == 0);
                        }
                        Ok(ServerFrame::Logout(h))
                    } else {
                        Err(DecodeError::InvalidFrame)
                    }
                },
                None => Err(DecodeError::InvalidFrame),
            }
        } else {
            Err(DecodeError::InvalidFrame)
        }
    }
}

} // verus!

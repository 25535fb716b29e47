//! The client-side protocol logic: the request frame each operation
//! sends, and the meaning of the response frame that comes back. The
//! socket stays outside.

use crate::cmd::{name_echo, name_get, name_ping, name_set};
use crate::resp::{frames_view, frame_view, lemma_frames_view, RESPType};
use crate::wire::FrameView;
use vstd::prelude::*;

verus! {

/// How a client call fails.
#[derive(Debug, PartialEq, Eq)]
pub enum ClientError {
    /// The server answered with an error frame; its text is carried.
    ServerError(Vec<u8>),
    /// The response frame carries no payload for this call.
    UnexpectedType,
    /// The connection closed before a response arrived.
    ConnectionReset,
}

fn ping_bytes() -> (r: Vec<u8>)
    ensures
        r@ == name_ping(),
{
    let mut v: Vec<u8> = Vec::new();
    v.push(112);
    v.push(105);
    v.push(110);
    v.push(103);
    proof {
        assert(v@ =~= name_ping());
    }
    v
}

fn echo_bytes() -> (r: Vec<u8>)
    ensures
        r@ == name_echo(),
{
    let mut v: Vec<u8> = Vec::new();
    v.push(101);
    v.push(99);
    v.push(104);
    v.push(111);
    proof {
        assert(v@ =~= name_echo());
    }
    v
}

fn get_bytes() -> (r: Vec<u8>)
    ensures
        r@ == name_get(),
{
    let mut v: Vec<u8> = Vec::new();
    v.push(103);
    v.push(101);
    v.push(116);
    proof {
        assert(v@ =~= name_get());
    }
    v
}

fn set_bytes() -> (r: Vec<u8>)
    ensures
        r@ == name_set(),
{
    let mut v: Vec<u8> = Vec::new();
    v.push(115);
    v.push(101);
    v.push(116);
    proof {
        assert(v@ =~= name_set());
    }
    v
}

/// The request a ping sends: the command name, and the message if one
/// is given.
pub fn ping_request(msg: Option<Vec<u8>>) -> (r: RESPType)
    ensures
        frame_view(r) == FrameView::Array(
            match msg {
                None => seq![FrameView::Bulk(name_ping())],
                Some(m) => seq![FrameView::Bulk(name_ping()), FrameView::Bulk(m@)],
            },
        ),
{
    let mut arr: Vec<RESPType> = Vec::new();
    arr.push(RESPType::Bulk(ping_bytes()));
    match msg {
        Some(m) => {
            arr.push(RESPType::Bulk(m));
            proof {
                lemma_frames_view(arr@);
                assert(frames_view(arr@) =~= seq![
                    FrameView::Bulk(name_ping()),
                    frame_view(arr@[1]),
                ]);
            }
        },
        None => {
            proof {
                lemma_frames_view(arr@);
                assert(frames_view(arr@) =~= seq![FrameView::Bulk(name_ping())]);
            }
        },
    }
    RESPType::Array(arr)
}

/// The request an echo sends: the command name, then the message, an
/// empty bulk value when none is given.
pub fn echo_request(msg: Option<Vec<u8>>) -> (r: RESPType)
    ensures
        frame_view(r) == FrameView::Array(
            match msg {
                None => seq![FrameView::Bulk(name_echo()), FrameView::Bulk(Seq::empty())],
                Some(m) => seq![FrameView::Bulk(name_echo()), FrameView::Bulk(m@)],
            },
        ),
{
    let mut arr: Vec<RESPType> = Vec::new();
    arr.push(RESPType::Bulk(echo_bytes()));
    match msg {
        Some(m) => {
            arr.push(RESPType::Bulk(m));
        },
        None => {
            arr.push(RESPType::Bulk(Vec::new()));
        },
    }
    proof {
        lemma_frames_view(arr@);
        assert(frames_view(arr@) =~= seq![FrameView::Bulk(name_echo()), frame_view(arr@[1])]);
    }
    RESPType::Array(arr)
}

/// The request a get sends: the command name and the key.
pub fn get_request(key: Vec<u8>) -> (r: RESPType)
    ensures
        frame_view(r) == FrameView::Array(
            seq![FrameView::Bulk(name_get()), FrameView::Bulk(key@)],
        ),
{
    let mut arr: Vec<RESPType> = Vec::new();
    arr.push(RESPType::Bulk(get_bytes()));
    arr.push(RESPType::Bulk(key));
    proof {
        lemma_frames_view(arr@);
        assert(frames_view(arr@) =~= seq![FrameView::Bulk(name_get()), frame_view(arr@[1])]);
    }
    RESPType::Array(arr)
}

/// The request a set sends: the command name, the key and the value.
pub fn set_request(key: Vec<u8>, value: Vec<u8>) -> (r: RESPType)
    ensures
        frame_view(r) == FrameView::Array(
            seq![FrameView::Bulk(name_set()), FrameView::Bulk(key@), FrameView::Bulk(value@)],
        ),
{
    let mut arr: Vec<RESPType> = Vec::new();
    arr.push(RESPType::Bulk(set_bytes()));
    arr.push(RESPType::Bulk(key));
    arr.push(RESPType::Bulk(value));
    proof {
        lemma_frames_view(arr@);
        assert(frames_view(arr@) =~= seq![
            FrameView::Bulk(name_set()),
            frame_view(arr@[1]),
            frame_view(arr@[2]),
        ]);
    }
    RESPType::Array(arr)
}

/// What a response frame means to the caller: a simple or bulk payload
/// is the result; an error frame is the server's reported failure; a
/// closed connection before any frame is a reset; anything else is an
/// unexpected response.
pub fn interpret_response(frame: Option<RESPType>) -> (r: Result<Vec<u8>, ClientError>)
    ensures
        match frame {
            None => r matches Err(ClientError::ConnectionReset),
            Some(f) => match frame_view(f) {
                FrameView::Error(p) => r matches Err(ClientError::ServerError(v)) && v@ == p,
                FrameView::Simple(p) => r matches Ok(v) && v@ == p,
                FrameView::Bulk(p) => r matches Ok(v) && v@ == p,
                _ => r matches Err(ClientError::UnexpectedType),
            },
        },
{
    match frame {
        None => Err(ClientError::ConnectionReset),
        Some(f) => match f {
            RESPType::Error(p) => Err(ClientError::ServerError(p)),
            RESPType::Simple(p) => Ok(p),
            RESPType::Bulk(p) => Ok(p),
            _ => Err(ClientError::UnexpectedType),
        },
    }
}

} // verus!

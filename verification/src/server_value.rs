//! What the server writes back for one statement: a value or an error
//! message, framed as a self-describing binary blob. The encoding and
//! decoding round-trip.

use vstd::prelude::*;

use crate::codec::{
    pow256, enc_str, dec_str_at, enc_value, dec_value_at, value_fits, encode_str, decode_str,
    encode_value, decode_value, lemma_enc_str_len, lemma_enc_value_len, lemma_dec_str_at,
    lemma_dec_value_at,
};
use crate::errors::{DungeonError, DungeonResult};
use crate::value::{Value, ValueView};

verus! {

/// An error carried back to the client as text.
#[derive(Debug, Clone, PartialEq)]
pub struct ServerError {
    pub msg: String,
}

impl ServerError {
    pub fn new(msg: &str) -> (r: Self)
        ensures
            r.msg@ == msg@,
    {
        ServerError { msg: msg.to_owned() }
    }
}

/// One reply: the statement's value, or the error it raised.
#[derive(Debug, Clone, PartialEq)]
pub enum ServerResponse {
    Value(Value),
    Failure(ServerError),
}

/// The mathematical shape of a reply.
pub enum RespView {
    Value(ValueView),
    Failure(Seq<char>),
}

impl View for ServerResponse {
    type V = RespView;

    open spec fn view(&self) -> RespView {
        match self {
            ServerResponse::Value(v) => RespView::Value(v@),
            ServerResponse::Failure(e) => RespView::Failure(e.msg@),
        }
    }
}

/// A reply's encoding: a tag byte, then the value or the message.
pub open spec fn enc_resp(r: RespView) -> Seq<u8> {
    match r {
        RespView::Value(v) => seq![0u8] + enc_value(v),
        RespView::Failure(m) => seq![1u8] + enc_str(m),
    }
}

/// Whether the reply's strings fit the encoding's length fields.
pub open spec fn resp_fits(r: RespView) -> bool {
    match r {
        RespView::Value(v) => value_fits(v),
        RespView::Failure(m) => m.len() < pow256(8),
    }
}

/// The reply a byte sequence holds, consumed exactly.
pub open spec fn dec_resp_exact(bytes: Seq<u8>) -> Option<RespView> {
    if bytes.len() >= 1 {
        if bytes[0] == 0 {
            match dec_value_at(bytes, 1) {
                Some((v, end)) => if end == bytes.len() {
                    Some(RespView::Value(v))
                } else {
                    None
                },
                None => None,
            }
        } else if bytes[0] == 1 {
            match dec_str_at(bytes, 1) {
                Some((m, end)) => if end == bytes.len() {
                    Some(RespView::Failure(m))
                } else {
                    None
                },
                None => None,
            }
        } else {
            None
        }
    } else {
        None
    }
}

/// Round trip: decoding an encoded reply yields the reply back.
pub proof fn lemma_resp_round_trip(r: RespView)
    requires
        resp_fits(r),
    ensures
        dec_resp_exact(enc_resp(r)) == Some(r),
{
    let bytes = enc_resp(r);
    match r {
        RespView::Value(v) => {
            lemma_enc_value_len(v);
            assert(bytes[0] == 0);
            assert(bytes.subrange(1, 1 + enc_value(v).len() as int) =~= enc_value(v));
            lemma_dec_value_at(bytes, 1, v);
        },
        RespView::Failure(m) => {
            lemma_enc_str_len(m);
            assert(bytes[0] == 1);
            assert(bytes.subrange(1, 1 + enc_str(m).len() as int) =~= enc_str(m));
            lemma_dec_str_at(bytes, 1, m);
        },
    }
}

impl ServerResponse {
    pub fn from_value(val: Value) -> (r: Self)
        ensures
            r@ == RespView::Value(val@),
    {
        ServerResponse::Value(val)
    }

    pub fn from_error(err: ServerError) -> (r: Self)
        ensures
            r@ == RespView::Failure(err.msg@),
    {
        ServerResponse::Failure(err)
    }

    /// Frames the reply for the wire.
    pub fn to_vec(&self) -> (r: DungeonResult<Vec<u8>>)
        ensures
            match r {
                Ok(bytes) => bytes@ == enc_resp(self@) && resp_fits(self@),
                Err(_) => false,
            },
    {
        let mut out: Vec<u8> = Vec::new();
        match self {
            ServerResponse::Value(v) => {
                out.push(0u8);
                encode_value(v, &mut out);
                proof {
                    assert(out@ =~= enc_resp(self@));
                }
            },
            ServerResponse::Failure(e) => {
                out.push(1u8);
                encode_str(e.msg.as_str(), &mut out);
                proof {
                    assert(out@ =~= enc_resp(self@));
                }
            },
        }
        Ok(out)
    }

    /// Reads a reply off the wire. Fails on bytes no encoder produced.
    pub fn from_vec(src: &[u8]) -> (r: DungeonResult<ServerResponse>)
        ensures
            match r {
                Ok(resp) => dec_resp_exact(src@) == Some(resp@),
                Err(_) => dec_resp_exact(src@) is None,
            },
    {
        if src.len() < 1 {
            return Err(DungeonError::new("Empty response"));
        }
        let tag: u8 = src[0];
        if tag == 0 {
            match decode_value(src, 1) {
                Some((v, end)) => {
                    if end == src.len() {
                        Ok(ServerResponse::Value(v))
                    } else {
                        Err(DungeonError::new("Trailing bytes after the response"))
                    }
                },
                None => Err(DungeonError::new("Could not parse the response value")),
            }
        } else if tag == 1 {
            match decode_str(src, 1) {
                Some((m, end)) => {
                    if end == src.len() {
                        Ok(ServerResponse::Failure(ServerError { msg: m }))
                    } else {
                        Err(DungeonError::new("Trailing bytes after the response"))
                    }
                },
                None => Err(DungeonError::new("Could not parse the response message")),
            }
        } else {
            Err(DungeonError::new("Unknown response tag"))
        }
    }
}

} // verus!

//! The request/response wire protocol: three commands in, four answers
//! out, carried over the line-framed format.

use crate::error::TsaError;
use crate::resp::{
    deserialize, frame_parse, lemma_frame_round_trip, resp_frame, serialize,
};
use vstd::prelude::*;
use vstd::string::{StrSliceExecFns, StringExecFns};
use vstd::utf8::{decode_utf8, encode_utf8, valid_utf8};

verus! {

broadcast use vstd::array::group_array_axioms;

/// One client command.
#[derive(Debug, Clone)]
pub enum Request {
    /// Read a key's value.
    Get { key: String },
    /// Set a key to a value.
    Put { key: String, value: String },
    /// Remove a key.
    Remove { key: String },
}

/// One server answer.
#[derive(Debug, Clone)]
pub enum Response {
    /// A GET hit, carrying the value.
    Value(String),
    /// A SET or REMOVE that succeeded.
    Done,
    /// A GET miss, or a REMOVE of a missing key.
    NotFound,
    /// A malformed request or an engine error, with its message.
    Error(String),
}

/// The frame fields a request is carried as.
pub open spec fn req_fields(req: Request) -> Seq<Seq<u8>> {
    match req {
        Request::Get { key } => seq![encode_utf8("GET"@), encode_utf8(key@)],
        Request::Put { key, value } => seq![
            encode_utf8("SET"@),
            encode_utf8(key@),
            encode_utf8(value@),
        ],
        Request::Remove { key } => seq![encode_utf8("REMOVE"@), encode_utf8(key@)],
    }
}

/// The frame fields a response is carried as.
pub open spec fn resp_fields(res: Response) -> Seq<Seq<u8>> {
    match res {
        Response::Value(v) => seq![encode_utf8("VALUE"@), encode_utf8(v@)],
        Response::Done => seq![encode_utf8("OK"@)],
        Response::NotFound => seq![encode_utf8("NOT_FOUND"@)],
        Response::Error(m) => seq![encode_utf8("ERROR"@), encode_utf8(m@)],
    }
}

/// Round trip: an encoded request's frame splits back into exactly the
/// request's fields.
pub proof fn lemma_request_round_trip(q: Request)
    ensures
        frame_parse(resp_frame(req_fields(q))) == Some(req_fields(q)),
{
    lemma_frame_round_trip(req_fields(q));
}

/// Round trip: an encoded response's frame splits back into exactly the
/// response's fields.
pub proof fn lemma_response_round_trip(s: Response)
    ensures
        frame_parse(resp_frame(resp_fields(s))) == Some(resp_fields(s)),
{
    lemma_frame_round_trip(resp_fields(s));
}

/// A framing of requests and responses; other framings can be substituted
/// without changing the server logic.
pub trait ProtocolTrait {
    /// Encodes one request as a frame.
    fn encode_request(&self, req: &Request) -> Vec<u8>;

    /// Decodes one request from a frame.
    fn decode_request(&self, data: &[u8]) -> Result<Request, TsaError>;

    /// Encodes one response as a frame.
    fn encode_response(&self, res: &Response) -> Vec<u8>;

    /// Decodes one response from a frame.
    fn decode_response(&self, data: &[u8]) -> Result<Response, TsaError>;
}

/// The line-framed protocol of this crate.
pub struct RespProtocol;

impl ProtocolTrait for RespProtocol {
    fn encode_request(&self, req: &Request) -> (r: Vec<u8>)
        ensures
            r@ == resp_frame(req_fields(*req)),
    {
        let s = match req {
            Request::Put { key, value } => {
                let mut args: Vec<&str> = Vec::new();
                args.push(key.as_str());
                args.push(value.as_str());
                let s = serialize("SET", args.as_slice());
                proof {
                    assert(args@.len() == 2);
                    assert(args@[0]@ == key@);
                    assert(args@[1]@ == value@);
                    assert(seq![encode_utf8("SET"@)] + args@.map_values(|a: &str| encode_utf8(a@))
                        =~= req_fields(*req));
                }
                s
            },
            Request::Get { key } => {
                let mut args: Vec<&str> = Vec::new();
                args.push(key.as_str());
                let s = serialize("GET", args.as_slice());
                proof {
                    assert(args@.len() == 1);
                    assert(args@[0]@ == key@);
                    assert(seq![encode_utf8("GET"@)] + args@.map_values(|a: &str| encode_utf8(a@))
                        =~= req_fields(*req));
                }
                s
            },
            Request::Remove { key } => {
                let mut args: Vec<&str> = Vec::new();
                args.push(key.as_str());
                let s = serialize("REMOVE", args.as_slice());
                proof {
                    assert(args@.len() == 1);
                    assert(args@[0]@ == key@);
                    assert(seq![encode_utf8("REMOVE"@)] + args@.map_values(|a: &str| encode_utf8(a@))
                        =~= req_fields(*req));
                }
                s
            },
        };
        s.as_str().as_bytes_vec()
    }

    fn decode_request(&self, data: &[u8]) -> (r: Result<Request, TsaError>)
        ensures
            match r {
                Ok(q) => frame_parse(data@) == Some(req_fields(q)),
                Err(e) => e is Protocol && forall|q: Request|
                    frame_parse(data@) != Some(#[trigger] req_fields(q)),
            },
    {
        let parts = match deserialize(data) {
            Ok(p) => p,
            Err(e) => {
                proof {
                    assert forall|q: Request| frame_parse(data@) != Some(
                        #[trigger] req_fields(q),
                    ) by {
                        if frame_parse(data@) == Some(req_fields(q)) {
                            lemma_fields_utf8_req(q);
                            assert(false);
                        }
                    }
                }
                return Err(e);
            },
        };
        let ghost fs = frame_parse(data@)->Some_0;
        proof {
            lemma_parts_pin_fields(fs, parts@);
        }
        if parts.len() == 2 {
            let word_get = String::from_str("GET");
            let word_remove = String::from_str("REMOVE");
            if parts[0] == word_get {
                let q = Request::Get { key: parts[1].clone() };
                proof {
                    assert(encode_utf8(parts@[0]@) == fs[0]);
                    assert(encode_utf8(parts@[1]@) == fs[1]);
                    assert(req_fields(q) =~= fs);
                }
                return Ok(q);
            }
            if parts[0] == word_remove {
                let q = Request::Remove { key: parts[1].clone() };
                proof {
                    assert(encode_utf8(parts@[0]@) == fs[0]);
                    assert(encode_utf8(parts@[1]@) == fs[1]);
                    assert(req_fields(q) =~= fs);
                }
                return Ok(q);
            }
        } else if parts.len() == 3 {
            let word_set = String::from_str("SET");
            if parts[0] == word_set {
                let q = Request::Put { key: parts[1].clone(), value: parts[2].clone() };
                proof {
                    assert(encode_utf8(parts@[0]@) == fs[0]);
                    assert(encode_utf8(parts@[1]@) == fs[1]);
                    assert(encode_utf8(parts@[2]@) == fs[2]);
                    assert(req_fields(q) =~= fs);
                }
                return Ok(q);
            }
        }
        proof {
            assert forall|q: Request| frame_parse(data@) != Some(#[trigger] req_fields(q)) by {
                if frame_parse(data@) == Some(req_fields(q)) {
                    lemma_fields_utf8_req(q);
                    match q {
                        Request::Get { key } => {
                            vstd::utf8::encode_utf8_decode_utf8("GET"@);
                            assert(parts@[0]@ == decode_utf8(encode_utf8("GET"@)));
                        },
                        Request::Put { key, value } => {
                            vstd::utf8::encode_utf8_decode_utf8("SET"@);
                            assert(parts@[0]@ == decode_utf8(encode_utf8("SET"@)));
                        },
                        Request::Remove { key } => {
                            vstd::utf8::encode_utf8_decode_utf8("REMOVE"@);
                            assert(parts@[0]@ == decode_utf8(encode_utf8("REMOVE"@)));
                        },
                    }
                    assert(false);
                }
            }
        }
        Err(TsaError::Protocol(String::from_str("Invalid request format")))
    }

    fn encode_response(&self, res: &Response) -> (r: Vec<u8>)
        ensures
            r@ == resp_frame(resp_fields(*res)),
    {
        let s = match res {
            Response::Value(v) => {
                let mut args: Vec<&str> = Vec::new();
                args.push(v.as_str());
                let s = serialize("VALUE", args.as_slice());
                proof {
                    assert(args@.len() == 1);
                    assert(args@[0]@ == v@);
                    assert(seq![encode_utf8("VALUE"@)] + args@.map_values(|a: &str| encode_utf8(a@))
                        =~= resp_fields(*res));
                }
                s
            },
            Response::Done => {
                let mut args: Vec<&str> = Vec::new();
                let s = serialize("OK", args.as_slice());
                proof {
                    assert(args@.len() == 0);
                    assert(seq![encode_utf8("OK"@)] + args@.map_values(|a: &str| encode_utf8(a@))
                        =~= resp_fields(*res));
                }
                s
            },
            Response::NotFound => {
                let mut args: Vec<&str> = Vec::new();
                let s = serialize("NOT_FOUND", args.as_slice());
                proof {
                    assert(args@.len() == 0);
                    assert(seq![encode_utf8("NOT_FOUND"@)] + args@.map_values(|a: &str| encode_utf8(a@))
                        =~= resp_fields(*res));
                }
                s
            },
            Response::Error(m) => {
                let mut args: Vec<&str> = Vec::new();
                args.push(m.as_str());
                let s = serialize("ERROR", args.as_slice());
                proof {
                    assert(args@.len() == 1);
                    assert(args@[0]@ == m@);
                    assert(seq![encode_utf8("ERROR"@)] + args@.map_values(|a: &str| encode_utf8(a@))
                        =~= resp_fields(*res));
                }
                s
            },
        };
        s.as_str().as_bytes_vec()
    }

    fn decode_response(&self, data: &[u8]) -> (r: Result<Response, TsaError>)
        ensures
            match r {
                Ok(s) => frame_parse(data@) == Some(resp_fields(s)),
                Err(e) => e is Protocol && forall|s: Response|
                    frame_parse(data@) != Some(#[trigger] resp_fields(s)),
            },
    {
        let parts = match deserialize(data) {
            Ok(p) => p,
            Err(e) => {
                proof {
                    assert forall|s: Response| frame_parse(data@) != Some(
                        #[trigger] resp_fields(s),
                    ) by {
                        if frame_parse(data@) == Some(resp_fields(s)) {
                            lemma_fields_utf8_resp(s);
                            assert(false);
                        }
                    }
                }
                return Err(e);
            },
        };
        let ghost fs = frame_parse(data@)->Some_0;
        proof {
            lemma_parts_pin_fields(fs, parts@);
        }
        if parts.len() == 1 {
            let word_ok = String::from_str("OK");
            let word_nf = String::from_str("NOT_FOUND");
            if parts[0] == word_ok {
                proof {
                    assert(encode_utf8(parts@[0]@) == fs[0]);
                    assert(resp_fields(Response::Done) =~= fs);
                }
                return Ok(Response::Done);
            }
            if parts[0] == word_nf {
                proof {
                    assert(encode_utf8(parts@[0]@) == fs[0]);
                    assert(resp_fields(Response::NotFound) =~= fs);
                }
                return Ok(Response::NotFound);
            }
        } else if parts.len() == 2 {
            let word_value = String::from_str("VALUE");
            let word_error = String::from_str("ERROR");
            if parts[0] == word_value {
                let s2 = Response::Value(parts[1].clone());
                proof {
                    assert(encode_utf8(parts@[0]@) == fs[0]);
                    assert(encode_utf8(parts@[1]@) == fs[1]);
                    assert(resp_fields(s2) =~= fs);
                }
                return Ok(s2);
            }
            if parts[0] == word_error {
                let s2 = Response::Error(parts[1].clone());
                proof {
                    assert(encode_utf8(parts@[0]@) == fs[0]);
                    assert(encode_utf8(parts@[1]@) == fs[1]);
                    assert(resp_fields(s2) =~= fs);
                }
                return Ok(s2);
            }
        }
        proof {
            assert forall|s: Response| frame_parse(data@) != Some(#[trigger] resp_fields(s)) by {
                if frame_parse(data@) == Some(resp_fields(s)) {
                    lemma_fields_utf8_resp(s);
                    match s {
                        Response::Value(v) => {
                            vstd::utf8::encode_utf8_decode_utf8("VALUE"@);
                            assert(parts@[0]@ == decode_utf8(encode_utf8("VALUE"@)));
                        },
                        Response::Done => {
                            vstd::utf8::encode_utf8_decode_utf8("OK"@);
                            assert(parts@[0]@ == decode_utf8(encode_utf8("OK"@)));
                        },
                        Response::NotFound => {
                            vstd::utf8::encode_utf8_decode_utf8("NOT_FOUND"@);
                            assert(parts@[0]@ == decode_utf8(encode_utf8("NOT_FOUND"@)));
                        },
                        Response::Error(m) => {
                            vstd::utf8::encode_utf8_decode_utf8("ERROR"@);
                            assert(parts@[0]@ == decode_utf8(encode_utf8("ERROR"@)));
                        },
                    }
                    assert(false);
                }
            }
        }
        Err(TsaError::Protocol(String::from_str("Invalid response format")))
    }
}

/// Request fields are UTF-8 encodings, so their frames decode cleanly.
proof fn lemma_fields_utf8_req(q: Request)
    ensures
        forall|t: int| 0 <= t < req_fields(q).len() ==> valid_utf8(#[trigger] req_fields(q)[t]),
{
    broadcast use vstd::utf8::encode_utf8_valid_utf8;

    match q {
        Request::Get { key } => {
            assert(req_fields(q)[0] == encode_utf8("GET"@));
            assert(req_fields(q)[1] == encode_utf8(key@));
        },
        Request::Put { key, value } => {
            assert(req_fields(q)[0] == encode_utf8("SET"@));
            assert(req_fields(q)[1] == encode_utf8(key@));
            assert(req_fields(q)[2] == encode_utf8(value@));
        },
        Request::Remove { key } => {
            assert(req_fields(q)[0] == encode_utf8("REMOVE"@));
            assert(req_fields(q)[1] == encode_utf8(key@));
        },
    }
}

/// Response fields are UTF-8 encodings, so their frames decode cleanly.
proof fn lemma_fields_utf8_resp(s: Response)
    ensures
        forall|t: int| 0 <= t < resp_fields(s).len() ==> valid_utf8(#[trigger] resp_fields(s)[t]),
{
    broadcast use vstd::utf8::encode_utf8_valid_utf8;

    match s {
        Response::Value(v) => {
            assert(resp_fields(s)[0] == encode_utf8("VALUE"@));
            assert(resp_fields(s)[1] == encode_utf8(v@));
        },
        Response::Done => {
            assert(resp_fields(s)[0] == encode_utf8("OK"@));
        },
        Response::NotFound => {
            assert(resp_fields(s)[0] == encode_utf8("NOT_FOUND"@));
        },
        Response::Error(m) => {
            assert(resp_fields(s)[0] == encode_utf8("ERROR"@));
            assert(resp_fields(s)[1] == encode_utf8(m@));
        },
    }
}

/// Decoded parts re-encode to exactly the fields they came from.
proof fn lemma_parts_pin_fields(fs: Seq<Seq<u8>>, parts: Seq<String>)
    requires
        parts.len() == fs.len(),
        forall|t: int|
            0 <= t < fs.len() ==> valid_utf8(#[trigger] fs[t]) && parts[t]@ == decode_utf8(fs[t]),
    ensures
        forall|t: int| 0 <= t < fs.len() ==> encode_utf8(parts[t]@) == #[trigger] fs[t],
{
    assert forall|t: int| 0 <= t < fs.len() implies encode_utf8(parts[t]@) == #[trigger] fs[t] by {
        vstd::utf8::decode_utf8_encode_utf8(fs[t]);
    }
}

/// The protocol builder: the one concrete framing.
pub struct Protocol;

impl Protocol {
    /// The framing in use.
    pub fn build() -> (r: RespProtocol) {
        RespProtocol
    }
}

} // verus!

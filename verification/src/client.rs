//! The client side of one service call.
//!
//! A call is one connection: the two sides exchange their headers, the client
//! sends the framed request, and the server answers with one byte that says
//! whether it accepted the call, followed by the response or by the reason
//! of its refusal.
//!
//! Nothing here touches a socket. A `Call` says what is to be done next on
//! the connection and is told what came of it; whoever owns the connection
//! does the work in between.

use crate::encoder::{framed, Encoder};
use crate::error::Error;
use crate::header::{
    collected, decode, encode, entries, has_key, inserted, parsed, Fields, Header,
};
use crate::wire::{from_utf8, le_value, read_u32};
use std::marker::PhantomData;
use std::sync::Arc;
use vstd::prelude::*;
use vstd::slice::slice_to_vec;
use vstd::utf8::{encode_utf8, valid_utf8};

verus! {

/// What the server made of a call that reached it: its response, or the
/// reason it gave for refusing.
pub type ServiceResult<T> = Result<T, String>;

/// A message that can be sent.
pub trait RosMsg {
    /// Appends the layout of the message to `encoder`.
    fn encode(&self, encoder: &mut Encoder) -> Result<(), Error>;
}

/// The description of one service type.
pub trait ServicePair {
    type Request: RosMsg;

    type Response;

    /// The hash of the service's definition, by which the peer tells whether
    /// both sides mean the same service type.
    fn md5sum() -> String;

    /// The name of the service type.
    fn msg_type() -> String;
}

/// `str::trim_start_matches` with a string as the pattern: `s` without the
/// repetitions of `prefix` that it begins with.
#[verifier::external_body]
fn trim_start_matches<'a>(s: &'a str, prefix: &str) -> (rest: &'a str)
    requires
        prefix@.len() > 0,
    ensures
        rest@ == without_leading(s@, prefix@),
{
    s.trim_start_matches(prefix)
}

/// `s` without the repetitions of `prefix` that it begins with.
pub open spec fn without_leading(s: Seq<char>, prefix: Seq<char>) -> Seq<char>
    decreases s.len(),
{
    if 0 < prefix.len() <= s.len() && s.subrange(0, prefix.len() as int) == prefix {
        without_leading(s.skip(prefix.len() as int), prefix)
    } else {
        s
    }
}

/// The fields that a client sends before its request.
pub open spec fn request_fields(
    caller_id: Seq<char>,
    service: Seq<char>,
    md5sum: Seq<char>,
    msg_type: Seq<char>,
) -> Fields {
    let none = Fields::empty();
    let one = inserted(none, encode_utf8("callerid"@), encode_utf8(caller_id));
    let two = inserted(one, encode_utf8("service"@), encode_utf8(service));
    let three = inserted(two, encode_utf8("md5sum"@), encode_utf8(md5sum));
    inserted(three, encode_utf8("type"@), encode_utf8(msg_type))
}

/// What a client is made with. It does not change afterwards.
struct ClientInfo {
    caller_id: String,
    uri: String,
    service: String,
}

/// `Arc::clone`: one more pointer to the same `ClientInfo`.
#[verifier::external_body]
fn share(info: &Arc<ClientInfo>) -> (shared: Arc<ClientInfo>)
    ensures
        shared == *info,
{
    Arc::clone(info)
}

/// A client of one service. Cloning it is cheap, and the clones share what
/// it was made with.
pub struct Client<T: ServicePair> {
    info: Arc<ClientInfo>,
    phantom: PhantomData<T>,
}

/// Where a call stands: what was asked of the connection last.
#[derive(Debug, Clone, Copy, PartialEq, Eq, Structural)]
pub enum Stage {
    /// The connection is being opened.
    Connecting,
    /// The client's header is being sent.
    SendingHeader,
    /// The size of the server's header is awaited.
    HeaderSize,
    /// The entries of the server's header are awaited.
    HeaderFields,
    /// The request is being sent.
    SendingRequest,
    /// The byte that says whether the server accepted the call is awaited.
    Verification,
    /// The size of the response is awaited. It is read and not looked at.
    ResponseSize,
    /// The response is being decoded from the connection.
    Response,
    /// The size of the server's reason is awaited.
    FailureSize,
    /// The server's reason is awaited.
    FailureMessage,
}

/// What is to be done on the connection.
#[derive(Debug)]
pub enum Action {
    /// Open a connection to this `host:port`.
    Connect(String),
    /// Write all of these bytes.
    Send(Vec<u8>),
    /// Read exactly this many bytes.
    Receive(usize),
    /// Read the response value.
    Decode,
}

/// What came of an action.
#[derive(Debug)]
pub enum Event<R> {
    /// The connection is open.
    Connected,
    /// The bytes were written.
    Sent,
    /// These bytes were read.
    Received(Vec<u8>),
    /// This response was read.
    Decoded(R),
    /// The action failed.
    Failed(std::io::Error),
}

/// One call in progress.
#[derive(Debug)]
pub struct Call {
    pub stage: Stage,
    /// The name of the service.
    pub service: String,
    /// The address of the service as the client was given it.
    pub uri: String,
    /// The client's header as it goes over the wire, until it is sent.
    pub header: Vec<u8>,
    /// The framed request, until it is sent, or the reason why the request
    /// could not be encoded.
    pub request: Result<Vec<u8>, Error>,
    /// The number of bytes asked for last.
    pub awaited: usize,
}

/// How a call goes on.
#[derive(Debug)]
pub enum Step<R> {
    /// The call goes on with this action.
    Next(Call, Action),
    /// The call is over.
    Done(Result<ServiceResult<R>, Error>),
}

/// Whether `step` is `call` gone on to `stage` with `action`. The service's
/// name and address are kept. The header and the request are kept until they
/// are handed out to be sent, and are empty from then on.
pub open spec fn goes_on<R>(call: Call, step: Step<R>, stage: Stage, action: Action) -> bool {
    &&& step matches Step::Next(next, asked)
    &&& asked == action
    &&& next.stage == stage
    &&& next.service == call.service
    &&& next.uri == call.uri
    &&& next.awaited == match action {
        Action::Receive(n) => n,
        _ => 0,
    }
    &&& if stage == Stage::SendingHeader {
        next.header@ == Seq::<u8>::empty()
    } else {
        next.header == call.header
    }
    &&& if stage == Stage::SendingRequest {
        next.request matches Ok(left) && left@ == Seq::<u8>::empty()
    } else {
        next.request == call.request
    }
}

/// Whether `step` ends the call because `event` is not what the action could
/// end in: a failure of the transport is handed on with its cause, and an
/// event of another kind leaves the outcome unknown.
pub open spec fn breaks_off<R>(event: Event<R>, step: Step<R>) -> bool {
    match event {
        Event::Failed(cause) => step == Step::<R>::Done(Err(Error::Io(cause))),
        _ => step matches Step::Done(Err(Error::ServiceResponseUnknown)),
    }
}

/// How many steps a call at `stage` can still take at most.
pub open spec fn steps_left(stage: Stage) -> nat {
    match stage {
        Stage::Connecting => 9,
        Stage::SendingHeader => 8,
        Stage::HeaderSize => 7,
        Stage::HeaderFields => 6,
        Stage::SendingRequest => 5,
        Stage::Verification => 4,
        Stage::ResponseSize => 3,
        Stage::FailureSize => 3,
        Stage::Response => 2,
        Stage::FailureMessage => 2,
    }
}

/// Whether `step` is what follows when a call in the state `call` is told of
/// `event`.
pub open spec fn follows<R>(call: Call, event: Event<R>, step: Step<R>) -> bool {
    match call.stage {
        Stage::Connecting => match event {
            Event::Connected => goes_on(
                call,
                step,
                Stage::SendingHeader,
                Action::Send(call.header),
            ),
            _ => step matches Step::Done(Err(Error::ServiceConnectionFail { service, uri }))
                && service == call.service && uri == call.uri,
        },
        Stage::SendingHeader => match event {
            Event::Sent => goes_on(call, step, Stage::HeaderSize, Action::Receive(4)),
            _ => breaks_off(event, step),
        },
        Stage::HeaderSize => match event {
            Event::Received(data) => if data@.len() == 4 {
                goes_on(call, step, Stage::HeaderFields, Action::Receive(le_value(data@) as usize))
            } else {
                step matches Step::Done(Err(Error::EndOfBuffer))
            },
            _ => breaks_off(event, step),
        },
        Stage::HeaderFields => match event {
            Event::Received(data) => if data@.len() != call.awaited {
                step matches Step::Done(Err(Error::EndOfBuffer))
            } else {
                match parsed(data@) {
                    Ok(pairs) => if has_key(collected(pairs), encode_utf8("callerid"@)) {
                        match call.request {
                            Ok(bytes) => goes_on(
                                call,
                                step,
                                Stage::SendingRequest,
                                Action::Send(bytes),
                            ),
                            Err(e) => step == Step::<R>::Done(Err(e)),
                        }
                    } else {
                        step matches Step::Done(Err(Error::HeaderMissingField(name))) && name@
                            == "callerid"@
                    },
                    Err(Error::MalformedHeader) => step matches Step::Done(
                        Err(Error::MalformedHeader),
                    ),
                    Err(_) => step matches Step::Done(Err(Error::EndOfBuffer)),
                }
            },
            _ => breaks_off(event, step),
        },
        Stage::SendingRequest => match event {
            Event::Sent => goes_on(call, step, Stage::Verification, Action::Receive(1)),
            _ => breaks_off(event, step),
        },
        Stage::Verification => match event {
            Event::Received(data) => if data@.len() != 1 {
                step matches Step::Done(Err(Error::ServiceResponseInterruption))
            } else if data@[0] != 0 {
                goes_on(call, step, Stage::ResponseSize, Action::Receive(4))
            } else {
                goes_on(call, step, Stage::FailureSize, Action::Receive(4))
            },
            _ => step matches Step::Done(Err(Error::ServiceResponseInterruption)),
        },
        Stage::ResponseSize => goes_on(call, step, Stage::Response, Action::Decode),
        Stage::Response => match event {
            Event::Decoded(response) => step == Step::Done(Ok(Ok(response))),
            _ => breaks_off(event, step),
        },
        Stage::FailureSize => match event {
            Event::Received(data) => if data@.len() == 4 {
                goes_on(
                    call,
                    step,
                    Stage::FailureMessage,
                    Action::Receive(le_value(data@) as usize),
                )
            } else {
                step matches Step::Done(Err(Error::EndOfBuffer))
            },
            _ => breaks_off(event, step),
        },
        Stage::FailureMessage => match event {
            Event::Received(data) => if data@.len() != call.awaited {
                step matches Step::Done(Err(Error::EndOfBuffer))
            } else if valid_utf8(data@) {
                step matches Step::Done(Ok(Err(message))) && encode_utf8(message@) == data@
            } else {
                step matches Step::Done(Err(Error::InvalidString))
            },
            _ => breaks_off(event, step),
        },
    }
}

/// Tells from the one byte that follows the request whether the server
/// accepted the call: any byte but 0 says that it did. Anything but one byte
/// is a connection that ended early.
pub fn read_verification_byte(data: &[u8]) -> (r: Result<bool, Error>)
    ensures
        data@.len() == 1 ==> r == Ok::<bool, Error>(data@[0] != 0),
        data@.len() != 1 ==> r matches Err(Error::ServiceResponseInterruption),
{
    if data.len() == 1 {
        Ok(data[0] != 0)
    } else {
        Err(Error::ServiceResponseInterruption)
    }
}

/// The header that a client sends before its request, with the four fields
/// `callerid`, `service`, `md5sum` and `type`.
pub fn request_header(caller_id: &str, service: &str, md5sum: &str, msg_type: &str) -> (header:
    Header)
    ensures
        header@ == request_fields(caller_id@, service@, md5sum@, msg_type@),
{
    let mut header = Header::new();
    header.insert(slice_to_vec("callerid".as_bytes()), slice_to_vec(caller_id.as_bytes()));
    header.insert(slice_to_vec("service".as_bytes()), slice_to_vec(service.as_bytes()));
    header.insert(slice_to_vec("md5sum".as_bytes()), slice_to_vec(md5sum.as_bytes()));
    header.insert(slice_to_vec("type".as_bytes()), slice_to_vec(msg_type.as_bytes()));
    header
}

/// Appends to `stream` the header of a client that asks for a service of the
/// type `T`.
pub fn write_request<T: ServicePair>(stream: &mut Vec<u8>, caller_id: &str, service: &str) -> (r:
    Result<(), Error>)
    ensures
        r is Ok,
        exists|md5sum: String, msg_type: String|
            call_ensures(T::md5sum, (), md5sum) && call_ensures(T::msg_type, (), msg_type)
                && final(stream)@ == old(stream)@ + framed(
                entries(#[trigger] request_fields(caller_id@, service@, md5sum@, msg_type@)),
            ),
{
    let md5sum = T::md5sum();
    let msg_type = T::msg_type();
    let fields = request_header(caller_id, service, md5sum.as_str(), msg_type.as_str());
    let mut encoder = Encoder::new();
    encode(&fields, &mut encoder)?;
    let ghost before = stream@;
    match encoder.write_to(stream) {
        Ok(()) => {
            assert(stream@ == before + framed(
                entries(request_fields(caller_id@, service@, md5sum@, msg_type@)),
            ));
            Ok(())
        },
        Err(e) => Err(Error::Io(e)),
    }
}

/// Checks the entries of the server's header: they must decode, and the
/// field `callerid` must be among them. Its value is not looked at, nor is
/// any other field.
pub fn read_response(block: &[u8]) -> (r: Result<(), Error>)
    ensures
        match parsed(block@) {
            Ok(pairs) => if has_key(collected(pairs), encode_utf8("callerid"@)) {
                r is Ok
            } else {
                r matches Err(Error::HeaderMissingField(name)) && name@ == "callerid"@
            },
            Err(Error::MalformedHeader) => r matches Err(Error::MalformedHeader),
            Err(_) => r matches Err(Error::EndOfBuffer),
        },
{
    let fields = decode(block)?;
    if fields.contains_key("callerid".as_bytes()) {
        Ok(())
    } else {
        Err(Error::HeaderMissingField("callerid".to_owned()))
    }
}

/// The request as it goes over the wire, from what encoding it gave: the
/// encoded bytes behind their size, or the failure of the encoding.
pub fn frame_request(encoded: Result<(), Error>, body: &Encoder) -> (r: Result<Vec<u8>, Error>)
    ensures
        match encoded {
            Ok(_) => r matches Ok(bytes) && bytes@ == framed(body@),
            Err(e) => r == Err::<Vec<u8>, Error>(e),
        },
{
    match encoded {
        Ok(()) => {
            let mut framed = Encoder::new();
            framed.write_size(body.len())?;
            let mut bytes: Vec<u8> = Vec::new();
            match framed.write_to(&mut bytes) {
                Ok(()) => {},
                Err(e) => {
                    return Err(Error::Io(e));
                },
            }
            match body.write_to(&mut bytes) {
                Ok(()) => Ok(bytes),
                Err(e) => Err(Error::Io(e)),
            }
        },
        Err(e) => Err(e),
    }
}

/// The server's reason for refusing a call, from the bytes that hold it.
pub fn failure_message(data: Vec<u8>) -> (r: Result<String, Error>)
    ensures
        valid_utf8(data@) ==> (r matches Ok(message) && encode_utf8(message@) == data@),
        !valid_utf8(data@) ==> r matches Err(Error::InvalidString),
{
    match from_utf8(data) {
        Some(message) => Ok(message),
        None => Err(Error::InvalidString),
    }
}

impl<T: ServicePair> Clone for Client<T> {
    fn clone(&self) -> (copy: Client<T>)
        ensures
            copy.caller_id() == self.caller_id(),
            copy.uri() == self.uri(),
            copy.service() == self.service(),
    {
        Client { info: share(&self.info), phantom: PhantomData }
    }
}

impl<T: ServicePair> Client<T> {
    /// The name under which the client calls.
    pub closed spec fn caller_id(&self) -> Seq<char> {
        self.info.caller_id@
    }

    /// The address of the service.
    pub closed spec fn uri(&self) -> Seq<char> {
        self.info.uri@
    }

    /// The name of the service.
    pub closed spec fn service(&self) -> Seq<char> {
        self.info.service@
    }

    /// A client that calls `service` at `uri` under the name `caller_id`.
    /// Nothing is sent yet.
    pub fn new(caller_id: &str, uri: &str, service: &str) -> (client: Client<T>)
        ensures
            client.caller_id() == caller_id@,
            client.uri() == uri@,
            client.service() == service@,
    {
        Client {
            info: Arc::new(
                ClientInfo {
                    caller_id: caller_id.to_owned(),
                    uri: uri.to_owned(),
                    service: service.to_owned(),
                },
            ),
            phantom: PhantomData,
        }
    }

    /// Begins a call with the request `args`: the call, and the action it
    /// begins with.
    ///
    /// The request that the call will send is what `args` encodes to, behind
    /// its size; if `args` cannot be encoded, the call will end with that
    /// failure once the headers are exchanged.
    pub fn req(&self, args: &T::Request) -> (begun: (Call, Action))
        ensures
            begins::<T>(begun.0, begun.1, self.caller_id(), self.uri(), self.service()),
            exists|e: &mut Encoder, encoded: Result<(), Error>|
                e@ == Seq::<u8>::empty() && #[trigger] call_ensures(
                    <T::Request as RosMsg>::encode,
                    (args, e),
                    encoded,
                ) && match encoded {
                    Ok(_) => begun.0.request matches Ok(bytes) && bytes@ == framed(final(e)@),
                    Err(failure) => begun.0.request == Err::<Vec<u8>, Error>(failure),
                },
    {
        Self::request_body(
            args,
            self.info.uri.as_str(),
            self.info.caller_id.as_str(),
            self.info.service.as_str(),
        )
    }

    /// Prepares everything that a call sends, and asks for the connection.
    fn request_body(args: &T::Request, uri: &str, caller_id: &str, service: &str) -> (begun: (
        Call,
        Action,
    ))
        ensures
            begins::<T>(begun.0, begun.1, caller_id@, uri@, service@),
            exists|e: &mut Encoder, encoded: Result<(), Error>|
                e@ == Seq::<u8>::empty() && #[trigger] call_ensures(
                    <T::Request as RosMsg>::encode,
                    (args, e),
                    encoded,
                ) && match encoded {
                    Ok(_) => begun.0.request matches Ok(bytes) && bytes@ == framed(final(e)@),
                    Err(failure) => begun.0.request == Err::<Vec<u8>, Error>(failure),
                },
    {
        proof {
            reveal_strlit("rosrpc://");
        }
        let address = trim_start_matches(uri, "rosrpc://").to_owned();
        let mut header: Vec<u8> = Vec::new();
        let _ = write_request::<T>(&mut header, caller_id, service);
        let mut encoder = Encoder::new();
        let encoded = args.encode(&mut encoder);
        let request = frame_request(encoded, &encoder);
        let call = Call {
            stage: Stage::Connecting,
            service: service.to_owned(),
            uri: uri.to_owned(),
            header,
            request,
            awaited: 0,
        };
        (call, Action::Connect(address))
    }
}

/// Whether `call` and `action` are how a call of a service of the type `T`
/// begins for a client that was made with `caller_id`, `uri` and `service`:
/// the connection to the address in `uri`, without its scheme, is asked for,
/// and the header is ready, with what `T` gives as its hash and its name.
pub open spec fn begins<T: ServicePair>(
    call: Call,
    action: Action,
    caller_id: Seq<char>,
    uri: Seq<char>,
    service: Seq<char>,
) -> bool {
    &&& call.stage == Stage::Connecting
    &&& call.service@ == service
    &&& call.uri@ == uri
    &&& action matches Action::Connect(address) && address@ == without_leading(uri, "rosrpc://"@)
    &&& exists|md5sum: String, msg_type: String|
        call_ensures(T::md5sum, (), md5sum) && call_ensures(T::msg_type, (), msg_type)
            && call.header@ == framed(
            entries(#[trigger] request_fields(caller_id, service, md5sum@, msg_type@)),
        )
}

impl Call {
    /// The call at `stage`, with `awaited` bytes asked for.
    fn at(self, stage: Stage, awaited: usize) -> (next: Call)
        ensures
            next.stage == stage,
            next.awaited == awaited,
            next.service == self.service,
            next.uri == self.uri,
            next.header == self.header,
            next.request == self.request,
    {
        Call {
            stage,
            service: self.service,
            uri: self.uri,
            header: self.header,
            request: self.request,
            awaited,
        }
    }

    /// The number that the four bytes of a size hold.
    fn size(data: &Vec<u8>) -> (n: usize)
        requires
            data@.len() == 4,
        ensures
            n == le_value(data@) as usize,
    {
        assert(data@.subrange(0, 4) =~= data@);
        read_u32(data.as_slice()) as usize
    }

    /// Takes the call one step on: `event` is what came of the action that
    /// the call asked for last.
    ///
    /// The steps are those of one call, in their order: connect, send the
    /// header, read the server's header and look for `callerid` in it, send
    /// the request, read the byte that says whether the server accepted the
    /// call, then either skip the size of the response and have the response
    /// read, or read the server's reason.
    ///
    /// A failed connection attempt ends the call with `ServiceConnectionFail`,
    /// a missing verification byte with `ServiceResponseInterruption`, fewer
    /// bytes than were asked for with `EndOfBuffer`, and any other failure of
    /// the transport with its cause. What came of reading the size of the
    /// response is not looked at.
    pub fn step<R>(self, event: Event<R>) -> (step: Step<R>)
        ensures
            follows(self, event, step),
            step matches Step::Next(next, _) ==> steps_left(next.stage) < steps_left(self.stage),
    {
        match self.stage {
            Stage::Connecting => match event {
                Event::Connected => {
                    let Call { stage: _, service, uri, header, request, awaited: _ } = self;
                    let next = Call {
                        stage: Stage::SendingHeader,
                        service,
                        uri,
                        header: Vec::new(),
                        request,
                        awaited: 0,
                    };
                    Step::Next(next, Action::Send(header))
                },
                _ => Step::Done(
                    Err(Error::ServiceConnectionFail { service: self.service, uri: self.uri }),
                ),
            },
            Stage::SendingHeader => match event {
                Event::Sent => Step::Next(self.at(Stage::HeaderSize, 4), Action::Receive(4)),
                Event::Failed(cause) => Step::Done(Err(Error::Io(cause))),
                _ => Step::Done(Err(Error::ServiceResponseUnknown)),
            },
            Stage::HeaderSize => match event {
                Event::Received(data) => {
                    if data.len() == 4 {
                        let n = Self::size(&data);
                        Step::Next(self.at(Stage::HeaderFields, n), Action::Receive(n))
                    } else {
                        Step::Done(Err(Error::EndOfBuffer))
                    }
                },
                Event::Failed(cause) => Step::Done(Err(Error::Io(cause))),
                _ => Step::Done(Err(Error::ServiceResponseUnknown)),
            },
            Stage::HeaderFields => match event {
                Event::Received(data) => {
                    if data.len() != self.awaited {
                        return Step::Done(Err(Error::EndOfBuffer));
                    }
                    match read_response(data.as_slice()) {
                        Ok(()) => {
                            let Call { stage: _, service, uri, header, request, awaited: _ } = self;
                            match request {
                                Ok(bytes) => {
                                    let next = Call {
                                        stage: Stage::SendingRequest,
                                        service,
                                        uri,
                                        header,
                                        request: Ok(Vec::new()),
                                        awaited: 0,
                                    };
                                    Step::Next(next, Action::Send(bytes))
                                },
                                Err(e) => Step::Done(Err(e)),
                            }
                        },
                        Err(e) => Step::Done(Err(e)),
                    }
                },
                Event::Failed(cause) => Step::Done(Err(Error::Io(cause))),
                _ => Step::Done(Err(Error::ServiceResponseUnknown)),
            },
            Stage::SendingRequest => match event {
                Event::Sent => Step::Next(self.at(Stage::Verification, 1), Action::Receive(1)),
                Event::Failed(cause) => Step::Done(Err(Error::Io(cause))),
                _ => Step::Done(Err(Error::ServiceResponseUnknown)),
            },
            Stage::Verification => match event {
                Event::Received(data) => match read_verification_byte(data.as_slice()) {
                    Ok(true) => Step::Next(self.at(Stage::ResponseSize, 4), Action::Receive(4)),
                    Ok(false) => Step::Next(self.at(Stage::FailureSize, 4), Action::Receive(4)),
                    Err(e) => Step::Done(Err(e)),
                },
                _ => Step::Done(Err(Error::ServiceResponseInterruption)),
            },
            Stage::ResponseSize => Step::Next(self.at(Stage::Response, 0), Action::Decode),
            Stage::Response => match event {
                Event::Decoded(response) => Step::Done(Ok(Ok(response))),
                Event::Failed(cause) => Step::Done(Err(Error::Io(cause))),
                _ => Step::Done(Err(Error::ServiceResponseUnknown)),
            },
            Stage::FailureSize => match event {
                Event::Received(data) => {
                    if data.len() == 4 {
                        let n = Self::size(&data);
                        Step::Next(self.at(Stage::FailureMessage, n), Action::Receive(n))
                    } else {
                        Step::Done(Err(Error::EndOfBuffer))
                    }
                },
                Event::Failed(cause) => Step::Done(Err(Error::Io(cause))),
                _ => Step::Done(Err(Error::ServiceResponseUnknown)),
            },
            Stage::FailureMessage => match event {
                Event::Received(data) => {
                    if data.len() != self.awaited {
                        return Step::Done(Err(Error::EndOfBuffer));
                    }
                    match failure_message(data) {
                        Ok(message) => Step::Done(Ok(Err(message))),
                        Err(e) => Step::Done(Err(e)),
                    }
                },
                Event::Failed(cause) => Step::Done(Err(Error::Io(cause))),
                _ => Step::Done(Err(Error::ServiceResponseUnknown)),
            },
        }
    }
}

} // verus!

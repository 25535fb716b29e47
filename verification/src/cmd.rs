//! The command mapper: typed commands built, with full validation, from
//! an array frame, and the response each command produces.

use crate::resp::{frames_view, frame_view, lemma_frames_view, RESPType};
use crate::store::{clone_bytes, spec_route, Store};
use crate::text::{is_utf8, is_utf8_bytes};
use crate::wire::FrameView;
use vstd::prelude::*;

verus! {

/// Why a frame does not name a valid command. Such an error never
/// closes a connection: it is answered with an error frame.
#[derive(Debug, Clone, Copy, PartialEq, Eq, Structural)]
pub enum CmdError {
    /// Commands are carried only by array frames.
    NotArray,
    /// The array holds no elements, so no command name.
    EmptyCommand,
    /// The first element is not a text-bearing frame.
    BadCommandType,
    /// The name matches no supported command.
    UnknownCommand,
    /// The command takes a different number of arguments.
    WrongArity,
    /// An argument is not a text- or byte-bearing frame.
    BadArgumentType,
    /// A key is not well-formed text.
    KeyNotText,
}

/// The error text each command validation failure reports.
pub open spec fn spec_message(e: CmdError) -> Seq<char> {
    match e {
        CmdError::NotArray => "ERR can only read a command from an array"@,
        CmdError::EmptyCommand => "ERR empty command array"@,
        CmdError::BadCommandType => "ERR invalid data type for command name"@,
        CmdError::UnknownCommand => "ERR unknown command"@,
        CmdError::WrongArity => "ERR wrong number of arguments"@,
        CmdError::BadArgumentType => "ERR invalid data type for argument"@,
        CmdError::KeyNotText => "ERR key is not valid text"@,
    }
}

impl CmdError {
    /// The text reported back for this validation failure.
    pub fn message(&self) -> (r: &'static str)
        ensures
            r@ == spec_message(*self),
    {
        match self {
            CmdError::NotArray => "ERR can only read a command from an array",
            CmdError::EmptyCommand => "ERR empty command array",
            CmdError::BadCommandType => "ERR invalid data type for command name",
            CmdError::UnknownCommand => "ERR unknown command",
            CmdError::WrongArity => "ERR wrong number of arguments",
            CmdError::BadArgumentType => "ERR invalid data type for argument",
            CmdError::KeyNotText => "ERR key is not valid text",
        }
    }
}

/// The canonical command names, lower case.
pub open spec fn name_ping() -> Seq<u8> {
    seq![112u8, 105u8, 110u8, 103u8]
}

pub open spec fn name_echo() -> Seq<u8> {
    seq![101u8, 99u8, 104u8, 111u8]
}

pub open spec fn name_get() -> Seq<u8> {
    seq![103u8, 101u8, 116u8]
}

pub open spec fn name_set() -> Seq<u8> {
    seq![115u8, 101u8, 116u8]
}

/// The reply to a bare ping.
pub open spec fn name_pong() -> Seq<u8> {
    seq![112u8, 111u8, 110u8, 103u8]
}

/// The acknowledgement a set receives.
pub open spec fn name_ok() -> Seq<u8> {
    seq![79u8, 75u8]
}

/// The text a frame carries, for frames that carry any.
pub open spec fn text_of(f: FrameView) -> Option<Seq<u8>> {
    match f {
        FrameView::Bulk(b) => Some(b),
        FrameView::Simple(s) => Some(s),
        _ => None,
    }
}

/// Mathematical model of a command.
pub enum CmdView {
    Ping(Option<Seq<u8>>),
    Echo(Option<Seq<u8>>),
    Get(Seq<u8>),
    SetCmd(Seq<u8>, Seq<u8>),
}

/// Validation of an optional trailing message: none, or one
/// text-bearing element.
pub open spec fn spec_opt_msg(elems: Seq<FrameView>) -> Result<Option<Seq<u8>>, CmdError> {
    if elems.len() == 1 {
        Ok(None)
    } else if elems.len() == 2 {
        match text_of(elems[1]) {
            Some(m) => Ok(Some(m)),
            None => Err(CmdError::BadArgumentType),
        }
    } else {
        Err(CmdError::WrongArity)
    }
}

/// Validation of a get: exactly one key, carried by a text-bearing
/// frame and itself well-formed text.
pub open spec fn spec_get_args(elems: Seq<FrameView>) -> Result<Seq<u8>, CmdError> {
    if elems.len() == 2 {
        match text_of(elems[1]) {
            Some(k) => if is_utf8(k) {
                Ok(k)
            } else {
                Err(CmdError::KeyNotText)
            },
            None => Err(CmdError::BadArgumentType),
        }
    } else {
        Err(CmdError::WrongArity)
    }
}

/// Validation of a set: exactly a key and a value, both byte-bearing;
/// the key must moreover be well-formed text, the value may hold any
/// bytes.
pub open spec fn spec_set_args(elems: Seq<FrameView>) -> Result<(Seq<u8>, Seq<u8>), CmdError> {
    if elems.len() == 3 {
        match (text_of(elems[1]), text_of(elems[2])) {
            (Some(k), Some(v)) => if is_utf8(k) {
                Ok((k, v))
            } else {
                Err(CmdError::KeyNotText)
            },
            _ => Err(CmdError::BadArgumentType),
        }
    } else {
        Err(CmdError::WrongArity)
    }
}

/// The command a frame names, or the exact reason it names none. Only
/// an array frame whose first element carries one of the four known
/// names, case-sensitively, builds a command; everything else is an
/// error, never a panic.
pub open spec fn spec_command(f: FrameView) -> Result<CmdView, CmdError> {
    match f {
        FrameView::Array(elems) => {
            if elems.len() == 0 {
                Err(CmdError::EmptyCommand)
            } else {
                match text_of(elems[0]) {
                    None => Err(CmdError::BadCommandType),
                    Some(nm) => if nm == name_ping() {
                        match spec_opt_msg(elems) {
                            Ok(m) => Ok(CmdView::Ping(m)),
                            Err(e) => Err(e),
                        }
                    } else if nm == name_echo() {
                        match spec_opt_msg(elems) {
                            Ok(m) => Ok(CmdView::Echo(m)),
                            Err(e) => Err(e),
                        }
                    } else if nm == name_get() {
                        match spec_get_args(elems) {
                            Ok(k) => Ok(CmdView::Get(k)),
                            Err(e) => Err(e),
                        }
                    } else if nm == name_set() {
                        match spec_set_args(elems) {
                            Ok(kv) => Ok(CmdView::SetCmd(kv.0, kv.1)),
                            Err(e) => Err(e),
                        }
                    } else {
                        Err(CmdError::UnknownCommand)
                    },
                }
            }
        },
        _ => Err(CmdError::NotArray),
    }
}

/// The bytes of the reply to a bare ping.
fn pong_bytes() -> (r: Vec<u8>)
    ensures
        r@ == name_pong(),
{
    let mut v: Vec<u8> = Vec::new();
    v.push(112);
    v.push(111);
    v.push(110);
    v.push(103);
    proof {
        assert(v@ =~= name_pong());
    }
    v
}

/// The bytes of the set acknowledgement.
fn ok_bytes() -> (r: Vec<u8>)
    ensures
        r@ == name_ok(),
{
    let mut v: Vec<u8> = Vec::new();
    v.push(79);
    v.push(75);
    proof {
        assert(v@ =~= name_ok());
    }
    v
}

/// Which known command name `b` is, if any: a small tag the mapper
/// branches on.
pub open spec fn spec_classify(b: Seq<u8>) -> u8 {
    if b == name_ping() {
        1u8
    } else if b == name_echo() {
        2u8
    } else if b == name_get() {
        3u8
    } else if b == name_set() {
        4u8
    } else {
        5u8
    }
}

fn classify(b: &Vec<u8>) -> (k: u8)
    ensures
        k == spec_classify(b@),
{
    if b.len() == 4 && b[0] == 112 && b[1] == 105 && b[2] == 110 && b[3] == 103 {
        proof {
            assert(b@ =~= name_ping());
        }
        1
    } else if b.len() == 4 && b[0] == 101 && b[1] == 99 && b[2] == 104 && b[3] == 111 {
        proof {
            assert(b@ =~= name_echo());
        }
        2
    } else if b.len() == 3 && b[0] == 103 && b[1] == 101 && b[2] == 116 {
        proof {
            assert(b@ =~= name_get());
        }
        3
    } else if b.len() == 3 && b[0] == 115 && b[1] == 101 && b[2] == 116 {
        proof {
            assert(b@ =~= name_set());
        }
        4
    } else {
        proof {
            if b@ == name_ping() || b@ == name_echo() || b@ == name_get() || b@ == name_set() {
                assert(false);
            }
        }
        5
    }
}

/// A ping, with its optional message.
pub struct Ping {
    msg: Option<Vec<u8>>,
}

impl View for Ping {
    type V = Option<Seq<u8>>;

    closed spec fn view(&self) -> Option<Seq<u8>> {
        match self.msg {
            Some(m) => Some(m@),
            None => None,
        }
    }
}

impl Ping {
    pub fn new(msg: Option<Vec<u8>>) -> (r: Ping)
        ensures
            r@ == match msg {
                Some(m) => Some(m@),
                None => None::<Seq<u8>>,
            },
    {
        Ping { msg }
    }

    /// A bare ping answers with the simple text `pong`; one with a
    /// message echoes the message verbatim as a bulk value.
    pub fn response(&self) -> (r: RESPType)
        ensures
            frame_view(r) == match self@ {
                None => FrameView::Simple(name_pong()),
                Some(m) => FrameView::Bulk(m),
            },
    {
        match &self.msg {
            None => RESPType::Simple(pong_bytes()),
            Some(m) => RESPType::Bulk(clone_bytes(m)),
        }
    }
}

/// An echo, with its optional message.
pub struct Echo {
    msg: Option<Vec<u8>>,
}

impl View for Echo {
    type V = Option<Seq<u8>>;

    closed spec fn view(&self) -> Option<Seq<u8>> {
        match self.msg {
            Some(m) => Some(m@),
            None => None,
        }
    }
}

impl Echo {
    pub fn new(msg: Option<Vec<u8>>) -> (r: Echo)
        ensures
            r@ == match msg {
                Some(m) => Some(m@),
                None => None::<Seq<u8>>,
            },
    {
        Echo { msg }
    }

    /// An echo answers its message verbatim as a bulk value; an absent
    /// message echoes an empty bulk value.
    pub fn response(&self) -> (r: RESPType)
        ensures
            frame_view(r) == match self@ {
                None => FrameView::Bulk(Seq::empty()),
                Some(m) => FrameView::Bulk(m),
            },
    {
        match &self.msg {
            None => RESPType::Bulk(Vec::new()),
            Some(m) => RESPType::Bulk(clone_bytes(m)),
        }
    }
}

/// The bulk value stored under a key, or the null variant for an
/// absent key.
pub fn get_response_frame(v: Option<Vec<u8>>) -> (r: RESPType)
    ensures
        frame_view(r) == match v {
            Some(b) => FrameView::Bulk(b@),
            None => FrameView::Null,
        },
{
    match v {
        Some(b) => RESPType::Bulk(b),
        None => RESPType::Null,
    }
}

/// The simple-string acknowledgement a set receives.
pub fn set_response_frame() -> (r: RESPType)
    ensures
        frame_view(r) == FrameView::Simple(name_ok()),
{
    RESPType::Simple(ok_bytes())
}

/// A lookup of one key.
pub struct Get {
    key: Vec<u8>,
}

impl View for Get {
    type V = Seq<u8>;

    closed spec fn view(&self) -> Seq<u8> {
        self.key@
    }
}

impl Get {
    pub fn new(key: Vec<u8>) -> (r: Get)
        ensures
            r@ == key@,
    {
        Get { key }
    }

    /// The key looked up.
    pub fn key(&self) -> (r: &Vec<u8>)
        ensures
            r@ == self@,
    {
        &self.key
    }

    /// The stored bulk value, or the null variant when the key is
    /// absent.
    pub fn response(&self, db: &Store) -> (r: RESPType)
        requires
            db.wf(),
        ensures
            frame_view(r) == if db@.contains_key(self@) {
                FrameView::Bulk(db@[self@])
            } else {
                FrameView::Null
            },
    {
        get_response_frame(db.get(&self.key))
    }
}

/// A store of one key to one value.
pub struct SetCmd {
    key: Vec<u8>,
    value: Vec<u8>,
}

impl View for SetCmd {
    type V = (Seq<u8>, Seq<u8>);

    closed spec fn view(&self) -> (Seq<u8>, Seq<u8>) {
        (self.key@, self.value@)
    }
}

impl SetCmd {
    pub fn new(key: Vec<u8>, value: Vec<u8>) -> (r: SetCmd)
        ensures
            r@ == (key@, value@),
    {
        SetCmd { key, value }
    }

    /// The key written.
    pub fn key(&self) -> (r: &Vec<u8>)
        ensures
            r@ == self@.0,
    {
        &self.key
    }

    /// The value stored.
    pub fn value(&self) -> (r: &Vec<u8>)
        ensures
            r@ == self@.1,
    {
        &self.value
    }

    /// Stores the value under the key — overwriting any earlier value —
    /// and answers the simple-string acknowledgement. Only the one
    /// shard that owns the key changes.
    pub fn response(&self, db: &mut Store) -> (r: RESPType)
        requires
            old(db).wf(),
        ensures
            final(db).wf(),
            final(db)@ == old(db)@.insert(self@.0, self@.1),
            final(db).spec_num_shards() == old(db).spec_num_shards(),
            forall|i: int|
                0 <= i < old(db).spec_shards().len() && i != spec_route(
                    self@.0,
                    old(db).spec_num_shards(),
                ) ==> final(db).spec_shards()[i] == old(db).spec_shards()[i],
            frame_view(r) == FrameView::Simple(name_ok()),
    {
        db.set(clone_bytes(&self.key), clone_bytes(&self.value));
        set_response_frame()
    }
}

/// One validated command. An invalid command is never constructed: the
/// mapper returns the error instead.
pub enum Command {
    Ping(Ping),
    Echo(Echo),
    Get(Get),
    SetCmd(SetCmd),
}

impl View for Command {
    type V = CmdView;

    open spec fn view(&self) -> CmdView {
        match self {
            Command::Ping(p) => CmdView::Ping(p@),
            Command::Echo(e) => CmdView::Echo(e@),
            Command::Get(g) => CmdView::Get(g@),
            Command::SetCmd(s) => CmdView::SetCmd(s@.0, s@.1),
        }
    }
}

/// The optional trailing message of a ping or echo.
fn take_opt_msg(mut arr: Vec<RESPType>) -> (r: Result<Option<Vec<u8>>, CmdError>)
    requires
        arr@.len() >= 1,
    ensures
        match spec_opt_msg(frames_view(arr@)) {
            Ok(m) => match r {
                Ok(Some(v)) => m matches Some(mm) && v@ == mm,
                Ok(None) => m is None,
                _ => false,
            },
            Err(e) => r == Err::<Option<Vec<u8>>, CmdError>(e),
        },
{
    let ghost arr0 = arr@;
    proof {
        lemma_frames_view(arr0);
    }
    if arr.len() == 1 {
        Ok(None)
    } else if arr.len() == 2 {
        let second = arr.pop().unwrap();
        proof {
            assert(second == arr0[1]);
            assert(frames_view(arr0)[1] == frame_view(arr0[1]));
        }
        match second {
            RESPType::Bulk(m) => Ok(Some(m)),
            RESPType::Simple(m) => Ok(Some(m)),
            _ => Err(CmdError::BadArgumentType),
        }
    } else {
        Err(CmdError::WrongArity)
    }
}

/// Validation of a ping request.
fn try_ping(arr: Vec<RESPType>) -> (r: Result<Ping, CmdError>)
    requires
        arr@.len() >= 1,
    ensures
        match spec_opt_msg(frames_view(arr@)) {
            Ok(m) => r matches Ok(p) && p@ == m,
            Err(e) => r == Err::<Ping, CmdError>(e),
        },
{
    match take_opt_msg(arr) {
        Ok(m) => Ok(Ping::new(m)),
        Err(e) => Err(e),
    }
}

/// Validation of an echo request.
fn try_echo(arr: Vec<RESPType>) -> (r: Result<Echo, CmdError>)
    requires
        arr@.len() >= 1,
    ensures
        match spec_opt_msg(frames_view(arr@)) {
            Ok(m) => r matches Ok(p) && p@ == m,
            Err(e) => r == Err::<Echo, CmdError>(e),
        },
{
    match take_opt_msg(arr) {
        Ok(m) => Ok(Echo::new(m)),
        Err(e) => Err(e),
    }
}

/// Validation of a get request.
fn try_get(mut arr: Vec<RESPType>) -> (r: Result<Get, CmdError>)
    requires
        arr@.len() >= 1,
    ensures
        match spec_get_args(frames_view(arr@)) {
            Ok(k) => r matches Ok(g) && g@ == k,
            Err(e) => r == Err::<Get, CmdError>(e),
        },
{
    let ghost arr0 = arr@;
    proof {
        lemma_frames_view(arr0);
    }
    if arr.len() == 2 {
        let second = arr.pop().unwrap();
        proof {
            assert(second == arr0[1]);
            assert(frames_view(arr0)[1] == frame_view(arr0[1]));
        }
        let key = match second {
            RESPType::Bulk(k) => k,
            RESPType::Simple(k) => k,
            _ => {
                return Err(CmdError::BadArgumentType);
            },
        };
        if is_utf8_bytes(&key) {
            Ok(Get::new(key))
        } else {
            Err(CmdError::KeyNotText)
        }
    } else {
        Err(CmdError::WrongArity)
    }
}

/// Validation of a set request.
fn try_set(mut arr: Vec<RESPType>) -> (r: Result<SetCmd, CmdError>)
    requires
        arr@.len() >= 1,
    ensures
        match spec_set_args(frames_view(arr@)) {
            Ok(kv) => r matches Ok(s) && s@ == kv,
            Err(e) => r == Err::<SetCmd, CmdError>(e),
        },
{
    let ghost arr0 = arr@;
    proof {
        lemma_frames_view(arr0);
    }
    if arr.len() == 3 {
        let third = arr.pop().unwrap();
        let second = arr.pop().unwrap();
        proof {
            assert(third == arr0[2]);
            assert(second == arr0.drop_last()[1]);
            assert(arr0.drop_last()[1] == arr0[1]);
            assert(frames_view(arr0)[1] == frame_view(arr0[1]));
            assert(frames_view(arr0)[2] == frame_view(arr0[2]));
        }
        let key = match second {
            RESPType::Bulk(k) => k,
            RESPType::Simple(k) => k,
            _ => {
                return Err(CmdError::BadArgumentType);
            },
        };
        let value = match third {
            RESPType::Bulk(v) => v,
            RESPType::Simple(v) => v,
            _ => {
                return Err(CmdError::BadArgumentType);
            },
        };
        if is_utf8_bytes(&key) {
            Ok(SetCmd::new(key, value))
        } else {
            Err(CmdError::KeyNotText)
        }
    } else {
        Err(CmdError::WrongArity)
    }
}

impl Command {
    /// Maps an array frame to the command it names, validating the
    /// name, the argument count and the argument types; any violation
    /// is returned as an error, never a panic.
    pub fn try_from(value: RESPType) -> (r: Result<Command, CmdError>)
        ensures
            match spec_command(frame_view(value)) {
                Ok(cv) => r matches Ok(c) && c@ == cv,
                Err(e) => r == Err::<Command, CmdError>(e),
            },
    {
        match value {
            RESPType::Array(elems) => {
                proof {
                    lemma_frames_view(elems@);
                }
                if elems.len() == 0 {
                    return Err(CmdError::EmptyCommand);
                }
                let kind: u8 = match &elems[0] {
                    RESPType::Bulk(b) => classify(b),
                    RESPType::Simple(b) => classify(b),
                    _ => 0,
                };
                if kind == 0 {
                    Err(CmdError::BadCommandType)
                } else if kind == 1 {
                    match try_ping(elems) {
                        Ok(p) => Ok(Command::Ping(p)),
                        Err(e) => Err(e),
                    }
                } else if kind == 2 {
                    match try_echo(elems) {
                        Ok(p) => Ok(Command::Echo(p)),
                        Err(e) => Err(e),
                    }
                } else if kind == 3 {
                    match try_get(elems) {
                        Ok(g) => Ok(Command::Get(g)),
                        Err(e) => Err(e),
                    }
                } else if kind == 4 {
                    match try_set(elems) {
                        Ok(s) => Ok(Command::SetCmd(s)),
                        Err(e) => Err(e),
                    }
                } else {
                    Err(CmdError::UnknownCommand)
                }
            },
            _ => Err(CmdError::NotArray),
        }
    }
}

} // verus!

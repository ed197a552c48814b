//! The command decoder: an array frame becomes a typed command. The first
//! element, lower-cased, selects the command; each command then consumes a
//! fixed or variable number of arguments and anything left over is a protocol
//! error. An unrecognized name decodes as `Unknown` rather than failing.
use crate::command_parser::{as_bytes, as_int, as_string, CommandParseError, CommandParser};
use crate::error::Error;
use crate::frame::{Frame, FrameModel};
use vstd::prelude::*;

verus! {

/// An expiry modifier on `SET`: `EX` counts seconds, `PX` milliseconds.
#[derive(Debug, Clone, Copy, PartialEq, Eq, Structural)]
pub enum Expiration {
    Seconds(u64),
    Milliseconds(u64),
}

#[derive(Debug)]
pub enum Command {
    Config(Config),
    Get(Get),
    Publish(Publish),
    SetCmd(SetCommand),
    Subscribe(Subscribe),
    Unsubscribe(Unsubscribe),
    Ping(Ping),
    Unknown(Unknown),
}

#[derive(Debug)]
pub struct Get {
    pub key: Vec<u8>,
}

#[derive(Debug)]
pub struct Ping {
    pub msg: Option<Vec<u8>>,
}

#[derive(Debug)]
pub struct Publish {
    pub channel: Vec<u8>,
    pub message: Vec<u8>,
}

#[derive(Debug)]
pub struct SetCommand {
    pub key: Vec<u8>,
    pub value: Vec<u8>,
    pub expire: Option<Expiration>,
}

#[derive(Debug)]
pub struct Subscribe {
    pub channels: Vec<Vec<u8>>,
}

#[derive(Debug)]
pub struct Unsubscribe {
    pub channels: Vec<Vec<u8>>,
}

#[derive(Debug)]
pub struct Config {
    pub key: Vec<u8>,
    pub value: Vec<u8>,
}

#[derive(Debug)]
pub struct Unknown {
    pub command_name: Vec<u8>,
}

/// The mathematical shape of a decoded command.
pub enum CommandModel {
    Config { key: Seq<u8>, value: Seq<u8> },
    Get { key: Seq<u8> },
    Publish { channel: Seq<u8>, message: Seq<u8> },
    SetCmd { key: Seq<u8>, value: Seq<u8>, expire: Option<Expiration> },
    Subscribe { channels: Seq<Seq<u8>> },
    Unsubscribe { channels: Seq<Seq<u8>> },
    Ping { msg: Option<Seq<u8>> },
    Unknown { name: Seq<u8> },
}

impl View for Command {
    type V = CommandModel;

    open spec fn view(&self) -> CommandModel {
        match self {
            Command::Config(c) => CommandModel::Config { key: c.key@, value: c.value@ },
            Command::Get(c) => CommandModel::Get { key: c.key@ },
            Command::Publish(c) => CommandModel::Publish {
                channel: c.channel@,
                message: c.message@,
            },
            Command::SetCmd(c) => CommandModel::SetCmd {
                key: c.key@,
                value: c.value@,
                expire: c.expire,
            },
            Command::Subscribe(c) => CommandModel::Subscribe { channels: c.channels.deep_view() },
            Command::Unsubscribe(c) => CommandModel::Unsubscribe {
                channels: c.channels.deep_view(),
            },
            Command::Ping(c) => CommandModel::Ping {
                msg: match c.msg {
                    Some(m) => Some(m@),
                    None => None,
                },
            },
            Command::Unknown(c) => CommandModel::Unknown { name: c.command_name@ },
        }
    }
}

/// An ASCII upper-case letter becomes lower case; all else is unchanged.
pub open spec fn lower_byte(b: u8) -> u8 {
    if 65 <= b <= 90 {
        (b + 32) as u8
    } else {
        b
    }
}

pub open spec fn lower_bytes(s: Seq<u8>) -> Seq<u8> {
    s.map_values(|b: u8| lower_byte(b))
}

/// An ASCII lower-case letter becomes upper case; all else is unchanged.
pub open spec fn upper_byte(b: u8) -> u8 {
    if 97 <= b <= 122 {
        (b - 32) as u8
    } else {
        b
    }
}

pub open spec fn upper_bytes(s: Seq<u8>) -> Seq<u8> {
    s.map_values(|b: u8| upper_byte(b))
}

fn to_lower(v: &Vec<u8>) -> (r: Vec<u8>)
    ensures
        r@ == lower_bytes(v@),
{
    let mut out: Vec<u8> = Vec::new();
    let mut i: usize = 0;
    while i < v.len()
        invariant
            0 <= i <= v@.len(),
            out@ == lower_bytes(v@.take(i as int)),
        decreases v@.len() - i,
    {
        let b = v[i];
        if 65 <= b && b <= 90 {
            out.push(b + 32);
        } else {
            out.push(b);
        }
        proof {
            assert(out@ =~= lower_bytes(v@.take(i + 1)));
        }
        i = i + 1;
    }
    proof {
        assert(v@.take(v@.len() as int) =~= v@);
    }
    out
}

fn to_upper(v: &Vec<u8>) -> (r: Vec<u8>)
    ensures
        r@ == upper_bytes(v@),
{
    let mut out: Vec<u8> = Vec::new();
    let mut i: usize = 0;
    while i < v.len()
        invariant
            0 <= i <= v@.len(),
            out@ == upper_bytes(v@.take(i as int)),
        decreases v@.len() - i,
    {
        let b = v[i];
        if 97 <= b && b <= 122 {
            out.push(b - 32);
        } else {
            out.push(b);
        }
        proof {
            assert(out@ =~= upper_bytes(v@.take(i + 1)));
        }
        i = i + 1;
    }
    proof {
        assert(v@.take(v@.len() as int) =~= v@);
    }
    out
}

/// How decoding an array of frames ends: a command, a missing argument, or a
/// malformed one (wrong shape, unknown modifier, leftovers).
pub enum Decoded {
    Cmd(CommandModel),
    MissingArg,
    Malformed,
}

/// All arguments as byte strings, or nothing if one has the wrong shape.
pub open spec fn collect_strings(rest: Seq<crate::frame::SimpleModel>) -> Option<Seq<Seq<u8>>>
    decreases rest.len(),
{
    if rest.len() == 0 {
        Some(Seq::empty())
    } else {
        match as_string(rest[0]) {
            None => None,
            Some(b) => match collect_strings(rest.skip(1)) {
                None => None,
                Some(t) => Some(seq![b] + t),
            },
        }
    }
}

pub open spec fn decode_get(rest: Seq<crate::frame::SimpleModel>) -> Decoded {
    if rest.len() == 0 {
        Decoded::MissingArg
    } else {
        match as_string(rest[0]) {
            None => Decoded::Malformed,
            Some(key) => if rest.len() == 1 {
                Decoded::Cmd(CommandModel::Get { key })
            } else {
                Decoded::Malformed
            },
        }
    }
}

pub open spec fn decode_ping(rest: Seq<crate::frame::SimpleModel>) -> Decoded {
    if rest.len() == 0 {
        Decoded::Cmd(CommandModel::Ping { msg: None })
    } else {
        match as_bytes(rest[0]) {
            None => Decoded::Malformed,
            Some(msg) => if rest.len() == 1 {
                Decoded::Cmd(CommandModel::Ping { msg: Some(msg) })
            } else {
                Decoded::Malformed
            },
        }
    }
}

pub open spec fn decode_publish(rest: Seq<crate::frame::SimpleModel>) -> Decoded {
    if rest.len() == 0 {
        Decoded::MissingArg
    } else {
        match as_string(rest[0]) {
            None => Decoded::Malformed,
            Some(channel) => if rest.len() == 1 {
                Decoded::MissingArg
            } else {
                match as_bytes(rest[1]) {
                    None => Decoded::Malformed,
                    Some(message) => if rest.len() == 2 {
                        Decoded::Cmd(CommandModel::Publish { channel, message })
                    } else {
                        Decoded::Malformed
                    },
                }
            },
        }
    }
}

pub open spec fn decode_config(rest: Seq<crate::frame::SimpleModel>) -> Decoded {
    if rest.len() == 0 {
        Decoded::MissingArg
    } else {
        match as_string(rest[0]) {
            None => Decoded::Malformed,
            Some(key) => if rest.len() == 1 {
                Decoded::MissingArg
            } else {
                match as_string(rest[1]) {
                    None => Decoded::Malformed,
                    Some(value) => if rest.len() == 2 {
                        Decoded::Cmd(CommandModel::Config { key, value })
                    } else {
                        Decoded::Malformed
                    },
                }
            },
        }
    }
}

/// The `EX` keyword, upper-cased.
pub open spec fn ex_bytes() -> Seq<u8> {
    seq![69u8, 88u8]
}

/// The `PX` keyword, upper-cased.
pub open spec fn px_bytes() -> Seq<u8> {
    seq![80u8, 88u8]
}

pub open spec fn decode_set(rest: Seq<crate::frame::SimpleModel>) -> Decoded {
    if rest.len() == 0 {
        Decoded::MissingArg
    } else {
        match as_string(rest[0]) {
            None => Decoded::Malformed,
            Some(key) => if rest.len() == 1 {
                Decoded::MissingArg
            } else {
                match as_bytes(rest[1]) {
                    None => Decoded::Malformed,
                    Some(value) => if rest.len() == 2 {
                        Decoded::Cmd(CommandModel::SetCmd { key, value, expire: None })
                    } else {
                        match as_string(rest[2]) {
                            None => Decoded::Malformed,
                            Some(word) => if upper_bytes(word) == ex_bytes() {
                                if rest.len() == 3 {
                                    Decoded::MissingArg
                                } else {
                                    match as_int(rest[3]) {
                                        None => Decoded::Malformed,
                                        Some(n) => if rest.len() == 4 {
                                            Decoded::Cmd(
                                                CommandModel::SetCmd {
                                                    key,
                                                    value,
                                                    expire: Some(Expiration::Seconds(n)),
                                                },
                                            )
                                        } else {
                                            Decoded::Malformed
                                        },
                                    }
                                }
                            } else if upper_bytes(word) == px_bytes() {
                                if rest.len() == 3 {
                                    Decoded::MissingArg
                                } else {
                                    match as_int(rest[3]) {
                                        None => Decoded::Malformed,
                                        Some(n) => if rest.len() == 4 {
                                            Decoded::Cmd(
                                                CommandModel::SetCmd {
                                                    key,
                                                    value,
                                                    expire: Some(Expiration::Milliseconds(n)),
                                                },
                                            )
                                        } else {
                                            Decoded::Malformed
                                        },
                                    }
                                }
                            } else {
                                // Only the expiration modifier is supported.
                                Decoded::Malformed
                            },
                        }
                    },
                }
            },
        }
    }
}

pub open spec fn decode_subscribe(rest: Seq<crate::frame::SimpleModel>) -> Decoded {
    if rest.len() == 0 {
        Decoded::MissingArg
    } else {
        match collect_strings(rest) {
            None => Decoded::Malformed,
            Some(channels) => Decoded::Cmd(CommandModel::Subscribe { channels }),
        }
    }
}

pub open spec fn decode_unsubscribe(rest: Seq<crate::frame::SimpleModel>) -> Decoded {
    match collect_strings(rest) {
        None => Decoded::Malformed,
        Some(channels) => Decoded::Cmd(CommandModel::Unsubscribe { channels }),
    }
}

/// The names the decoder recognizes, lower-cased byte strings.
pub open spec fn name_get() -> Seq<u8> {
    seq![103u8, 101u8, 116u8]
}

pub open spec fn name_publish() -> Seq<u8> {
    seq![112u8, 117u8, 98u8, 108u8, 105u8, 115u8, 104u8]
}

pub open spec fn name_set() -> Seq<u8> {
    seq![115u8, 101u8, 116u8]
}

pub open spec fn name_subscribe() -> Seq<u8> {
    seq![115u8, 117u8, 98u8, 115u8, 99u8, 114u8, 105u8, 98u8, 101u8]
}

pub open spec fn name_unsubscribe() -> Seq<u8> {
    seq![117u8, 110u8, 115u8, 117u8, 98u8, 115u8, 99u8, 114u8, 105u8, 98u8, 101u8]
}

pub open spec fn name_ping() -> Seq<u8> {
    seq![112u8, 105u8, 110u8, 103u8]
}

pub open spec fn name_config() -> Seq<u8> {
    seq![99u8, 111u8, 110u8, 102u8, 105u8, 103u8]
}

/// What decoding a whole frame yields: exactly one command per well-shaped
/// array, `MissingArg` where a required argument ran out, and `Malformed` for
/// a non-array frame, a wrongly shaped argument, an unsupported `SET`
/// modifier, or leftover arguments.
pub open spec fn spec_from_frame(f: FrameModel) -> Decoded {
    match f {
        FrameModel::Simple(_) => Decoded::Malformed,
        FrameModel::Array(vs) => {
            if vs.len() == 0 {
                Decoded::MissingArg
            } else {
                match as_string(vs[0]) {
                    None => Decoded::Malformed,
                    Some(name0) => {
                        let name = lower_bytes(name0);
                        let rest = vs.skip(1);
                        if name == name_get() {
                            decode_get(rest)
                        } else if name == name_publish() {
                            decode_publish(rest)
                        } else if name == name_set() {
                            decode_set(rest)
                        } else if name == name_subscribe() {
                            decode_subscribe(rest)
                        } else if name == name_unsubscribe() {
                            decode_unsubscribe(rest)
                        } else if name == name_ping() {
                            decode_ping(rest)
                        } else if name == name_config() {
                            decode_config(rest)
                        } else {
                            // An unrecognized name decodes as Unknown; its
                            // arguments are ignored, never a parse failure.
                            Decoded::Cmd(CommandModel::Unknown { name })
                        }
                    },
                }
            }
        },
    }
}

impl Get {
    pub fn new(key: Vec<u8>) -> (r: Get)
        ensures
            r.key == key,
    {
        Get { key }
    }

    pub fn key(&self) -> (r: &Vec<u8>)
        ensures
            r == &self.key,
    {
        &self.key
    }

    pub fn parse_frames(parse: &mut CommandParser) -> (r: Result<Get, CommandParseError>)
        ensures
            match r {
                Ok(g) => old(parse).remaining().len() > 0 && as_string(old(parse).remaining()[0])
                    == Some(g.key@) && final(parse).remaining() == old(parse).remaining().skip(1),
                Err(e) => (e is EndOfStream && old(parse).remaining().len() == 0) || (e is Other
                    && old(parse).remaining().len() > 0 && as_string(old(parse).remaining()[0])
                    is None),
            },
    {
        let key = match parse.next_string() {
            Ok(k) => k,
            Err(e) => {
                return Err(e);
            },
        };
        Ok(Get { key })
    }
}

impl Ping {
    pub fn new(msg: Option<Vec<u8>>) -> (r: Ping)
        ensures
            r.msg == msg,
    {
        Ping { msg }
    }

    pub fn parse_frames(parse: &mut CommandParser) -> (r: Result<Ping, CommandParseError>)
        ensures
            match r {
                Ok(p) => (old(parse).remaining().len() == 0 && p.msg is None && *final(parse)
                    == *old(parse)) || (old(parse).remaining().len() > 0 && p.msg is Some
                    && as_bytes(old(parse).remaining()[0]) == Some(p.msg->Some_0@) && final(parse).remaining() == old(parse).remaining().skip(1)),
                Err(e) => e is Other && old(parse).remaining().len() > 0 && as_bytes(
                    old(parse).remaining()[0],
                ) is None,
            },
    {
        match parse.next_bytes() {
            Ok(msg) => Ok(Ping::new(Some(msg))),
            Err(CommandParseError::EndOfStream) => Ok(Ping { msg: None }),
            Err(e) => Err(e),
        }
    }
}

impl Publish {
    pub fn new(channel: Vec<u8>, message: Vec<u8>) -> (r: Publish)
        ensures
            r.channel == channel,
            r.message == message,
    {
        Publish { channel, message }
    }

    pub fn parse_frames(parse: &mut CommandParser) -> (r: Result<Publish, CommandParseError>)
        ensures
            match r {
                Ok(p) => old(parse).remaining().len() >= 2 && as_string(old(parse).remaining()[0])
                    == Some(p.channel@) && as_bytes(old(parse).remaining()[1]) == Some(p.message@)
                    && final(parse).remaining() == old(parse).remaining().skip(2),
                Err(e) => {
                    let rem = old(parse).remaining();
                    (e is EndOfStream && (rem.len() == 0 || (rem.len() == 1 && as_string(
                        rem[0],
                    ) is Some))) || (e is Other && ((rem.len() > 0 && as_string(rem[0]) is None) || (
                    rem.len() > 1 && as_string(rem[0]) is Some && as_bytes(rem[1]) is None)))
                },
            },
    {
        let channel = match parse.next_string() {
            Ok(c) => c,
            Err(e) => {
                return Err(e);
            },
        };
        let message = match parse.next_bytes() {
            Ok(m) => m,
            Err(e) => {
                return Err(e);
            },
        };
        proof {
            assert(old(parse).remaining().skip(1).skip(1) =~= old(parse).remaining().skip(2));
        }
        Ok(Publish { channel, message })
    }
}

impl SetCommand {
    pub fn new(key: Vec<u8>, value: Vec<u8>, expire: Option<Expiration>) -> (r: SetCommand)
        ensures
            r.key == key,
            r.value == value,
            r.expire == expire,
    {
        SetCommand { key, value, expire }
    }

    pub fn key(&self) -> (r: &Vec<u8>)
        ensures
            r == &self.key,
    {
        &self.key
    }

    pub fn value(&self) -> (r: &Vec<u8>)
        ensures
            r == &self.value,
    {
        &self.value
    }

    pub fn expire(&self) -> (r: Option<Expiration>)
        ensures
            r == self.expire,
    {
        self.expire
    }

    /// Consumes `key value [EX seconds | PX milliseconds]`; any other
    /// trailing token is a protocol error.
    pub fn parse_frames(parse: &mut CommandParser) -> (r: Result<SetCommand, CommandParseError>)
        ensures
            match r {
                Ok(s) => {
                    let rem = old(parse).remaining();
                    &&& rem.len() >= 2
                    &&& as_string(rem[0]) == Some(s.key@)
                    &&& as_bytes(rem[1]) == Some(s.value@)
                    &&& match s.expire {
                        None => rem.len() == 2 && final(parse).remaining() == rem.skip(2),
                        Some(Expiration::Seconds(n)) => rem.len() >= 4 && as_string(rem[2]) is Some
                            && upper_bytes(as_string(rem[2])->Some_0) == ex_bytes() && as_int(
                            rem[3],
                        ) == Some(n) && final(parse).remaining() == rem.skip(4),
                        Some(Expiration::Milliseconds(n)) => rem.len() >= 4 && as_string(
                            rem[2],
                        ) is Some && upper_bytes(as_string(rem[2])->Some_0) == px_bytes() && as_int(
                            rem[3],
                        ) == Some(n) && final(parse).remaining() == rem.skip(4),
                    }
                },
                Err(e) => {
                    let rem = old(parse).remaining();
                    (e is EndOfStream && (rem.len() == 0 || (rem.len() == 1 && as_string(
                        rem[0],
                    ) is Some) || (rem.len() == 3 && as_string(rem[0]) is Some && as_bytes(
                        rem[1],
                    ) is Some && as_string(rem[2]) is Some && (upper_bytes(as_string(rem[2])->Some_0)
                        == ex_bytes() || upper_bytes(as_string(rem[2])->Some_0) == px_bytes()))))
                        || (e is Other && ((rem.len() > 0 && as_string(rem[0]) is None) || (rem.len()
                        > 1 && as_string(rem[0]) is Some && as_bytes(rem[1]) is None) || (rem.len()
                        > 2 && as_string(rem[0]) is Some && as_bytes(rem[1]) is Some && (as_string(
                        rem[2],
                    ) is None || (upper_bytes(as_string(rem[2])->Some_0) != ex_bytes()
                        && upper_bytes(as_string(rem[2])->Some_0) != px_bytes()))) || (rem.len() > 3
                        && as_string(rem[0]) is Some && as_bytes(rem[1]) is Some && as_string(
                        rem[2],
                    ) is Some && (upper_bytes(as_string(rem[2])->Some_0) == ex_bytes()
                        || upper_bytes(as_string(rem[2])->Some_0) == px_bytes()) && as_int(
                        rem[3],
                    ) is None)))
                },
            },
    {
        let key = match parse.next_string() {
            Ok(k) => k,
            Err(e) => {
                return Err(e);
            },
        };
        let value = match parse.next_bytes() {
            Ok(v) => v,
            Err(e) => {
                return Err(e);
            },
        };
        let mut expire: Option<Expiration> = None;
        match parse.next_string() {
            Ok(word) => {
                let upper = to_upper(&word);
                let ex: Vec<u8> = vec![69u8, 88u8];
                let px: Vec<u8> = vec![80u8, 88u8];
                if upper == ex {
                    let secs = match parse.next_int() {
                        Ok(n) => n,
                        Err(e) => {
                            return Err(e);
                        },
                    };
                    expire = Some(Expiration::Seconds(secs));
                    proof {
                        assert(old(parse).remaining().skip(1).skip(1).skip(1).skip(1) =~= old(
                            parse,
                        ).remaining().skip(4));
                    }
                } else if upper == px {
                    let ms = match parse.next_int() {
                        Ok(n) => n,
                        Err(e) => {
                            return Err(e);
                        },
                    };
                    expire = Some(Expiration::Milliseconds(ms));
                    proof {
                        assert(old(parse).remaining().skip(1).skip(1).skip(1).skip(1) =~= old(
                            parse,
                        ).remaining().skip(4));
                    }
                } else {
                    return Err(
                        CommandParseError::Other(
                            Error::Other(
                                String::from_str(
                                    "currently `SET` only supports the expiration option",
                                ),
                            ),
                        ),
                    );
                }
            },
            Err(CommandParseError::EndOfStream) => {
                proof {
                    assert(old(parse).remaining().skip(1).skip(1) =~= old(parse).remaining().skip(
                        2,
                    ));
                }
            },
            Err(e) => {
                return Err(e);
            },
        }
        Ok(SetCommand { key, value, expire })
    }
}

impl Subscribe {
    pub fn new(channels: Vec<Vec<u8>>) -> (r: Subscribe)
        ensures
            r.channels == channels,
    {
        Subscribe { channels }
    }

    pub fn parse_frames(parse: &mut CommandParser) -> (r: Result<Subscribe, CommandParseError>)
        ensures
            match r {
                Ok(s) => old(parse).remaining().len() > 0 && collect_strings(
                    old(parse).remaining(),
                ) == Some(s.channels.deep_view()) && final(parse).remaining().len() == 0,
                Err(e) => (e is EndOfStream && old(parse).remaining().len() == 0) || (e is Other
                    && collect_strings(old(parse).remaining()) is None),
            },
    {
        let first = match parse.next_string() {
            Ok(c) => c,
            Err(e) => {
                proof {
                    if old(parse).remaining().len() > 0 {
                        assert(collect_strings(old(parse).remaining()) is None);
                    }
                }
                return Err(e);
            },
        };
        let mut channels: Vec<Vec<u8>> = Vec::new();
        channels.push(first);
        proof {
            assert(channels.deep_view() =~~= seq![first@]);
        }
        match collect_rest(parse, &mut channels) {
            Ok(()) => Ok(Subscribe { channels }),
            Err(e) => Err(e),
        }
    }
}

/// Appends every remaining argument to `channels` as a byte string; stops at
/// the end sentinel, and fails if some argument has the wrong shape.
fn collect_rest(parse: &mut CommandParser, channels: &mut Vec<Vec<u8>>) -> (r: Result<
    (),
    CommandParseError,
>)
    ensures
        match r {
            Ok(()) => collect_strings(old(parse).remaining()) is Some && final(channels).deep_view() == old(channels).deep_view() + collect_strings(
                old(parse).remaining(),
            )->Some_0 && final(parse).remaining().len() == 0,
            Err(e) => e is Other && collect_strings(old(parse).remaining()) is None,
        },
    decreases old(parse).remaining().len(),
{
    match parse.next_string() {
        Ok(c) => {
            channels.push(c);
            proof {
                assert(channels.deep_view() =~~= old(channels).deep_view() + seq![c@]);
            }
            match collect_rest(parse, channels) {
                Ok(()) => {
                    proof {
                        let rem = old(parse).remaining();
                        let t = collect_strings(rem.skip(1))->Some_0;
                        assert(collect_strings(rem) == Some(seq![c@] + t));
                        assert((old(channels).deep_view() + seq![c@]) + t == old(
                            channels,
                        ).deep_view() + (seq![c@] + t));
                    }
                    Ok(())
                },
                Err(e) => Err(e),
            }
        },
        Err(CommandParseError::EndOfStream) => {
            proof {
                assert(collect_strings(old(parse).remaining()) == Some(Seq::<Seq<u8>>::empty()));
                assert(old(channels).deep_view() + Seq::<Seq<u8>>::empty() =~= old(
                    channels,
                ).deep_view());
            }
            Ok(())
        },
        Err(e) => Err(e),
    }
}

impl Unsubscribe {
    pub fn new(channels: Vec<Vec<u8>>) -> (r: Unsubscribe)
        ensures
            r.channels == channels,
    {
        Unsubscribe { channels }
    }

    pub fn parse_frames(parse: &mut CommandParser) -> (r: Result<Unsubscribe, CommandParseError>)
        ensures
            match r {
                Ok(u) => collect_strings(old(parse).remaining()) == Some(u.channels.deep_view())
                    && final(parse).remaining().len() == 0,
                Err(e) => e is Other && collect_strings(old(parse).remaining()) is None,
            },
    {
        let mut channels: Vec<Vec<u8>> = Vec::new();
        proof {
            assert(channels.deep_view() =~= Seq::<Seq<u8>>::empty());
        }
        match collect_rest(parse, &mut channels) {
            Ok(()) => {
                proof {
                    assert(Seq::<Seq<u8>>::empty() + collect_strings(
                        old(parse).remaining(),
                    )->Some_0 =~= collect_strings(old(parse).remaining())->Some_0);
                }
                Ok(Unsubscribe { channels })
            },
            Err(e) => Err(e),
        }
    }
}

impl Config {
    pub fn new(key: Vec<u8>, value: Vec<u8>) -> (r: Config)
        ensures
            r.key == key,
            r.value == value,
    {
        Config { key, value }
    }

    pub fn key(&self) -> (r: &Vec<u8>)
        ensures
            r == &self.key,
    {
        &self.key
    }

    pub fn value(&self) -> (r: &Vec<u8>)
        ensures
            r == &self.value,
    {
        &self.value
    }

    pub fn parse_frames(parse: &mut CommandParser) -> (r: Result<Config, CommandParseError>)
        ensures
            match r {
                Ok(c) => old(parse).remaining().len() >= 2 && as_string(old(parse).remaining()[0])
                    == Some(c.key@) && as_string(old(parse).remaining()[1]) == Some(c.value@)
                    && final(parse).remaining() == old(parse).remaining().skip(2),
                Err(e) => {
                    let rem = old(parse).remaining();
                    (e is EndOfStream && (rem.len() == 0 || (rem.len() == 1 && as_string(
                        rem[0],
                    ) is Some))) || (e is Other && ((rem.len() > 0 && as_string(rem[0]) is None) || (
                    rem.len() > 1 && as_string(rem[0]) is Some && as_string(rem[1]) is None)))
                },
            },
    {
        let key = match parse.next_string() {
            Ok(k) => k,
            Err(e) => {
                return Err(e);
            },
        };
        let value = match parse.next_string() {
            Ok(v) => v,
            Err(e) => {
                return Err(e);
            },
        };
        proof {
            assert(old(parse).remaining().skip(1).skip(1) =~= old(parse).remaining().skip(2));
        }
        Ok(Config { key, value })
    }
}

impl Unknown {
    pub fn new(command_name: Vec<u8>) -> (r: Unknown)
        ensures
            r.command_name == command_name,
    {
        Unknown { command_name }
    }

    pub fn get_name(&self) -> (r: &Vec<u8>)
        ensures
            r == &self.command_name,
    {
        &self.command_name
    }
}

impl Command {
    /// Decodes an array frame into a command: the lower-cased first element
    /// names the command, the rest are its arguments, and leftover elements
    /// are a protocol error.
    pub fn from_frame(frame: Frame) -> (r: Result<Command, CommandParseError>)
        ensures
            match spec_from_frame(frame@) {
                Decoded::Cmd(c) => r is Ok && r->Ok_0@ == c,
                Decoded::MissingArg => r is Err && r->Err_0 is EndOfStream,
                Decoded::Malformed => r is Err && r->Err_0 is Other,
            },
    {
        let ghost fm = frame@;
        let mut parse = match CommandParser::new(frame) {
            Ok(p) => p,
            Err(e) => {
                return Err(e);
            },
        };
        let ghost vs = parse.remaining();
        let name_raw = match parse.next_string() {
            Ok(n) => n,
            Err(e) => {
                return Err(e);
            },
        };
        let command_name = to_lower(&name_raw);
        let ghost rest = vs.skip(1);
        // The recognized command names, as lower-case bytes: get, publish,
        // set, subscribe, unsubscribe, ping, config.
        let g: Vec<u8> = vec![103u8, 101u8, 116u8];
        let pb: Vec<u8> = vec![112u8, 117u8, 98u8, 108u8, 105u8, 115u8, 104u8];
        let st: Vec<u8> = vec![115u8, 101u8, 116u8];
        let sb: Vec<u8> = vec![115u8, 117u8, 98u8, 115u8, 99u8, 114u8, 105u8, 98u8, 101u8];
        let ub: Vec<u8> = vec![
            117u8,
            110u8,
            115u8,
            117u8,
            98u8,
            115u8,
            99u8,
            114u8,
            105u8,
            98u8,
            101u8,
        ];
        let pg: Vec<u8> = vec![112u8, 105u8, 110u8, 103u8];
        let cf: Vec<u8> = vec![99u8, 111u8, 110u8, 102u8, 105u8, 103u8];
        proof {
            assert(g@ =~= name_get());
            assert(pb@ =~= name_publish());
            assert(st@ =~= name_set());
            assert(sb@ =~= name_subscribe());
            assert(ub@ =~= name_unsubscribe());
            assert(pg@ =~= name_ping());
            assert(cf@ =~= name_config());
        }
        let command = if command_name == g {
            proof {
                assert(fm is Array);
                assert(vs == fm->Array_0);
                assert(vs.len() > 0);
                assert(as_string(vs[0]) == Some(name_raw@));
                assert(command_name@ == lower_bytes(name_raw@));
                assert(command_name@ == g@);
                assert(command_name@ == name_get());
                assert(rest == vs.skip(1));
                assert(spec_from_frame(fm) == decode_get(rest));
            }
            match Get::parse_frames(&mut parse) {
                Ok(c) => Command::Get(c),
                Err(e) => {
                    return Err(e);
                },
            }
        } else if command_name == pb {
            proof {
                assert(fm is Array);
                assert(vs == fm->Array_0);
                assert(vs.len() > 0);
                assert(as_string(vs[0]) == Some(name_raw@));
                assert(command_name@ == lower_bytes(name_raw@));
                assert(rest == vs.skip(1));
                assert(command_name@ != g@);
                assert(command_name@ == pb@);
                assert(spec_from_frame(fm) == decode_publish(rest));
            }
            match Publish::parse_frames(&mut parse) {
                Ok(c) => Command::Publish(c),
                Err(e) => {
                    return Err(e);
                },
            }
        } else if command_name == st {
            proof {
                assert(fm is Array);
                assert(vs == fm->Array_0);
                assert(vs.len() > 0);
                assert(as_string(vs[0]) == Some(name_raw@));
                assert(command_name@ == lower_bytes(name_raw@));
                assert(rest == vs.skip(1));
                assert(command_name@ != g@);
                assert(command_name@ != pb@);
                assert(command_name@ == st@);
                assert(spec_from_frame(fm) == decode_set(rest));
            }
            match SetCommand::parse_frames(&mut parse) {
                Ok(c) => Command::SetCmd(c),
                Err(e) => {
                    return Err(e);
                },
            }
        } else if command_name == sb {
            proof {
                assert(fm is Array);
                assert(vs == fm->Array_0);
                assert(vs.len() > 0);
                assert(as_string(vs[0]) == Some(name_raw@));
                assert(command_name@ == lower_bytes(name_raw@));
                assert(rest == vs.skip(1));
                assert(command_name@ != g@);
                assert(command_name@ != pb@);
                assert(command_name@ != st@);
                assert(command_name@ == sb@);
                assert(spec_from_frame(fm) == decode_subscribe(rest));
            }
            match Subscribe::parse_frames(&mut parse) {
                Ok(c) => Command::Subscribe(c),
                Err(e) => {
                    return Err(e);
                },
            }
        } else if command_name == ub {
            proof {
                assert(fm is Array);
                assert(vs == fm->Array_0);
                assert(vs.len() > 0);
                assert(as_string(vs[0]) == Some(name_raw@));
                assert(command_name@ == lower_bytes(name_raw@));
                assert(rest == vs.skip(1));
                assert(command_name@ != g@);
                assert(command_name@ != pb@);
                assert(command_name@ != st@);
                assert(command_name@ != sb@);
                assert(command_name@ == ub@);
                assert(spec_from_frame(fm) == decode_unsubscribe(rest));
            }
            match Unsubscribe::parse_frames(&mut parse) {
                Ok(c) => Command::Unsubscribe(c),
                Err(e) => {
                    return Err(e);
                },
            }
        } else if command_name == pg {
            proof {
                assert(fm is Array);
                assert(vs == fm->Array_0);
                assert(vs.len() > 0);
                assert(as_string(vs[0]) == Some(name_raw@));
                assert(command_name@ == lower_bytes(name_raw@));
                assert(rest == vs.skip(1));
                assert(command_name@ != g@);
                assert(command_name@ != pb@);
                assert(command_name@ != st@);
                assert(command_name@ != sb@);
                assert(command_name@ != ub@);
                assert(command_name@ == pg@);
                assert(spec_from_frame(fm) == decode_ping(rest));
            }
            match Ping::parse_frames(&mut parse) {
                Ok(c) => Command::Ping(c),
                Err(e) => {
                    return Err(e);
                },
            }
        } else if command_name == cf {
            proof {
                assert(fm is Array);
                assert(vs == fm->Array_0);
                assert(vs.len() > 0);
                assert(as_string(vs[0]) == Some(name_raw@));
                assert(command_name@ == lower_bytes(name_raw@));
                assert(rest == vs.skip(1));
                assert(command_name@ != g@);
                assert(command_name@ != pb@);
                assert(command_name@ != st@);
                assert(command_name@ != sb@);
                assert(command_name@ != ub@);
                assert(command_name@ != pg@);
                assert(command_name@ == cf@);
                assert(spec_from_frame(fm) == decode_config(rest));
            }
            match Config::parse_frames(&mut parse) {
                Ok(c) => Command::Config(c),
                Err(e) => {
                    return Err(e);
                },
            }
        } else {
            proof {
                assert(fm is Array);
                assert(vs == fm->Array_0);
                assert(vs.len() > 0);
                assert(as_string(vs[0]) == Some(name_raw@));
                assert(command_name@ == lower_bytes(name_raw@));
                assert(rest == vs.skip(1));
                assert(command_name@ != g@);
                assert(command_name@ != pb@);
                assert(command_name@ != st@);
                assert(command_name@ != sb@);
                assert(command_name@ != ub@);
                assert(command_name@ != pg@);
                assert(command_name@ != cf@);
                assert(spec_from_frame(fm) == Decoded::Cmd(
                    CommandModel::Unknown { name: command_name@ },
                ));
            }
            return Ok(Command::Unknown(Unknown::new(command_name)));
        };
        match parse.finish() {
            Ok(()) => Ok(command),
            Err(e) => Err(e),
        }
    }
}

} // verus!

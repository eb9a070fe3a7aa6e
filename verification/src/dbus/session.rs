//! One side of a connection to the bus, without the socket.
//!
//! A [`Session`] makes the bytes of calls, takes the bytes that arrive, cuts them
//! into messages, finds the answers to calls, and keeps the signals that arrive
//! in between.

use crate::dbus::message::{parsed, Message, MessageType, MessageView};
use crate::dbus::transit::{
    deliverable, law_incomplete_waits, law_sent_is_received, received, within_limits,
};
use crate::dbus::value::{
    entry_models, models, text_of, unwrapped, Value, ValueView,
};
use crate::error::{protocol, Error, ErrorView};
use crate::text::{
    chars_of, decimal, decimal_of, has_prefix, is_digit, lemma_decimal_digits, lossy_text,
    starts_with, text_from_utf8_lossy, trim, trimmed,
};
use std::collections::VecDeque;
use vstd::prelude::*;
use vstd::string::*;
use vstd::utf8::*;

verus! {

/// The state of a connection.
pub struct Session {
    serial: u32,
    rbuf: Vec<u8>,
    signals: VecDeque<Message>,
}

/// The mathematical values of a list of messages.
pub open spec fn message_models(v: Seq<Message>) -> Seq<MessageView> {
    Seq::new(v.len(), |i: int| v[i]@)
}

/// Every message of a list is a signal.
pub open spec fn only_signals(queue: Seq<MessageView>) -> bool {
    forall|i: int| 0 <= i < queue.len() ==> (#[trigger] queue[i]).typ == MessageType::Signal
}

impl Session {
    /// Only signals are put aside.
    pub open spec fn valid(&self) -> bool {
        only_signals(self.queue())
    }

    /// The serial of the last message sent.
    pub closed spec fn last_serial(&self) -> u32 {
        self.serial
    }

    /// The bytes that have arrived and make up no message yet.
    pub closed spec fn pending(&self) -> Seq<u8> {
        self.rbuf@
    }

    /// The signals put aside, the oldest first.
    pub closed spec fn queue(&self) -> Seq<MessageView> {
        message_models(self.signals@)
    }

    /// A connection on which nothing has been sent and nothing has arrived.
    pub fn new() -> (r: Self)
        ensures
            r.last_serial() == 0,
            r.pending() == Seq::<u8>::empty(),
            r.queue() == Seq::<MessageView>::empty(),
            r.valid(),
    {
        let r = Session {
            serial: 0,
            rbuf: Vec::new(),
            signals: VecDeque::new(),
        };
        assert(r.pending() =~= Seq::<u8>::empty());
        assert(r.queue() =~= Seq::<MessageView>::empty());
        r
    }

    /// The serial of the last message sent, or 0.
    pub fn serial(&self) -> (r: u32)
        ensures
            r == self.last_serial(),
    {
        self.serial
    }

    /// Gives a message the next serial and makes its bytes.
    pub fn send(&mut self, msg: &Message) -> (r: Result<Vec<u8>, Error>)
        requires
            old(self).last_serial() < u32::MAX,
            msg@.fits(),
        ensures
            final(self).last_serial() == old(self).last_serial() + 1,
            final(self).pending() == old(self).pending(),
            final(self).queue() == old(self).queue(),
            r matches Ok(b) && b@ == msg@.bytes(final(self).last_serial()),
    {
        self.serial = self.serial + 1;
        msg.to_bytes(self.serial)
    }

    /// Takes bytes that have arrived.
    pub fn feed(&mut self, chunk: &[u8])
        ensures
            final(self).pending() == old(self).pending() + chunk@,
            final(self).last_serial() == old(self).last_serial(),
            final(self).queue() == old(self).queue(),
    {
        self.rbuf.extend_from_slice(chunk);
        assert(self.pending() =~= old(self).pending() + chunk@);
    }

    /// Takes the next message off the bytes that have arrived, if it is whole.
    pub fn try_parse(&mut self) -> (r: Result<Option<Message>, Error>)
        ensures
            final(self).last_serial() == old(self).last_serial(),
            final(self).queue() == old(self).queue(),
            match parsed(old(self).pending()) {
                Err(e) => {
                    &&& r matches Err(f) && f@ == e
                    &&& final(self).pending() == old(self).pending()
                },
                Ok(None) => r matches Ok(None) && final(self).pending() == old(self).pending(),
                Ok(Some(p)) => {
                    &&& r matches Ok(Some(m)) && m@ == p.0
                    &&& 16 <= p.1 <= old(self).pending().len()
                    &&& final(self).pending() == old(self).pending().skip(p.1 as int)
                },
            },
    {
        match Message::parse(self.rbuf.as_slice())? {
            Some((msg, used)) => {
                let rest = self.rbuf.split_off(used);
                self.rbuf = rest;
                assert(self.pending() =~= old(self).pending().skip(used as int));
                Ok(Some(msg))
            },
            None => Ok(None),
        }
    }

    /// Looks for the answer to the call with the given serial among the messages that
    /// have arrived. Signals on the way are put aside, other messages are dropped.
    pub fn take_reply(&mut self, serial: u32) -> (r: Result<Option<Vec<Value>>, Error>)
        ensures
            final(self).last_serial() == old(self).last_serial(),
            ({
                let h = reply_in(old(self).pending(), old(self).queue(), serial);
                &&& final(self).pending() == h.pending
                &&& final(self).queue() == h.queue
                &&& match h.out {
                    Err(e) => r matches Err(f) && f@ == e,
                    Ok(None) => r matches Ok(None),
                    Ok(Some(body)) => r matches Ok(Some(v)) && models(v@) == body,
                }
            }),
            old(self).valid() ==> final(self).valid(),
    {
        proof {
            law_only_signals(self.pending(), self.queue(), serial);
        }
        loop
            invariant
                self.last_serial() == old(self).last_serial(),
                old(self).valid() ==> only_signals(
                    reply_in(old(self).pending(), old(self).queue(), serial).queue,
                ),
                reply_in(old(self).pending(), old(self).queue(), serial) == reply_in(
                    self.pending(),
                    self.queue(),
                    serial,
                ),
            decreases self.pending().len(),
        {
            match self.try_parse()? {
                None => {
                    return Ok(None);
                },
                Some(m) => {
                    if m.typ == MessageType::Signal {
                        self.put_aside(m);
                    } else if m.reply_serial == Some(serial) {
                        return match answer_of(m) {
                            Ok(body) => Ok(Some(body)),
                            Err(e) => Err(e),
                        };
                    }
                },
            }
        }
    }

    /// Looks for a signal among the messages that have arrived. Other messages on the
    /// way are dropped.
    pub fn take_signal(&mut self) -> (r: Result<Option<Message>, Error>)
        ensures
            final(self).last_serial() == old(self).last_serial(),
            ({
                let h = signal_in(old(self).pending(), old(self).queue());
                &&& final(self).pending() == h.pending
                &&& final(self).queue() == h.queue
                &&& match h.out {
                    Err(e) => r matches Err(f) && f@ == e,
                    Ok(None) => r matches Ok(None),
                    Ok(Some(m)) => r matches Ok(Some(v)) && v@ == m,
                }
            }),
            r matches Ok(Some(m)) ==> m@.typ == MessageType::Signal,
            old(self).valid() ==> final(self).valid(),
    {
        proof {
            law_only_signals(self.pending(), self.queue(), 0);
        }
        loop
            invariant
                self.last_serial() == old(self).last_serial(),
                signal_in(old(self).pending(), old(self).queue()).queue == old(self).queue(),
                signal_in(old(self).pending(), old(self).queue()) == signal_in(
                    self.pending(),
                    self.queue(),
                ),
            decreases self.pending().len(),
        {
            match self.try_parse()? {
                None => {
                    return Ok(None);
                },
                Some(m) => {
                    if m.typ == MessageType::Signal {
                        return Ok(Some(m));
                    }
                },
            }
        }
    }

    /// Goes on with a call that waits for its answer: gives the answer if it has arrived,
    /// or tells how long bytes may still be waited for. Past the deadline it fails.
    pub fn step_call(
        &mut self,
        serial: u32,
        interface: &str,
        member: &str,
        now: u128,
        deadline: u128,
    ) -> (r: Result<CallStep, Error>)
        ensures
            final(self).last_serial() == old(self).last_serial(),
            ({
                let h = reply_in(old(self).pending(), old(self).queue(), serial);
                &&& final(self).pending() == h.pending
                &&& final(self).queue() == h.queue
                &&& match h.out {
                    Err(e) => r matches Err(f) && f@ == e,
                    Ok(Some(body)) => r matches Ok(CallStep::Answer(v)) && models(v@) == body,
                    Ok(None) => if now >= deadline {
                        r matches Err(f) && f@ == late(interface@, member@)
                    } else {
                        r matches Ok(CallStep::Read(t)) && t == deadline - now
                    },
                }
            }),
            old(self).valid() ==> final(self).valid(),
    {
        match self.take_reply(serial)? {
            Some(body) => Ok(CallStep::Answer(body)),
            None => {
                if now >= deadline {
                    Err(call_timed_out(interface, member))
                } else {
                    Ok(CallStep::Read(deadline - now))
                }
            },
        }
    }

    /// Goes on with the wait for a signal: gives the oldest that was put aside, or else one
    /// that has arrived, or tells how long bytes may still be waited for, if they may.
    pub fn step_signal(&mut self, now: u128, deadline: u128) -> (r: Result<SignalWait, Error>)
        ensures
            final(self).last_serial() == old(self).last_serial(),
            ({
                let h = next_signal_in(old(self).pending(), old(self).queue());
                &&& final(self).pending() == h.pending
                &&& final(self).queue() == h.queue
                &&& match h.out {
                    Err(e) => r matches Err(f) && f@ == e,
                    Ok(Some(m)) => r matches Ok(SignalWait::Got(v)) && v@ == m,
                    Ok(None) => if now >= deadline {
                        r matches Ok(SignalWait::Over)
                    } else {
                        r matches Ok(SignalWait::Read(t)) && t == deadline - now
                    },
                }
            }),
            old(self).valid() ==> final(self).valid(),
            old(self).valid() ==> (r matches Ok(SignalWait::Got(m)) ==> m@.typ
                == MessageType::Signal),
    {
        match self.pop_signal() {
            Some(m) => {
                return Ok(SignalWait::Got(m));
            },
            None => {},
        }
        match self.take_signal()? {
            Some(m) => Ok(SignalWait::Got(m)),
            None => {
                if now >= deadline {
                    Ok(SignalWait::Over)
                } else {
                    Ok(SignalWait::Read(deadline - now))
                }
            },
        }
    }

    /// Takes the oldest of the signals put aside.
    pub fn pop_signal(&mut self) -> (r: Option<Message>)
        ensures
            final(self).last_serial() == old(self).last_serial(),
            final(self).pending() == old(self).pending(),
            old(self).queue().len() == 0 ==> r is None && final(self).queue() == old(self).queue(),
            old(self).queue().len() > 0 ==> {
                &&& r matches Some(m) && m@ == old(self).queue()[0]
                &&& final(self).queue() == old(self).queue().drop_first()
            },
            old(self).valid() ==> final(self).valid(),
            old(self).valid() ==> (r matches Some(m) ==> m@.typ == MessageType::Signal),
    {
        let r = self.signals.pop_front();
        proof {
            if old(self).queue().len() > 0 {
                assert(self.queue() =~= old(self).queue().drop_first());
            }
        }
        r
    }

    fn put_aside(&mut self, m: Message)
        ensures
            final(self).last_serial() == old(self).last_serial(),
            final(self).pending() == old(self).pending(),
            final(self).queue() == old(self).queue().push(m@),
    {
        self.signals.push_back(m);
        assert(self.queue() =~= old(self).queue().push(m@));
    }
}

/// How a call that waits for its answer goes on.
#[derive(Debug)]
pub enum CallStep {
    /// The answer has arrived.
    Answer(Vec<Value>),
    /// Bytes are to be read, and waited for at most this long.
    Read(u128),
}

/// How the wait for a signal goes on.
#[derive(Debug)]
pub enum SignalWait {
    /// A signal has arrived.
    Got(Message),
    /// The time is over.
    Over,
    /// Bytes are to be read, and waited for at most this long.
    Read(u128),
}

/// A call was not answered in time.
pub open spec fn late(interface: Seq<char>, member: Seq<char>) -> ErrorView {
    ErrorView::Timeout(interface + "."@ + member + " 调用超时"@)
}

/// What comes of looking through the messages that have arrived: what was found,
/// the bytes left, and the messages put aside.
pub struct Heard<T> {
    pub out: Result<Option<T>, ErrorView>,
    pub pending: Seq<u8>,
    pub queue: Seq<MessageView>,
}

/// What an answer says: the values returned, or an error.
pub open spec fn answer(m: MessageView) -> Result<Seq<ValueView>, ErrorView> {
    match m.typ {
        MessageType::MethodReturn => Ok(m.body),
        MessageType::Error => Err(
            ErrorView::Dbus {
                name: match m.error_name {
                    Some(s) => s,
                    None => seq![],
                },
                message: if m.body.len() > 0 && text_of(m.body[0]) is Some {
                    text_of(m.body[0])->0
                } else {
                    seq![]
                },
            },
        ),
        _ => Err(ErrorView::Protocol("应答类型异常"@)),
    }
}

/// Looking for the answer to the call with the given serial.
pub open spec fn reply_in(pending: Seq<u8>, queue: Seq<MessageView>, serial: u32) -> Heard<
    Seq<ValueView>,
>
    decreases pending.len(),
{
    match parsed(pending) {
        Err(e) => Heard { out: Err(e), pending, queue },
        Ok(None) => Heard { out: Ok(None), pending, queue },
        Ok(Some((m, used))) => {
            let rest = pending.skip(used as int);
            if m.typ == MessageType::Signal {
                reply_in(rest, queue.push(m), serial)
            } else if m.reply_serial == Some(serial) {
                Heard {
                    out: match answer(m) {
                        Ok(body) => Ok(Some(body)),
                        Err(e) => Err(e),
                    },
                    pending: rest,
                    queue,
                }
            } else {
                reply_in(rest, queue, serial)
            }
        },
    }
}

/// Looking for a signal among what has arrived.
pub open spec fn signal_in(pending: Seq<u8>, queue: Seq<MessageView>) -> Heard<MessageView>
    decreases pending.len(),
{
    match parsed(pending) {
        Err(e) => Heard { out: Err(e), pending, queue },
        Ok(None) => Heard { out: Ok(None), pending, queue },
        Ok(Some((m, used))) => {
            let rest = pending.skip(used as int);
            if m.typ == MessageType::Signal {
                Heard { out: Ok(Some(m)), pending: rest, queue }
            } else {
                signal_in(rest, queue)
            }
        },
    }
}

/// The next signal: the oldest that was put aside, or else one that has arrived.
pub open spec fn next_signal_in(pending: Seq<u8>, queue: Seq<MessageView>) -> Heard<MessageView> {
    if queue.len() > 0 {
        Heard { out: Ok(Some(queue[0])), pending, queue: queue.drop_first() }
    } else {
        signal_in(pending, queue)
    }
}

/// Whatever arrives, only signals are put aside and only signals are given out as such.
pub proof fn law_only_signals(pending: Seq<u8>, queue: Seq<MessageView>, call: u32)
    ensures
        only_signals(queue) ==> only_signals(reply_in(pending, queue, call).queue),
        signal_in(pending, queue).queue == queue,
        signal_in(pending, queue).out matches Ok(Some(m)) ==> m.typ == MessageType::Signal,
        only_signals(queue) ==> (next_signal_in(pending, queue).out matches Ok(Some(m)) ==> m.typ
            == MessageType::Signal),
    decreases pending.len(),
{
    match parsed(pending) {
        Ok(Some((m, used))) => {
            let rest = pending.skip(used as int);
            if rest.len() < pending.len() {
                law_only_signals(rest, queue, call);
                law_only_signals(rest, queue.push(m), call);
            }
        },
        _ => {},
    }
}

/// What an answer says.
fn answer_of(m: Message) -> (r: Result<Vec<Value>, Error>)
    ensures
        match r {
            Ok(v) => answer(m@) == Ok::<Seq<ValueView>, ErrorView>(models(v@)),
            Err(e) => answer(m@) == Err::<Seq<ValueView>, ErrorView>(e@),
        },
{
    match m.typ {
        MessageType::MethodReturn => Ok(m.body),
        MessageType::Error => {
            let name = match &m.error_name {
                Some(s) => s.clone(),
                None => String::new(),
            };
            let message = if m.body.len() > 0 {
                assert(models(m.body@)[0] == m.body@[0]@);
                match m.body[0].as_str() {
                    Some(s) => s.to_string(),
                    None => String::new(),
                }
            } else {
                String::new()
            };
            Err(Error::Dbus { name, message })
        },
        _ => Err(protocol("应答类型异常")),
    }
}

/// The answer to a call is found as soon as its last byte has arrived, and what
/// follows it stays.
pub proof fn law_answer_found(
    m: MessageView,
    serial: u32,
    rest: Seq<u8>,
    queue: Seq<MessageView>,
    call: u32,
)
    requires
        deliverable(m),
        (m.bytes(serial) + rest).len() <= usize::MAX,
        m.typ != MessageType::Signal,
        m.reply_serial == Some(call),
    ensures
        reply_in(m.bytes(serial) + rest, queue, call) == (Heard {
            out: match answer(received(m, serial)) {
                Ok(body) => Ok::<Option<Seq<ValueView>>, ErrorView>(Some(body)),
                Err(e) => Err(e),
            },
            pending: rest,
            queue,
        }),
{
    law_sent_is_received(m, serial, rest);
    assert((m.bytes(serial) + rest).skip(m.bytes(serial).len() as int) =~= rest);
}

/// A signal that arrives before an answer is put aside, and the search goes on
/// behind it.
pub proof fn law_signal_kept(
    m: MessageView,
    serial: u32,
    rest: Seq<u8>,
    queue: Seq<MessageView>,
    call: u32,
)
    requires
        deliverable(m),
        (m.bytes(serial) + rest).len() <= usize::MAX,
        m.typ == MessageType::Signal,
    ensures
        reply_in(m.bytes(serial) + rest, queue, call) == reply_in(
            rest,
            queue.push(received(m, serial)),
            call,
        ),
{
    law_sent_is_received(m, serial, rest);
    assert((m.bytes(serial) + rest).skip(m.bytes(serial).len() as int) =~= rest);
}

/// Part of a message is kept until the rest of it arrives.
pub proof fn law_part_is_kept(
    m: MessageView,
    serial: u32,
    k: nat,
    queue: Seq<MessageView>,
    call: u32,
)
    requires
        within_limits(m),
        m.bytes(serial).len() <= usize::MAX,
        k < m.bytes(serial).len(),
    ensures
        ({
            let b = m.bytes(serial).take(k as int);
            &&& reply_in(b, queue, call) == (Heard {
                out: Ok::<Option<Seq<ValueView>>, ErrorView>(None),
                pending: b,
                queue,
            })
            &&& signal_in(b, queue) == (Heard {
                out: Ok::<Option<MessageView>, ErrorView>(None),
                pending: b,
                queue,
            })
        }),
{
    law_incomplete_waits(m, serial, k);
}

/// The name that the bus has given to the connection, out of its answer to `Hello`.
pub fn unique_name_in(body: &Vec<Value>) -> (r: Option<String>)
    ensures
        match r {
            Some(s) => body@.len() > 0 && body@[0]@ == ValueView::String(s@),
            None => body@.len() == 0 || !(body@[0]@ is String),
        },
{
    if body.len() == 0 {
        return None;
    }
    match &body[0] {
        Value::String(s) => Some(s.clone()),
        _ => None,
    }
}

/// The properties in the entries of a dictionary: those whose key is a text, with
/// their values taken out of the variants.
pub open spec fn properties(entries: Seq<(ValueView, ValueView)>) -> Seq<(Seq<char>, ValueView)>
    decreases entries.len(),
{
    if entries.len() == 0 {
        seq![]
    } else {
        let rest = properties(entries.drop_last());
        match text_of(entries.last().0) {
            Some(k) => rest.push((k, unwrapped(entries.last().1))),
            None => rest,
        }
    }
}

/// The mathematical values of a list of properties.
pub open spec fn property_models(v: Seq<(String, Value)>) -> Seq<(Seq<char>, ValueView)> {
    Seq::new(v.len(), |i: int| (v[i].0@, v[i].1@))
}

/// The properties of an object, out of the answer to `GetAll`.
pub fn properties_in(body: &Vec<Value>) -> (r: Option<Vec<(String, Value)>>)
    ensures
        match r {
            Some(v) => body@.len() > 0 && body@[0]@ is Dict && property_models(v@) == properties(
                body@[0]@->Dict_2,
            ),
            None => body@.len() == 0 || !(body@[0]@ is Dict),
        },
{
    if body.len() == 0 {
        return None;
    }
    match body[0].as_dict() {
        None => None,
        Some(entries) => {
            let ghost all = entry_models(entries@);
            let mut out: Vec<(String, Value)> = Vec::new();
            let mut i: usize = 0;
            assert(property_models(out@) =~= properties(all.take(0)));
            while i < entries.len()
                invariant
                    i <= entries@.len(),
                    all == entry_models(entries@),
                    property_models(out@) == properties(all.take(i as int)),
                decreases entries@.len() - i,
            {
                proof {
                    let next = all.take(i + 1);
                    assert(next.drop_last() =~= all.take(i as int));
                    assert(next.last() == (entries@[i as int].0@, entries@[i as int].1@));
                }
                let ghost before = out@;
                match entries[i].0.as_str() {
                    Some(k) => {
                        let v = entries[i].1.unwrap_variant().clone();
                        out.push((k.to_string(), v));
                        assert(property_models(out@) =~= property_models(before).push((k@, v@)));
                    },
                    None => {},
                }
                i += 1;
            }
            assert(all.take(i as int) =~= all);
            Some(out)
        },
    }
}

/// A call was not answered in time.
pub fn call_timed_out(interface: &str, member: &str) -> (r: Error)
    ensures
        r@ == late(interface@, member@),
{
    Error::Timeout(interface.to_string().concat(".").concat(member).concat(" 调用超时"))
}

/// Nothing arrived while an answer was waited for.
pub fn nothing_arrived(interface: &str, member: &str) -> (r: Error)
    ensures
        r@ == ErrorView::Timeout(interface@ + "."@ + member@ + " 等待应答时无数据"@),
{
    Error::Timeout(interface.to_string().concat(".").concat(member).concat(" 等待应答时无数据"))
}

/// How far the authentication has come: which line is sent next.
#[derive(Debug, Clone, Copy, PartialEq, Eq, Structural)]
pub enum Handshake {
    /// Authenticate by the user id.
    External,
    /// Authenticate without a name.
    Anonymous,
    /// The bus has accepted; begin.
    Begin,
}

/// A hexadecimal digit, in lower case.
pub open spec fn hex_char(d: nat) -> char {
    if d < 10 {
        (48 + d) as char
    } else {
        (87 + d) as char
    }
}

/// Each of the characters, which are ASCII, as two hexadecimal digits.
pub open spec fn hex_text(s: Seq<char>) -> Seq<char>
    decreases s.len(),
{
    if s.len() == 0 {
        seq![]
    } else {
        hex_text(s.drop_last()).push(hex_char(s.last() as nat / 16)).push(
            hex_char(s.last() as nat % 16),
        )
    }
}

impl Handshake {
    /// The line that is sent.
    pub open spec fn sent(self, uid: u32) -> Seq<char> {
        match self {
            Handshake::External => "\0AUTH EXTERNAL "@ + hex_text(decimal(uid as nat)) + "\r\n"@,
            Handshake::Anonymous => "AUTH ANONYMOUS\r\n"@,
            Handshake::Begin => "BEGIN\r\n"@,
        }
    }

    /// The line that is sent. The first one has a zero byte before it.
    pub fn line(self, uid: u32) -> (r: String)
        ensures
            r@ == self.sent(uid),
    {
        match self {
            Handshake::External => "\0AUTH EXTERNAL ".to_string().concat(&hex_uid(uid)).concat(
                "\r\n",
            ),
            Handshake::Anonymous => "AUTH ANONYMOUS\r\n".to_string(),
            Handshake::Begin => "BEGIN\r\n".to_string(),
        }
    }

    /// What follows the reply of the bus: where it does not accept the user id, the
    /// anonymous method is tried; where it does not accept that, it has refused.
    pub fn next(self, reply: &str) -> (r: Result<Handshake, Error>)
        ensures
            match r {
                Ok(h) => {
                    ||| has_prefix(reply@, "OK"@) && h == Handshake::Begin
                    ||| !has_prefix(reply@, "OK"@) && self == Handshake::External && h
                        == Handshake::Anonymous
                },
                Err(e) => !has_prefix(reply@, "OK"@) && self != Handshake::External && e@
                    == ErrorView::Auth("服务端拒绝认证: "@ + reply@),
            },
    {
        if starts_with(reply, "OK") {
            Ok(Handshake::Begin)
        } else if self == Handshake::External {
            Ok(Handshake::Anonymous)
        } else {
            Err(Error::Auth("服务端拒绝认证: ".to_string().concat(reply)))
        }
    }
}

/// The user id in decimal, each digit as two hexadecimal digits.
pub fn hex_uid(uid: u32) -> (r: String)
    ensures
        r@ == hex_text(decimal(uid as nat)),
{
    let cs = chars_of(&decimal_of(uid as u64));
    proof {
        lemma_decimal_digits(uid as nat);
    }
    let mut out = String::new();
    let mut i: usize = 0;
    while i < cs.len()
        invariant
            i <= cs@.len(),
            forall|k: int| 0 <= k < cs@.len() ==> is_digit(#[trigger] cs@[k]),
            out@ == hex_text(cs@.take(i as int)),
        decreases cs@.len() - i,
    {
        assert(cs@.take(i + 1).drop_last() =~= cs@.take(i as int));
        let n: u8 = cs[i] as u8;
        out.push(if n / 16 < 10 { (48 + n / 16) as char } else { (87 + n / 16) as char });
        out.push(if n % 16 < 10 { (48 + n % 16) as char } else { (87 + n % 16) as char });
        i += 1;
    }
    assert(cs@.take(i as int) =~= cs@);
    out
}

/// A line that the bus has sent, without its end.
pub fn reply_line(bytes: &[u8]) -> (r: String)
    ensures
        r@ == trimmed(lossy_text(bytes@)),
        valid_utf8(bytes@) ==> r@ == trimmed(decode_utf8(bytes@)),
{
    let s = text_from_utf8_lossy(bytes);
    trim(&s).to_string()
}

} // verus!

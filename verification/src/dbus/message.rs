//! Messages: their header, their fields and their body.
//!
//! ```text
//! BYTE    byte order, 'l' or 'B'
//! BYTE    type: 1 call, 2 return, 3 error, 4 signal
//! BYTE    flags
//! BYTE    protocol version, always 1
//! UINT32  length of the body
//! UINT32  serial
//! UINT32  length of the header fields
//! (yv)..  header fields
//!         padding to a multiple of 8
//! ..      body
//! ```

use crate::dbus::marshal::{
    check_all_signatures, encodings, le_bytes, lemma_number_bytes_len, pad, padding,
    signatures_fit, Endian, Writer,
};
use crate::dbus::signature::{fields_len, scan, type_len};
use crate::dbus::unmarshal::{
    fields_step, number_value, plain_step, read_step, struct_step, value_step, Reader,
};
use crate::dbus::value::{
    lemma_model_containers, models, push_signatures, sig_of, sigs_of, text_of, u32_of, unwrapped, Value, ValueView,
};
use crate::error::{protocol, Error, ErrorView};
use crate::text::{
    char_debug, chars_of, debug_of_char, decimal, decimal_of, left, opt_text,
};
use vstd::prelude::*;
use vstd::slice::slice_subrange;
use vstd::string::*;
use vstd::utf8::*;

verus! {

pub const METHOD_CALL: u8 = 1;

pub const METHOD_RETURN: u8 = 2;

pub const ERROR: u8 = 3;

pub const SIGNAL: u8 = 4;

pub const FIELD_PATH: u8 = 1;

pub const FIELD_INTERFACE: u8 = 2;

pub const FIELD_MEMBER: u8 = 3;

pub const FIELD_ERROR_NAME: u8 = 4;

pub const FIELD_REPLY_SERIAL: u8 = 5;

pub const FIELD_DESTINATION: u8 = 6;

pub const FIELD_SENDER: u8 = 7;

pub const FIELD_SIGNATURE: u8 = 8;

pub const FIELD_UNIX_FDS: u8 = 9;

/// The longest header that is accepted, in bytes.
pub const MAX_HEADER: u32 = 1048576;

/// The longest body that is accepted, in bytes.
pub const MAX_BODY: u32 = 67108864;

/// The four kinds of message.
#[derive(Debug, Clone, Copy, PartialEq, Eq, Structural)]
pub enum MessageType {
    MethodCall,
    MethodReturn,
    Error,
    Signal,
}

impl Default for MessageType {
    fn default() -> (r: Self)
        ensures
            r == MessageType::MethodCall,
    {
        MessageType::MethodCall
    }
}

impl MessageType {
    /// The number of the type on the wire.
    pub open spec fn code(self) -> u8 {
        match self {
            MessageType::MethodCall => METHOD_CALL,
            MessageType::MethodReturn => METHOD_RETURN,
            MessageType::Error => ERROR,
            MessageType::Signal => SIGNAL,
        }
    }

    /// The number of the type on the wire.
    pub fn to_u8(self) -> (r: u8)
        ensures
            r == self.code(),
    {
        match self {
            MessageType::MethodCall => METHOD_CALL,
            MessageType::MethodReturn => METHOD_RETURN,
            MessageType::Error => ERROR,
            MessageType::Signal => SIGNAL,
        }
    }

    /// The type with the given number.
    pub fn from_u8(v: u8) -> (r: Option<Self>)
        ensures
            r == type_with(v),
    {
        if v == METHOD_CALL {
            Some(MessageType::MethodCall)
        } else if v == METHOD_RETURN {
            Some(MessageType::MethodReturn)
        } else if v == ERROR {
            Some(MessageType::Error)
        } else if v == SIGNAL {
            Some(MessageType::Signal)
        } else {
            None
        }
    }
}

/// A message.
#[derive(Debug, Clone)]
pub struct Message {
    pub typ: MessageType,
    pub serial: u32,
    /// The serial of the call that a return or an error answers.
    pub reply_serial: Option<u32>,
    pub path: Option<String>,
    pub interface: Option<String>,
    pub member: Option<String>,
    pub destination: Option<String>,
    pub sender: Option<String>,
    pub error_name: Option<String>,
    pub signature: Option<String>,
    pub body: Vec<Value>,
}

/// A [`Message`] as a mathematical value.
pub struct MessageView {
    pub typ: MessageType,
    pub serial: u32,
    pub reply_serial: Option<u32>,
    pub path: Option<Seq<char>>,
    pub interface: Option<Seq<char>>,
    pub member: Option<Seq<char>>,
    pub destination: Option<Seq<char>>,
    pub sender: Option<Seq<char>>,
    pub error_name: Option<Seq<char>>,
    pub signature: Option<Seq<char>>,
    pub body: Seq<ValueView>,
}

impl View for Message {
    type V = MessageView;

    open spec fn view(&self) -> MessageView {
        MessageView {
            typ: self.typ,
            serial: self.serial,
            reply_serial: self.reply_serial,
            path: opt_text(self.path),
            interface: opt_text(self.interface),
            member: opt_text(self.member),
            destination: opt_text(self.destination),
            sender: opt_text(self.sender),
            error_name: opt_text(self.error_name),
            signature: opt_text(self.signature),
            body: models(self.body@),
        }
    }
}

impl MessageView {
    /// A message with no fields and no body.
    pub open spec fn bare(typ: MessageType, serial: u32) -> MessageView {
        MessageView {
            typ,
            serial,
            reply_serial: None,
            path: None,
            interface: None,
            member: None,
            destination: None,
            sender: None,
            error_name: None,
            signature: None,
            body: seq![],
        }
    }

    /// The signature that is sent: the one given, or else that of the body.
    pub open spec fn sent_signature(self) -> Seq<char> {
        match self.signature {
            Some(s) => s,
            None => sigs_of(self.body),
        }
    }

    /// The header fields that are sent, in the order of their numbers.
    pub open spec fn fields(self) -> Seq<ValueView> {
        path_field(self.path) + text_field(FIELD_INTERFACE, self.interface) + text_field(
            FIELD_MEMBER,
            self.member,
        ) + text_field(FIELD_ERROR_NAME, self.error_name) + reply_field(self.reply_serial)
            + text_field(FIELD_DESTINATION, self.destination) + text_field(
            FIELD_SENDER,
            self.sender,
        ) + signature_field(self.sent_signature())
    }

    /// The bytes of the header fields.
    pub open spec fn field_bytes(self) -> Seq<u8> {
        encodings(self.fields(), true, 0)
    }

    /// The bytes of the body.
    pub open spec fn body_bytes(self) -> Seq<u8> {
        encodings(self.body, true, 0)
    }

    /// The bytes of the message, sent with the given serial.
    pub open spec fn bytes(self, serial: u32) -> Seq<u8> {
        fixed_header(
            self.typ,
            self.body_bytes().len() as u32,
            serial,
            self.field_bytes().len() as u32,
        ) + self.field_bytes() + padding(16 + self.field_bytes().len(), 8) + self.body_bytes()
    }

    /// Every signature in the message is short enough for its length byte.
    pub open spec fn fits(self) -> bool {
        &&& encode_utf8(self.sent_signature()).len() <= 255
        &&& forall|i: int| 0 <= i < self.body.len() ==> signatures_fit(#[trigger] self.body[i])
    }
}

/// The first 16 bytes of a message.
pub open spec fn fixed_header(typ: MessageType, body: u32, serial: u32, fields: u32) -> Seq<u8> {
    seq![108u8, typ.code(), 0u8, 1u8] + le_bytes(body as nat, 4) + le_bytes(serial as nat, 4)
        + le_bytes(fields as nat, 4)
}

/// A header field: its number and its value, as a structure of the type `(yv)`.
pub open spec fn field_of(code: u8, v: ValueView) -> ValueView {
    ValueView::Struct(seq![ValueView::Byte(code), ValueView::Variant(Box::new(v))])
}

pub open spec fn path_field(t: Option<Seq<char>>) -> Seq<ValueView> {
    match t {
        Some(s) => seq![field_of(FIELD_PATH, ValueView::ObjectPath(s))],
        None => seq![],
    }
}

pub open spec fn text_field(code: u8, t: Option<Seq<char>>) -> Seq<ValueView> {
    match t {
        Some(s) => seq![field_of(code, ValueView::String(s))],
        None => seq![],
    }
}

pub open spec fn reply_field(t: Option<u32>) -> Seq<ValueView> {
    match t {
        Some(n) => seq![field_of(FIELD_REPLY_SERIAL, ValueView::Uint32(n))],
        None => seq![],
    }
}

pub open spec fn signature_field(s: Seq<char>) -> Seq<ValueView> {
    if s.len() > 0 {
        seq![field_of(FIELD_SIGNATURE, ValueView::Signature(s))]
    } else {
        seq![]
    }
}

/// The type with the given number.
pub open spec fn type_with(code: u8) -> Option<MessageType> {
    if code == METHOD_CALL {
        Some(MessageType::MethodCall)
    } else if code == METHOD_RETURN {
        Some(MessageType::MethodReturn)
    } else if code == ERROR {
        Some(MessageType::Error)
    } else if code == SIGNAL {
        Some(MessageType::Signal)
    } else {
        None
    }
}

/// The header fields, read up to the end of `h`.
pub open spec fn read_fields(h: Seq<u8>, le: bool, pos: nat) -> Result<Seq<ValueView>, ErrorView>
    decreases left(h.len(), pos),
{
    if pos >= h.len() {
        Ok(seq![])
    } else {
        let v = read_step(h, le, pos, "(yv)"@);
        match v.out {
            Err(e) => Err(e),
            Ok(x) => if v.used == 0 {
                Ok(seq![])
            } else {
                match read_fields(h, le, pos + v.used) {
                    Err(e) => Err(e),
                    Ok(rest) => Ok(seq![x] + rest),
                }
            },
        }
    }
}

/// The message with one header field set. Fields of another shape, and those
/// with a number that is not known, change nothing.
pub open spec fn with_field(m: MessageView, item: ValueView) -> MessageView {
    match item {
        ValueView::Struct(parts) => if parts.len() == 2 && parts[0] is Byte {
            let code = parts[0]->Byte_0;
            let val = unwrapped(parts[1]);
            if code == FIELD_PATH {
                MessageView { path: text_of(val), ..m }
            } else if code == FIELD_INTERFACE {
                MessageView { interface: text_of(val), ..m }
            } else if code == FIELD_MEMBER {
                MessageView { member: text_of(val), ..m }
            } else if code == FIELD_ERROR_NAME {
                MessageView { error_name: text_of(val), ..m }
            } else if code == FIELD_REPLY_SERIAL {
                MessageView { reply_serial: u32_of(val), ..m }
            } else if code == FIELD_DESTINATION {
                MessageView { destination: text_of(val), ..m }
            } else if code == FIELD_SENDER {
                MessageView { sender: text_of(val), ..m }
            } else if code == FIELD_SIGNATURE {
                MessageView { signature: text_of(val), ..m }
            } else {
                m
            }
        } else {
            m
        },
        _ => m,
    }
}

/// The message with header fields set, one after the other.
pub open spec fn with_fields(m: MessageView, items: Seq<ValueView>) -> MessageView
    decreases items.len(),
{
    if items.len() == 0 {
        m
    } else {
        with_fields(with_field(m, items[0]), items.drop_first())
    }
}

/// The values of a body, of the types from `sig[i]` on, read from position `pos` on.
pub open spec fn read_body(
    b: Seq<u8>,
    le: bool,
    pos: nat,
    sig: Seq<char>,
    i: nat,
) -> Result<Seq<ValueView>, ErrorView>
    decreases left(sig.len(), i),
{
    if i >= sig.len() {
        Ok(seq![])
    } else {
        match type_len(sig, i) {
            Err(e) => Err(e),
            Ok(n) => {
                let v = value_step(b, le, pos, sig, i);
                match v.out {
                    Err(e) => Err(e),
                    Ok(x) => if n == 0 {
                        Ok(seq![])
                    } else {
                        match read_body(b, le, pos + v.used, sig, i + n) {
                            Err(e) => Err(e),
                            Ok(rest) => Ok(seq![x] + rest),
                        }
                    },
                }
            },
        }
    }
}

/// The 32-bit number at `b[pos]`.
pub open spec fn number_at(b: Seq<u8>, le: bool, pos: int) -> nat {
    number_value(b.subrange(pos, pos + 4), le)
}

/// The message at the start of `b` and how many bytes it takes; nothing, where
/// more bytes are needed.
pub open spec fn parsed(b: Seq<u8>) -> Result<Option<(MessageView, nat)>, ErrorView> {
    if b.len() < 16 {
        Ok(None)
    } else if b[0] != 108 && b[0] != 66 {
        Err(ErrorView::Protocol("未知字节序标记 "@ + char_debug(b[0] as char)))
    } else if type_with(b[1]) is None {
        Err(ErrorView::Protocol("未知消息类型 "@ + decimal(b[1] as nat)))
    } else if b[3] != 1 {
        Err(ErrorView::Protocol("不支持的协议版本 "@ + decimal(b[3] as nat)))
    } else {
        let le = b[0] == 108;
        let body_len = number_at(b, le, 4);
        let serial = number_at(b, le, 8);
        let field_len = number_at(b, le, 12);
        if field_len > MAX_HEADER || body_len > MAX_BODY {
            Err(ErrorView::Protocol("报文长度异常"@))
        } else if b.len() < 16 + field_len {
            Ok(None)
        } else {
            match read_fields(b.subrange(16, (16 + field_len) as int), le, 0) {
                Err(e) => Err(e),
                Ok(items) => {
                    let m = with_fields(
                        MessageView::bare(type_with(b[1])->0, serial as u32),
                        items,
                    );
                    let start = 16 + field_len + pad(16 + field_len, 8);
                    let end = start + body_len;
                    if b.len() < end {
                        Ok(None)
                    } else {
                        let sig = match m.signature {
                            Some(s) => s,
                            None => seq![],
                        };
                        match read_body(b.subrange(start as int, end as int), le, 0, sig, 0) {
                            Err(e) => Err(e),
                            Ok(body) => Ok(Some((MessageView { body, ..m }, end))),
                        }
                    }
                },
            }
        }
    }
}

/// Appends a header field to those that are sent.
fn push_field(fields: &mut Vec<Value>, code: u8, v: Value)
    requires
        sig_of(v@).len() == 1,
        sig_of(v@)[0] as u32 <= 127,
        signatures_fit(v@),
        forall|i: int| 0 <= i < old(fields)@.len() ==> signatures_fit(models(old(fields)@)[i]),
    ensures
        models(final(fields)@) == models(old(fields)@) + seq![field_of(code, v@)],
        forall|i: int| 0 <= i < final(fields)@.len() ==> signatures_fit(models(final(fields)@)[i]),
{
    let mut parts: Vec<Value> = Vec::new();
    parts.push(Value::Byte(code));
    parts.push(Value::Variant(Box::new(v)));
    let f = Value::Struct(parts);
    proof {
        lemma_model_containers(f);
        assert(models(parts@) =~= seq![
            ValueView::Byte(code),
            ValueView::Variant(Box::new(v@)),
        ]);
        is_ascii_chars_encode_utf8(sig_of(v@));
        reveal_with_fuel(signatures_fit, 3);
        assert(signatures_fit(f@));
    }
    fields.push(f);
    assert(models(fields@) =~= models(old(fields)@) + seq![field_of(code, v@)]);
}

/// Appends the header field for a text, where there is one.
fn push_text_field(fields: &mut Vec<Value>, code: u8, t: &Option<String>)
    requires
        forall|i: int| 0 <= i < old(fields)@.len() ==> signatures_fit(models(old(fields)@)[i]),
    ensures
        models(final(fields)@) == models(old(fields)@) + text_field(code, opt_text(*t)),
        forall|i: int| 0 <= i < final(fields)@.len() ==> signatures_fit(models(final(fields)@)[i]),
{
    match t {
        Some(s) => push_field(fields, code, Value::String(s.clone())),
        None => {},
    }
    assert(models(fields@) =~= models(old(fields)@) + text_field(code, opt_text(*t)));
}

/// Appends bytes.
fn put(out: &mut Vec<u8>, b: &[u8])
    ensures
        final(out)@ == old(out)@ + b@,
{
    out.extend_from_slice(b);
    assert(out@ =~= old(out)@ + b@);
}

impl Message {
    /// A message with no fields and no body.
    pub fn bare(typ: MessageType, serial: u32) -> (r: Self)
        ensures
            r@ == MessageView::bare(typ, serial),
    {
        let r = Message {
            typ,
            serial,
            reply_serial: None,
            path: None,
            interface: None,
            member: None,
            destination: None,
            sender: None,
            error_name: None,
            signature: None,
            body: Vec::new(),
        };
        assert(models(r.body@) =~= seq![]);
        r
    }

    /// A method call.
    pub fn method_call(
        destination: &str,
        path: &str,
        interface: &str,
        member: &str,
        body: Vec<Value>,
    ) -> (r: Self)
        ensures
            r@ == (MessageView {
                destination: Some(destination@),
                path: Some(path@),
                interface: Some(interface@),
                member: Some(member@),
                body: models(body@),
                ..MessageView::bare(MessageType::MethodCall, 0)
            }),
    {
        let mut m = Message::bare(MessageType::MethodCall, 0);
        m.destination = Some(destination.to_string());
        m.path = Some(path.to_string());
        m.interface = Some(interface.to_string());
        m.member = Some(member.to_string());
        m.body = body;
        m
    }

    /// The signature of the body.
    pub fn body_signature(&self) -> (r: String)
        ensures
            r@ == sigs_of(self@.body),
    {
        let mut out = String::new();
        push_signatures(&mut out, &self.body);
        assert(out@ =~= sigs_of(self@.body));
        out
    }

    /// Whether every signature in the message is short enough for its length byte.
    pub fn is_sendable(&self) -> (r: bool)
        ensures
            r == self@.fits(),
    {
        let sig = match &self.signature {
            Some(s) => s.clone(),
            None => self.body_signature(),
        };
        assert(sig@ == self@.sent_signature());
        assert(self@.body.len() == self.body@.len());
        let body_fits = check_all_signatures(&self.body);
        proof {
            let all = models(self.body@);
            if self@.fits() {
                assert forall|i: int| 0 <= i < self.body@.len() implies signatures_fit(
                    #[trigger] all[i],
                ) by {
                    assert(signatures_fit(self@.body[i]));
                }
            }
        }
        sig.as_str().as_bytes().len() <= 255 && body_fits
    }

    /// The header fields that are sent.
    fn field_values(&self) -> (r: Vec<Value>)
        requires
            self@.fits(),
        ensures
            models(r@) == self@.fields(),
            forall|i: int| 0 <= i < r@.len() ==> signatures_fit(models(r@)[i]),
    {
        let mut fields: Vec<Value> = Vec::with_capacity(8);
        match &self.path {
            Some(s) => push_field(&mut fields, FIELD_PATH, Value::ObjectPath(s.clone())),
            None => {},
        }
        assert(models(fields@) =~= path_field(self@.path));
        push_text_field(&mut fields, FIELD_INTERFACE, &self.interface);
        push_text_field(&mut fields, FIELD_MEMBER, &self.member);
        push_text_field(&mut fields, FIELD_ERROR_NAME, &self.error_name);
        let ghost before = models(fields@);
        match self.reply_serial {
            Some(n) => push_field(&mut fields, FIELD_REPLY_SERIAL, Value::Uint32(n)),
            None => {},
        }
        assert(models(fields@) =~= before + reply_field(self@.reply_serial));
        push_text_field(&mut fields, FIELD_DESTINATION, &self.destination);
        push_text_field(&mut fields, FIELD_SENDER, &self.sender);
        let sig = match &self.signature {
            Some(s) => s.clone(),
            None => self.body_signature(),
        };
        let ghost before = models(fields@);
        if !sig.as_str().is_empty() {
            push_field(&mut fields, FIELD_SIGNATURE, Value::Signature(sig));
        }
        assert(models(fields@) =~= before + signature_field(self@.sent_signature()));
        fields
    }

    /// The bytes of the message, sent with the given serial.
    pub fn to_bytes(&self, serial: u32) -> (r: Result<Vec<u8>, Error>)
        requires
            self@.fits(),
        ensures
            r matches Ok(b) && b@ == self@.bytes(serial),
    {
        let fields = self.field_values();
        let mut hw = Writer::new();
        hw.values(&fields);
        let elements = hw.into_inner();
        assert(elements@ =~= self@.field_bytes());
        let mut bw = Writer::new();
        bw.values(&self.body);
        let body = bw.into_inner();
        assert(body@ =~= self@.body_bytes());
        #[verifier::truncate]
        let body_len: u32 = body.len() as u32;
        #[verifier::truncate]
        let field_len: u32 = elements.len() as u32;
        let mut out: Vec<u8> = Vec::new();
        out.push(108);
        out.push(self.typ.to_u8());
        out.push(0);
        out.push(1);
        put(&mut out, u32_bytes(body_len).as_slice());
        put(&mut out, u32_bytes(serial).as_slice());
        put(&mut out, u32_bytes(field_len).as_slice());
        assert(out@ =~= fixed_header(self.typ, body_len, serial, field_len));
        put(&mut out, elements.as_slice());
        let ghost before = out@;
        proof {
            lemma_fixed_header_len(self.typ, body_len, serial, field_len);
        }
        let mut count: usize = 0;
        while out.len() % 8 != 0
            invariant
                out@ == before + Seq::new(count as nat, |k: int| 0u8),
                before.len() == 16 + elements@.len(),
                count <= pad(16 + elements@.len(), 8),
            ensures
                count == pad(16 + elements@.len(), 8),
            decreases 8 - count,
        {
            out.push(0);
            count += 1;
            assert(out@ =~= before + Seq::new(count as nat, |k: int| 0u8));
        }
        put(&mut out, body.as_slice());
        Ok(out)
    }

    /// Reads the message at the start of `buf` and tells how many bytes it takes.
    /// Where the bytes do not make up a whole message yet, there is none.
    #[verifier::rlimit(40)]
    #[verifier::spinoff_prover]
    pub fn parse(buf: &[u8]) -> (r: Result<Option<(Message, usize)>, Error>)
        ensures
            match r {
                Ok(None) => parsed(buf@) == Ok::<Option<(MessageView, nat)>, ErrorView>(None),
                Ok(Some(p)) => parsed(buf@) == Ok::<Option<(MessageView, nat)>, ErrorView>(
                    Some((p.0@, p.1 as nat)),
                ),
                Err(e) => parsed(buf@) == Err::<Option<(MessageView, nat)>, ErrorView>(e@),
            },
    {
        if buf.len() < 16 {
            return Ok(None);
        }
        if buf[0] != 108 && buf[0] != 66 {
            return Err(
                Error::Protocol(
                    "未知字节序标记 ".to_string().concat(&debug_of_char(buf[0] as char)),
                ),
            );
        }
        let le = buf[0] == 108;
        let typ = match MessageType::from_u8(buf[1]) {
            Some(t) => t,
            None => {
                return Err(
                    Error::Protocol(
                        "未知消息类型 ".to_string().concat(&decimal_of(buf[1] as u64)),
                    ),
                );
            },
        };
        if buf[3] != 1 {
            return Err(
                Error::Protocol(
                    "不支持的协议版本 ".to_string().concat(&decimal_of(buf[3] as u64)),
                ),
            );
        }
        let mut r = Reader::new(buf, le);
        r.set_pos(4);
        let body_len: u32 = r.u32()?;
        let serial: u32 = r.u32()?;
        let field_len: u32 = r.u32()?;
        if field_len > MAX_HEADER || body_len > MAX_BODY {
            return Err(protocol("报文长度异常"));
        }
        let fields_end: usize = 16 + field_len as usize;
        if buf.len() < fields_end {
            return Ok(None);
        }
        let items = header_fields(slice_subrange(buf, 16, fields_end), le)?;
        let mut msg = Message::bare(typ, serial);
        let ghost bare = msg@;
        let mut i: usize = 0;
        assert(models(items@).skip(0) =~= models(items@));
        while i < items.len()
            invariant
                i <= items@.len(),
                with_fields(bare, models(items@)) == with_fields(
                    msg@,
                    models(items@).skip(i as int),
                ),
            decreases items@.len() - i,
        {
            set_field(&mut msg, &items[i]);
            assert(models(items@).skip(i as int).drop_first() =~= models(items@).skip(i + 1));
            i += 1;
        }
        let gap: usize = (8 - fields_end % 8) % 8;
        let body_start: usize = fields_end + gap;
        let body_end: usize = body_start + body_len as usize;
        if buf.len() < body_end {
            return Ok(None);
        }
        let sig = match &msg.signature {
            Some(s) => s.clone(),
            None => String::new(),
        };
        msg.body = body_values(slice_subrange(buf, body_start, body_end), le, &sig)?;
        Ok(Some((msg, body_end)))
    }
}

/// The header fields, read up to the end of `h`.
#[verifier::rlimit(40)]
#[verifier::spinoff_prover]
fn header_fields(h: &[u8], le: bool) -> (r: Result<Vec<Value>, Error>)
    ensures
        match r {
            Ok(v) => read_fields(h@, le, 0) == Ok::<Seq<ValueView>, ErrorView>(models(v@)),
            Err(e) => read_fields(h@, le, 0) == Err::<Seq<ValueView>, ErrorView>(e@),
        },
{
    let mut hr = Reader::new(h, le);
    let mut items: Vec<Value> = Vec::new();
    proof {
        if let Ok(rest) = read_fields(h@, le, 0) {
            assert(models(items@) + rest =~= rest);
        }
    }
    while hr.remaining() > 0
        invariant
            hr.data() == h@,
            hr.little() == le,
            read_fields(h@, le, 0) == match read_fields(h@, le, hr.position()) {
                Ok(rest) => Ok::<Seq<ValueView>, ErrorView>(models(items@) + rest),
                Err(e) => Err(e),
            },
        decreases left(h@.len(), hr.position()),
    {
        let ghost before = items@;
        let ghost start = hr.position();
        proof {
            lemma_field_takes_bytes(h@, le, start);
        }
        let v = hr.value("(yv)")?;
        items.push(v);
        proof {
            assert(models(items@) =~= models(before).push(v@));
            if let Ok(rest) = read_fields(h@, le, hr.position()) {
                assert(models(before) + (seq![v@] + rest) =~= models(items@) + rest);
            }
        }
    }
    assert(models(items@) + Seq::<ValueView>::empty() =~= models(items@));
    Ok(items)
}

/// The type of a header field.
pub proof fn lemma_field_type()
    ensures
        "(yv)"@ == seq!['(', 'y', 'v', ')'],
        type_len("(yv)"@, 0) == Ok::<nat, ErrorView>(4),
{
    reveal_strlit("(yv)");
    assert("(yv)"@ =~= seq!['(', 'y', 'v', ')']);
    reveal_with_fuel(type_len, 3);
    reveal_with_fuel(fields_len, 4);
}

/// A header field takes at least one byte.
proof fn lemma_field_takes_bytes(h: Seq<u8>, le: bool, pos: nat)
    ensures
        read_step(h, le, pos, "(yv)"@).out is Ok ==> read_step(h, le, pos, "(yv)"@).used > 0,
{
    lemma_field_type();
    reveal_with_fuel(value_step, 3);
    reveal_with_fuel(struct_step, 3);
    reveal_with_fuel(fields_step, 3);
    reveal(plain_step);
}

/// The text of a value, owned.
fn owned_text(v: &Value) -> (r: Option<String>)
    ensures
        opt_text(r) == text_of(v@),
{
    match v.as_str() {
        Some(s) => Some(s.to_string()),
        None => None,
    }
}

/// Sets one header field.
fn set_field(m: &mut Message, item: &Value)
    ensures
        final(m)@ == with_field(old(m)@, item@),
{
    proof {
        lemma_model_containers(*item);
    }
    match item {
        Value::Struct(parts) => {
            if parts.len() == 2 {
                assert(models(parts@)[0] == parts@[0]@);
                assert(models(parts@)[1] == parts@[1]@);
                match parts[0].as_byte() {
                    Some(code) => {
                        let val = parts[1].unwrap_variant();
                        if code == FIELD_PATH {
                            m.path = owned_text(val);
                        } else if code == FIELD_INTERFACE {
                            m.interface = owned_text(val);
                        } else if code == FIELD_MEMBER {
                            m.member = owned_text(val);
                        } else if code == FIELD_ERROR_NAME {
                            m.error_name = owned_text(val);
                        } else if code == FIELD_REPLY_SERIAL {
                            m.reply_serial = val.as_u32();
                        } else if code == FIELD_DESTINATION {
                            m.destination = owned_text(val);
                        } else if code == FIELD_SENDER {
                            m.sender = owned_text(val);
                        } else if code == FIELD_SIGNATURE {
                            m.signature = owned_text(val);
                        }
                    },
                    None => {},
                }
            }
        },
        _ => {},
    }
}

/// The values of a body of the types that `sig` names.
#[verifier::rlimit(40)]
#[verifier::spinoff_prover]
fn body_values(b: &[u8], le: bool, sig: &str) -> (r: Result<Vec<Value>, Error>)
    ensures
        match r {
            Ok(v) => read_body(b@, le, 0, sig@, 0) == Ok::<Seq<ValueView>, ErrorView>(models(v@)),
            Err(e) => read_body(b@, le, 0, sig@, 0) == Err::<Seq<ValueView>, ErrorView>(e@),
        },
{
    let cs = chars_of(sig);
    let mut br = Reader::new(b, le);
    let mut out: Vec<Value> = Vec::new();
    let mut i: usize = 0;
    proof {
        if let Ok(rest) = read_body(b@, le, 0, sig@, 0) {
            assert(models(out@) + rest =~= rest);
        }
    }
    while i < cs.len()
        invariant
            cs@ == sig@,
            br.data() == b@,
            br.little() == le,
            read_body(b@, le, 0, sig@, 0) == match read_body(
                b@,
                le,
                br.position(),
                sig@,
                i as nat,
            ) {
                Ok(rest) => Ok::<Seq<ValueView>, ErrorView>(models(out@) + rest),
                Err(e) => Err(e),
            },
        decreases left(cs@.len(), i as nat),
    {
        let ghost before = out@;
        let end: usize = scan(&cs, i)?;
        let v = br.value_at(&cs, i)?;
        out.push(v);
        proof {
            assert(models(out@) =~= models(before).push(v@));
            if let Ok(rest) = read_body(b@, le, br.position(), sig@, end as nat) {
                assert(models(before) + (seq![v@] + rest) =~= models(out@) + rest);
            }
        }
        i = end;
    }
    assert(models(out@) + Seq::<ValueView>::empty() =~= models(out@));
    Ok(out)
}

fn u32_bytes(v: u32) -> (r: [u8; 4])
    ensures
        r@ == le_bytes(v as nat, 4),
{
    Endian::<4>::to_le(v)
}

proof fn lemma_fixed_header_len(typ: MessageType, body: u32, serial: u32, fields: u32)
    ensures
        fixed_header(typ, body, serial, fields).len() == 16,
{
    lemma_number_bytes_len(body as nat, 4, true);
    lemma_number_bytes_len(serial as nat, 4, true);
    lemma_number_bytes_len(fields as nat, 4, true);
}

impl Default for Message {
    fn default() -> (r: Self)
        ensures
            r@ == MessageView::bare(MessageType::MethodCall, 0),
    {
        Message::bare(MessageType::MethodCall, 0)
    }
}

} // verus!

//! The layout of a message, byte by byte.

use crate::dbus::format::{byte_of, lemma_le_bytes, number_stands};
use crate::dbus::marshal::{encodings, le_bytes, pad, padding};
use crate::dbus::message::{
    fixed_header, number_at, parsed, read_fields, type_with, with_field, with_fields, MessageType,
    MessageView,
};
use crate::dbus::unmarshal::{le_value, number_value};
use crate::dbus::value::{sigs_of, unwrapped, ValueView};
use vstd::prelude::*;

verus! {

/// The number of the four bytes of `b` from `p` on.
pub open spec fn four_at(b: Seq<u8>, p: int, le: bool) -> int {
    if le {
        b[p] + 256 * b[p + 1] + 65536 * b[p + 2] + 16777216 * b[p + 3]
    } else {
        b[p + 3] + 256 * b[p + 2] + 65536 * b[p + 1] + 16777216 * b[p]
    }
}

/// A header field: its number, and its value in a variant.
pub open spec fn numbered(code: u8, v: ValueView) -> Seq<ValueView> {
    seq![ValueView::Struct(seq![ValueView::Byte(code), ValueView::Variant(Box::new(v))])]
}

/// A text as a header field; nothing where there is none.
pub open spec fn numbered_text(code: u8, t: Option<Seq<char>>) -> Seq<ValueView> {
    match t {
        Some(s) => numbered(code, ValueView::String(s)),
        None => seq![],
    }
}

/// The numbers of the message types: 1 for a call, 2 for an answer, 3 for an error, 4 for a
/// signal. No other byte is one.
pub proof fn law_type_numbers(t: MessageType, c: u8)
    ensures
        t.code() == match t {
            MessageType::MethodCall => 1u8,
            MessageType::MethodReturn => 2u8,
            MessageType::Error => 3u8,
            MessageType::Signal => 4u8,
        },
        type_with(t.code()) == Some(t),
        type_with(c) is Some <==> 1 <= c <= 4,
{
}

/// The header fields of a message: the path is number 1, an object path; the interface 2, the
/// member 3, the name of an error 4, strings; the serial answered 5, a 32-bit number; the
/// destination 6 and the sender 7, strings; the signature 8, that given or else that of the body,
/// left out where it is empty. They come in this order, and those that a message lacks are left
/// out.
pub proof fn law_header_fields(m: MessageView)
    ensures
        ({
            let sig = match m.signature {
                Some(s) => s,
                None => sigs_of(m.body),
            };
            m.fields() == (match m.path {
                Some(s) => numbered(1, ValueView::ObjectPath(s)),
                None => seq![],
            }) + numbered_text(2, m.interface) + numbered_text(3, m.member) + numbered_text(
                4,
                m.error_name,
            ) + (match m.reply_serial {
                Some(n) => numbered(5, ValueView::Uint32(n)),
                None => seq![],
            }) + numbered_text(6, m.destination) + numbered_text(7, m.sender) + (if sig.len() > 0 {
                numbered(8, ValueView::Signature(sig))
            } else {
                seq![]
            })
        }),
{
}

/// A message begins with `l`, its type, a zero for the flags and the version 1; the lengths of
/// its body and of its header fields stand at 4 and at 12, and its serial at 8, the lowest byte
/// first. The header fields follow at 16, and behind zeros up to a multiple of eight the body,
/// which ends the message.
#[verifier::spinoff_prover]
#[verifier::rlimit(40)]
pub proof fn law_message_layout(m: MessageView, serial: u32)
    requires
        encodings(m.fields(), true, 0).len() <= u32::MAX,
        encodings(m.body, true, 0).len() <= u32::MAX,
    ensures
        ({
            let b = m.bytes(serial);
            let fields = encodings(m.fields(), true, 0);
            let body = encodings(m.body, true, 0);
            let start = 16 + fields.len() + (8 - fields.len() as int % 8) % 8;
            &&& b.len() == start + body.len()
            &&& b[0] == 108
            &&& b[1] == match m.typ {
                MessageType::MethodCall => 1u8,
                MessageType::MethodReturn => 2u8,
                MessageType::Error => 3u8,
                MessageType::Signal => 4u8,
            }
            &&& b[2] == 0
            &&& b[3] == 1
            &&& number_stands(b, 4, 4, body.len(), true)
            &&& number_stands(b, 8, 4, serial as nat, true)
            &&& number_stands(b, 12, 4, fields.len(), true)
            &&& b.subrange(16, (16 + fields.len()) as int) == fields
            &&& forall|i: int| 16 + fields.len() <= i < start ==> b[i] == 0
            &&& b.skip(start) == body
        }),
{
    let b = m.bytes(serial);
    let fields = encodings(m.fields(), true, 0);
    let body = encodings(m.body, true, 0);
    let head = fixed_header(m.typ, body.len() as u32, serial, fields.len() as u32);
    lemma_le_bytes(body.len(), 4);
    lemma_le_bytes(serial as nat, 4);
    lemma_le_bytes(fields.len(), 4);
    assert(head.len() == 16);
    let zeros = padding(16 + fields.len(), 8);
    assert(zeros.len() == (8 - fields.len() as int % 8) % 8);
    assert(b =~= head + fields + zeros + body);
    let start = 16 + fields.len() + zeros.len();
    assert(b.subrange(16, (16 + fields.len()) as int) =~= fields);
    assert(b.skip(start as int) =~= body);
    assert forall|k: nat| k < 4 implies b[4 + k as int] == #[trigger] byte_of(body.len(), k) by {
        assert(b[4 + k as int] == le_bytes(body.len(), 4)[k as int]);
    }
    assert forall|k: nat| k < 4 implies b[8 + k as int] == #[trigger] byte_of(serial as nat, k) by {
        assert(b[8 + k as int] == le_bytes(serial as nat, 4)[k as int]);
    }
    assert forall|k: nat| k < 4 implies b[12 + k as int] == #[trigger] byte_of(fields.len(), k) by {
        assert(b[12 + k as int] == le_bytes(fields.len(), 4)[k as int]);
    }
}

pub proof fn lemma_four(b: Seq<u8>, p: int, le: bool)
    requires
        0 <= p,
        p + 4 <= b.len(),
    ensures
        number_value(b.subrange(p, p + 4), le) == four_at(b, p, le),
        0 <= four_at(b, p, le) <= u32::MAX,
{
    let s = if le {
        b.subrange(p, p + 4)
    } else {
        b.subrange(p, p + 4).reverse()
    };
    reveal_with_fuel(le_value, 5);
    assert(s.drop_first().drop_first() =~= seq![s[2], s[3]]);
    assert(s.drop_first().drop_first().drop_first() =~= seq![s[3]]);
    assert(s.drop_first().drop_first().drop_first().drop_first() =~= seq![]);
    assert(le_value(s) == s[0] + 256 * s[1] + 65536 * s[2] + 16777216 * s[3]);
}

proof fn lemma_kept(m: MessageView, items: Seq<ValueView>)
    ensures
        with_fields(m, items).typ == m.typ,
        with_fields(m, items).serial == m.serial,
    decreases items.len(),
{
    if items.len() > 0 {
        lemma_kept(with_field(m, items[0]), items.drop_first());
    }
}

proof fn lemma_pad_to_eight(n: nat)
    ensures
        pad(16 + n, 8) == (8 - n as int % 8) % 8,
{
}

/// What of a message is read from its first sixteen bytes. The first byte says in which order the
/// bytes of numbers stand, the second what type the message is; the fourth is the version, always
/// 1. The lengths of body and header fields stand at 4 and 12, the serial at 8. Too few bytes are
/// no fault, and as soon as header, padding and body are there the message is handed out, unless
/// something in it is at fault.
#[verifier::spinoff_prover]
#[verifier::rlimit(40)]
pub proof fn law_header_read(b: Seq<u8>)
    ensures
        b.len() < 16 ==> parsed(b) matches Ok(None),
        b.len() >= 16 ==> {
            let le = b[0] == 108;
            let body = four_at(b, 4, le);
            let fields = four_at(b, 12, le);
            let end = 16 + fields + (8 - fields % 8) % 8 + body;
            &&& (b[0] != 108 && b[0] != 66 || b[1] < 1 || b[1] > 4 || b[3] != 1 || fields > 1048576
                || body > 67108864) ==> parsed(b) is Err
            &&& parsed(b) matches Ok(Some(pair)) ==> {
                &&& pair.1 == end
                &&& end <= b.len()
                &&& pair.0.serial == four_at(b, 8, le)
                &&& pair.0.typ == (if b[1] == 1 {
                    MessageType::MethodCall
                } else if b[1] == 2 {
                    MessageType::MethodReturn
                } else if b[1] == 3 {
                    MessageType::Error
                } else {
                    MessageType::Signal
                })
            }
            &&& parsed(b) matches Ok(None) ==> b.len() < end
        },
{
    if b.len() >= 16 {
        let le = b[0] == 108;
        lemma_four(b, 4, le);
        lemma_four(b, 8, le);
        lemma_four(b, 12, le);
        let fields = four_at(b, 12, le);
        let body = four_at(b, 4, le);
        assert(number_at(b, le, 12) == fields);
        assert(number_at(b, le, 4) == body);
        assert(number_at(b, le, 8) == four_at(b, 8, le));
        lemma_pad_to_eight(fields as nat);
        let serial = four_at(b, 8, le) as u32;
        if (b[0] == 108 || b[0] == 66) && 1 <= b[1] <= 4 && b[3] == 1 && fields <= 1048576 && body
            <= 67108864 && 16 + fields <= b.len() {
            let read = read_fields(b.subrange(16, 16 + fields), le, 0);
            if read is Ok {
                lemma_kept(MessageView::bare(type_with(b[1])->0, serial), read->Ok_0);
            }
        }
    }
}

/// What a header field sets: number 1 the path, 2 the interface, 3 the member, 4 the name of an
/// error, 5 the serial answered, 6 the destination, 7 the sender, 8 the signature, and any other
/// number nothing. The value may stand in a variant, and nothing else of the message changes.
#[verifier::spinoff_prover]
#[verifier::rlimit(40)]
pub proof fn law_field_sets(m: MessageView, code: u8, s: Seq<char>, n: u32)
    ensures
        with_field(m, numbered(code, ValueView::String(s))[0]) == (if code == 1 {
            MessageView { path: Some(s), ..m }
        } else if code == 2 {
            MessageView { interface: Some(s), ..m }
        } else if code == 3 {
            MessageView { member: Some(s), ..m }
        } else if code == 4 {
            MessageView { error_name: Some(s), ..m }
        } else if code == 5 {
            MessageView { reply_serial: None, ..m }
        } else if code == 6 {
            MessageView { destination: Some(s), ..m }
        } else if code == 7 {
            MessageView { sender: Some(s), ..m }
        } else if code == 8 {
            MessageView { signature: Some(s), ..m }
        } else {
            m
        }),
        with_field(m, numbered(1, ValueView::ObjectPath(s))[0]) == (MessageView {
            path: Some(s),
            ..m
        }),
        with_field(m, numbered(8, ValueView::Signature(s))[0]) == (MessageView {
            signature: Some(s),
            ..m
        }),
        with_field(m, numbered(5, ValueView::Uint32(n))[0]) == (MessageView {
            reply_serial: Some(n),
            ..m
        }),
{
    reveal_with_fuel(unwrapped, 2);
}

} // verus!

//! What is sent is received.

use crate::dbus::marshal::{
    encoding, encodings, lemma_number_bytes_len, number_bytes, pad, padding, signature_encoding,
    string_encoding,
};
use crate::dbus::message::{
    field_of, fixed_header, lemma_field_type, number_at, parsed, path_field, read_body,
    read_fields, reply_field, signature_field, text_field, with_field, with_fields, MessageType,
    MessageView, FIELD_DESTINATION, FIELD_ERROR_NAME, FIELD_INTERFACE, FIELD_MEMBER,
    FIELD_SENDER, MAX_BODY, MAX_HEADER,
};
use crate::dbus::roundtrip::{
    all_faithful, faithful, holds_at, hollow, law_number_round, law_signature_is_type,
    law_value_round, lemma_holds_split, lemma_pow256_values, lemma_takes_bytes,
};
use crate::dbus::signature::lemma_type_stands;
use crate::dbus::value::{sig_of, sigs_of, unwrapped, ValueView};
use crate::error::ErrorView;
use crate::text::{lemma_stands_split, stands_at};
use vstd::prelude::*;
use vstd::utf8::*;

verus! {

/// A message whose parts keep to the length limits.
pub open spec fn within_limits(m: MessageView) -> bool {
    &&& m.fits()
    &&& m.field_bytes().len() <= MAX_HEADER
    &&& m.body_bytes().len() <= MAX_BODY
}

/// A message that arrives as it was sent: its body can be read back and has the
/// signature that is sent, and its parts keep to the length limits.
pub open spec fn deliverable(m: MessageView) -> bool {
    &&& within_limits(m)
    &&& m.sent_signature() == sigs_of(m.body)
    &&& all_faithful(m.body, true, 0)
}

/// The message as the receiver sees it: with the serial that it was sent with, and
/// with the signature of its body spelled out.
pub open spec fn received(m: MessageView, serial: u32) -> MessageView {
    MessageView {
        serial,
        signature: if m.sent_signature().len() > 0 {
            Some(m.sent_signature())
        } else {
            None
        },
        ..m
    }
}

proof fn lemma_with_fields_concat(m: MessageView, a: Seq<ValueView>, b: Seq<ValueView>)
    ensures
        with_fields(m, a + b) == with_fields(with_fields(m, a), b),
    decreases a.len(),
{
    if a.len() == 0 {
        assert(a + b =~= b);
    } else {
        assert((a + b).drop_first() =~= a.drop_first() + b);
        lemma_with_fields_concat(with_field(m, a[0]), a.drop_first(), b);
    }
}

proof fn lemma_with_one(m: MessageView, v: ValueView)
    ensures
        with_fields(m, seq![v]) == with_field(m, v),
        with_fields(m, seq![]) == m,
{
    reveal_with_fuel(with_fields, 2);
    assert(seq![v].drop_first() =~= seq![]);
}

proof fn lemma_unwrapped(v: ValueView)
    requires
        !(v is Variant),
    ensures
        unwrapped(ValueView::Variant(Box::new(v))) == v,
{
    reveal_with_fuel(unwrapped, 2);
}

proof fn lemma_text_field_set(m: MessageView, code: u8, t: Option<Seq<char>>)
    ensures
        with_fields(m, text_field(code, t)) == match t {
            None => m,
            Some(s) => with_field(m, field_of(code, ValueView::String(s))),
        },
        t matches Some(s) ==> unwrapped(ValueView::Variant(Box::new(ValueView::String(s))))
            == ValueView::String(s),
{
    lemma_with_one(m, field_of(code, ValueView::String(t->0)));
    lemma_unwrapped(ValueView::String(t->0));
}

/// Setting the fields that are sent gives the message that is received.
proof fn lemma_fields_set(m: MessageView, serial: u32)
    ensures
        with_fields(MessageView::bare(m.typ, serial), m.fields()) == (MessageView {
            body: seq![],
            ..received(m, serial)
        }),
{
    let m0 = MessageView::bare(m.typ, serial);
    let f1 = path_field(m.path);
    let f2 = text_field(FIELD_INTERFACE, m.interface);
    let f3 = text_field(FIELD_MEMBER, m.member);
    let f4 = text_field(FIELD_ERROR_NAME, m.error_name);
    let f5 = reply_field(m.reply_serial);
    let f6 = text_field(FIELD_DESTINATION, m.destination);
    let f7 = text_field(FIELD_SENDER, m.sender);
    let f8 = signature_field(m.sent_signature());
    lemma_with_one(m0, field_of(1, ValueView::ObjectPath(m.path->0)));
    lemma_unwrapped(ValueView::ObjectPath(m.path->0));
    let m1 = with_fields(m0, f1);
    assert(m1 == (MessageView { path: m.path, ..m0 }));
    lemma_with_fields_concat(m0, f1, f2);
    lemma_text_field_set(m1, FIELD_INTERFACE, m.interface);
    let m2 = with_fields(m0, f1 + f2);
    assert(m2 == (MessageView { interface: m.interface, ..m1 }));
    lemma_with_fields_concat(m0, f1 + f2, f3);
    lemma_text_field_set(m2, FIELD_MEMBER, m.member);
    let m3 = with_fields(m0, f1 + f2 + f3);
    assert(m3 == (MessageView { member: m.member, ..m2 }));
    lemma_with_fields_concat(m0, f1 + f2 + f3, f4);
    lemma_text_field_set(m3, FIELD_ERROR_NAME, m.error_name);
    let m4 = with_fields(m0, f1 + f2 + f3 + f4);
    assert(m4 == (MessageView { error_name: m.error_name, ..m3 }));
    lemma_with_fields_concat(m0, f1 + f2 + f3 + f4, f5);
    lemma_with_one(m4, field_of(5, ValueView::Uint32(m.reply_serial->0)));
    lemma_unwrapped(ValueView::Uint32(m.reply_serial->0));
    let m5 = with_fields(m0, f1 + f2 + f3 + f4 + f5);
    assert(m5 == (MessageView { reply_serial: m.reply_serial, ..m4 }));
    lemma_with_fields_concat(m0, f1 + f2 + f3 + f4 + f5, f6);
    lemma_text_field_set(m5, FIELD_DESTINATION, m.destination);
    let m6 = with_fields(m0, f1 + f2 + f3 + f4 + f5 + f6);
    assert(m6 == (MessageView { destination: m.destination, ..m5 }));
    lemma_with_fields_concat(m0, f1 + f2 + f3 + f4 + f5 + f6, f7);
    lemma_text_field_set(m6, FIELD_SENDER, m.sender);
    let m7 = with_fields(m0, f1 + f2 + f3 + f4 + f5 + f6 + f7);
    assert(m7 == (MessageView { sender: m.sender, ..m6 }));
    lemma_with_fields_concat(m0, f1 + f2 + f3 + f4 + f5 + f6 + f7, f8);
    lemma_with_one(m7, field_of(8, ValueView::Signature(m.sent_signature())));
    lemma_unwrapped(ValueView::Signature(m.sent_signature()));
}

/// A value as it stands in a header field.
pub open spec fn plain_field(v: ValueView) -> bool {
    match v {
        ValueView::ObjectPath(_) => true,
        ValueView::String(_) => true,
        ValueView::Uint32(_) => true,
        ValueView::Signature(s) => encode_utf8(s).len() <= 255,
        _ => false,
    }
}

/// A header field.
pub open spec fn field_like(v: ValueView) -> bool {
    exists|code: u8, x: ValueView| v == #[trigger] field_of(code, x) && plain_field(x)
}

proof fn lemma_field_faithful(code: u8, x: ValueView, pos: nat)
    requires
        plain_field(x),
        encoding(field_of(code, x), true, pos).len() <= u32::MAX,
    ensures
        faithful(field_of(code, x), true, pos),
        sig_of(field_of(code, x)) == seq!['(', 'y', 'v', ')'],
        !hollow(field_of(code, x)),
{
    let f = field_of(code, x);
    let v = ValueView::Variant(Box::new(x));
    let parts = seq![ValueView::Byte(code), v];
    let p = pos + pad(pos, 8);
    let tail = parts.drop_first();
    assert(tail =~= seq![v]);
    assert(tail.drop_first() =~= seq![]);
    assert(sigs_of(tail.drop_first()) =~= seq![]);
    assert(sig_of(v) == seq!['v'] && sig_of(parts[0]) == seq!['y']);
    assert(sigs_of(tail) =~= seq!['v']);
    assert(sigs_of(parts) =~= seq!['y', 'v']);
    assert(sig_of(f) =~= seq!['(', 'y', 'v', ')']);
    reveal_with_fuel(hollow, 2);
    is_ascii_chars_encode_utf8(sig_of(x));
    // the parts of the field take no more bytes than the field
    let e0 = encoding(parts[0], true, p);
    let e1 = encoding(v, true, p + e0.len());
    assert(encodings(tail.drop_first(), true, p + e0.len() + e1.len()) =~= seq![]);
    assert(encodings(tail, true, p + e0.len()) == e1 + encodings(
        tail.drop_first(),
        true,
        p + e0.len() + e1.len(),
    ));
    assert(encodings(parts, true, p) == e0 + encodings(tail, true, p + e0.len()));
    assert(encoding(f, true, pos) == padding(pos, 8) + encodings(parts, true, p));
    let q = p + e0.len() + signature_encoding(sig_of(x)).len();
    let ex = encoding(x, true, q);
    assert(e1.len() == signature_encoding(sig_of(x)).len() + ex.len());
    reveal(string_encoding);
    assert(faithful(x, true, q));
    assert(faithful(parts[0], true, p) && faithful(v, true, p + e0.len()));
    assert(all_faithful(tail.drop_first(), true, p + e0.len() + e1.len()));
    assert(all_faithful(tail, true, p + e0.len()));
    assert(all_faithful(parts, true, p));
}

/// Header fields are read back, up to the end of the header.
proof fn lemma_fields_read(items: Seq<ValueView>, h: Seq<u8>, pos: nat)
    requires
        forall|i: int| 0 <= i < items.len() ==> field_like(#[trigger] items[i]),
        encodings(items, true, pos).len() <= u32::MAX,
        h.len() <= usize::MAX,
        holds_at(h, pos, encodings(items, true, pos)),
        h.len() == pos + encodings(items, true, pos).len(),
    ensures
        read_fields(h, true, pos) == Ok::<Seq<ValueView>, ErrorView>(items),
    decreases items.len(),
{
    if items.len() == 0 {
        assert(items =~= seq![]);
    } else {
        let (code, x) = choose|code: u8, x: ValueView|
            items[0] == #[trigger] field_of(code, x) && plain_field(x);
        assert(field_like(items[0]));
        let rest = items.drop_first();
        let e = encoding(items[0], true, pos);
        assert(encodings(items, true, pos) == e + encodings(rest, true, pos + e.len()));
        lemma_holds_split(h, pos, e, encodings(rest, true, pos + e.len()));
        lemma_field_faithful(code, x, pos);
        lemma_takes_bytes(items[0], true, pos);
        lemma_field_type();
        let t = "(yv)"@;
        assert(t.subrange(0, t.len() as int) =~= t);
        law_value_round(items[0], true, pos, h, t, 0);
        assert forall|i: int| 0 <= i < rest.len() implies field_like(#[trigger] rest[i]) by {
            assert(rest[i] == items[i + 1]);
        }
        lemma_fields_read(rest, h, pos + e.len());
        assert(seq![items[0]] + rest =~= items);
    }
}

/// A body is read back with the signatures of its values.
proof fn lemma_body_read(items: Seq<ValueView>, b: Seq<u8>, pos: nat, s: Seq<char>, i: nat)
    requires
        all_faithful(items, true, pos),
        stands_at(sigs_of(items), s, i),
        s.len() == i + sigs_of(items).len(),
        b.len() <= usize::MAX,
        holds_at(b, pos, encodings(items, true, pos)),
    ensures
        read_body(b, true, pos, s, i) == Ok::<Seq<ValueView>, ErrorView>(items),
    decreases items.len(),
{
    if items.len() == 0 {
        assert(items =~= seq![]);
    } else {
        let rest = items.drop_first();
        let first = sig_of(items[0]);
        let e = encoding(items[0], true, pos);
        assert(faithful(items[0], true, pos) && all_faithful(rest, true, pos + e.len()));
        assert(sigs_of(items) == first + sigs_of(rest));
        law_signature_is_type(items[0], true, pos);
        lemma_stands_split(s, i, first, sigs_of(rest));
        lemma_type_stands(first, s, i);
        assert(encodings(items, true, pos) == e + encodings(rest, true, pos + e.len()));
        lemma_holds_split(b, pos, e, encodings(rest, true, pos + e.len()));
        law_value_round(items[0], true, pos, b, s, i);
        lemma_body_read(rest, b, pos + e.len(), s, i + first.len());
        assert(seq![items[0]] + rest =~= items);
    }
}

proof fn lemma_sent_fields(m: MessageView)
    requires
        m.fits(),
    ensures
        forall|i: int| 0 <= i < m.fields().len() ==> field_like(#[trigger] m.fields()[i]),
{
    assert(m.path matches Some(s) ==> field_like(field_of(1, ValueView::ObjectPath(s))));
    assert forall|code: u8, s: Seq<char>| field_like(
        #[trigger] field_of(code, ValueView::String(s)),
    ) by {}
    assert(m.reply_serial matches Some(n) ==> field_like(field_of(5, ValueView::Uint32(n))));
    assert(field_like(field_of(8, ValueView::Signature(m.sent_signature()))));
}

proof fn lemma_header_numbers(b: Seq<u8>, typ: MessageType, body: u32, serial: u32, fields: u32)
    requires
        b.len() >= 16,
        b.take(16) == fixed_header(typ, body, serial, fields),
    ensures
        b[0] == 108,
        b[1] == typ.code(),
        b[3] == 1,
        number_at(b, true, 4) == body,
        number_at(b, true, 8) == serial,
        number_at(b, true, 12) == fields,
{
    let h = fixed_header(typ, body, serial, fields);
    lemma_number_bytes_len(body as nat, 4, true);
    lemma_number_bytes_len(serial as nat, 4, true);
    lemma_number_bytes_len(fields as nat, 4, true);
    assert(b[0] == b.take(16)[0]);
    assert(b[1] == b.take(16)[1]);
    assert(b[3] == b.take(16)[3]);
    assert(b.subrange(4, 8) =~= b.take(16).subrange(4, 8));
    assert(b.subrange(8, 12) =~= b.take(16).subrange(8, 12));
    assert(b.subrange(12, 16) =~= b.take(16).subrange(12, 16));
    assert(h.subrange(4, 8) =~= number_bytes(body as nat, 4, true));
    assert(h.subrange(8, 12) =~= number_bytes(serial as nat, 4, true));
    assert(h.subrange(12, 16) =~= number_bytes(fields as nat, 4, true));
    lemma_pow256_values();
    law_number_round(body as nat, 4, true);
    law_number_round(serial as nat, 4, true);
    law_number_round(fields as nat, 4, true);
}

/// How the bytes of a message are laid out.
proof fn lemma_layout(m: MessageView, serial: u32)
    requires
        within_limits(m),
    ensures
        ({
            let b = m.bytes(serial);
            let f = m.field_bytes();
            let start = 16 + f.len() + pad(16 + f.len(), 8);
            &&& b.len() == start + m.body_bytes().len()
            &&& b.take(16) == fixed_header(
                m.typ,
                m.body_bytes().len() as u32,
                serial,
                f.len() as u32,
            )
            &&& b.subrange(16, (16 + f.len()) as int) == f
            &&& b.skip(start as int) == m.body_bytes()
        }),
{
    let b = m.bytes(serial);
    let f = m.field_bytes();
    let start = 16 + f.len() + pad(16 + f.len(), 8);
    lemma_number_bytes_len(m.body_bytes().len() as u32 as nat, 4, true);
    lemma_number_bytes_len(serial as nat, 4, true);
    lemma_number_bytes_len(f.len() as u32 as nat, 4, true);
    assert(b.take(16) =~= fixed_header(
        m.typ,
        m.body_bytes().len() as u32,
        serial,
        f.len() as u32,
    ));
    assert(b.subrange(16, (16 + f.len()) as int) =~= f);
    assert(b.skip(start as int) =~= m.body_bytes());
}

/// A message that is sent is received whole, whatever follows it, and nothing of
/// what follows is taken.
pub proof fn law_sent_is_received(m: MessageView, serial: u32, rest: Seq<u8>)
    requires
        deliverable(m),
        (m.bytes(serial) + rest).len() <= usize::MAX,
    ensures
        parsed(m.bytes(serial) + rest) == Ok::<Option<(MessageView, nat)>, ErrorView>(
            Some((received(m, serial), m.bytes(serial).len())),
        ),
{
    let bytes = m.bytes(serial);
    let b = bytes + rest;
    let f = m.field_bytes();
    let body = m.body_bytes();
    let start = 16 + f.len() + pad(16 + f.len(), 8);
    let end = start + body.len();
    lemma_layout(m, serial);
    assert(b.take(16) =~= bytes.take(16));
    lemma_header_numbers(b, m.typ, body.len() as u32, serial, f.len() as u32);
    assert(b.subrange(16, (16 + f.len()) as int) =~= f);
    assert(b.subrange(start as int, end as int) =~= bytes.skip(start as int));
    lemma_sent_fields(m);
    assert(f.subrange(0, f.len() as int) =~= f);
    lemma_fields_read(m.fields(), f, 0);
    lemma_fields_set(m, serial);
    let sig = m.sent_signature();
    assert(sig.subrange(0, sig.len() as int) =~= sig);
    assert(body.subrange(0, body.len() as int) =~= body);
    lemma_body_read(m.body, body, 0, sig, 0);
    if sig.len() == 0 {
        assert(sig =~= seq![]);
    }
}

/// As long as the last byte of a message has not arrived, more bytes are asked for.
pub proof fn law_incomplete_waits(m: MessageView, serial: u32, k: nat)
    requires
        within_limits(m),
        m.bytes(serial).len() <= usize::MAX,
        k < m.bytes(serial).len(),
    ensures
        parsed(m.bytes(serial).take(k as int)) == Ok::<Option<(MessageView, nat)>, ErrorView>(
            None,
        ),
{
    let bytes = m.bytes(serial);
    let b = bytes.take(k as int);
    let f = m.field_bytes();
    let body = m.body_bytes();
    lemma_layout(m, serial);
    if k >= 16 {
        assert(b.take(16) =~= bytes.take(16));
        lemma_header_numbers(b, m.typ, body.len() as u32, serial, f.len() as u32);
        if k >= 16 + f.len() {
            assert(b.subrange(16, (16 + f.len()) as int) =~= f);
            lemma_sent_fields(m);
            assert(f.subrange(0, f.len() as int) =~= f);
            lemma_fields_read(m.fields(), f, 0);
        }
    }
}

} // verus!

//! What a connection makes of the messages that arrive.

use crate::dbus::message::{parsed, MessageType, MessageView};
use crate::dbus::session::{
    answer, hex_text, late, next_signal_in, properties, reply_in, signal_in, Handshake,
};
use crate::dbus::transit::{deliverable, law_sent_is_received, received};
use crate::dbus::value::{unwrapped, ValueView};
use crate::error::ErrorView;
use crate::text::decimal;
use crate::text_laws::law_decimal;
use vstd::prelude::*;
use vstd::string::*;

verus! {

/// A text that a value gives: that of a string, an object path or a signature.
pub open spec fn says(v: ValueView, s: Seq<char>) -> bool {
    v == ValueView::String(s) || v == ValueView::ObjectPath(s) || v == ValueView::Signature(s)
}

/// An answer returns its body. An error is told by its name and the text that its body begins
/// with; either is empty where it is missing. A call or a signal is no answer.
pub proof fn law_answers(m: MessageView, s: Seq<char>)
    ensures
        match m.typ {
            MessageType::MethodReturn => answer(m) == Ok::<Seq<ValueView>, ErrorView>(m.body),
            MessageType::Error => answer(m) matches Err(ErrorView::Dbus { name, message }) && {
                &&& match m.error_name {
                    Some(n) => name == n,
                    None => name.len() == 0,
                }
                &&& m.body.len() == 0 ==> message.len() == 0
                &&& m.body.len() > 0 && says(m.body[0], s) ==> message == s
                &&& m.body.len() > 0 && (forall|t: Seq<char>| !says(m.body[0], t)) ==> message.len()
                    == 0
            },
            _ => answer(m) matches Err(ErrorView::Protocol(_)),
        },
{
    if m.body.len() > 0 {
        let v = m.body[0];
        match v {
            ValueView::String(t) => {
                assert(says(v, t));
            },
            ValueView::ObjectPath(t) => {
                assert(says(v, t));
            },
            ValueView::Signature(t) => {
                assert(says(v, t));
            },
            _ => {},
        }
    }
}

/// An answer to another call, and a call, are passed over when an answer is looked for; whatever
/// is no signal is passed over when a signal is.
#[verifier::spinoff_prover]
#[verifier::rlimit(40)]
pub proof fn law_passed_over(
    m: MessageView,
    serial: u32,
    rest: Seq<u8>,
    queue: Seq<MessageView>,
    call: u32,
)
    requires
        deliverable(m),
        (m.bytes(serial) + rest).len() <= usize::MAX,
        m.typ != MessageType::Signal,
    ensures
        m.reply_serial != Some(call) ==> reply_in(m.bytes(serial) + rest, queue, call) == reply_in(
            rest,
            queue,
            call,
        ),
        signal_in(m.bytes(serial) + rest, queue) == signal_in(rest, queue),
{
    law_sent_is_received(m, serial, rest);
    assert((m.bytes(serial) + rest).skip(m.bytes(serial).len() as int) =~= rest);
}

/// The next signal is the oldest of those put aside, and no byte is looked at for it.
pub proof fn law_oldest_first(m: MessageView, pending: Seq<u8>, queue: Seq<MessageView>)
    ensures
        ({
            let h = next_signal_in(pending, seq![m] + queue);
            &&& h.out == Ok::<Option<MessageView>, ErrorView>(Some(m))
            &&& h.pending == pending
            &&& h.queue == queue
        }),
{
    assert((seq![m] + queue).drop_first() =~= queue);
}

/// Where no signal is put aside, one is given out as soon as its last byte has arrived, and what
/// follows it stays.
#[verifier::spinoff_prover]
#[verifier::rlimit(40)]
pub proof fn law_signal_arrives(m: MessageView, serial: u32, rest: Seq<u8>)
    requires
        deliverable(m),
        (m.bytes(serial) + rest).len() <= usize::MAX,
        m.typ == MessageType::Signal,
    ensures
        ({
            let h = next_signal_in(m.bytes(serial) + rest, seq![]);
            &&& h.out == Ok::<Option<MessageView>, ErrorView>(Some(received(m, serial)))
            &&& h.pending == rest
            &&& h.queue.len() == 0
        }),
{
    let whole = m.bytes(serial) + rest;
    law_sent_is_received(m, serial, rest);
    assert(whole.skip(m.bytes(serial).len() as int) =~= rest);
    assert(received(m, serial).typ == MessageType::Signal);
    let h = signal_in(whole, seq![]);
    assert(h.out == Ok::<Option<MessageView>, ErrorView>(Some(received(m, serial))));
}

/// Bytes that make up no message yet, and bytes that are at fault, stay where they are, and
/// nothing is put aside for them.
#[verifier::spinoff_prover]
#[verifier::rlimit(40)]
pub proof fn law_nothing_taken(pending: Seq<u8>, queue: Seq<MessageView>, call: u32)
    requires
        !(parsed(pending) matches Ok(Some(_))),
    ensures
        reply_in(pending, queue, call).pending == pending,
        reply_in(pending, queue, call).queue == queue,
        signal_in(pending, queue).pending == pending,
        parsed(pending) is Err <==> reply_in(pending, queue, call).out is Err,
        parsed(pending) is Err <==> signal_in(pending, queue).out is Err,
{
}

/// Each entry of a dictionary whose key is a text is a property, in the order of the entries, with
/// the value inside its variants; the other entries are none.
pub proof fn law_properties(
    entries: Seq<(ValueView, ValueView)>,
    key: ValueView,
    v: ValueView,
    s: Seq<char>,
)
    ensures
        properties(seq![]).len() == 0,
        says(key, s) ==> properties(entries.push((key, v))) == properties(entries).push(
            (s, unwrapped(v)),
        ),
        (forall|t: Seq<char>| !says(key, t)) ==> properties(entries.push((key, v))) == properties(
            entries,
        ),
{
    assert(entries.push((key, v)).drop_last() =~= entries);
    match key {
        ValueView::String(t) => {
            assert(says(key, t));
        },
        ValueView::ObjectPath(t) => {
            assert(says(key, t));
        },
        ValueView::Signature(t) => {
            assert(says(key, t));
        },
        _ => {},
    }
}

/// The digit at `d[i]` stands in `h` as a 3 and the digit.
pub open spec fn in_two(h: Seq<char>, d: Seq<char>, i: int) -> bool {
    h[2 * i] == '3' && h[2 * i + 1] == d[i]
}

proof fn lemma_hex_digits(s: Seq<char>)
    requires
        forall|i: int| 0 <= i < s.len() ==> '0' <= #[trigger] s[i] <= '9',
    ensures
        hex_text(s).len() == 2 * s.len(),
        forall|i: int| 0 <= i < s.len() ==> #[trigger] in_two(hex_text(s), s, i),
    decreases s.len(),
{
    if s.len() > 0 {
        let front = s.drop_last();
        lemma_hex_digits(front);
        let c = s.last();
        assert(c == s[s.len() - 1]);
        assert forall|i: int| 0 <= i < s.len() implies #[trigger] in_two(hex_text(s), s, i) by {
            if i < front.len() {
                assert(in_two(hex_text(front), front, i));
                assert(front[i] == s[i]);
                assert(hex_text(s)[2 * i] == hex_text(front)[2 * i]);
                assert(hex_text(s)[2 * i + 1] == hex_text(front)[2 * i + 1]);
            }
        }
    }
}

/// The line that names the user: a zero byte, `AUTH EXTERNAL`, and for each digit of the user id a
/// 3 and the digit, which is how ASCII numbers the digits in hexadecimal.
pub proof fn law_user_line(uid: u32)
    ensures
        ({
            let d = decimal(uid as nat);
            let h = hex_text(d);
            &&& Handshake::External.sent(uid) == "\0AUTH EXTERNAL "@ + h + "\r\n"@
            &&& h.len() == 2 * d.len()
            &&& forall|i: int| 0 <= i < d.len() ==> #[trigger] in_two(h, d, i)
        }),
{
    law_decimal(uid as nat);
    lemma_hex_digits(decimal(uid as nat));
}

/// The other lines of the handshake do not depend on the user.
pub proof fn law_other_lines(uid: u32)
    ensures
        Handshake::Anonymous.sent(uid) == "AUTH ANONYMOUS\r\n"@,
        Handshake::Begin.sent(uid) == "BEGIN\r\n"@,
{
}

/// A call that is not answered in time is named by its interface and member.
pub proof fn law_late_call(interface: Seq<char>, member: Seq<char>)
    ensures
        late(interface, member) == ErrorView::Timeout(interface + "."@ + member + " 调用超时"@),
{
}

} // verus!

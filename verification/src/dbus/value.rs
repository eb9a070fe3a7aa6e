//! The values that D-Bus messages carry.
//!
//! An array or a dictionary carries the types of what it holds, so that its
//! signature is known where it is empty.

use crate::text::{decimal, decimal_of, signed_decimal, signed_decimal_of};
use vstd::prelude::*;
use vstd::string::*;

verus! {

/// A D-Bus value.
#[derive(Debug, PartialEq)]
pub enum Value {
    /// `y`
    Byte(u8),
    /// `b`, on the wire a 32-bit number that is not zero where it is true
    Bool(bool),
    /// `n`
    Int16(i16),
    /// `q`
    Uint16(u16),
    /// `i`
    Int32(i32),
    /// `u`
    Uint32(u32),
    /// `x`
    Int64(i64),
    /// `t`
    Uint64(u64),
    /// `d`, by the bits of its IEEE 754 form
    Double(u64),
    /// `s`
    String(String),
    /// `o`, on the wire the same as a string
    ObjectPath(String),
    /// `g`, on the wire with a length of one byte
    Signature(String),
    /// `a..`: the type of the elements, and the elements
    Array(String, Vec<Value>),
    /// `(..)`
    Struct(Vec<Value>),
    /// `a{..}`: the type of the keys, the type of the values, and the entries
    Dict(String, String, Vec<(Value, Value)>),
    /// `v`
    Variant(Box<Value>),
}

/// A [`Value`] as a mathematical value.
pub enum ValueView {
    Byte(u8),
    Bool(bool),
    Int16(i16),
    Uint16(u16),
    Int32(i32),
    Uint32(u32),
    Int64(i64),
    Uint64(u64),
    Double(u64),
    String(Seq<char>),
    ObjectPath(Seq<char>),
    Signature(Seq<char>),
    Array(Seq<char>, Seq<ValueView>),
    Struct(Seq<ValueView>),
    Dict(Seq<char>, Seq<char>, Seq<(ValueView, ValueView)>),
    Variant(Box<ValueView>),
}

impl View for Value {
    type V = ValueView;

    open spec fn view(&self) -> ValueView {
        model(*self)
    }
}

/// The mathematical value of a [`Value`].
pub open spec fn model(v: Value) -> ValueView
    decreases v,
{
    match v {
        Value::Byte(x) => ValueView::Byte(x),
        Value::Bool(x) => ValueView::Bool(x),
        Value::Int16(x) => ValueView::Int16(x),
        Value::Uint16(x) => ValueView::Uint16(x),
        Value::Int32(x) => ValueView::Int32(x),
        Value::Uint32(x) => ValueView::Uint32(x),
        Value::Int64(x) => ValueView::Int64(x),
        Value::Uint64(x) => ValueView::Uint64(x),
        Value::Double(x) => ValueView::Double(x),
        Value::String(s) => ValueView::String(s@),
        Value::ObjectPath(s) => ValueView::ObjectPath(s@),
        Value::Signature(s) => ValueView::Signature(s@),
        Value::Array(t, items) => ValueView::Array(
            t@,
            Seq::new(
                items@.len(),
                |i: int|
                    if 0 <= i < items@.len() {
                        model(items@[i])
                    } else {
                        arbitrary()
                    },
            ),
        ),
        Value::Struct(items) => ValueView::Struct(
            Seq::new(
                items@.len(),
                |i: int|
                    if 0 <= i < items@.len() {
                        model(items@[i])
                    } else {
                        arbitrary()
                    },
            ),
        ),
        Value::Dict(k, t, entries) => ValueView::Dict(
            k@,
            t@,
            Seq::new(
                entries@.len(),
                |i: int|
                    if 0 <= i < entries@.len() {
                        (model(entries@[i].0), model(entries@[i].1))
                    } else {
                        arbitrary()
                    },
            ),
        ),
        Value::Variant(b) => ValueView::Variant(Box::new(model(*b))),
    }
}

/// The mathematical values of a list.
pub open spec fn models(v: Seq<Value>) -> Seq<ValueView> {
    Seq::new(v.len(), |i: int| v[i]@)
}

/// The mathematical values of a list of entries.
pub open spec fn entry_models(v: Seq<(Value, Value)>) -> Seq<(ValueView, ValueView)> {
    Seq::new(v.len(), |i: int| (v[i].0@, v[i].1@))
}

/// The view of a container, by the views of what it holds.
pub broadcast proof fn lemma_model_containers(v: Value)
    ensures
        #[trigger] v@ == match v {
            Value::Array(t, items) => ValueView::Array(t@, models(items@)),
            Value::Struct(items) => ValueView::Struct(models(items@)),
            Value::Dict(k, t, entries) => ValueView::Dict(k@, t@, entry_models(entries@)),
            Value::Variant(b) => ValueView::Variant(Box::new(b@)),
            _ => v@,
        },
{
    match v {
        Value::Array(t, items) => {
            assert(v@->Array_1 =~= models(items@));
        },
        Value::Struct(items) => {
            assert(v@->Struct_0 =~= models(items@));
        },
        Value::Dict(k, t, entries) => {
            assert(v@->Dict_2 =~= entry_models(entries@));
        },
        _ => {},
    }
}

/// The signature of a value.
pub open spec fn sig_of(v: ValueView) -> Seq<char>
    decreases v,
{
    match v {
        ValueView::Byte(_) => seq!['y'],
        ValueView::Bool(_) => seq!['b'],
        ValueView::Int16(_) => seq!['n'],
        ValueView::Uint16(_) => seq!['q'],
        ValueView::Int32(_) => seq!['i'],
        ValueView::Uint32(_) => seq!['u'],
        ValueView::Int64(_) => seq!['x'],
        ValueView::Uint64(_) => seq!['t'],
        ValueView::Double(_) => seq!['d'],
        ValueView::String(_) => seq!['s'],
        ValueView::ObjectPath(_) => seq!['o'],
        ValueView::Signature(_) => seq!['g'],
        ValueView::Array(t, _) => seq!['a'] + t,
        ValueView::Struct(items) => seq!['('] + sigs_of(items) + seq![')'],
        ValueView::Dict(k, t, _) => seq!['a', '{'] + k + t + seq!['}'],
        ValueView::Variant(_) => seq!['v'],
    }
}

/// The signatures of a list of values, one after the other.
pub open spec fn sigs_of(items: Seq<ValueView>) -> Seq<char>
    decreases items,
{
    if items.len() == 0 {
        seq![]
    } else {
        sig_of(items[0]) + sigs_of(items.drop_first())
    }
}

/// Appends the signatures of a list of values.
pub(crate) fn push_signatures(out: &mut String, items: &Vec<Value>)
    ensures
        final(out)@ == old(out)@ + sigs_of(models(items@)),
    decreases items,
{
    let mut i: usize = 0;
    let ghost start = out@;
    assert(models(items@).skip(0) =~= models(items@));
    while i < items.len()
        invariant
            i <= items@.len(),
            start + sigs_of(models(items@)) == out@ + sigs_of(models(items@).skip(i as int)),
        decreases items@.len() - i,
    {
        assert(decreases_to!(items => items@));
        assert(models(items@).skip(i as int).drop_first() =~= models(items@).skip(i + 1));
        let s = items[i].signature();
        let ghost before = out@;
        out.append(&s);
        assert(before + (s@ + sigs_of(models(items@).skip(i + 1))) =~= out@ + sigs_of(
            models(items@).skip(i + 1),
        ));
        i += 1;
    }
    assert(out@ + sigs_of(models(items@).skip(i as int)) =~= out@);
}

impl Value {
    /// The signature of the value.
    pub fn signature(&self) -> (r: String)
        ensures
            r@ == sig_of(self@),
        decreases self,
    {
        broadcast use lemma_model_containers;

        let mut out = String::new();
        match self {
            Value::Byte(_) => out.push('y'),
            Value::Bool(_) => out.push('b'),
            Value::Int16(_) => out.push('n'),
            Value::Uint16(_) => out.push('q'),
            Value::Int32(_) => out.push('i'),
            Value::Uint32(_) => out.push('u'),
            Value::Int64(_) => out.push('x'),
            Value::Uint64(_) => out.push('t'),
            Value::Double(_) => out.push('d'),
            Value::String(_) => out.push('s'),
            Value::ObjectPath(_) => out.push('o'),
            Value::Signature(_) => out.push('g'),
            Value::Array(elem, _) => {
                out.push('a');
                out.append(elem);
            },
            Value::Struct(items) => {
                out.push('(');
                push_signatures(&mut out, items);
                out.push(')');
            },
            Value::Dict(k, v, _) => {
                out.push('a');
                out.push('{');
                out.append(k);
                out.append(v);
                out.push('}');
            },
            Value::Variant(_) => out.push('v'),
        }
        assert(out@ =~= sig_of(self@));
        out
    }

    /// The text of a string, an object path or a signature.
    pub fn as_str(&self) -> (r: Option<&str>)
        ensures
            match r {
                Some(s) => text_of(self@) == Some(s@),
                None => text_of(self@) is None,
            },
    {
        match self {
            Value::String(s) => Some(s.as_str()),
            Value::ObjectPath(s) => Some(s.as_str()),
            Value::Signature(s) => Some(s.as_str()),
            _ => None,
        }
    }

    /// The truth value of a boolean.
    pub fn as_bool(&self) -> (r: Option<bool>)
        ensures
            r == match self@ {
                ValueView::Bool(b) => Some(b),
                _ => None,
            },
    {
        match self {
            Value::Bool(b) => Some(*b),
            _ => None,
        }
    }

    /// The number of a 32-bit unsigned value.
    pub fn as_u32(&self) -> (r: Option<u32>)
        ensures
            r == u32_of(self@),
    {
        match self {
            Value::Uint32(v) => Some(*v),
            _ => None,
        }
    }

    /// The number of a signed value of 64 or 32 bits.
    pub fn as_i64(&self) -> (r: Option<i64>)
        ensures
            r == match self@ {
                ValueView::Int64(v) => Some(v),
                ValueView::Int32(v) => Some(v as i64),
                _ => None,
            },
    {
        match self {
            Value::Int64(v) => Some(*v),
            Value::Int32(v) => Some(*v as i64),
            _ => None,
        }
    }

    /// The number of a byte.
    pub fn as_byte(&self) -> (r: Option<u8>)
        ensures
            r == match self@ {
                ValueView::Byte(v) => Some(v),
                _ => None,
            },
    {
        match self {
            Value::Byte(v) => Some(*v),
            _ => None,
        }
    }

    /// The elements of an array.
    pub fn as_array(&self) -> (r: Option<&Vec<Value>>)
        ensures
            match r {
                Some(items) => self@ is Array && self@->Array_1 == models(items@),
                None => !(self@ is Array),
            },
    {
        proof {
            lemma_model_containers(*self);
        }
        match self {
            Value::Array(_, items) => Some(items),
            _ => None,
        }
    }

    /// The entries of a dictionary.
    pub fn as_dict(&self) -> (r: Option<&Vec<(Value, Value)>>)
        ensures
            match r {
                Some(entries) => self@ is Dict && self@->Dict_2 == entry_models(entries@),
                None => !(self@ is Dict),
            },
    {
        proof {
            lemma_model_containers(*self);
        }
        match self {
            Value::Dict(_, _, entries) => Some(entries),
            _ => None,
        }
    }

    /// The value inside all the variants around it.
    pub fn unwrap_variant(&self) -> (r: &Value)
        ensures
            r@ == unwrapped(self@),
        decreases self,
    {
        match self {
            Value::Variant(inner) => inner.unwrap_variant(),
            other => other,
        }
    }

    /// The compact form of the value, for log lines.
    pub fn display(&self) -> (r: Vec<Piece>)
        ensures
            pieces(r@) == shown(self@),
    {
        let mut out: Vec<Piece> = Vec::new();
        show(&mut out, self);
        assert(pieces(out@) =~= shown(self@));
        out
    }
}

/// The text of a string, an object path or a signature.
pub open spec fn text_of(v: ValueView) -> Option<Seq<char>> {
    match v {
        ValueView::String(s) => Some(s),
        ValueView::ObjectPath(s) => Some(s),
        ValueView::Signature(s) => Some(s),
        _ => None,
    }
}

/// The number of a 32-bit unsigned value.
pub open spec fn u32_of(v: ValueView) -> Option<u32> {
    match v {
        ValueView::Uint32(x) => Some(x),
        _ => None,
    }
}

/// The value inside all the variants around it.
pub open spec fn unwrapped(v: ValueView) -> ValueView
    decreases v,
{
    match v {
        ValueView::Variant(inner) => unwrapped(*inner),
        _ => v,
    }
}

/// A string value.
pub fn vstr(s: &str) -> (r: Value)
    ensures
        r@ == ValueView::String(s@),
{
    Value::String(s.to_string())
}

/// A value in a variant.
pub fn vvar(v: Value) -> (r: Value)
    ensures
        r@ == ValueView::Variant(Box::new(v@)),
{
    Value::Variant(Box::new(v))
}

/// A part of what [`Value::display`] shows: a text, or a floating-point number,
/// given by the bits of its IEEE 754 form.
#[derive(Debug, PartialEq)]
pub enum Piece {
    Text(String),
    Double(u64),
}

/// A [`Piece`] as a mathematical value.
pub enum PieceView {
    Text(Seq<char>),
    Double(u64),
}

impl View for Piece {
    type V = PieceView;

    open spec fn view(&self) -> PieceView {
        match self {
            Piece::Text(s) => PieceView::Text(s@),
            Piece::Double(x) => PieceView::Double(*x),
        }
    }
}

/// The mathematical values of a list of pieces.
pub open spec fn pieces(v: Seq<Piece>) -> Seq<PieceView> {
    Seq::new(v.len(), |i: int| v[i]@)
}

/// A text as the only piece.
pub open spec fn text(s: Seq<char>) -> Seq<PieceView> {
    seq![PieceView::Text(s)]
}

/// The compact form of a value, for log lines.
pub open spec fn shown(v: ValueView) -> Seq<PieceView>
    decreases v,
{
    match v {
        ValueView::Byte(x) => text(decimal(x as nat)),
        ValueView::Bool(b) => text(if b { "true"@ } else { "false"@ }),
        ValueView::Int16(x) => text(signed_decimal(x as int)),
        ValueView::Uint16(x) => text(decimal(x as nat)),
        ValueView::Int32(x) => text(signed_decimal(x as int)),
        ValueView::Uint32(x) => text(decimal(x as nat)),
        ValueView::Int64(x) => text(signed_decimal(x as int)),
        ValueView::Uint64(x) => text(decimal(x as nat)),
        ValueView::Double(x) => seq![PieceView::Double(x)],
        ValueView::String(s) => text(s),
        ValueView::ObjectPath(s) => text(s),
        ValueView::Signature(s) => text(s),
        ValueView::Array(t, items) => text("a"@ + t + "["@) + shown_list(items) + text("]"@),
        ValueView::Struct(items) => text("("@) + shown_list(items) + text(")"@),
        ValueView::Dict(_, _, entries) => text("{"@) + shown_entries(entries) + text("}"@),
        ValueView::Variant(b) => text("v("@) + shown(*b) + text(")"@),
    }
}

/// The compact forms of a list, with commas between them.
pub open spec fn shown_list(items: Seq<ValueView>) -> Seq<PieceView>
    decreases items,
{
    if items.len() == 0 {
        seq![]
    } else if items.len() == 1 {
        shown(items[0])
    } else {
        shown_list(items.drop_last()) + text(", "@) + shown(items.last())
    }
}

/// The compact forms of dictionary entries, with commas between them.
pub open spec fn shown_entries(entries: Seq<(ValueView, ValueView)>) -> Seq<PieceView>
    decreases entries,
{
    if entries.len() == 0 {
        seq![]
    } else {
        let last = entries.last();
        let one = shown(last.0) + text(": "@) + shown(last.1);
        if entries.len() == 1 {
            one
        } else {
            shown_entries(entries.drop_last()) + text(", "@) + one
        }
    }
}

/// Appends a piece.
fn show_piece(out: &mut Vec<Piece>, p: Piece)
    ensures
        pieces(final(out)@) == pieces(old(out)@).push(p@),
{
    out.push(p);
    assert(pieces(out@) =~= pieces(old(out)@).push(p@));
}

/// Appends a text.
fn show_text(out: &mut Vec<Piece>, s: &str)
    ensures
        pieces(final(out)@) == pieces(old(out)@) + text(s@),
{
    show_piece(out, Piece::Text(s.to_string()));
    assert(pieces(out@) =~= pieces(old(out)@) + text(s@));
}

/// Appends the compact form of a value.
fn show(out: &mut Vec<Piece>, v: &Value)
    ensures
        pieces(final(out)@) == pieces(old(out)@) + shown(v@),
    decreases v,
{
    proof {
        lemma_model_containers(*v);
    }
    match v {
        Value::Byte(x) => show_text(out, &decimal_of(*x as u64)),
        Value::Bool(b) => show_text(
            out,
            if *b {
                "true"
            } else {
                "false"
            },
        ),
        Value::Int16(x) => show_text(out, &signed_decimal_of(*x as i64)),
        Value::Uint16(x) => show_text(out, &decimal_of(*x as u64)),
        Value::Int32(x) => show_text(out, &signed_decimal_of(*x as i64)),
        Value::Uint32(x) => show_text(out, &decimal_of(*x as u64)),
        Value::Int64(x) => show_text(out, &signed_decimal_of(*x)),
        Value::Uint64(x) => show_text(out, &decimal_of(*x)),
        Value::Double(x) => show_piece(out, Piece::Double(*x)),
        Value::String(s) => show_text(out, s),
        Value::ObjectPath(s) => show_text(out, s),
        Value::Signature(s) => show_text(out, s),
        Value::Array(elem, items) => {
            show_text(out, &"a".to_string().concat(elem).concat("["));
            show_list(out, items);
            show_text(out, "]");
        },
        Value::Struct(items) => {
            show_text(out, "(");
            show_list(out, items);
            show_text(out, ")");
        },
        Value::Dict(_, _, entries) => {
            show_text(out, "{");
            show_entries(out, entries);
            show_text(out, "}");
        },
        Value::Variant(inner) => {
            show_text(out, "v(");
            show(out, inner);
            show_text(out, ")");
        },
    }
    assert(pieces(out@) =~= pieces(old(out)@) + shown(v@));
}

fn show_list(out: &mut Vec<Piece>, items: &Vec<Value>)
    ensures
        pieces(final(out)@) == pieces(old(out)@) + shown_list(models(items@)),
    decreases items,
{
    let ghost all = models(items@);
    let ghost start = pieces(out@);
    let mut i: usize = 0;
    while i < items.len()
        invariant
            i <= items@.len(),
            all == models(items@),
            pieces(out@) == start + shown_list(all.take(i as int)),
            decreases_to!(items => items@),
        decreases items@.len() - i,
    {
        if i > 0 {
            show_text(out, ", ");
        }
        show(out, &items[i]);
        proof {
            let next = all.take(i + 1);
            assert(next.drop_last() =~= all.take(i as int));
            assert(next.last() == items@[i as int]@);
            assert(pieces(out@) =~= start + shown_list(next));
        }
        i += 1;
    }
    assert(all.take(i as int) =~= all);
}

fn show_entries(out: &mut Vec<Piece>, entries: &Vec<(Value, Value)>)
    ensures
        pieces(final(out)@) == pieces(old(out)@) + shown_entries(entry_models(entries@)),
    decreases entries,
{
    let ghost all = entry_models(entries@);
    let ghost start = pieces(out@);
    let mut i: usize = 0;
    while i < entries.len()
        invariant
            i <= entries@.len(),
            all == entry_models(entries@),
            pieces(out@) == start + shown_entries(all.take(i as int)),
            decreases_to!(entries => entries@),
        decreases entries@.len() - i,
    {
        if i > 0 {
            show_text(out, ", ");
        }
        show(out, &entries[i].0);
        show_text(out, ": ");
        show(out, &entries[i].1);
        proof {
            let next = all.take(i + 1);
            assert(next.drop_last() =~= all.take(i as int));
            assert(next.last() == (entries@[i as int].0@, entries@[i as int].1@));
            assert(pieces(out@) =~= start + shown_entries(next));
        }
        i += 1;
    }
    assert(all.take(i as int) =~= all);
}

/// A value equal to the given one.
fn copy_value(v: &Value) -> (r: Value)
    ensures
        r@ == v@,
    decreases v,
{
    broadcast use lemma_model_containers;

    match v {
        Value::Byte(x) => Value::Byte(*x),
        Value::Bool(x) => Value::Bool(*x),
        Value::Int16(x) => Value::Int16(*x),
        Value::Uint16(x) => Value::Uint16(*x),
        Value::Int32(x) => Value::Int32(*x),
        Value::Uint32(x) => Value::Uint32(*x),
        Value::Int64(x) => Value::Int64(*x),
        Value::Uint64(x) => Value::Uint64(*x),
        Value::Double(x) => Value::Double(*x),
        Value::String(s) => Value::String(s.clone()),
        Value::ObjectPath(s) => Value::ObjectPath(s.clone()),
        Value::Signature(s) => Value::Signature(s.clone()),
        Value::Array(t, items) => Value::Array(t.clone(), copy_values(items)),
        Value::Struct(items) => Value::Struct(copy_values(items)),
        Value::Dict(k, t, entries) => {
            let mut out: Vec<(Value, Value)> = Vec::new();
            let mut i: usize = 0;
            while i < entries.len()
                invariant
                    i <= entries@.len(),
                    entry_models(out@) == entry_models(entries@).take(i as int),
                    decreases_to!(v => entries@),
                decreases entries@.len() - i,
            {
                let key = copy_value(&entries[i].0);
                let val = copy_value(&entries[i].1);
                let ghost before = out@;
                out.push((key, val));
                assert(entry_models(out@) =~= entry_models(before).push((key@, val@)));
                i += 1;
                assert(entry_models(out@) =~= entry_models(entries@).take(i as int));
            }
            assert(entry_models(out@) =~= entry_models(entries@));
            Value::Dict(k.clone(), t.clone(), out)
        },
        Value::Variant(b) => Value::Variant(Box::new(copy_value(b))),
    }
}

fn copy_values(items: &Vec<Value>) -> (r: Vec<Value>)
    ensures
        models(r@) == models(items@),
    decreases items,
{
    let mut out: Vec<Value> = Vec::new();
    let mut i: usize = 0;
    while i < items.len()
        invariant
            i <= items@.len(),
            models(out@) == models(items@).take(i as int),
            decreases_to!(items => items@),
        decreases items@.len() - i,
    {
        let one = copy_value(&items[i]);
        let ghost before = out@;
        out.push(one);
        assert(models(out@) =~= models(before).push(one@));
        i += 1;
        assert(models(out@) =~= models(items@).take(i as int));
    }
    out
}

impl Clone for Value {
    fn clone(&self) -> (r: Self)
        ensures
            r@ == self@,
    {
        copy_value(self)
    }
}

} // verus!

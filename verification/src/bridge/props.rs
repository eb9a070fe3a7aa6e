//! The properties of a notification, and the popup that is made of them.

use crate::bridge::dedup::{Fingerprint, FingerprintView};
use crate::dbus::session::property_models;
use crate::dbus::value::{text_of, Value, ValueView};
use crate::table::{key_index, lemma_key_absent, lemma_key_found, lookup};
use crate::text::{
    chars_of, has_prefix, matches_at, same, stands_at, trim_back, trim_front, trim_range, trimmed,
    white,
};
use vstd::prelude::*;
use vstd::string::*;

verus! {

/// The properties of a notification.
#[derive(Debug)]
pub struct Props {
    entries: Vec<(String, Value)>,
}

impl View for Props {
    type V = Seq<(Seq<char>, ValueView)>;

    closed spec fn view(&self) -> Seq<(Seq<char>, ValueView)> {
        property_models(self.entries@)
    }
}

/// The text of a property, or the empty text.
pub open spec fn text_prop(p: Seq<(Seq<char>, ValueView)>, key: Seq<char>) -> Seq<char> {
    match lookup(p, key) {
        Some(v) => match text_of(v) {
            Some(s) => s,
            None => seq![],
        },
        None => seq![],
    }
}

/// The truth value of a property, or false.
pub open spec fn bool_prop(p: Seq<(Seq<char>, ValueView)>, key: Seq<char>) -> bool {
    lookup(p, key) == Some(ValueView::Bool(true))
}

/// The first of two texts, unless it is empty.
pub open spec fn or_else_text(a: Seq<char>, b: Seq<char>) -> Seq<char> {
    if a.len() == 0 {
        b
    } else {
        a
    }
}

/// What a notification says.
pub open spec fn content_key(p: Seq<(Seq<char>, ValueView)>) -> FingerprintView {
    FingerprintView {
        ticker: text_prop(p, "ticker"@),
        title: text_prop(p, "title"@),
        text: text_prop(p, "text"@),
    }
}

/// The ticker without the title and the colon that it starts with.
pub open spec fn without_title(ticker: Seq<char>, title: Seq<char>) -> Seq<char> {
    if title.len() > 0 && has_prefix(ticker, title) {
        let rest = ticker.skip(title.len() as int);
        trimmed(
            if rest.len() > 0 && (rest[0] == ':' || rest[0] == '：') {
                rest.drop_first()
            } else {
                rest
            },
        )
    } else {
        ticker
    }
}

/// `part` stands somewhere in `s`.
pub open spec fn has_part(s: Seq<char>, part: Seq<char>) -> bool {
    exists|i: nat| #[trigger] stands_at(part, s, i)
}

/// The body of a popup: the text, and what the ticker says beyond the title and the
/// text.
pub open spec fn body_of(f: FingerprintView) -> Seq<char> {
    let rest = without_title(f.ticker, f.title);
    if f.text.len() == 0 {
        rest
    } else if rest.len() > 0 && !has_part(rest, f.text) && !has_part(f.text, rest) {
        rest + "\n"@ + f.text
    } else {
        f.text
    }
}

impl Props {
    /// The properties in a list.
    pub fn from_entries(entries: Vec<(String, Value)>) -> (r: Self)
        ensures
            r@ == property_models(entries@),
    {
        Props { entries }
    }

    /// The value of a property.
    pub fn get(&self, key: &str) -> (r: Option<&Value>)
        ensures
            match r {
                Some(v) => lookup(self@, key@) == Some(v@),
                None => lookup(self@, key@) is None,
            },
    {
        let ghost all = self@;
        let mut i: usize = 0;
        assert(all.skip(0) =~= all);
        while i < self.entries.len()
            invariant
                i <= self.entries@.len(),
                all == self@,
                all.len() == self.entries@.len(),
                key_index(all, key@) == i + key_index(all.skip(i as int), key@),
            decreases self.entries@.len() - i,
        {
            assert(all.skip(i as int)[0] == (
                self.entries@[i as int].0@,
                self.entries@[i as int].1@,
            ));
            if same(&self.entries[i].0, key) {
                return Some(&self.entries[i].1);
            }
            assert(all.skip(i as int).drop_first() =~= all.skip(i + 1));
            i += 1;
        }
        None
    }

    /// The text of a property, or the empty text.
    pub fn str(&self, key: &str) -> (r: &str)
        ensures
            r@ == text_prop(self@, key@),
    {
        let found = match self.get(key) {
            Some(v) => v.as_str(),
            None => None,
        };
        match found {
            Some(s) => s,
            None => {
                proof {
                    reveal_strlit("");
                    assert(""@ =~= seq![]);
                }
                ""
            },
        }
    }

    /// The truth value of a property, or false.
    pub fn bool(&self, key: &str) -> (r: bool)
        ensures
            r == bool_prop(self@, key@),
    {
        match self.get(key) {
            Some(v) => match v.as_bool() {
                Some(b) => b,
                None => false,
            },
            None => false,
        }
    }

    /// The name of the application.
    pub fn app(&self) -> (r: &str)
        ensures
            r@ == text_prop(self@, "appName"@),
    {
        self.str("appName")
    }

    /// The lasting id of the notification, or the given one where it has none.
    pub fn internal_id(&self, fallback: &str) -> (r: String)
        ensures
            r@ == or_else_text(text_prop(self@, "internalId"@), fallback@),
    {
        let v = self.str("internalId");
        if v.is_empty() {
            fallback.to_string()
        } else {
            v.to_string()
        }
    }

    /// The path of the icon.
    pub fn icon(&self) -> (r: Option<&str>)
        ensures
            match r {
                Some(s) => icon_of(self@) == Some(s@),
                None => icon_of(self@) is None,
            },
    {
        if !self.bool("hasIcon") {
            return None;
        }
        let p = self.str("iconPath");
        if p.is_empty() {
            None
        } else {
            Some(p)
        }
    }

    /// What the notification says.
    pub fn fingerprint(&self) -> (r: Fingerprint)
        ensures
            r@ == content_key(self@),
    {
        Fingerprint {
            ticker: self.str("ticker").to_string(),
            title: self.str("title").to_string(),
            text: self.str("text").to_string(),
        }
    }

    /// The title of a popup: the title, or the ticker where there is none.
    pub fn summary(&self) -> (r: &str)
        ensures
            r@ == or_else_text(text_prop(self@, "title"@), text_prop(self@, "ticker"@)),
    {
        let t = self.str("title");
        if t.is_empty() {
            self.str("ticker")
        } else {
            t
        }
    }

    /// The body of a popup.
    pub fn content(&self) -> (r: String)
        ensures
            r@ == body_of(content_key(self@)),
    {
        let ticker = self.str("ticker");
        let title = self.str("title");
        let text = self.str("text");
        let rest = strip_title_prefix(ticker, title);
        if !text.is_empty() {
            if !rest.is_empty() && !contains(rest, text) && !contains(text, rest) {
                return rest.to_string().concat("\n").concat(text);
            }
            return text.to_string();
        }
        rest.to_string()
    }
}

/// The path of the icon of a notification that has one.
pub open spec fn icon_of(p: Seq<(Seq<char>, ValueView)>) -> Option<Seq<char>> {
    let path = text_prop(p, "iconPath"@);
    if bool_prop(p, "hasIcon"@) && path.len() > 0 {
        Some(path)
    } else {
        None
    }
}

/// Whether a text stands somewhere in another.
pub fn contains(s: &str, part: &str) -> (r: bool)
    ensures
        r == has_part(s@, part@),
{
    let a = chars_of(s);
    let b = chars_of(part);
    let n: usize = a.len();
    let mut i: usize = 0;
    while i <= n
        invariant
            a@ == s@,
            b@ == part@,
            n == a@.len(),
            i <= n + 1,
            forall|k: nat| k < i ==> !#[trigger] stands_at(part@, s@, k),
        ensures
            forall|k: nat| k <= n ==> !#[trigger] stands_at(part@, s@, k),
        decreases n + 1 - i,
    {
        let ghost tail = a@.subrange(i as int, n as int);
        if matches_at(&a, i, n, &b) {
            proof {
                assert(tail.take(b@.len() as int) =~= s@.subrange(i as int, i + b@.len()));
                assert(stands_at(part@, s@, i as nat));
            }
            return true;
        }
        proof {
            if stands_at(part@, s@, i as nat) {
                assert(tail.take(b@.len() as int) =~= s@.subrange(i as int, i + b@.len()));
            }
        }
        if i == n {
            break ;
        }
        i += 1;
    }
    assert forall|k: nat| !#[trigger] stands_at(part@, s@, k) by {
        if k > n {
            assert(k + part@.len() > s@.len());
        }
    }
    false
}

/// Takes the title off the start of a ticker of the form "title: text". A ticker of
/// another form stays as it is.
pub fn strip_title_prefix<'a>(ticker: &'a str, title: &str) -> (r: &'a str)
    ensures
        r@ == without_title(ticker@, title@),
{
    let a = chars_of(ticker);
    let b = chars_of(title);
    let n: usize = a.len();
    assert(a@.subrange(0, n as int) =~= ticker@);
    if b.len() == 0 || !matches_at(&a, 0, n, &b) {
        return ticker;
    }
    let mut start: usize = b.len();
    let ghost rest = ticker@.skip(title@.len() as int);
    if start < n && (a[start] == ':' || a[start] == '：') {
        assert(rest[0] == a@[start as int]);
        start += 1;
        assert(a@.subrange(start as int, n as int) =~= rest.drop_first());
    } else {
        assert(start < n ==> rest[0] == a@[start as int]);
        assert(a@.subrange(start as int, n as int) =~= rest);
    }
    let (x, y) = trim_range(&a, start, n);
    ticker.substring_char(x, y)
}

/// Two notifications say the same only where they have the same ticker, title and text: a
/// change in any of the three counts.
pub proof fn law_any_field_counts(p: Seq<(Seq<char>, ValueView)>, q: Seq<(Seq<char>, ValueView)>)
    ensures
        content_key(p) == content_key(q) <==> {
            &&& text_prop(p, "ticker"@) == text_prop(q, "ticker"@)
            &&& text_prop(p, "title"@) == text_prop(q, "title"@)
            &&& text_prop(p, "text"@) == text_prop(q, "text"@)
        },
{
}

/// A popup shows the whole text of the notification, at its end.
pub proof fn law_text_is_shown(f: FingerprintView)
    ensures
        f.text.len() <= body_of(f).len(),
        f.text.len() > 0 ==> body_of(f).skip(body_of(f).len() - f.text.len()) == f.text,
{
    let n = body_of(f).len() - f.text.len();
    if f.text.len() > 0 {
        assert(body_of(f).skip(n) =~= f.text);
    }
}

proof fn lemma_trim_front_gap(gap: Seq<char>, s: Seq<char>)
    requires
        forall|i: int| 0 <= i < gap.len() ==> white(#[trigger] gap[i]),
        s.len() > 0,
        !white(s[0]),
    ensures
        trim_front(gap + s) == s,
    decreases gap.len(),
{
    if gap.len() == 0 {
        assert(gap + s =~= s);
    } else {
        let rest = gap.drop_first();
        assert forall|i: int| 0 <= i < rest.len() implies white(#[trigger] rest[i]) by {
            assert(rest[i] == gap[i + 1]);
        }
        assert((gap + s)[0] == gap[0]);
        assert((gap + s).drop_first() =~= rest + s);
        lemma_trim_front_gap(rest, s);
    }
}

proof fn lemma_trim_back_gap(s: Seq<char>, gap: Seq<char>)
    requires
        forall|i: int| 0 <= i < gap.len() ==> white(#[trigger] gap[i]),
        s.len() > 0,
        !white(s.last()),
    ensures
        trim_back(s + gap) == s,
    decreases gap.len(),
{
    if gap.len() == 0 {
        assert(s + gap =~= s);
    } else {
        let rest = gap.drop_last();
        assert((s + gap).last() == gap[gap.len() - 1]);
        assert((s + gap).drop_last() =~= s + rest);
        lemma_trim_back_gap(s, rest);
    }
}

/// Where the text is empty and the ticker is the title, a colon of either width and more, the
/// body is what stands behind the colon, without the white space around it.
pub proof fn law_body_from_ticker(
    title: Seq<char>,
    colon: char,
    gap: Seq<char>,
    more: Seq<char>,
    end: Seq<char>,
)
    requires
        title.len() > 0,
        colon == ':' || colon == '：',
        forall|i: int| 0 <= i < gap.len() ==> white(#[trigger] gap[i]),
        forall|i: int| 0 <= i < end.len() ==> white(#[trigger] end[i]),
        more.len() > 0,
        !white(more[0]),
        !white(more.last()),
    ensures
        body_of(
            FingerprintView {
                ticker: title + seq![colon] + gap + more + end,
                title,
                text: Seq::<char>::empty(),
            },
        ) == more,
{
    let ticker = title + seq![colon] + gap + more + end;
    assert(ticker.take(title.len() as int) =~= title);
    let rest = ticker.skip(title.len() as int);
    assert(rest[0] == colon);
    assert(rest.drop_first() =~= gap + (more + end));
    lemma_trim_front_gap(gap, more + end);
    lemma_trim_back_gap(more, end);
}

/// The first property with the given name stands at `i`.
pub open spec fn first_at(p: Seq<(Seq<char>, ValueView)>, key: Seq<char>, i: int) -> bool {
    0 <= i < p.len() && p[i].0 == key && forall|j: int| 0 <= j < i ==> (#[trigger] p[j]).0 != key
}

/// Where a property stands several times, the first counts. The text of a property is that of a
/// string, an object path or a signature; anything else, or nothing, counts as an empty text. A
/// property is true only where it holds the truth value true.
pub proof fn law_property_values(p: Seq<(Seq<char>, ValueView)>, key: Seq<char>, i: int)
    ensures
        first_at(p, key, i) ==> {
            &&& text_prop(p, key) == match p[i].1 {
                ValueView::String(s) => s,
                ValueView::ObjectPath(s) => s,
                ValueView::Signature(s) => s,
                _ => Seq::<char>::empty(),
            }
            &&& bool_prop(p, key) <==> p[i].1 == ValueView::Bool(true)
        },
        (forall|j: int| 0 <= j < p.len() ==> (#[trigger] p[j]).0 != key) ==> text_prop(p, key)
            == Seq::<char>::empty() && !bool_prop(p, key),
{
    if first_at(p, key, i) {
        lemma_key_found(p, key, i);
    }
    if forall|j: int| 0 <= j < p.len() ==> (#[trigger] p[j]).0 != key {
        lemma_key_absent(p, key);
    }
}

/// What the fingerprint of a notification is made of, and which icon it has: each part by the
/// name of its property.
pub proof fn law_property_names(p: Seq<(Seq<char>, ValueView)>)
    ensures
        content_key(p).ticker == text_prop(p, seq!['t', 'i', 'c', 'k', 'e', 'r']),
        content_key(p).title == text_prop(p, seq!['t', 'i', 't', 'l', 'e']),
        content_key(p).text == text_prop(p, seq!['t', 'e', 'x', 't']),
        ({
            let path = text_prop(p, seq!['i', 'c', 'o', 'n', 'P', 'a', 't', 'h']);
            let with_icon = bool_prop(p, seq!['h', 'a', 's', 'I', 'c', 'o', 'n']);
            &&& with_icon && path.len() > 0 ==> icon_of(p) == Some(path)
            &&& !with_icon || path.len() == 0 ==> icon_of(p) is None
        }),
{
    reveal_strlit("ticker");
    reveal_strlit("title");
    reveal_strlit("text");
    reveal_strlit("iconPath");
    reveal_strlit("hasIcon");
    assert("ticker"@ =~= seq!['t', 'i', 'c', 'k', 'e', 'r']);
    assert("title"@ =~= seq!['t', 'i', 't', 'l', 'e']);
    assert("text"@ =~= seq!['t', 'e', 'x', 't']);
    assert("iconPath"@ =~= seq!['i', 'c', 'o', 'n', 'P', 'a', 't', 'h']);
    assert("hasIcon"@ =~= seq!['h', 'a', 's', 'I', 'c', 'o', 'n']);
}

/// `a` stands in `b`: something, perhaps nothing, is before it and behind it.
pub open spec fn stands_in(a: Seq<char>, b: Seq<char>) -> bool {
    exists|x: Seq<char>, y: Seq<char>| b == #[trigger] (x + a + y)
}

proof fn lemma_stands_in(a: Seq<char>, b: Seq<char>)
    ensures
        stands_in(a, b) <==> has_part(b, a),
{
    if has_part(b, a) {
        let i = choose|i: nat| stands_at(a, b, i);
        let x = b.take(i as int);
        let y = b.skip((i + a.len()) as int);
        assert(b =~= x + a + y);
    }
    if stands_in(a, b) {
        let (x, y) = choose|x: Seq<char>, y: Seq<char>| b == #[trigger] (x + a + y);
        assert(b.subrange(x.len() as int, (x.len() + a.len()) as int) =~= a);
        assert(stands_at(a, b, x.len()));
    }
}

/// The body of a popup is the text, and before it, on lines of its own, what the ticker says
/// beyond the title: that is left out where it is empty, or where it or the text stands in the
/// other. Without a text, the body is what the ticker says beyond the title. So it is for any
/// title.
pub proof fn law_body(f: FingerprintView)
    ensures
        ({
            let rest = without_title(f.ticker, f.title);
            let body = body_of(f);
            &&& f.text.len() == 0 ==> body == rest
            &&& f.text.len() > 0 && rest.len() > 0 && !stands_in(rest, f.text) && !stands_in(
                f.text,
                rest,
            ) ==> body == rest + seq!['\n'] + f.text
            &&& f.text.len() > 0 && (rest.len() == 0 || stands_in(rest, f.text) || stands_in(
                f.text,
                rest,
            )) ==> body == f.text
        }),
{
    reveal_strlit("\n");
    assert("\n"@ =~= seq!['\n']);
    let rest = without_title(f.ticker, f.title);
    lemma_stands_in(rest, f.text);
    lemma_stands_in(f.text, rest);
}

/// What a ticker says beyond the title: where it begins with a title that is not empty, what is
/// behind the title and behind one colon of either width, if one follows, without the white
/// space around it; and else the whole ticker.
pub proof fn law_beyond_title(title: Seq<char>, colon: Seq<char>, more: Seq<char>)
    requires
        title.len() > 0,
        colon == seq![':'] || colon == seq!['：'] || (colon.len() == 0 && (more.len() == 0 || (
        more[0] != ':' && more[0] != '：'))),
    ensures
        without_title(title + colon + more, title) == trimmed(more),
{
    let ticker = title + colon + more;
    assert(ticker.take(title.len() as int) =~= title);
    let rest = ticker.skip(title.len() as int);
    assert(rest =~= colon + more);
    if colon.len() > 0 {
        assert(rest.drop_first() =~= more);
    } else {
        assert(rest =~= more);
    }
}

/// A ticker that does not begin with the title says all that it says beyond the title.
pub proof fn law_other_ticker(ticker: Seq<char>, title: Seq<char>)
    requires
        title.len() == 0 || !exists|more: Seq<char>| ticker == #[trigger] (title + more),
    ensures
        without_title(ticker, title) == ticker,
{
    if title.len() > 0 && has_prefix(ticker, title) {
        assert(ticker =~= title + ticker.skip(title.len() as int));
    }
}

} // verus!

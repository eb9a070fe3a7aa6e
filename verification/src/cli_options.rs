//! What a command line asks for, option by option.

use crate::cli::{
    args_from, args_of, default_args, has_value, is_switch, lemma_no_equals,
    option_name, own_value, step, takes_value, ArgsView, Progress,
};
use crate::error::ErrorView;
use crate::numeral::is_number;
use crate::text::{has_prefix, index_of, left};
use crate::text_laws::law_first_place;
use vstd::prelude::*;
use vstd::string::*;

verus! {

/// An option as it stands on a command line: its name, its value, if it has one, and whether
/// the value stands behind `=` in the same argument.
pub struct Opt {
    pub name: Seq<char>,
    pub value: Option<Seq<char>>,
    pub joined: bool,
}

impl Opt {
    /// The arguments of the option.
    pub open spec fn words(self) -> Seq<Seq<char>> {
        match self.value {
            None => seq![self.name],
            Some(v) => if self.joined {
                seq![self.name + seq!['='] + v]
            } else {
                seq![self.name, v]
            },
        }
    }

    /// The option takes a value, and its value, if it is to be a number, is one.
    pub open spec fn is_setting(self) -> bool {
        &&& self.value is Some
        &&& {
            ||| self.name == "--app"@
            ||| self.name == "--set-sound"@
            ||| self.name == "--device"@
            ||| self.name == "--sound"@
            ||| self.name == "--notifier"@
            ||| self.name == "--bus"@
            ||| (self.name == "--timeout"@ || self.name == "--interval"@ || self.name
                == "--grace"@) && is_number(self.value->0)
        }
    }

    /// The option stands by itself; a value behind `=` is not looked at.
    pub open spec fn is_mark(self) -> bool {
        ||| self.value is None && self.name == "-h"@
        ||| (self.value is None || self.joined) && {
            ||| self.name == "--help"@
            ||| self.name == "--all"@
            ||| self.name == "--no-sound"@
            ||| self.name == "--list-sounds"@
            ||| self.name == "--dump"@
            ||| self.name == "--verbose"@
        }
    }
}

/// The arguments of options in a row.
pub open spec fn all_words(opts: Seq<Opt>) -> Seq<Seq<char>>
    decreases opts.len(),
{
    if opts.len() == 0 {
        seq![]
    } else {
        all_words(opts.drop_last()) + opts.last().words()
    }
}

/// Each of them is an option that there is.
pub open spec fn all_known(opts: Seq<Opt>) -> bool {
    forall|i: int|
        0 <= i < opts.len() ==> (#[trigger] opts[i]).is_setting() || opts[i].is_mark()
}

/// The values of all the options with a name, in order.
pub open spec fn values_of(opts: Seq<Opt>, name: Seq<char>) -> Seq<Seq<char>>
    decreases opts.len(),
{
    if opts.len() == 0 {
        seq![]
    } else if opts.last().name == name {
        values_of(opts.drop_last(), name).push(opts.last().value->0)
    } else {
        values_of(opts.drop_last(), name)
    }
}

/// The value of the last option with a name.
pub open spec fn last_of(opts: Seq<Opt>, name: Seq<char>) -> Option<Seq<char>> {
    let all = values_of(opts, name);
    if all.len() > 0 {
        Some(all.last())
    } else {
        None
    }
}

/// The value of the last option with a name, or what is usual.
pub open spec fn last_or(opts: Seq<Opt>, name: Seq<char>, usual: Seq<char>) -> Seq<char> {
    match last_of(opts, name) {
        Some(v) => v,
        None => usual,
    }
}

/// An option with a name is there.
pub open spec fn given(opts: Seq<Opt>, name: Seq<char>) -> bool {
    exists|i: int| 0 <= i < opts.len() && (#[trigger] opts[i]).name == name
}

/// What options ask for.
pub open spec fn asked(opts: Seq<Opt>) -> ArgsView {
    ArgsView {
        help: given(opts, "-h"@) || given(opts, "--help"@),
        all: given(opts, "--all"@),
        app: values_of(opts, "--app"@),
        no_sound: given(opts, "--no-sound"@),
        sound: last_of(opts, "--sound"@),
        set_sound: values_of(opts, "--set-sound"@),
        list_sounds: given(opts, "--list-sounds"@),
        interval: last_or(opts, "--interval"@, seq!['1', '.', '0']),
        timeout_s: last_or(opts, "--timeout"@, seq!['1', '0', '.', '0']),
        grace: last_or(opts, "--grace"@, seq!['2', '.', '0']),
        device: values_of(opts, "--device"@),
        dump: given(opts, "--dump"@),
        notifier: last_or(opts, "--notifier"@, seq!['c', 'l', 'i']),
        bus: last_of(opts, "--bus"@),
        verbose: given(opts, "--verbose"@),
    }
}

/// The names are different.
proof fn lemma_names()
    ensures
        forall|name: Seq<char>| #[trigger] takes_value(name) ==> !is_switch(name),
        "--app"@ != "--set-sound"@ && "--app"@ != "--device"@ && "--app"@ != "--sound"@ && "--app"@
            != "--notifier"@ && "--app"@ != "--bus"@ && "--app"@ != "--timeout"@ && "--app"@
            != "--interval"@ && "--app"@ != "--grace"@,
        "--set-sound"@ != "--device"@ && "--set-sound"@ != "--sound"@ && "--set-sound"@
            != "--notifier"@ && "--set-sound"@ != "--bus"@ && "--set-sound"@ != "--timeout"@
            && "--set-sound"@ != "--interval"@ && "--set-sound"@ != "--grace"@,
        "--device"@ != "--sound"@ && "--device"@ != "--notifier"@ && "--device"@ != "--bus"@
            && "--device"@ != "--timeout"@ && "--device"@ != "--interval"@ && "--device"@
            != "--grace"@,
        "--sound"@ != "--notifier"@ && "--sound"@ != "--bus"@ && "--sound"@ != "--timeout"@
            && "--sound"@ != "--interval"@ && "--sound"@ != "--grace"@,
        "--notifier"@ != "--bus"@ && "--notifier"@ != "--timeout"@ && "--notifier"@
            != "--interval"@ && "--notifier"@ != "--grace"@,
        "--bus"@ != "--timeout"@ && "--bus"@ != "--interval"@ && "--bus"@ != "--grace"@,
        "--timeout"@ != "--interval"@ && "--timeout"@ != "--grace"@,
        "--interval"@ != "--grace"@,
        "-h"@ != "--help"@ && "-h"@ != "--all"@ && "-h"@ != "--no-sound"@ && "-h"@
            != "--list-sounds"@ && "-h"@ != "--dump"@ && "-h"@ != "--verbose"@,
        "--help"@ != "--all"@ && "--help"@ != "--no-sound"@ && "--help"@ != "--list-sounds"@
            && "--help"@ != "--dump"@ && "--help"@ != "--verbose"@,
        "--all"@ != "--no-sound"@ && "--all"@ != "--list-sounds"@ && "--all"@ != "--dump"@
            && "--all"@ != "--verbose"@,
        "--no-sound"@ != "--list-sounds"@ && "--no-sound"@ != "--dump"@ && "--no-sound"@
            != "--verbose"@,
        "--list-sounds"@ != "--dump"@ && "--list-sounds"@ != "--verbose"@,
        "--dump"@ != "--verbose"@,
{
    reveal_strlit("-h");
    reveal_strlit("--help");
    reveal_strlit("--all");
    reveal_strlit("--no-sound");
    reveal_strlit("--list-sounds");
    reveal_strlit("--dump");
    reveal_strlit("--verbose");
    reveal_strlit("--app");
    reveal_strlit("--set-sound");
    reveal_strlit("--device");
    reveal_strlit("--sound");
    reveal_strlit("--notifier");
    reveal_strlit("--bus");
    reveal_strlit("--timeout");
    reveal_strlit("--interval");
    reveal_strlit("--grace");
    assert("--app"@[2] == 'a' && "--app"@[3] == 'p' && "--bus"@[2] == 'b' && "--all"@[2] == 'a'
        && "--all"@[3] == 'l' && "--sound"@[2] == 's' && "--grace"@[2] == 'g' && "--notifier"@[2]
        == 'n' && "--notifier"@[4] == 't' && "--interval"@[2] == 'i' && "--no-sound"@[2] == 'n'
        && "--no-sound"@[4] == '-' && "--timeout"@[2] == 't' && "--verbose"@[2] == 'v'
        && "--help"@[2] == 'h' && "--dump"@[2] == 'd');
    assert("-h"@.len() == 2 && "--app"@.len() == 5 && "--bus"@.len() == 5 && "--all"@.len() == 5
        && "--help"@.len() == 6 && "--dump"@.len() == 6 && "--sound"@.len() == 7
        && "--grace"@.len() == 7 && "--device"@.len() == 8 && "--timeout"@.len() == 9
        && "--verbose"@.len() == 9 && "--notifier"@.len() == 10 && "--interval"@.len() == 10
        && "--no-sound"@.len() == 10 && "--set-sound"@.len() == 11 && "--list-sounds"@.len()
        == 13);
}

/// The names of options begin with two hyphens, except the short one, and hold no `=`.
proof fn lemma_name_form(name: Seq<char>)
    requires
        takes_value(name) || is_switch(name),
    ensures
        forall|i: int| 0 <= i < name.len() ==> name[i] != '=',
        name != "-h"@ ==> name.len() >= 2 && has_prefix(name, "--"@),
        !has_value(name),
        name == "-h"@ ==> !has_prefix(name, "--"@),
        !has_prefix("-h"@, "--"@),
{
    reveal_strlit("--");
    reveal_strlit("-h");
    reveal_strlit("--help");
    reveal_strlit("--all");
    reveal_strlit("--no-sound");
    reveal_strlit("--list-sounds");
    reveal_strlit("--dump");
    reveal_strlit("--verbose");
    reveal_strlit("--app");
    reveal_strlit("--set-sound");
    reveal_strlit("--device");
    reveal_strlit("--sound");
    reveal_strlit("--notifier");
    reveal_strlit("--bus");
    reveal_strlit("--timeout");
    reveal_strlit("--interval");
    reveal_strlit("--grace");
    assert("-h"@.take(2)[1] == 'h');
    if name != "-h"@ {
        assert(name.take(2) =~= "--"@);
    }
    lemma_no_equals(name, seq![]);
}

/// An option asks for what it says.
#[verifier::spinoff_prover]
proof fn lemma_asked_more(opts: Seq<Opt>, o: Opt)
    requires
        o.is_setting() || o.is_mark(),
    ensures
        ({
            let more = opts.push(o);
            &&& o.is_setting() ==> asked(more) == crate::cli::valued(asked(opts), o.name, o.value->0)
            &&& o.is_mark() ==> asked(more) == crate::cli::switched(asked(opts), o.name)
        }),
{
    lemma_names();
    let more = opts.push(o);
    assert(more.drop_last() =~= opts);
    assert(forall|name: Seq<char>| #[trigger]
        given(more, name) <==> given(opts, name) || o.name == name) by {
        assert forall|name: Seq<char>| #[trigger]
            given(more, name) <==> given(opts, name) || o.name == name by {
            if given(opts, name) {
                let i = choose|i: int| 0 <= i < opts.len() && (#[trigger] opts[i]).name == name;
                assert(more[i].name == name);
            }
            if o.name == name {
                assert(more[opts.len() as int].name == name);
            }
            if given(more, name) && o.name != name {
                let i = choose|i: int| 0 <= i < more.len() && (#[trigger] more[i]).name == name;
                assert(opts[i].name == name);
            }
        }
    }
    lemma_settings_apart(o);
}

/// An option that stands by itself sets no value, and one that takes a value is no mark.
proof fn lemma_settings_apart(o: Opt)
    ensures
        o.is_setting() ==> takes_value(o.name) && !is_switch(o.name) && !o.is_mark(),
        o.is_mark() ==> is_switch(o.name) && !takes_value(o.name) && !o.is_setting(),
{
    lemma_names();
    assert(takes_value(o.name) ==> !is_switch(o.name));
}

proof fn lemma_words_joined(opts: Seq<Opt>, rest: Seq<Opt>)
    ensures
        all_words(opts + rest) == all_words(opts) + all_words(rest),
    decreases rest.len(),
{
    if rest.len() == 0 {
        assert(opts + rest =~= opts);
        assert(all_words(opts) + all_words(rest) =~= all_words(opts));
    } else {
        assert((opts + rest).drop_last() =~= opts + rest.drop_last());
        assert((opts + rest).last() == rest.last());
        lemma_words_joined(opts, rest.drop_last());
        assert(all_words(opts + rest) =~= all_words(opts) + all_words(rest));
    }
}

/// Reading one option.
#[verifier::spinoff_prover]
#[verifier::rlimit(40)]
proof fn lemma_one_read(before: Seq<Seq<char>>, o: Opt, behind: Seq<Seq<char>>, a: ArgsView)
    requires
        o.is_setting() || o.is_mark(),
    ensures
        step(before + o.words() + behind, Progress { args: a, next: before.len() }) == Ok::<
            Progress,
            ErrorView,
        >(
            Progress {
                args: if o.is_setting() {
                    crate::cli::valued(a, o.name, o.value->0)
                } else {
                    crate::cli::switched(a, o.name)
                },
                next: before.len() + o.words().len(),
            },
        ),
{
    let raw = before + o.words() + behind;
    let n = before.len() as int;
    lemma_names();
    lemma_settings_apart(o);
    lemma_name_form(o.name);
    match o.value {
        None => {
            assert(raw[n] == o.name);
            assert(option_name(raw[n]) == o.name);
            assert(is_switch(o.name));
            assert(o.words().len() == 1);
        },
        Some(v) => if o.joined {
            let arg = o.name + seq!['='] + v;
            assert(raw[n] == arg);
            lemma_no_equals(o.name, v);
            reveal_strlit("--");
            assert(arg.take(2) =~= o.name.take(2));
            assert(has_value(arg));
            assert(arg.take(o.name.len() as int) =~= o.name);
            assert(arg.skip(o.name.len() as int + 1) =~= v);
        } else {
            assert(raw[n] == o.name);
            assert(raw[n + 1] == v);
        },
    }
}

proof fn lemma_options_from(done: Seq<Opt>, rest: Seq<Opt>)
    requires
        all_known(done),
        all_known(rest),
    ensures
        args_from(
            all_words(done) + all_words(rest),
            Progress { args: asked(done), next: all_words(done).len() },
        ) == Ok::<ArgsView, ErrorView>(asked(done + rest)),
    decreases rest.len(),
{
    let raw = all_words(done) + all_words(rest);
    if rest.len() == 0 {
        assert(done + rest =~= done);
    } else {
        let o = rest[0];
        let more = rest.drop_first();
        assert(rest =~= seq![o] + more);
        lemma_words_joined(seq![o], more);
        lemma_words_joined(done, seq![o]);
        reveal_with_fuel(all_words, 2);
        assert(seq![o].drop_last() =~= seq![]);
        assert(all_words(seq![o]) =~= o.words());
        assert(raw =~= all_words(done) + o.words() + all_words(more));
        assert(done + seq![o] =~= done.push(o));
        lemma_one_read(all_words(done), o, all_words(more), asked(done));
        lemma_asked_more(done, o);
        lemma_settings_apart(o);
        assert forall|i: int| 0 <= i < done.push(o).len() implies (#[trigger] done.push(
            o,
        )[i]).is_setting() || done.push(o)[i].is_mark() by {
            if i < done.len() {
                assert(done.push(o)[i] == done[i]);
            } else {
                assert(done.push(o)[i] == rest[0]);
            }
        }
        assert forall|i: int| 0 <= i < more.len() implies (#[trigger] more[i]).is_setting()
            || more[i].is_mark() by {
            assert(more[i] == rest[i + 1]);
        }
        lemma_options_from(done.push(o), more);
        assert(all_words(done.push(o)) + all_words(more) =~= raw);
        assert(done.push(o) + more =~= done + rest);
        assert(o.words().len() > 0);
    }
}

/// A command line made of options asks for what they say: for all the applications, devices and
/// sounds that are given, in their order, and of everything else that is given several times for
/// the last.
pub proof fn law_options(opts: Seq<Opt>)
    requires
        all_known(opts),
    ensures
        args_of(all_words(opts)) matches Ok(a) ==> a == asked(opts),
        args_of(all_words(opts)) matches Err(e) ==> crate::cli::refusal(asked(opts)) == Some(e),
        crate::cli::refusal(asked(opts)) is None ==> args_of(all_words(opts)) == Ok::<
            ArgsView,
            ErrorView,
        >(asked(opts)),
{
    let none = Seq::<Opt>::empty();
    assert(all_words(none) + all_words(opts) =~= all_words(opts));
    assert(none + opts =~= opts);
    reveal_strlit("1.0");
    reveal_strlit("10.0");
    reveal_strlit("2.0");
    reveal_strlit("cli");
    assert("1.0"@ =~= seq!['1', '.', '0']);
    assert("10.0"@ =~= seq!['1', '0', '.', '0']);
    assert("2.0"@ =~= seq!['2', '.', '0']);
    assert("cli"@ =~= seq!['c', 'l', 'i']);
    assert(asked(none) == default_args()) by {
        assert(values_of(none, "--app"@) =~= seq![]);
    }
    lemma_options_from(none, opts);
}

/// The option that is read at a position.
proof fn lemma_option_at(raw: Seq<Seq<char>>, p: Progress) -> (o: Opt)
    requires
        p.next < raw.len(),
        step(raw, p) is Ok,
    ensures
        o.is_setting() || o.is_mark(),
        p.next + o.words().len() <= raw.len(),
        raw.subrange(p.next as int, p.next + o.words().len() as int) == o.words(),
        step(raw, p)->Ok_0.next == p.next + o.words().len(),
        o.words().len() > 0,
{
    let arg = raw[p.next as int];
    let name = option_name(arg);
    let o = if has_value(arg) {
        Opt { name, value: own_value(arg), joined: true }
    } else if is_switch(name) {
        Opt { name, value: None, joined: false }
    } else {
        Opt { name, value: Some(raw[p.next as int + 1]), joined: false }
    };
    lemma_names();
    lemma_name_form(name);
    if has_value(arg) {
        let k = index_of(arg, '=') as int;
        law_first_place(arg, '=');
        assert(arg =~= arg.take(k) + seq!['='] + arg.skip(k + 1));
        assert(name != "-h"@) by {
            if name == "-h"@ {
                reveal_strlit("--");
                reveal_strlit("-h");
                assert(arg.take(2)[1] == arg[1]);
                assert(name[1] == arg[1]);
                assert("--"@[1] == '-' && "-h"@[1] == 'h');
            }
        }
    }
    assert(raw.subrange(p.next as int, p.next + o.words().len() as int) =~= o.words());
    o
}

proof fn lemma_options_in(raw: Seq<Seq<char>>, p: Progress) -> (opts: Seq<Opt>)
    requires
        p.next <= raw.len(),
        args_from(raw, p) is Ok,
    ensures
        all_known(opts),
        all_words(opts) == raw.skip(p.next as int),
    decreases left(raw.len(), p.next),
{
    if p.next == raw.len() {
        assert(all_words(seq![]) =~= raw.skip(p.next as int));
        seq![]
    } else {
        let o = lemma_option_at(raw, p);
        let q = step(raw, p)->Ok_0;
        let rest = lemma_options_in(raw, q);
        let opts = seq![o] + rest;
        lemma_words_joined(seq![o], rest);
        reveal_with_fuel(all_words, 2);
        assert(seq![o].drop_last() =~= seq![]);
        assert(all_words(seq![o]) =~= o.words());
        assert(all_words(opts) =~= raw.skip(p.next as int)) by {
            assert(raw.skip(p.next as int) =~= raw.subrange(p.next as int, q.next as int)
                + raw.skip(q.next as int));
        }
        assert forall|i: int| 0 <= i < opts.len() implies (#[trigger] opts[i]).is_setting()
            || opts[i].is_mark() by {
            if i > 0 {
                assert(opts[i] == rest[i - 1]);
            }
        }
        opts
    }
}

/// Every command line that is accepted is made of options that there are, and asks for what
/// they say: its applications, devices and sounds are the values of all of its `--app`,
/// `--device` and `--set-sound` options, in order.
pub proof fn law_accepted_line(raw: Seq<Seq<char>>)
    ensures
        args_of(raw) matches Ok(a) ==> exists|opts: Seq<Opt>|
            {
                &&& raw == #[trigger] all_words(opts)
                &&& all_known(opts)
                &&& a == asked(opts)
            },
{
    if args_of(raw) is Ok {
        let opts = lemma_options_in(raw, Progress { args: default_args(), next: 0 });
        assert(raw.skip(0) =~= raw);
        law_options(opts);
        assert(raw == all_words(opts));
    }
}

} // verus!

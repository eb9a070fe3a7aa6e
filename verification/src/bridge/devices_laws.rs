//! What the detection of devices finds, and how it waits.

use crate::bridge::devices::{
    after_failure, after_sleep, full_lines, ids_in_output, lowered, texts_in, wait_in, wait_step,
    DetectWait, WaitNote, WaitStep, WaitingView,
};
use crate::dbus::value::ValueView;
use crate::text::{digits_value, index_of, lower, split_on, trimmed};
use crate::text_laws::{law_first_place, law_lower, law_number_read};
use vstd::prelude::*;
use vstd::string::*;

verus! {

proof fn lemma_first_line(x: Seq<char>, rest: Seq<Seq<char>>)
    ensures
        full_lines(seq![x] + rest) == full_lines(seq![x]) + full_lines(rest),
    decreases rest.len(),
{
    let all = seq![x] + rest;
    if rest.len() == 0 {
        assert(all =~= seq![x]);
        assert(full_lines(rest) =~= seq![]);
        assert(full_lines(seq![x]) + full_lines(rest) =~= full_lines(seq![x]));
    } else {
        let front = rest.drop_last();
        lemma_first_line(x, front);
        assert(all.drop_last() =~= seq![x] + front);
        assert(all.last() == rest.last());
        assert(full_lines(all) =~= full_lines(seq![x]) + full_lines(rest));
    }
}

proof fn lemma_one_line(x: Seq<char>)
    ensures
        full_lines(seq![x]) == (if trimmed(x).len() > 0 {
            seq![trimmed(x)]
        } else {
            Seq::<Seq<char>>::empty()
        }),
{
    assert(seq![x].drop_last() =~= Seq::<Seq<char>>::empty());
    assert(full_lines(seq![x].drop_last()) =~= Seq::<Seq<char>>::empty());
    assert(full_lines(seq![x]) =~= (if trimmed(x).len() > 0 {
        seq![trimmed(x)]
    } else {
        Seq::<Seq<char>>::empty()
    }));
}

/// Each line that is not blank is the id of a device, without the white space round it; the ids
/// stand in the order of the lines, and the last line needs no end.
pub proof fn law_ids_by_line(line: Seq<char>, rest: Seq<char>)
    requires
        !line.contains('\n'),
    ensures
        ({
            let here = if trimmed(line).len() > 0 {
                seq![trimmed(line)]
            } else {
                Seq::<Seq<char>>::empty()
            };
            &&& ids_in_output(line) == here
            &&& ids_in_output(line + seq!['\n'] + rest) == here + ids_in_output(rest)
        }),
{
    let whole = line + seq!['\n'] + rest;
    lemma_one_line(line);
    law_first_place(line, '\n');
    law_first_place(whole, '\n');
    let k = index_of(whole, '\n');
    let j = index_of(line, '\n');
    if j < line.len() {
        assert(line[j as int] == '\n');
    }
    assert(split_on(line, '\n') =~= seq![line]);
    assert(whole[line.len() as int] == '\n');
    if k < line.len() {
        assert(whole[k as int] == line[k as int]);
        assert(line.contains('\n'));
    }
    assert(k == line.len());
    assert(whole.take(k as int) =~= line);
    assert(whole.skip(k as int + 1) =~= rest);
    assert(split_on(whole, '\n') =~= seq![line] + split_on(rest, '\n'));
    lemma_first_line(line, split_on(rest, '\n'));
}

/// A text that is a word but for the case of letters.
pub open spec fn spelled(raw: Seq<char>, word: Seq<char>) -> bool {
    raw.len() == word.len() && forall|i: int|
        0 <= i < raw.len() ==> lower(#[trigger] raw[i]) == word[i]
}

/// One of the words for waiting until a device is found.
pub open spec fn means_forever(raw: Seq<char>) -> bool {
    raw.len() == 0 || spelled(raw, "forever"@) || spelled(raw, "always"@) || spelled(
        raw,
        "infinite"@,
    ) || spelled(raw, "-1"@)
}

/// One of the words for not waiting.
pub open spec fn means_once(raw: Seq<char>) -> bool {
    spelled(raw, "0"@) || spelled(raw, "never"@) || spelled(raw, "none"@) || spelled(raw, "off"@)
}

proof fn lemma_lowered(s: Seq<char>)
    ensures
        lowered(s).len() == s.len(),
        forall|i: int| 0 <= i < s.len() ==> #[trigger] lowered(s)[i] == lower(s[i]),
    decreases s.len(),
{
    if s.len() > 0 {
        lemma_lowered(s.drop_last());
    }
}

proof fn lemma_spelled(raw: Seq<char>, word: Seq<char>)
    ensures
        lowered(raw) == word <==> spelled(raw, word),
{
    lemma_lowered(raw);
    if lowered(raw) == word {
        assert forall|i: int| 0 <= i < raw.len() implies lower(#[trigger] raw[i]) == word[i] by {
            assert(lowered(raw)[i] == word[i]);
        }
    }
    if spelled(raw, word) {
        assert forall|i: int| 0 <= i < raw.len() implies #[trigger] lowered(raw)[i] == word[i] by {
            assert(lower(raw[i]) == word[i]);
        }
        assert(lowered(raw) =~= word);
    }
}

/// What a setting of the waiting time means. The words that it knows, in capitals or not, are for
/// waiting until a device is found or for not waiting; any other row of digits is a number of
/// seconds, here in nanoseconds, unless it is too large; and what ends in no digit means nothing.
#[verifier::spinoff_prover]
#[verifier::rlimit(40)]
pub proof fn law_wait_setting(raw: Seq<char>)
    ensures
        wait_in(raw) == Some(DetectWait::Forever) <==> means_forever(raw),
        wait_in(raw) == Some(DetectWait::Once) <==> means_once(raw) && !means_forever(raw),
        !means_forever(raw) && !means_once(raw) && (forall|i: int|
            0 <= i < raw.len() ==> '0' <= #[trigger] raw[i] <= '9') ==> wait_in(raw) == (
        if digits_value(raw) <= 18446744073709551615 {
            Some(DetectWait::Limited((digits_value(raw) * 1000000000) as u128))
        } else {
            None
        }),
        !means_forever(raw) && !means_once(raw) && !('0' <= raw.last() <= '9') ==> wait_in(
            raw,
        ) is None,
{
    reveal_strlit("");
    let s = lowered(raw);
    lemma_lowered(raw);
    lemma_spelled(raw, ""@);
    lemma_spelled(raw, "forever"@);
    lemma_spelled(raw, "always"@);
    lemma_spelled(raw, "infinite"@);
    lemma_spelled(raw, "-1"@);
    lemma_spelled(raw, "0"@);
    lemma_spelled(raw, "never"@);
    lemma_spelled(raw, "none"@);
    lemma_spelled(raw, "off"@);
    law_number_read(s);
    if raw.len() > 0 {
        law_lower(raw.last());
        assert(s.last() == lower(raw.last()));
    }
    if forall|i: int| 0 <= i < raw.len() ==> '0' <= #[trigger] raw[i] <= '9' {
        assert forall|i: int| 0 <= i < raw.len() implies #[trigger] s[i] == raw[i] by {
            assert('0' <= raw[i] <= '9');
            law_lower(raw[i]);
        }
        assert(s =~= raw);
    }
}

/// What is done when no device was found. Nothing is waited for where that was not asked for, or
/// once the limit is reached. Otherwise the wait is two seconds, or what is left of the limit if
/// that is less; it is announced at first, told again after each half minute, and silent in
/// between.
pub proof fn law_wait_steps(w: WaitingView)
    ensures
        ({
            let over = match w.wait {
                DetectWait::Forever => false,
                DetectWait::Once => true,
                DetectWait::Limited(limit) => w.waited >= limit,
            };
            let time = match w.wait {
                DetectWait::Limited(limit) if limit - w.waited < 2000000000 => limit - w.waited,
                _ => 2000000000int,
            };
            match wait_step(w) {
                WaitStep::GiveUp => over,
                WaitStep::Sleep { note, time: t } => {
                    &&& !over
                    &&& t == time
                    &&& note == WaitNote::Announce <==> w.waited == 0
                    &&& note == WaitNote::Heartbeat <==> w.waited > 0 && w.waited >= w.since_log
                        + 30000000000
                },
            }
        }),
{
}

/// Telling how long it has been is remembered, and nothing else changes by it; sleeping adds the
/// time slept.
pub proof fn law_wait_goes_on(w: WaitingView, time: u128)
    ensures
        after_failure(w).wait == w.wait,
        after_failure(w).waited == w.waited,
        after_failure(w).since_log == (if wait_step(w) matches WaitStep::Sleep { note, .. } && note
            == WaitNote::Heartbeat {
            w.waited
        } else {
            w.since_log
        }),
        after_sleep(w, time).wait == w.wait,
        after_sleep(w, time).since_log == w.since_log,
        w.waited + time <= u128::MAX ==> after_sleep(w, time).waited == w.waited + time,
{
}

/// The texts in a list of values are its strings, object paths and signatures, in their order.
pub proof fn law_texts_in_list(items: Seq<ValueView>, v: ValueView)
    ensures
        texts_in(seq![]).len() == 0,
        texts_in(items.push(v)) == match v {
            ValueView::String(s) => texts_in(items).push(s),
            ValueView::ObjectPath(s) => texts_in(items).push(s),
            ValueView::Signature(s) => texts_in(items).push(s),
            _ => texts_in(items),
        },
{
    assert(items.push(v).drop_last() =~= items);
}

} // verus!

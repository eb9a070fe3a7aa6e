//! What a configuration file says, key by key, and what the rules come to.

use crate::config::{
    config_in, config_of, effective_rule, loose_lookup, own_rule, path_join, plain_config,
    plain_rule, rule_lines, rule_of, rules_of, sound_text, with_sound, ConfigView, RuleView,
};
use crate::error::ErrorView;
use crate::json::JsonView;
use crate::table::{key_index, law_entry_removed, law_entry_set, lookup, without};
use crate::text::{index_of, lower, same_letters, trimmed};
use crate::text_laws::law_first_place;
use vstd::prelude::*;
use vstd::string::*;

verus! {

/// The entry at `i` is the first with the given key.
pub open spec fn first_with<V>(entries: Seq<(Seq<char>, V)>, key: Seq<char>, i: int) -> bool {
    &&& 0 <= i < entries.len()
    &&& entries[i].0 == key
    &&& forall|j: int| 0 <= j < i ==> (#[trigger] entries[j]).0 != key
}

/// No entry has the given key.
pub open spec fn none_with<V>(entries: Seq<(Seq<char>, V)>, key: Seq<char>) -> bool {
    forall|j: int| 0 <= j < entries.len() ==> (#[trigger] entries[j]).0 != key
}

proof fn lemma_index<V>(entries: Seq<(Seq<char>, V)>, key: Seq<char>)
    ensures
        key_index(entries, key) <= entries.len(),
        key_index(entries, key) < entries.len() ==> first_with(
            entries,
            key,
            key_index(entries, key) as int,
        ),
        key_index(entries, key) == entries.len() ==> none_with(entries, key),
    decreases entries.len(),
{
    if entries.len() > 0 && entries[0].0 != key {
        let rest = entries.drop_first();
        lemma_index(rest, key);
        let k = key_index(rest, key);
        assert forall|j: int| 0 <= j < 1 + k && j < entries.len() implies (
        #[trigger] entries[j]).0 != key by {
            if j > 0 {
                assert(entries[j] == rest[j - 1]);
            }
        }
    }
}

/// Looking a key up gives the value of the first entry with it, and nothing where no entry has it.
pub proof fn law_lookup<V>(entries: Seq<(Seq<char>, V)>, key: Seq<char>, i: int)
    ensures
        first_with(entries, key, i) ==> lookup(entries, key) == Some(entries[i].1),
        none_with(entries, key) ==> lookup(entries, key) is None,
        lookup(entries, key) is None ==> none_with(entries, key),
{
    lemma_index(entries, key);
    let k = key_index(entries, key) as int;
    if first_with(entries, key, i) {
        if k < i {
            assert(entries[k].0 == key);
        }
        if i < k {
            assert(entries[i].0 != key);
        }
    }
    if none_with(entries, key) && k < entries.len() {
        assert(entries[k].0 == key);
    }
}

/// A text alone is a rule with nothing but that sound; a value that is neither a text nor an
/// object is no rule.
pub proof fn law_short_rule(v: JsonView)
    ensures
        match v {
            JsonView::String(s) => rule_of(v) == Ok::<RuleView, ErrorView>(
                RuleView { sound: Some(s), timeout_s: None, urgency: None, enabled: true },
            ),
            JsonView::Object(_) => rule_of(v) is Ok,
            _ => rule_of(v) matches Err(ErrorView::Config(_)),
        },
{
}

/// An object says of a rule what stands under `sound` and `urgency`, if it is a text, what stands
/// under `timeout`, if it is a number, and what stands under `enabled`, if it is true or false.
/// Of several entries with a key the first counts. Without an entry, or with one of another kind,
/// there is no sound, urgency or timeout, and the application is handled.
#[verifier::spinoff_prover]
#[verifier::rlimit(40)]
pub proof fn law_long_rule(entries: Seq<(Seq<char>, JsonView)>, i: int)
    ensures
        rule_of(JsonView::Object(entries)) is Ok,
        ({
            let r = rule_of(JsonView::Object(entries))->Ok_0;
            &&& first_with(entries, "sound"@, i) ==> r.sound == match entries[i].1 {
                JsonView::String(s) => Some(s),
                _ => None,
            }
            &&& first_with(entries, "urgency"@, i) ==> r.urgency == match entries[i].1 {
                JsonView::String(s) => Some(s),
                _ => None,
            }
            &&& first_with(entries, "timeout"@, i) ==> r.timeout_s == match entries[i].1 {
                JsonView::Number(n) => Some(n),
                _ => None,
            }
            &&& first_with(entries, "enabled"@, i) ==> r.enabled == (entries[i].1
                != JsonView::Bool(false))
            &&& none_with(entries, "sound"@) ==> r.sound is None
            &&& none_with(entries, "urgency"@) ==> r.urgency is None
            &&& none_with(entries, "timeout"@) ==> r.timeout_s is None
            &&& none_with(entries, "enabled"@) ==> r.enabled
        }),
{
    law_lookup(entries, "sound"@, i);
    law_lookup(entries, "urgency"@, i);
    law_lookup(entries, "timeout"@, i);
    law_lookup(entries, "enabled"@, i);
}

/// A file of white space alone sets nothing: no sound, no timeout and no urgency, no rule of an
/// application, and every application is handled.
pub proof fn law_blank_file(text: Seq<char>)
    requires
        trimmed(text).len() == 0,
    ensures
        config_in(text) matches Ok(c) && {
            &&& c.apps.len() == 0
            &&& c.default.sound is None
            &&& c.default.timeout_s is None
            &&& c.default.urgency is None
            &&& c.default.enabled
        },
{
}

/// The default rule is that under `default`, where an empty sound is none; without that entry
/// nothing is set. The rules of applications stand under `apps`, and there are none without that
/// entry or where it is no object. A default that is no rule is refused.
#[verifier::spinoff_prover]
#[verifier::rlimit(40)]
pub proof fn law_file_parts(entries: Seq<(Seq<char>, JsonView)>, i: int)
    ensures
        ({
            let out = config_of(JsonView::Object(entries));
            &&& first_with(entries, "default"@, i) ==> match rule_of(entries[i].1) {
                Ok(d) => out matches Ok(c) ==> {
                    &&& c.default.timeout_s == d.timeout_s
                    &&& c.default.urgency == d.urgency
                    &&& c.default.enabled == d.enabled
                    &&& c.default.sound == if d.sound == Some(Seq::<char>::empty()) {
                        None
                    } else {
                        d.sound
                    }
                },
                Err(e) => out == Err::<ConfigView, ErrorView>(e),
            }
            &&& none_with(entries, "default"@) ==> (out matches Ok(c) ==> {
                &&& c.default.sound is None
                &&& c.default.timeout_s is None
                &&& c.default.urgency is None
                &&& c.default.enabled
            })
            &&& first_with(entries, "apps"@, i) ==> (out matches Ok(c) ==> match entries[i].1 {
                JsonView::Object(apps) => rules_of(apps) == Ok::<
                    Seq<(Seq<char>, RuleView)>,
                    ErrorView,
                >(c.apps),
                _ => c.apps.len() == 0,
            })
            &&& none_with(entries, "apps"@) ==> (out matches Ok(c) ==> c.apps.len() == 0)
            &&& none_with(entries, "apps"@) && none_with(entries, "default"@) ==> out is Ok
        }),
{
    law_lookup(entries, "default"@, i);
    law_lookup(entries, "apps"@, i);
    if first_with(entries, "default"@, i) {
        if let Ok(d) = rule_of(entries[i].1) {
            if let Some(s) = d.sound {
                if s.len() == 0 {
                    assert(s =~= Seq::<char>::empty());
                }
            }
        }
    }
}

/// A value that is no object is read as a file that sets nothing.
pub proof fn law_other_root(v: JsonView)
    requires
        !(v is Object),
    ensures
        config_of(v) == Ok::<ConfigView, ErrorView>(plain_config()),
{
}

/// The rule under a name is read from the last entry with it, and no entry is left out. One entry
/// that is no rule has all of them refused.
pub proof fn law_rules_read(entries: Seq<(Seq<char>, JsonView)>, i: int)
    requires
        0 <= i < entries.len(),
        forall|j: int| i < j < entries.len() ==> (#[trigger] entries[j]).0 != entries[i].0,
    ensures
        match rules_of(entries) {
            Ok(rules) => rule_of(entries[i].1) matches Ok(r) && lookup(rules, entries[i].0) == Some(
                r,
            ),
            Err(_) => true,
        },
        rules_of(entries) is Err <==> exists|j: int|
            0 <= j < entries.len() && rule_of((#[trigger] entries[j]).1) is Err,
    decreases entries.len(),
{
    lemma_rules_refused(entries);
    let front = entries.drop_last();
    let last = entries.last();
    if i < front.len() {
        assert(front[i] == entries[i]);
        assert forall|j: int| i < j < front.len() implies (#[trigger] front[j]).0
            != front[i].0 by {
            assert(front[j] == entries[j]);
        }
        assert(last.0 != entries[i].0) by {
            assert(entries[entries.len() - 1] == last);
        }
        law_rules_read(front, i);
    }
    match rules_of(front) {
        Ok(rules) => {
            match rule_of(last.1) {
                Ok(r) => {
                    law_entry_set(rules, last.0, r, entries[i].0);
                    law_entry_set(rules, last.0, r, last.0);
                },
                Err(_) => {},
            }
        },
        Err(_) => {},
    }
}

proof fn lemma_rules_refused(entries: Seq<(Seq<char>, JsonView)>)
    ensures
        rules_of(entries) is Err <==> exists|j: int|
            0 <= j < entries.len() && rule_of((#[trigger] entries[j]).1) is Err,
    decreases entries.len(),
{
    if entries.len() > 0 {
        let front = entries.drop_last();
        lemma_rules_refused(front);
        if exists|j: int| 0 <= j < entries.len() && rule_of((#[trigger] entries[j]).1) is Err {
            let j = choose|j: int|
                0 <= j < entries.len() && rule_of((#[trigger] entries[j]).1) is Err;
            if j < front.len() {
                assert(front[j] == entries[j]);
            }
        }
        if rules_of(front) is Err {
            let j = choose|j: int| 0 <= j < front.len() && rule_of((#[trigger] front[j]).1) is Err;
            assert(entries[j] == front[j]);
        } else if rules_of(entries) is Err {
            assert(rule_of(entries[entries.len() - 1].1) is Err);
        }
    }
}

/// Two names that differ in the case of letters alone.
pub open spec fn alike(a: Seq<char>, b: Seq<char>) -> bool {
    a.len() == b.len() && forall|i: int| 0 <= i < a.len() ==> lower(#[trigger] a[i]) == lower(b[i])
}

/// The entry at `i` is the first whose key is alike the name.
pub open spec fn first_alike<V>(entries: Seq<(Seq<char>, V)>, name: Seq<char>, i: int) -> bool {
    &&& 0 <= i < entries.len()
    &&& alike(entries[i].0, name)
    &&& forall|j: int| 0 <= j < i ==> !alike((#[trigger] entries[j]).0, name)
}

proof fn lemma_loose(rules: Seq<(Seq<char>, RuleView)>, app: Seq<char>, i: int)
    ensures
        first_alike(rules, app, i) ==> loose_lookup(rules, app) == Some(rules[i].1),
        (forall|j: int| 0 <= j < rules.len() ==> !alike((#[trigger] rules[j]).0, app))
            ==> loose_lookup(rules, app) is None,
    decreases rules.len(),
{
    if rules.len() > 0 {
        let rest = rules.drop_first();
        assert(rules[0].0.len() == app.len() ==> (same_letters(rules[0].0, app) <==> alike(
            rules[0].0,
            app,
        ))) by {
            lemma_same(rules[0].0, app);
        }
        lemma_same(rules[0].0, app);
        lemma_loose(rest, app, i - 1);
        if first_alike(rules, app, i) && i > 0 {
            assert(rest[i - 1] == rules[i]);
            assert forall|j: int| 0 <= j < i - 1 implies !alike((#[trigger] rest[j]).0, app) by {
                assert(rest[j] == rules[j + 1]);
            }
            assert(!alike(rules[0].0, app));
        }
        if forall|j: int| 0 <= j < rules.len() ==> !alike((#[trigger] rules[j]).0, app) {
            assert(!alike(rules[0].0, app));
            assert forall|j: int| 0 <= j < rest.len() implies !alike(
                (#[trigger] rest[j]).0,
                app,
            ) by {
                assert(rest[j] == rules[j + 1]);
            }
        }
    }
}

proof fn lemma_same(a: Seq<char>, b: Seq<char>)
    ensures
        same_letters(a, b) <==> alike(a, b),
{
}

/// The rule of an application is the first under its very name; where there is none, the first
/// under a name that is alike; and where there is none either, it has no rule.
pub proof fn law_own_rule(c: ConfigView, app: Seq<char>, i: int)
    ensures
        first_with(c.apps, app, i) ==> own_rule(c, app) == Some(c.apps[i].1),
        none_with(c.apps, app) && first_alike(c.apps, app, i) ==> own_rule(c, app) == Some(
            c.apps[i].1,
        ),
        (forall|j: int| 0 <= j < c.apps.len() ==> !alike((#[trigger] c.apps[j]).0, app))
            ==> own_rule(c, app) is None,
{
    law_lookup(c.apps, app, i);
    lemma_loose(c.apps, app, i);
    if forall|j: int| 0 <= j < c.apps.len() ==> !alike((#[trigger] c.apps[j]).0, app) {
        assert forall|j: int| 0 <= j < c.apps.len() implies (#[trigger] c.apps[j]).0 != app by {
            assert(!alike(c.apps[j].0, app));
        }
    }
}

/// The sound that counts for an application: that of its own rule, or else that of the default
/// rule, and none where the one that counts is given by an empty path.
pub proof fn law_effective_sound(c: ConfigView, app: Seq<char>)
    ensures
        ({
            let set = match own_rule(c, app) {
                Some(own) => if own.sound is Some {
                    own.sound
                } else {
                    c.default.sound
                },
                None => c.default.sound,
            };
            effective_rule(c, app).sound == match set {
                Some(s) => if s.len() > 0 {
                    Some(s)
                } else {
                    None
                },
                None => None,
            }
        }),
{
}

/// Setting a sound takes `App=path`, split at the first `=`, and wants a name before it. White
/// space round the name and the path does not count.
#[verifier::spinoff_prover]
#[verifier::rlimit(40)]
pub proof fn law_set_sound_forms(c: ConfigView, name: Seq<char>, path: Seq<char>, item: Seq<char>)
    requires
        !name.contains('='),
    ensures
        !item.contains('=') ==> with_sound(c, item) is Err,
        trimmed(name).len() == 0 ==> with_sound(c, name + seq!['='] + path) is Err,
        trimmed(name).len() > 0 ==> (with_sound(c, name + seq!['='] + path) matches Ok(pair) && {
            let key = trimmed(name);
            let val = trimmed(path);
            if alike(key, "default"@) {
                &&& pair.0.apps == c.apps
                &&& pair.0.default.sound == if val.len() > 0 {
                    Some(val)
                } else {
                    None
                }
                &&& pair.1 == "default -> "@ + (if val.len() > 0 {
                    val
                } else {
                    "(静音)"@
                })
            } else if val.len() == 0 {
                &&& pair.0.default == c.default
                &&& none_with(pair.0.apps, key)
                &&& pair.1 == "已删除规则: "@ + key
            } else {
                &&& pair.0.default == c.default
                &&& lookup(pair.0.apps, key) matches Some(r) && r.sound == Some(val)
                &&& none_with(c.apps, key) ==> lookup(pair.0.apps, key) == Some(
                    RuleView { sound: Some(val), timeout_s: None, urgency: None, enabled: true },
                )
                &&& pair.1 == key + " -> "@ + val
            }
        }),
{
    if !item.contains('=') {
        law_first_place(item, '=');
        let k = index_of(item, '=');
        if k < item.len() {
            assert(item[k as int] == '=');
        }
    }
    let whole = name + seq!['='] + path;
    law_first_place(whole, '=');
    let k = index_of(whole, '=');
    assert(whole[name.len() as int] == '=');
    if k < name.len() {
        assert(whole[k as int] == name[k as int]);
        assert(name.contains('='));
    }
    assert(k == name.len());
    assert(whole.take(k as int) =~= name);
    assert(whole.skip(k as int + 1) =~= path);
    let key = trimmed(name);
    let val = trimmed(path);
    lemma_same(key, "default"@);
    if key.len() > 0 && !alike(key, "default"@) {
        if val.len() == 0 {
            law_entry_removed(c.apps, key, key);
            law_lookup(without(c.apps, key), key, 0);
        } else {
            law_lookup(c.apps, key, 0);
            let rule = match lookup(c.apps, key) {
                Some(r) => r,
                None => plain_rule(),
            };
            law_entry_set(
                c.apps,
                key,
                RuleView { sound: Some(val), ..rule },
                key,
            );
        }
    }
}

/// A path within another: the two with one slash between them, unless the first is empty.
pub proof fn law_path_within(base: Seq<char>, part: Seq<char>)
    ensures
        path_join(base + seq!['/'], part) == base + seq!['/'] + part,
        base.len() > 0 && base.last() != '/' ==> path_join(base, part) == base + seq!['/'] + part,
        path_join(seq![], part) == part,
{
    reveal_strlit("/");
    assert("/"@ =~= seq!['/']);
    assert((base + seq!['/']).last() == '/');
}

/// The rules are shown one on a line, in their order: two blanks, the name, a colon and a blank,
/// and the sound, or in its place that the application is muted; a mark follows where the
/// application is not handled.
pub proof fn law_rule_shown(rules: Seq<(Seq<char>, RuleView)>, name: Seq<char>, r: RuleView)
    ensures
        rule_lines(seq![]) == Seq::<char>::empty(),
        rule_lines(rules.push((name, r))) == rule_lines(rules) + "  "@ + name + ": "@ + (
        match r.sound {
            Some(s) => if s.len() > 0 {
                s
            } else {
                "(静音)"@
            },
            None => "(静音)"@,
        }) + (if r.enabled {
            Seq::<char>::empty()
        } else {
            "  [已禁用]"@
        }) + "\n"@,
{
    reveal_strlit("");
    let all = rules.push((name, r));
    assert(all.drop_last() =~= rules);
    assert(""@ =~= Seq::<char>::empty());
    assert(rule_lines(all) =~= rule_lines(rules) + "  "@ + name + ": "@ + sound_text(r.sound) + (
    if r.enabled {
        Seq::<char>::empty()
    } else {
        "  [已禁用]"@
    }) + "\n"@);
}

} // verus!

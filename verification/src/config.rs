//! The rules for sounds and popups, by application.
//!
//! The configuration file is a JSON object with the rules of the applications
//! under `apps` and the rule for all others under `default`. A rule is the path of
//! a sound file, or an object with `sound`, `timeout`, `urgency` and `enabled`. The
//! empty path mutes.

use crate::error::{Error, ErrorView};
use crate::json::{
    json_of, lemma_json_containers, member, member_models, parse, stringify, written, Json,
    JsonView,
};
use crate::json_debug::{debug_form, json_debug};
use crate::json_roundtrip::{law_json_line_round, lemma_members_ok, numbers_ok};
use crate::numeral::is_numeral;
use crate::table::{
    distinct, in_order, key_index, law_entry_removed, law_entry_set, law_in_order, law_one_order,
    lemma_key_absent, lookup, picked, with_entry, without, Table,
};
use crate::text::{
    chars_of, eq_ignore_case, find_char, index_of, opt_clone, opt_text, same_letters, string_of,
    trim, trim_back, trim_front, trim_range, trimmed, white,
};
use vstd::prelude::*;
use vstd::string::*;

verus! {

/// What is done with the notifications of an application.
#[derive(Debug, PartialEq)]
pub struct Rule {
    /// The sound file. The empty path mutes; without a path, another rule may set one.
    pub sound: Option<String>,
    /// How many seconds a popup stays, as a numeral.
    pub timeout_s: Option<String>,
    /// The urgency: `low`, `normal` or `critical`.
    pub urgency: Option<String>,
    /// Whether the application is handled at all.
    pub enabled: bool,
}

/// A [`Rule`] as a mathematical value.
pub struct RuleView {
    pub sound: Option<Seq<char>>,
    pub timeout_s: Option<Seq<char>>,
    pub urgency: Option<Seq<char>>,
    pub enabled: bool,
}

impl View for Rule {
    type V = RuleView;

    open spec fn view(&self) -> RuleView {
        RuleView {
            sound: opt_text(self.sound),
            timeout_s: opt_text(self.timeout_s),
            urgency: opt_text(self.urgency),
            enabled: self.enabled,
        }
    }
}

/// The rule where nothing is configured: no sound, and the application is handled.
pub open spec fn plain_rule() -> RuleView {
    RuleView { sound: None, timeout_s: None, urgency: None, enabled: true }
}

impl Default for Rule {
    fn default() -> (r: Self)
        ensures
            r@ == plain_rule(),
    {
        Rule { sound: None, timeout_s: None, urgency: None, enabled: true }
    }
}

impl Clone for Rule {
    fn clone(&self) -> (r: Self)
        ensures
            r@ == self@,
    {
        Rule {
            sound: opt_clone(&self.sound),
            timeout_s: opt_clone(&self.timeout_s),
            urgency: opt_clone(&self.urgency),
            enabled: self.enabled,
        }
    }
}

/// A text, if it is not empty.
pub open spec fn non_empty(s: Seq<char>) -> Option<Seq<char>> {
    if s.len() == 0 {
        None
    } else {
        Some(s)
    }
}

/// The text, or the empty text where there is none.
pub open spec fn or_empty(s: Option<Seq<char>>) -> Seq<char> {
    match s {
        Some(x) => x,
        None => seq![],
    }
}

/// A sound that can be heard: none, where its path is empty.
pub open spec fn audible(s: Option<Seq<char>>) -> Option<Seq<char>> {
    match s {
        Some(x) => non_empty(x),
        None => None,
    }
}

/// The rule that a JSON value stands for.
pub open spec fn rule_of(v: JsonView) -> Result<RuleView, ErrorView> {
    match v {
        JsonView::String(s) => Ok(RuleView { sound: Some(s), ..plain_rule() }),
        JsonView::Object(_) => Ok(
            RuleView {
                sound: match member(v, "sound"@) {
                    Some(JsonView::String(s)) => Some(s),
                    _ => None,
                },
                timeout_s: match member(v, "timeout"@) {
                    Some(JsonView::Number(n)) => Some(n),
                    _ => None,
                },
                urgency: match member(v, "urgency"@) {
                    Some(JsonView::String(s)) => Some(s),
                    _ => None,
                },
                enabled: match member(v, "enabled"@) {
                    Some(JsonView::Bool(b)) => b,
                    _ => true,
                },
            },
        ),
        _ => Err(ErrorView::Config("规则格式无法识别: "@ + json_debug(v))),
    }
}

/// The JSON value for a rule: the path alone, where the rule has nothing but a sound.
pub open spec fn rule_json(r: RuleView) -> JsonView {
    if r.sound is Some && r.timeout_s is None && r.urgency is None && r.enabled {
        JsonView::String(r.sound->0)
    } else {
        JsonView::Object(rule_members(r))
    }
}

/// The entries of the object for a rule.
pub open spec fn rule_members(r: RuleView) -> Seq<(Seq<char>, JsonView)> {
    let a = match r.sound {
        Some(s) => seq![("sound"@, JsonView::String(s))],
        None => seq![],
    };
    let b = match r.timeout_s {
        Some(t) => a.push(("timeout"@, JsonView::Number(t))),
        None => a,
    };
    let c = match r.urgency {
        Some(u) => b.push(("urgency"@, JsonView::String(u))),
        None => b,
    };
    if r.enabled {
        c
    } else {
        c.push(("enabled"@, JsonView::Bool(false)))
    }
}

proof fn lemma_rule_keys()
    ensures
        "sound"@ != "timeout"@,
        "sound"@ != "urgency"@,
        "sound"@ != "enabled"@,
        "timeout"@ != "urgency"@,
        "timeout"@ != "enabled"@,
        "urgency"@ != "enabled"@,
{
    reveal_strlit("sound");
    reveal_strlit("timeout");
    reveal_strlit("urgency");
    reveal_strlit("enabled");
    assert("sound"@[0] == 's');
    assert("timeout"@[0] == 't');
    assert("urgency"@[0] == 'u');
    assert("enabled"@[0] == 'e');
}

impl Rule {
    /// Reads a rule.
    pub fn from_json(v: &Json) -> (r: Result<Rule, Error>)
        ensures
            match r {
                Ok(x) => rule_of(v@) == Ok::<RuleView, ErrorView>(x@),
                Err(e) => rule_of(v@) == Err::<RuleView, ErrorView>(e@),
            },
    {
        proof {
            lemma_json_containers(*v);
        }
        match v {
            Json::String(s) => {
                let mut r = Rule::default();
                r.sound = Some(s.clone());
                Ok(r)
            },
            Json::Object(_) => {
                let mut r = Rule::default();
                match v.get("sound") {
                    Some(x) => {
                        match x.as_str() {
                            Some(s) => {
                                r.sound = Some(s.to_string());
                            },
                            None => {},
                        }
                    },
                    None => {},
                }
                match v.get("timeout") {
                    Some(x) => {
                        match x.as_f64() {
                            Some(t) => {
                                r.timeout_s = Some(t.to_string());
                            },
                            None => {},
                        }
                    },
                    None => {},
                }
                match v.get("urgency") {
                    Some(x) => {
                        match x.as_str() {
                            Some(u) => {
                                r.urgency = Some(u.to_string());
                            },
                            None => {},
                        }
                    },
                    None => {},
                }
                match v.get("enabled") {
                    Some(x) => {
                        match x.as_bool() {
                            Some(b) => {
                                r.enabled = b;
                            },
                            None => {},
                        }
                    },
                    None => {},
                }
                Ok(r)
            },
            _ => Err(Error::Config("规则格式无法识别: ".to_string().concat(&debug_form(v)))),
        }
    }

    /// Writes a rule.
    pub fn to_json(&self) -> (r: Json)
        ensures
            r@ == rule_json(self@),
    {
        if self.timeout_s.is_none() && self.urgency.is_none() && self.enabled {
            match &self.sound {
                Some(s) => {
                    return Json::String(s.clone());
                },
                None => {},
            }
        }
        let mut entries: Vec<(String, Json)> = Vec::new();
        match &self.sound {
            Some(s) => entries.push(("sound".to_string(), Json::String(s.clone()))),
            None => {},
        }
        match &self.timeout_s {
            Some(t) => entries.push(("timeout".to_string(), Json::Number(t.clone()))),
            None => {},
        }
        match &self.urgency {
            Some(u) => entries.push(("urgency".to_string(), Json::String(u.clone()))),
            None => {},
        }
        if !self.enabled {
            entries.push(("enabled".to_string(), Json::Bool(false)));
        }
        assert(member_models(entries@) =~= rule_members(self@));
        let r = Json::Object(entries);
        proof {
            lemma_json_containers(r);
        }
        r
    }
}

/// A text, if it is not empty.
fn some_text(s: &str) -> (r: Option<String>)
    ensures
        opt_text(r) == non_empty(s@),
{
    if s.is_empty() {
        None
    } else {
        Some(s.to_string())
    }
}

/// A rule that is written is read back.
pub proof fn law_rule_round(r: RuleView)
    ensures
        rule_of(rule_json(r)) == Ok::<RuleView, ErrorView>(r),
{
    lemma_rule_keys();
    reveal_with_fuel(key_index, 6);
}

/// The default rule that a JSON value stands for. Behind it there is no other rule, so that an
/// empty sound is none.
pub open spec fn default_rule_of(v: JsonView) -> Result<RuleView, ErrorView> {
    match rule_of(v) {
        Ok(r) => Ok(RuleView { sound: audible(r.sound), ..r }),
        Err(e) => Err(e),
    }
}

/// The JSON value for the default rule, which always names a sound, if only an empty one.
pub open spec fn default_rule_json(r: RuleView) -> JsonView {
    rule_json(RuleView { sound: Some(or_empty(r.sound)), ..r })
}

/// All the rules.
#[derive(Debug, PartialEq)]
pub struct Config {
    /// The rule for applications without one of their own.
    pub default: Rule,
    /// The rules of applications, by the name under which notifications come.
    pub apps: Table<Rule>,
}

/// A [`Config`] as a mathematical value.
pub struct ConfigView {
    pub default: RuleView,
    pub apps: Seq<(Seq<char>, RuleView)>,
}

impl View for Config {
    type V = ConfigView;

    open spec fn view(&self) -> ConfigView {
        ConfigView { default: self.default@, apps: self.apps@ }
    }
}

/// The configuration where there is none: no sounds, and all applications are handled.
pub open spec fn plain_config() -> ConfigView {
    ConfigView { default: plain_rule(), apps: seq![] }
}

impl Default for Config {
    fn default() -> (r: Self)
        ensures
            r@ == plain_config(),
    {
        Config { default: Rule::default(), apps: Table::new() }
    }
}

/// The rules of applications that the entries of a JSON object stand for.
pub open spec fn rules_of(entries: Seq<(Seq<char>, JsonView)>) -> Result<
    Seq<(Seq<char>, RuleView)>,
    ErrorView,
>
    decreases entries.len(),
{
    if entries.len() == 0 {
        Ok(seq![])
    } else {
        match rules_of(entries.drop_last()) {
            Err(e) => Err(e),
            Ok(rules) => match rule_of(entries.last().1) {
                Err(e) => Err(e),
                Ok(r) => Ok(with_entry(rules, entries.last().0, r)),
            },
        }
    }
}

/// The configuration that a JSON value stands for.
pub open spec fn config_of(root: JsonView) -> Result<ConfigView, ErrorView> {
    let default = match member(root, "default"@) {
        Some(v) => default_rule_of(v),
        None => Ok(plain_rule()),
    };
    match default {
        Err(e) => Err(e),
        Ok(d) => {
            let apps = match member(root, "apps"@) {
                Some(JsonView::Object(entries)) => rules_of(entries),
                _ => Ok(seq![]),
            };
            match apps {
                Err(e) => Err(e),
                Ok(a) => Ok(ConfigView { default: d, apps: a }),
            }
        },
    }
}

/// The configuration in the text of a configuration file.
pub open spec fn config_in(text: Seq<char>) -> Result<ConfigView, ErrorView> {
    if trimmed(text).len() == 0 {
        Ok(plain_config())
    } else {
        match json_of(text) {
            Err(e) => Err(e),
            Ok(root) => config_of(root),
        }
    }
}

/// The JSON values for rules.
pub open spec fn rule_jsons(rules: Seq<(Seq<char>, RuleView)>) -> Seq<(Seq<char>, JsonView)> {
    Seq::new(rules.len(), |i: int| (rules[i].0, rule_json(rules[i].1)))
}

/// The JSON value for a configuration.
pub open spec fn config_json(c: ConfigView) -> JsonView {
    JsonView::Object(
        seq![
            ("apps"@, JsonView::Object(rule_jsons(in_order(c.apps)))),
            ("default"@, default_rule_json(c.default)),
        ],
    )
}

/// The text of the configuration file.
pub open spec fn config_text(c: ConfigView) -> Seq<char> {
    written(config_json(c), 0) + "\n"@
}

/// The first rule whose key is the same as the name but for the case of letters.
pub open spec fn loose_lookup(rules: Seq<(Seq<char>, RuleView)>, app: Seq<char>) -> Option<RuleView>
    decreases rules.len(),
{
    if rules.len() == 0 {
        None
    } else if same_letters(rules[0].0, app) {
        Some(rules[0].1)
    } else {
        loose_lookup(rules.drop_first(), app)
    }
}

/// The rule of an application: the one under its name, or else the first under a name
/// that differs in the case of letters alone.
pub open spec fn own_rule(c: ConfigView, app: Seq<char>) -> Option<RuleView> {
    match lookup(c.apps, app) {
        Some(r) => Some(r),
        None => loose_lookup(c.apps, app),
    }
}

/// The first of two, if it is there, or else the second.
pub open spec fn first_of(a: Option<Seq<char>>, b: Option<Seq<char>>) -> Option<Seq<char>> {
    if a is Some {
        a
    } else {
        b
    }
}

/// The sound that the rules set for an application, if they do: that of its own rule, or else
/// that of the default rule. The empty path mutes.
pub open spec fn sound_set(c: ConfigView, app: Seq<char>) -> Option<Seq<char>> {
    match own_rule(c, app) {
        None => c.default.sound,
        Some(r) => first_of(r.sound, c.default.sound),
    }
}

/// Whether the rules mute an application.
pub open spec fn is_muted(c: ConfigView, app: Seq<char>) -> bool {
    sound_set(c, app) matches Some(s) && s.len() == 0
}

/// The rule that counts for an application: what its own rule sets, and the default
/// rule for the rest. Where the application is muted, there is no sound.
pub open spec fn effective_rule(c: ConfigView, app: Seq<char>) -> RuleView {
    match own_rule(c, app) {
        None => RuleView { sound: audible(sound_set(c, app)), ..c.default },
        Some(r) => RuleView {
            sound: audible(sound_set(c, app)),
            timeout_s: first_of(r.timeout_s, c.default.timeout_s),
            urgency: first_of(r.urgency, c.default.urgency),
            enabled: r.enabled,
        },
    }
}

/// How a sound is shown.
pub open spec fn sound_text(s: Option<Seq<char>>) -> Seq<char> {
    match audible(s) {
        Some(x) => x,
        None => "(静音)"@,
    }
}

/// The lines that show rules.
pub open spec fn rule_lines(rules: Seq<(Seq<char>, RuleView)>) -> Seq<char>
    decreases rules.len(),
{
    if rules.len() == 0 {
        seq![]
    } else {
        let last = rules.last();
        rule_lines(rules.drop_last()) + ("  "@ + last.0 + ": "@ + sound_text(last.1.sound) + (
        if last.1.enabled {
            ""@
        } else {
            "  [已禁用]"@
        }) + "\n"@)
    }
}

/// What [`Config::display`] returns.
pub open spec fn config_shown(c: ConfigView) -> Seq<char> {
    "当前音效规则：\n"@ + ("  default: "@ + sound_text(c.default.sound) + "\n"@) + rule_lines(
        in_order(c.apps),
    )
}

impl Config {
    /// Reads the text of the configuration file. Without a file, the configuration is
    /// the plain one.
    pub fn load(text: Option<&str>) -> (r: Result<Config, Error>)
        ensures
            match (text, r) {
                (None, Ok(c)) => c@ == plain_config(),
                (None, Err(_)) => false,
                (Some(t), Ok(c)) => config_in(t@) == Ok::<ConfigView, ErrorView>(c@),
                (Some(t), Err(e)) => config_in(t@) == Err::<ConfigView, ErrorView>(e@),
            },
            r matches Ok(c) ==> distinct(c@.apps),
    {
        let t = match text {
            Some(t) => t,
            None => {
                return Ok(Config::default());
            },
        };
        if trim(t).is_empty() {
            return Ok(Config::default());
        }
        let root = parse(t)?;
        let mut cfg = Config::default();
        match root.get("default") {
            Some(v) => {
                cfg.default = Rule::from_json(v)?;
                cfg.default.sound = heard(&cfg.default.sound);
            },
            None => {},
        }
        match root.get("apps") {
            Some(v) => {
                match v.as_object() {
                    Some(entries) => {
                        let ghost all = member_models(entries@);
                        let ghost default = cfg.default@;
                        let mut i: usize = 0;
                        assert(all.take(0) =~= seq![]);
                        while i < entries.len()
                            invariant
                                i <= entries@.len(),
                                all == member_models(entries@),
                                text == Some(t),
                                cfg.default@ == default,
                                rules_of(all.take(i as int)) == Ok::<
                                    Seq<(Seq<char>, RuleView)>,
                                    ErrorView,
                                >(cfg.apps@),
                                distinct(cfg.apps@),
                                config_in(t@) == match rules_of(all) {
                                    Err(e) => Err::<ConfigView, ErrorView>(e),
                                    Ok(a) => Ok(ConfigView { default, apps: a }),
                                },
                            decreases entries@.len() - i,
                        {
                            proof {
                                let next = all.take(i + 1);
                                assert(next.drop_last() =~= all.take(i as int));
                                assert(next.last() == (
                                    entries@[i as int].0@,
                                    entries@[i as int].1@,
                                ));
                            }
                            match Rule::from_json(&entries[i].1) {
                                Ok(rule) => {
                                    cfg.apps.insert(entries[i].0.clone(), rule);
                                },
                                Err(e) => {
                                    proof {
                                        lemma_rules_fail(all, i as int + 1);
                                    }
                                    return Err(e);
                                },
                            }
                            i += 1;
                        }
                        assert(all.take(i as int) =~= all);
                    },
                    None => {},
                }
            },
            None => {},
        }
        Ok(cfg)
    }
}

impl Config {
    /// The text of the configuration file, with the rules in the order of their keys.
    pub fn save(&self) -> (r: String)
        ensures
            r@ == config_text(self@),
    {
        let order = self.apps.order();
        let ghost sorted = in_order(self@.apps);
        let mut apps: Vec<(String, Json)> = Vec::new();
        let mut i: usize = 0;
        while i < order.len()
            invariant
                i <= order@.len(),
                sorted == picked(self.apps@, order@),
                forall|k: int| 0 <= k < order@.len() ==> #[trigger] order@[k] < self.apps@.len(),
                member_models(apps@) == rule_jsons(sorted).take(i as int),
            decreases order@.len() - i,
        {
            let (k, rule) = self.apps.at(order[i]);
            let ghost before = apps@;
            let j = rule.to_json();
            apps.push((k.to_string(), j));
            proof {
                assert(rule_jsons(sorted)[i as int] == (k@, j@));
                assert(member_models(apps@) =~= member_models(before).push((k@, j@)));
                assert(member_models(apps@) =~= rule_jsons(sorted).take(i + 1));
            }
            i += 1;
        }
        assert(member_models(apps@) =~= rule_jsons(sorted));
        let apps_json = Json::Object(apps);
        let mut entries: Vec<(String, Json)> = Vec::new();
        entries.push(("apps".to_string(), apps_json));
        let mut default = self.default.clone();
        if default.sound.is_none() {
            default.sound = Some(String::new());
        }
        assert(default@.sound->0 =~= or_empty(self@.default.sound));
        entries.push(("default".to_string(), default.to_json()));
        let root = Json::Object(entries);
        proof {
            lemma_json_containers(apps_json);
            lemma_json_containers(root);
            assert(root@->Object_0 =~= config_json(self@)->Object_0);
        }
        stringify(&root).concat("\n")
    }

    /// The rule of an application.
    fn own(&self, app: &str) -> (r: Option<&Rule>)
        ensures
            match r {
                Some(x) => own_rule(self@, app@) == Some(x@),
                None => own_rule(self@, app@) is None,
            },
    {
        match self.apps.get(app) {
            Some(r) => {
                return Some(r);
            },
            None => {},
        }
        let ghost all = self.apps@;
        let mut i: usize = 0;
        assert(all.skip(0) =~= all);
        while i < self.apps.len()
            invariant
                i <= all.len(),
                all == self.apps@,
                lookup(all, app@) is None,
                loose_lookup(all, app@) == loose_lookup(all.skip(i as int), app@),
            decreases all.len() - i,
        {
            let (k, rule) = self.apps.at(i);
            assert(all.skip(i as int)[0] == (k@, rule@));
            if eq_ignore_case(k, app) {
                return Some(rule);
            }
            assert(all.skip(i as int).drop_first() =~= all.skip(i + 1));
            i += 1;
        }
        None
    }

    /// Whether the rules mute an application.
    pub fn mutes(&self, app: &str) -> (r: bool)
        ensures
            r == is_muted(self@, app@),
    {
        let sound = match self.own(app) {
            Some(hit) => {
                if hit.sound.is_some() {
                    &hit.sound
                } else {
                    &self.default.sound
                }
            },
            None => &self.default.sound,
        };
        match sound {
            Some(s) => s.as_str().is_empty(),
            None => false,
        }
    }

    /// The rule that counts for an application.
    pub fn rule_for(&self, app: &str) -> (r: Rule)
        ensures
            r@ == effective_rule(self@, app@),
    {
        let mut r = self.default.clone();
        match self.own(app) {
            Some(hit) => {
                if hit.sound.is_some() {
                    r.sound = opt_clone(&hit.sound);
                }
                if hit.timeout_s.is_some() {
                    r.timeout_s = opt_clone(&hit.timeout_s);
                }
                if hit.urgency.is_some() {
                    r.urgency = opt_clone(&hit.urgency);
                }
                r.enabled = hit.enabled;
            },
            None => {},
        }
        r.sound = heard(&r.sound);
        r
    }

    /// Shows the rules, in the order of their keys.
    pub fn display(&self) -> (r: String)
        ensures
            r@ == config_shown(self@),
    {
        let mut out = "当前音效规则：\n".to_string();
        out.append("  default: ");
        out.append(sound_or_none(&self.default.sound));
        out.append("\n");
        let order = self.apps.order();
        let ghost sorted = in_order(self@.apps);
        let ghost head = out@;
        assert(head =~= "当前音效规则：\n"@ + ("  default: "@ + sound_text(self@.default.sound)
            + "\n"@));
        let mut i: usize = 0;
        assert(out@ =~= head + rule_lines(sorted.take(0)));
        while i < order.len()
            invariant
                i <= order@.len(),
                sorted == picked(self.apps@, order@),
                forall|k: int| 0 <= k < order@.len() ==> #[trigger] order@[k] < self.apps@.len(),
                out@ == head + rule_lines(sorted.take(i as int)),
            decreases order@.len() - i,
        {
            let (k, rule) = self.apps.at(order[i]);
            let ghost before = out@;
            out.append("  ");
            out.append(k);
            out.append(": ");
            out.append(sound_or_none(&rule.sound));
            out.append(
                if rule.enabled {
                    ""
                } else {
                    "  [已禁用]"
                },
            );
            out.append("\n");
            proof {
                let next = sorted.take(i + 1);
                assert(next.drop_last() =~= sorted.take(i as int));
                assert(next.last() == (k@, rule@));
                assert(out@ =~= head + rule_lines(next));
            }
            i += 1;
        }
        assert(sorted.take(i as int) =~= sorted);
        out
    }
}

/// How a sound is shown.
fn sound_or_none(s: &Option<String>) -> (r: &str)
    ensures
        r@ == sound_text(opt_text(*s)),
{
    match s {
        Some(x) => {
            if x.as_str().is_empty() {
                "(静音)"
            } else {
                x.as_str()
            }
        },
        None => "(静音)",
    }
}

/// A sound that can be heard.
fn heard(s: &Option<String>) -> (r: Option<String>)
    ensures
        opt_text(r) == audible(opt_text(*s)),
{
    match s {
        Some(x) => some_text(x),
        None => None,
    }
}

/// The first rule that cannot be read decides.
proof fn lemma_rules_fail(entries: Seq<(Seq<char>, JsonView)>, n: int)
    requires
        0 <= n <= entries.len(),
        rules_of(entries.take(n)) is Err,
    ensures
        rules_of(entries) == rules_of(entries.take(n)),
    decreases entries.len(),
{
    if n < entries.len() {
        assert(entries.drop_last().take(n) =~= entries.take(n));
        lemma_rules_fail(entries.drop_last(), n);
    } else {
        assert(entries.take(n) =~= entries);
    }
}

/// A path within another.
pub open spec fn path_join(base: Seq<char>, part: Seq<char>) -> Seq<char> {
    if base.len() == 0 {
        part
    } else if base.last() == '/' {
        base + part
    } else {
        base + "/"@ + part
    }
}

fn join(base: String, part: &str) -> (r: String)
    ensures
        r@ == path_join(base@, part@),
{
    let cs = chars_of(&base);
    if cs.len() == 0 {
        part.to_string()
    } else if cs[cs.len() - 1] == '/' {
        base.concat(part)
    } else {
        base.concat("/").concat(part)
    }
}

impl Config {
    /// The path of the configuration file: the one set in the environment, or else the
    /// usual place in the home directory.
    pub fn default_path(configured: Option<&str>, home: Option<&str>) -> (r: String)
        ensures
            r@ == match configured {
                Some(p) => p@,
                None => {
                    let base = match home {
                        Some(h) => h@,
                        None => "/tmp"@,
                    };
                    path_join(
                        path_join(path_join(base, ".config"@), "kdeconnect-popup-bridge"@),
                        "sounds.json"@,
                    )
                },
            },
    {
        match configured {
            Some(p) => p.to_string(),
            None => {
                let base = match home {
                    Some(h) => h.to_string(),
                    None => "/tmp".to_string(),
                };
                join(join(join(base, ".config"), "kdeconnect-popup-bridge"), "sounds.json")
            },
        }
    }
}

/// The configuration after a sound has been set by `App=path`, and what is said of it.
pub open spec fn with_sound(c: ConfigView, item: Seq<char>) -> Result<
    (ConfigView, Seq<char>),
    ErrorView,
> {
    let i = index_of(item, '=');
    let key = trimmed(item.take(i as int));
    let val = trimmed(item.skip(i as int + 1));
    if i >= item.len() {
        Err(ErrorView::Cli("--set-sound 需要 App=路径 形式，收到: "@ + item))
    } else if key.len() == 0 {
        Err(ErrorView::Cli("--set-sound 的 App 名不能为空"@))
    } else if same_letters(key, "default"@) {
        Ok(
            (
                ConfigView { default: RuleView { sound: non_empty(val), ..c.default }, ..c },
                "default -> "@ + sound_text(non_empty(val)),
            ),
        )
    } else if val.len() == 0 {
        Ok((ConfigView { apps: without(c.apps, key), ..c }, "已删除规则: "@ + key))
    } else {
        let rule = match lookup(c.apps, key) {
            Some(r) => r,
            None => plain_rule(),
        };
        Ok(
            (
                ConfigView {
                    apps: with_entry(c.apps, key, RuleView { sound: Some(val), ..rule }),
                    ..c
                },
                key + " -> "@ + val,
            ),
        )
    }
}

/// Sets a sound by `App=path` and returns the line that tells what was done. An empty
/// path takes the rule of the application out, and mutes the default rule.
pub fn apply_set_sound(cfg: &mut Config, item: &str) -> (r: Result<String, Error>)
    ensures
        match with_sound(old(cfg)@, item@) {
            Ok(p) => final(cfg)@ == p.0 && (r matches Ok(s) && s@ == p.1),
            Err(e) => final(cfg)@ == old(cfg)@ && (r matches Err(f) && f@ == e),
        },
        distinct(old(cfg)@.apps) ==> distinct(final(cfg)@.apps),
{
    let cs = chars_of(item);
    let n: usize = cs.len();
    assert(cs@.subrange(0, n as int) =~= item@);
    let i: usize = find_char(&cs, 0, n, '=');
    if i >= n {
        return Err(
            Error::Cli("--set-sound 需要 App=路径 形式，收到: ".to_string().concat(item)),
        );
    }
    let (ka, kb) = trim_range(&cs, 0, i);
    let (va, vb) = trim_range(&cs, i + 1, n);
    proof {
        assert(cs@.subrange(0, i as int) =~= item@.take(i as int));
        assert(cs@.subrange(i + 1, n as int) =~= item@.skip(i + 1));
    }
    let key = string_of(&cs, ka, kb);
    let val = string_of(&cs, va, vb);
    if ka == kb {
        return Err(Error::Cli("--set-sound 的 App 名不能为空".to_string()));
    }
    if eq_ignore_case(&key, "default") {
        cfg.default.sound = some_text(&val);
        return Ok("default -> ".to_string().concat(sound_or_none(&cfg.default.sound)));
    }
    if va == vb {
        cfg.apps.remove(&key);
        return Ok("已删除规则: ".to_string().concat(&key));
    }
    let mut rule = match cfg.apps.get(&key) {
        Some(r) => r.clone(),
        None => Rule::default(),
    };
    rule.sound = Some(val.clone());
    cfg.apps.insert(key.clone(), rule);
    Ok(key.concat(" -> ").concat(&val))
}

/// A rule that can be written: its timeout is a numeral.
pub open spec fn lasting(r: RuleView) -> bool {
    r.timeout_s matches Some(t) ==> is_numeral(t)
}

/// The default rule is the same after it is written and read, unless its sound is given by an
/// empty path, which is read as none.
proof fn lemma_default_round(r: RuleView)
    requires
        r.sound != Some(Seq::<char>::empty()),
    ensures
        default_rule_of(default_rule_json(r)) == Ok::<RuleView, ErrorView>(r),
{
    law_rule_round(RuleView { sound: Some(or_empty(r.sound)), ..r });
    if r.sound is Some && r.sound->0.len() == 0 {
        assert(r.sound->0 =~= Seq::<char>::empty());
    }
}

proof fn lemma_rules_round(rules: Seq<(Seq<char>, RuleView)>)
    requires
        distinct(rules),
    ensures
        rules_of(rule_jsons(rules)) == Ok::<Seq<(Seq<char>, RuleView)>, ErrorView>(rules),
    decreases rules.len(),
{
    let all = rule_jsons(rules);
    if rules.len() == 0 {
        assert(rules =~= seq![]);
    } else {
        let front = rules.drop_last();
        let last = rules.last();
        assert forall|i: int, j: int| 0 <= i < j < front.len() implies (#[trigger] front[i]).0 != (
        #[trigger] front[j]).0 by {
            assert(rules[i].0 != rules[j].0);
        }
        lemma_rules_round(front);
        assert(all.drop_last() =~= rule_jsons(front));
        law_rule_round(last.1);
        assert forall|j: int| 0 <= j < front.len() implies (#[trigger] front[j]).0 != last.0 by {
            assert(rules[j].0 != rules[rules.len() - 1].0);
        }
        lemma_key_absent(front, last.0);
        assert(with_entry(front, last.0, last.1) =~= rules);
    }
}

proof fn lemma_rule_numbers(r: RuleView)
    requires
        lasting(r),
    ensures
        numbers_ok(rule_json(r)),
{
    let m = rule_members(r);
    assert forall|i: int| 0 <= i < m.len() implies numbers_ok((#[trigger] m[i]).1) by {
        assert(m[i].1 is String || m[i].1 is Bool || m[i].1 == JsonView::Number(r.timeout_s->0));
    }
    lemma_members_ok(m);
}

proof fn lemma_trim_keeps(s: Seq<char>)
    requires
        s.len() > 0,
        !white(s[0]),
    ensures
        trim_back(s).len() > 0,
    decreases s.len(),
{
    if white(s.last()) {
        assert(s.len() > 1);
        lemma_trim_keeps(s.drop_last());
    }
}

/// A configuration that is saved is loaded again: the default rule is the same, and
/// the rules of applications are the same, in the order of their keys.
pub proof fn law_config_round(c: ConfigView)
    requires
        distinct(c.apps),
        lasting(c.default),
        c.default.sound != Some(Seq::<char>::empty()),
        forall|i: int| 0 <= i < c.apps.len() ==> lasting((#[trigger] c.apps[i]).1),
    ensures
        config_in(config_text(c)) == Ok::<ConfigView, ErrorView>(
            ConfigView { default: c.default, apps: in_order(c.apps) },
        ),
{
    let sorted = in_order(c.apps);
    let jsons = rule_jsons(sorted);
    let root = config_json(c);
    law_in_order(c.apps);
    assert forall|i: int| 0 <= i < sorted.len() implies lasting((#[trigger] sorted[i]).1) by {
        assert(sorted.contains(sorted[i]));
        assert(c.apps.contains(sorted[i]));
        let k = choose|k: int| 0 <= k < c.apps.len() && c.apps[k] == sorted[i];
        assert(lasting(c.apps[k].1));
    }
    lemma_rules_round(sorted);
    lemma_default_round(c.default);
    assert forall|i: int| 0 <= i < jsons.len() implies numbers_ok((#[trigger] jsons[i]).1) by {
        assert(lasting(sorted[i].1));
        lemma_rule_numbers(sorted[i].1);
    }
    lemma_members_ok(jsons);
    lemma_rule_numbers(RuleView { sound: Some(or_empty(c.default.sound)), ..c.default });
    assert(numbers_ok(JsonView::Object(jsons)));
    lemma_members_ok(root->Object_0);
    assert(numbers_ok(root));
    law_json_line_round(root);
    reveal_strlit("\n");
    reveal_strlit("apps");
    reveal_strlit("default");
    assert("\n"@ =~= seq!['\n']);
    let text = config_text(c);
    assert(written(root, 0)[0] == '{');
    assert(text[0] == '{');
    assert(trim_front(text) == text);
    lemma_trim_keeps(text);
    assert("apps"@[0] != "default"@[0]);
    reveal_with_fuel(key_index, 3);
    assert(member(root, "apps"@) == Some(JsonView::Object(jsons)));
    assert(member(root, "default"@) == Some(default_rule_json(c.default)));
}

/// Two configurations with the same rules are saved as the same text, in whatever order the
/// rules were set.
pub proof fn law_one_text(c: ConfigView, d: ConfigView)
    requires
        distinct(c.apps),
        distinct(d.apps),
        c.default == d.default,
        forall|e: (Seq<char>, RuleView)| c.apps.contains(e) <==> #[trigger] d.apps.contains(e),
    ensures
        config_text(c) == config_text(d),
{
    law_one_order(c.apps, d.apps);
}

/// Saving what was loaded from a saved configuration changes nothing.
pub proof fn law_saved_again(c: ConfigView)
    requires
        distinct(c.apps),
        lasting(c.default),
        c.default.sound != Some(Seq::<char>::empty()),
        forall|i: int| 0 <= i < c.apps.len() ==> lasting((#[trigger] c.apps[i]).1),
    ensures
        config_in(config_text(c)) matches Ok(d) && config_text(d) == config_text(c),
{
    law_config_round(c);
    law_in_order(c.apps);
    let d = ConfigView { default: c.default, apps: in_order(c.apps) };
    assert forall|e: (Seq<char>, RuleView)| c.apps.contains(e) <==> #[trigger] d.apps.contains(
        e,
    ) by {
        assert(in_order(c.apps).contains(e) <==> c.apps.contains(e));
    }
    law_one_text(c, d);
}

/// What the rule of an application sets wins over the default rule, which counts for
/// all that it leaves out. Whether the application is handled is for its own rule to
/// say. Without a rule of its own, the default rule counts.
pub proof fn law_rule_precedence(c: ConfigView, app: Seq<char>)
    ensures
        match own_rule(c, app) {
            Some(own) => {
                let r = effective_rule(c, app);
                &&& own.sound is Some ==> r.sound == audible(own.sound)
                &&& own.sound is None ==> r.sound == audible(c.default.sound)
                &&& own.timeout_s is Some ==> r.timeout_s == own.timeout_s
                &&& own.timeout_s is None ==> r.timeout_s == c.default.timeout_s
                &&& own.urgency is Some ==> r.urgency == own.urgency
                &&& own.urgency is None ==> r.urgency == c.default.urgency
                &&& r.enabled == own.enabled
            },
            None => effective_rule(c, app) == (RuleView {
                sound: audible(c.default.sound),
                ..c.default
            }),
        },
{
}

/// An empty sound in the rule of an application mutes it, whatever the default sound is.
pub proof fn law_empty_sound_mutes(c: ConfigView, app: Seq<char>)
    requires
        own_rule(c, app) matches Some(own) && own.sound == Some(Seq::<char>::empty()),
    ensures
        effective_rule(c, app).sound is None,
        is_muted(c, app),
{
}

/// The rule under the exact name of an application wins over those under names that
/// differ in the case of letters.
pub proof fn law_exact_name_first(c: ConfigView, app: Seq<char>)
    ensures
        lookup(c.apps, app) is Some ==> own_rule(c, app) == lookup(c.apps, app),
{
}

/// Setting the sound of an application keeps the rest of its rule and the rules of all
/// others; the sound is the one that counts from then on.
pub proof fn law_set_sound(c: ConfigView, item: Seq<char>, other: Seq<char>)
    ensures
        ({
            let i = index_of(item, '=');
            let key = trimmed(item.take(i as int));
            let val = trimmed(item.skip(i as int + 1));
            i < item.len() && key.len() > 0 && val.len() > 0 && !same_letters(key, "default"@)
                ==> {
                &&& with_sound(c, item) is Ok
                &&& effective_rule(with_sound(c, item)->Ok_0.0, key).sound == Some(val)
                &&& lookup(c.apps, key) matches Some(r) ==> lookup(
                    with_sound(c, item)->Ok_0.0.apps,
                    key,
                ) == Some(RuleView { sound: Some(val), ..r })
                &&& other != key ==> lookup(with_sound(c, item)->Ok_0.0.apps, other) == lookup(
                    c.apps,
                    other,
                )
                &&& with_sound(c, item)->Ok_0.0.default == c.default
            }
        }),
{
    let i = index_of(item, '=');
    let key = trimmed(item.take(i as int));
    let val = trimmed(item.skip(i as int + 1));
    let rule = match lookup(c.apps, key) {
        Some(r) => r,
        None => plain_rule(),
    };
    law_entry_set(c.apps, key, RuleView { sound: Some(val), ..rule }, other);
}

/// An empty path takes the rule of an application out, and leaves the rules of all others.
pub proof fn law_rule_taken_out(c: ConfigView, item: Seq<char>, other: Seq<char>)
    ensures
        ({
            let i = index_of(item, '=');
            let key = trimmed(item.take(i as int));
            let val = trimmed(item.skip(i as int + 1));
            i < item.len() && key.len() > 0 && val.len() == 0 && !same_letters(key, "default"@)
                ==> {
                &&& with_sound(c, item) is Ok
                &&& lookup(with_sound(c, item)->Ok_0.0.apps, key) is None
                &&& other != key ==> lookup(with_sound(c, item)->Ok_0.0.apps, other) == lookup(
                    c.apps,
                    other,
                )
                &&& with_sound(c, item)->Ok_0.0.default == c.default
            }
        }),
{
    let key = trimmed(item.take(index_of(item, '=') as int));
    law_entry_removed(c.apps, key, other);
}

/// Setting the default sound, or muting it by an empty path, leaves the rules of all
/// applications and the rest of the default rule as they are.
pub proof fn law_default_sound(c: ConfigView, item: Seq<char>)
    ensures
        ({
            let i = index_of(item, '=');
            let key = trimmed(item.take(i as int));
            let val = trimmed(item.skip(i as int + 1));
            i < item.len() && same_letters(key, "default"@) ==> {
                &&& with_sound(c, item) is Ok
                &&& with_sound(c, item)->Ok_0.0 == (ConfigView {
                    default: RuleView { sound: non_empty(val), ..c.default },
                    ..c
                })
            }
        }),
{
    reveal_strlit("default");
}

} // verus!

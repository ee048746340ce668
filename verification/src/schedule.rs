//! What the user wants to run, and when. A definition says nothing about how
//! a system keeps it, or about what runs.

use crate::json;
use crate::json::{read_json, write_json, Json, JsonView, ObjectBuilder};
use crate::text;
use crate::text::{cat2, cat4, chars_of, code_of, same};
use vstd::prelude::*;

verus! {

/// When something runs.
#[derive(Clone, Debug, PartialEq, Eq)]
pub enum ScheduleTrigger {
    Once { at: String },
    Daily { at: String, timezone: String },
    AtLogon,
    AtStartup,
}

/// When something runs.
pub enum TriggerView {
    Once { at: Seq<char> },
    Daily { at: Seq<char>, timezone: Seq<char> },
    AtLogon,
    AtStartup,
}

impl View for ScheduleTrigger {
    type V = TriggerView;

    open spec fn view(&self) -> TriggerView {
        match self {
            ScheduleTrigger::Once { at } => TriggerView::Once { at: at@ },
            ScheduleTrigger::Daily { at, timezone } => TriggerView::Daily {
                at: at@,
                timezone: timezone@,
            },
            ScheduleTrigger::AtLogon => TriggerView::AtLogon,
            ScheduleTrigger::AtStartup => TriggerView::AtStartup,
        }
    }
}

impl ScheduleTrigger {
    fn copy(&self) -> (r: ScheduleTrigger)
        ensures
            r@ == self@,
    {
        match self {
            ScheduleTrigger::Once { at } => ScheduleTrigger::Once { at: at.clone() },
            ScheduleTrigger::Daily { at, timezone } => ScheduleTrigger::Daily {
                at: at.clone(),
                timezone: timezone.clone(),
            },
            ScheduleTrigger::AtLogon => ScheduleTrigger::AtLogon,
            ScheduleTrigger::AtStartup => ScheduleTrigger::AtStartup,
        }
    }
}

/// Something that runs again and again.
#[derive(Debug, PartialEq, Eq)]
pub struct ScheduleDefinition {
    name: String,
    task_name: String,
    trigger: ScheduleTrigger,
    enabled: bool,
}

/// Something that runs again and again.
#[verifier::ext_equal]
pub struct ScheduleView {
    pub name: Seq<char>,
    pub task_name: Seq<char>,
    pub trigger: TriggerView,
    pub enabled: bool,
}

impl View for ScheduleDefinition {
    type V = ScheduleView;

    closed spec fn view(&self) -> ScheduleView {
        ScheduleView {
            name: self.name@,
            task_name: self.task_name@,
            trigger: self.trigger@,
            enabled: self.enabled,
        }
    }
}

// ---------------------------------------------------------------------------
// Validity
// ---------------------------------------------------------------------------

/// Whether `chrono::DateTime::parse_from_rfc3339` accepts a text.
pub uninterp spec fn rfc3339_accepted(s: Seq<char>) -> bool;

/// Whether `chrono::NaiveTime::parse_from_str` accepts a text in a format.
pub uninterp spec fn time_accepted(s: Seq<char>, format: Seq<char>) -> bool;

/// Whether a text names a time zone of `chrono_tz`.
pub uninterp spec fn zone_accepted(s: Seq<char>) -> bool;

/// Calls `chrono::DateTime::parse_from_rfc3339`: whether a text is accepted
/// depends on the text alone.
#[verifier::external_body]
fn accepts_rfc3339(s: &str) -> (r: bool)
    ensures
        r == rfc3339_accepted(s@),
{
    chrono::DateTime::parse_from_rfc3339(s).is_ok()
}

/// Calls `chrono::NaiveTime::parse_from_str`: whether a text is accepted
/// depends on the text and the format alone.
#[verifier::external_body]
fn accepts_time(s: &str, format: &str) -> (r: bool)
    ensures
        r == time_accepted(s@, format@),
{
    chrono::NaiveTime::parse_from_str(s, format).is_ok()
}

/// Parses a text as a `chrono_tz::Tz`: whether it is accepted depends on the
/// text alone.
#[verifier::external_body]
fn accepts_zone(s: &str) -> (r: bool)
    ensures
        r == zone_accepted(s@),
{
    s.parse::<chrono_tz::Tz>().is_ok()
}

/// Whether a character can stand in a name.
pub open spec fn is_label_char(c: char) -> bool {
    text::is_ascii_letter(c) || text::is_digit_char(c) || c == '-' || c == '_' || c == '.'
}

/// Whether a text is a name.
pub open spec fn is_label(s: Seq<char>) -> bool {
    s.len() > 0 && forall|i: int| 0 <= i < s.len() ==> is_label_char(#[trigger] s[i])
}

/// What is wrong with a name; nothing where it is one.
pub open spec fn label_fault(kind: Seq<char>, s: Seq<char>) -> Option<Seq<char>> {
    if is_label(s) {
        None
    } else {
        Some(kind + " name must contain only ASCII letters, digits, '-', '_', or '.'"@)
    }
}

fn find_label_fault(kind: &str, name: &str) -> (r: Option<String>)
    ensures
        match r {
            Some(e) => label_fault(kind@, name@) == Some(e@),
            None => label_fault(kind@, name@) is None,
        },
{
    let v = chars_of(name);
    let mut good = v.len() > 0;
    let mut i: usize = 0;
    while i < v.len()
        invariant
            i <= v@.len(),
            v@ == name@,
            good == (v@.len() > 0 && forall|j: int| 0 <= j < i ==> is_label_char(#[trigger] v@[j])),
        decreases v@.len() - i,
    {
        let c = v[i];
        let u = code_of(c);
        let letter = (65 <= u && u <= 90) || (97 <= u && u <= 122);
        let digit = 48 <= u && u <= 57;
        if !(letter || digit || c == '-' || c == '_' || c == '.') {
            assert(!is_label_char(v@[i as int]));
            good = false;
        }
        i = i + 1;
    }
    if good {
        None
    } else {
        Some(cat2(kind, " name must contain only ASCII letters, digits, '-', '_', or '.'"))
    }
}

/// What is known of the texts of a trigger.
#[derive(Clone, Copy, Debug, PartialEq, Eq, Structural)]
pub struct TriggerFacts {
    /// Whether the time is a timestamp with an offset.
    pub timestamp: bool,
    /// Whether the time is a time of the day.
    pub time: bool,
    /// Whether the time zone is known.
    pub zone: bool,
}

/// What is wrong with a trigger, by what is known of its texts; nothing where
/// nothing is.
pub open spec fn trigger_fault_by(t: TriggerView, facts: TriggerFacts) -> Option<Seq<char>> {
    match t {
        TriggerView::Once { at } => if facts.timestamp {
            None
        } else {
            Some("once trigger must be an RFC 3339 timestamp with an offset"@)
        },
        TriggerView::Daily { at, timezone } => if !facts.time {
            Some("daily trigger time must be HH:MM or HH:MM:SS"@)
        } else if !facts.zone {
            Some("unknown schedule timezone: "@ + timezone)
        } else {
            None
        },
        _ => None,
    }
}

/// Judges a trigger by what is known of its texts.
pub fn judge_trigger(trigger: &ScheduleTrigger, facts: TriggerFacts) -> (r: Option<String>)
    ensures
        match r {
            Some(e) => trigger_fault_by(trigger@, facts) == Some(e@),
            None => trigger_fault_by(trigger@, facts) is None,
        },
{
    match trigger {
        ScheduleTrigger::Once { at } => if facts.timestamp {
            None
        } else {
            Some("once trigger must be an RFC 3339 timestamp with an offset".to_owned())
        },
        ScheduleTrigger::Daily { at, timezone } => if !facts.time {
            Some("daily trigger time must be HH:MM or HH:MM:SS".to_owned())
        } else if !facts.zone {
            Some(cat2("unknown schedule timezone: ", timezone.as_str()))
        } else {
            None
        },
        _ => None,
    }
}

/// What is known of the texts of a trigger.
pub open spec fn facts_of(t: TriggerView) -> TriggerFacts {
    match t {
        TriggerView::Once { at } => TriggerFacts {
            timestamp: rfc3339_accepted(at),
            time: false,
            zone: false,
        },
        TriggerView::Daily { at, timezone } => TriggerFacts {
            timestamp: false,
            time: time_accepted(at, "%H:%M"@) || time_accepted(at, "%H:%M:%S"@),
            zone: zone_accepted(timezone),
        },
        _ => TriggerFacts { timestamp: false, time: false, zone: false },
    }
}

/// What is wrong with a trigger; nothing where nothing is.
pub open spec fn trigger_fault(t: TriggerView) -> Option<Seq<char>> {
    trigger_fault_by(t, facts_of(t))
}

fn find_facts(trigger: &ScheduleTrigger) -> (r: TriggerFacts)
    ensures
        r == facts_of(trigger@),
{
    match trigger {
        ScheduleTrigger::Once { at } => TriggerFacts {
            timestamp: accepts_rfc3339(at.as_str()),
            time: false,
            zone: false,
        },
        ScheduleTrigger::Daily { at, timezone } => TriggerFacts {
            timestamp: false,
            time: accepts_time(at.as_str(), "%H:%M") || accepts_time(at.as_str(), "%H:%M:%S"),
            zone: accepts_zone(timezone.as_str()),
        },
        _ => TriggerFacts { timestamp: false, time: false, zone: false },
    }
}

/// What is wrong with a definition, the name of the schedule first; nothing
/// where nothing is.
pub open spec fn fault(v: ScheduleView) -> Option<Seq<char>> {
    match label_fault("schedule"@, v.name) {
        Some(e) => Some(e),
        None => match label_fault("task"@, v.task_name) {
            Some(e) => Some(e),
            None => trigger_fault(v.trigger),
        },
    }
}

/// A definition, or what is wrong with it.
pub open spec fn defined(v: ScheduleView) -> Result<ScheduleView, Seq<char>> {
    match fault(v) {
        Some(e) => Err(e),
        None => Ok(v),
    }
}

/// What defining gave.
pub open spec fn definition_view(r: Result<ScheduleDefinition, String>) -> Result<
    ScheduleView,
    Seq<char>,
> {
    match r {
        Ok(d) => Ok(d@),
        Err(e) => Err(e@),
    }
}

// ---------------------------------------------------------------------------
// JSON
// ---------------------------------------------------------------------------

/// The JSON value of a trigger.
pub open spec fn trigger_tree(t: TriggerView) -> JsonView {
    let none = Map::<Seq<char>, JsonView>::empty();
    match t {
        TriggerView::Once { at } => JsonView::Object(
            none.insert("kind"@, JsonView::Text("once"@)).insert("at"@, JsonView::Text(at)),
        ),
        TriggerView::Daily { at, timezone } => JsonView::Object(
            none.insert("kind"@, JsonView::Text("daily"@)).insert(
                "at"@,
                JsonView::Text(at),
            ).insert("timezone"@, JsonView::Text(timezone)),
        ),
        TriggerView::AtLogon => JsonView::Object(
            none.insert("kind"@, JsonView::Text("at_logon"@)),
        ),
        TriggerView::AtStartup => JsonView::Object(
            none.insert("kind"@, JsonView::Text("at_startup"@)),
        ),
    }
}

/// The JSON value of a definition.
pub open spec fn schedule_tree(v: ScheduleView) -> JsonView {
    JsonView::Object(
        Map::<Seq<char>, JsonView>::empty().insert("version"@, JsonView::Number(1)).insert(
            "name"@,
            JsonView::Text(v.name),
        ).insert("task_name"@, JsonView::Text(v.task_name)).insert(
            "trigger"@,
            trigger_tree(v.trigger),
        ).insert("enabled"@, JsonView::Truth(v.enabled)),
    )
}

/// A text that has to be there, or a message.
pub open spec fn required(j: JsonView, field: Seq<char>) -> Result<Seq<char>, Seq<char>> {
    match j.text(field) {
        Some(s) => Ok(s),
        None => Err("schedule data is missing "@ + field),
    }
}

/// The trigger in a JSON value, or a message.
pub open spec fn trigger_from(j: JsonView) -> Result<TriggerView, Seq<char>> {
    match required(j, "kind"@) {
        Err(e) => Err(e),
        Ok(kind) => if kind == "once"@ {
            match required(j, "at"@) {
                Err(e) => Err(e),
                Ok(at) => Ok(TriggerView::Once { at }),
            }
        } else if kind == "daily"@ {
            match required(j, "at"@) {
                Err(e) => Err(e),
                Ok(at) => match required(j, "timezone"@) {
                    Err(e) => Err(e),
                    Ok(timezone) => Ok(TriggerView::Daily { at, timezone }),
                },
            }
        } else if kind == "at_logon"@ {
            Ok(TriggerView::AtLogon)
        } else if kind == "at_startup"@ {
            Ok(TriggerView::AtStartup)
        } else {
            Err("unknown schedule trigger kind: "@ + kind)
        },
    }
}

/// The definition in a JSON value, or a message.
pub open spec fn schedule_from(j: JsonView) -> Result<ScheduleView, Seq<char>> {
    if j.number("version"@) != Some(1u64) {
        Err("unsupported schedule data version"@)
    } else {
        match required(j, "name"@) {
            Err(e) => Err(e),
            Ok(name) => match required(j, "task_name"@) {
                Err(e) => Err(e),
                Ok(task_name) => match j.field("trigger"@) {
                    None => Err("schedule data is missing trigger"@),
                    Some(t) => match trigger_from(t) {
                        Err(e) => Err(e),
                        Ok(trigger) => match j.truth("enabled"@) {
                            None => Err("schedule data is missing enabled"@),
                            Some(enabled) => defined(
                                ScheduleView { name, task_name, trigger, enabled },
                            ),
                        },
                    },
                },
            },
        }
    }
}

/// The definition in a text, or a message.
pub open spec fn schedule_parsed(s: Seq<char>) -> Result<ScheduleView, Seq<char>> {
    match json::json_parsed(s) {
        Err(e) => Err("invalid schedule data: "@ + e),
        Ok(j) => schedule_from(j),
    }
}

fn build_trigger(t: &ScheduleTrigger) -> (r: Json)
    ensures
        r@ == trigger_tree(t@),
{
    let mut b = ObjectBuilder::new();
    match t {
        ScheduleTrigger::Once { at } => {
            b.put("kind", Json::of_text("once"));
            b.put("at", Json::of_text(at.as_str()));
        },
        ScheduleTrigger::Daily { at, timezone } => {
            b.put("kind", Json::of_text("daily"));
            b.put("at", Json::of_text(at.as_str()));
            b.put("timezone", Json::of_text(timezone.as_str()));
        },
        ScheduleTrigger::AtLogon => {
            b.put("kind", Json::of_text("at_logon"));
        },
        ScheduleTrigger::AtStartup => {
            b.put("kind", Json::of_text("at_startup"));
        },
    }
    b.build()
}

fn required_string(j: &Json, field: &str) -> (r: Result<String, String>)
    ensures
        match r {
            Ok(s) => required(j@, field@) == Ok::<Seq<char>, Seq<char>>(s@),
            Err(e) => required(j@, field@) == Err::<Seq<char>, Seq<char>>(e@),
        },
{
    match j.get_text(field) {
        Some(s) => Ok(s),
        None => Err(cat2("schedule data is missing ", field)),
    }
}

fn take_trigger(j: &Json) -> (r: Result<ScheduleTrigger, String>)
    ensures
        match r {
            Ok(t) => trigger_from(j@) == Ok::<TriggerView, Seq<char>>(t@),
            Err(e) => trigger_from(j@) == Err::<TriggerView, Seq<char>>(e@),
        },
{
    let kind = match required_string(j, "kind") {
        Err(e) => {
            return Err(e);
        },
        Ok(s) => s,
    };
    if same(kind.as_str(), "once") {
        match required_string(j, "at") {
            Err(e) => Err(e),
            Ok(at) => Ok(ScheduleTrigger::Once { at }),
        }
    } else if same(kind.as_str(), "daily") {
        match required_string(j, "at") {
            Err(e) => Err(e),
            Ok(at) => match required_string(j, "timezone") {
                Err(e) => Err(e),
                Ok(timezone) => Ok(ScheduleTrigger::Daily { at, timezone }),
            },
        }
    } else if same(kind.as_str(), "at_logon") {
        Ok(ScheduleTrigger::AtLogon)
    } else if same(kind.as_str(), "at_startup") {
        Ok(ScheduleTrigger::AtStartup)
    } else {
        Err(cat2("unknown schedule trigger kind: ", kind.as_str()))
    }
}

/// How a trigger is shown.
pub open spec fn shown_trigger(t: TriggerView) -> Seq<char> {
    match t {
        TriggerView::Once { at } => "once "@ + at,
        TriggerView::Daily { at, timezone } => "daily "@ + at + " "@ + timezone,
        TriggerView::AtLogon => "at-logon"@,
        TriggerView::AtStartup => "at-startup"@,
    }
}

impl ScheduleDefinition {
    #[verifier::type_invariant]
    spec fn is_sound(&self) -> bool {
        fault(self@) is None
    }

    /// Defines a schedule, or says what is wrong with it.
    pub fn new(name: String, task_name: String, trigger: ScheduleTrigger, enabled: bool) -> (r:
        Result<ScheduleDefinition, String>)
        ensures
            definition_view(r) == defined(
                ScheduleView { name: name@, task_name: task_name@, trigger: trigger@, enabled },
            ),
    {
        if let Some(e) = find_label_fault("schedule", name.as_str()) {
            return Err(e);
        }
        if let Some(e) = find_label_fault("task", task_name.as_str()) {
            return Err(e);
        }
        let facts = find_facts(&trigger);
        if let Some(e) = judge_trigger(&trigger, facts) {
            return Err(e);
        }
        Ok(ScheduleDefinition { name, task_name, trigger, enabled })
    }

    /// The name of the schedule.
    pub fn name(&self) -> (r: &str)
        ensures
            r@ == self@.name,
    {
        self.name.as_str()
    }

    /// The name of the task that runs.
    pub fn task_name(&self) -> (r: &str)
        ensures
            r@ == self@.task_name,
    {
        self.task_name.as_str()
    }

    /// When it runs.
    pub fn trigger(&self) -> (r: &ScheduleTrigger)
        ensures
            r@ == self@.trigger,
    {
        &self.trigger
    }

    /// Whether it runs at all.
    pub fn enabled(&self) -> (r: bool)
        ensures
            r == self@.enabled,
    {
        self.enabled
    }

    /// The same schedule, on or off.
    pub fn with_enabled(&self, enabled: bool) -> (r: ScheduleDefinition)
        ensures
            r@ == (ScheduleView { enabled, ..self@ }),
    {
        proof {
            use_type_invariant(self);
        }
        ScheduleDefinition {
            name: self.name.clone(),
            task_name: self.task_name.clone(),
            trigger: self.trigger.copy(),
            enabled,
        }
    }

    /// Shows when it runs.
    pub fn display_trigger(&self) -> (r: String)
        ensures
            r@ == shown_trigger(self@.trigger),
    {
        match &self.trigger {
            ScheduleTrigger::Once { at } => cat2("once ", at.as_str()),
            ScheduleTrigger::Daily { at, timezone } => cat4(
                "daily ",
                at.as_str(),
                " ",
                timezone.as_str(),
            ),
            ScheduleTrigger::AtLogon => "at-logon".to_owned(),
            ScheduleTrigger::AtStartup => "at-startup".to_owned(),
        }
    }

    /// Writes the definition as JSON, from which it is read back as it is.
    pub fn to_json(&self) -> (r: String)
        ensures
            r@ == json::json_written(schedule_tree(self@)),
            schedule_parsed(r@) == Ok::<ScheduleView, Seq<char>>(self@),
    {
        proof {
            use_type_invariant(self);
        }
        let mut b = ObjectBuilder::new();
        b.put("version", Json::Number(1));
        b.put("name", Json::of_text(self.name.as_str()));
        b.put("task_name", Json::of_text(self.task_name.as_str()));
        b.put("trigger", build_trigger(&self.trigger));
        b.put("enabled", Json::Truth(self.enabled));
        let j = b.build();
        proof {
            lemma_schedule_writable(self@);
            law_schedule_comes_back(self@);
        }
        write_json(&j)
    }

    /// Reads a definition from JSON, or says what is wrong with it.
    pub fn from_json(s: &str) -> (r: Result<ScheduleDefinition, String>)
        ensures
            definition_view(r) == schedule_parsed(s@),
    {
        let j = match read_json(s) {
            Err(e) => {
                return Err(cat2("invalid schedule data: ", e.as_str()));
            },
            Ok(j) => j,
        };
        match j.get_number("version") {
            Some(1) => {},
            _ => {
                return Err("unsupported schedule data version".to_owned());
            },
        }
        let name = match required_string(&j, "name") {
            Err(e) => {
                return Err(e);
            },
            Ok(s) => s,
        };
        let task_name = match required_string(&j, "task_name") {
            Err(e) => {
                return Err(e);
            },
            Ok(s) => s,
        };
        let trigger = match j.get("trigger") {
            None => {
                return Err("schedule data is missing trigger".to_owned());
            },
            Some(t) => match take_trigger(t) {
                Err(e) => {
                    return Err(e);
                },
                Ok(t) => t,
            },
        };
        match j.get_truth("enabled") {
            None => Err("schedule data is missing enabled".to_owned()),
            Some(enabled) => ScheduleDefinition::new(name, task_name, trigger, enabled),
        }
    }
}

impl Clone for ScheduleDefinition {
    fn clone(&self) -> (r: ScheduleDefinition)
        ensures
            r@ == self@,
    {
        self.with_enabled(self.enabled)
    }
}

proof fn lemma_trigger_writable(t: TriggerView)
    ensures
        json::writable(trigger_tree(t), 2),
{
    reveal_with_fuel(json::writable, 3);
}

proof fn lemma_schedule_writable(v: ScheduleView)
    ensures
        json::writable(schedule_tree(v), 100),
{
    lemma_trigger_writable(v.trigger);
    json::lemma_deeper(trigger_tree(v.trigger), 2, 99);
    let m = schedule_tree(v)->Object_0;
    assert forall|k: Seq<char>| m.dom().contains(k) implies json::writable(#[trigger] m[k], 99) by {
        if k == "enabled"@ || k == "name"@ || k == "task_name"@ || k == "version"@ {
        }
    }
}

/// The words of the JSON values are all different.
proof fn lemma_words()
    ensures
        "version"@ != "name"@,
        "version"@ != "task_name"@,
        "version"@ != "trigger"@,
        "version"@ != "enabled"@,
        "name"@ != "task_name"@,
        "name"@ != "trigger"@,
        "name"@ != "enabled"@,
        "task_name"@ != "trigger"@,
        "task_name"@ != "enabled"@,
        "trigger"@ != "enabled"@,
        "kind"@ != "at"@,
        "kind"@ != "timezone"@,
        "at"@ != "timezone"@,
        "once"@ != "daily"@,
        "once"@ != "at_logon"@,
        "once"@ != "at_startup"@,
        "daily"@ != "at_logon"@,
        "daily"@ != "at_startup"@,
        "at_logon"@ != "at_startup"@,
{
    reveal_strlit("version");
    reveal_strlit("name");
    reveal_strlit("task_name");
    reveal_strlit("trigger");
    reveal_strlit("enabled");
    reveal_strlit("kind");
    reveal_strlit("at");
    reveal_strlit("timezone");
    reveal_strlit("once");
    reveal_strlit("daily");
    reveal_strlit("at_logon");
    reveal_strlit("at_startup");
    assert("version"@[0] == 'v' && "trigger"@[0] == 't' && "enabled"@[0] == 'e');
    assert("name"@.len() == 4 && "task_name"@.len() == 9 && "version"@.len() == 7);
    assert("trigger"@.len() == 7 && "enabled"@.len() == 7);
    assert("kind"@.len() == 4 && "at"@.len() == 2 && "timezone"@.len() == 8);
    assert("once"@.len() == 4 && "daily"@.len() == 5 && "at_logon"@.len() == 8
        && "at_startup"@.len() == 10);
}

/// A definition is read back from its JSON value as it is.
pub proof fn law_schedule_comes_back(v: ScheduleView)
    requires
        fault(v) is None,
    ensures
        schedule_from(schedule_tree(v)) == Ok::<ScheduleView, Seq<char>>(v),
{
    lemma_words();
    assert(trigger_from(trigger_tree(v.trigger)) == Ok::<TriggerView, Seq<char>>(v.trigger));
}

/// What is read is a definition that could have been made: reading lets
/// nothing through that defining refuses.
pub proof fn law_nothing_unsound_is_read(s: Seq<char>)
    ensures
        schedule_parsed(s) matches Ok(v) ==> fault(v) is None,
{
}

/// Turning a schedule off and on again gives it back.
pub proof fn law_enabling_undoes_disabling(v: ScheduleView)
    requires
        v.enabled,
    ensures
        (ScheduleView { enabled: true, ..(ScheduleView { enabled: false, ..v }) }) == v,
{
}

/// A name is made of ASCII letters, digits, hyphens, underscores and dots, and
/// is not empty; a schedule or a task by any other name is refused.
pub proof fn law_names_are_checked(v: ScheduleView, k: int)
    ensures
        v.name.len() == 0 ==> defined(v) is Err,
        v.task_name.len() == 0 ==> defined(v) is Err,
        0 <= k < v.name.len() && (v.name[k] == ' ' || v.name[k] == '/' || v.name[k] == '\\'
            || v.name[k] == ':') ==> defined(v) is Err,
        0 <= k < v.task_name.len() && (v.task_name[k] == ' ' || v.task_name[k] == '/'
            || v.task_name[k] == '\\' || v.task_name[k] == ':') ==> defined(v) is Err,
{
    if 0 <= k < v.name.len() && is_label(v.name) {
        assert(is_label_char(v.name[k]));
    }
    if 0 <= k < v.task_name.len() && is_label(v.task_name) {
        assert(is_label_char(v.task_name[k]));
    }
}

/// Whether every character is an ASCII letter, a digit, a hyphen, an
/// underscore or a dot.
pub open spec fn is_well_named(s: Seq<char>) -> bool {
    s.len() > 0 && forall|i: int|
        0 <= i < s.len() ==> ('a' <= #[trigger] s[i] <= 'z') || ('A' <= s[i] <= 'Z') || ('0' <= s[i]
            <= '9') || s[i] == '-' || s[i] == '_' || s[i] == '.'
}

/// A schedule that is well named is defined by its trigger: at logon and at
/// startup always, once where its time is a timestamp, and daily where its
/// time is a time and its zone a zone. What is defined is what was given.
pub proof fn law_triggers_are_checked(v: ScheduleView)
    requires
        is_well_named(v.name),
        is_well_named(v.task_name),
    ensures
        v.trigger is AtLogon || v.trigger is AtStartup ==> defined(v) == Ok::<
            ScheduleView,
            Seq<char>,
        >(v),
        v.trigger matches TriggerView::Once { at } ==> (defined(v) is Ok <==> rfc3339_accepted(at)),
        v.trigger matches TriggerView::Daily { at, timezone } ==> (defined(v) is Ok <==> (
        time_accepted(at, "%H:%M"@) || time_accepted(at, "%H:%M:%S"@)) && zone_accepted(timezone)),
        defined(v) matches Ok(w) ==> w == v,
{
    assert forall|i: int| 0 <= i < v.name.len() implies is_label_char(#[trigger] v.name[i]) by {
    }
    assert forall|i: int| 0 <= i < v.task_name.len() implies is_label_char(
        #[trigger] v.task_name[i],
    ) by {
    }
}

/// A trigger is shown by its kind and its texts, so that two kinds are never
/// shown alike.
pub proof fn law_triggers_are_shown_by_kind(at: Seq<char>, timezone: Seq<char>)
    ensures
        shown_trigger(TriggerView::Once { at }) == "once "@ + at,
        shown_trigger(TriggerView::Daily { at, timezone }) == "daily "@ + at + " "@ + timezone,
        shown_trigger(TriggerView::AtLogon) == "at-logon"@,
        shown_trigger(TriggerView::AtStartup) == "at-startup"@,
{
}

} // verus!

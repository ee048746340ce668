use ion_win::schedule::{judge_trigger, ScheduleDefinition, ScheduleTrigger, TriggerFacts};

#[test]
fn validates_platform_neutral_schedule_intent() {
    let schedule = ScheduleDefinition::new(
        "nightly".to_string(),
        "backup".to_string(),
        ScheduleTrigger::Daily {
            at: "23:30".into(),
            timezone: "Australia/Sydney".into(),
        },
        true,
    )
    .unwrap();
    assert_eq!(schedule.name(), "nightly");
    assert_eq!(schedule.task_name(), "backup");
    assert!(schedule.enabled());
    assert!(matches!(schedule.trigger(), ScheduleTrigger::Daily { .. }));
    assert_eq!(
        ScheduleDefinition::from_json(&schedule.to_json()).unwrap(),
        schedule
    );
}

#[test]
fn rejects_ambiguous_or_invalid_calendar_values() {
    assert!(ScheduleDefinition::new(
        "nightly".to_string(),
        "backup".to_string(),
        ScheduleTrigger::Once {
            at: "tomorrow".into()
        },
        true,
    )
    .is_err());
    assert!(ScheduleDefinition::new(
        "nightly".to_string(),
        "backup".to_string(),
        ScheduleTrigger::Daily {
            at: "25:00".into(),
            timezone: "Local".into(),
        },
        true,
    )
    .is_err());
}

fn named(name: &str, task: &str) -> Result<ScheduleDefinition, String> {
    ScheduleDefinition::new(name.to_string(), task.to_string(), ScheduleTrigger::AtLogon, false)
}

#[test]
fn names_are_checked_first() {
    assert!(named("", "t").unwrap_err().starts_with("schedule name must"));
    assert!(named("a b", "t").unwrap_err().starts_with("schedule name must"));
    assert!(named("a", "t/u").unwrap_err().starts_with("task name must"));
    assert!(named("a-b_c.9", "t").is_ok());
}

fn triggered(trigger: ScheduleTrigger) -> Result<ScheduleDefinition, String> {
    ScheduleDefinition::new("a".to_string(), "b".to_string(), trigger, true)
}

#[test]
fn triggers_are_checked_by_the_calendar() {
    let once = |at: &str| triggered(ScheduleTrigger::Once { at: at.to_string() });
    assert!(once("2024-02-29T12:00:00+10:00").is_ok());
    assert!(once("2023-02-29T12:00:00+10:00").is_err());
    assert!(once("2024-02-29T12:00:00").is_err());
    let daily = |at: &str, zone: &str| {
        triggered(ScheduleTrigger::Daily { at: at.to_string(), timezone: zone.to_string() })
    };
    assert!(daily("06:30:15", "UTC").is_ok());
    assert_eq!(daily("6 am", "UTC").unwrap_err(), "daily trigger time must be HH:MM or HH:MM:SS");
    assert_eq!(daily("06:30", "Mars/Base").unwrap_err(), "unknown schedule timezone: Mars/Base");
}

#[test]
fn facts_decide_about_a_trigger() {
    let trigger = ScheduleTrigger::Daily { at: "x".to_string(), timezone: "y".to_string() };
    let facts = TriggerFacts { timestamp: false, time: true, zone: true };
    assert_eq!(judge_trigger(&trigger, facts), None);
    let facts = TriggerFacts { timestamp: true, time: true, zone: false };
    assert_eq!(judge_trigger(&trigger, facts), Some("unknown schedule timezone: y".to_string()));
}

#[test]
fn every_definition_comes_back_from_its_text() {
    for trigger in [
        ScheduleTrigger::AtLogon,
        ScheduleTrigger::AtStartup,
        ScheduleTrigger::Once { at: "2024-01-01T00:00:00Z".to_string() },
    ] {
        let d = triggered(trigger).unwrap();
        assert_eq!(ScheduleDefinition::from_json(&d.to_json()).unwrap(), d);
        let off = d.with_enabled(false);
        assert!(!off.enabled());
        assert_eq!(ScheduleDefinition::from_json(&off.to_json()).unwrap(), off);
        assert_eq!(off.with_enabled(true), d);
    }
}

#[test]
fn triggers_are_shown() {
    assert_eq!(triggered(ScheduleTrigger::AtLogon).unwrap().display_trigger(), "at-logon");
    assert_eq!(triggered(ScheduleTrigger::AtStartup).unwrap().display_trigger(), "at-startup");
    let once = ScheduleTrigger::Once { at: "2024-01-01T00:00:00Z".to_string() };
    assert_eq!(triggered(once).unwrap().display_trigger(), "once 2024-01-01T00:00:00Z");
    let daily = ScheduleTrigger::Daily { at: "01:02".to_string(), timezone: "UTC".to_string() };
    assert_eq!(triggered(daily).unwrap().display_trigger(), "daily 01:02 UTC");
}

#[test]
fn wrong_data_is_refused() {
    let refused = |s: &str| ScheduleDefinition::from_json(s).unwrap_err();
    assert!(refused("{").starts_with("invalid schedule data: "));
    assert_eq!(refused("{\"version\":2}"), "unsupported schedule data version");
    assert_eq!(refused("{\"version\":1}"), "schedule data is missing name");
    assert_eq!(refused("{\"version\":1,\"name\":\"a\"}"), "schedule data is missing task_name");
    let start = "{\"version\":1,\"name\":\"a\",\"task_name\":\"b\"";
    assert_eq!(refused(&format!("{start}}}")), "schedule data is missing trigger");
    assert_eq!(refused(&format!("{start},\"trigger\":7}}")), "schedule data is missing kind");
    assert_eq!(refused(&format!("{start},\"trigger\":{{\"kind\":\"once\"}}}}")), "schedule data is missing at");
    assert_eq!(
        refused(&format!("{start},\"trigger\":{{\"kind\":\"never\"}}}}")),
        "unknown schedule trigger kind: never"
    );
    assert_eq!(
        refused(&format!("{start},\"trigger\":{{\"kind\":\"at_logon\"}}}}")),
        "schedule data is missing enabled"
    );
    assert_eq!(
        refused("{\"version\":1,\"name\":\"a b\",\"task_name\":\"b\",\"trigger\":{\"kind\":\"at_logon\"},\"enabled\":true}"),
        "schedule name must contain only ASCII letters, digits, '-', '_', or '.'"
    );
}

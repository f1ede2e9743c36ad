//! Timers of stages, and the settings that switch them.
use vstd::prelude::*;

use crate::text::{append_text, same_text};

verus! {

/// How important a message of the log is.
#[derive(Debug, Clone, Copy, PartialEq, Eq, Structural)]
pub enum Level {
    Error,
    Warn,
    Info,
    Debug,
    Trace,
}

/// Whether a text is one of those that switch a setting off.
pub open spec fn switches_off(value: Seq<char>) -> bool {
    ||| value == "0"@
    ||| value == "false"@
    ||| value == "FALSE"@
    ||| value == "False"@
    ||| value == "no"@
    ||| value == "NO"@
    ||| value == "off"@
    ||| value == "OFF"@
}

/// Whether a text is one of those that switch the copy of the log to the terminal on.
pub open spec fn switches_mirror_on(value: Seq<char>) -> bool {
    ||| value == "1"@
    ||| value == "true"@
    ||| value == "TRUE"@
    ||| value == "yes"@
    ||| value == "YES"@
}

/// Whether a setting is on: any text leaves it on that does not switch it off.
pub fn parse_bool_env(value: &str) -> (on: bool)
    ensures
        on == !switches_off(value@),
{
    !(same_text(value, "0") || same_text(value, "false") || same_text(value, "FALSE") || same_text(
        value,
        "False",
    ) || same_text(value, "no") || same_text(value, "NO") || same_text(value, "off") || same_text(
        value,
        "OFF",
    ))
}

/// Whether timers run: they do unless the setting switches them off.
pub fn timing_enabled(setting: Option<&str>) -> (enabled: bool)
    ensures
        enabled == (match setting {
            Some(value) => !switches_off(value@),
            None => true,
        }),
{
    match setting {
        Some(value) => parse_bool_env(value),
        None => true,
    }
}

/// Whether the log is copied to the terminal: only where the setting switches it on.
pub fn mirror_enabled(setting: Option<&str>) -> (enabled: bool)
    ensures
        enabled == (match setting {
            Some(value) => switches_mirror_on(value@),
            None => false,
        }),
{
    match setting {
        Some(value) => same_text(value, "1") || same_text(value, "true") || same_text(
            value,
            "TRUE",
        ) || same_text(value, "yes") || same_text(value, "YES"),
        None => false,
    }
}

/// A timer of a stage, which is off where timers or messages of its level are.
#[derive(Debug, PartialEq, Eq)]
pub struct ScopedTimer {
    pub label: String,
    pub level: Level,
    pub running: bool,
}

impl ScopedTimer {
    /// Whether a timer has a label and a level and runs just where it should.
    pub open spec fn is_for(self, level: Level, label: Seq<char>, running: bool) -> bool {
        &&& self.label@ == label
        &&& self.level == level
        &&& self.running == running
    }

    /// A timer of a stage.
    pub fn new(level: Level, label: String, timing: bool, level_enabled: bool) -> (timer: ScopedTimer)
        ensures
            timer.is_for(level, label@, timing && level_enabled),
    {
        ScopedTimer { label, level, running: timing && level_enabled }
    }

    /// A timer whose message is of general interest.
    pub fn info(label: String, timing: bool, level_enabled: bool) -> (timer: ScopedTimer)
        ensures
            timer.is_for(Level::Info, label@, timing && level_enabled),
    {
        ScopedTimer::new(Level::Info, label, timing, level_enabled)
    }

    /// A timer whose message helps to find faults.
    pub fn debug(label: String, timing: bool, level_enabled: bool) -> (timer: ScopedTimer)
        ensures
            timer.is_for(Level::Debug, label@, timing && level_enabled),
    {
        ScopedTimer::new(Level::Debug, label, timing, level_enabled)
    }

    /// A timer whose message is a detail.
    pub fn trace(label: String, timing: bool, level_enabled: bool) -> (timer: ScopedTimer)
        ensures
            timer.is_for(Level::Trace, label@, timing && level_enabled),
    {
        ScopedTimer::new(Level::Trace, label, timing, level_enabled)
    }

    /// The message of a timer that took some time, where it ran.
    pub fn message(&self, elapsed: &str) -> (text: Option<String>)
        ensures
            text is Some <==> self.running,
            text matches Some(found) ==> found@ == self.label@ + " completed in "@ + elapsed@,
    {
        if !self.running {
            return None;
        }
        let mut text = self.label.as_str().to_owned();
        append_text(&mut text, " completed in ");
        append_text(&mut text, elapsed);
        Some(text)
    }
}

} // verus!

//! The input bar: the text that is being written, when it is sent, and the
//! choices of mode and agent beside it.
use crate::dropdown::DropdownOption;
use crate::json::{json_string, string};
use crate::model::{ActionMode, AgentMode};
use crate::text::{blank, is_blank, trim, trimmed, trimmed_is_empty_iff_blank};
use vstd::prelude::*;

verus! {

/// The input bar. The button to send starts to pulse when a text has been
/// waiting for a while.
#[derive(Debug)]
pub struct InputBar {
    pub input: String,
    pub idle_pulse: bool,
    /// Counts the changes of the text.
    pub pulse_gen: u64,
}

impl InputBar {
    pub fn new() -> (r: InputBar)
        ensures
            r.input@.len() == 0,
            !r.idle_pulse,
            r.pulse_gen == 0,
    {
        InputBar { input: String::new(), idle_pulse: false, pulse_gen: 0 }
    }

    /// The text changed. Returns the number of the change where a wait begins
    /// after which the button pulses.
    pub fn on_input(&mut self, value: String) -> (r: Option<u64>)
        requires
            old(self).pulse_gen < u64::MAX,
        ensures
            final(self).input == value,
            !final(self).idle_pulse,
            final(self).pulse_gen == old(self).pulse_gen + 1,
            r == if blank(value@) {
                None
            } else {
                Some(final(self).pulse_gen)
            },
    {
        let empty = is_blank(value.as_str());
        self.input = value;
        self.idle_pulse = false;
        self.pulse_gen = self.pulse_gen + 1;
        if empty {
            None
        } else {
            Some(self.pulse_gen)
        }
    }

    /// The bar once the wait after change `generation` is over: the button pulses
    /// if nothing has changed since.
    pub open spec fn after_wait(self, generation: u64) -> InputBar {
        InputBar { idle_pulse: self.idle_pulse || self.pulse_gen == generation, ..self }
    }

    /// The wait after change `generation` is over.
    pub fn wait_over(&mut self, generation: u64)
        ensures
            *final(self) == old(self).after_wait(generation),
    {
        if self.pulse_gen == generation {
            self.idle_pulse = true;
        }
    }

    /// The user wants to send. Returns the text without the white space at its
    /// ends, unless there is none or something is still coming in; the field is
    /// then empty.
    pub fn submit(&mut self, is_streaming: bool) -> (r: Option<String>)
        requires
            old(self).pulse_gen < u64::MAX,
        ensures
            if blank(old(self).input@) || is_streaming {
                r is None && *final(self) == *old(self)
            } else {
                &&& r is Some
                &&& r->0@ == trimmed(old(self).input@)
                &&& final(self).input@.len() == 0
                &&& !final(self).idle_pulse
                &&& final(self).pulse_gen == old(self).pulse_gen + 1
            },
    {
        let text = trim(self.input.as_str());
        proof {
            trimmed_is_empty_iff_blank(self.input@);
        }
        if text.as_str().is_empty() || is_streaming {
            return None;
        }
        self.input = String::new();
        self.idle_pulse = false;
        self.pulse_gen = self.pulse_gen + 1;
        Some(text)
    }

    /// A hint is put into the field.
    pub fn fill(&mut self, hint: String)
        ensures
            *final(self) == (InputBar { input: hint, ..*old(self) }),
    {
        self.input = hint;
    }

    /// The style class of the button to send.
    pub fn send_class(&self) -> (r: &'static str)
        ensures
            r@ == if self.idle_pulse && self.input@.len() > 0 {
                "btn btn-send btn-send-pulse"@
            } else {
                "btn btn-send"@
            },
    {
        if self.idle_pulse && !self.input.as_str().is_empty() {
            "btn btn-send btn-send-pulse"
        } else {
            "btn btn-send"
        }
    }
}

/// Whether a key sends the text: Enter together with the command or the control
/// key, unless a character is being composed.
pub fn key_sends(enter: bool, meta: bool, control: bool, composing: bool) -> (r: bool)
    ensures
        r == (enter && (meta || control) && !composing),
{
    enter && (meta || control) && !composing
}

/// The script that puts a hint, given as a JSON string, into the field.
pub open spec fn hint_script_text(json: Seq<char>) -> Seq<char> {
    "var el = document.querySelector('.input-textarea'); if(el) { el.value = "@ + json
        + "; el.focus(); el.setSelectionRange(el.value.length, el.value.length); }"@
}

/// The script that puts a hint, given as a JSON string, into the field.
pub fn hint_script_with(json: &str) -> (r: String)
    ensures
        r@ == hint_script_text(json@),
{
    let mut r = String::new();
    r.append("var el = document.querySelector('.input-textarea'); if(el) { el.value = ");
    r.append(json);
    r.append("; el.focus(); el.setSelectionRange(el.value.length, el.value.length); }");
    assert(r@ =~= hint_script_text(json@));
    r
}

/// The script that puts a hint into the field.
pub fn hint_script(hint: &str) -> (r: String)
    ensures
        r@ == hint_script_text(json_string(hint@)),
{
    let json = string(hint);
    hint_script_with(json.as_str())
}

/// What the bar needs to know of an agent.
#[derive(Debug)]
pub struct AgentChoice {
    pub id: String,
    pub name: String,
    pub model: String,
    pub agent_type: String,
}

/// The option for an agent: its name and its model.
pub open spec fn offers(option: DropdownOption, cfg: AgentChoice) -> bool {
    option.value@ == cfg.id@ && option.label@ == cfg.name@ + " · "@ + cfg.model@
}

/// The options of the list of agents; one that says so where there are none.
pub open spec fn agent_offers(options: Seq<DropdownOption>, configs: Seq<AgentChoice>) -> bool {
    if configs.len() == 0 {
        options.len() == 1 && options[0].value@.len() == 0 && options[0].label@ == "— no config —"@
    } else {
        options.len() == configs.len() && forall|i: int|
            0 <= i < configs.len() ==> offers(#[trigger] options[i], configs[i])
    }
}

/// The options of the list of agents.
pub fn agent_options(configs: &Vec<AgentChoice>) -> (r: Vec<DropdownOption>)
    ensures
        agent_offers(r@, configs@),
{
    let mut r: Vec<DropdownOption> = Vec::new();
    if configs.len() == 0 {
        r.push(DropdownOption { value: String::new(), label: "— no config —".to_owned() });
        return r;
    }
    let mut i: usize = 0;
    while i < configs.len()
        invariant
            i <= configs@.len(),
            r@.len() == i,
            forall|k: int| 0 <= k < i ==> offers(#[trigger] r@[k], configs@[k]),
        decreases configs@.len() - i,
    {
        let cfg = &configs[i];
        let mut label = cfg.name.clone();
        label.append(" · ");
        label.append(cfg.model.as_str());
        r.push(DropdownOption { value: cfg.id.clone(), label });
        i = i + 1;
    }
    r
}

/// The text that holds the place of a chosen agent.
pub fn agent_placeholder(no_configs: bool) -> (r: &'static str)
    ensures
        r@ == if no_configs {
            "— no config —"@
        } else {
            "— select —"@
        },
{
    if no_configs {
        "— no config —"
    } else {
        "— select —"
    }
}

/// The style class of the button for an action mode.
pub fn action_pill_class(mode: ActionMode, chosen: ActionMode) -> (r: &'static str)
    ensures
        r@ == if mode == chosen {
            "mode-pill is-active"@
        } else {
            "mode-pill"@
        },
{
    if mode == chosen {
        "mode-pill is-active"
    } else {
        "mode-pill"
    }
}

/// The style class of the button for an agent mode: the freest one is marked as
/// dangerous.
pub fn agent_pill_class(mode: AgentMode, chosen: AgentMode) -> (r: &'static str)
    ensures
        r@ == if mode == chosen {
            if mode == AgentMode::Unrestrained {
                "mode-pill is-active is-danger"@
            } else {
                "mode-pill is-active"@
            }
        } else {
            if mode == AgentMode::Unrestrained {
                "mode-pill is-danger"@
            } else {
                "mode-pill"@
            }
        },
{
    if mode == chosen {
        if mode == AgentMode::Unrestrained {
            "mode-pill is-active is-danger"
        } else {
            "mode-pill is-active"
        }
    } else if mode == AgentMode::Unrestrained {
        "mode-pill is-danger"
    } else {
        "mode-pill"
    }
}

/// A wait that began before the last change makes nothing pulse; the one that
/// began with it does.
pub proof fn an_old_wait_is_ignored(bar: InputBar, generation: u64)
    ensures
        generation != bar.pulse_gen ==> bar.after_wait(generation) == bar,
        generation == bar.pulse_gen ==> bar.after_wait(generation).idle_pulse,
{
}

} // verus!

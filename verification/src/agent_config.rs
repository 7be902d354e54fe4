//! The editor for agents: what is being edited, the tools that an agent gets,
//! and what the list says of each agent.
use crate::json::{array, json_array, json_strings, strings};
use crate::keyed::Table;
use crate::markdown::{markdown_html, markdown_to_html};
use crate::text::{
    blank, decimal, parse_number, parsed_number, push_decimal, same_text, trim, trimmed, trimmed_is_empty_iff_blank,
    views,
};
use vstd::prelude::*;

verus! {

/// An agent as it is stored.
#[derive(Debug)]
pub struct AgentConfigRow {
    pub id: String,
    pub name: String,
    pub agent_type: String,
    pub provider_instance_id: String,
    pub model: String,
    pub base_url: String,
    pub api_key: String,
    pub system_prompt: String,
    /// In thousandths.
    pub temperature: i64,
    pub max_tokens: Option<u32>,
    /// The names of its tools as a JSON array; all tools where it is empty.
    pub tools: String,
    pub created_at: String,
    pub updated_at: String,
}

/// A group of tools.
#[derive(Debug)]
pub struct ToolGroup {
    pub id: String,
    pub name: String,
    pub tools: Vec<String>,
}

/// The editor.
#[derive(Debug)]
pub struct AgentEditor {
    pub shown: bool,
    /// The agent that is being edited; none for a new one.
    pub editing_id: Option<String>,
    pub name: String,
    pub provider_inst: String,
    pub model: String,
    pub system_prompt: String,
    /// In thousandths.
    pub temperature: i64,
    pub max_tokens: String,
    /// The chosen groups of tools.
    pub groups: Table<()>,
}

/// The temperature of a new agent, in thousandths.
pub const DEFAULT_TEMPERATURE: i64 = 700;

/// The numeral of a limit; nothing where there is none.
pub open spec fn limit_text(n: Option<u32>) -> Seq<char> {
    match n {
        Some(k) => decimal(k as nat),
        None => Seq::empty(),
    }
}

fn limit_of(n: Option<u32>) -> (r: String)
    ensures
        r@ == limit_text(n),
{
    let mut r = String::new();
    if let Some(k) = n {
        push_decimal(&mut r, k as u64);
        assert(r@ =~= decimal(k as nat));
    }
    r
}

/// The limit that a text spells: none where it is blank or no number that fits.
pub open spec fn limit_read(text: Seq<char>) -> Option<nat> {
    if blank(text) {
        None
    } else {
        parsed_number(trimmed(text), u32::MAX as nat)
    }
}

fn read_limit(text: &str) -> (r: Option<u32>)
    ensures
        match r {
            Some(n) => limit_read(text@) == Some(n as nat),
            None => limit_read(text@) is None,
        },
{
    let t = trim(text);
    proof {
        trimmed_is_empty_iff_blank(text@);
    }
    if t.as_str().is_empty() {
        return None;
    }
    match parse_number(t.as_str(), u32::MAX as u64) {
        Some(n) => Some(n as u32),
        None => None,
    }
}

/// The first `n` texts, each one only where it first stands.
pub open spec fn once_each(s: Seq<Seq<char>>, n: nat) -> Seq<Seq<char>>
    decreases n,
{
    if n == 0 {
        Seq::empty()
    } else {
        let prev = once_each(s, (n - 1) as nat);
        if prev.contains(s[n - 1]) {
            prev
        } else {
            prev.push(s[n - 1])
        }
    }
}

fn contains_text(s: &Vec<String>, t: &str) -> (r: bool)
    ensures
        r == views(s@).contains(t@),
{
    let mut i: usize = 0;
    while i < s.len()
        invariant
            i <= s@.len(),
            forall|k: int| 0 <= k < i ==> (#[trigger] s@[k])@ != t@,
        decreases s@.len() - i,
    {
        if same_text(s[i].as_str(), t) {
            assert(views(s@)[i as int] == t@);
            return true;
        }
        i = i + 1;
    }
    assert forall|k: int| 0 <= k < s@.len() implies #[trigger] views(s@)[k] != t@ by {
        assert(s@[k]@ != t@);
    }
    false
}

/// The texts, each one only where it first stands.
pub fn without_repeats(s: &Vec<String>) -> (r: Vec<String>)
    ensures
        views(r@) == once_each(views(s@), s@.len()),
{
    let mut r: Vec<String> = Vec::new();
    let ghost all = views(s@);
    let mut i: usize = 0;
    assert(views(r@) =~= Seq::<Seq<char>>::empty());
    while i < s.len()
        invariant
            i <= s@.len(),
            all == views(s@),
            views(r@) == once_each(all, i as nat),
        decreases s@.len() - i,
    {
        assert(all[i as int] == s@[i as int]@);
        if !contains_text(&r, s[i].as_str()) {
            let ghost before = r@;
            r.push(s[i].clone());
            assert(views(r@) =~= views(before).push(all[i as int]));
        }
        i = i + 1;
    }
    r
}

/// The ids, as a choice.
pub open spec fn chosen(ids: Seq<String>, n: nat) -> Map<Seq<char>, ()> {
    crate::books::ids_selected(ids, n)
}

impl AgentEditor {
    /// A hidden and empty editor.
    pub fn new() -> (r: AgentEditor)
        ensures
            !r.shown,
            r.is_blank(),
    {
        AgentEditor {
            shown: false,
            editing_id: None,
            name: String::new(),
            provider_inst: String::new(),
            model: String::new(),
            system_prompt: String::new(),
            temperature: DEFAULT_TEMPERATURE,
            max_tokens: String::new(),
            groups: Table::new(),
        }
    }

    /// Nothing has been written.
    pub open spec fn is_blank(self) -> bool {
        &&& self.editing_id is None
        &&& self.name@.len() == 0
        &&& self.provider_inst@.len() == 0
        &&& self.model@.len() == 0
        &&& self.system_prompt@.len() == 0
        &&& self.temperature == DEFAULT_TEMPERATURE
        &&& self.max_tokens@.len() == 0
        &&& self.groups@ == Map::<Seq<char>, ()>::empty()
    }

    /// Starts to edit a new agent.
    pub fn start_new(&mut self)
        ensures
            final(self).shown,
            final(self).is_blank(),
    {
        *self = AgentEditor::new();
        self.shown = true;
    }

    /// Starts to edit an agent, whose groups of tools are `group_ids`.
    pub fn start_edit(&mut self, c: &AgentConfigRow, group_ids: &Vec<String>)
        ensures
            final(self).shown,
            final(self).editing_id == Some(c.id),
            final(self).name == c.name,
            final(self).provider_inst == c.provider_instance_id,
            final(self).model == c.model,
            final(self).system_prompt == c.system_prompt,
            final(self).temperature == c.temperature,
            final(self).max_tokens@ == limit_text(c.max_tokens),
            final(self).groups@ == chosen(group_ids@, group_ids@.len()),
    {
        self.shown = true;
        self.editing_id = Some(c.id.clone());
        self.name = c.name.clone();
        self.provider_inst = c.provider_instance_id.clone();
        self.model = c.model.clone();
        self.system_prompt = c.system_prompt.clone();
        self.temperature = c.temperature;
        self.max_tokens = limit_of(c.max_tokens);
        self.groups = crate::books::selection_of(group_ids);
    }

    /// Hides the editor.
    pub fn cancel(&mut self)
        ensures
            !final(self).shown,
            final(self).editing_id is None,
            final(self).name@.len() == 0,
            *final(self) == (AgentEditor {
                shown: final(self).shown,
                editing_id: final(self).editing_id,
                name: final(self).name,
                ..*old(self)
            }),
    {
        self.shown = false;
        self.editing_id = None;
        self.name = String::new();
    }

    /// Chooses an instance of a service; the model has to be chosen anew.
    pub fn choose_instance(&mut self, id: String)
        ensures
            final(self).provider_inst == id,
            final(self).model@.len() == 0,
            *final(self) == (AgentEditor {
                provider_inst: final(self).provider_inst,
                model: final(self).model,
                ..*old(self)
            }),
    {
        self.provider_inst = id;
        self.model = String::new();
    }

    /// Chooses a group of tools, or gives it up.
    pub fn toggle_group(&mut self, id: &str)
        ensures
            final(self).groups@ == if old(self).groups@.dom().contains(id@) {
                old(self).groups@.remove(id@)
            } else {
                old(self).groups@.insert(id@, ())
            },
            *final(self) == (AgentEditor { groups: final(self).groups, ..*old(self) }),
    {
        crate::chat::toggle(&mut self.groups, id);
    }

    /// The agent that the editor holds. `tools` are the names of the tools in the
    /// chosen groups; `new_id` is the id of a new agent.
    pub open spec fn edits(
        self,
        row: AgentConfigRow,
        agent_type: Seq<char>,
        new_id: Seq<char>,
        now: Seq<char>,
        tools: Seq<Seq<char>>,
        base_url: Seq<char>,
        api_key: Seq<char>,
    ) -> bool {
        &&& row.id@ == match self.editing_id {
            Some(id) => id@,
            None => new_id,
        }
        &&& row.name@ == trimmed(self.name@)
        &&& row.agent_type@ == agent_type
        &&& row.provider_instance_id == self.provider_inst
        &&& row.model == self.model
        &&& row.base_url@ == base_url
        &&& row.api_key@ == api_key
        &&& row.system_prompt == self.system_prompt
        &&& row.temperature == self.temperature
        &&& match row.max_tokens {
            Some(n) => limit_read(self.max_tokens@) == Some(n as nat),
            None => limit_read(self.max_tokens@) is None,
        }
        &&& row.tools@ == json_array(once_each(tools, tools.len()))
        &&& json_strings(row.tools@) == once_each(tools, tools.len())
        &&& row.created_at@ == if self.editing_id is None {
            now
        } else {
            Seq::empty()
        }
        &&& row.updated_at@ == now
    }

    /// The agent that is to be saved; none while it has no name.
    pub fn row_to_save(
        &self,
        agent_type: &str,
        new_id: &str,
        now: &str,
        tools: &Vec<String>,
        base_url: &str,
        api_key: &str,
    ) -> (r: Option<AgentConfigRow>)
        ensures
            r is None <==> blank(self.name@),
            r is Some ==> self.edits(
                r->0,
                agent_type@,
                new_id@,
                now@,
                views(tools@),
                base_url@,
                api_key@,
            ),
    {
        let name = trim(self.name.as_str());
        proof {
            trimmed_is_empty_iff_blank(self.name@);
        }
        if name.as_str().is_empty() {
            return None;
        }
        let names = without_repeats(tools);
        let id: String = match &self.editing_id {
            Some(id) => id.clone(),
            None => new_id.to_owned(),
        };
        let created_at: String = if self.editing_id.is_none() {
            now.to_owned()
        } else {
            String::new()
        };
        let row = AgentConfigRow {
            id,
            name,
            agent_type: agent_type.to_owned(),
            provider_instance_id: self.provider_inst.clone(),
            model: self.model.clone(),
            base_url: base_url.to_owned(),
            api_key: api_key.to_owned(),
            system_prompt: self.system_prompt.clone(),
            temperature: self.temperature,
            max_tokens: read_limit(self.max_tokens.as_str()),
            tools: array(&names),
            created_at,
            updated_at: now.to_owned(),
        };
        Some(row)
    }

    /// The agent was saved: the editor is hidden.
    pub fn saved(&mut self)
        ensures
            *final(self) == (AgentEditor { shown: false, editing_id: None, ..*old(self) }),
    {
        self.shown = false;
        self.editing_id = None;
    }

    /// Whether the editor is on show. In a list that cannot be edited only the
    /// service can be chosen.
    pub fn on_show(&self, readonly: bool, provider_only: bool) -> (r: bool)
        ensures
            r == (self.shown && (!readonly || provider_only)),
    {
        self.shown && (!readonly || provider_only)
    }

    /// The title of the editor.
    pub fn title(&self) -> (r: &'static str)
        ensures
            r@ == if self.editing_id is None {
                "new agent config"@
            } else {
                "edit agent config"@
            },
    {
        if self.editing_id.is_none() {
            "new agent config"
        } else {
            "edit agent config"
        }
    }

    /// The tools of the chosen groups, group by group.
    pub fn grouped_tools(&self, groups: &Vec<ToolGroup>) -> (r: Vec<String>)
        ensures
            views(r@) == tools_of(groups@, self.groups@, groups@.len()),
    {
        let mut r: Vec<String> = Vec::new();
        let mut i: usize = 0;
        assert(views(r@) =~= Seq::empty());
        while i < groups.len()
            invariant
                i <= groups@.len(),
                views(r@) == tools_of(groups@, self.groups@, i as nat),
            decreases groups@.len() - i,
        {
            if self.groups.contains(groups[i].id.as_str()) {
                let tools = &groups[i].tools;
                let ghost before = views(r@);
                let mut k: usize = 0;
                assert(before + views(tools@).take(0) =~= before);
                while k < tools.len()
                    invariant
                        k <= tools@.len(),
                        views(r@) == before + views(tools@).take(k as int),
                    decreases tools@.len() - k,
                {
                    let ghost was = r@;
                    r.push(tools[k].clone());
                    proof {
                        assert(views(r@) =~= views(was).push(tools@[k as int]@));
                        assert(views(r@) =~= before + views(tools@).take(k + 1));
                    }
                    k = k + 1;
                }
                assert(views(tools@).take(tools@.len() as int) =~= views(tools@));
            }
            i = i + 1;
        }
        r
    }

    /// The summary of the chosen groups.
    pub fn groups_summary(&self, groups: &Vec<ToolGroup>) -> (r: String)
        requires
            tools_in(groups@, self.groups@, groups@.len()) <= u64::MAX,
        ensures
            r@ == decimal(self.groups@.dom().len()) + " groups selected · "@ + decimal(
                tools_in(groups@, self.groups@, groups@.len()),
            ) + " tools enabled"@,
    {
        let mut total: u64 = 0;
        let mut i: usize = 0;
        while i < groups.len()
            invariant
                i <= groups@.len(),
                total == tools_in(groups@, self.groups@, i as nat),
                tools_in(groups@, self.groups@, groups@.len()) <= u64::MAX,
            decreases groups@.len() - i,
        {
            proof {
                lemma_tools_in_grows(groups@, self.groups@, (i + 1) as nat, groups@.len());
            }
            if self.groups.contains(groups[i].id.as_str()) {
                total = total + groups[i].tools.len() as u64;
            }
            i = i + 1;
        }
        let mut r = String::new();
        push_decimal(&mut r, self.groups.len() as u64);
        r.append(" groups selected · ");
        push_decimal(&mut r, total);
        r.append(" tools enabled");
        assert(r@ =~= decimal(self.groups@.dom().len()) + " groups selected · "@ + decimal(
            tools_in(groups@, self.groups@, groups@.len()),
        ) + " tools enabled"@);
        r
    }
}

/// The tools of the chosen ones of the first `n` groups, group by group.
pub open spec fn tools_of(groups: Seq<ToolGroup>, choice: Map<Seq<char>, ()>, n: nat) -> Seq<Seq<char>>
    decreases n,
{
    if n == 0 {
        Seq::empty()
    } else if choice.dom().contains(groups[n - 1].id@) {
        tools_of(groups, choice, (n - 1) as nat) + views(groups[n - 1].tools@)
    } else {
        tools_of(groups, choice, (n - 1) as nat)
    }
}

/// How many tools the chosen ones of the first `n` groups hold.
pub open spec fn tools_in(groups: Seq<ToolGroup>, choice: Map<Seq<char>, ()>, n: nat) -> nat
    decreases n,
{
    if n == 0 {
        0
    } else if choice.dom().contains(groups[n - 1].id@) {
        tools_in(groups, choice, (n - 1) as nat) + groups[n - 1].tools@.len()
    } else {
        tools_in(groups, choice, (n - 1) as nat)
    }
}

proof fn lemma_tools_in_grows(groups: Seq<ToolGroup>, choice: Map<Seq<char>, ()>, m: nat, n: nat)
    requires
        m <= n,
    ensures
        tools_in(groups, choice, m) <= tools_in(groups, choice, n),
    decreases n,
{
    if m < n {
        lemma_tools_in_grows(groups, choice, m, (n - 1) as nat);
    }
}

/// The label of a group: its name and how many tools it holds.
pub fn group_label(g: &ToolGroup) -> (r: String)
    ensures
        r@ == g.name@ + " ("@ + decimal(g.tools@.len()) + ")"@,
{
    let mut r = g.name.clone();
    r.append(" (");
    push_decimal(&mut r, g.tools.len() as u64);
    r.append(")");
    r
}

/// An agent may use all tools: its list of them is empty.
pub open spec fn all_tools(tools: Seq<char>) -> bool {
    tools.len() == 0 || tools == "[]"@
}

/// The tools of an agent, as the list shows them.
pub open spec fn tools_listed(tools: Seq<char>) -> Seq<Seq<char>> {
    if all_tools(tools) {
        seq!["(all tools)"@]
    } else {
        json_strings(tools)
    }
}

/// The tools of an agent, as the list shows them.
pub fn tools_shown(tools: &str) -> (r: Vec<String>)
    ensures
        views(r@) == tools_listed(tools@),
{
    if tools.is_empty() || same_text(tools, "[]") {
        let mut r: Vec<String> = Vec::new();
        r.push("(all tools)".to_owned());
        assert(views(r@) =~= seq!["(all tools)"@]);
        r
    } else {
        strings(tools)
    }
}

/// The heading of an agent's tools.
pub fn tools_label(shown: &Vec<String>) -> (r: String)
    ensures
        r@ == "tools ("@ + decimal(shown@.len()) + ")"@,
{
    let mut r = String::new();
    r.append("tools (");
    push_decimal(&mut r, shown.len() as u64);
    r.append(")");
    assert(r@ =~= "tools ("@ + decimal(shown@.len()) + ")"@);
    r
}

/// The prompt of an agent, as it is shown.
pub fn prompt_html(prompt: &str) -> (r: String)
    ensures
        r@ == markdown_html(prompt@),
{
    markdown_to_html(prompt)
}

/// The service and the model of an agent.
pub fn agent_subtitle(provider: &str, model: &str) -> (r: String)
    ensures
        r@ == if provider@.len() == 0 {
            model@
        } else {
            provider@ + " · "@ + model@
        },
{
    if provider.is_empty() {
        model.to_owned()
    } else {
        let mut r = provider.to_owned();
        r.append(" · ");
        r.append(model);
        r
    }
}

/// The places of the agents of a type among the first `n`.
pub open spec fn of_type(s: Seq<AgentConfigRow>, agent_type: Seq<char>, n: nat) -> Seq<usize>
    decreases n,
{
    if n == 0 {
        Seq::empty()
    } else if s[n - 1].agent_type@ == agent_type {
        of_type(s, agent_type, (n - 1) as nat).push((n - 1) as usize)
    } else {
        of_type(s, agent_type, (n - 1) as nat)
    }
}

/// The places of the agents of a type.
pub fn configs_of_type(configs: &Vec<AgentConfigRow>, agent_type: &str) -> (r: Vec<usize>)
    ensures
        r@ == of_type(configs@, agent_type@, configs@.len()),
{
    let mut r: Vec<usize> = Vec::new();
    let mut i: usize = 0;
    while i < configs.len()
        invariant
            i <= configs@.len(),
            r@ == of_type(configs@, agent_type@, i as nat),
        decreases configs@.len() - i,
    {
        if same_text(configs[i].agent_type.as_str(), agent_type) {
            r.push(i);
        }
        i = i + 1;
    }
    r
}

/// An agent gets every tool of its groups, and each one once.
pub proof fn tools_are_listed_once(s: Seq<Seq<char>>, n: nat)
    requires
        n <= s.len(),
    ensures
        forall|i: int| 0 <= i < n ==> once_each(s, n).contains(#[trigger] s[i]),
        forall|i: int, j: int|
            0 <= i < j < once_each(s, n).len() ==> #[trigger] once_each(s, n)[i] != #[trigger] once_each(s, n)[j],
    decreases n,
{
    if n > 0 {
        tools_are_listed_once(s, (n - 1) as nat);
        let prev = once_each(s, (n - 1) as nat);
        let all = once_each(s, n);
        assert forall|i: int| 0 <= i < n implies all.contains(#[trigger] s[i]) by {
            if i < n - 1 {
                assert(prev.contains(s[i]));
                let j = choose|j: int| 0 <= j < prev.len() && prev[j] == s[i];
                assert(all[j] == s[i]);
            } else if prev.contains(s[i]) {
                assert(all == prev);
            } else {
                assert(all[prev.len() as int] == s[i]);
            }
        }
    }
}

/// The agents of a type are listed in order, each once.
pub proof fn agents_are_listed_by_their_type(s: Seq<AgentConfigRow>, agent_type: Seq<char>, n: nat)
    requires
        n <= s.len() <= usize::MAX,
    ensures
        forall|k: int| 0 <= k < of_type(s, agent_type, n).len() ==> 0 <= #[trigger] of_type(s, agent_type, n)[k] < n && s[of_type(s, agent_type, n)[k] as int].agent_type@ == agent_type,
        forall|i: int| 0 <= i < n && (#[trigger] s[i]).agent_type@ == agent_type ==> of_type(s, agent_type, n).contains(i as usize),
        forall|j: int, k: int| 0 <= j < k < of_type(s, agent_type, n).len() ==> #[trigger] of_type(s, agent_type, n)[j] < #[trigger] of_type(s, agent_type, n)[k],
    decreases n,
{
    let now = of_type(s, agent_type, n);
    if n > 0 {
        agents_are_listed_by_their_type(s, agent_type, (n - 1) as nat);
        let before = of_type(s, agent_type, (n - 1) as nat);
        assert forall|i: int| 0 <= i < n && (#[trigger] s[i]).agent_type@ == agent_type implies now.contains(i as usize) by {
            if i < n - 1 {
                assert(before.contains(i as usize));
                let k = choose|k: int| 0 <= k < before.len() && before[k] == i as usize;
                assert(now[k] == i as usize);
            } else {
                assert(now[now.len() - 1] == i as usize);
            }
        }
    }
}

/// The tools of the chosen groups are listed group by group, and counted so.
pub proof fn tools_are_those_of_the_chosen_groups(groups: Seq<ToolGroup>, g: ToolGroup, choice: Map<Seq<char>, ()>)
    ensures
        tools_of(groups.push(g), choice, groups.len() + 1) == if choice.dom().contains(g.id@) {
            tools_of(groups, choice, groups.len()) + views(g.tools@)
        } else {
            tools_of(groups, choice, groups.len())
        },
        tools_in(groups.push(g), choice, groups.len() + 1) == tools_of(groups.push(g), choice, groups.len() + 1).len(),
        tools_of(Seq::empty(), choice, 0) == Seq::<Seq<char>>::empty(),
{
    lemma_tools_prefix(groups, g, choice, groups.len());
    assert(groups.push(g)[groups.len() as int] == g);
    lemma_tools_counted(groups.push(g), choice, groups.len() + 1);
}

proof fn lemma_tools_prefix(groups: Seq<ToolGroup>, g: ToolGroup, choice: Map<Seq<char>, ()>, n: nat)
    requires
        n <= groups.len(),
    ensures
        tools_of(groups.push(g), choice, n) == tools_of(groups, choice, n),
    decreases n,
{
    if n > 0 {
        lemma_tools_prefix(groups, g, choice, (n - 1) as nat);
        assert(groups.push(g)[n - 1] == groups[n - 1]);
    }
}

proof fn lemma_tools_counted(groups: Seq<ToolGroup>, choice: Map<Seq<char>, ()>, n: nat)
    requires
        n <= groups.len(),
    ensures
        tools_in(groups, choice, n) == tools_of(groups, choice, n).len(),
    decreases n,
{
    if n > 0 {
        lemma_tools_counted(groups, choice, (n - 1) as nat);
    }
}

/// A limit that is written is read back; nothing, and what is no number, is no limit.
pub proof fn a_limit_is_read_as_it_is_written(n: u32, text: Seq<char>)
    ensures
        limit_read(limit_text(Some(n))) == Some(n as nat),
        limit_read(limit_text(None)) is None,
        blank(text) ==> limit_read(text) is None,
{
    let d = decimal(n as nat);
    crate::text::decimal_is_digits(n as nat);
    assert('0' <= d[0] <= '9');
    assert(!crate::text::is_space(d[0]));
    assert('0' <= d[d.len() - 1] <= '9');
    assert(!crate::text::is_space(d.last()));
    crate::text::trimming_leaves_the_middle(Seq::empty(), d, Seq::empty());
    assert(Seq::<char>::empty() + d + Seq::<char>::empty() =~= d);
    crate::text::reading_a_numeral_gives_the_number(n as nat, u32::MAX as nat, d);
}

/// An agent without a list of tools has all of them; one with a list has those.
pub proof fn no_list_means_all_tools(tools: Seq<char>)
    ensures
        tools.len() == 0 || tools == seq!['[', ']'] ==> all_tools(tools) && tools_listed(tools) == seq!["(all tools)"@],
        tools.len() > 0 && tools != seq!['[', ']'] ==> !all_tools(tools) && tools_listed(tools) == json_strings(tools),
{
    reveal_strlit("[]");
    assert("[]"@ =~= seq!['[', ']']);
}

} // verus!

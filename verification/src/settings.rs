//! The settings: instances of services with their keys and models, the form for
//! a new instance, and the appearance.
use crate::dropdown::DropdownOption;
use crate::input_bar::AgentChoice;
use crate::keyed::Table;
use crate::keys::{decode_key, encode_key, equal_but_case, kept_key, read_key, same_but_case};
use crate::text::{blank, same_text, trim, trimmed, trimmed_is_empty_iff_blank};
use vstd::prelude::*;

verus! {

/// A service.
#[derive(Debug)]
pub struct ProviderRow {
    pub id: String,
    pub name: String,
    pub kind: String,
    pub base_url: String,
    pub models_url: String,
    pub balance_url: String,
    pub context_window: u32,
    pub is_preset: bool,
}

/// A service that is known beforehand.
#[derive(Debug)]
pub struct ProviderPreset {
    pub id: String,
    pub name: String,
    pub kind: String,
    pub base_url: String,
    pub models_url: String,
    pub context_window: u32,
}

/// A connection to a service under a name of its own.
#[derive(Debug)]
pub struct ProviderInstanceRow {
    pub id: String,
    pub provider_id: String,
    pub alias: String,
    /// In the form in which keys are kept.
    pub api_key: String,
    pub sort_order: i64,
    pub created_at: String,
}

/// The steps of the form for a new instance.
#[derive(Debug, Clone, Copy, PartialEq, Eq, Structural)]
pub enum AddStep {
    SelectProvider,
    Custom,
    FillDetails,
}

/// The form for a new instance.
#[derive(Debug)]
pub struct AddForm {
    pub shown: bool,
    pub step: AddStep,
    pub provider_id: String,
    pub alias: String,
    pub key: String,
    pub error: Option<String>,
    pub custom_id: String,
    pub custom_name: String,
    pub custom_url: String,
}

/// The page of the settings on which instances are managed.
#[derive(Debug)]
pub struct SettingsPanel {
    pub instances: Vec<ProviderInstanceRow>,
    pub providers: Vec<ProviderRow>,
    /// For each service, its models.
    pub models: Table<Vec<String>>,
    pub editing_key_for: Option<String>,
    pub key_input: String,
    /// The instance whose models are being fetched.
    pub refreshing: Option<String>,
    /// For each instance, why its models could not be fetched.
    pub fetch_errors: Table<String>,
    /// The instance that is about to be deleted.
    pub deleting: Option<String>,
    pub form: AddForm,
}

/// An instance whose key is being checked.
#[derive(Debug)]
pub struct PendingInstance {
    pub provider: ProviderRow,
    pub row: ProviderInstanceRow,
    /// The key itself.
    pub raw_key: String,
}

/// The first of the services from `from` on that has this id.
pub open spec fn provider_place(s: Seq<ProviderRow>, id: Seq<char>, from: int) -> Option<int>
    decreases s.len() - from,
{
    if from < 0 || from >= s.len() {
        None
    } else if s[from].id@ == id {
        Some(from)
    } else {
        provider_place(s, id, from + 1)
    }
}

/// The name of a service, or its id where it is not known.
pub open spec fn provider_title(s: Seq<ProviderRow>, id: Seq<char>) -> Seq<char> {
    match provider_place(s, id, 0) {
        Some(i) => s[i].name@,
        None => id,
    }
}

/// The name of a service, or its id where it is not known.
pub fn provider_name(providers: &Vec<ProviderRow>, id: &str) -> (r: String)
    ensures
        r@ == provider_title(providers@, id@),
{
    let mut i: usize = 0;
    while i < providers.len()
        invariant
            i <= providers@.len(),
            provider_place(providers@, id@, 0) == provider_place(providers@, id@, i as int),
        decreases providers@.len() - i,
    {
        if same_text(providers[i].id.as_str(), id) {
            return providers[i].name.clone();
        }
        i = i + 1;
    }
    id.to_owned()
}

/// The first of the instances from `from` on that has this id.
pub open spec fn instance_place(s: Seq<ProviderInstanceRow>, id: Seq<char>, from: int) -> Option<int>
    decreases s.len() - from,
{
    if from < 0 || from >= s.len() {
        None
    } else if s[from].id@ == id {
        Some(from)
    } else {
        instance_place(s, id, from + 1)
    }
}

/// Where the instance with this id stands.
pub fn find_instance(instances: &Vec<ProviderInstanceRow>, id: &str) -> (r: Option<usize>)
    ensures
        match r {
            Some(i) => i < instances@.len() && instance_place(instances@, id@, 0) == Some(i as int),
            None => instance_place(instances@, id@, 0) is None,
        },
{
    let mut i: usize = 0;
    while i < instances.len()
        invariant
            i <= instances@.len(),
            instance_place(instances@, id@, 0) == instance_place(instances@, id@, i as int),
        decreases instances@.len() - i,
    {
        if same_text(instances[i].id.as_str(), id) {
            return Some(i);
        }
        i = i + 1;
    }
    None
}

/// The service of an instance by its name; empty where there is no such
/// instance.
pub open spec fn instance_title(
    instances: Seq<ProviderInstanceRow>,
    providers: Seq<ProviderRow>,
    id: Seq<char>,
) -> Seq<char> {
    match instance_place(instances, id, 0) {
        Some(i) => provider_title(providers, instances[i].provider_id@),
        None => Seq::empty(),
    }
}

/// The service of an instance by its name.
pub fn provider_name_for_instance(
    instances: &Vec<ProviderInstanceRow>,
    providers: &Vec<ProviderRow>,
    id: &str,
) -> (r: String)
    ensures
        r@ == instance_title(instances@, providers@, id@),
{
    match find_instance(instances, id) {
        Some(i) => provider_name(providers, instances[i].provider_id.as_str()),
        None => String::new(),
    }
}

/// The service of an instance; empty where there is no such instance.
pub open spec fn instance_provider(instances: Seq<ProviderInstanceRow>, id: Seq<char>) -> Seq<char> {
    match instance_place(instances, id, 0) {
        Some(i) => instances[i].provider_id@,
        None => Seq::empty(),
    }
}

/// The service of an instance.
pub fn provider_id_for_instance(instances: &Vec<ProviderInstanceRow>, id: &str) -> (r: String)
    ensures
        r@ == instance_provider(instances@, id@),
{
    match find_instance(instances, id) {
        Some(i) => instances[i].provider_id.clone(),
        None => String::new(),
    }
}

/// The option for an instance: its name, and that of its service.
pub open spec fn instance_offer(
    o: DropdownOption,
    instances: Seq<ProviderInstanceRow>,
    providers: Seq<ProviderRow>,
    i: int,
) -> bool {
    o.value@ == instances[i].id@ && o.label@ == instances[i].alias@ + " ("@ + instance_title(
        instances,
        providers,
        instances[i].id@,
    ) + ")"@
}

/// The options of a list of instances, behind a first one for none.
pub fn instance_options(
    instances: &Vec<ProviderInstanceRow>,
    providers: &Vec<ProviderRow>,
    first: &str,
) -> (r: Vec<DropdownOption>)
    ensures
        r@.len() == instances@.len() + 1,
        r@[0].value@.len() == 0 && r@[0].label@ == first@,
        forall|i: int| 0 <= i < instances@.len() ==> instance_offer(#[trigger] r@[i + 1], instances@, providers@, i),
{
    let mut r: Vec<DropdownOption> = Vec::new();
    r.push(DropdownOption { value: String::new(), label: first.to_owned() });
    let mut i: usize = 0;
    while i < instances.len()
        invariant
            i <= instances@.len(),
            r@.len() == i + 1,
            r@[0].value@.len() == 0 && r@[0].label@ == first@,
            forall|k: int| 0 <= k < i ==> instance_offer(#[trigger] r@[k + 1], instances@, providers@, k),
        decreases instances@.len() - i,
    {
        let name = provider_name_for_instance(instances, providers, instances[i].id.as_str());
        let mut label = instances[i].alias.clone();
        label.append(" (");
        label.append(name.as_str());
        label.append(")");
        r.push(DropdownOption { value: instances[i].id.clone(), label });
        i = i + 1;
    }
    r
}

/// The models that are known of a service.
pub open spec fn models_known(models: Map<Seq<char>, Vec<String>>, provider: Seq<char>) -> Seq<String> {
    if models.dom().contains(provider) {
        models[provider]@
    } else {
        Seq::empty()
    }
}

/// The options of the list of models of an instance, behind a first one for
/// none.
pub fn model_options(
    instances: &Vec<ProviderInstanceRow>,
    models: &Table<Vec<String>>,
    instance: &str,
) -> (r: Vec<DropdownOption>)
    ensures
        ({
            let known = models_known(models@, instance_provider(instances@, instance@));
            &&& r@.len() == known.len() + 1
            &&& r@[0].value@.len() == 0 && r@[0].label@ == "— select —"@
            &&& forall|i: int|
                0 <= i < known.len() ==> (#[trigger] r@[i + 1]).value@ == known[i]@ && r@[i + 1].label@ == known[i]@
        }),
{
    let mut r: Vec<DropdownOption> = Vec::new();
    r.push(DropdownOption { value: String::new(), label: "— select —".to_owned() });
    let provider = provider_id_for_instance(instances, instance);
    if let Some(list) = models.get(provider.as_str()) {
        let mut i: usize = 0;
        while i < list.len()
            invariant
                i <= list@.len(),
                r@.len() == i + 1,
                r@[0].value@.len() == 0 && r@[0].label@ == "— select —"@,
                forall|k: int|
                    0 <= k < i ==> (#[trigger] r@[k + 1]).value@ == list@[k]@ && r@[k + 1].label@ == list@[k]@,
            decreases list@.len() - i,
        {
            r.push(DropdownOption { value: list[i].clone(), label: list[i].clone() });
            i = i + 1;
        }
    }
    r
}

/// An instance has this name, whatever the case of its letters.
pub open spec fn alias_used(instances: Seq<ProviderInstanceRow>, alias: Seq<char>) -> bool {
    exists|i: int| 0 <= i < instances.len() && same_but_case((#[trigger] instances[i]).alias@, alias)
}

/// Whether an instance has this name.
pub fn alias_taken(instances: &Vec<ProviderInstanceRow>, alias: &str) -> (r: bool)
    ensures
        r == alias_used(instances@, alias@),
{
    let mut i: usize = 0;
    while i < instances.len()
        invariant
            i <= instances@.len(),
            forall|k: int| 0 <= k < i ==> !same_but_case((#[trigger] instances@[k]).alias@, alias@),
        decreases instances@.len() - i,
    {
        if equal_but_case(instances[i].alias.as_str(), alias) {
            assert(same_but_case(instances@[i as int].alias@, alias@));
            return true;
        }
        i = i + 1;
    }
    false
}

/// A service is connected.
pub open spec fn provider_used(instances: Seq<ProviderInstanceRow>, id: Seq<char>) -> bool {
    exists|i: int| 0 <= i < instances.len() && (#[trigger] instances[i]).provider_id@ == id
}

/// Whether a service is connected.
pub fn in_use(instances: &Vec<ProviderInstanceRow>, id: &str) -> (r: bool)
    ensures
        r == provider_used(instances@, id@),
{
    let mut i: usize = 0;
    while i < instances.len()
        invariant
            i <= instances@.len(),
            forall|k: int| 0 <= k < i ==> (#[trigger] instances@[k]).provider_id@ != id@,
        decreases instances@.len() - i,
    {
        if same_text(instances[i].provider_id.as_str(), id) {
            assert(instances@[i as int].provider_id@ == id@);
            return true;
        }
        i = i + 1;
    }
    false
}

/// The name of a new instance: what the user wrote, or a default.
pub open spec fn alias_or(written: Seq<char>, default: Seq<char>) -> Seq<char> {
    if blank(written) {
        default
    } else {
        trimmed(written)
    }
}

fn chosen_alias(written: &str, default: &str) -> (r: String)
    ensures
        r@ == alias_or(written@, default@),
{
    let t = trim(written);
    proof {
        trimmed_is_empty_iff_blank(written@);
    }
    if t.as_str().is_empty() {
        default.to_owned()
    } else {
        t
    }
}

/// What is said of a name that is in use.
pub open spec fn alias_error(alias: Seq<char>) -> Seq<char> {
    "alias \""@ + alias + "\" is already in use"@
}

/// What stops a new instance: a missing key, or a name that is in use.
pub open spec fn refusal(instances: Seq<ProviderInstanceRow>, alias: Seq<char>, key: Seq<char>) -> Option<Seq<char>> {
    if blank(key) {
        Some("api key is required"@)
    } else if alias_used(instances, alias) {
        Some(alias_error(alias))
    } else {
        None
    }
}

fn refuse(instances: &Vec<ProviderInstanceRow>, alias: &str, raw_key: &str, Ghost(key): Ghost<Seq<char>>) -> (r: Option<String>)
    requires
        raw_key@ == trimmed(key),
    ensures
        crate::model::opt_text(r) == refusal(instances@, alias@, key),
{
    proof {
        trimmed_is_empty_iff_blank(key);
    }
    if raw_key.is_empty() {
        return Some("api key is required".to_owned());
    }
    if alias_taken(instances, alias) {
        let mut e = String::new();
        e.append("alias \"");
        e.append(alias);
        e.append("\" is already in use");
        assert(e@ =~= alias_error(alias@));
        return Some(e);
    }
    None
}

/// The instance that is kept once its key has been checked.
pub open spec fn pending_row(
    row: ProviderInstanceRow,
    id: Seq<char>,
    provider: Seq<char>,
    alias: Seq<char>,
    key: Seq<char>,
    now: Seq<char>,
) -> bool {
    &&& row.id@ == id
    &&& row.provider_id@ == provider
    &&& row.alias@ == alias
    &&& row.api_key@ == kept_key(key)
    &&& read_key(row.api_key@) == key
    &&& row.sort_order == 0
    &&& row.created_at@ == now
}

fn make_row(id: &str, provider: &str, alias: String, raw_key: &str, now: &str) -> (r: ProviderInstanceRow)
    ensures
        pending_row(r, id@, provider@, alias@, raw_key@, now@),
{
    ProviderInstanceRow {
        id: id.to_owned(),
        provider_id: provider.to_owned(),
        alias,
        api_key: encode_key(raw_key),
        sort_order: 0,
        created_at: now.to_owned(),
    }
}

/// The service of a preset.
pub open spec fn from_preset(p: ProviderRow, preset: ProviderPreset) -> bool {
    &&& p.id == preset.id
    &&& p.name == preset.name
    &&& p.kind == preset.kind
    &&& p.base_url == preset.base_url
    &&& p.models_url == preset.models_url
    &&& p.balance_url@.len() == 0
    &&& p.context_window == preset.context_window
    &&& p.is_preset
}

/// A service of the user's own, which answers like OpenAI's.
pub open spec fn custom_provider(p: ProviderRow, id: Seq<char>, name: Seq<char>, url: Seq<char>) -> bool {
    &&& p.id@ == id
    &&& p.name@ == name
    &&& p.kind@ == "openai"@
    &&& p.base_url@ == url
    &&& p.models_url@ == url + "/models"@
    &&& p.balance_url@.len() == 0
    &&& p.context_window == 0
    &&& !p.is_preset
}

impl AddForm {
    /// A form that is hidden and empty.
    pub open spec fn blank_form(self) -> bool {
        &&& !self.shown
        &&& self.step == AddStep::SelectProvider
        &&& self.provider_id@.len() == 0
        &&& self.alias@.len() == 0
        &&& self.key@.len() == 0
        &&& self.error is None
        &&& self.custom_id@.len() == 0
        &&& self.custom_name@.len() == 0
        &&& self.custom_url@.len() == 0
    }

    pub fn new() -> (r: AddForm)
        ensures
            r.blank_form(),
    {
        AddForm {
            shown: false,
            step: AddStep::SelectProvider,
            provider_id: String::new(),
            alias: String::new(),
            key: String::new(),
            error: None,
            custom_id: String::new(),
            custom_name: String::new(),
            custom_url: String::new(),
        }
    }

    /// Hides the form and empties it, but for the chosen service.
    pub fn close(&mut self)
        ensures
            !final(self).shown,
            final(self).step == AddStep::SelectProvider,
            final(self).provider_id == old(self).provider_id,
            final(self).alias@.len() == 0,
            final(self).key@.len() == 0,
            final(self).error is None,
            final(self).custom_id@.len() == 0,
            final(self).custom_name@.len() == 0,
            final(self).custom_url@.len() == 0,
    {
        self.shown = false;
        self.step = AddStep::SelectProvider;
        self.alias = String::new();
        self.key = String::new();
        self.custom_id = String::new();
        self.custom_name = String::new();
        self.custom_url = String::new();
        self.error = None;
    }

    /// Leaves the details of a preset: what was written of a service of the
    /// user's own stays.
    pub fn cancel_details(&mut self)
        ensures
            !final(self).shown,
            final(self).step == AddStep::SelectProvider,
            final(self).alias@.len() == 0,
            final(self).key@.len() == 0,
            final(self).error is None,
            *final(self) == (AddForm {
                shown: final(self).shown,
                step: final(self).step,
                alias: final(self).alias,
                key: final(self).key,
                error: final(self).error,
                ..*old(self)
            }),
    {
        self.shown = false;
        self.step = AddStep::SelectProvider;
        self.alias = String::new();
        self.key = String::new();
        self.error = None;
    }

    /// Chooses a preset; its name is offered as the instance's.
    pub fn choose_preset(&mut self, preset: &ProviderPreset)
        ensures
            *final(self) == (AddForm {
                provider_id: preset.id,
                alias: preset.name,
                step: AddStep::FillDetails,
                ..*old(self)
            }),
    {
        self.provider_id = preset.id.clone();
        self.alias = preset.name.clone();
        self.step = AddStep::FillDetails;
    }

    /// The instance of a preset was saved.
    fn preset_saved(&mut self)
        ensures
            !final(self).shown,
            final(self).step == AddStep::SelectProvider,
            final(self).provider_id@.len() == 0,
            final(self).alias@.len() == 0,
            final(self).key@.len() == 0,
            *final(self) == (AddForm {
                shown: final(self).shown,
                step: final(self).step,
                provider_id: final(self).provider_id,
                alias: final(self).alias,
                key: final(self).key,
                ..*old(self)
            }),
    {
        self.shown = false;
        self.step = AddStep::SelectProvider;
        self.provider_id = String::new();
        self.alias = String::new();
        self.key = String::new();
    }

    /// The instance of a service of the user's own was saved.
    fn custom_saved(&mut self)
        ensures
            !final(self).shown,
            final(self).step == AddStep::SelectProvider,
            final(self).custom_id@.len() == 0,
            final(self).custom_name@.len() == 0,
            final(self).custom_url@.len() == 0,
            final(self).alias@.len() == 0,
            final(self).key@.len() == 0,
            *final(self) == (AddForm {
                shown: final(self).shown,
                step: final(self).step,
                custom_id: final(self).custom_id,
                custom_name: final(self).custom_name,
                custom_url: final(self).custom_url,
                alias: final(self).alias,
                key: final(self).key,
                ..*old(self)
            }),
    {
        self.shown = false;
        self.step = AddStep::SelectProvider;
        self.custom_id = String::new();
        self.custom_name = String::new();
        self.custom_url = String::new();
        self.alias = String::new();
        self.key = String::new();
    }
}

/// The first of the presets from `from` on that has this id.
pub open spec fn preset_place(s: Seq<ProviderPreset>, id: Seq<char>, from: int) -> Option<int>
    decreases s.len() - from,
{
    if from < 0 || from >= s.len() {
        None
    } else if s[from].id@ == id {
        Some(from)
    } else {
        preset_place(s, id, from + 1)
    }
}

/// Where the preset with this id stands.
pub fn find_preset(presets: &Vec<ProviderPreset>, id: &str) -> (r: Option<usize>)
    ensures
        match r {
            Some(i) => i < presets@.len() && preset_place(presets@, id@, 0) == Some(i as int),
            None => preset_place(presets@, id@, 0) is None,
        },
{
    let mut i: usize = 0;
    while i < presets.len()
        invariant
            i <= presets@.len(),
            preset_place(presets@, id@, 0) == preset_place(presets@, id@, i as int),
        decreases presets@.len() - i,
    {
        if same_text(presets[i].id.as_str(), id) {
            return Some(i);
        }
        i = i + 1;
    }
    None
}

/// What the form's details are of.
#[derive(Debug, Clone, Copy, PartialEq, Eq, Structural)]
pub enum AddTarget {
    Custom,
    /// The place of the preset.
    Preset(usize),
    Nothing,
}

impl AddForm {
    /// What the form's details are of: the chosen preset, or a service of the
    /// user's own where none was chosen.
    pub fn target(&self, presets: &Vec<ProviderPreset>) -> (r: AddTarget)
        ensures
            r == if self.provider_id@.len() == 0 {
                AddTarget::Custom
            } else {
                match preset_place(presets@, self.provider_id@, 0) {
                    Some(i) => AddTarget::Preset(i as usize),
                    None => AddTarget::Nothing,
                }
            },
    {
        if self.provider_id.as_str().is_empty() {
            return AddTarget::Custom;
        }
        match find_preset(presets, self.provider_id.as_str()) {
            Some(i) => AddTarget::Preset(i),
            None => AddTarget::Nothing,
        }
    }
}

/// What is said of a key that the service does not take.
pub open spec fn check_error(e: Seq<char>) -> Seq<char> {
    "key validation failed: "@ + e
}

fn message(head: &str, e: &str) -> (r: String)
    ensures
        r@ == head@ + e@,
{
    let mut r = head.to_owned();
    r.append(e);
    r
}

impl SettingsPanel {
    pub fn new(instances: Vec<ProviderInstanceRow>, providers: Vec<ProviderRow>, models: Table<Vec<String>>) -> (r: SettingsPanel)
        ensures
            r.instances == instances,
            r.providers == providers,
            r.models == models,
            r.editing_key_for is None,
            r.key_input@.len() == 0,
            r.refreshing is None,
            r.fetch_errors@ == Map::<Seq<char>, String>::empty(),
            r.deleting is None,
            r.form.blank_form(),
    {
        SettingsPanel {
            instances,
            providers,
            models,
            editing_key_for: None,
            key_input: String::new(),
            refreshing: None,
            fetch_errors: Table::new(),
            deleting: None,
            form: AddForm::new(),
        }
    }

    /// The user wants an instance's models anew; `instance` is what is stored of
    /// it. Returns its service and its key where they are to be fetched.
    pub fn begin_refresh(&mut self, id: &str, instance: &Option<ProviderInstanceRow>) -> (r: Option<(String, String)>)
        ensures
            match *instance {
                None => r is None && *final(self) == *old(self),
                Some(i) => if read_key(i.api_key@).len() == 0 {
                    &&& r is None
                    &&& final(self).fetch_errors@.dom().contains(id@)
                    &&& final(self).fetch_errors@[id@]@ == "api key required"@
                    &&& final(self).fetch_errors@ == old(self).fetch_errors@.insert(
                        id@,
                        final(self).fetch_errors@[id@],
                    )
                    &&& *final(self) == (SettingsPanel { fetch_errors: final(self).fetch_errors, ..*old(self) })
                } else {
                    &&& r is Some
                    &&& (r->0).0 == i.provider_id
                    &&& (r->0).1@ == read_key(i.api_key@)
                    &&& final(self).refreshing is Some
                    &&& final(self).refreshing->0@ == id@
                    &&& final(self).fetch_errors@ == old(self).fetch_errors@.remove(id@)
                    &&& *final(self) == (SettingsPanel {
                        refreshing: final(self).refreshing,
                        fetch_errors: final(self).fetch_errors,
                        ..*old(self)
                    })
                },
            },
    {
        match instance {
            None => None,
            Some(i) => {
                let key = decode_key(i.api_key.as_str());
                if key.as_str().is_empty() {
                    self.fetch_errors.insert(id.to_owned(), "api key required".to_owned());
                    None
                } else {
                    self.refreshing = Some(id.to_owned());
                    let _ = self.fetch_errors.remove(id);
                    Some((i.provider_id.clone(), key))
                }
            },
        }
    }

    /// An instance's models came, or did not.
    pub fn refreshed(&mut self, id: &str, provider: String, outcome: Result<Vec<String>, String>)
        ensures
            final(self).refreshing is None,
            match outcome {
                Ok(models) => {
                    &&& final(self).models@ == old(self).models@.insert(provider@, models)
                    &&& final(self).fetch_errors@ == old(self).fetch_errors@.remove(id@)
                },
                Err(e) => {
                    &&& final(self).models == old(self).models
                    &&& final(self).fetch_errors@ == old(self).fetch_errors@.insert(id@, e)
                },
            },
            *final(self) == (SettingsPanel {
                refreshing: final(self).refreshing,
                models: final(self).models,
                fetch_errors: final(self).fetch_errors,
                ..*old(self)
            }),
    {
        match outcome {
            Ok(models) => {
                self.models.insert(provider, models);
                let _ = self.fetch_errors.remove(id);
            },
            Err(e) => {
                self.fetch_errors.insert(id.to_owned(), e);
            },
        }
        self.refreshing = None;
    }

    /// The service of an instance is not known, so its models could not be
    /// fetched.
    pub fn provider_missing(&mut self, id: &str)
        ensures
            final(self).refreshing is None,
            final(self).fetch_errors@.dom().contains(id@),
            final(self).fetch_errors@[id@]@ == "provider not found"@,
            final(self).fetch_errors@ == old(self).fetch_errors@.insert(id@, final(self).fetch_errors@[id@]),
            *final(self) == (SettingsPanel {
                refreshing: final(self).refreshing,
                fetch_errors: final(self).fetch_errors,
                ..*old(self)
            }),
    {
        self.fetch_errors.insert(id.to_owned(), "provider not found".to_owned());
        self.refreshing = None;
    }

    /// An instance was deleted; `instances` are those that remain.
    pub fn deleted(&mut self, id: &str, instances: Vec<ProviderInstanceRow>)
        ensures
            final(self).instances == instances,
            final(self).fetch_errors@ == old(self).fetch_errors@.remove(id@),
            final(self).deleting is None,
            *final(self) == (SettingsPanel {
                instances: final(self).instances,
                fetch_errors: final(self).fetch_errors,
                deleting: final(self).deleting,
                ..*old(self)
            }),
    {
        self.instances = instances;
        let _ = self.fetch_errors.remove(id);
        self.deleting = None;
    }

    /// The user asks to delete an instance; it has to be confirmed.
    pub fn ask_delete(&mut self, id: Option<String>)
        ensures
            *final(self) == (SettingsPanel { deleting: id, ..*old(self) }),
    {
        self.deleting = id;
    }

    /// Opens the field for a new key of an instance, or closes it.
    pub fn toggle_key_edit(&mut self, id: &str)
        ensures
            if old(self).editing_key_for is Some && old(self).editing_key_for->0@ == id@ {
                *final(self) == (SettingsPanel { editing_key_for: None, ..*old(self) })
            } else {
                &&& final(self).editing_key_for is Some
                &&& final(self).editing_key_for->0@ == id@
                &&& final(self).key_input@.len() == 0
                &&& *final(self) == (SettingsPanel {
                    editing_key_for: final(self).editing_key_for,
                    key_input: final(self).key_input,
                    ..*old(self)
                })
            },
    {
        let editing = match &self.editing_key_for {
            Some(e) => same_text(e.as_str(), id),
            None => false,
        };
        if editing {
            self.editing_key_for = None;
        } else {
            self.key_input = String::new();
            self.editing_key_for = Some(id.to_owned());
        }
    }

    /// The form in which the new key is kept.
    pub fn key_to_save(&self) -> (r: String)
        ensures
            r@ == kept_key(trimmed(self.key_input@)),
            read_key(r@) == trimmed(self.key_input@),
    {
        let t = trim(self.key_input.as_str());
        encode_key(t.as_str())
    }

    /// The new key was saved; `instances` are the instances as they are stored
    /// now.
    pub fn key_saved(&mut self, instances: Vec<ProviderInstanceRow>)
        ensures
            *final(self) == (SettingsPanel { instances, editing_key_for: None, ..*old(self) }),
    {
        self.instances = instances;
        self.editing_key_for = None;
    }

    /// The user wants to add an instance of a preset under the id `id`;
    /// `stored` are the instances as they are stored. Returns the instance whose
    /// key is to be checked, unless the key is missing or the name in use.
    pub fn prepare_preset(
        &mut self,
        preset: &ProviderPreset,
        stored: &Vec<ProviderInstanceRow>,
        id: &str,
        now: &str,
    ) -> (r: Option<PendingInstance>)
        ensures
            ({
                let alias = alias_or(old(self).form.alias@, preset.name@);
                match refusal(stored@, alias, old(self).form.key@) {
                    Some(e) => {
                        &&& r is None
                        &&& final(self).form.error is Some
                        &&& final(self).form.error->0@ == e
                        &&& final(self).refreshing == old(self).refreshing
                    },
                    None => {
                        &&& r is Some
                        &&& from_preset(r->0.provider, *preset)
                        &&& r->0.raw_key@ == trimmed(old(self).form.key@)
                        &&& pending_row(
                            r->0.row,
                            id@,
                            preset.id@,
                            alias,
                            trimmed(old(self).form.key@),
                            now@,
                        )
                        &&& final(self).form.error is None
                        &&& final(self).refreshing is Some
                        &&& final(self).refreshing->0@ == id@
                    },
                }
            }),
            *final(self) == (SettingsPanel {
                form: (AddForm { error: final(self).form.error, ..old(self).form }),
                refreshing: final(self).refreshing,
                ..*old(self)
            }),
    {
        let alias = chosen_alias(self.form.alias.as_str(), preset.name.as_str());
        let raw_key = trim(self.form.key.as_str());
        let ghost key = self.form.key@;
        if let Some(e) = refuse(stored, alias.as_str(), raw_key.as_str(), Ghost(key)) {
            self.form.error = Some(e);
            return None;
        }
        self.refreshing = Some(id.to_owned());
        self.form.error = None;
        let row = make_row(id, preset.id.as_str(), alias, raw_key.as_str(), now);
        let provider = ProviderRow {
            id: preset.id.clone(),
            name: preset.name.clone(),
            kind: preset.kind.clone(),
            base_url: preset.base_url.clone(),
            models_url: preset.models_url.clone(),
            balance_url: String::new(),
            context_window: preset.context_window,
            is_preset: true,
        };
        Some(PendingInstance { provider, row, raw_key })
    }

    /// The user wants to add an instance of a service of their own under the id
    /// `id`. Nothing happens while the service's id, name or address is missing.
    pub fn prepare_custom(&mut self, stored: &Vec<ProviderInstanceRow>, id: &str, now: &str) -> (r: Option<PendingInstance>)
        ensures
            ({
                let form = old(self).form;
                if blank(form.custom_id@) || blank(form.custom_name@) || blank(form.custom_url@) {
                    r is None && *final(self) == *old(self)
                } else {
                    let alias = alias_or(form.alias@, trimmed(form.custom_name@));
                    match refusal(stored@, alias, form.key@) {
                        Some(e) => {
                            &&& r is None
                            &&& final(self).form.error is Some
                            &&& final(self).form.error->0@ == e
                            &&& final(self).refreshing == old(self).refreshing
                        },
                        None => {
                            &&& r is Some
                            &&& custom_provider(
                                r->0.provider,
                                trimmed(form.custom_id@),
                                trimmed(form.custom_name@),
                                trimmed(form.custom_url@),
                            )
                            &&& r->0.raw_key@ == trimmed(form.key@)
                            &&& pending_row(
                                r->0.row,
                                id@,
                                trimmed(form.custom_id@),
                                alias,
                                trimmed(form.key@),
                                now@,
                            )
                            &&& final(self).form.error is None
                            &&& final(self).refreshing is Some
                            &&& final(self).refreshing->0@ == id@
                        },
                    }
                }
            }),
            *final(self) == (SettingsPanel {
                form: (AddForm { error: final(self).form.error, ..old(self).form }),
                refreshing: final(self).refreshing,
                ..*old(self)
            }),
    {
        let custom_id = trim(self.form.custom_id.as_str());
        let name = trim(self.form.custom_name.as_str());
        let url = trim(self.form.custom_url.as_str());
        proof {
            trimmed_is_empty_iff_blank(self.form.custom_id@);
            trimmed_is_empty_iff_blank(self.form.custom_name@);
            trimmed_is_empty_iff_blank(self.form.custom_url@);
        }
        if custom_id.as_str().is_empty() || name.as_str().is_empty() || url.as_str().is_empty() {
            return None;
        }
        let raw_key = trim(self.form.key.as_str());
        let alias = chosen_alias(self.form.alias.as_str(), name.as_str());
        let ghost key = self.form.key@;
        if let Some(e) = refuse(stored, alias.as_str(), raw_key.as_str(), Ghost(key)) {
            self.form.error = Some(e);
            return None;
        }
        self.form.error = None;
        self.refreshing = Some(id.to_owned());
        let row = make_row(id, custom_id.as_str(), alias, raw_key.as_str(), now);
        let mut models_url = url.clone();
        models_url.append("/models");
        let provider = ProviderRow {
            id: custom_id,
            name,
            kind: "openai".to_owned(),
            base_url: url,
            models_url,
            balance_url: String::new(),
            context_window: 0,
            is_preset: false,
        };
        Some(PendingInstance { provider, row, raw_key })
    }

    /// The service did not take the key.
    pub fn key_refused(&mut self, e: &str)
        ensures
            final(self).form.error is Some,
            final(self).form.error->0@ == check_error(e@),
            *final(self) == (SettingsPanel {
                form: (AddForm { error: final(self).form.error, ..old(self).form }),
                refreshing: None,
                ..*old(self)
            }),
    {
        self.form.error = Some(message("key validation failed: ", e));
        self.refreshing = None;
    }

    /// The instance could not be saved.
    pub fn save_failed(&mut self, e: &str)
        ensures
            final(self).form.error is Some,
            final(self).form.error->0@ == "failed to save: "@ + e@,
            *final(self) == (SettingsPanel {
                form: (AddForm { error: final(self).form.error, ..old(self).form }),
                refreshing: None,
                ..*old(self)
            }),
    {
        self.form.error = Some(message("failed to save: ", e));
        self.refreshing = None;
    }

    fn show_saved(&mut self, list: Result<Vec<ProviderInstanceRow>, String>)
        ensures
            match list {
                Ok(instances) => final(self).instances == instances && final(self).form == old(self).form,
                Err(e) => {
                    &&& final(self).instances@.len() == 0
                    &&& final(self).form.error is Some
                    &&& final(self).form.error->0@ == "saved but failed to refresh list: "@ + e@
                    &&& final(self).form == (AddForm { error: final(self).form.error, ..old(self).form })
                },
            },
            final(self).refreshing is None,
            *final(self) == (SettingsPanel {
                instances: final(self).instances,
                form: final(self).form,
                refreshing: None,
                ..*old(self)
            }),
    {
        match list {
            Ok(instances) => {
                self.instances = instances;
            },
            Err(e) => {
                self.form.error = Some(message("saved but failed to refresh list: ", e.as_str()));
                self.instances = Vec::new();
            },
        }
        self.refreshing = None;
    }

    /// The instance of a preset was saved, and its models are known; `list` are
    /// the instances as they are stored now. The form is hidden and empty.
    pub fn preset_added(&mut self, provider: String, models: Vec<String>, list: Result<Vec<ProviderInstanceRow>, String>)
        ensures
            final(self).models@ == old(self).models@.insert(provider@, models),
            match list {
                Ok(instances) => final(self).instances == instances && final(self).form.error == old(self).form.error,
                Err(e) => final(self).instances@.len() == 0 && final(self).form.error is Some
                    && final(self).form.error->0@ == "saved but failed to refresh list: "@ + e@,
            },
            !final(self).form.shown,
            final(self).form.step == AddStep::SelectProvider,
            final(self).form.provider_id@.len() == 0,
            final(self).form.alias@.len() == 0,
            final(self).form.key@.len() == 0,
            final(self).form == (AddForm {
                shown: final(self).form.shown,
                step: final(self).form.step,
                provider_id: final(self).form.provider_id,
                alias: final(self).form.alias,
                key: final(self).form.key,
                error: final(self).form.error,
                ..old(self).form
            }),
            *final(self) == (SettingsPanel {
                models: final(self).models,
                instances: final(self).instances,
                form: final(self).form,
                refreshing: None,
                ..*old(self)
            }),
    {
        self.models.insert(provider, models);
        self.show_saved(list);
        self.form.preset_saved();
    }

    /// The instance of a service of the user's own was saved; `providers` and
    /// `list` are the services and the instances as they are stored now. The
    /// form is hidden and empty.
    pub fn custom_added(&mut self, providers: Vec<ProviderRow>, list: Result<Vec<ProviderInstanceRow>, String>)
        ensures
            match list {
                Ok(instances) => final(self).instances == instances && final(self).form.error == old(self).form.error,
                Err(e) => final(self).instances@.len() == 0 && final(self).form.error is Some
                    && final(self).form.error->0@ == "saved but failed to refresh list: "@ + e@,
            },
            !final(self).form.shown,
            final(self).form.step == AddStep::SelectProvider,
            final(self).form.custom_id@.len() == 0,
            final(self).form.custom_name@.len() == 0,
            final(self).form.custom_url@.len() == 0,
            final(self).form.alias@.len() == 0,
            final(self).form.key@.len() == 0,
            final(self).form == (AddForm {
                shown: final(self).form.shown,
                step: final(self).form.step,
                custom_id: final(self).form.custom_id,
                custom_name: final(self).form.custom_name,
                custom_url: final(self).form.custom_url,
                alias: final(self).form.alias,
                key: final(self).form.key,
                error: final(self).form.error,
                ..old(self).form
            }),
            *final(self) == (SettingsPanel {
                providers,
                instances: final(self).instances,
                form: final(self).form,
                refreshing: None,
                ..*old(self)
            }),
    {
        self.providers = providers;
        self.show_saved(list);
        self.form.custom_saved();
    }
}

/// The agent can talk to the user: all but sub-agents can.
pub fn speaks(c: &AgentChoice) -> (r: bool)
    ensures
        r == (c.agent_type@ != "SubAgent"@),
{
    !same_text(c.agent_type.as_str(), "SubAgent")
}

/// The agents that can talk to the user.
pub open spec fn speakers(s: Seq<AgentChoice>, n: nat) -> Seq<int>
    decreases n,
{
    if n == 0 {
        Seq::empty()
    } else if s[n - 1].agent_type@ != "SubAgent"@ {
        speakers(s, (n - 1) as nat).push(n - 1)
    } else {
        speakers(s, (n - 1) as nat)
    }
}

/// The options for the default agent: one that says so where there are no
/// agents at all, else the agents that can talk to the user.
pub fn default_agent_options(configs: &Vec<AgentChoice>) -> (r: Vec<DropdownOption>)
    ensures
        configs@.len() == 0 ==> r@.len() == 1 && r@[0].value@.len() == 0 && r@[0].label@ == "— none —"@,
        configs@.len() > 0 ==> {
            let who = speakers(configs@, configs@.len());
            r@.len() == who.len() && forall|i: int|
                0 <= i < who.len() ==> (#[trigger] r@[i]).value@ == configs@[who[i]].id@ && r@[i].label@
                    == configs@[who[i]].name@
        },
{
    let mut r: Vec<DropdownOption> = Vec::new();
    if configs.len() == 0 {
        r.push(DropdownOption { value: String::new(), label: "— none —".to_owned() });
        return r;
    }
    let mut i: usize = 0;
    while i < configs.len()
        invariant
            i <= configs@.len(),
            ({
                let who = speakers(configs@, i as nat);
                r@.len() == who.len() && forall|k: int|
                    0 <= k < who.len() ==> (#[trigger] r@[k]).value@ == configs@[who[k]].id@ && r@[k].label@
                        == configs@[who[k]].name@
            }),
        decreases configs@.len() - i,
    {
        if speaks(&configs[i]) {
            r.push(DropdownOption { value: configs[i].id.clone(), label: configs[i].name.clone() });
        }
        i = i + 1;
    }
    r
}

/// The values and the labels of options.
pub open spec fn option_texts(options: Seq<DropdownOption>) -> Seq<(Seq<char>, Seq<char>)> {
    options.map_values(|o: DropdownOption| (o.value@, o.label@))
}

fn option(value: &str, label: &str) -> (r: DropdownOption)
    ensures
        r.value@ == value@,
        r.label@ == label@,
{
    DropdownOption { value: value.to_owned(), label: label.to_owned() }
}

/// The options for the default action mode.
pub fn action_mode_options() -> (r: Vec<DropdownOption>)
    ensures
        option_texts(r@) == seq![
            ("regular"@, "regular — all tools available"@),
            ("plan"@, "plan — read-only tools only"@),
        ],
{
    let r = vec![
        option("regular", "regular — all tools available"),
        option("plan", "plan — read-only tools only"),
    ];
    assert(option_texts(r@) =~= seq![
            ("regular"@, "regular — all tools available"@),
            ("plan"@, "plan — read-only tools only"@),
    ]);
    r
}

/// The options for the default agent mode.
pub fn agent_mode_options() -> (r: Vec<DropdownOption>)
    ensures
        option_texts(r@) == seq![
            ("cautious"@, "cautious — all writes require approval"@),
            ("ask"@, "ask — prompt on non-read operations"@),
            ("auto"@, "auto — automatic approval for safe operations"@),
            ("unleashed"@, "unleashed — full autonomy"@),
        ],
{
    let r = vec![
        option("cautious", "cautious — all writes require approval"),
        option("ask", "ask — prompt on non-read operations"),
        option("auto", "auto — automatic approval for safe operations"),
        option("unleashed", "unleashed — full autonomy"),
    ];
    assert(option_texts(r@) =~= seq![
            ("cautious"@, "cautious — all writes require approval"@),
            ("ask"@, "ask — prompt on non-read operations"@),
            ("auto"@, "auto — automatic approval for safe operations"@),
            ("unleashed"@, "unleashed — full autonomy"@),
    ]);
    r
}

/// The options for the size of the text.
pub fn font_size_options() -> (r: Vec<DropdownOption>)
    ensures
        option_texts(r@) == seq![
            ("xs"@, "xs (12px)"@),
            ("sm"@, "sm (14px)"@),
            ("md"@, "md (16px)"@),
            ("lg"@, "lg (18px)"@),
            ("xl"@, "xl (20px)"@),
        ],
{
    let r = vec![
        option("xs", "xs (12px)"),
        option("sm", "sm (14px)"),
        option("md", "md (16px)"),
        option("lg", "lg (18px)"),
        option("xl", "xl (20px)"),
    ];
    assert(option_texts(r@) =~= seq![
            ("xs"@, "xs (12px)"@),
            ("sm"@, "sm (14px)"@),
            ("md"@, "md (16px)"@),
            ("lg"@, "lg (18px)"@),
            ("xl"@, "xl (20px)"@),
    ]);
    r
}

/// The options for the font of code.
pub fn code_font_options() -> (r: Vec<DropdownOption>)
    ensures
        option_texts(r@) == seq![
            ("jetbrains-mono"@, "JetBrains Mono"@),
            ("geist-mono"@, "Geist Mono"@),
            ("ibm-plex-mono"@, "IBM Plex Mono"@),
            ("commit-mono"@, "Commit Mono"@),
        ],
{
    let r = vec![
        option("jetbrains-mono", "JetBrains Mono"),
        option("geist-mono", "Geist Mono"),
        option("ibm-plex-mono", "IBM Plex Mono"),
        option("commit-mono", "Commit Mono"),
    ];
    assert(option_texts(r@) =~= seq![
            ("jetbrains-mono"@, "JetBrains Mono"@),
            ("geist-mono"@, "Geist Mono"@),
            ("ibm-plex-mono"@, "IBM Plex Mono"@),
            ("commit-mono"@, "Commit Mono"@),
    ]);
    r
}

/// The options for the density.
pub fn density_options() -> (r: Vec<DropdownOption>)
    ensures
        option_texts(r@) == seq![
            ("comfortable"@, "comfortable"@),
            ("compact"@, "compact"@),
        ],
{
    let r = vec![
        option("comfortable", "comfortable"),
        option("compact", "compact"),
    ];
    assert(option_texts(r@) =~= seq![
            ("comfortable"@, "comfortable"@),
            ("compact"@, "compact"@),
    ]);
    r
}

/// The size of the text for a key of the settings.
pub open spec fn font_size(key: Seq<char>) -> Seq<char> {
    if key == "xs"@ {
        "0.8125rem"@
    } else if key == "sm"@ {
        "0.875rem"@
    } else if key == "lg"@ {
        "1.125rem"@
    } else if key == "xl"@ {
        "1.25rem"@
    } else {
        "1rem"@
    }
}

/// The fonts of code for a key of the settings.
pub open spec fn code_font(key: Seq<char>) -> Seq<char> {
    if key == "geist-mono"@ {
        "\"Geist Mono\",\"SF Mono\",monospace"@
    } else if key == "ibm-plex-mono"@ {
        "\"IBM Plex Mono\",\"SF Mono\",monospace"@
    } else if key == "commit-mono"@ {
        "\"Commit Mono\",\"SF Mono\",monospace"@
    } else {
        "\"JetBrains Mono\",\"SF Mono\",monospace"@
    }
}

/// The distances of a compact surface.
pub open spec fn spacing(density: Seq<char>) -> Seq<char> {
    if density == "compact"@ {
        "--space-sm:0.5rem;--space-md:0.75rem;--space-lg:1rem;--space-xl:1.5rem;--space-2xl:2rem;"@
    } else {
        Seq::empty()
    }
}

fn font_size_of(key: &str) -> (r: &'static str)
    ensures
        r@ == font_size(key@),
{
    if same_text(key, "xs") {
        "0.8125rem"
    } else if same_text(key, "sm") {
        "0.875rem"
    } else if same_text(key, "lg") {
        "1.125rem"
    } else if same_text(key, "xl") {
        "1.25rem"
    } else {
        "1rem"
    }
}

fn code_font_of(key: &str) -> (r: &'static str)
    ensures
        r@ == code_font(key@),
{
    if same_text(key, "geist-mono") {
        "\"Geist Mono\",\"SF Mono\",monospace"
    } else if same_text(key, "ibm-plex-mono") {
        "\"IBM Plex Mono\",\"SF Mono\",monospace"
    } else if same_text(key, "commit-mono") {
        "\"Commit Mono\",\"SF Mono\",monospace"
    } else {
        "\"JetBrains Mono\",\"SF Mono\",monospace"
    }
}

/// The style sheet of the appearance that the settings name.
pub fn root_style(font: &str, code: &str, density: &str) -> (r: String)
    ensures
        r@ == ":root{--text-base:"@ + font_size(font@) + ";--font-mono:"@ + code_font(code@) + ";"@ + spacing(density@)
            + "}"@,
{
    let mut r = String::new();
    r.append(":root{--text-base:");
    r.append(font_size_of(font));
    r.append(";--font-mono:");
    r.append(code_font_of(code));
    r.append(";");
    let ghost head = r@;
    if same_text(density, "compact") {
        r.append("--space-sm:0.5rem;--space-md:0.75rem;--space-lg:1rem;--space-xl:1.5rem;--space-2xl:2rem;");
    }
    assert(r@ =~= head + spacing(density@));
    r.append("}");
    assert(r@ =~= ":root{--text-base:"@ + font_size(font@) + ";--font-mono:"@ + code_font(code@) + ";"@ + spacing(
        density@,
    ) + "}"@);
    r
}

/// The style class of the whole surface.
pub fn container_class(density: &str) -> (r: &'static str)
    ensures
        r@ == if density@ == "compact"@ {
            "app-container density-compact"@
        } else {
            "app-container"@
        },
{
    if same_text(density, "compact") {
        "app-container density-compact"
    } else {
        "app-container"
    }
}

/// A name that an instance has is in use in every case of its letters.
pub proof fn an_alias_is_taken_in_any_case(instances: Seq<ProviderInstanceRow>, i: int, alias: Seq<char>)
    requires
        0 <= i < instances.len(),
        same_but_case(instances[i].alias@, alias),
    ensures
        alias_used(instances, alias),
        forall|key: Seq<char>| !blank(key) ==> #[trigger] refusal(instances, alias, key) == Some(alias_error(alias)),
{
}

/// A provider is found by its id: the first one that has it.
pub proof fn a_provider_is_found_by_its_id(s: Seq<ProviderRow>, id: Seq<char>, i: int)
    ensures
        0 <= i < s.len() && s[i].id@ == id && (forall|k: int| 0 <= k < i ==> !((#[trigger] s[k]).id@ == id)) ==> provider_place(s, id, 0) == Some(i),
        (forall|k: int| 0 <= k < s.len() ==> !((#[trigger] s[k]).id@ == id)) ==> provider_place(s, id, 0) is None,
{
    lemma_provider_place(s, id, 0);
}

proof fn lemma_provider_place(s: Seq<ProviderRow>, id: Seq<char>, from: int)
    requires
        0 <= from,
    ensures
        match provider_place(s, id, from) {
            Some(p) => from <= p < s.len() && s[p].id@ == id && forall|k: int| from <= k < p ==> !((#[trigger] s[k]).id@ == id),
            None => forall|k: int| from <= k < s.len() ==> !((#[trigger] s[k]).id@ == id),
        },
    decreases s.len() - from,
{
    if from < s.len() && !(s[from].id@ == id) {
        lemma_provider_place(s, id, from + 1);
    }
}

/// An instance is found by its id: the first one that has it.
pub proof fn an_instance_is_found_by_its_id(s: Seq<ProviderInstanceRow>, id: Seq<char>, i: int)
    ensures
        0 <= i < s.len() && s[i].id@ == id && (forall|k: int| 0 <= k < i ==> !((#[trigger] s[k]).id@ == id)) ==> instance_place(s, id, 0) == Some(i),
        (forall|k: int| 0 <= k < s.len() ==> !((#[trigger] s[k]).id@ == id)) ==> instance_place(s, id, 0) is None,
{
    lemma_instance_place(s, id, 0);
}

proof fn lemma_instance_place(s: Seq<ProviderInstanceRow>, id: Seq<char>, from: int)
    requires
        0 <= from,
    ensures
        match instance_place(s, id, from) {
            Some(p) => from <= p < s.len() && s[p].id@ == id && forall|k: int| from <= k < p ==> !((#[trigger] s[k]).id@ == id),
            None => forall|k: int| from <= k < s.len() ==> !((#[trigger] s[k]).id@ == id),
        },
    decreases s.len() - from,
{
    if from < s.len() && !(s[from].id@ == id) {
        lemma_instance_place(s, id, from + 1);
    }
}

/// A preset is found by its id: the first one that has it.
pub proof fn a_preset_is_found_by_its_id(s: Seq<ProviderPreset>, id: Seq<char>, i: int)
    ensures
        0 <= i < s.len() && s[i].id@ == id && (forall|k: int| 0 <= k < i ==> !((#[trigger] s[k]).id@ == id)) ==> preset_place(s, id, 0) == Some(i),
        (forall|k: int| 0 <= k < s.len() ==> !((#[trigger] s[k]).id@ == id)) ==> preset_place(s, id, 0) is None,
{
    lemma_preset_place(s, id, 0);
}

proof fn lemma_preset_place(s: Seq<ProviderPreset>, id: Seq<char>, from: int)
    requires
        0 <= from,
    ensures
        match preset_place(s, id, from) {
            Some(p) => from <= p < s.len() && s[p].id@ == id && forall|k: int| from <= k < p ==> !((#[trigger] s[k]).id@ == id),
            None => forall|k: int| from <= k < s.len() ==> !((#[trigger] s[k]).id@ == id),
        },
    decreases s.len() - from,
{
    if from < s.len() && !(s[from].id@ == id) {
        lemma_preset_place(s, id, from + 1);
    }
}

/// The agents that can talk to the user are all but the sub-agents, in order.
pub proof fn all_but_sub_agents_can_speak(s: Seq<AgentChoice>, n: nat)
    requires
        n <= s.len() <= usize::MAX,
    ensures
        forall|k: int| 0 <= k < speakers(s, n).len() ==> 0 <= #[trigger] speakers(s, n)[k] < n && s[speakers(s, n)[k] as int].agent_type@ != "SubAgent"@,
        forall|i: int| 0 <= i < n && (#[trigger] s[i]).agent_type@ != "SubAgent"@ ==> speakers(s, n).contains(i as int),
        forall|j: int, k: int| 0 <= j < k < speakers(s, n).len() ==> #[trigger] speakers(s, n)[j] < #[trigger] speakers(s, n)[k],
    decreases n,
{
    let now = speakers(s, n);
    if n > 0 {
        all_but_sub_agents_can_speak(s, (n - 1) as nat);
        let before = speakers(s, (n - 1) as nat);
        assert forall|i: int| 0 <= i < n && (#[trigger] s[i]).agent_type@ != "SubAgent"@ implies now.contains(i as int) by {
            if i < n - 1 {
                assert(before.contains(i as int));
                let k = choose|k: int| 0 <= k < before.len() && before[k] == i as int;
                assert(now[k] == i as int);
            } else {
                assert(now[now.len() - 1] == i as int);
            }
        }
    }
}

/// An instance is refused without a key, and under an alias that another one has, whatever the
/// case of its letters; nothing else is refused. An alias that is left blank is the default.
pub proof fn an_instance_needs_a_key_and_an_alias_of_its_own(
    instances: Seq<ProviderInstanceRow>,
    alias: Seq<char>,
    key: Seq<char>,
    i: int,
    written: Seq<char>,
    default: Seq<char>,
)
    ensures
        refusal(instances, alias, key) is None <==> !blank(key) && forall|k: int|
            0 <= k < instances.len() ==> !same_but_case((#[trigger] instances[k]).alias@, alias),
        blank(key) ==> refusal(instances, alias, key) == Some("api key is required"@),
        !blank(key) && 0 <= i < instances.len() && instances[i].alias@ == alias ==> refusal(instances, alias, key) is Some,
        blank(written) ==> alias_or(written, default) == default,
        !blank(written) ==> alias_or(written, default) == trimmed(written),
{
    if 0 <= i < instances.len() && instances[i].alias@ == alias {
        assert(same_but_case(instances[i].alias@, alias));
    }
}

} // verus!

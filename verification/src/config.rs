//! The template cache: exclusion templates kept between runs, a staleness
//! clock, and the rules for taking in the reply to a fetch.
//!
//! Nothing here touches the network or the disk. The caller reads the
//! persisted records, makes the fetch when [`TemplateManager::needs_update`]
//! asks for one, hands the reply in, and writes the cache back when a reply
//! was installed: the templates first, then the configuration.

use vstd::prelude::*;
use crate::text::views;

verus! {

/// The number of seconds a freshly fetched cache stays fresh: one day.
pub const DEFAULT_CACHE_DURATION: u64 = 86_400;

/// When the cache was last filled and how long it stays fresh.
#[derive(Debug, Clone, Copy)]
pub struct ManagerConfig {
    /// Time of the last successful fetch, in seconds since the Unix epoch.
    pub last_updated: u64,
    /// Seconds after which the cache counts as stale.
    pub cache_duration: u64,
}

impl Default for ManagerConfig {
    fn default() -> (config: Self)
        ensures
            config.last_updated == 0,
            config.cache_duration == DEFAULT_CACHE_DURATION,
    {
        ManagerConfig { last_updated: 0, cache_duration: DEFAULT_CACHE_DURATION }
    }
}

/// A named set of exclusion-pattern lines.
#[derive(Debug, Clone)]
pub struct Template {
    /// The key the template is stored and enabled under, such as `rust`.
    pub key: String,
    /// The template's display name.
    pub name: String,
    /// The pattern lines, in gitignore style.
    pub contents: String,
}

/// What a [`Template`] holds, as text.
pub struct TemplateView {
    pub key: Seq<char>,
    pub name: Seq<char>,
    pub contents: Seq<char>,
}

impl View for Template {
    type V = TemplateView;

    open spec fn view(&self) -> TemplateView {
        TemplateView { key: self.key@, name: self.name@, contents: self.contents@ }
    }
}

/// One template of a fetch reply. `contents` is `None` when the content of
/// this key could not be fetched.
#[derive(Debug, Clone)]
pub struct FetchedTemplate {
    pub key: String,
    pub name: String,
    pub contents: Option<String>,
}

/// The reply to one fetch of the remote template source.
#[derive(Debug, Clone)]
pub enum FetchReply {
    /// The source could not be reached or its answer could not be read.
    Failed(String),
    /// The templates the source listed, in the order it listed them.
    Listing(Vec<FetchedTemplate>),
}

/// Why a fetch brought no templates.
#[derive(Debug, Clone)]
pub enum UpdateError {
    /// The fetch itself failed; the message is the one the reply carried.
    Unavailable(String),
    /// The reply held no template with contents.
    EmptyListing,
}

/// What is said of an [`UpdateError`].
pub open spec fn error_text(error: UpdateError) -> Seq<char> {
    match error {
        UpdateError::Unavailable(message) => message@,
        UpdateError::EmptyListing => "Received empty templates list from API"@,
    }
}

impl UpdateError {
    /// What to tell the user.
    pub fn message(&self) -> (text: String)
        ensures
            text@ == error_text(*self),
    {
        match self {
            UpdateError::Unavailable(message) => message.clone(),
            UpdateError::EmptyListing => "Received empty templates list from API".to_owned(),
        }
    }
}

/// How [`TemplateManager::update_if_needed`] left the cache.
#[derive(Debug, Clone)]
pub enum UpdateOutcome {
    /// The cache was fresh; the reply was not looked at.
    Fresh,
    /// The reply replaced the cache, which has to be persisted. The keys
    /// are those whose contents the reply lacked.
    Installed(Vec<String>),
    /// The fetch brought nothing and the cache, which is not empty, stays.
    KeptCache(UpdateError),
}

/// The views of a sequence of templates, in the same order.
pub open spec fn template_views(list: Seq<Template>) -> Seq<TemplateView> {
    Seq::new(list.len(), |i: int| list[i]@)
}

/// No two templates of the store share a key.
pub open spec fn distinct_keys(store: Seq<TemplateView>) -> bool {
    forall|i: int, j: int| 0 <= i < j < store.len() ==> (#[trigger] store[i]).key != (#[trigger] store[j]).key
}

/// Whether the store holds a template under `key`.
pub open spec fn holds_key(store: Seq<TemplateView>, key: Seq<char>) -> bool {
    exists|i: int| 0 <= i < store.len() && (#[trigger] store[i]).key == key
}

/// Where the store holds `key`, if it does.
pub open spec fn position(store: Seq<TemplateView>, key: Seq<char>) -> int {
    choose|i: int| 0 <= i < store.len() && (#[trigger] store[i]).key == key
}

/// The store after `t` was put in: it takes the place of the template with
/// its key, or comes last when the key is new.
pub open spec fn upsert(store: Seq<TemplateView>, t: TemplateView) -> Seq<TemplateView> {
    if holds_key(store, t.key) {
        store.update(position(store, t.key), t)
    } else {
        store.push(t)
    }
}

/// The store built from a list of templates: keys in the order of their
/// first appearance, each with the template that came last under it.
pub open spec fn store_of(list: Seq<TemplateView>) -> Seq<TemplateView>
    decreases list.len(),
{
    if list.len() == 0 {
        Seq::empty()
    } else {
        upsert(store_of(list.drop_last()), list.last())
    }
}

/// The keys of a store, in its order.
pub open spec fn store_keys(store: Seq<TemplateView>) -> Seq<Seq<char>> {
    Seq::new(store.len(), |i: int| store[i].key)
}

/// The templates of a reply that came with contents, in the reply's order.
pub open spec fn obtained(entries: Seq<FetchedTemplate>) -> Seq<TemplateView>
    decreases entries.len(),
{
    if entries.len() == 0 {
        Seq::empty()
    } else {
        let rest = obtained(entries.drop_last());
        let e = entries.last();
        match e.contents {
            Some(c) => rest.push(TemplateView { key: e.key@, name: e.name@, contents: c@ }),
            None => rest,
        }
    }
}

/// The keys of a reply that came without contents, in the reply's order.
pub open spec fn skipped_keys(entries: Seq<FetchedTemplate>) -> Seq<Seq<char>>
    decreases entries.len(),
{
    if entries.len() == 0 {
        Seq::empty()
    } else {
        let rest = skipped_keys(entries.drop_last());
        let e = entries.last();
        match e.contents {
            Some(_) => rest,
            None => rest.push(e.key@),
        }
    }
}

/// Whether `error` is the failure that `reply`, which brings no template,
/// stands for.
pub open spec fn failure_of(reply: FetchReply, error: UpdateError) -> bool {
    match reply {
        FetchReply::Failed(message) => error matches UpdateError::Unavailable(m) && m@ == message@,
        FetchReply::Listing(_) => error is EmptyListing,
    }
}

/// Putting a template into a store with distinct keys keeps them distinct.
pub proof fn lemma_upsert_distinct(store: Seq<TemplateView>, t: TemplateView)
    requires
        distinct_keys(store),
    ensures
        distinct_keys(upsert(store, t)),
        upsert(store, t).len() >= 1,
        holds_key(upsert(store, t), t.key),
{
    let next = upsert(store, t);
    if holds_key(store, t.key) {
        let p = position(store, t.key);
        assert(next[p] == t);
        assert forall|i: int, j: int| 0 <= i < j < next.len() implies (#[trigger] next[i]).key != (
        #[trigger] next[j]).key by {
            if i == p {
                assert(store[p].key != store[j].key);
            } else if j == p {
                assert(store[i].key != store[p].key);
            }
        }
    } else {
        assert(next[store.len() as int] == t);
        assert forall|i: int, j: int| 0 <= i < j < next.len() implies (#[trigger] next[i]).key != (
        #[trigger] next[j]).key by {
            if j == store.len() {
                assert(store[i].key != t.key);
            } else {
                assert(store[i].key != store[j].key);
            }
        }
    }
}

/// In a store with distinct keys, the place of a key is the one place
/// that holds it.
pub proof fn lemma_position_unique(store: Seq<TemplateView>, key: Seq<char>, i: int)
    requires
        distinct_keys(store),
        0 <= i < store.len(),
        store[i].key == key,
    ensures
        holds_key(store, key),
        position(store, key) == i,
{
    let p = position(store, key);
    if p < i {
        assert(store[p].key != store[i].key);
    } else if i < p {
        assert(store[i].key != store[p].key);
    }
}

/// A store built from a list has distinct keys, and is empty only if the
/// list is.
pub proof fn lemma_store_of_distinct(list: Seq<TemplateView>)
    ensures
        distinct_keys(store_of(list)),
        store_of(list).len() == 0 <==> list.len() == 0,
    decreases list.len(),
{
    if list.len() > 0 {
        lemma_store_of_distinct(list.drop_last());
        lemma_upsert_distinct(store_of(list.drop_last()), list.last());
    }
}

/// The template that comes last in `list` under `key`, if there is one.
pub open spec fn last_with_key(list: Seq<TemplateView>, key: Seq<char>) -> Option<TemplateView>
    decreases list.len(),
{
    if list.len() == 0 {
        None
    } else if list.last().key == key {
        Some(list.last())
    } else {
        last_with_key(list.drop_last(), key)
    }
}

/// A store built from a list holds a key exactly if the list does, and
/// holds under it the template that came last: a later template takes the
/// place of an earlier one as a whole.
pub proof fn lemma_store_lookup(list: Seq<TemplateView>, key: Seq<char>)
    ensures
        holds_key(store_of(list), key) == last_with_key(list, key) is Some,
        holds_key(store_of(list), key) ==> Some(store_of(list)[position(store_of(list), key)])
            == last_with_key(list, key),
    decreases list.len(),
{
    if list.len() > 0 {
        let before = store_of(list.drop_last());
        let t = list.last();
        let after = store_of(list);
        lemma_store_of_distinct(list.drop_last());
        lemma_upsert_distinct(before, t);
        lemma_store_lookup(list.drop_last(), key);
        if t.key == key {
            if holds_key(before, key) {
                let q = position(before, key);
                assert(after[q] == t);
                lemma_position_unique(after, key, q);
            } else {
                lemma_position_unique(after, key, before.len() as int);
            }
        } else {
            if holds_key(before, key) {
                let i = position(before, key);
                assert(after[i] == before[i]);
                lemma_position_unique(after, key, i);
            }
            if holds_key(after, key) {
                let i = position(after, key);
                assert(before[i].key == key);
            }
        }
    }
}

/// The cached templates with their staleness clock.
#[derive(Debug)]
pub struct TemplateManager {
    config: ManagerConfig,
    templates: Vec<Template>,
}

impl TemplateManager {
    /// The configuration the manager holds.
    pub closed spec fn settings(&self) -> ManagerConfig {
        self.config
    }

    /// The templates the manager holds, in the order of its key listing.
    pub closed spec fn store(&self) -> Seq<TemplateView> {
        template_views(self.templates@)
    }

    /// Every manager keeps the keys of its store distinct.
    #[verifier::type_invariant]
    pub closed spec fn wf(&self) -> bool {
        distinct_keys(template_views(self.templates@))
    }

    /// The cache is stale when it is empty, whatever the clock says, or
    /// when more than `cache_duration` seconds passed since the last fetch.
    pub open spec fn is_stale(&self, now: u64) -> bool {
        self.store().len() == 0 || now - self.settings().last_updated
            > self.settings().cache_duration
    }

    /// Builds the manager from what was read from the persisted cache.
    /// `None` stands for a record that is missing or could not be read:
    /// the default configuration, or an empty store, takes its place.
    pub fn new(config: Option<ManagerConfig>, templates: Option<Vec<Template>>) -> (manager: Self)
        ensures
            manager.wf(),
            manager.settings() == match config {
                Some(c) => c,
                None => (ManagerConfig { last_updated: 0, cache_duration: DEFAULT_CACHE_DURATION }),
            },
            manager.store() == match templates {
                Some(list) => store_of(template_views(list@)),
                None => Seq::empty(),
            },
    {
        let config = match config {
            Some(c) => c,
            None => ManagerConfig::default(),
        };
        let templates = match templates {
            Some(list) => build_store(list),
            None => Vec::new(),
        };
        TemplateManager { config, templates }
    }

    /// The configuration, for writing it back.
    pub fn config(&self) -> (config: ManagerConfig)
        ensures
            config == self.settings(),
    {
        self.config
    }

    /// The cached templates, for writing them back.
    pub fn templates(&self) -> (templates: &Vec<Template>)
        ensures
            template_views(templates@) == self.store(),
            distinct_keys(self.store()),
    {
        proof {
            use_type_invariant(self);
        }
        &self.templates
    }

    /// Whether the cache is empty.
    pub fn is_empty(&self) -> (empty: bool)
        ensures
            empty == (self.store().len() == 0),
    {
        self.templates.len() == 0
    }

    /// Whether the templates have to be fetched at time `now`, in seconds
    /// since the Unix epoch.
    pub fn needs_update(&self, now: u64) -> (stale: bool)
        ensures
            stale == self.is_stale(now),
    {
        if self.templates.len() == 0 {
            return true;
        }
        now.saturating_sub(self.config.last_updated) > self.config.cache_duration
    }

    /// Takes in the reply to a fetch made at time `now`.
    ///
    /// A reply that brings templates replaces the whole store and stamps
    /// the clock; the keys that came without contents are handed back. Any
    /// other reply is an error and leaves the manager as it was.
    pub fn force_update(&mut self, now: u64, reply: FetchReply) -> (result: Result<
        Vec<String>,
        UpdateError,
    >)
        ensures
            final(self).wf(),
            forced(*old(self), now, reply, *final(self), result),
    {
        proof {
            use_type_invariant(&*self);
        }
        match reply {
            FetchReply::Failed(message) => Err(UpdateError::Unavailable(message)),
            FetchReply::Listing(entries) => {
                let (fresh, skipped) = split_reply(entries);
                if fresh.len() == 0 {
                    Err(UpdateError::EmptyListing)
                } else {
                    proof {
                        lemma_store_of_distinct(template_views(fresh@));
                    }
                    let store = build_store(fresh);
                    let config = ManagerConfig {
                        last_updated: now,
                        cache_duration: self.config.cache_duration,
                    };
                    *self = TemplateManager { config, templates: store };
                    Ok(skipped)
                }
            },
        }
    }

    /// Brings the cache up to date at time `now`, given the reply to the
    /// fetch that [`Self::needs_update`] asked for.
    ///
    /// A fresh cache is left alone and the reply ignored. A stale cache
    /// takes the reply in as [`Self::force_update`] does. When the reply
    /// brings nothing, a cache that holds templates stays in use and the
    /// call succeeds; with an empty cache there is nothing to fall back on
    /// and the call fails.
    pub fn update_if_needed(&mut self, now: u64, reply: FetchReply) -> (result: Result<
        UpdateOutcome,
        UpdateError,
    >)
        ensures
            final(self).wf(),
            updated(*old(self), now, reply, *final(self), result),
    {
        proof {
            use_type_invariant(&*self);
        }
        if !self.needs_update(now) {
            return Ok(UpdateOutcome::Fresh);
        }
        let was_empty = self.templates.len() == 0;
        match self.force_update(now, reply) {
            Ok(skipped) => Ok(UpdateOutcome::Installed(skipped)),
            Err(error) => {
                if was_empty {
                    Err(error)
                } else {
                    Ok(UpdateOutcome::KeptCache(error))
                }
            },
        }
    }

    /// The keys of all cached templates.
    pub fn get_available_templates(&self) -> (keys: Vec<String>)
        ensures
            views(keys@) == store_keys(self.store()),
    {
        let mut keys: Vec<String> = Vec::new();
        let mut i: usize = 0;
        while i < self.templates.len()
            invariant
                i <= self.templates.len(),
                keys.len() == i,
                forall|j: int| 0 <= j < i ==> (#[trigger] keys[j])@ == self.templates[j].key@,
            decreases self.templates.len() - i,
        {
            keys.push(self.templates[i].key.clone());
            i += 1;
        }
        keys
    }

    /// The template cached under `key`, if there is one.
    pub fn get(&self, key: &str) -> (found: Option<&Template>)
        ensures
            found is Some == holds_key(self.store(), key@),
            found matches Some(t) ==> t@ == self.store()[position(self.store(), key@)],
    {
        proof {
            use_type_invariant(self);
        }
        let wanted = key.to_owned();
        let mut i: usize = 0;
        while i < self.templates.len()
            invariant
                i <= self.templates.len(),
                wanted@ == key@,
                distinct_keys(self.store()),
                forall|j: int| 0 <= j < i ==> (#[trigger] self.store()[j]).key != key@,
            decreases self.templates.len() - i,
        {
            if self.templates[i].key == wanted {
                proof {
                    lemma_position_unique(self.store(), key@, i as int);
                }
                return Some(&self.templates[i]);
            }
            i += 1;
        }
        None
    }

    /// The contents of the template cached under `key`, if there is one.
    pub fn get_template_contents(&self, key: &str) -> (contents: Option<&str>)
        ensures
            contents is Some == holds_key(self.store(), key@),
            contents matches Some(c) ==> c@ == self.store()[position(
                self.store(),
                key@,
            )].contents,
    {
        match self.get(key) {
            Some(template) => Some(template.contents.as_str()),
            None => None,
        }
    }
}

/// Whether a reply brings at least one template.
pub open spec fn brings_templates(reply: FetchReply) -> bool {
    reply matches FetchReply::Listing(entries) && obtained(entries@).len() > 0
}

/// Whether `after` is `before` with nothing changed.
pub open spec fn unchanged(before: TemplateManager, after: TemplateManager) -> bool {
    after.store() == before.store() && after.settings() == before.settings()
}

/// Whether `after` is `before` after the reply, which brings templates, was
/// installed at time `now`: the templates of the reply make up the whole
/// store, the clock is stamped, and `skipped` holds the keys that came
/// without contents.
pub open spec fn installed(
    before: TemplateManager,
    now: u64,
    reply: FetchReply,
    after: TemplateManager,
    skipped: Vec<String>,
) -> bool {
    &&& reply matches FetchReply::Listing(entries)
    &&& views(skipped@) == skipped_keys(entries@)
    &&& after.store() == store_of(obtained(entries@))
    &&& after.store().len() > 0
    &&& after.settings().last_updated == now
    &&& after.settings().cache_duration == before.settings().cache_duration
}

/// What [`TemplateManager::force_update`] makes of a reply: a reply that
/// brings templates is installed, and any other is an error that changes
/// nothing.
pub open spec fn forced(
    before: TemplateManager,
    now: u64,
    reply: FetchReply,
    after: TemplateManager,
    result: Result<Vec<String>, UpdateError>,
) -> bool {
    if brings_templates(reply) {
        result matches Ok(skipped) && installed(before, now, reply, after, skipped)
    } else {
        result matches Err(error) && failure_of(reply, error) && unchanged(before, after)
    }
}

/// What [`TemplateManager::update_if_needed`] makes of a reply: nothing
/// while the cache is fresh; otherwise a reply that brings templates is
/// installed, and one that brings none is fatal only for an empty cache.
pub open spec fn updated(
    before: TemplateManager,
    now: u64,
    reply: FetchReply,
    after: TemplateManager,
    result: Result<UpdateOutcome, UpdateError>,
) -> bool {
    if !before.is_stale(now) {
        result matches Ok(UpdateOutcome::Fresh) && unchanged(before, after)
    } else if brings_templates(reply) {
        result matches Ok(UpdateOutcome::Installed(skipped)) && installed(
            before,
            now,
            reply,
            after,
            skipped,
        )
    } else if before.store().len() == 0 {
        result matches Err(error) && failure_of(reply, error) && unchanged(before, after)
    } else {
        result matches Ok(UpdateOutcome::KeptCache(error)) && failure_of(reply, error) && unchanged(
            before,
            after,
        )
    }
}

/// With templates in the cache, a fetch that brings nothing is no error:
/// the update succeeds whatever the clock says, and every key that was
/// cached is still there.
pub proof fn lemma_cache_fallback(
    before: TemplateManager,
    now: u64,
    reply: FetchReply,
    after: TemplateManager,
    result: Result<UpdateOutcome, UpdateError>,
)
    requires
        before.store().len() > 0,
        !brings_templates(reply),
        updated(before, now, reply, after, result),
    ensures
        result is Ok,
        after.store() == before.store(),
        store_keys(after.store()) == store_keys(before.store()),
{
}

/// With an empty cache, a fetch that brings nothing is fatal: the update
/// fails whatever the clock says, and the cache stays empty.
pub proof fn lemma_cache_exhaustion(
    before: TemplateManager,
    now: u64,
    reply: FetchReply,
    after: TemplateManager,
    result: Result<UpdateOutcome, UpdateError>,
)
    requires
        before.store().len() == 0,
        !brings_templates(reply),
        updated(before, now, reply, after, result),
    ensures
        result is Err,
        after.store().len() == 0,
{
}

/// Splits the entries of a reply into the templates that came with
/// contents and the keys that came without.
fn split_reply(entries: Vec<FetchedTemplate>) -> (parts: (Vec<Template>, Vec<String>))
    ensures
        template_views(parts.0@) == obtained(entries@),
        views(parts.1@) == skipped_keys(entries@),
{
    let mut fresh: Vec<Template> = Vec::new();
    let mut skipped: Vec<String> = Vec::new();
    let mut i: usize = 0;
    while i < entries.len()
        invariant
            i <= entries.len(),
            template_views(fresh@) == obtained(entries@.take(i as int)),
            views(skipped@) == skipped_keys(entries@.take(i as int)),
        decreases entries.len() - i,
    {
        let e = &entries[i];
        proof {
            assert(entries@.take(i + 1).drop_last() =~= entries@.take(i as int));
        }
        match &e.contents {
            Some(c) => {
                let t = Template { key: e.key.clone(), name: e.name.clone(), contents: c.clone() };
                fresh.push(t);
            },
            None => {
                skipped.push(e.key.clone());
            },
        }
        i += 1;
    }
    assert(entries@.take(entries.len() as int) =~= entries@);
    (fresh, skipped)
}

/// Builds a store from a list of templates.
fn build_store(list: Vec<Template>) -> (store: Vec<Template>)
    ensures
        template_views(store@) == store_of(template_views(list@)),
        distinct_keys(template_views(store@)),
{
    let mut store: Vec<Template> = Vec::new();
    let mut list = list;
    let ghost all = template_views(list@);
    let mut rest: Vec<Template> = Vec::new();
    // Reverse the list so that its templates can be taken out in order.
    while list.len() > 0
        invariant
            rest.len() + list.len() == all.len(),
            forall|j: int| 0 <= j < list.len() ==> (#[trigger] list[j])@ == all[j],
            forall|j: int| 0 <= j < rest.len() ==> (#[trigger] rest[j])@ == all[all.len() - 1 - j],
        decreases list.len(),
    {
        let t = list.pop().unwrap();
        rest.push(t);
    }
    while rest.len() > 0
        invariant
            rest.len() <= all.len(),
            forall|j: int| 0 <= j < rest.len() ==> (#[trigger] rest[j])@ == all[all.len() - 1 - j],
            template_views(store@) == store_of(all.take(all.len() - rest.len())),
            distinct_keys(template_views(store@)),
        decreases rest.len(),
    {
        let ghost done = all.len() - rest.len();
        let t = rest.pop().unwrap();
        proof {
            assert(all.take(done + 1).drop_last() =~= all.take(done));
            lemma_upsert_distinct(template_views(store@), t@);
        }
        put(&mut store, t);
    }
    assert(all.take(all.len() as int) =~= all);
    store
}

/// Puts one template into a store.
fn put(store: &mut Vec<Template>, t: Template)
    requires
        distinct_keys(template_views(old(store)@)),
    ensures
        template_views(final(store)@) == upsert(template_views(old(store)@), t@),
{
    let ghost before = template_views(store@);
    let mut i: usize = 0;
    while i < store.len()
        invariant
            i <= store.len(),
            store@ == old(store)@,
            before == template_views(store@),
            distinct_keys(before),
            forall|j: int| 0 <= j < i ==> (#[trigger] before[j]).key != t.key@,
        decreases store.len() - i,
    {
        if store[i].key == t.key {
            proof {
                lemma_position_unique(before, t.key@, i as int);
            }
            store.set(i, t);
            return ;
        }
        i += 1;
    }
    store.push(t);
}

} // verus!

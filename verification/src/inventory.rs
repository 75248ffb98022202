//! The toolkit inventory: skills, subagents, plugins and MCP servers, over the global scope
//! and one project scope.
//!
//! The readers work on the contents of the configuration files, which the caller has read.
//! A file that could not be read, or that does not parse, becomes a row with a
//! `parse_error`; it never costs the other rows. Of an MCP server's `env` block only the
//! number of its keys is shown.
use crate::frontmatter;
use crate::json;
use crate::json::Json;
use crate::json::JsonView;
use crate::paths;
use crate::seqs;
use crate::text;
use vstd::prelude::*;

verus! {

/// One row of the inventory.
#[derive(Clone, Debug, PartialEq)]
pub struct InventoryItem {
    /// `<type>:<scope>:<name>`.
    pub id: String,
    pub name: String,
    /// `skill`, `subagent`, `plugin` or `mcp`.
    pub kind: String,
    /// `global` or `project`.
    pub scope: String,
    pub enabled: bool,
    pub toggleable: bool,
    pub desc: String,
    pub detail: Option<String>,
    pub path: Option<String>,
    pub parse_error: Option<String>,
}

/// What an [`InventoryItem`] holds.
#[verifier::ext_equal]
pub struct ItemView {
    pub id: Seq<char>,
    pub name: Seq<char>,
    pub kind: Seq<char>,
    pub scope: Seq<char>,
    pub enabled: bool,
    pub toggleable: bool,
    pub desc: Seq<char>,
    pub detail: Option<Seq<char>>,
    pub path: Option<Seq<char>>,
    pub parse_error: Option<Seq<char>>,
}

impl View for InventoryItem {
    type V = ItemView;

    open spec fn view(&self) -> ItemView {
        ItemView {
            id: self.id@,
            name: self.name@,
            kind: self.kind@,
            scope: self.scope@,
            enabled: self.enabled,
            toggleable: self.toggleable,
            desc: self.desc@,
            detail: seqs::opt_view(self.detail),
            path: seqs::opt_view(self.path),
            parse_error: seqs::opt_view(self.parse_error),
        }
    }
}

pub open spec fn items(v: Seq<InventoryItem>) -> Seq<ItemView> {
    v.map_values(|i: InventoryItem| i@)
}

/// A file of a listed directory: its name there, its path, and its text or why it could
/// not be read. For a skill the name is that of the directory that holds the file.
pub struct ListedFile {
    pub name: String,
    pub path: String,
    pub text: Result<String, String>,
}

/// The files of one directory of the agent.
pub struct ScopeFiles {
    /// One `SKILL.md` for each directory under `skills` that has one.
    pub skills: Vec<ListedFile>,
    /// The files directly under `agents`.
    pub agents: Vec<ListedFile>,
    pub settings_path: String,
    /// The text of `settings.json`, where it can be read.
    pub settings: Option<String>,
}

/// The files of the home directory.
pub struct HomeFiles {
    pub agent: ScopeFiles,
    /// For each installed plugin the text of its manifest, where it can be read. Plugins are
    /// installed once for all projects.
    pub manifests: Vec<(String, String)>,
    /// The name of the agent's configuration.
    pub config_name: String,
    /// The text of that configuration, where it can be read.
    pub config: Option<String>,
}

/// The files of a project.
pub struct ProjectFiles {
    /// The absolute path of the project root.
    pub root: String,
    pub agent: ScopeFiles,
    pub mcp_path: String,
    /// The text of `.mcp.json`, where it can be read.
    pub mcp: Option<String>,
}

/// `<kind>:<scope>:<name>`.
pub open spec fn item_id(kind: Seq<char>, scope: Seq<char>, name: Seq<char>) -> Seq<char> {
    kind + ":"@ + scope + ":"@ + name
}

/// A row with nothing but its name: enabled, not toggleable, without description.
pub open spec fn plain_item(kind: Seq<char>, scope: Seq<char>, name: Seq<char>) -> ItemView {
    ItemView {
        id: item_id(kind, scope, name),
        name,
        kind,
        scope,
        enabled: true,
        toggleable: false,
        desc: Seq::empty(),
        detail: None,
        path: None,
        parse_error: None,
    }
}

pub open spec fn or_empty(o: Option<Seq<char>>) -> Seq<char> {
    match o {
        Some(s) => s,
        None => Seq::empty(),
    }
}

/// The row of a Markdown file: its name and description come from its frontmatter, where
/// that has them.
pub open spec fn markdown_item(
    kind: Seq<char>,
    scope: Seq<char>,
    name: Seq<char>,
    path: Seq<char>,
    text: Result<String, String>,
) -> ItemView {
    let base = ItemView { path: Some(path), ..plain_item(kind, scope, name) };
    match text {
        Ok(t) => {
            let fm = frontmatter::frontmatter(t@);
            let shown = match frontmatter::field(fm, "name"@) {
                Some(n) => n,
                None => name,
            };
            ItemView {
                id: item_id(kind, scope, shown),
                name: shown,
                desc: or_empty(frontmatter::field(fm, "description"@)),
                ..base
            }
        },
        Err(e) => ItemView { parse_error: Some("read failed: "@ + e@), ..base },
    }
}

pub open spec fn skill_items(files: Seq<ListedFile>, scope: Seq<char>) -> Seq<ItemView> {
    files.map_values(|f: ListedFile| markdown_item("skill"@, scope, f.name@, f.path@, f.text))
}

/// The row of a subagent: as of a Markdown file, with the model as its detail.
pub open spec fn subagent_item(f: ListedFile, stem: Seq<char>, scope: Seq<char>) -> ItemView {
    let base = markdown_item("subagent"@, scope, stem, f.path@, f.text);
    match f.text {
        Ok(t) => ItemView {
            detail: frontmatter::field(frontmatter::frontmatter(t@), "model"@),
            ..base
        },
        Err(_) => base,
    }
}

/// The rows of the files whose name ends in `.md`.
pub open spec fn subagent_items(files: Seq<ListedFile>, scope: Seq<char>) -> Seq<ItemView>
    decreases files.len(),
{
    if files.len() == 0 {
        Seq::empty()
    } else {
        let head = subagent_items(files.drop_last(), scope);
        match paths::stem_with_extension(files.last().name@, "md"@) {
            Some(stem) => head.push(subagent_item(files.last(), stem, scope)),
            None => head,
        }
    }
}

impl InventoryItem {
    fn new(kind: &str, scope: &str, name: &str) -> (r: Self)
        ensures
            r@ == plain_item(kind@, scope@, name@),
    {
        InventoryItem {
            id: row_id(kind, scope, name),
            name: name.to_owned(),
            kind: kind.to_owned(),
            scope: scope.to_owned(),
            enabled: true,
            toggleable: false,
            desc: String::new(),
            detail: None,
            path: None,
            parse_error: None,
        }
    }
}

pub(crate) fn row_id(kind: &str, scope: &str, name: &str) -> (r: String)
    ensures
        r@ == item_id(kind@, scope@, name@),
{
    let mut id = kind.to_owned();
    id.append(":");
    id.append(scope);
    id.append(":");
    id.append(name);
    id
}

pub(crate) fn prefixed(prefix: &str, rest: &str) -> (r: String)
    ensures
        r@ == prefix@ + rest@,
{
    let mut s = prefix.to_owned();
    s.append(rest);
    s
}

fn or_empty_string(o: Option<String>) -> (r: String)
    ensures
        r@ == or_empty(seqs::opt_view(o)),
{
    match o {
        Some(s) => s,
        None => String::new(),
    }
}

fn read_markdown(kind: &str, scope: &str, name: &str, file: &ListedFile) -> (r: InventoryItem)
    ensures
        r@ == markdown_item(kind@, scope@, name@, file.path@, file.text),
{
    let mut item = InventoryItem::new(kind, scope, name);
    item.path = Some(file.path.clone());
    match &file.text {
        Ok(t) => {
            let fm = frontmatter::parse_frontmatter(t.as_str());
            if let Some(n) = frontmatter::fm_get(&fm, "name") {
                item.id = row_id(kind, scope, n.as_str());
                item.name = n;
            }
            item.desc = or_empty_string(frontmatter::fm_get(&fm, "description"));
        },
        Err(e) => {
            item.parse_error = Some(prefixed("read failed: ", e.as_str()));
        },
    }
    item
}

/// Adds a row for each skill.
pub fn read_skills(files: &[ListedFile], scope: &str, out: &mut Vec<InventoryItem>)
    ensures
        items(final(out)@) == items(old(out)@) + skill_items(files@, scope@),
{
    let ghost before = items(out@);
    let ghost rows = skill_items(files@, scope@);
    let mut i: usize = 0;
    assert(before + rows.take(0) =~= before);
    while i < files.len()
        invariant
            i <= files@.len(),
            rows == skill_items(files@, scope@),
            items(out@) == before + rows.take(i as int),
        decreases files@.len() - i,
    {
        let item = read_markdown("skill", scope, files[i].name.as_str(), &files[i]);
        let ghost prior = out@;
        out.push(item);
        proof {
            assert(items(out@) =~= items(prior).push(item@));
            assert(before + rows.take(i + 1) =~= (before + rows.take(i as int)).push(rows[i as int]));
        }
        i += 1;
    }
    assert(rows.take(files@.len() as int) =~= rows);
}

/// Adds a row for each subagent.
pub fn read_subagents(files: &[ListedFile], scope: &str, out: &mut Vec<InventoryItem>)
    ensures
        items(final(out)@) == items(old(out)@) + subagent_items(files@, scope@),
{
    let ghost before = items(out@);
    let mut i: usize = 0;
    assert(files@.take(0) =~= Seq::empty());
    assert(before + Seq::<ItemView>::empty() =~= before);
    while i < files.len()
        invariant
            i <= files@.len(),
            items(out@) == before + subagent_items(files@.take(i as int), scope@),
        decreases files@.len() - i,
    {
        let ghost prior = out@;
        assert(files@.take(i + 1).drop_last() =~= files@.take(i as int));
        if let Some(stem) = paths::file_stem(files[i].name.as_str(), "md") {
            let mut item = read_markdown("subagent", scope, stem.as_str(), &files[i]);
            if let Ok(t) = &files[i].text {
                let fm = frontmatter::parse_frontmatter(t.as_str());
                item.detail = frontmatter::fm_get(&fm, "model");
            }
            out.push(item);
            proof {
                assert(items(out@) =~= items(prior).push(item@));
                assert(item@ =~= subagent_item(files@[i as int], stem@, scope@));
            }
        }
        i += 1;
    }
    assert(files@.take(files@.len() as int) =~= files@);
}

// ── Plugins ─────────────────────────────────────────────────────────────────────────────

/// The description that a plugin manifest gives, trimmed.
pub open spec fn manifest_description_of(parsed: Result<JsonView, Seq<char>>) -> Option<Seq<char>> {
    match parsed {
        Ok(root) => match root.str_field("description"@) {
            Some(d) => Some(seqs::trim(d)),
            None => None,
        },
        Err(_) => None,
    }
}

/// The plugins whose manifest gives a description, with it.
pub open spec fn described(manifests: Seq<(String, String)>) -> Seq<(Seq<char>, Seq<char>)>
    decreases manifests.len(),
{
    if manifests.len() == 0 {
        Seq::empty()
    } else {
        let head = described(manifests.drop_last());
        match manifest_description_of(json::json_parse(manifests.last().1@)) {
            Some(d) => head.push((manifests.last().0@, d)),
            None => head,
        }
    }
}

/// The value that stands last for `key`.
pub open spec fn last_value(pairs: Seq<(Seq<char>, Seq<char>)>, key: Seq<char>) -> Option<Seq<char>>
    decreases pairs.len(),
{
    if pairs.len() == 0 {
        None
    } else if pairs.last().0 == key {
        Some(pairs.last().1)
    } else {
        last_value(pairs.drop_last(), key)
    }
}

/// What stands before the first `@` of a plugin key, or all of it.
pub open spec fn plugin_name(key: Seq<char>) -> Seq<char> {
    key.take(seqs::index_of(key, '@'))
}

/// What stands after the first `@` of a plugin key, where it has one.
pub open spec fn plugin_marketplace(key: Seq<char>) -> Option<Seq<char>> {
    let at = seqs::index_of(key, '@');
    if at < key.len() {
        Some(key.skip(at + 1))
    } else {
        None
    }
}

/// The row of the plugin `key`, which `enabledPlugins` maps to `val`.
pub open spec fn plugin_item(
    scope: Seq<char>,
    key: Seq<char>,
    val: JsonView,
    descs: Seq<(Seq<char>, Seq<char>)>,
) -> ItemView {
    ItemView {
        id: item_id("plugin"@, scope, key),
        enabled: val.as_bool() == Some(true),
        toggleable: true,
        detail: match plugin_marketplace(key) {
            Some(m) => if m.len() == 0 {
                None
            } else {
                Some(m)
            },
            None => None,
        },
        desc: or_empty(last_value(descs, key)),
        ..plain_item("plugin"@, scope, plugin_name(key))
    }
}

/// The one row for a file that does not parse.
pub open spec fn broken_item(
    kind: Seq<char>,
    scope: Seq<char>,
    name: Seq<char>,
    error: Seq<char>,
) -> ItemView {
    ItemView { parse_error: Some("invalid JSON: "@ + error), ..plain_item(kind, scope, name) }
}

/// The plugin rows of a `settings.json` that the parser makes `parsed` of.
pub open spec fn plugin_rows_of(
    parsed: Result<JsonView, Seq<char>>,
    path: Seq<char>,
    descs: Seq<(Seq<char>, Seq<char>)>,
    scope: Seq<char>,
) -> Seq<ItemView> {
    match parsed {
        Err(e) => seq![
            ItemView { path: Some(path), ..broken_item("plugin"@, scope, "settings.json"@, e) },
        ],
        Ok(root) => match root.object_field("enabledPlugins"@) {
            Some(fields) => fields.map_values(
                |f: (Seq<char>, JsonView)| plugin_item(scope, f.0, f.1, descs),
            ),
            None => Seq::empty(),
        },
    }
}

/// The plugin rows of one directory of the agent, with what the manifests of the installed
/// plugins say of each.
pub open spec fn plugin_items(
    files: ScopeFiles,
    manifests: Seq<(String, String)>,
    scope: Seq<char>,
) -> Seq<ItemView> {
    match files.settings {
        Some(t) => plugin_rows_of(
            json::json_parse(t@),
            files.settings_path@,
            described(manifests),
            scope,
        ),
        None => Seq::empty(),
    }
}

/// Where each plugin of the install registry is installed: for the plugins whose first
/// install names an `installPath`, that path.
pub open spec fn installs_of(parsed: Result<JsonView, Seq<char>>) -> Seq<(Seq<char>, Seq<char>)> {
    match parsed {
        Ok(root) => match root.object_field("plugins"@) {
            Some(fields) => install_fields(fields),
            None => Seq::empty(),
        },
        Err(_) => Seq::empty(),
    }
}

pub open spec fn first_install(installs: JsonView) -> Option<Seq<char>> {
    match installs.as_array() {
        Some(a) => if a.len() > 0 {
            a[0].str_field("installPath"@)
        } else {
            None
        },
        None => None,
    }
}

pub open spec fn install_fields(fields: Seq<(Seq<char>, JsonView)>) -> Seq<(Seq<char>, Seq<char>)>
    decreases fields.len(),
{
    if fields.len() == 0 {
        Seq::empty()
    } else {
        let head = install_fields(fields.drop_last());
        match first_install(fields.last().1) {
            Some(p) => head.push((fields.last().0, p)),
            None => head,
        }
    }
}

/// The installed plugins of a parsed `installed_plugins.json`, each with its path.
pub fn install_paths(parsed: &Result<Json, String>) -> (r: Vec<(String, String)>)
    ensures
        frontmatter::pairs(r@) == installs_of(json::result_view(*parsed)),
{
    let mut out: Vec<(String, String)> = Vec::new();
    assert(frontmatter::pairs(out@) =~= Seq::empty());
    if let Ok(root) = parsed {
        if let Some(fields) = root.object_field("plugins") {
            let mut i: usize = 0;
            let ghost all = json::fields_view(fields@);
            proof {
                json::fields_view_at(fields@);
                assert(all.take(0) =~= Seq::empty());
            }
            while i < fields.len()
                invariant
                    i <= fields@.len(),
                    all == json::fields_view(fields@),
                    all.len() == fields@.len(),
                    forall|j: int|
                        0 <= j < fields@.len() ==> #[trigger] all[j] == (
                            fields@[j].0@,
                            fields@[j].1@,
                        ),
                    frontmatter::pairs(out@) == install_fields(all.take(i as int)),
                decreases fields@.len() - i,
            {
                let ghost before = out@;
                proof {
                    assert(all.take(i + 1).drop_last() =~= all.take(i as int));
                    assert(all.take(i + 1).last() == all[i as int]);
                }
                if let Some(a) = fields[i].1.as_array() {
                    if a.len() > 0 {
                        proof {
                            json::items_view_at(a@);
                        }
                        if let Some(p) = a[0].str_field("installPath") {
                            out.push((fields[i].0.clone(), p.to_owned()));
                            assert(frontmatter::pairs(out@) =~= frontmatter::pairs(before).push(
                                (fields@[i as int].0@, p@),
                            ));
                        }
                    }
                }
                i += 1;
            }
            assert(all.take(fields@.len() as int) =~= all);
        }
    }
    out
}

/// The installed plugins that the text of an `installed_plugins.json` lists.
pub fn plugin_installs(registry: &str) -> (r: Vec<(String, String)>)
    ensures
        frontmatter::pairs(r@) == installs_of(json::json_parse(registry@)),
{
    install_paths(&json::parse(registry))
}

/// The description that a parsed plugin manifest gives, trimmed.
pub fn manifest_description(parsed: &Result<Json, String>) -> (r: Option<String>)
    ensures
        seqs::opt_view(r) == manifest_description_of(json::result_view(*parsed)),
{
    match parsed {
        Ok(root) => match root.str_field("description") {
            Some(d) => Some(text::trim(d)),
            None => None,
        },
        Err(_) => None,
    }
}

/// The plugins whose manifest gives a description, with it.
pub fn load_plugin_manifests(manifests: &[(String, String)]) -> (r: Vec<(String, String)>)
    ensures
        frontmatter::pairs(r@) == described(manifests@),
{
    let mut out: Vec<(String, String)> = Vec::new();
    let mut i: usize = 0;
    assert(manifests@.take(0) =~= Seq::empty());
    assert(frontmatter::pairs(out@) =~= Seq::empty());
    while i < manifests.len()
        invariant
            i <= manifests@.len(),
            frontmatter::pairs(out@) == described(manifests@.take(i as int)),
        decreases manifests@.len() - i,
    {
        let ghost before = out@;
        assert(manifests@.take(i + 1).drop_last() =~= manifests@.take(i as int));
        let parsed = json::parse(manifests[i].1.as_str());
        if let Some(d) = manifest_description(&parsed) {
            out.push((manifests[i].0.clone(), d));
            assert(frontmatter::pairs(out@) =~= frontmatter::pairs(before).push(
                (manifests@[i as int].0@, d@),
            ));
        }
        i += 1;
    }
    assert(manifests@.take(manifests@.len() as int) =~= manifests@);
    out
}

fn find_last(pairs: &[(String, String)], key: &str) -> (r: Option<String>)
    ensures
        seqs::opt_view(r) == last_value(frontmatter::pairs(pairs@), key@),
{
    let ghost all = frontmatter::pairs(pairs@);
    let mut k: usize = pairs.len();
    assert(all.take(k as int) =~= all);
    while k > 0
        invariant
            k <= pairs@.len(),
            all == frontmatter::pairs(pairs@),
            last_value(all, key@) == last_value(all.take(k as int), key@),
        decreases k,
    {
        proof {
            assert(all.take(k as int).last() == all[k - 1]);
            assert(all.take(k as int).drop_last() =~= all.take(k - 1));
        }
        if text::same(pairs[k - 1].0.as_str(), key) {
            return Some(pairs[k - 1].1.clone());
        }
        k -= 1;
    }
    None
}

fn plugin_row(scope: &str, key: &str, val: &Json, descs: &[(String, String)]) -> (r: InventoryItem)
    ensures
        r@ == plugin_item(scope@, key@, val@, frontmatter::pairs(descs@)),
{
    let cs = text::chars_of(key);
    let at = text::index_from(&cs, '@', 0);
    assert(cs@.skip(0) =~= key@);
    let name = text::string_of(&cs, 0, at);
    assert(name@ =~= plugin_name(key@));
    let mut item = InventoryItem::new("plugin", scope, name.as_str());
    item.id = row_id("plugin", scope, key);
    item.enabled = match val.as_bool() {
        Some(b) => b,
        None => false,
    };
    item.toggleable = true;
    if at < cs.len() && at + 1 < cs.len() {
        let marketplace = text::string_of(&cs, at + 1, cs.len());
        assert(marketplace@ =~= key@.skip(at + 1));
        item.detail = Some(marketplace);
    }
    item.desc = or_empty_string(find_last(descs, key));
    item
}

/// Adds the plugin rows of a parsed `settings.json`.
pub fn plugin_rows(
    parsed: &Result<Json, String>,
    path: &str,
    descs: &[(String, String)],
    scope: &str,
    out: &mut Vec<InventoryItem>,
)
    ensures
        items(final(out)@) == items(old(out)@) + plugin_rows_of(
            json::result_view(*parsed),
            path@,
            frontmatter::pairs(descs@),
            scope@,
        ),
{
    let ghost before = items(out@);
    let ghost rows = plugin_rows_of(
        json::result_view(*parsed),
        path@,
        frontmatter::pairs(descs@),
        scope@,
    );
    assert(before + Seq::<ItemView>::empty() =~= before);
    match parsed {
        Err(e) => {
            let mut item = InventoryItem::new("plugin", scope, "settings.json");
            item.parse_error = Some(prefixed("invalid JSON: ", e.as_str()));
            item.path = Some(path.to_owned());
            out.push(item);
            assert(items(out@) =~= before + rows);
        },
        Ok(root) => {
            if let Some(fields) = root.object_field("enabledPlugins") {
                let mut i: usize = 0;
                proof {
                    json::fields_view_at(fields@);
                    assert(rows.take(0) =~= Seq::empty());
                }
                while i < fields.len()
                    invariant
                        i <= fields@.len(),
                        rows.len() == fields@.len(),
                        forall|j: int|
                            0 <= j < fields@.len() ==> #[trigger] rows[j] == plugin_item(
                                scope@,
                                fields@[j].0@,
                                fields@[j].1@,
                                frontmatter::pairs(descs@),
                            ),
                        items(out@) == before + rows.take(i as int),
                    decreases fields@.len() - i,
                {
                    let ghost prior = out@;
                    let item = plugin_row(scope, fields[i].0.as_str(), &fields[i].1, descs);
                    out.push(item);
                    proof {
                        assert(item@ == rows[i as int]);
                        assert(items(out@) =~= items(prior).push(item@));
                        assert(before + rows.take(i + 1) =~= (before + rows.take(i as int)).push(
                            rows[i as int],
                        ));
                    }
                    i += 1;
                }
                assert(rows.take(fields@.len() as int) =~= rows);
            }
        },
    }
}

/// Adds the plugin rows of one directory of the agent.
pub fn read_plugins(
    files: &ScopeFiles,
    manifests: &[(String, String)],
    scope: &str,
    out: &mut Vec<InventoryItem>,
)
    ensures
        items(final(out)@) == items(old(out)@) + plugin_items(*files, manifests@, scope@),
{
    match &files.settings {
        Some(t) => {
            let descs = load_plugin_manifests(manifests);
            plugin_rows(&json::parse(t.as_str()), files.settings_path.as_str(), &descs, scope, out);
        },
        None => {
            assert(items(out@) + Seq::<ItemView>::empty() =~= items(out@));
        },
    }
}

// ── MCP servers ─────────────────────────────────────────────────────────────────────────

/// The strings among `values`.
pub open spec fn strings_of(values: Seq<JsonView>) -> Seq<Seq<char>>
    decreases values.len(),
{
    if values.len() == 0 {
        Seq::empty()
    } else {
        let head = strings_of(values.drop_last());
        match values.last().as_str() {
            Some(s) => head.push(s),
            None => head,
        }
    }
}

/// The strings of the array field `key`; none where there is no such field.
pub open spec fn string_array(v: JsonView, key: Seq<char>) -> Seq<Seq<char>> {
    match v.array_field(key) {
        Some(a) => strings_of(a),
        None => Seq::empty(),
    }
}

/// How many keys the `env` block of a server has.
pub open spec fn env_count(spec_: JsonView) -> nat {
    match spec_.object_field("env"@) {
        Some(env) => env.len(),
        None => 0,
    }
}

/// What a server runs: its URL, or its command and arguments.
pub open spec fn server_target(spec_: JsonView) -> Seq<char> {
    match spec_.str_field("url"@) {
        Some(url) => url,
        None => seqs::trim(
            or_empty(spec_.str_field("command"@)) + " "@ + seqs::join(
                string_array(spec_, "args"@),
                " "@,
            ),
        ),
    }
}

/// `s` as it is where it takes at most 120 bytes; otherwise as much of it as fits into 117
/// bytes, and an ellipsis.
pub open spec fn shortened(s: Seq<char>) -> Seq<char> {
    if seqs::byte_len(s) > 120 {
        seqs::byte_prefix(s, 117) + "…"@
    } else {
        s
    }
}

/// The one-line summary of a server: what it runs, and how many keys its `env` has.
pub open spec fn command_summary(spec_: JsonView) -> Seq<char> {
    let target = server_target(spec_);
    let n = env_count(spec_);
    shortened(
        if n > 0 {
            target + "  (+"@ + seqs::decimal(n) + " env)"@
        } else {
            target
        },
    )
}

/// The row of a server.
pub open spec fn mcp_item(
    scope: Seq<char>,
    name: Seq<char>,
    spec_: JsonView,
    disabled: Seq<Seq<char>>,
) -> ItemView {
    ItemView {
        enabled: !disabled.contains(name) && spec_.bool_field("disabled"@) != Some(true),
        toggleable: true,
        detail: Some(command_summary(spec_)),
        ..plain_item("mcp"@, scope, name)
    }
}

/// The rows of the field `mcpServers` of `holder`.
pub open spec fn server_rows_of(
    holder: JsonView,
    scope: Seq<char>,
    disabled: Seq<Seq<char>>,
) -> Seq<ItemView> {
    match holder.object_field("mcpServers"@) {
        Some(fields) => fields.map_values(
            |f: (Seq<char>, JsonView)| mcp_item(scope, f.0, f.1, disabled),
        ),
        None => Seq::empty(),
    }
}

/// What the configuration holds for the project at `root`.
pub open spec fn project_entry(config: JsonView, root: Seq<char>) -> Option<JsonView> {
    match config.get("projects"@) {
        Some(p) => p.get(root),
        None => None,
    }
}

/// The server rows of the configuration `name` that the parser makes `parsed` of.
pub open spec fn mcp_rows_of(
    name: Seq<char>,
    parsed: Result<JsonView, Seq<char>>,
    project: Option<Seq<char>>,
) -> Seq<ItemView> {
    match parsed {
        Err(e) => seq![broken_item("mcp"@, "global"@, name, e)],
        Ok(config) => server_rows_of(config, "global"@, Seq::empty()) + (match project {
            Some(root) => match project_entry(config, root) {
                Some(entry) => server_rows_of(
                    entry,
                    "project"@,
                    string_array(entry, "disabledMcpjsonServers"@),
                ),
                None => Seq::empty(),
            },
            None => Seq::empty(),
        }),
    }
}

pub open spec fn mcp_items(
    name: Seq<char>,
    config: Option<String>,
    project: Option<Seq<char>>,
) -> Seq<ItemView> {
    match config {
        Some(t) => mcp_rows_of(name, json::json_parse(t@), project),
        None => Seq::empty(),
    }
}

/// The row of a server of a shared `.mcp.json`.
pub open spec fn shared_item(path: Seq<char>, name: Seq<char>, spec_: JsonView) -> ItemView {
    ItemView {
        id: "mcp:project:.mcp.json:"@ + name,
        path: Some(path),
        detail: Some(command_summary(spec_) + " · .mcp.json"@),
        ..plain_item("mcp"@, "project"@, name)
    }
}

/// The rows of a `.mcp.json` that the parser makes `parsed` of.
pub open spec fn shared_rows_of(
    parsed: Result<JsonView, Seq<char>>,
    path: Seq<char>,
) -> Seq<ItemView> {
    match parsed {
        Err(e) => seq![
            ItemView { path: Some(path), ..broken_item("mcp"@, "project"@, ".mcp.json"@, e) },
        ],
        Ok(root) => match root.object_field("mcpServers"@) {
            Some(fields) => fields.map_values(
                |f: (Seq<char>, JsonView)| shared_item(path, f.0, f.1),
            ),
            None => Seq::empty(),
        },
    }
}

pub open spec fn shared_items(mcp: Option<String>, path: Seq<char>) -> Seq<ItemView> {
    match mcp {
        Some(t) => shared_rows_of(json::json_parse(t@), path),
        None => Seq::empty(),
    }
}

/// The strings of the array field `key`.
fn string_list(v: &Json, key: &str) -> (r: Vec<String>)
    ensures
        seqs::views(r@) == string_array(v@, key@),
{
    let mut out: Vec<String> = Vec::new();
    assert(seqs::views(out@) =~= Seq::empty());
    if let Some(a) = v.array_field(key) {
        let mut i: usize = 0;
        let ghost all = json::items_view(a@);
        proof {
            json::items_view_at(a@);
            assert(all.take(0) =~= Seq::empty());
        }
        while i < a.len()
            invariant
                i <= a@.len(),
                all == json::items_view(a@),
                all.len() == a@.len(),
                forall|j: int| 0 <= j < a@.len() ==> #[trigger] all[j] == a@[j]@,
                seqs::views(out@) == strings_of(all.take(i as int)),
            decreases a@.len() - i,
        {
            let ghost before = out@;
            proof {
                assert(all.take(i + 1).drop_last() =~= all.take(i as int));
                assert(all.take(i + 1).last() == all[i as int]);
            }
            if let Some(s) = a[i].as_str() {
                out.push(s.to_owned());
                assert(seqs::views(out@) =~= seqs::views(before).push(s@));
            }
            i += 1;
        }
        assert(all.take(a@.len() as int) =~= all);
    }
    out
}

/// The one-line summary of a server: its URL, or its command and arguments; and, where it
/// has an `env` block, how many keys that has.
pub fn mcp_command_summary(spec_: &Json) -> (r: String)
    ensures
        r@ == command_summary(spec_@),
{
    let mut summary = match spec_.str_field("url") {
        Some(url) => url.to_owned(),
        None => {
            let mut line = match spec_.str_field("command") {
                Some(c) => c.to_owned(),
                None => String::new(),
            };
            line.append(" ");
            line.append(text::join(&string_list(spec_, "args"), " ").as_str());
            text::trim(line.as_str())
        },
    };
    assert(summary@ == server_target(spec_@));
    if let Some(env) = spec_.object_field("env") {
        proof {
            json::fields_view_at(env@);
        }
        if env.len() > 0 {
            summary.append("  (+");
            summary.append(text::decimal(env.len() as u64).as_str());
            summary.append(" env)");
        }
    }
    if text::byte_len(summary.as_str()) > 120 {
        let mut short = text::byte_prefix(summary.as_str(), 117);
        short.append("…");
        return short;
    }
    summary
}

fn server_row(scope: &str, name: &str, spec_: &Json, disabled: &[String]) -> (r: InventoryItem)
    ensures
        r@ == mcp_item(scope@, name@, spec_@, seqs::views(disabled@)),
{
    let mut item = InventoryItem::new("mcp", scope, name);
    let off = text::has_string(disabled, name) || (match spec_.bool_field("disabled") {
        Some(b) => b,
        None => false,
    });
    item.enabled = !off;
    item.toggleable = true;
    item.detail = Some(mcp_command_summary(spec_));
    item
}

fn server_rows(holder: &Json, scope: &str, disabled: &[String], out: &mut Vec<InventoryItem>)
    ensures
        items(final(out)@) == items(old(out)@) + server_rows_of(
            holder@,
            scope@,
            seqs::views(disabled@),
        ),
{
    let ghost before = items(out@);
    let ghost rows = server_rows_of(holder@, scope@, seqs::views(disabled@));
    assert(before + Seq::<ItemView>::empty() =~= before);
    if let Some(fields) = holder.object_field("mcpServers") {
        let mut i: usize = 0;
        proof {
            json::fields_view_at(fields@);
            assert(rows.take(0) =~= Seq::empty());
        }
        while i < fields.len()
            invariant
                i <= fields@.len(),
                rows.len() == fields@.len(),
                forall|j: int|
                    0 <= j < fields@.len() ==> #[trigger] rows[j] == mcp_item(
                        scope@,
                        fields@[j].0@,
                        fields@[j].1@,
                        seqs::views(disabled@),
                    ),
                items(out@) == before + rows.take(i as int),
            decreases fields@.len() - i,
        {
            let ghost prior = out@;
            let item = server_row(scope, fields[i].0.as_str(), &fields[i].1, disabled);
            out.push(item);
            proof {
                assert(item@ == rows[i as int]);
                assert(items(out@) =~= items(prior).push(item@));
                assert(before + rows.take(i + 1) =~= (before + rows.take(i as int)).push(
                    rows[i as int],
                ));
            }
            i += 1;
        }
        assert(rows.take(fields@.len() as int) =~= rows);
    }
}

/// Adds the server rows of the parsed configuration `name`: the global ones, and those of
/// the project at `project`.
pub fn mcp_rows(
    name: &str,
    parsed: &Result<Json, String>,
    project: Option<&str>,
    out: &mut Vec<InventoryItem>,
)
    ensures
        items(final(out)@) == items(old(out)@) + mcp_rows_of(
            name@,
            json::result_view(*parsed),
            (match project {
                Some(p) => Some(p@),
                None => None,
            }),
        ),
{
    let ghost before = items(out@);
    match parsed {
        Err(e) => {
            let mut item = InventoryItem::new("mcp", "global", name);
            item.parse_error = Some(prefixed("invalid JSON: ", e.as_str()));
            out.push(item);
            assert(items(out@) =~= before + seq![item@]);
        },
        Ok(config) => {
            let none: Vec<String> = Vec::new();
            assert(seqs::views(none@) =~= Seq::empty());
            server_rows(config, "global", &none, out);
            let ghost global = server_rows_of(config@, "global"@, Seq::empty());
            assert(global + Seq::<ItemView>::empty() =~= global);
            if let Some(root) = project {
                if let Some(projects) = config.get("projects") {
                    if let Some(entry) = projects.get(root) {
                        let disabled = string_list(entry, "disabledMcpjsonServers");
                        server_rows(entry, "project", &disabled, out);
                        proof {
                            let own = server_rows_of(
                                entry@,
                                "project"@,
                                string_array(entry@, "disabledMcpjsonServers"@),
                            );
                            assert((before + global) + own =~= before + (global + own));
                        }
                    }
                }
            }
        },
    }
}

/// Adds the server rows of the text of the configuration `name`.
pub fn read_mcp(
    name: &str,
    config: &Option<String>,
    project: Option<&str>,
    out: &mut Vec<InventoryItem>,
)
    ensures
        items(final(out)@) == items(old(out)@) + mcp_items(
            name@,
            *config,
            (match project {
                Some(p) => Some(p@),
                None => None,
            }),
        ),
{
    match config {
        Some(t) => mcp_rows(name, &json::parse(t.as_str()), project, out),
        None => {
            assert(items(out@) + Seq::<ItemView>::empty() =~= items(out@));
        },
    }
}

/// Adds the rows of a parsed `.mcp.json`, which are shown and not toggled.
pub fn shared_rows(parsed: &Result<Json, String>, path: &str, out: &mut Vec<InventoryItem>)
    ensures
        items(final(out)@) == items(old(out)@) + shared_rows_of(json::result_view(*parsed), path@),
{
    let ghost before = items(out@);
    let ghost rows = shared_rows_of(json::result_view(*parsed), path@);
    assert(before + Seq::<ItemView>::empty() =~= before);
    match parsed {
        Err(e) => {
            let mut item = InventoryItem::new("mcp", "project", ".mcp.json");
            item.parse_error = Some(prefixed("invalid JSON: ", e.as_str()));
            item.path = Some(path.to_owned());
            out.push(item);
            assert(items(out@) =~= before + rows);
        },
        Ok(root) => {
            if let Some(fields) = root.object_field("mcpServers") {
                let mut i: usize = 0;
                proof {
                    json::fields_view_at(fields@);
                    assert(rows.take(0) =~= Seq::empty());
                }
                while i < fields.len()
                    invariant
                        i <= fields@.len(),
                        rows.len() == fields@.len(),
                        forall|j: int|
                            0 <= j < fields@.len() ==> #[trigger] rows[j] == shared_item(
                                path@,
                                fields@[j].0@,
                                fields@[j].1@,
                            ),
                        items(out@) == before + rows.take(i as int),
                    decreases fields@.len() - i,
                {
                    let ghost prior = out@;
                    let name = fields[i].0.as_str();
                    let mut item = InventoryItem::new("mcp", "project", name);
                    item.id = prefixed("mcp:project:.mcp.json:", name);
                    item.path = Some(path.to_owned());
                    let mut detail = mcp_command_summary(&fields[i].1);
                    detail.append(" · .mcp.json");
                    item.detail = Some(detail);
                    out.push(item);
                    proof {
                        assert(item@ == rows[i as int]);
                        assert(items(out@) =~= items(prior).push(item@));
                        assert(before + rows.take(i + 1) =~= (before + rows.take(i as int)).push(
                            rows[i as int],
                        ));
                    }
                    i += 1;
                }
                assert(rows.take(fields@.len() as int) =~= rows);
            }
        },
    }
}

/// Adds the rows of the text of a `.mcp.json`.
pub fn read_mcp_dot_file(mcp: &Option<String>, path: &str, out: &mut Vec<InventoryItem>)
    ensures
        items(final(out)@) == items(old(out)@) + shared_items(*mcp, path@),
{
    match mcp {
        Some(t) => shared_rows(&json::parse(t.as_str()), path, out),
        None => {
            assert(items(out@) + Seq::<ItemView>::empty() =~= items(out@));
        },
    }
}

// ── The whole inventory ─────────────────────────────────────────────────────────────────

/// The rows of a home directory and an optional project: skills, subagents, plugins and
/// servers, in this order, the global ones of each kind first.
pub open spec fn inventory(home: HomeFiles, project: Option<ProjectFiles>) -> Seq<ItemView> {
    match project {
        None => skill_items(home.agent.skills@, "global"@) + subagent_items(
            home.agent.agents@,
            "global"@,
        ) + plugin_items(home.agent, home.manifests@, "global"@) + mcp_items(
            home.config_name@,
            home.config,
            None,
        ),
        Some(p) => skill_items(home.agent.skills@, "global"@) + skill_items(
            p.agent.skills@,
            "project"@,
        ) + subagent_items(home.agent.agents@, "global"@) + subagent_items(
            p.agent.agents@,
            "project"@,
        ) + plugin_items(home.agent, home.manifests@, "global"@) + plugin_items(
            p.agent,
            home.manifests@,
            "project"@,
        ) + mcp_items(home.config_name@, home.config, Some(p.root@)) + shared_items(p.mcp, p.mcp_path@),
    }
}

/// All rows of a home directory and an optional project.
pub fn load_inventory_at(home: &HomeFiles, project: Option<&ProjectFiles>) -> (r: Vec<InventoryItem>)
    ensures
        items(r@) == inventory(
            *home,
            (match project {
                Some(p) => Some(*p),
                None => None,
            }),
        ),
{
    let mut out: Vec<InventoryItem> = Vec::new();
    let ghost skills = skill_items(home.agent.skills@, "global"@);
    read_skills(&home.agent.skills, "global", &mut out);
    assert(items(out@) =~= skills);
    match project {
        None => {
            read_subagents(&home.agent.agents, "global", &mut out);
            read_plugins(&home.agent, &home.manifests, "global", &mut out);
            read_mcp(home.config_name.as_str(), &home.config, None, &mut out);
        },
        Some(p) => {
            read_skills(&p.agent.skills, "project", &mut out);
            read_subagents(&home.agent.agents, "global", &mut out);
            read_subagents(&p.agent.agents, "project", &mut out);
            read_plugins(&home.agent, &home.manifests, "global", &mut out);
            read_plugins(&p.agent, &home.manifests, "project", &mut out);
            read_mcp(home.config_name.as_str(), &home.config, Some(p.root.as_str()), &mut out);
            read_mcp_dot_file(&p.mcp, p.mcp_path.as_str(), &mut out);
        },
    }
    out
}

/// The first marked path among `levels`.
pub open spec fn first_marked(levels: Seq<(String, bool)>) -> Option<Seq<char>>
    decreases levels.len(),
{
    if levels.len() == 0 {
        None
    } else if levels[0].1 {
        Some(levels[0].0@)
    } else {
        first_marked(levels.drop_first())
    }
}

/// The project root for a directory. `levels` lists the directory and its ancestors,
/// nearest first, each with whether it holds a project marker. Only the first eight count;
/// where none of these is marked, the directory itself is the root.
pub fn resolve_project_root(start: &str, levels: &[(String, bool)]) -> (r: String)
    ensures
        r@ == (match first_marked(
            levels@.take(if levels@.len() < 8 { levels@.len() as int } else { 8 }),
        ) {
            Some(p) => p,
            None => start@,
        }),
{
    let n: usize = if levels.len() < 8 {
        levels.len()
    } else {
        8
    };
    let ghost near = levels@.take(n as int);
    let mut i: usize = 0;
    assert(near.skip(0) =~= near);
    while i < n
        invariant
            i <= n <= levels@.len(),
            near == levels@.take(n as int),
            n == (if levels@.len() < 8 { levels@.len() as int } else { 8 }),
            first_marked(near) == first_marked(near.skip(i as int)),
        decreases n - i,
    {
        assert(near.skip(i as int)[0] == levels@[i as int]);
        assert(near.skip(i as int).drop_first() =~= near.skip(i + 1));
        if levels[i].1 {
            return levels[i].0.clone();
        }
        i += 1;
    }
    start.to_owned()
}

// ── What holds of every inventory ───────────────────────────────────────────────────────

/// The summary of a server does not depend on what its `env` holds: two servers that run
/// the same thing and have equally many `env` keys have the same summary.
pub proof fn summary_ignores_env(a: JsonView, b: JsonView)
    requires
        a.str_field("url"@) == b.str_field("url"@),
        a.str_field("command"@) == b.str_field("command"@),
        a.array_field("args"@) == b.array_field("args"@),
        env_count(a) == env_count(b),
    ensures
        command_summary(a) == command_summary(b),
{
}

/// The row of a server, too, is the same whatever its `env` holds.
pub proof fn row_ignores_env(
    scope: Seq<char>,
    name: Seq<char>,
    a: JsonView,
    b: JsonView,
    disabled: Seq<Seq<char>>,
)
    requires
        a.str_field("url"@) == b.str_field("url"@),
        a.str_field("command"@) == b.str_field("command"@),
        a.array_field("args"@) == b.array_field("args"@),
        a.bool_field("disabled"@) == b.bool_field("disabled"@),
        env_count(a) == env_count(b),
    ensures
        mcp_item(scope, name, a, disabled) == mcp_item(scope, name, b, disabled),
{
}

/// The same keys in the same order.
pub open spec fn same_keys(
    a: Seq<(Seq<char>, JsonView)>,
    b: Seq<(Seq<char>, JsonView)>,
) -> bool {
    a.len() == b.len() && forall|i: int| 0 <= i < a.len() ==> (#[trigger] a[i]).0 == b[i].0
}

/// Two `env` blocks with the same keys; their values may differ.
pub open spec fn envs_alike(a: JsonView, b: JsonView) -> bool {
    match (a, b) {
        (JsonView::Object(x), JsonView::Object(y)) => same_keys(x, y),
        _ => a == b,
    }
}

/// Two servers that differ in nothing but the values of their `env`.
pub open spec fn servers_alike(a: JsonView, b: JsonView) -> bool {
    match (a, b) {
        (JsonView::Object(x), JsonView::Object(y)) => same_keys(x, y) && forall|i: int|
            0 <= i < x.len() ==> if (#[trigger] x[i]).0 == "env"@ {
                envs_alike(x[i].1, y[i].1)
            } else {
                x[i].1 == y[i].1
            },
        _ => a == b,
    }
}

/// Two `mcpServers` blocks that name the same servers, each alike in both.
pub open spec fn server_blocks_alike(a: JsonView, b: JsonView) -> bool {
    match (a, b) {
        (JsonView::Object(x), JsonView::Object(y)) => same_keys(x, y) && forall|i: int|
            0 <= i < x.len() ==> servers_alike((#[trigger] x[i]).1, y[i].1),
        _ => a == b,
    }
}

/// Two values that differ in nothing but the `env` values of the servers in their
/// `mcpServers`.
pub open spec fn holders_alike(a: JsonView, b: JsonView) -> bool {
    match (a, b) {
        (JsonView::Object(x), JsonView::Object(y)) => same_keys(x, y) && forall|i: int|
            0 <= i < x.len() ==> if (#[trigger] x[i]).0 == "mcpServers"@ {
                server_blocks_alike(x[i].1, y[i].1)
            } else {
                x[i].1 == y[i].1
            },
        _ => a == b,
    }
}

/// Two `projects` blocks of configurations with the same projects, each alike in both.
pub open spec fn project_blocks_alike(a: JsonView, b: JsonView) -> bool {
    match (a, b) {
        (JsonView::Object(x), JsonView::Object(y)) => same_keys(x, y) && forall|i: int|
            0 <= i < x.len() ==> holders_alike((#[trigger] x[i]).1, y[i].1),
        _ => a == b,
    }
}

/// Two configurations that differ in nothing but the `env` values of their servers, those of
/// all projects and those of one.
pub open spec fn configs_alike(a: JsonView, b: JsonView) -> bool {
    match (a, b) {
        (JsonView::Object(x), JsonView::Object(y)) => same_keys(x, y) && forall|i: int|
            0 <= i < x.len() ==> if (#[trigger] x[i]).0 == "mcpServers"@ {
                server_blocks_alike(x[i].1, y[i].1)
            } else if x[i].0 == "projects"@ {
                project_blocks_alike(x[i].1, y[i].1)
            } else {
                x[i].1 == y[i].1
            },
        _ => a == b,
    }
}

/// Two texts of a configuration, or none both times, that parse to configurations that
/// differ in nothing but the `env` values; or that do not parse for the same reason.
pub open spec fn config_texts_alike(a: Option<String>, b: Option<String>) -> bool {
    match (a, b) {
        (Some(x), Some(y)) => match (json::json_parse(x@), json::json_parse(y@)) {
            (Ok(v), Ok(w)) => configs_alike(v, w),
            (Err(e), Err(f)) => e == f,
            _ => false,
        },
        _ => a == b,
    }
}

/// The same of two texts of a `.mcp.json`.
pub open spec fn mcp_texts_alike(a: Option<String>, b: Option<String>) -> bool {
    match (a, b) {
        (Some(x), Some(y)) => match (json::json_parse(x@), json::json_parse(y@)) {
            (Ok(v), Ok(w)) => holders_alike(v, w),
            (Err(e), Err(f)) => e == f,
            _ => false,
        },
        _ => a == b,
    }
}

/// Two states of a home directory that differ in nothing but `env` values.
pub open spec fn homes_alike(a: HomeFiles, b: HomeFiles) -> bool {
    &&& a.agent == b.agent
    &&& a.manifests@ == b.manifests@
    &&& a.config_name@ == b.config_name@
    &&& config_texts_alike(a.config, b.config)
}

/// Two states of a project that differ in nothing but `env` values.
pub open spec fn projects_alike(a: Option<ProjectFiles>, b: Option<ProjectFiles>) -> bool {
    match (a, b) {
        (Some(p), Some(q)) => {
            &&& p.root@ == q.root@
            &&& p.agent == q.agent
            &&& p.mcp_path@ == q.mcp_path@
            &&& mcp_texts_alike(p.mcp, q.mcp)
        },
        _ => a == b,
    }
}

proof fn lookups_match(
    a: Seq<(Seq<char>, JsonView)>,
    b: Seq<(Seq<char>, JsonView)>,
    key: Seq<char>,
) -> (i: int)
    requires
        same_keys(a, b),
    ensures
        json::lookup(a, key) is None ==> json::lookup(b, key) is None,
        json::lookup(a, key) is Some ==> 0 <= i < a.len() && a[i].0 == key && json::lookup(a, key)
            == Some(a[i].1) && json::lookup(b, key) == Some(b[i].1),
    decreases a.len(),
{
    if a.len() == 0 {
        0
    } else if a[0].0 == key {
        assert(b[0].0 == key);
        0
    } else {
        let x = a.drop_first();
        let y = b.drop_first();
        assert(same_keys(x, y)) by {
            assert forall|i: int| 0 <= i < x.len() implies (#[trigger] x[i]).0 == y[i].0 by {
                assert(a[i + 1].0 == b[i + 1].0);
            }
        }
        assert(b[0].0 != key) by {
            assert(a[0].0 == b[0].0);
        }
        lookups_match(x, y, key) + 1
    }
}

proof fn summaries_match(a: JsonView, b: JsonView)
    requires
        servers_alike(a, b),
    ensures
        command_summary(a) == command_summary(b),
        a.bool_field("disabled"@) == b.bool_field("disabled"@),
{
    if let (JsonView::Object(x), JsonView::Object(y)) = (a, b) {
        reveal_strlit("env");
        reveal_strlit("url");
        reveal_strlit("command");
        reveal_strlit("args");
        reveal_strlit("disabled");
        let url = lookups_match(x, y, "url"@);
        let command = lookups_match(x, y, "command"@);
        let args = lookups_match(x, y, "args"@);
        let disabled = lookups_match(x, y, "disabled"@);
        let env = lookups_match(x, y, "env"@);
        assert("env"@.len() == 3);
        assert("url"@[0] != "env"@[0]);
        assert(a.get("url"@) == b.get("url"@));
        assert(a.get("command"@) == b.get("command"@));
        assert(a.get("args"@) == b.get("args"@));
        assert(a.get("disabled"@) == b.get("disabled"@));
        assert(env_count(a) == env_count(b));
    }
}

proof fn server_rows_match(a: JsonView, b: JsonView, scope: Seq<char>, disabled: Seq<Seq<char>>)
    requires
        (a.get("mcpServers"@) is None && b.get("mcpServers"@) is None) || (a.get(
            "mcpServers"@,
        ) matches Some(v) && b.get("mcpServers"@) matches Some(w) && server_blocks_alike(v, w)),
    ensures
        server_rows_of(a, scope, disabled) == server_rows_of(b, scope, disabled),
{
    if let (Some(x), Some(y)) = (a.object_field("mcpServers"@), b.object_field("mcpServers"@)) {
        assert forall|i: int| 0 <= i < x.len() implies mcp_item(
            scope,
            (#[trigger] x[i]).0,
            x[i].1,
            disabled,
        ) == mcp_item(scope, y[i].0, y[i].1, disabled) by {
            summaries_match(x[i].1, y[i].1);
        }
        assert(server_rows_of(a, scope, disabled) =~= server_rows_of(b, scope, disabled));
    }
}

proof fn holders_match(a: JsonView, b: JsonView, scope: Seq<char>)
    requires
        holders_alike(a, b),
    ensures
        server_rows_of(a, scope, string_array(a, "disabledMcpjsonServers"@)) == server_rows_of(
            b,
            scope,
            string_array(b, "disabledMcpjsonServers"@),
        ),
{
    if let (JsonView::Object(x), JsonView::Object(y)) = (a, b) {
        reveal_strlit("mcpServers");
        reveal_strlit("disabledMcpjsonServers");
        let i = lookups_match(x, y, "mcpServers"@);
        let k = lookups_match(x, y, "disabledMcpjsonServers"@);
        assert("mcpServers"@.len() != "disabledMcpjsonServers"@.len());
        assert(a.get("disabledMcpjsonServers"@) == b.get("disabledMcpjsonServers"@));
        server_rows_match(a, b, scope, string_array(a, "disabledMcpjsonServers"@));
    }
}

proof fn config_rows_match(
    name: Seq<char>,
    a: Option<String>,
    b: Option<String>,
    project: Option<Seq<char>>,
)
    requires
        config_texts_alike(a, b),
    ensures
        mcp_items(name, a, project) == mcp_items(name, b, project),
{
    if let (Some(s), Some(t)) = (a, b) {
        if let (Ok(v), Ok(w)) = (json::json_parse(s@), json::json_parse(t@)) {
            if let (JsonView::Object(x), JsonView::Object(y)) = (v, w) {
                reveal_strlit("mcpServers");
                reveal_strlit("projects");
                assert("mcpServers"@.len() != "projects"@.len());
                let i = lookups_match(x, y, "mcpServers"@);
                let k = lookups_match(x, y, "projects"@);
                server_rows_match(v, w, "global"@, Seq::empty());
                if let Some(root) = project {
                    if let (Some(p), Some(q)) = (v.get("projects"@), w.get("projects"@)) {
                        assert(project_blocks_alike(p, q));
                        if let (JsonView::Object(ps), JsonView::Object(qs)) = (p, q) {
                            let m = lookups_match(ps, qs, root);
                            if json::lookup(ps, root) is Some {
                                holders_match(ps[m].1, qs[m].1, "project"@);
                            }
                        }
                    }
                }
            }
        }
    }
}

proof fn shared_rows_match(a: Option<String>, b: Option<String>, path: Seq<char>)
    requires
        mcp_texts_alike(a, b),
    ensures
        shared_items(a, path) == shared_items(b, path),
{
    if let (Some(s), Some(t)) = (a, b) {
        if let (Ok(v), Ok(w)) = (json::json_parse(s@), json::json_parse(t@)) {
            if let (JsonView::Object(x), JsonView::Object(y)) = (v, w) {
                let i = lookups_match(x, y, "mcpServers"@);
                if let (Some(f), Some(g)) = (
                    v.object_field("mcpServers"@),
                    w.object_field("mcpServers"@),
                ) {
                    assert forall|j: int| 0 <= j < f.len() implies shared_item(
                        path,
                        (#[trigger] f[j]).0,
                        f[j].1,
                    ) == shared_item(path, g[j].0, g[j].1) by {
                        summaries_match(f[j].1, g[j].1);
                    }
                    assert(shared_items(a, path) =~= shared_items(b, path));
                }
            }
        }
    }
}

/// No row of an inventory depends on what the `env` of a server holds: two states of the
/// files that differ in nothing but the values of `env` keys have the same rows.
pub proof fn inventory_ignores_env_values(
    home: HomeFiles,
    other_home: HomeFiles,
    project: Option<ProjectFiles>,
    other_project: Option<ProjectFiles>,
)
    requires
        homes_alike(home, other_home),
        projects_alike(project, other_project),
    ensures
        inventory(home, project) == inventory(other_home, other_project),
{
    match (project, other_project) {
        (Some(p), Some(q)) => {
            config_rows_match(home.config_name@, home.config, other_home.config, Some(p.root@));
            shared_rows_match(p.mcp, q.mcp, p.mcp_path@);
        },
        _ => {
            config_rows_match(home.config_name@, home.config, other_home.config, None);
        },
    }
}

/// A summary takes at most 120 bytes.
pub proof fn summary_is_short(spec_: JsonView)
    ensures
        seqs::byte_len(command_summary(spec_)) <= 120,
{
    let target = server_target(spec_);
    let n = env_count(spec_);
    let s = if n > 0 {
        target + "  (+"@ + seqs::decimal(n) + " env)"@
    } else {
        target
    };
    seqs::byte_prefix_fits(s, 117);
    seqs::byte_len_concat(seqs::byte_prefix(s, 117), "…"@);
    reveal_strlit("…");
    seqs::byte_len_first("…"@);
    assert("…"@.drop_first() =~= Seq::empty());
}

/// A home directory with none of the files, and no project, has no rows.
pub proof fn empty_home_has_no_rows(home: HomeFiles)
    requires
        home.agent.skills@.len() == 0,
        home.agent.agents@.len() == 0,
        home.agent.settings is None,
        home.config is None,
    ensures
        inventory(home, None).len() == 0,
{
}

/// A `settings.json` that does not parse is one row with a `parse_error`, and the rows of
/// the other kinds are what they would be without that file.
pub proof fn broken_settings_cost_one_row(home: HomeFiles, without: HomeFiles, text: String)
    requires
        home.agent.settings == Some(text),
        json::json_parse(text@) is Err,
        without.agent.settings is None,
        without.agent.skills == home.agent.skills,
        without.agent.agents == home.agent.agents,
        without.config == home.config,
        without.config_name == home.config_name,
    ensures
        ({
            let files = skill_items(home.agent.skills@, "global"@) + subagent_items(
                home.agent.agents@,
                "global"@,
            );
            let row = plugin_items(home.agent, home.manifests@, "global"@);
            let servers = mcp_items(home.config_name@, home.config, None);
            &&& row.len() == 1
            &&& row[0].kind == "plugin"@
            &&& row[0].parse_error is Some
            &&& inventory(home, None) == files + row + servers
            &&& inventory(without, None) == files + servers
        }),
{
    let files = skill_items(home.agent.skills@, "global"@) + subagent_items(
        home.agent.agents@,
        "global"@,
    );
    assert(files + plugin_items(without.agent, without.manifests@, "global"@) =~= files);
}

proof fn concat_has(a: Seq<ItemView>, b: Seq<ItemView>, x: ItemView)
    ensures
        a.contains(x) || b.contains(x) ==> (a + b).contains(x),
{
    if a.contains(x) {
        let i = choose|i: int| 0 <= i < a.len() && a[i] == x;
        assert((a + b)[i] == x);
    }
    if b.contains(x) {
        let i = choose|i: int| 0 <= i < b.len() && b[i] == x;
        assert((a + b)[a.len() + i] == x);
    }
}

proof fn inventory_has(home: HomeFiles, project: Option<ProjectFiles>, x: ItemView)
    requires
        skill_items(home.agent.skills@, "global"@).contains(x) || subagent_items(
            home.agent.agents@,
            "global"@,
        ).contains(x) || plugin_items(home.agent, home.manifests@, "global"@).contains(x) || (
        match project {
            None => mcp_items(home.config_name@, home.config, None).contains(x),
            Some(p) => skill_items(p.agent.skills@, "project"@).contains(x) || subagent_items(
                p.agent.agents@,
                "project"@,
            ).contains(x) || plugin_items(p.agent, home.manifests@, "project"@).contains(x)
                || mcp_items(home.config_name@, home.config, Some(p.root@)).contains(x)
                || shared_items(p.mcp, p.mcp_path@).contains(x),
        }),
    ensures
        inventory(home, project).contains(x),
{
    let s = skill_items(home.agent.skills@, "global"@);
    let a = subagent_items(home.agent.agents@, "global"@);
    let g = plugin_items(home.agent, home.manifests@, "global"@);
    match project {
        None => {
            let m = mcp_items(home.config_name@, home.config, None);
            concat_has(s, a, x);
            concat_has(s + a, g, x);
            concat_has(s + a + g, m, x);
        },
        Some(p) => {
            let ps = skill_items(p.agent.skills@, "project"@);
            let pa = subagent_items(p.agent.agents@, "project"@);
            let pg = plugin_items(p.agent, home.manifests@, "project"@);
            let m = mcp_items(home.config_name@, home.config, Some(p.root@));
            let d = shared_items(p.mcp, p.mcp_path@);
            concat_has(s, ps, x);
            concat_has(s + ps, a, x);
            concat_has(s + ps + a, pa, x);
            concat_has(s + ps + a + pa, g, x);
            concat_has(s + ps + a + pa + g, pg, x);
            concat_has(s + ps + a + pa + g + pg, m, x);
            concat_has(s + ps + a + pa + g + pg + m, d, x);
        },
    }
}

/// Every server of the configuration has a row in the global scope, whatever project is
/// looked at: with its name, its summary, and enabled unless it says that it is disabled.
pub proof fn global_servers_are_listed(
    home: HomeFiles,
    project: Option<ProjectFiles>,
    config: JsonView,
    servers: Seq<(Seq<char>, JsonView)>,
    i: int,
)
    requires
        home.config matches Some(t) && json::json_parse(t@) == Ok::<JsonView, Seq<char>>(config),
        config.get("mcpServers"@) == Some(JsonView::Object(servers)),
        0 <= i < servers.len(),
    ensures
        inventory(home, project).contains(
            ItemView {
                id: "mcp:global:"@ + servers[i].0,
                name: servers[i].0,
                kind: "mcp"@,
                scope: "global"@,
                enabled: servers[i].1.get("disabled"@) != Some(JsonView::Bool(true)),
                toggleable: true,
                desc: Seq::empty(),
                detail: Some(command_summary(servers[i].1)),
                path: None,
                parse_error: None,
            },
        ),
{
    let row = mcp_item("global"@, servers[i].0, servers[i].1, Seq::empty());
    let rows = server_rows_of(config, "global"@, Seq::empty());
    assert(rows[i] == row);
    let root = match project {
        Some(p) => Some(p.root@),
        None => None,
    };
    let all = mcp_items(home.config_name@, home.config, root);
    assert(all[i] == row);
    assert(all.contains(row));
    inventory_has(home, project, row);
    reveal_strlit("mcp:global:");
    reveal_strlit("mcp");
    reveal_strlit("global");
    reveal_strlit(":");
    assert("mcp:global:"@ + servers[i].0 =~= item_id("mcp"@, "global"@, servers[i].0));
}

/// Every server that the configuration has for the project alone has a row in the project's
/// scope, enabled unless it says that it is disabled or the project lists it as such.
pub proof fn project_servers_are_listed(
    home: HomeFiles,
    p: ProjectFiles,
    config: JsonView,
    entry: JsonView,
    servers: Seq<(Seq<char>, JsonView)>,
    off: Seq<JsonView>,
    i: int,
)
    requires
        home.config matches Some(t) && json::json_parse(t@) == Ok::<JsonView, Seq<char>>(config),
        config.get("projects"@) matches Some(all) && all.get(p.root@) == Some(entry),
        entry.get("mcpServers"@) == Some(JsonView::Object(servers)),
        entry.get("disabledMcpjsonServers"@) == Some(JsonView::Array(off)) || (entry.get(
            "disabledMcpjsonServers"@,
        ) is None && off.len() == 0),
        0 <= i < servers.len(),
    ensures
        inventory(home, Some(p)).contains(
            ItemView {
                id: "mcp:project:"@ + servers[i].0,
                name: servers[i].0,
                kind: "mcp"@,
                scope: "project"@,
                enabled: servers[i].1.get("disabled"@) != Some(JsonView::Bool(true))
                    && !off.contains(JsonView::Str(servers[i].0)),
                toggleable: true,
                desc: Seq::empty(),
                detail: Some(command_summary(servers[i].1)),
                path: None,
                parse_error: None,
            },
        ),
{
    let disabled = string_array(entry, "disabledMcpjsonServers"@);
    strings_are_the_strings(off, servers[i].0);
    assert(strings_of(Seq::<JsonView>::empty()) =~= Seq::empty());
    assert(disabled.contains(servers[i].0) <==> off.contains(JsonView::Str(servers[i].0))) by {
        if entry.get("disabledMcpjsonServers"@) is None {
            assert(off =~= Seq::empty());
        }
    }
    let row = mcp_item("project"@, servers[i].0, servers[i].1, disabled);
    let first = server_rows_of(config, "global"@, Seq::empty());
    let rows = server_rows_of(entry, "project"@, disabled);
    assert(rows[i] == row);
    let all = mcp_items(home.config_name@, home.config, Some(p.root@));
    assert(all == first + rows);
    assert(all[first.len() + i] == row);
    assert(all.contains(row));
    inventory_has(home, Some(p), row);
    reveal_strlit("mcp:project:");
    reveal_strlit("mcp");
    reveal_strlit("project");
    reveal_strlit(":");
    assert("mcp:project:"@ + servers[i].0 =~= item_id("mcp"@, "project"@, servers[i].0));
}

proof fn strings_are_the_strings(values: Seq<JsonView>, s: Seq<char>)
    ensures
        strings_of(values).contains(s) <==> values.contains(JsonView::Str(s)),
    decreases values.len(),
{
    if values.len() > 0 {
        let head = values.drop_last();
        let a = strings_of(head);
        let b = strings_of(values);
        strings_are_the_strings(head, s);
        if a.contains(s) {
            let i = choose|i: int| 0 <= i < a.len() && a[i] == s;
            assert(b[i] == s);
        }
        if values.last() == JsonView::Str(s) {
            assert(b[b.len() - 1] == s);
            assert(values[values.len() - 1] == JsonView::Str(s));
        }
        if head.contains(JsonView::Str(s)) {
            let i = choose|i: int| 0 <= i < head.len() && head[i] == JsonView::Str(s);
            assert(values[i] == JsonView::Str(s));
        }
        if b.contains(s) {
            let i = choose|i: int| 0 <= i < b.len() && b[i] == s;
            if i < a.len() {
                assert(a[i] == s);
            }
        }
        if values.contains(JsonView::Str(s)) {
            let i = choose|i: int| 0 <= i < values.len() && values[i] == JsonView::Str(s);
            if i < head.len() {
                assert(head[i] == JsonView::Str(s));
            }
        }
    }
}

/// Every server of a shared `.mcp.json` has a row of the project that is shown as enabled and
/// cannot be toggled.
pub proof fn shared_servers_are_listed(
    home: HomeFiles,
    p: ProjectFiles,
    root: JsonView,
    servers: Seq<(Seq<char>, JsonView)>,
    i: int,
)
    requires
        p.mcp matches Some(t) && json::json_parse(t@) == Ok::<JsonView, Seq<char>>(root),
        root.get("mcpServers"@) == Some(JsonView::Object(servers)),
        0 <= i < servers.len(),
    ensures
        inventory(home, Some(p)).contains(
            ItemView {
                id: "mcp:project:.mcp.json:"@ + servers[i].0,
                name: servers[i].0,
                kind: "mcp"@,
                scope: "project"@,
                enabled: true,
                toggleable: false,
                desc: Seq::empty(),
                detail: Some(command_summary(servers[i].1) + " · .mcp.json"@),
                path: Some(p.mcp_path@),
                parse_error: None,
            },
        ),
{
    let rows = shared_items(p.mcp, p.mcp_path@);
    let row = shared_item(p.mcp_path@, servers[i].0, servers[i].1);
    assert(rows[i] == row);
    assert(rows.contains(row));
    inventory_has(home, Some(p), row);
}

/// Every plugin that the settings of a scope name has a row in that scope: enabled exactly if
/// the settings say `true`, with the name and the marketplace that its key is made of, and
/// with what its manifest says of it.
pub proof fn plugins_are_listed(
    home: HomeFiles,
    project: Option<ProjectFiles>,
    in_project: bool,
    root: JsonView,
    plugins: Seq<(Seq<char>, JsonView)>,
    i: int,
    name: Seq<char>,
    market: Seq<char>,
)
    requires
        in_project ==> project is Some,
        ({
            let files = if in_project {
                project->0.agent
            } else {
                home.agent
            };
            files.settings matches Some(t) && json::json_parse(t@) == Ok::<JsonView, Seq<char>>(
                root,
            )
        }),
        root.get("enabledPlugins"@) == Some(JsonView::Object(plugins)),
        0 <= i < plugins.len(),
        !name.contains('@'),
        market.len() > 0,
        plugins[i].0 == name + seq!['@'] + market,
    ensures
        inventory(home, project).contains(
            ItemView {
                id: (if in_project {
                    "plugin:project:"@
                } else {
                    "plugin:global:"@
                }) + plugins[i].0,
                name,
                kind: "plugin"@,
                scope: if in_project {
                    "project"@
                } else {
                    "global"@
                },
                enabled: plugins[i].1 == JsonView::Bool(true),
                toggleable: true,
                desc: match last_value(described(home.manifests@), plugins[i].0) {
                    Some(d) => d,
                    None => Seq::empty(),
                },
                detail: Some(market),
                path: None,
                parse_error: None,
            },
        ),
{
    let key = plugins[i].0;
    let scope = if in_project {
        "project"@
    } else {
        "global"@
    };
    let files = if in_project {
        project->0.agent
    } else {
        home.agent
    };
    let rows = plugin_items(files, home.manifests@, scope);
    let row = plugin_item(scope, key, plugins[i].1, described(home.manifests@));
    assert(rows[i] == row);
    assert(rows.contains(row));
    inventory_has(home, project, row);
    key_parts(name, market);
    reveal_strlit("plugin:project:");
    reveal_strlit("plugin:global:");
    reveal_strlit("plugin");
    reveal_strlit("project");
    reveal_strlit("global");
    reveal_strlit(":");
    assert("plugin:global:"@ + key =~= item_id("plugin"@, "global"@, key));
    assert("plugin:project:"@ + key =~= item_id("plugin"@, "project"@, key));
}

proof fn key_parts(name: Seq<char>, market: Seq<char>)
    requires
        !name.contains('@'),
    ensures
        plugin_name(name + seq!['@'] + market) == name,
        plugin_marketplace(name + seq!['@'] + market) == Some(market),
{
    let key = name + seq!['@'] + market;
    assert forall|j: int| 0 <= j < name.len() implies key[j] != '@' by {
        assert(key[j] == name[j]);
        assert(name.contains(name[j]));
    }
    seqs::index_of_is(key, '@', name.len() as int);
    assert(key.take(name.len() as int) =~= name);
    assert(key.skip(name.len() as int + 1) =~= market);
}

/// What the manifest of a plugin gives as its description, trimmed, is what its row shows, in
/// either scope; of several manifests for one plugin, the last that gives one.
pub proof fn manifests_describe_their_plugins(
    manifests: Seq<(String, String)>,
    key: Seq<char>,
    i: int,
    root: JsonView,
    d: Seq<char>,
)
    requires
        0 <= i < manifests.len(),
        manifests[i].0@ == key,
        json::json_parse(manifests[i].1@) == Ok::<JsonView, Seq<char>>(root),
        root.get("description"@) == Some(JsonView::Str(d)),
        forall|j: int| i < j < manifests.len() ==> (#[trigger] manifests[j]).0@ != key,
    ensures
        last_value(described(manifests), key) == Some(seqs::trim(d)),
    decreases manifests.len(),
{
    let head = manifests.drop_last();
    let a = described(head);
    let b = described(manifests);
    if i < manifests.len() - 1 {
        assert forall|j: int| i < j < head.len() implies (#[trigger] head[j]).0@ != key by {
            assert(head[j] == manifests[j]);
        }
        manifests_describe_their_plugins(head, key, i, root, d);
        assert(manifests[manifests.len() - 1].0@ != key);
        if b.len() > a.len() {
            assert(b.drop_last() =~= a);
        }
    }
}

/// A plugin without a manifest has no description.
pub proof fn no_manifest_no_description(manifests: Seq<(String, String)>, key: Seq<char>)
    requires
        forall|j: int| 0 <= j < manifests.len() ==> (#[trigger] manifests[j]).0@ != key,
    ensures
        last_value(described(manifests), key) is None,
    decreases manifests.len(),
{
    if manifests.len() > 0 {
        let head = manifests.drop_last();
        assert forall|j: int| 0 <= j < head.len() implies (#[trigger] head[j]).0@ != key by {
            assert(head[j] == manifests[j]);
        }
        no_manifest_no_description(head, key);
        assert(manifests[manifests.len() - 1].0@ != key);
        if described(manifests).len() > described(head).len() {
            assert(described(manifests).drop_last() =~= described(head));
        }
    }
}

/// The summary of a server is its address where it has one; otherwise its command and its
/// arguments with single spaces between them; then how many variables its environment has,
/// where it has any. What takes more than 120 bytes is cut.
pub proof fn summaries_say_what_runs(spec_: JsonView, url: Seq<char>, command: Seq<char>, args: Seq<JsonView>)
    ensures
        spec_.get("url"@) == Some(JsonView::Str(url)) && env_count(spec_) == 0 && seqs::byte_len(
            url,
        ) <= 120 ==> command_summary(spec_) == url,
        spec_.get("url"@) is None && spec_.get("command"@) == Some(JsonView::Str(command))
            && spec_.get("args"@) == Some(JsonView::Array(args)) && env_count(spec_) == 0
            && seqs::byte_len(seqs::trim(command + " "@ + seqs::join(strings_of(args), " "@))) <= 120
            ==> command_summary(spec_) == seqs::trim(
            command + " "@ + seqs::join(strings_of(args), " "@),
        ),
        spec_.get("url"@) == Some(JsonView::Str(url)) && env_count(spec_) > 0 && seqs::byte_len(
            url + "  (+"@ + seqs::decimal(env_count(spec_)) + " env)"@,
        ) <= 120 ==> command_summary(spec_) == url + "  (+"@ + seqs::decimal(env_count(spec_))
            + " env)"@,
        spec_.get("env"@) is None ==> env_count(spec_) == 0,
        spec_.get("env"@) matches Some(JsonView::Object(env)) ==> env_count(spec_) == env.len(),
{
}

/// A skill has a row under its own name and with its own description, where its frontmatter
/// gives them, and otherwise under the name of its directory; the text does not matter
/// beyond that. One that cannot be read has a row that says so.
pub proof fn skills_are_listed(
    home: HomeFiles,
    project: Option<ProjectFiles>,
    in_project: bool,
    i: int,
)
    requires
        in_project ==> project is Some,
        0 <= i < (if in_project {
            project->0.agent.skills@
        } else {
            home.agent.skills@
        }).len(),
    ensures
        ({
            let f = (if in_project {
                project->0.agent.skills@
            } else {
                home.agent.skills@
            })[i];
            exists|x: ItemView|
                {
                    &&& #[trigger] inventory(home, project).contains(x)
                    &&& is_markdown_row(
                        x,
                        "skill"@,
                        if in_project {
                            "project"@
                        } else {
                            "global"@
                        },
                        f.name@,
                        f,
                    )
                    &&& x.detail is None
                }
        }),
{
    let files = if in_project {
        project->0.agent.skills@
    } else {
        home.agent.skills@
    };
    let scope = if in_project {
        "project"@
    } else {
        "global"@
    };
    let f = files[i];
    let x = markdown_item("skill"@, scope, f.name@, f.path@, f.text);
    let rows = skill_items(files, scope);
    assert(rows[i] == x);
    assert(rows.contains(x));
    inventory_has(home, project, x);
    assert(is_markdown_row(x, "skill"@, scope, f.name@, f));
}

/// `x` is the row of the Markdown file `f`, which is called `name` where it does not name
/// itself.
pub open spec fn is_markdown_row(
    x: ItemView,
    kind: Seq<char>,
    scope: Seq<char>,
    name: Seq<char>,
    f: ListedFile,
) -> bool {
    &&& x.kind == kind
    &&& x.scope == scope
    &&& x.enabled
    &&& !x.toggleable
    &&& x.path == Some(f.path@)
    &&& x.id == kind + ":"@ + scope + ":"@ + x.name
    &&& (f.text matches Ok(t) ==> {
        let fm = frontmatter::frontmatter(t@);
        &&& x.parse_error is None
        &&& x.name == (match frontmatter::field(fm, "name"@) {
            Some(n) => n,
            None => name,
        })
        &&& x.desc == (match frontmatter::field(fm, "description"@) {
            Some(d) => d,
            None => Seq::empty(),
        })
    })
    &&& (f.text matches Err(e) ==> x.name == name && x.desc.len() == 0 && x.parse_error == Some(
        "read failed: "@ + e@,
    ))
}

/// A subagent has a row exactly if its file is `<stem>.md`; its detail is the model that it
/// names.
pub proof fn subagents_are_listed(
    home: HomeFiles,
    project: Option<ProjectFiles>,
    in_project: bool,
    i: int,
    stem: Seq<char>,
)
    requires
        in_project ==> project is Some,
        stem.len() > 0,
        0 <= i < (if in_project {
            project->0.agent.agents@
        } else {
            home.agent.agents@
        }).len(),
        (if in_project {
            project->0.agent.agents@
        } else {
            home.agent.agents@
        })[i].name@ == stem + ".md"@,
    ensures
        ({
            let f = (if in_project {
                project->0.agent.agents@
            } else {
                home.agent.agents@
            })[i];
            exists|x: ItemView|
                {
                    &&& #[trigger] inventory(home, project).contains(x)
                    &&& is_markdown_row(
                        x,
                        "subagent"@,
                        if in_project {
                            "project"@
                        } else {
                            "global"@
                        },
                        stem,
                        f,
                    )
                    &&& x.detail == (match f.text {
                        Ok(t) => frontmatter::field(frontmatter::frontmatter(t@), "model"@),
                        Err(_) => None,
                    })
                }
        }),
{
    let files = if in_project {
        project->0.agent.agents@
    } else {
        home.agent.agents@
    };
    let scope = if in_project {
        "project"@
    } else {
        "global"@
    };
    let f = files[i];
    reveal_strlit(".md");
    reveal_strlit("md");
    assert(!"md"@.contains('.'));
    assert(f.name@ =~= stem + seq!['.'] + "md"@);
    paths::stems_are_what_stands_before_the_extension(stem, "md"@, "md"@);
    let x = subagent_item(f, stem, scope);
    subagent_is_there(files, scope, i, stem);
    inventory_has(home, project, x);
    assert(is_markdown_row(x, "subagent"@, scope, stem, f));
}

proof fn subagent_is_there(files: Seq<ListedFile>, scope: Seq<char>, i: int, stem: Seq<char>)
    requires
        0 <= i < files.len(),
        paths::stem_with_extension(files[i].name@, "md"@) == Some(stem),
    ensures
        subagent_items(files, scope).contains(subagent_item(files[i], stem, scope)),
    decreases files.len(),
{
    let all = subagent_items(files, scope);
    if i == files.len() - 1 {
        assert(all[all.len() - 1] == subagent_item(files[i], stem, scope));
    } else {
        let head = subagent_items(files.drop_last(), scope);
        subagent_is_there(files.drop_last(), scope, i, stem);
        let k = choose|k: int|
            0 <= k < head.len() && head[k] == subagent_item(files[i], stem, scope);
        assert(all[k] == head[k]);
    }
}

/// Where a row stands in an inventory: skills first, then subagents, plugins and servers, the
/// global ones of each kind before those of the project.
pub open spec fn rank(x: ItemView) -> int {
    (if x.kind == "skill"@ {
        0int
    } else if x.kind == "subagent"@ {
        2
    } else if x.kind == "plugin"@ {
        4
    } else {
        6
    }) + (if x.scope == "project"@ {
        1int
    } else {
        0
    })
}

spec fn all_rank(s: Seq<ItemView>, r: int) -> bool {
    forall|i: int| 0 <= i < s.len() ==> rank(#[trigger] s[i]) == r
}

spec fn ranks_rise(s: Seq<ItemView>, most: int) -> bool {
    &&& forall|i: int| 0 <= i < s.len() ==> rank(#[trigger] s[i]) <= most
    &&& forall|i: int, j: int|
        0 <= i < j < s.len() ==> rank(#[trigger] s[i]) <= rank(#[trigger] s[j])
}

proof fn ranks_go_on(a: Seq<ItemView>, b: Seq<ItemView>, most: int, r: int)
    requires
        ranks_rise(a, most),
        all_rank(b, r),
        most <= r,
    ensures
        ranks_rise(a + b, r),
{
    let c = a + b;
    assert forall|i: int| 0 <= i < c.len() implies rank(#[trigger] c[i]) <= r && (i >= a.len()
        ==> rank(c[i]) == r) by {
        if i < a.len() {
            assert(c[i] == a[i]);
        } else {
            assert(c[i] == b[i - a.len()]);
        }
    }
    assert forall|i: int, j: int| 0 <= i < j < c.len() implies rank(#[trigger] c[i]) <= rank(
        #[trigger] c[j],
    ) by {
        if j < a.len() {
            assert(c[i] == a[i] && c[j] == a[j]);
        }
    }
}

proof fn kinds_differ()
    ensures
        "skill"@ != "subagent"@,
        "skill"@ != "plugin"@,
        "skill"@ != "mcp"@,
        "subagent"@ != "plugin"@,
        "subagent"@ != "mcp"@,
        "plugin"@ != "mcp"@,
        "global"@ != "project"@,
{
    reveal_strlit("skill");
    reveal_strlit("subagent");
    reveal_strlit("plugin");
    reveal_strlit("mcp");
    reveal_strlit("global");
    reveal_strlit("project");
    assert("skill"@.len() == 5 && "subagent"@.len() == 8 && "plugin"@.len() == 6 && "mcp"@.len()
        == 3);
    assert("global"@.len() == 6 && "project"@.len() == 7);
}

proof fn subagents_rank(files: Seq<ListedFile>, scope: Seq<char>, r: int)
    requires
        forall|f: ListedFile, stem: Seq<char>|
            rank(#[trigger] subagent_item(f, stem, scope)) == r,
    ensures
        all_rank(subagent_items(files, scope), r),
    decreases files.len(),
{
    if files.len() > 0 {
        subagents_rank(files.drop_last(), scope, r);
        let head = subagent_items(files.drop_last(), scope);
        let all = subagent_items(files, scope);
        assert forall|i: int| 0 <= i < all.len() implies rank(#[trigger] all[i]) == r by {
            if i < head.len() {
                assert(all[i] == head[i]);
            }
        }
    }
}

/// The rows of an inventory stand in this order: skills, subagents, plugins, servers, and of
/// each kind the global ones before those of the project.
pub proof fn rows_stand_by_kind_and_scope(
    home: HomeFiles,
    project: Option<ProjectFiles>,
    i: int,
    j: int,
)
    requires
        0 <= i < j < inventory(home, project).len(),
    ensures
        rank(inventory(home, project)[i]) <= rank(inventory(home, project)[j]),
{
    kinds_differ();
    let s = skill_items(home.agent.skills@, "global"@);
    let a = subagent_items(home.agent.agents@, "global"@);
    let g = plugin_items(home.agent, home.manifests@, "global"@);
    let none = Seq::<ItemView>::empty();
    assert(none + s =~= s);
    subagents_rank(home.agent.agents@, "global"@, 2);
    match project {
        None => {
            let m = mcp_items(home.config_name@, home.config, None);
            assert(all_rank(m, 6)) by {
                servers_rank(home.config_name@, home.config, None);
            }
            ranks_go_on(none, s, 0, 0);
            ranks_go_on(s, a, 0, 2);
            ranks_go_on(s + a, g, 2, 4);
            ranks_go_on(s + a + g, m, 4, 6);
        },
        Some(p) => {
            let ps = skill_items(p.agent.skills@, "project"@);
            let pa = subagent_items(p.agent.agents@, "project"@);
            let pg = plugin_items(p.agent, home.manifests@, "project"@);
            subagents_rank(p.agent.agents@, "project"@, 3);
            let m = mcp_items(home.config_name@, home.config, Some(p.root@));
            let d = shared_items(p.mcp, p.mcp_path@);
            servers_rank(home.config_name@, home.config, Some(p.root@));
            ranks_go_on(none, s, 0, 0);
            ranks_go_on(s, ps, 0, 1);
            ranks_go_on(s + ps, a, 1, 2);
            ranks_go_on(s + ps + a, pa, 2, 3);
            ranks_go_on(s + ps + a + pa, g, 3, 4);
            ranks_go_on(s + ps + a + pa + g, pg, 4, 5);
            let before = s + ps + a + pa + g + pg;
            let (first, own) = server_parts(home.config_name@, home.config, Some(p.root@));
            ranks_go_on(before, first, 5, 6);
            ranks_go_on(before + first, own, 6, 7);
            assert(before + first + own =~= before + m);
            ranks_go_on(before + m, d, 7, 7);
        },
    }
}

proof fn server_parts(name: Seq<char>, config: Option<String>, project: Option<Seq<char>>) -> (r: (
    Seq<ItemView>,
    Seq<ItemView>,
))
    ensures
        mcp_items(name, config, project) == r.0 + r.1,
        all_rank(r.0, 6),
        all_rank(r.1, 7),
        project is None ==> r.1.len() == 0,
{
    kinds_differ();
    let none = Seq::<ItemView>::empty();
    match config {
        None => (none, none),
        Some(t) => match json::json_parse(t@) {
            Err(e) => {
                let x = mcp_items(name, config, project);
                assert(x + none =~= x);
                (x, none)
            },
            Ok(c) => {
                let first = server_rows_of(c, "global"@, Seq::empty());
                let own = match project {
                    Some(root) => match project_entry(c, root) {
                        Some(entry) => server_rows_of(
                            entry,
                            "project"@,
                            string_array(entry, "disabledMcpjsonServers"@),
                        ),
                        None => none,
                    },
                    None => none,
                };
                (first, own)
            },
        },
    }
}

proof fn servers_rank(name: Seq<char>, config: Option<String>, project: Option<Seq<char>>)
    ensures
        project is None ==> all_rank(mcp_items(name, config, project), 6),
{
    let (first, own) = server_parts(name, config, project);
    if project is None {
        assert(first + own =~= first);
    }
}

/// A project that has no entry of its own in the configuration, no settings, no skills, no
/// subagents and no servers adds no row to those of the home directory.
pub proof fn bare_project_adds_nothing(home: HomeFiles, p: ProjectFiles)
    requires
        p.agent.skills@.len() == 0,
        p.agent.agents@.len() == 0,
        p.agent.settings is None,
        p.mcp is None,
        home.config matches Some(t) ==> (json::json_parse(t@) matches Ok(config) ==> (config.get(
            "projects"@,
        ) matches Some(all) ==> all.get(p.root@) is None)),
    ensures
        inventory(home, Some(p)) == inventory(home, None),
{
    let s = skill_items(home.agent.skills@, "global"@);
    let a = subagent_items(home.agent.agents@, "global"@);
    let g = plugin_items(home.agent, home.manifests@, "global"@);
    let m = mcp_items(home.config_name@, home.config, Some(p.root@));
    let none = Seq::<ItemView>::empty();
    assert(skill_items(p.agent.skills@, "project"@) =~= none);
    assert(subagent_items(p.agent.agents@, "project"@) =~= none);
    assert(s + none =~= s);
    assert(s + a + none =~= s + a);
    assert(s + a + g + none =~= s + a + g);
    assert(s + a + g + m + none =~= s + a + g + m);
    assert(m =~= mcp_items(home.config_name@, home.config, None));
}

/// A plugin is installed where the first of its installs says, and every plugin of the
/// registry whose first install says so is known, in the order of the registry.
pub proof fn installs_are_read_in_order(
    fields: Seq<(Seq<char>, JsonView)>,
    field: (Seq<char>, JsonView),
    installs: Seq<JsonView>,
    path: Seq<char>,
)
    ensures
        install_fields(Seq::empty()).len() == 0,
        field.1 == JsonView::Array(installs) && installs.len() > 0 && installs[0].get("installPath"@)
            == Some(JsonView::Str(path)) ==> install_fields(fields.push(field)) == install_fields(
            fields,
        ).push((field.0, path)),
        field.1 == JsonView::Array(installs) && (installs.len() == 0 || installs[0].get(
            "installPath"@,
        ) is None) ==> install_fields(fields.push(field)) == install_fields(fields),
{
    assert(fields.push(field).drop_last() =~= fields);
}

/// The registry's plugins are those under `plugins`; a registry that does not parse has none.
pub proof fn registry_lists_its_plugins(
    root: JsonView,
    fields: Seq<(Seq<char>, JsonView)>,
    error: Seq<char>,
)
    ensures
        root.get("plugins"@) == Some(JsonView::Object(fields)) ==> installs_of(
            Ok::<JsonView, Seq<char>>(root),
        ) == install_fields(fields),
        root.get("plugins"@) is None ==> installs_of(Ok::<JsonView, Seq<char>>(root)).len() == 0,
        installs_of(Err::<JsonView, Seq<char>>(error)).len() == 0,
{
}

/// Of the directories from a pane's own upwards, the first that is marked is the project.
pub proof fn nearest_marked_level_is_the_project(levels: Seq<(String, bool)>, i: int)
    ensures
        0 <= i < levels.len() && levels[i].1 && (forall|j: int|
            0 <= j < i ==> !(#[trigger] levels[j]).1) ==> first_marked(levels) == Some(levels[i].0@),
        (forall|j: int| 0 <= j < levels.len() ==> !(#[trigger] levels[j]).1) ==> first_marked(
            levels,
        ) is None,
    decreases levels.len(),
{
    if levels.len() > 0 {
        let rest = levels.drop_first();
        nearest_marked_level_is_the_project(rest, i - 1);
        if 0 < i < levels.len() && levels[i].1 && (forall|j: int|
            0 <= j < i ==> !(#[trigger] levels[j]).1) {
            assert(!levels[0].1);
            assert(rest[i - 1] == levels[i]);
            assert forall|j: int| 0 <= j < i - 1 implies !(#[trigger] rest[j]).1 by {
                assert(rest[j] == levels[j + 1]);
            }
        }
        if forall|j: int| 0 <= j < levels.len() ==> !(#[trigger] levels[j]).1 {
            assert(!levels[0].1);
            assert forall|j: int| 0 <= j < rest.len() implies !(#[trigger] rest[j]).1 by {
                assert(rest[j] == levels[j + 1]);
            }
        }
    }
}

/// A file that does not parse is one row of its own, which names the file and says why; and no
/// row of it can be switched.
pub proof fn broken_files_are_named(
    scope: Seq<char>,
    path: Seq<char>,
    config: Seq<char>,
    e: Seq<char>,
    descs: Seq<(Seq<char>, Seq<char>)>,
    project: Option<Seq<char>>,
)
    ensures
        ({
            let broken = Err::<JsonView, Seq<char>>(e);
            let plugins = plugin_rows_of(broken, path, descs, scope);
            let servers = mcp_rows_of(config, broken, project);
            let shared = shared_rows_of(broken, path);
            &&& plugins.len() == 1
            &&& plugins[0].kind == "plugin"@ && plugins[0].scope == scope && plugins[0].name
                == "settings.json"@ && plugins[0].path == Some(path)
            &&& plugins[0].parse_error == Some("invalid JSON: "@ + e) && !plugins[0].toggleable
            &&& servers.len() == 1
            &&& servers[0].kind == "mcp"@ && servers[0].scope == "global"@ && servers[0].name
                == config
            &&& servers[0].parse_error == Some("invalid JSON: "@ + e) && !servers[0].toggleable
            &&& shared.len() == 1
            &&& shared[0].kind == "mcp"@ && shared[0].scope == "project"@ && shared[0].name
                == ".mcp.json"@ && shared[0].path == Some(path)
            &&& shared[0].parse_error == Some("invalid JSON: "@ + e) && !shared[0].toggleable
        }),
{
}

/// The root of a project is the nearest marked directory, as long as it is one of the first
/// eight; otherwise the directory itself, however many are marked further up.
pub proof fn project_roots_are_near(start: &str, levels: &[(String, bool)], r: String, i: int)
    requires
        call_ensures(resolve_project_root, (start, levels), r),
    ensures
        0 <= i < levels@.len() && i < 8 && levels@[i].1 && (forall|j: int|
            0 <= j < i ==> !(#[trigger] levels@[j]).1) ==> r@ == levels@[i].0@,
        (forall|j: int| 0 <= j < levels@.len() && j < 8 ==> !(#[trigger] levels@[j]).1) ==> r@
            == start@,
{
    let near = levels@.take(
        if levels@.len() < 8 {
            levels@.len() as int
        } else {
            8
        },
    );
    nearest_marked_level_is_the_project(near, i);
    assert forall|j: int| 0 <= j < near.len() implies near[j] == levels@[j] by {}
}

} // verus!

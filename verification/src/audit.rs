//! The audit matrix: the effective state of every plugin and MCP server, project by project.
use crate::inventory;
use crate::inventory::HomeFiles;
use crate::inventory::InventoryItem;
use crate::inventory::ItemView;
use crate::inventory::ProjectFiles;
use crate::paths;
use crate::seqs;
use crate::text;
use crate::toggle;
use vstd::prelude::*;

verus! {

/// A column: one project.
#[derive(Clone, Debug, PartialEq)]
pub struct AuditColumn {
    /// The name that the project path ends in.
    pub label: String,
    pub project_path: String,
}

/// A row: one plugin or server.
#[derive(Clone, Debug, PartialEq)]
pub struct AuditRow {
    pub id: String,
    pub name: String,
    pub kind: String,
    pub detail: Option<String>,
    /// For each column `on`, `off`, `absent` or `error`.
    pub cells: Vec<String>,
}

#[derive(Clone, Debug, PartialEq)]
pub struct AuditMatrix {
    pub columns: Vec<AuditColumn>,
    pub rows: Vec<AuditRow>,
}

pub struct ColumnView {
    pub label: Seq<char>,
    pub project_path: Seq<char>,
}

#[verifier::ext_equal]
pub struct RowView {
    pub id: Seq<char>,
    pub name: Seq<char>,
    pub kind: Seq<char>,
    pub detail: Option<Seq<char>>,
    pub cells: Seq<Seq<char>>,
}

impl View for AuditColumn {
    type V = ColumnView;

    open spec fn view(&self) -> ColumnView {
        ColumnView { label: self.label@, project_path: self.project_path@ }
    }
}

impl View for AuditRow {
    type V = RowView;

    open spec fn view(&self) -> RowView {
        RowView {
            id: self.id@,
            name: self.name@,
            kind: self.kind@,
            detail: seqs::opt_view(self.detail),
            cells: seqs::views(self.cells@),
        }
    }
}

pub open spec fn columns_view(v: Seq<AuditColumn>) -> Seq<ColumnView> {
    v.map_values(|c: AuditColumn| c@)
}

pub open spec fn rows_view(v: Seq<AuditRow>) -> Seq<RowView> {
    v.map_values(|r: AuditRow| r@)
}

/// The column of the project at `root`.
pub open spec fn column_of(root: Seq<char>) -> ColumnView {
    ColumnView {
        label: match paths::base_name_of(root) {
            Some(n) => n,
            None => root,
        },
        project_path: root,
    }
}

/// The state that one inventory row shows.
pub open spec fn state_of(item: ItemView) -> Seq<char> {
    if item.parse_error is Some {
        "error"@
    } else if item.enabled {
        "on"@
    } else {
        "off"@
    }
}

/// What an inventory row says of the matrix: the key of the plugin or server that it
/// stands for, or that a whole file of its kind did not parse.
pub enum Entry {
    Named(Seq<char>),
    Broken,
    Other,
}

/// How the plugin rows of the matrix see an inventory row.
pub open spec fn plugin_entry(item: ItemView) -> Entry {
    if item.kind != "plugin"@ {
        Entry::Other
    } else {
        match toggle::plugin_id_parts(item.id) {
            None => Entry::Other,
            Some((_, key)) => if key.contains('@') {
                Entry::Named(key)
            } else if item.parse_error is Some {
                Entry::Broken
            } else {
                Entry::Other
            },
        }
    }
}

/// How the server rows of the matrix see an inventory row.
pub open spec fn mcp_entry(item: ItemView) -> Entry {
    if item.kind != "mcp"@ {
        Entry::Other
    } else if !seqs::ends_with(item.name, ".json"@) {
        Entry::Named(item.name)
    } else if item.parse_error is Some {
        Entry::Broken
    } else {
        Entry::Other
    }
}

pub open spec fn entry(plugins: bool, item: ItemView) -> Entry {
    if plugins {
        plugin_entry(item)
    } else {
        mcp_entry(item)
    }
}

/// The keys that an inventory names, in its order.
pub open spec fn named_keys(plugins: bool, inv: Seq<ItemView>) -> Seq<Seq<char>>
    decreases inv.len(),
{
    if inv.len() == 0 {
        Seq::empty()
    } else {
        let head = named_keys(plugins, inv.drop_last());
        match entry(plugins, inv.last()) {
            Entry::Named(k) => head.push(k),
            _ => head,
        }
    }
}

/// The keys that any of several inventories names.
pub open spec fn all_keys(plugins: bool, invs: Seq<Seq<ItemView>>) -> Seq<Seq<char>>
    decreases invs.len(),
{
    if invs.len() == 0 {
        Seq::empty()
    } else {
        all_keys(plugins, invs.drop_last()) + named_keys(plugins, invs.last())
    }
}

/// The state that the last row for `key` in the given scope shows.
pub open spec fn scoped_state(
    plugins: bool,
    inv: Seq<ItemView>,
    project: bool,
    key: Seq<char>,
) -> Option<Seq<char>>
    decreases inv.len(),
{
    if inv.len() == 0 {
        None
    } else if entry(plugins, inv.last()) == Entry::Named(key) && (inv.last().scope == "project"@)
        == project {
        Some(state_of(inv.last()))
    } else {
        scoped_state(plugins, inv.drop_last(), project, key)
    }
}

/// Whether a file of the kind did not parse.
pub open spec fn is_broken(plugins: bool, inv: Seq<ItemView>) -> bool {
    exists|i: int| 0 <= i < inv.len() && entry(plugins, #[trigger] inv[i]) == Entry::Broken
}

/// The cell of `key` in the column of an inventory: what the project says; else what the
/// global scope says; else `error` where a file of the kind did not parse, and `absent`
/// where all did.
pub open spec fn cell(plugins: bool, inv: Seq<ItemView>, key: Seq<char>) -> Seq<char> {
    match scoped_state(plugins, inv, true, key) {
        Some(s) => s,
        None => match scoped_state(plugins, inv, false, key) {
            Some(s) => s,
            None => if is_broken(plugins, inv) {
                "error"@
            } else {
                "absent"@
            },
        },
    }
}

pub open spec fn cells_of(plugins: bool, invs: Seq<Seq<ItemView>>, key: Seq<char>) -> Seq<Seq<char>> {
    invs.map_values(|inv: Seq<ItemView>| cell(plugins, inv, key))
}

/// The detail of the first server row named `name` in an inventory.
pub open spec fn first_detail(inv: Seq<ItemView>, name: Seq<char>) -> Option<Option<Seq<char>>>
    decreases inv.len(),
{
    if inv.len() == 0 {
        None
    } else if mcp_entry(inv[0]) == Entry::Named(name) {
        Some(inv[0].detail)
    } else {
        first_detail(inv.drop_first(), name)
    }
}

/// The detail of the first server row named `name` in several inventories.
pub open spec fn detail_over(invs: Seq<Seq<ItemView>>, name: Seq<char>) -> Option<Seq<char>>
    decreases invs.len(),
{
    if invs.len() == 0 {
        None
    } else {
        match first_detail(invs[0], name) {
            Some(d) => d,
            None => detail_over(invs.drop_first(), name),
        }
    }
}

/// The matrix row of a plugin.
pub open spec fn plugin_row_of(invs: Seq<Seq<ItemView>>, key: Seq<char>) -> RowView {
    RowView {
        id: "plugin:"@ + key,
        name: inventory::plugin_name(key),
        kind: "plugin"@,
        detail: inventory::plugin_marketplace(key),
        cells: cells_of(true, invs, key),
    }
}

/// The matrix row of a server.
pub open spec fn mcp_row_of(invs: Seq<Seq<ItemView>>, name: Seq<char>) -> RowView {
    RowView {
        id: "mcp:"@ + name,
        name,
        kind: "mcp"@,
        detail: detail_over(invs, name),
        cells: cells_of(false, invs, name),
    }
}

pub open spec fn row_of(plugins: bool, invs: Seq<Seq<ItemView>>, key: Seq<char>) -> RowView {
    if plugins {
        plugin_row_of(invs, key)
    } else {
        mcp_row_of(invs, key)
    }
}

/// The rows of one kind: a row for each key that occurs, in ascending order.
pub open spec fn rows_of(plugins: bool, invs: Seq<Seq<ItemView>>) -> Seq<RowView> {
    seqs::sorted_keys(all_keys(plugins, invs)).map_values(
        |k: Seq<char>| row_of(plugins, invs, k),
    )
}

/// The inventory behind each column.
pub open spec fn inventories(home: HomeFiles, projects: Seq<ProjectFiles>) -> Seq<Seq<ItemView>> {
    projects.map_values(|p: ProjectFiles| inventory::inventory(home, Some(p)))
}

/// The rows of the matrix: the plugins, then the servers.
pub open spec fn matrix_rows(home: HomeFiles, projects: Seq<ProjectFiles>) -> Seq<RowView> {
    let invs = inventories(home, projects);
    rows_of(true, invs) + rows_of(false, invs)
}

pub open spec fn nested_items(v: Seq<Vec<InventoryItem>>) -> Seq<Seq<ItemView>> {
    v.map_values(|x: Vec<InventoryItem>| inventory::items(x@))
}

/// The executable form of [`Entry`].
enum Seen {
    Named(String),
    Broken,
    Other,
}

spec fn seen_view(s: Seen) -> Entry {
    match s {
        Seen::Named(k) => Entry::Named(k@),
        Seen::Broken => Entry::Broken,
        Seen::Other => Entry::Other,
    }
}

fn has_at(key: &str) -> (r: bool)
    ensures
        r == key@.contains('@'),
{
    let cs = text::chars_of(key);
    let i = text::index_from(&cs, '@', 0);
    proof {
        assert(cs@.skip(0) =~= key@);
        seqs::index_of_bounds(key@, '@');
        if i < cs.len() {
            assert(key@[i as int] == '@');
        }
    }
    i < cs.len()
}

fn look(plugins: bool, item: &InventoryItem) -> (r: Seen)
    ensures
        seen_view(r) == entry(plugins, item@),
{
    if plugins {
        if !text::same(item.kind.as_str(), "plugin") {
            return Seen::Other;
        }
        match toggle::parse_plugin_id(item.id.as_str()) {
            Err(_) => Seen::Other,
            Ok((_, key)) => if has_at(key.as_str()) {
                Seen::Named(key)
            } else if item.parse_error.is_some() {
                Seen::Broken
            } else {
                Seen::Other
            },
        }
    } else {
        if !text::same(item.kind.as_str(), "mcp") {
            return Seen::Other;
        }
        if !text::ends_with(item.name.as_str(), ".json") {
            Seen::Named(item.name.clone())
        } else if item.parse_error.is_some() {
            Seen::Broken
        } else {
            Seen::Other
        }
    }
}

/// The state that one inventory row shows.
pub fn cell_of(item: &InventoryItem) -> (r: String)
    ensures
        r@ == state_of(item@),
{
    if item.parse_error.is_some() {
        "error".to_owned()
    } else if item.enabled {
        "on".to_owned()
    } else {
        "off".to_owned()
    }
}

fn find_state(plugins: bool, inv: &[InventoryItem], project: bool, key: &str) -> (r: Option<String>)
    ensures
        seqs::opt_view(r) == scoped_state(plugins, inventory::items(inv@), project, key@),
{
    let ghost all = inventory::items(inv@);
    let mut k: usize = inv.len();
    assert(all.take(k as int) =~= all);
    while k > 0
        invariant
            k <= inv@.len(),
            all == inventory::items(inv@),
            scoped_state(plugins, all, project, key@) == scoped_state(
                plugins,
                all.take(k as int),
                project,
                key@,
            ),
        decreases k,
    {
        proof {
            assert(all.take(k as int).last() == inv@[k - 1]@);
            assert(all.take(k as int).drop_last() =~= all.take(k - 1));
        }
        if let Seen::Named(name) = look(plugins, &inv[k - 1]) {
            if text::same(name.as_str(), key) && text::same(inv[k - 1].scope.as_str(), "project")
                == project {
                return Some(cell_of(&inv[k - 1]));
            }
        }
        k -= 1;
    }
    None
}

fn any_broken(plugins: bool, inv: &[InventoryItem]) -> (r: bool)
    ensures
        r == is_broken(plugins, inventory::items(inv@)),
{
    let ghost all = inventory::items(inv@);
    let mut i: usize = 0;
    while i < inv.len()
        invariant
            i <= inv@.len(),
            all == inventory::items(inv@),
            forall|j: int| 0 <= j < i ==> entry(plugins, #[trigger] all[j]) != Entry::Broken,
        decreases inv@.len() - i,
    {
        if let Seen::Broken = look(plugins, &inv[i]) {
            assert(all[i as int] == inv@[i as int]@);
            return true;
        }
        i += 1;
    }
    false
}

fn cell_text(plugins: bool, inv: &[InventoryItem], key: &str) -> (r: String)
    ensures
        r@ == cell(plugins, inventory::items(inv@), key@),
{
    match find_state(plugins, inv, true, key) {
        Some(s) => s,
        None => match find_state(plugins, inv, false, key) {
            Some(s) => s,
            None => if any_broken(plugins, inv) {
                "error".to_owned()
            } else {
                "absent".to_owned()
            },
        },
    }
}

fn cell_texts(plugins: bool, invs: &[Vec<InventoryItem>], key: &str) -> (r: Vec<String>)
    ensures
        seqs::views(r@) == cells_of(plugins, nested_items(invs@), key@),
{
    let ghost want = cells_of(plugins, nested_items(invs@), key@);
    let mut out: Vec<String> = Vec::new();
    let mut i: usize = 0;
    while i < invs.len()
        invariant
            i <= invs@.len(),
            want == cells_of(plugins, nested_items(invs@), key@),
            seqs::views(out@) == want.take(i as int),
        decreases invs@.len() - i,
    {
        let ghost before = out@;
        let c = cell_text(plugins, &invs[i], key);
        out.push(c);
        proof {
            assert(want[i as int] == c@);
            assert(seqs::views(out@) =~= seqs::views(before).push(c@));
            assert(want.take(i + 1) =~= want.take(i as int).push(want[i as int]));
        }
        i += 1;
    }
    assert(want.take(invs@.len() as int) =~= want);
    out
}

fn find_detail(invs: &[Vec<InventoryItem>], name: &str) -> (r: Option<String>)
    ensures
        seqs::opt_view(r) == detail_over(nested_items(invs@), name@),
{
    let ghost all = nested_items(invs@);
    let mut i: usize = 0;
    assert(all.skip(0) =~= all);
    while i < invs.len()
        invariant
            i <= invs@.len(),
            all == nested_items(invs@),
            detail_over(all, name@) == detail_over(all.skip(i as int), name@),
        decreases invs@.len() - i,
    {
        let inv = &invs[i];
        let ghost here = inventory::items(inv@);
        let mut j: usize = 0;
        proof {
            assert(all.skip(i as int)[0] == here);
            assert(all.skip(i as int).drop_first() =~= all.skip(i + 1));
            assert(here.skip(0) =~= here);
        }
        while j < inv.len()
            invariant
                j <= inv@.len(),
                all == nested_items(invs@),
                here == inventory::items(inv@),
                detail_over(all, name@) == (match first_detail(here, name@) {
                    Some(d) => d,
                    None => detail_over(all.skip(i + 1), name@),
                }),
                first_detail(here, name@) == first_detail(here.skip(j as int), name@),
            decreases inv@.len() - j,
        {
            proof {
                assert(here.skip(j as int)[0] == inv@[j as int]@);
                assert(here.skip(j as int).drop_first() =~= here.skip(j + 1));
            }
            if let Seen::Named(n) = look(false, &inv[j]) {
                if text::same(n.as_str(), name) {
                    return inv[j].detail.clone();
                }
            }
            j += 1;
        }
        i += 1;
    }
    None
}

/// Puts the keys that an inventory names into the sorted list of keys.
fn collect_keys(plugins: bool, inv: &[InventoryItem], keys: &mut Vec<String>, Ghost(prior): Ghost<
    Seq<Seq<char>>,
>)
    requires
        seqs::views(old(keys)@) == seqs::sorted_keys(prior),
    ensures
        seqs::views(final(keys)@) == seqs::sorted_keys(
            prior + named_keys(plugins, inventory::items(inv@)),
        ),
{
    let ghost all = inventory::items(inv@);
    let mut i: usize = 0;
    assert(all.take(0) =~= Seq::empty());
    assert(prior + Seq::<Seq<char>>::empty() =~= prior);
    while i < inv.len()
        invariant
            i <= inv@.len(),
            all == inventory::items(inv@),
            seqs::views(keys@) == seqs::sorted_keys(
                prior + named_keys(plugins, all.take(i as int)),
            ),
        decreases inv@.len() - i,
    {
        proof {
            assert(all.take(i + 1).last() == inv@[i as int]@);
            assert(all.take(i + 1).drop_last() =~= all.take(i as int));
        }
        if let Seen::Named(k) = look(plugins, &inv[i]) {
            text::insert_key(keys, k.as_str());
            proof {
                let head = prior + named_keys(plugins, all.take(i as int));
                let whole = prior + named_keys(plugins, all.take(i + 1));
                assert(whole =~= head.push(k@));
                assert(whole.drop_last() =~= head);
            }
        }
        i += 1;
    }
    assert(all.take(inv@.len() as int) =~= all);
}

fn kind_rows(plugins: bool, invs: &[Vec<InventoryItem>], rows: &mut Vec<AuditRow>)
    ensures
        rows_view(final(rows)@) == rows_view(old(rows)@) + rows_of(plugins, nested_items(invs@)),
{
    let ghost all = nested_items(invs@);
    let mut keys: Vec<String> = Vec::new();
    let mut i: usize = 0;
    assert(all.take(0) =~= Seq::empty());
    assert(seqs::views(keys@) =~= Seq::empty());
    while i < invs.len()
        invariant
            i <= invs@.len(),
            all == nested_items(invs@),
            seqs::views(keys@) == seqs::sorted_keys(all_keys(plugins, all.take(i as int))),
        decreases invs@.len() - i,
    {
        proof {
            assert(all.take(i + 1).last() == inventory::items(invs@[i as int]@));
            assert(all.take(i + 1).drop_last() =~= all.take(i as int));
        }
        let ghost prior = all_keys(plugins, all.take(i as int));
        collect_keys(plugins, &invs[i], &mut keys, Ghost(prior));
        i += 1;
    }
    assert(all.take(invs@.len() as int) =~= all);
    let ghost before = rows_view(rows@);
    let ghost want = rows_of(plugins, all);
    let mut k: usize = 0;
    assert(before + want.take(0) =~= before);
    while k < keys.len()
        invariant
            k <= keys@.len(),
            all == nested_items(invs@),
            want == rows_of(plugins, all),
            seqs::views(keys@) == seqs::sorted_keys(all_keys(plugins, all)),
            rows_view(rows@) == before + want.take(k as int),
        decreases keys@.len() - k,
    {
        let key = keys[k].as_str();
        let cells = cell_texts(plugins, invs, key);
        let ghost prior = rows@;
        let row = if plugins {
            let cs = text::chars_of(key);
            let at = text::index_from(&cs, '@', 0);
            assert(cs@.skip(0) =~= key@);
            let name = text::string_of(&cs, 0, at);
            assert(name@ =~= inventory::plugin_name(key@));
            let detail = if at < cs.len() {
                let m = text::string_of(&cs, at + 1, cs.len());
                assert(m@ =~= key@.skip(at + 1));
                Some(m)
            } else {
                None
            };
            let mut id = "plugin:".to_owned();
            id.append(key);
            AuditRow { id, name, kind: "plugin".to_owned(), detail, cells }
        } else {
            let mut id = "mcp:".to_owned();
            id.append(key);
            AuditRow {
                id,
                name: key.to_owned(),
                kind: "mcp".to_owned(),
                detail: find_detail(invs, key),
                cells,
            }
        };
        rows.push(row);
        proof {
            assert(seqs::views(keys@)[k as int] == key@);
            assert(want[k as int] == row_of(plugins, all, key@));
            assert(row@ =~= row_of(plugins, all, key@));
            assert(rows_view(rows@) =~= rows_view(prior).push(row@));
            assert(before + want.take(k + 1) =~= (before + want.take(k as int)).push(
                want[k as int],
            ));
        }
        k += 1;
    }
    assert(want.take(keys@.len() as int) =~= want);
}

/// The matrix of the given projects: a column for each, a row for each plugin and server
/// that any of them sees.
pub fn compute_audit(home: &HomeFiles, projects: &[ProjectFiles]) -> (r: AuditMatrix)
    ensures
        columns_view(r.columns@) == projects@.map_values(|p: ProjectFiles| column_of(p.root@)),
        rows_view(r.rows@) == matrix_rows(*home, projects@),
{
    let mut columns: Vec<AuditColumn> = Vec::new();
    let mut invs: Vec<Vec<InventoryItem>> = Vec::new();
    let ghost cols = projects@.map_values(|p: ProjectFiles| column_of(p.root@));
    let ghost all = inventories(*home, projects@);
    let mut i: usize = 0;
    while i < projects.len()
        invariant
            i <= projects@.len(),
            cols == projects@.map_values(|p: ProjectFiles| column_of(p.root@)),
            all == inventories(*home, projects@),
            columns_view(columns@) == cols.take(i as int),
            nested_items(invs@) == all.take(i as int),
        decreases projects@.len() - i,
    {
        let root = &projects[i].root;
        let label = match paths::base_name(root.as_str()) {
            Some(n) => n,
            None => root.clone(),
        };
        let ghost columns_before = columns@;
        let ghost invs_before = invs@;
        let column = AuditColumn { label, project_path: root.clone() };
        columns.push(column);
        let inv = inventory::load_inventory_at(home, Some(&projects[i]));
        invs.push(inv);
        proof {
            assert(cols[i as int] == column@);
            assert(columns_view(columns@) =~= columns_view(columns_before).push(column@));
            assert(cols.take(i + 1) =~= cols.take(i as int).push(cols[i as int]));
            assert(all[i as int] == inventory::items(inv@));
            assert(nested_items(invs@) =~= nested_items(invs_before).push(inventory::items(inv@)));
            assert(all.take(i + 1) =~= all.take(i as int).push(all[i as int]));
        }
        i += 1;
    }
    proof {
        assert(cols.take(projects@.len() as int) =~= cols);
        assert(all.take(projects@.len() as int) =~= all);
    }
    let mut rows: Vec<AuditRow> = Vec::new();
    kind_rows(true, &invs, &mut rows);
    assert(rows_view(rows@) =~= rows_of(true, all));
    kind_rows(false, &invs, &mut rows);
    AuditMatrix { columns, rows }
}

// ── What holds of every matrix ──────────────────────────────────────────────────────────

/// Every row has one cell for each project.
pub proof fn one_cell_per_column(home: HomeFiles, projects: Seq<ProjectFiles>, i: int)
    requires
        0 <= i < matrix_rows(home, projects).len(),
    ensures
        matrix_rows(home, projects)[i].cells.len() == projects.len(),
{
}

/// Without projects the matrix is empty.
pub proof fn no_projects_no_rows(home: HomeFiles)
    ensures
        matrix_rows(home, Seq::empty()).len() == 0,
{
    let invs = inventories(home, Seq::empty());
    assert(all_keys(true, invs) =~= Seq::empty());
    assert(all_keys(false, invs) =~= Seq::empty());
}

/// What a project says of a plugin or server is what its column shows, whatever the global
/// scope says; where it says nothing, the global state is shown.
pub proof fn project_override_wins(plugins: bool, inv: Seq<ItemView>, key: Seq<char>)
    ensures
        scoped_state(plugins, inv, true, key) matches Some(s) ==> cell(plugins, inv, key) == s,
        scoped_state(plugins, inv, true, key) is None ==> (scoped_state(
            plugins,
            inv,
            false,
            key,
        ) matches Some(s) ==> cell(plugins, inv, key) == s),
{
}

/// The rows of a kind stand in ascending order of their keys, each key once, and a key has
/// a row exactly if some project's inventory names it.
pub proof fn rows_are_the_union(plugins: bool, invs: Seq<Seq<ItemView>>, key: Seq<char>)
    ensures
        seqs::strictly_ascending(seqs::sorted_keys(all_keys(plugins, invs))),
        seqs::sorted_keys(all_keys(plugins, invs)).contains(key) <==> exists|c: int|
            0 <= c < invs.len() && named_keys(plugins, #[trigger] invs[c]).contains(key),
    decreases invs.len(),
{
    seqs::sorted_keys_sound(all_keys(plugins, invs));
    let keys = all_keys(plugins, invs);
    assert(seqs::sorted_keys(keys).contains(key) <==> keys.contains(key));
    if invs.len() > 0 {
        let head = invs.drop_last();
        rows_are_the_union(plugins, head, key);
        seqs::sorted_keys_sound(all_keys(plugins, head));
        let a = all_keys(plugins, head);
        let b = named_keys(plugins, invs.last());
        assert(seqs::sorted_keys(a).contains(key) <==> a.contains(key));
        assert(keys == a + b);
        if keys.contains(key) {
            let i = choose|i: int| 0 <= i < keys.len() && keys[i] == key;
            if i < a.len() {
                assert(a[i] == key);
                let c = choose|c: int|
                    0 <= c < head.len() && named_keys(plugins, #[trigger] head[c]).contains(key);
                assert(invs[c] == head[c]);
            } else {
                assert(b[i - a.len()] == key);
                assert(invs[invs.len() - 1] == invs.last());
            }
        }
        if exists|c: int|
            0 <= c < invs.len() && named_keys(plugins, #[trigger] invs[c]).contains(key) {
            let c = choose|c: int|
                0 <= c < invs.len() && named_keys(plugins, #[trigger] invs[c]).contains(key);
            if c < head.len() {
                assert(head[c] == invs[c]);
                assert(a.contains(key));
                let i = choose|i: int| 0 <= i < a.len() && a[i] == key;
                assert(keys[i] == key);
            } else {
                let i = choose|i: int| 0 <= i < b.len() && b[i] == key;
                assert(keys[a.len() + i] == key);
            }
        }
    }
}

/// The id of an inventory row names the plugin `key`: `plugin:<scope>:<key>`.
pub open spec fn names_plugin(id: Seq<char>, key: Seq<char>) -> bool {
    exists|s: Seq<char>|
        s.len() > 0 && !s.contains(':') && id == "plugin:"@ + #[trigger] (s + ":"@) + key
}

/// An inventory row stands for `key`: it is the row of a plugin with that key, which holds an
/// `@`; or the row of a server with that name, which is no file.
pub open spec fn stands_for(plugins: bool, item: ItemView, key: Seq<char>) -> bool {
    if plugins {
        item.kind == "plugin"@ && key.contains('@') && names_plugin(item.id, key)
    } else {
        item.kind == "mcp"@ && item.name == key && !seqs::ends_with(key, ".json"@)
    }
}

/// An inventory row tells that a whole file of the kind did not parse.
pub open spec fn tells_of_broken_file(plugins: bool, item: ItemView) -> bool {
    item.parse_error is Some && (if plugins {
        item.kind == "plugin"@ && exists|key: Seq<char>|
            key.len() > 0 && !key.contains('@') && #[trigger] names_plugin(item.id, key)
    } else {
        item.kind == "mcp"@ && seqs::ends_with(item.name, ".json"@)
    })
}

proof fn plugin_ids_name_their_key(id: Seq<char>, key: Seq<char>)
    requires
        key.len() > 0,
    ensures
        names_plugin(id, key) <==> (toggle::plugin_id_parts(id) matches Some((_, k)) && k == key),
{
    reveal_strlit("plugin:");
    reveal_strlit("plugin");
    reveal_strlit(":");
    if names_plugin(id, key) {
        let s = choose|s: Seq<char>|
            s.len() > 0 && !s.contains(':') && id == "plugin:"@ + #[trigger] (s + ":"@) + key;
        assert(id =~= inventory::item_id("plugin"@, s, key));
        toggle::plugin_id_round_trip(s, key);
    }
    if let Some((s, k)) = toggle::plugin_id_parts(id) {
        if k == key {
            let i = seqs::index_of(id, ':');
            let rest = id.skip(i + 1);
            let j = seqs::index_of(rest, ':');
            seqs::index_of_bounds(id, ':');
            seqs::index_of_bounds(rest, ':');
            assert(s == rest.take(j));
            assert(!s.contains(':')) by {
                if s.contains(':') {
                    let m = choose|m: int| 0 <= m < s.len() && s[m] == ':';
                    assert(rest[m] == ':');
                }
            }
            assert(id.take(i) == "plugin"@);
            assert(id =~= id.take(i) + seq![':'] + rest);
            assert(rest =~= s + seq![':'] + key);
            assert(id =~= "plugin:"@ + (s + ":"@) + key);
        }
    }
}

proof fn entries_stand(plugins: bool, item: ItemView, key: Seq<char>)
    ensures
        stands_for(plugins, item, key) <==> entry(plugins, item) == Entry::Named(key),
        entry(plugins, item) == Entry::Broken <==> tells_of_broken_file(plugins, item),
{
    if plugins {
        if key.contains('@') {
            plugin_ids_name_their_key(item.id, key);
        }
        if let Some((s, k)) = toggle::plugin_id_parts(item.id) {
            plugin_ids_name_their_key(item.id, k);
        }
        if item.kind == "plugin"@ && exists|k: Seq<char>|
            k.len() > 0 && !k.contains('@') && #[trigger] names_plugin(item.id, k) {
            let k = choose|k: Seq<char>|
                k.len() > 0 && !k.contains('@') && #[trigger] names_plugin(item.id, k);
            plugin_ids_name_their_key(item.id, k);
        }
    }
}

proof fn last_row_is_the_state(
    plugins: bool,
    inv: Seq<ItemView>,
    project: bool,
    key: Seq<char>,
    i: int,
)
    requires
        0 <= i < inv.len(),
        stands_for(plugins, inv[i], key),
        (inv[i].scope == "project"@) == project,
        forall|j: int|
            i < j < inv.len() && ((#[trigger] inv[j]).scope == "project"@) == project
                ==> !stands_for(plugins, inv[j], key),
    ensures
        scoped_state(plugins, inv, project, key) == Some(state_of(inv[i])),
    decreases inv.len(),
{
    entries_stand(plugins, inv.last(), key);
    if i < inv.len() - 1 {
        let head = inv.drop_last();
        assert(inv[inv.len() - 1] == inv.last());
        assert forall|j: int|
            i < j < head.len() && ((#[trigger] head[j]).scope == "project"@)
                == project implies !stands_for(plugins, head[j], key) by {
            assert(head[j] == inv[j]);
        }
        last_row_is_the_state(plugins, head, project, key, i);
    }
}

proof fn no_row_no_state(plugins: bool, inv: Seq<ItemView>, project: bool, key: Seq<char>)
    requires
        forall|j: int|
            0 <= j < inv.len() && ((#[trigger] inv[j]).scope == "project"@) == project
                ==> !stands_for(plugins, inv[j], key),
    ensures
        scoped_state(plugins, inv, project, key) is None,
    decreases inv.len(),
{
    if inv.len() > 0 {
        let head = inv.drop_last();
        entries_stand(plugins, inv.last(), key);
        assert(inv[inv.len() - 1] == inv.last());
        assert forall|j: int|
            0 <= j < head.len() && ((#[trigger] head[j]).scope == "project"@)
                == project implies !stands_for(plugins, head[j], key) by {
            assert(head[j] == inv[j]);
        }
        no_row_no_state(plugins, head, project, key);
    }
}

/// The row at position `i` decides on the cell of `key`: it stands for `key`; and either it
/// is the last such row of the project, or it is the last such row of the global scope and
/// the project has none.
pub open spec fn decides(plugins: bool, inv: Seq<ItemView>, key: Seq<char>, i: int) -> bool {
    &&& 0 <= i < inv.len()
    &&& stands_for(plugins, inv[i], key)
    &&& forall|j: int|
        0 <= j < inv.len() && stands_for(plugins, #[trigger] inv[j], key) && (inv[j].scope
            == "project"@) == (inv[i].scope == "project"@) ==> j <= i
    &&& inv[i].scope != "project"@ ==> forall|j: int|
        0 <= j < inv.len() && (#[trigger] inv[j]).scope == "project"@ ==> !stands_for(
            plugins,
            inv[j],
            key,
        )
}

proof fn deciding_row_is_shown(plugins: bool, inv: Seq<ItemView>, key: Seq<char>, i: int)
    requires
        decides(plugins, inv, key, i),
    ensures
        cell(plugins, inv, key) == (if inv[i].parse_error is Some {
            "error"@
        } else if inv[i].enabled {
            "on"@
        } else {
            "off"@
        }),
{
    let project = inv[i].scope == "project"@;
    last_row_is_the_state(plugins, inv, project, key, i);
    if !project {
        no_row_no_state(plugins, inv, true, key);
    }
}

/// The cell of a plugin or server in the column of a project shows what the deciding row of
/// the project's inventory says: what the project has set where it has set anything, and
/// otherwise what holds for all projects; `error` where that row does not parse, else `on`
/// or `off` as it is enabled or not.
pub proof fn cells_show_the_effective_state(
    plugins: bool,
    home: HomeFiles,
    projects: Seq<ProjectFiles>,
    r: int,
    c: int,
    key: Seq<char>,
    i: int,
)
    requires
        0 <= r < matrix_rows(home, projects).len(),
        0 <= c < projects.len(),
        matrix_rows(home, projects)[r].id == (if plugins {
            "plugin:"@
        } else {
            "mcp:"@
        }) + key,
        decides(plugins, inventory::inventory(home, Some(projects[c])), key, i),
    ensures
        ({
            let item = inventory::inventory(home, Some(projects[c]))[i];
            matrix_rows(home, projects)[r].cells[c] == (if item.parse_error is Some {
                "error"@
            } else if item.enabled {
                "on"@
            } else {
                "off"@
            })
        }),
{
    row_of_id(plugins, home, projects, r, key);
    deciding_row_is_shown(plugins, inventory::inventory(home, Some(projects[c])), key, i);
}

proof fn row_of_id(
    plugins: bool,
    home: HomeFiles,
    projects: Seq<ProjectFiles>,
    r: int,
    key: Seq<char>,
)
    requires
        0 <= r < matrix_rows(home, projects).len(),
        matrix_rows(home, projects)[r].id == (if plugins {
            "plugin:"@
        } else {
            "mcp:"@
        }) + key,
    ensures
        matrix_rows(home, projects)[r] == row_of(plugins, inventories(home, projects), key),
{
    let invs = inventories(home, projects);
    let n = rows_of(true, invs).len() as int;
    let row = matrix_rows(home, projects)[r];
    reveal_strlit("plugin:");
    reveal_strlit("mcp:");
    if r < n {
        let k = seqs::sorted_keys(all_keys(true, invs))[r];
        assert(row == plugin_row_of(invs, k));
        assert(row.id[0] == 'p');
        assert(plugins) by {
            if !plugins {
                assert(("mcp:"@ + key)[0] == 'm');
            }
        }
        assert(k =~= row.id.skip(7));
        assert(key =~= row.id.skip(7));
    } else {
        let k = seqs::sorted_keys(all_keys(false, invs))[r - n];
        assert(row == mcp_row_of(invs, k));
        assert(row.id[0] == 'm');
        assert(!plugins) by {
            if plugins {
                assert(("plugin:"@ + key)[0] == 'p');
            }
        }
        assert(k =~= row.id.skip(4));
        assert(key =~= row.id.skip(4));
    }
}

/// A cell is `absent` exactly if no row of the project's inventory, of either scope, stands
/// for the key and every file of the kind parsed; where none stands for it and some file did
/// not parse, it is `error`.
pub proof fn absent_means_nowhere(
    plugins: bool,
    home: HomeFiles,
    projects: Seq<ProjectFiles>,
    r: int,
    c: int,
    key: Seq<char>,
)
    requires
        0 <= r < matrix_rows(home, projects).len(),
        0 <= c < projects.len(),
        matrix_rows(home, projects)[r].id == (if plugins {
            "plugin:"@
        } else {
            "mcp:"@
        }) + key,
    ensures
        ({
            let inv = inventory::inventory(home, Some(projects[c]));
            let cell = matrix_rows(home, projects)[r].cells[c];
            let stands = exists|i: int|
                0 <= i < inv.len() && stands_for(plugins, #[trigger] inv[i], key);
            let broken = exists|i: int|
                0 <= i < inv.len() && tells_of_broken_file(plugins, #[trigger] inv[i]);
            &&& cell == "absent"@ <==> !stands && !broken
            &&& !stands && broken ==> cell == "error"@
        }),
{
    let inv = inventory::inventory(home, Some(projects[c]));
    row_of_id(plugins, home, projects, r, key);
    reveal_strlit("absent");
    reveal_strlit("error");
    reveal_strlit("on");
    reveal_strlit("off");
    assert("absent"@.len() == 6 && "error"@.len() == 5 && "on"@.len() == 2 && "off"@.len() == 3);
    let stands = exists|i: int| 0 <= i < inv.len() && stands_for(plugins, #[trigger] inv[i], key);
    assert forall|i: int| 0 <= i < inv.len() implies (entry(plugins, #[trigger] inv[i])
        == Entry::Broken <==> tells_of_broken_file(plugins, inv[i])) by {
        entries_stand(plugins, inv[i], key);
    }
    if !stands {
        no_row_no_state(plugins, inv, true, key);
        no_row_no_state(plugins, inv, false, key);
        if is_broken(plugins, inv) {
            let i = choose|i: int|
                0 <= i < inv.len() && entry(plugins, #[trigger] inv[i]) == Entry::Broken;
            assert(tells_of_broken_file(plugins, inv[i]));
        }
    } else {
        let i = choose|i: int| 0 <= i < inv.len() && stands_for(plugins, #[trigger] inv[i], key);
        some_row_some_state(plugins, inv, key, i);
        states_are_three(plugins, inv, true, key);
        states_are_three(plugins, inv, false, key);
    }
}

proof fn some_row_some_state(plugins: bool, inv: Seq<ItemView>, key: Seq<char>, i: int)
    requires
        0 <= i < inv.len(),
        stands_for(plugins, inv[i], key),
    ensures
        scoped_state(plugins, inv, inv[i].scope == "project"@, key) is Some,
    decreases inv.len(),
{
    entries_stand(plugins, inv[i], key);
    if i < inv.len() - 1 {
        some_row_some_state(plugins, inv.drop_last(), key, i);
    }
}

proof fn states_are_three(plugins: bool, inv: Seq<ItemView>, project: bool, key: Seq<char>)
    ensures
        scoped_state(plugins, inv, project, key) matches Some(s) ==> s == "error"@ || s == "on"@
            || s == "off"@,
    decreases inv.len(),
{
    if inv.len() > 0 {
        states_are_three(plugins, inv.drop_last(), project, key);
    }
}

proof fn named_keys_hold(plugins: bool, inv: Seq<ItemView>, key: Seq<char>)
    ensures
        named_keys(plugins, inv).contains(key) <==> exists|i: int|
            0 <= i < inv.len() && stands_for(plugins, #[trigger] inv[i], key),
    decreases inv.len(),
{
    if inv.len() > 0 {
        let head = inv.drop_last();
        let a = named_keys(plugins, head);
        let b = named_keys(plugins, inv);
        named_keys_hold(plugins, head, key);
        entries_stand(plugins, inv.last(), key);
        if b.contains(key) {
            let m = choose|m: int| 0 <= m < b.len() && b[m] == key;
            if m < a.len() {
                assert(a[m] == key);
                let i = choose|i: int|
                    0 <= i < head.len() && stands_for(plugins, #[trigger] head[i], key);
                assert(inv[i] == head[i]);
            } else {
                assert(stands_for(plugins, inv[inv.len() - 1], key));
            }
        }
        if exists|i: int| 0 <= i < inv.len() && stands_for(plugins, #[trigger] inv[i], key) {
            let i = choose|i: int|
                0 <= i < inv.len() && stands_for(plugins, #[trigger] inv[i], key);
            if i < head.len() {
                assert(head[i] == inv[i]);
                assert(a.contains(key));
                let m = choose|m: int| 0 <= m < a.len() && a[m] == key;
                assert(b[m] == key);
            } else {
                assert(b[b.len() - 1] == key);
            }
        }
    }
}

/// A plugin or server has a row exactly if a row of some project's inventory stands for it;
/// a row for a server bears its name.
pub proof fn every_plugin_and_server_has_a_row(
    plugins: bool,
    home: HomeFiles,
    projects: Seq<ProjectFiles>,
    key: Seq<char>,
)
    ensures
        ({
            let rows = matrix_rows(home, projects);
            let id = (if plugins {
                "plugin:"@
            } else {
                "mcp:"@
            }) + key;
            (exists|r: int| 0 <= r < rows.len() && (#[trigger] rows[r]).id == id && rows[r].kind
                == (if plugins {
                "plugin"@
            } else {
                "mcp"@
            }) && (plugins || rows[r].name == key)) <==> exists|c: int, i: int|
                0 <= c < projects.len() && 0 <= i < inventory::inventory(
                    home,
                    Some(projects[c]),
                ).len() && stands_for(
                    plugins,
                    #[trigger] inventory::inventory(home, Some(projects[c]))[i],
                    key,
                )
        }),
{
    let invs = inventories(home, projects);
    let rows = matrix_rows(home, projects);
    let keys = seqs::sorted_keys(all_keys(plugins, invs));
    let id = (if plugins {
        "plugin:"@
    } else {
        "mcp:"@
    }) + key;
    let n = rows_of(true, invs).len() as int;
    rows_are_the_union(plugins, invs, key);
    let there = exists|c: int, i: int|
        0 <= c < projects.len() && 0 <= i < inventory::inventory(home, Some(projects[c])).len()
            && stands_for(
            plugins,
            #[trigger] inventory::inventory(home, Some(projects[c]))[i],
            key,
        );
    if there {
        let (c, i) = choose|c: int, i: int|
            0 <= c < projects.len() && 0 <= i < inventory::inventory(home, Some(projects[c])).len()
                && stands_for(
                plugins,
                #[trigger] inventory::inventory(home, Some(projects[c]))[i],
                key,
            );
        assert(invs[c] == inventory::inventory(home, Some(projects[c])));
        assert(stands_for(plugins, invs[c][i], key));
        named_keys_hold(plugins, invs[c], key);
        assert(keys.contains(key));
        let k = choose|k: int| 0 <= k < keys.len() && keys[k] == key;
        let r = if plugins {
            k
        } else {
            n + k
        };
        assert(rows[r] == row_of(plugins, invs, key));
        assert(rows[r].id == id);
    }
    if exists|r: int| 0 <= r < rows.len() && (#[trigger] rows[r]).id == id {
        let r = choose|r: int| 0 <= r < rows.len() && (#[trigger] rows[r]).id == id;
        row_of_id(plugins, home, projects, r, key);
        reveal_strlit("plugin:");
        reveal_strlit("mcp:");
        let k = if r < n {
            r
        } else {
            r - n
        };
        assert(keys[k] == key) by {
            if r < n {
                let x = seqs::sorted_keys(all_keys(true, invs))[r];
                assert(rows[r] == plugin_row_of(invs, x));
                assert(rows[r].id[0] == 'p');
                assert(plugins);
                assert(x =~= rows[r].id.skip(7) && key =~= rows[r].id.skip(7));
            } else {
                let x = seqs::sorted_keys(all_keys(false, invs))[r - n];
                assert(rows[r] == mcp_row_of(invs, x));
                assert(rows[r].id[0] == 'm');
                assert(!plugins) by {
                    if plugins {
                        assert(("plugin:"@ + key)[0] == 'p');
                    }
                }
                assert(x =~= rows[r].id.skip(4) && key =~= rows[r].id.skip(4));
            }
        }
        assert(0 <= k < keys.len()) by {
            assert(rows.len() == n + rows_of(false, invs).len());
            if r < n {
                assert(rows[r].id[0] == 'p');
                assert(plugins) by {
                    if !plugins {
                        assert(("mcp:"@ + key)[0] == 'm');
                    }
                }
            } else {
                assert(rows[r].id[0] == 'm');
                assert(!plugins) by {
                    if plugins {
                        assert(("plugin:"@ + key)[0] == 'p');
                    }
                }
            }
        }
        assert(keys.contains(key));
        let c = choose|c: int|
            0 <= c < invs.len() && named_keys(plugins, #[trigger] invs[c]).contains(key);
        named_keys_hold(plugins, invs[c], key);
        let i = choose|i: int|
            0 <= i < invs[c].len() && stands_for(plugins, #[trigger] invs[c][i], key);
        assert(stands_for(
            plugins,
            inventory::inventory(home, Some(projects[c]))[i],
            key,
        ));
    }
}

/// A column bears the name of the project's directory, and a plugin's row the two parts of its
/// key: the plugin and the marketplace.
pub proof fn columns_and_plugins_bear_their_names(
    dir: Seq<char>,
    name: Seq<char>,
    plugin: Seq<char>,
    market: Seq<char>,
    invs: Seq<Seq<ItemView>>,
)
    requires
        name.len() > 0,
        !name.contains('/'),
        name != "."@,
        name != ".."@,
        !plugin.contains('@'),
    ensures
        column_of(dir + seq!['/'] + name).label == name,
        column_of(dir + seq!['/'] + name).project_path == dir + seq!['/'] + name,
        plugin_row_of(invs, plugin + seq!['@'] + market).name == plugin,
        plugin_row_of(invs, plugin + seq!['@'] + market).detail == Some(market),
        plugin_row_of(invs, plugin + seq!['@'] + market).id == "plugin:"@ + (plugin + seq!['@']
            + market),
{
    paths::base_name_is_the_last_part(dir, name);
    let key = plugin + seq!['@'] + market;
    assert forall|j: int| 0 <= j < plugin.len() implies key[j] != '@' by {
        assert(key[j] == plugin[j]);
        assert(plugin.contains(plugin[j]));
    }
    assert(key[plugin.len() as int] == '@');
    seqs::index_of_is(key, '@', plugin.len() as int);
    assert(key.take(plugin.len() as int) =~= plugin);
    assert(key.skip(plugin.len() as int + 1) =~= market);
}

/// The rows of the plugins stand before those of the servers, and each kind by key: no row
/// stands before one of a smaller key, and no key has two rows.
pub proof fn rows_stand_by_kind_and_key(
    home: HomeFiles,
    projects: Seq<ProjectFiles>,
    i: int,
    j: int,
    a: Seq<char>,
    b: Seq<char>,
)
    requires
        0 <= i < j < matrix_rows(home, projects).len(),
    ensures
        ({
            let rows = matrix_rows(home, projects);
            &&& rows[i].kind == "mcp"@ ==> rows[j].kind == "mcp"@
            &&& rows[i].kind == "mcp"@ ==> seqs::text_le(rows[i].name, rows[j].name) && rows[i].name
                != rows[j].name
            &&& rows[i].id == "plugin:"@ + a && rows[j].id == "plugin:"@ + b ==> seqs::text_le(a, b)
                && a != b
        }),
{
    reveal_strlit("plugin");
    reveal_strlit("mcp");
    reveal_strlit("plugin:");
    reveal_strlit("mcp:");
    let invs = inventories(home, projects);
    let p = seqs::sorted_keys(all_keys(true, invs));
    let m = seqs::sorted_keys(all_keys(false, invs));
    seqs::sorted_keys_sound(all_keys(true, invs));
    seqs::sorted_keys_sound(all_keys(false, invs));
    let rows = matrix_rows(home, projects);
    let n = p.len() as int;
    assert("plugin"@.len() != "mcp"@.len());
    if i < n {
        assert(rows[i] == plugin_row_of(invs, p[i]));
        assert(rows[i].id.skip(7) =~= p[i]);
    } else {
        assert(rows[i] == mcp_row_of(invs, m[i - n]));
    }
    if j < n {
        assert(rows[j] == plugin_row_of(invs, p[j]));
        assert(rows[j].id.skip(7) =~= p[j]);
    } else {
        assert(rows[j] == mcp_row_of(invs, m[j - n]));
        assert(rows[j].id[0] == 'm');
    }
    assert(("plugin:"@ + a).skip(7) =~= a);
    assert(("plugin:"@ + b).skip(7) =~= b);
    assert(("plugin:"@ + b)[0] == 'p');
}

/// A server is described as the first project that knows it describes it.
pub proof fn servers_are_described_by_the_first_that_knows_them(
    invs: Seq<Seq<ItemView>>,
    name: Seq<char>,
    c: int,
    i: int,
)
    requires
        0 <= c < invs.len(),
        0 <= i < invs[c].len(),
        stands_for(false, invs[c][i], name),
        forall|k: int| 0 <= k < i ==> !stands_for(false, #[trigger] invs[c][k], name),
        forall|d: int, k: int|
            0 <= d < c && 0 <= k < invs[d].len() ==> !stands_for(false, #[trigger] invs[d][k], name),
    ensures
        mcp_row_of(invs, name).detail == invs[c][i].detail,
    decreases invs.len(),
{
    if c == 0 {
        first_is_described(invs[0], name, i);
    } else {
        let rest = invs.drop_first();
        assert(rest[c - 1] == invs[c]);
        assert forall|k: int| 0 <= k < invs[0].len() implies !stands_for(
            false,
            #[trigger] invs[0][k],
            name,
        ) by {}
        none_is_described(invs[0], name);
        assert forall|d: int, k: int| 0 <= d < c - 1 && 0 <= k < rest[d].len() implies !stands_for(
            false,
            #[trigger] rest[d][k],
            name,
        ) by {
            assert(rest[d] == invs[d + 1]);
            assert(!stands_for(false, invs[d + 1][k], name));
        }
        servers_are_described_by_the_first_that_knows_them(rest, name, c - 1, i);
        assert(detail_over(invs, name) == detail_over(rest, name));
    }
}

proof fn first_is_described(inv: Seq<ItemView>, name: Seq<char>, i: int)
    requires
        0 <= i < inv.len(),
        stands_for(false, inv[i], name),
        forall|k: int| 0 <= k < i ==> !stands_for(false, #[trigger] inv[k], name),
    ensures
        first_detail(inv, name) == Some(inv[i].detail),
    decreases inv.len(),
{
    if i > 0 {
        let rest = inv.drop_first();
        assert(!stands_for(false, inv[0], name));
        assert forall|k: int| 0 <= k < i - 1 implies !stands_for(false, #[trigger] rest[k], name) by {
            assert(rest[k] == inv[k + 1]);
        }
        first_is_described(rest, name, i - 1);
    }
}

proof fn none_is_described(inv: Seq<ItemView>, name: Seq<char>)
    requires
        forall|k: int| 0 <= k < inv.len() ==> !stands_for(false, #[trigger] inv[k], name),
    ensures
        first_detail(inv, name) is None,
    decreases inv.len(),
{
    if inv.len() > 0 {
        let rest = inv.drop_first();
        assert(!stands_for(false, inv[0], name));
        assert forall|k: int| 0 <= k < rest.len() implies !stands_for(
            false,
            #[trigger] rest[k],
            name,
        ) by {
            assert(rest[k] == inv[k + 1]);
        }
        none_is_described(rest, name);
    }
}

} // verus!

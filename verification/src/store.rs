//! Records as they are stored: what goes into each column.

use vstd::prelude::*;

use crate::bundle;
use crate::bundle::{AppIdentity, AppIdentityView};
use crate::catalog;
use crate::catalog::{catalog_embed_text, seed_capabilities};
use crate::grouping;
use crate::grouping::{WorkspaceItem, WorkspaceItemView};
use crate::order;
use crate::tagger;
use crate::tagger::strings_to_json;
use crate::text;
use crate::text::holds;
use crate::types::{WorkspaceState, WorkspaceStateView};

verus! {

/// A stored workspace. `payload_json` is authoritative; the other fields are
/// denormalized copies for browsing without decoding it.
#[derive(Debug, PartialEq)]
pub struct WorkspaceRecord {
    pub workspace_id: String,
    pub captured_at_unix_ms: i64,
    pub summary: String,
    pub tags_json: String,
    pub payload_json: String,
}

/// What a `WorkspaceRecord` says: its texts as character sequences, its lists as sequences.
#[verifier::ext_equal]
pub struct WorkspaceRecordView {
    pub workspace_id: Seq<char>,
    pub captured_at_unix_ms: i64,
    pub summary: Seq<char>,
    pub tags_json: Seq<char>,
    pub payload_json: Seq<char>,
}

impl DeepView for WorkspaceRecord {
    type V = WorkspaceRecordView;

    open spec fn deep_view(&self) -> WorkspaceRecordView {
        WorkspaceRecordView {
            workspace_id: self.workspace_id.deep_view(),
            captured_at_unix_ms: self.captured_at_unix_ms,
            summary: self.summary.deep_view(),
            tags_json: self.tags_json.deep_view(),
            payload_json: self.payload_json.deep_view(),
        }
    }
}

impl Clone for WorkspaceRecord {
    fn clone(&self) -> (r: Self)
        ensures
            r.deep_view() == self.deep_view(),
    {
        WorkspaceRecord {
            workspace_id: self.workspace_id.clone(),
            captured_at_unix_ms: self.captured_at_unix_ms,
            summary: self.summary.clone(),
            tags_json: self.tags_json.clone(),
            payload_json: self.payload_json.clone(),
        }
    }
}

/// One searchable item (a browser tab or a whole window of another kind) inside
/// a stored workspace. No tab index means the whole node.
#[derive(Debug, PartialEq)]
pub struct ItemRecord {
    pub workspace_id: String,
    pub node_id: String,
    pub tab_index: Option<i64>,
    pub kind: String,
    pub dedup_key: String,
    pub title: String,
    pub captured_at_unix_ms: i64,
}

/// What an `ItemRecord` says: its texts as character sequences, its lists as sequences.
#[verifier::ext_equal]
pub struct ItemRecordView {
    pub workspace_id: Seq<char>,
    pub node_id: Seq<char>,
    pub tab_index: Option<i64>,
    pub kind: Seq<char>,
    pub dedup_key: Seq<char>,
    pub title: Seq<char>,
    pub captured_at_unix_ms: i64,
}

impl DeepView for ItemRecord {
    type V = ItemRecordView;

    open spec fn deep_view(&self) -> ItemRecordView {
        ItemRecordView {
            workspace_id: self.workspace_id.deep_view(),
            node_id: self.node_id.deep_view(),
            tab_index: self.tab_index.deep_view(),
            kind: self.kind.deep_view(),
            dedup_key: self.dedup_key.deep_view(),
            title: self.title.deep_view(),
            captured_at_unix_ms: self.captured_at_unix_ms,
        }
    }
}

impl Clone for ItemRecord {
    fn clone(&self) -> (r: Self)
        ensures
            r.deep_view() == self.deep_view(),
    {
        ItemRecord {
            workspace_id: self.workspace_id.clone(),
            node_id: self.node_id.clone(),
            tab_index: self.tab_index,
            kind: self.kind.clone(),
            dedup_key: self.dedup_key.clone(),
            title: self.title.clone(),
            captured_at_unix_ms: self.captured_at_unix_ms,
        }
    }
}

/// One installed app in the launch catalog.
#[derive(Debug, PartialEq)]
pub struct AppCatalogRecord {
    pub bundle_id: String,
    pub app_name: String,
    pub capabilities_json: String,
    pub embed_text: String,
}

/// What an `AppCatalogRecord` says: its texts as character sequences, its lists as sequences.
#[verifier::ext_equal]
pub struct AppCatalogRecordView {
    pub bundle_id: Seq<char>,
    pub app_name: Seq<char>,
    pub capabilities_json: Seq<char>,
    pub embed_text: Seq<char>,
}

impl DeepView for AppCatalogRecord {
    type V = AppCatalogRecordView;

    open spec fn deep_view(&self) -> AppCatalogRecordView {
        AppCatalogRecordView {
            bundle_id: self.bundle_id.deep_view(),
            app_name: self.app_name.deep_view(),
            capabilities_json: self.capabilities_json.deep_view(),
            embed_text: self.embed_text.deep_view(),
        }
    }
}

impl Clone for AppCatalogRecord {
    fn clone(&self) -> (r: Self)
        ensures
            r.deep_view() == self.deep_view(),
    {
        AppCatalogRecord {
            bundle_id: self.bundle_id.clone(),
            app_name: self.app_name.clone(),
            capabilities_json: self.capabilities_json.clone(),
            embed_text: self.embed_text.clone(),
        }
    }
}

/// The record of a workspace, given its encoded payload.
pub open spec fn record_of(
    workspace_id: Seq<char>,
    captured_at_unix_ms: i64,
    w: WorkspaceStateView,
    payload_json: Seq<char>,
) -> WorkspaceRecordView {
    WorkspaceRecordView {
        workspace_id,
        captured_at_unix_ms,
        summary: w.summary,
        tags_json: tagger::json_list(w.tags),
        payload_json,
    }
}

/// Puts together the record of a workspace; `payload_json` is the workspace
/// itself, encoded.
pub fn workspace_record(
    workspace_id: &str,
    captured_at_unix_ms: i64,
    w: &WorkspaceState,
    payload_json: String,
) -> (r: WorkspaceRecord)
    ensures
        r.deep_view() == record_of(
            workspace_id@,
            captured_at_unix_ms,
            w.deep_view(),
            payload_json@,
        ),
        tagger::json_strings(r.tags_json@) == Some(w.deep_view().tags),
{
    WorkspaceRecord {
        workspace_id: workspace_id.to_owned(),
        captured_at_unix_ms,
        summary: w.summary.clone(),
        tags_json: strings_to_json(&w.tags),
        payload_json,
    }
}

/// The record of one item of a workspace.
pub open spec fn item_record_of(
    workspace_id: Seq<char>,
    captured_at_unix_ms: i64,
    item: WorkspaceItemView,
) -> ItemRecordView {
    ItemRecordView {
        workspace_id,
        node_id: item.item_ref.node_id,
        tab_index: match item.item_ref.tab_index {
            Some(i) => Some(i as i64),
            None => None,
        },
        kind: grouping::kind_name(item.kind),
        dedup_key: item.dedup_key,
        title: item.title,
        captured_at_unix_ms,
    }
}

/// Puts together the record of one item of a workspace.
pub fn item_record(workspace_id: &str, captured_at_unix_ms: i64, item: &WorkspaceItem) -> (r:
    ItemRecord)
    ensures
        r.deep_view() == item_record_of(workspace_id@, captured_at_unix_ms, item.deep_view()),
{
    let tab_index: Option<i64> = match item.item_ref.tab_index {
        Some(i) => Some(i as i64),
        None => None,
    };
    ItemRecord {
        workspace_id: workspace_id.to_owned(),
        node_id: item.item_ref.node_id.clone(),
        tab_index,
        kind: item.kind.as_str().to_owned(),
        dedup_key: item.dedup_key.clone(),
        title: item.title.clone(),
        captured_at_unix_ms,
    }
}

/// Puts together the records of all items of a workspace, in order.
pub fn item_records(workspace_id: &str, captured_at_unix_ms: i64, items: &Vec<WorkspaceItem>) -> (r:
    Vec<ItemRecord>)
    ensures
        r.deep_view() == items.deep_view().map_values(
            |i: WorkspaceItemView| item_record_of(workspace_id@, captured_at_unix_ms, i),
        ),
{
    let ghost all = items.deep_view();
    let ghost f = |i: WorkspaceItemView| item_record_of(workspace_id@, captured_at_unix_ms, i);
    let mut out: Vec<ItemRecord> = Vec::new();
    let mut i: usize = 0;
    assert(out.deep_view() =~= all.take(0).map_values(f));
    while i < items.len()
        invariant
            i <= items.len(),
            all == items.deep_view(),
            f == (|i: WorkspaceItemView|
                item_record_of(workspace_id@, captured_at_unix_ms, i)),
            out.deep_view() == all.take(i as int).map_values(f),
        decreases items.len() - i,
    {
        let ghost before = out.deep_view();
        out.push(item_record(workspace_id, captured_at_unix_ms, &items[i]));
        assert(out.deep_view() =~= before.push(f(all[i as int])));
        assert(out.deep_view() =~= all.take(i + 1).map_values(f));
        i = i + 1;
    }
    assert(all.take(all.len() as int) =~= all);
    out
}

/// The catalog record of an installed app.
pub open spec fn catalog_record_of(app: AppIdentityView) -> AppCatalogRecordView {
    AppCatalogRecordView {
        bundle_id: app.bundle_id,
        app_name: app.app_name,
        capabilities_json: tagger::json_list(catalog::seed(app.bundle_id)),
        embed_text: catalog::embed_text(app.app_name, catalog::seed(app.bundle_id)),
    }
}

/// Puts together the catalog record of an installed app: its seed capabilities
/// and the text to embed, both fixed by its id and name.
pub fn catalog_record(app: &AppIdentity) -> (r: AppCatalogRecord)
    ensures
        r.deep_view() == catalog_record_of(app.deep_view()),
        tagger::json_strings(r.capabilities_json@) == Some(catalog::seed(app.bundle_id@)),
{
    let seeds = seed_capabilities(app.bundle_id.as_str());
    let ghost all = seeds.deep_view();
    let mut capabilities: Vec<String> = Vec::new();
    let mut i: usize = 0;
    while i < seeds.len()
        invariant
            i <= seeds.len(),
            all == seeds.deep_view(),
            capabilities.deep_view() == all.take(i as int),
        decreases seeds.len() - i,
    {
        let ghost before = capabilities.deep_view();
        capabilities.push(seeds[i].to_owned());
        assert(capabilities.deep_view() =~= before.push(all[i as int]));
        assert(capabilities.deep_view() =~= all.take(i + 1));
        i = i + 1;
    }
    assert(all.take(all.len() as int) =~= all);
    AppCatalogRecord {
        bundle_id: app.bundle_id.clone(),
        app_name: app.app_name.clone(),
        capabilities_json: strings_to_json(&capabilities),
        embed_text: catalog_embed_text(app.app_name.as_str(), &capabilities),
    }
}

/// The stored ids that no installed app has any more.
pub open spec fn gone_of(stored: Seq<Seq<char>>, installed: Seq<AppIdentityView>) -> Seq<
    Seq<char>,
> {
    stored.filter(|id: Seq<char>| !bundle::bundle_ids_of(installed).contains(id))
}

/// The installed apps that are not stored yet.
pub open spec fn fresh_of(stored: Seq<Seq<char>>, installed: Seq<AppIdentityView>) -> Seq<
    AppIdentityView,
> {
    installed.filter(|a: AppIdentityView| !stored.contains(a.bundle_id))
}

fn installed_ids(installed: &Vec<AppIdentity>) -> (r: Vec<String>)
    ensures
        r.deep_view() == bundle::bundle_ids_of(installed.deep_view()),
{
    let ghost all = bundle::bundle_ids_of(installed.deep_view());
    let mut ids: Vec<String> = Vec::new();
    let mut i: usize = 0;
    while i < installed.len()
        invariant
            i <= installed.len(),
            all == bundle::bundle_ids_of(installed.deep_view()),
            ids.deep_view() == all.take(i as int),
        decreases installed.len() - i,
    {
        let ghost before = ids.deep_view();
        ids.push(installed[i].bundle_id.clone());
        assert(all[i as int] == installed[i as int].bundle_id@);
        assert(ids.deep_view() =~= before.push(all[i as int]));
        assert(ids.deep_view() =~= all.take(i + 1));
        i = i + 1;
    }
    assert(all.take(all.len() as int) =~= all);
    ids
}

/// The catalog entries to drop: apps that were uninstalled.
pub fn gone_entries(stored: &Vec<String>, installed: &Vec<AppIdentity>) -> (r: Vec<String>)
    ensures
        r.deep_view() == gone_of(stored.deep_view(), installed.deep_view()),
{
    let ids = installed_ids(installed);
    let ghost all = stored.deep_view();
    let ghost keep = |id: Seq<char>|
        !bundle::bundle_ids_of(installed.deep_view()).contains(id);
    let mut out: Vec<String> = Vec::new();
    let mut i: usize = 0;
    reveal(Seq::filter);
    assert(out.deep_view() =~= all.take(0).filter(keep));
    while i < stored.len()
        invariant
            i <= stored.len(),
            all == stored.deep_view(),
            ids.deep_view() == bundle::bundle_ids_of(installed.deep_view()),
            keep == (|id: Seq<char>|
                !bundle::bundle_ids_of(installed.deep_view()).contains(id)),
            out.deep_view() == all.take(i as int).filter(keep),
        decreases stored.len() - i,
    {
        let ghost before = out.deep_view();
        proof {
            reveal(Seq::filter);
            text::lemma_take_step(all, i as int);
        }
        if !holds(&ids, stored[i].as_str()) {
            out.push(stored[i].clone());
            assert(out.deep_view() =~= before.push(all[i as int]));
        }
        i = i + 1;
    }
    assert(all.take(all.len() as int) =~= all);
    out
}

/// The apps to embed: those newly installed. Embeddings are fixed by name and
/// seed capabilities, so unchanged apps are skipped.
pub fn fresh_apps(stored: &Vec<String>, installed: &Vec<AppIdentity>) -> (r: Vec<AppIdentity>)
    ensures
        r.deep_view() == fresh_of(stored.deep_view(), installed.deep_view()),
{
    let ghost all = installed.deep_view();
    let ghost known = stored.deep_view();
    let ghost keep = |a: AppIdentityView| !known.contains(a.bundle_id);
    let mut out: Vec<AppIdentity> = Vec::new();
    let mut i: usize = 0;
    reveal(Seq::filter);
    assert(out.deep_view() =~= all.take(0).filter(keep));
    while i < installed.len()
        invariant
            i <= installed.len(),
            all == installed.deep_view(),
            known == stored.deep_view(),
            keep == (|a: AppIdentityView| !known.contains(a.bundle_id)),
            out.deep_view() == all.take(i as int).filter(keep),
        decreases installed.len() - i,
    {
        let ghost before = out.deep_view();
        proof {
            reveal(Seq::filter);
            text::lemma_take_step(all, i as int);
        }
        if !holds(stored, installed[i].bundle_id.as_str()) {
            out.push(installed[i].clone());
            assert(out.deep_view() =~= before.push(all[i as int]));
        }
        i = i + 1;
    }
    assert(all.take(all.len() as int) =~= all);
    out
}

/// After a sync the catalog holds exactly the installed apps: an id is stored
/// and not dropped, or newly added, exactly when an installed app has it.
pub proof fn sync_matches_installed(
    stored: Seq<Seq<char>>,
    installed: Seq<AppIdentityView>,
    id: Seq<char>,
)
    ensures
        (stored.contains(id) && !gone_of(stored, installed).contains(id))
            || bundle::bundle_ids_of(fresh_of(stored, installed)).contains(id)
            <==> bundle::bundle_ids_of(installed).contains(id),
{
    broadcast use vstd::seq_lib::group_filter_ensures;

    let ids = bundle::bundle_ids_of(installed);
    let dropped = |id: Seq<char>| !bundle::bundle_ids_of(installed).contains(id);
    let added = |a: AppIdentityView| !stored.contains(a.bundle_id);
    let gone = gone_of(stored, installed);
    let fresh = fresh_of(stored, installed);
    order::lemma_filtered(stored, dropped);
    order::lemma_filtered(installed, added);
    if stored.contains(id) && !gone.contains(id) && !ids.contains(id) {
        let i = choose|i: int| 0 <= i < stored.len() && stored[i] == id;
        assert(dropped(stored[i]));
        assert(gone.contains(stored[i]));
    }
    let fresh_ids = bundle::bundle_ids_of(fresh);
    if fresh_ids.contains(id) {
        let i = choose|i: int| 0 <= i < fresh_ids.len() && fresh_ids[i] == id;
        assert(fresh_ids[i] == fresh[i].bundle_id);
        assert(installed.contains(fresh[i]));
        let k = choose|k: int| 0 <= k < installed.len() && installed[k] == fresh[i];
        assert(ids[k] == id);
    }
    if ids.contains(id) {
        if stored.contains(id) {
            if gone.contains(id) {
                let g = choose|g: int| 0 <= g < gone.len() && gone[g] == id;
                assert(dropped(gone[g]));
            }
        } else {
            let k = choose|k: int| 0 <= k < ids.len() && ids[k] == id;
            assert(ids[k] == installed[k].bundle_id);
            assert(added(installed[k]));
            assert(fresh.contains(installed[k]));
            let f = choose|f: int| 0 <= f < fresh.len() && fresh[f] == installed[k];
            assert(fresh_ids[f] == id);
        }
    }
}

/// When a stored workspace was captured.
#[derive(Debug, PartialEq)]
pub struct StoredSnapshot {
    pub workspace_id: String,
    pub captured_at_unix_ms: i64,
}

/// What a `StoredSnapshot` says: its texts as character sequences, its lists as sequences.
#[verifier::ext_equal]
pub struct StoredSnapshotView {
    pub workspace_id: Seq<char>,
    pub captured_at_unix_ms: i64,
}

impl DeepView for StoredSnapshot {
    type V = StoredSnapshotView;

    open spec fn deep_view(&self) -> StoredSnapshotView {
        StoredSnapshotView {
            workspace_id: self.workspace_id.deep_view(),
            captured_at_unix_ms: self.captured_at_unix_ms,
        }
    }
}

impl Clone for StoredSnapshot {
    fn clone(&self) -> (r: Self)
        ensures
            r.deep_view() == self.deep_view(),
    {
        StoredSnapshot {
            workspace_id: self.workspace_id.clone(),
            captured_at_unix_ms: self.captured_at_unix_ms,
        }
    }
}

/// Which of two snapshots is the more recent.
pub open spec fn newer() -> spec_fn(StoredSnapshotView, StoredSnapshotView) -> bool {
    |a: StoredSnapshotView, b: StoredSnapshotView| a.captured_at_unix_ms > b.captured_at_unix_ms
}

/// Snapshots by recency, the most recent first.
pub open spec fn by_recency(snapshots: Seq<StoredSnapshotView>) -> Seq<StoredSnapshotView> {
    order::ordered(snapshots, newer())
}

/// The ids of snapshots.
pub open spec fn snapshot_ids(snapshots: Seq<StoredSnapshotView>) -> Seq<Seq<char>> {
    snapshots.map_values(|s: StoredSnapshotView| s.workspace_id)
}

/// The test for a snapshot from before a time.
pub open spec fn is_older(cutoff_unix_ms: i64) -> spec_fn(StoredSnapshotView) -> bool {
    |s: StoredSnapshotView| s.captured_at_unix_ms < cutoff_unix_ms
}

/// The snapshots captured before a time, in order.
pub open spec fn older_than(snapshots: Seq<StoredSnapshotView>, cutoff_unix_ms: i64) -> Seq<
    StoredSnapshotView,
> {
    snapshots.filter(is_older(cutoff_unix_ms))
}

/// All snapshots but the `keep` most recent ones, by recency.
pub open spec fn beyond_latest(snapshots: Seq<StoredSnapshotView>, keep: nat) -> Seq<
    StoredSnapshotView,
> {
    if keep < snapshots.len() {
        by_recency(snapshots).skip(keep as int)
    } else {
        Seq::empty()
    }
}

fn sort_by_recency(snapshots: &Vec<StoredSnapshot>) -> (r: Vec<StoredSnapshot>)
    ensures
        r.deep_view() == by_recency(snapshots.deep_view()),
{
    let ghost all = snapshots.deep_view();
    let mut out: Vec<StoredSnapshot> = Vec::new();
    let mut i: usize = 0;
    assert(out.deep_view() =~= order::ordered(all.take(0), newer()));
    while i < snapshots.len()
        invariant
            i <= snapshots.len(),
            all == snapshots.deep_view(),
            out.deep_view() == order::ordered(all.take(i as int), newer()),
        decreases snapshots.len() - i,
    {
        let ghost now = out.deep_view();
        let ghost x = all[i as int];
        let mut k: usize = out.len();
        while k > 0 && snapshots[i].captured_at_unix_ms > out[k - 1].captured_at_unix_ms
            invariant
                i < snapshots.len(),
                k <= out.len(),
                now == out.deep_view(),
                all == snapshots.deep_view(),
                x == all[i as int],
                order::slot(now, x, newer(), now.len() as int) == order::slot(
                    now,
                    x,
                    newer(),
                    k as int,
                ),
            decreases k,
        {
            k = k - 1;
        }
        out.insert(k, snapshots[i].clone());
        proof {
            text::lemma_take_step(all, i as int);
        }
        assert(out.deep_view() =~= now.insert(k as int, x));
        i = i + 1;
    }
    assert(all.take(all.len() as int) =~= all);
    out
}

/// The snapshots that a prune by age drops: those captured before the cutoff.
pub fn stale_by_age(snapshots: &Vec<StoredSnapshot>, cutoff_unix_ms: i64) -> (r: Vec<String>)
    ensures
        r.deep_view() == snapshot_ids(older_than(snapshots.deep_view(), cutoff_unix_ms)),
{
    let ghost all = snapshots.deep_view();
    let ghost stale = is_older(cutoff_unix_ms);
    let mut out: Vec<String> = Vec::new();
    let mut i: usize = 0;
    reveal(Seq::filter);
    assert(out.deep_view() =~= snapshot_ids(all.take(0).filter(stale)));
    while i < snapshots.len()
        invariant
            i <= snapshots.len(),
            all == snapshots.deep_view(),
            stale == is_older(cutoff_unix_ms),
            out.deep_view() == snapshot_ids(all.take(i as int).filter(stale)),
        decreases snapshots.len() - i,
    {
        let ghost before = out.deep_view();
        let ghost done = all.take(i as int).filter(stale);
        let ghost x = all[i as int];
        proof {
            reveal(Seq::filter);
            text::lemma_take_step(all, i as int);
        }
        if snapshots[i].captured_at_unix_ms < cutoff_unix_ms {
            out.push(snapshots[i].workspace_id.clone());
            assert(out.deep_view() =~= before.push(x.workspace_id));
            assert(snapshot_ids(done.push(x)) =~= before.push(x.workspace_id));
        }
        i = i + 1;
    }
    assert(all.take(all.len() as int) =~= all);
    out
}

/// The snapshots that a prune by count drops: all but the most recent ones.
pub fn stale_by_count(snapshots: &Vec<StoredSnapshot>, keep: usize) -> (r: Vec<String>)
    ensures
        r.deep_view() == snapshot_ids(beyond_latest(snapshots.deep_view(), keep as nat)),
{
    let sorted = sort_by_recency(snapshots);
    let ghost all = sorted.deep_view();
    proof {
        order::lemma_ordered_permutes(snapshots.deep_view(), newer());
    }
    let mut out: Vec<String> = Vec::new();
    if keep >= sorted.len() {
        assert(out.deep_view() =~= snapshot_ids(beyond_latest(snapshots.deep_view(), keep as nat)));
        return out;
    }
    let mut i: usize = keep;
    assert(out.deep_view() =~= snapshot_ids(all.subrange(keep as int, keep as int)));
    while i < sorted.len()
        invariant
            keep <= i <= sorted.len(),
            all == sorted.deep_view(),
            out.deep_view() == snapshot_ids(all.subrange(keep as int, i as int)),
        decreases sorted.len() - i,
    {
        let ghost before = out.deep_view();
        out.push(sorted[i].workspace_id.clone());
        assert(out.deep_view() =~= before.push(all[i as int].workspace_id));
        assert(out.deep_view() =~= snapshot_ids(all.subrange(keep as int, i + 1)));
        i = i + 1;
    }
    assert(all.subrange(keep as int, all.len() as int) =~= all.skip(keep as int));
    out
}

/// The snapshots without items yet, the most recent first.
pub fn missing_items(snapshots: &Vec<StoredSnapshot>, indexed: &Vec<String>) -> (r: Vec<String>)
    ensures
        r.deep_view() == snapshot_ids(by_recency(snapshots.deep_view())).filter(
            |id: Seq<char>| !indexed.deep_view().contains(id),
        ),
{
    let sorted = sort_by_recency(snapshots);
    let ghost all = snapshot_ids(sorted.deep_view());
    let ghost keep = |id: Seq<char>| !indexed.deep_view().contains(id);
    let mut out: Vec<String> = Vec::new();
    let mut i: usize = 0;
    reveal(Seq::filter);
    assert(out.deep_view() =~= all.take(0).filter(keep));
    while i < sorted.len()
        invariant
            i <= sorted.len(),
            all == snapshot_ids(sorted.deep_view()),
            keep == (|id: Seq<char>| !indexed.deep_view().contains(id)),
            out.deep_view() == all.take(i as int).filter(keep),
        decreases sorted.len() - i,
    {
        let ghost before = out.deep_view();
        proof {
            reveal(Seq::filter);
            text::lemma_take_step(all, i as int);
            assert(all[i as int] == sorted[i as int].workspace_id@);
        }
        if !holds(indexed, sorted[i].workspace_id.as_str()) {
            out.push(sorted[i].workspace_id.clone());
            assert(out.deep_view() =~= before.push(all[i as int]));
        }
        i = i + 1;
    }
    assert(all.take(all.len() as int) =~= all);
    out
}

/// The `keep` most recent snapshots, by recency.
pub open spec fn latest(snapshots: Seq<StoredSnapshotView>, keep: nat) -> Seq<StoredSnapshotView> {
    text::at_most(by_recency(snapshots), keep as int)
}

/// What is left of the snapshots once those with certain ids are dropped.
pub open spec fn left_of(snapshots: Seq<StoredSnapshotView>, dropped: Seq<Seq<char>>) -> Seq<
    StoredSnapshotView,
> {
    snapshots.filter(|s: StoredSnapshotView| !dropped.contains(s.workspace_id))
}

/// Whether no two snapshots share an id.
pub open spec fn is_keyed(snapshots: Seq<StoredSnapshotView>) -> bool {
    forall|i: int, j: int|
        0 <= i < j < snapshots.len() ==> (#[trigger] snapshots[i]).workspace_id != (
        #[trigger] snapshots[j]).workspace_id
}

/// A prune by count splits the snapshots in two: the most recent ones, as many
/// as asked for where there are that many, and the rest, none of which was
/// captured after one of those.
pub proof fn pruning_keeps_the_latest(snapshots: Seq<StoredSnapshotView>, keep: nat)
    ensures
        latest(snapshots, keep).len() == if keep < snapshots.len() {
            keep
        } else {
            snapshots.len()
        },
        beyond_latest(snapshots, keep).len() == if keep < snapshots.len() {
            snapshots.len() - keep
        } else {
            0
        },
        (latest(snapshots, keep) + beyond_latest(snapshots, keep)).to_multiset()
            == snapshots.to_multiset(),
        forall|i: int, j: int|
            0 <= i < latest(snapshots, keep).len() && 0 <= j < beyond_latest(snapshots, keep).len()
                ==> (#[trigger] latest(snapshots, keep)[i]).captured_at_unix_ms >= (
            #[trigger] beyond_latest(snapshots, keep)[j]).captured_at_unix_ms,
{
    order::lemma_ordered_permutes(snapshots, newer());
    order::lemma_ordered_is_ordered(snapshots, newer(), |s: StoredSnapshotView| true);
    let all = by_recency(snapshots);
    let kept = latest(snapshots, keep);
    let rest = beyond_latest(snapshots, keep);
    assert(kept + rest =~= all);
    assert forall|i: int, j: int| 0 <= i < kept.len() && 0 <= j < rest.len() implies (
    #[trigger] kept[i]).captured_at_unix_ms >= (#[trigger] rest[j]).captured_at_unix_ms by {
        assert(kept[i] == all[i] && rest[j] == all[keep + j]);
        assert(!newer()(all[keep + j], all[i]));
    }
}

/// A snapshot is dropped by a prune by count exactly when it is none of the most
/// recent ones: where ids don't repeat, dropping the ids leaves those, and only
/// those, unchanged.
pub proof fn pruning_leaves_the_latest(snapshots: Seq<StoredSnapshotView>, keep: nat)
    requires
        is_keyed(snapshots),
    ensures
        left_of(snapshots, snapshot_ids(beyond_latest(snapshots, keep))).to_multiset() == latest(
            snapshots,
            keep,
        ).to_multiset(),
        left_of(snapshots, snapshot_ids(beyond_latest(snapshots, keep))).len() == latest(
            snapshots,
            keep,
        ).len(),
{
    broadcast use vstd::seq_lib::group_to_multiset_ensures;

    let all = by_recency(snapshots);
    let kept = latest(snapshots, keep);
    let rest = beyond_latest(snapshots, keep);
    let gone = snapshot_ids(rest);
    let stays = |s: StoredSnapshotView| !gone.contains(s.workspace_id);
    pruning_keeps_the_latest(snapshots, keep);
    order::lemma_ordered_permutes(snapshots, newer());
    assert(kept + rest =~= all);
    lemma_keyed_permutation(snapshots, all);
    assert forall|i: int| 0 <= i < kept.len() implies stays(#[trigger] kept[i]) by {
        if gone.contains(kept[i].workspace_id) {
            let j = choose|j: int| 0 <= j < gone.len() && gone[j] == kept[i].workspace_id;
            assert(gone[j] == rest[j].workspace_id);
            assert(all[i] == kept[i] && all[kept.len() + j] == rest[j]);
        }
    }
    assert forall|j: int| 0 <= j < rest.len() implies !stays(#[trigger] rest[j]) by {
        assert(gone[j] == rest[j].workspace_id);
    }
    order::lemma_filter_all(kept, stays);
    order::lemma_filter_none(rest, stays);
    Seq::filter_distributes_over_add(kept, rest, stays);
    assert(kept + Seq::<StoredSnapshotView>::empty() =~= kept);
    order::lemma_filter_permuted(snapshots, all, stays);
}

proof fn lemma_keyed_permutation(a: Seq<StoredSnapshotView>, b: Seq<StoredSnapshotView>)
    requires
        is_keyed(a),
        a.to_multiset() == b.to_multiset(),
    ensures
        is_keyed(b),
{
    broadcast use vstd::seq_lib::group_to_multiset_ensures;

    assert(a.no_duplicates()) by {
        assert forall|i: int, j: int| 0 <= i < a.len() && 0 <= j < a.len() && i != j implies a[i]
            != a[j] by {
            if i < j {
                assert(a[i].workspace_id != a[j].workspace_id);
            } else {
                assert(a[j].workspace_id != a[i].workspace_id);
            }
        }
    }
    a.lemma_multiset_has_no_duplicates();
    b.lemma_multiset_has_no_duplicates_conv();
    assert forall|i: int, j: int| 0 <= i < j < b.len() implies (
    #[trigger] b[i]).workspace_id != (#[trigger] b[j]).workspace_id by {
        if b[i].workspace_id == b[j].workspace_id {
            assert(a.to_multiset().count(b[i]) > 0 && a.to_multiset().count(b[j]) > 0) by {
                assert(b.contains(b[i]) && b.contains(b[j]));
            }
            assert(a.contains(b[i]) && a.contains(b[j]));
            let x = choose|x: int| 0 <= x < a.len() && a[x] == b[i];
            let y = choose|y: int| 0 <= y < a.len() && a[y] == b[j];
            assert(x == y) by {
                if x < y {
                    assert(a[x].workspace_id != a[y].workspace_id);
                } else if y < x {
                    assert(a[y].workspace_id != a[x].workspace_id);
                }
            }
            assert(b[i] == b[j]);
        }
    }
}

/// Pruning again with the same number drops none, whether what is left is
/// listed by recency or as it was stored.
pub proof fn pruning_again_drops_none(snapshots: Seq<StoredSnapshotView>, keep: nat)
    ensures
        beyond_latest(latest(snapshots, keep), keep).len() == 0,
        is_keyed(snapshots) ==> beyond_latest(
            left_of(snapshots, snapshot_ids(beyond_latest(snapshots, keep))),
            keep,
        ).len() == 0,
{
    pruning_keeps_the_latest(snapshots, keep);
    if is_keyed(snapshots) {
        pruning_leaves_the_latest(snapshots, keep);
    }
}

/// Pruning again with the same cutoff drops none.
pub proof fn pruning_by_age_again_drops_none(
    snapshots: Seq<StoredSnapshotView>,
    cutoff_unix_ms: i64,
)
    ensures
        older_than(
            left_of(snapshots, snapshot_ids(older_than(snapshots, cutoff_unix_ms))),
            cutoff_unix_ms,
        ).len() == 0,
{
    let old_ones = older_than(snapshots, cutoff_unix_ms);
    let gone = snapshot_ids(old_ones);
    let stays = |s: StoredSnapshotView| !gone.contains(s.workspace_id);
    let left = left_of(snapshots, gone);
    order::lemma_filtered(snapshots, stays);
    order::lemma_filtered(left, is_older(cutoff_unix_ms));
    let again = older_than(left, cutoff_unix_ms);
    if again.len() > 0 {
        let s = again[0];
        assert(left.contains(s) && is_older(cutoff_unix_ms)(s));
        let i = choose|i: int| 0 <= i < left.len() && left[i] == s;
        assert(stays(left[i]) && snapshots.contains(left[i]));
        pruning_by_age_is_exact(snapshots, cutoff_unix_ms, s);
        let j = choose|j: int| 0 <= j < old_ones.len() && old_ones[j] == s;
        assert(gone[j] == s.workspace_id);
    }
}

/// A prune by age drops a snapshot exactly when it was captured before the
/// cutoff.
pub proof fn pruning_by_age_is_exact(
    snapshots: Seq<StoredSnapshotView>,
    cutoff_unix_ms: i64,
    s: StoredSnapshotView,
)
    ensures
        older_than(snapshots, cutoff_unix_ms).contains(s) <==> snapshots.contains(s)
            && s.captured_at_unix_ms < cutoff_unix_ms,
{
    broadcast use vstd::seq_lib::group_filter_ensures;

    let stale = is_older(cutoff_unix_ms);
    order::lemma_filtered(snapshots, stale);
    if snapshots.contains(s) && stale(s) {
        let i = choose|i: int| 0 <= i < snapshots.len() && snapshots[i] == s;
        assert(snapshots.filter(stale).contains(snapshots[i]));
    }
}

/// Snapshots come latest first; of the same time they stay as they were stored.
/// None is lost, added or changed.
pub proof fn snapshots_come_latest_first(snapshots: Seq<StoredSnapshotView>)
    ensures
        by_recency(snapshots).to_multiset() == snapshots.to_multiset(),
        by_recency(snapshots).len() == snapshots.len(),
        forall|i: int, j: int|
            0 <= i < j < snapshots.len() ==> (#[trigger] by_recency(
                snapshots,
            )[i]).captured_at_unix_ms >= (#[trigger] by_recency(snapshots)[j]).captured_at_unix_ms,
        (forall|i: int, j: int|
            0 <= i < j < snapshots.len() ==> (#[trigger] snapshots[i]).captured_at_unix_ms >= (
            #[trigger] snapshots[j]).captured_at_unix_ms) ==> by_recency(snapshots) == snapshots,
{
    let all = by_recency(snapshots);
    order::lemma_ordered_permutes(snapshots, newer());
    order::lemma_ordered_is_ordered(snapshots, newer(), |s: StoredSnapshotView| true);
    assert forall|i: int, j: int| 0 <= i < j < snapshots.len() implies (
    #[trigger] all[i]).captured_at_unix_ms >= (#[trigger] all[j]).captured_at_unix_ms by {
        assert(!newer()(all[j], all[i]));
    }
    if forall|i: int, j: int|
        0 <= i < j < snapshots.len() ==> (#[trigger] snapshots[i]).captured_at_unix_ms >= (
        #[trigger] snapshots[j]).captured_at_unix_ms {
        assert forall|i: int, j: int| 0 <= i < j < snapshots.len() implies !newer()(
            #[trigger] snapshots[j],
            #[trigger] snapshots[i],
        ) by {
            assert(snapshots[i].captured_at_unix_ms >= snapshots[j].captured_at_unix_ms);
        }
        order::lemma_ordered_stays(snapshots, newer());
    }
}

/// Pruning by age drops what was captured before the time given, in stored order,
/// and nothing else.
pub proof fn pruning_by_age_goes_row_by_row(
    snapshots: Seq<StoredSnapshotView>,
    s: StoredSnapshotView,
    cutoff_unix_ms: i64,
)
    ensures
        snapshot_ids(older_than(Seq::empty(), cutoff_unix_ms)).len() == 0,
        snapshot_ids(older_than(snapshots.push(s), cutoff_unix_ms)) == if s.captured_at_unix_ms
            < cutoff_unix_ms {
            snapshot_ids(older_than(snapshots, cutoff_unix_ms)).push(s.workspace_id)
        } else {
            snapshot_ids(older_than(snapshots, cutoff_unix_ms))
        },
{
    reveal(Seq::filter);
    assert(snapshots.push(s).drop_last() =~= snapshots);
    assert(snapshot_ids(older_than(snapshots.push(s), cutoff_unix_ms)) =~= if s.captured_at_unix_ms
        < cutoff_unix_ms {
        snapshot_ids(older_than(snapshots, cutoff_unix_ms)).push(s.workspace_id)
    } else {
        snapshot_ids(older_than(snapshots, cutoff_unix_ms))
    });
}

/// Pruning by count names the rows behind those kept, latest first.
pub proof fn pruning_by_count_drops_the_tail(snapshots: Seq<StoredSnapshotView>, keep: nat)
    ensures
        ({
            let dropped = snapshot_ids(beyond_latest(snapshots, keep));
            &&& dropped.len() == if keep < snapshots.len() {
                snapshots.len() - keep
            } else {
                0
            }
            &&& forall|i: int|
                0 <= i < dropped.len() ==> #[trigger] dropped[i] == by_recency(
                    snapshots,
                )[keep + i].workspace_id
        }),
{
    order::lemma_ordered_permutes(snapshots, newer());
}

/// A workspace is stored under its id and time with what it says of itself, and
/// each of its items with what finds it again: its window, its tab, its identity.
pub proof fn records_say_what_they_store(
    workspace_id: Seq<char>,
    captured_at_unix_ms: i64,
    w: WorkspaceStateView,
    payload_json: Seq<char>,
    item: WorkspaceItemView,
)
    ensures
        ({
            let r = record_of(workspace_id, captured_at_unix_ms, w, payload_json);
            &&& r.workspace_id == workspace_id
            &&& r.captured_at_unix_ms == captured_at_unix_ms
            &&& r.summary == w.summary
            &&& r.tags_json == tagger::json_list(w.tags)
            &&& r.payload_json == payload_json
        }),
        ({
            let r = item_record_of(workspace_id, captured_at_unix_ms, item);
            &&& r.workspace_id == workspace_id
            &&& r.captured_at_unix_ms == captured_at_unix_ms
            &&& r.node_id == item.item_ref.node_id
            &&& r.dedup_key == item.dedup_key
            &&& r.title == item.title
            &&& item.item_ref.tab_index is None ==> r.tab_index is None
            &&& item.item_ref.tab_index matches Some(i) ==> r.tab_index == Some(i as i64)
            &&& item.kind == grouping::ItemKind::Tab ==> r.kind == "tab"@
            &&& item.kind == grouping::ItemKind::Terminal ==> r.kind == "terminal"@
            &&& item.kind == grouping::ItemKind::Editor ==> r.kind == "editor"@
            &&& item.kind == grouping::ItemKind::Generic ==> r.kind == "generic"@
        }),
{
}

/// An installed app is recorded under its id and name with the capabilities it is
/// known for, and found by its name and those.
pub proof fn apps_are_recorded_with_their_capabilities(app: AppIdentityView)
    ensures
        ({
            let r = catalog_record_of(app);
            &&& r.bundle_id == app.bundle_id
            &&& r.app_name == app.app_name
            &&& r.capabilities_json == tagger::json_list(catalog::seed(app.bundle_id))
            &&& catalog::seed(app.bundle_id).len() == 0 ==> r.embed_text == app.app_name
            &&& catalog::seed(app.bundle_id).len() > 0 ==> r.embed_text == app.app_name + " "@
                + text::joined(catalog::seed(app.bundle_id), " "@)
        }),
{
}

/// A catalog entry goes exactly where its app is no longer installed, and an app
/// is added exactly where it has no entry.
pub proof fn the_catalog_follows_what_is_installed(
    stored: Seq<Seq<char>>,
    installed: Seq<AppIdentityView>,
    id: Seq<char>,
    app: AppIdentityView,
)
    ensures
        gone_of(stored, installed).contains(id) <==> stored.contains(id) && forall|k: int|
            0 <= k < installed.len() ==> (#[trigger] installed[k]).bundle_id != id,
        fresh_of(stored, installed).contains(app) <==> installed.contains(app) && !stored.contains(
            app.bundle_id,
        ),
        fresh_of(Seq::empty(), installed) == installed,
        gone_of(stored, Seq::empty()) == stored,
{
    let ids = bundle::bundle_ids_of(installed);
    let lost = |id: Seq<char>| !bundle::bundle_ids_of(installed).contains(id);
    let new = |a: AppIdentityView| !stored.contains(a.bundle_id);
    order::lemma_filter_contains(stored, lost, id);
    order::lemma_filter_contains(installed, new, app);
    if ids.contains(id) {
        let k = choose|k: int| 0 <= k < ids.len() && ids[k] == id;
        assert(installed[k].bundle_id == id);
    }
    if exists|k: int| 0 <= k < installed.len() && (#[trigger] installed[k]).bundle_id == id {
        let k = choose|k: int| 0 <= k < installed.len() && (#[trigger] installed[k]).bundle_id
            == id;
        assert(ids[k] == id);
    }
    order::lemma_filter_all(
        installed,
        |a: AppIdentityView| !Seq::<Seq<char>>::empty().contains(a.bundle_id),
    );
    order::lemma_filter_all(
        stored,
        |id: Seq<char>|
            !bundle::bundle_ids_of(Seq::<AppIdentityView>::empty()).contains(id),
    );
}

/// The workspaces to index are those stored that are not indexed yet, latest
/// first.
pub proof fn missing_items_are_not_indexed(
    snapshots: &Vec<StoredSnapshot>,
    indexed: &Vec<String>,
    r: Vec<String>,
    id: Seq<char>,
)
    requires
        call_ensures(missing_items, (snapshots, indexed), r),
    ensures
        r.deep_view().contains(id) <==> !indexed.deep_view().contains(id) && exists|k: int|
            0 <= k < snapshots.len() && (#[trigger] snapshots.deep_view()[k]).workspace_id == id,
        indexed.len() == 0 ==> r.deep_view() == snapshot_ids(by_recency(snapshots.deep_view())),
{
    let all = snapshots.deep_view();
    let sorted = by_recency(all);
    let ids = snapshot_ids(sorted);
    let keep = |id: Seq<char>| !indexed.deep_view().contains(id);
    order::lemma_filter_contains(ids, keep, id);
    order::lemma_ordered_contains(all, newer());
    if ids.contains(id) {
        let k = choose|k: int| 0 <= k < ids.len() && ids[k] == id;
        assert(sorted.contains(sorted[k]));
        let m = choose|m: int| 0 <= m < all.len() && all[m] == sorted[k];
        assert(all[m].workspace_id == id);
    }
    if exists|k: int| 0 <= k < snapshots.len() && (#[trigger] all[k]).workspace_id == id {
        let k = choose|k: int| 0 <= k < snapshots.len() && (#[trigger] all[k]).workspace_id == id;
        assert(all.contains(all[k]));
        assert(sorted.contains(all[k]));
        let m = choose|m: int| 0 <= m < sorted.len() && sorted[m] == all[k];
        assert(ids[m] == id);
    }
    if indexed.len() == 0 {
        assert(indexed.deep_view().len() == 0);
        order::lemma_filter_all(ids, keep);
    }
}

/// Every item is recorded, in order.
pub proof fn every_item_is_recorded(
    workspace_id: &str,
    captured_at_unix_ms: i64,
    items: &Vec<WorkspaceItem>,
    r: Vec<ItemRecord>,
)
    requires
        call_ensures(item_records, (workspace_id, captured_at_unix_ms, items), r),
    ensures
        r.len() == items.len(),
        forall|i: int|
            0 <= i < r.len() ==> #[trigger] r.deep_view()[i] == item_record_of(
                workspace_id@,
                captured_at_unix_ms,
                items.deep_view()[i],
            ),
{
    assert(r.deep_view().len() == r.len());
    assert(items.deep_view().len() == items.len());
}

/// Entries that go and apps that come keep their order: one more is added behind
/// the others, where it is to go or to come.
pub proof fn catalog_changes_keep_their_order(
    stored: Seq<Seq<char>>,
    id: Seq<char>,
    installed: Seq<AppIdentityView>,
    app: AppIdentityView,
)
    ensures
        gone_of(stored.push(id), installed) == if exists|k: int|
            0 <= k < installed.len() && (#[trigger] installed[k]).bundle_id == id {
            gone_of(stored, installed)
        } else {
            gone_of(stored, installed).push(id)
        },
        fresh_of(stored, installed.push(app)) == if stored.contains(app.bundle_id) {
            fresh_of(stored, installed)
        } else {
            fresh_of(stored, installed).push(app)
        },
{
    reveal(Seq::filter);
    assert(stored.push(id).drop_last() =~= stored);
    assert(installed.push(app).drop_last() =~= installed);
    let ids = bundle::bundle_ids_of(installed);
    if ids.contains(id) {
        let k = choose|k: int| 0 <= k < ids.len() && ids[k] == id;
        assert(installed[k].bundle_id == id);
    }
    if exists|k: int| 0 <= k < installed.len() && (#[trigger] installed[k]).bundle_id == id {
        let k = choose|k: int| 0 <= k < installed.len() && (#[trigger] installed[k]).bundle_id
            == id;
        assert(ids[k] == id);
    }
}

} // verus!

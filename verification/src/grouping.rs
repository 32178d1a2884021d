//! Semantic sub-grouping and virtual-workspace assembly: the pure rules.
//!
//! An *item* is the unit of semantic search: one browser tab, or one whole
//! window of another kind. Vectors and their similarities are computed
//! elsewhere; what stands here is the bookkeeping.

use vstd::multiset::Multiset;
use vstd::prelude::*;

use crate::doubles;
use crate::order;
use crate::tagging;
use crate::tagging::{base_name, derive_tags, url_host};
use crate::text;
use crate::text::{
    chars_of, collapse, decimal_of, distinct, find_char, join, sort, str_eq, string_of, trim_end,
};
use crate::types::{
    BrowserTab, BrowserTabView, ItemRef, ItemRefView, NodePayload, NodePayloadView, TerminalTab,
    TerminalTabView, WindowNode, WindowNodeView, WorkspaceGroup, WorkspaceGroupView,
    WorkspaceState, WorkspaceStateView,
};

verus! {

/// Minimum average similarity for two clusters to merge: the double nearest the
/// single-precision number 0.65.
pub const GROUP_SIMILARITY_THRESHOLD: u64 = 0x3FE4_CCCC_C000_0000;

/// Hard cap on groups per workspace; overflow merges into the last group.
pub const MAX_GROUPS: usize = 6;

/// How many parts a heuristic label is made of.
pub const MAX_LABEL_PARTS: usize = 3;

/// What kind of desktop entity an item is; storage keeps it as a lowercase
/// word.
#[derive(Debug, Clone, Copy, PartialEq, Eq, Structural)]
pub enum ItemKind {
    Tab,
    Terminal,
    Editor,
    Generic,
}

/// The word an item kind is stored as.
pub open spec fn kind_name(kind: ItemKind) -> Seq<char> {
    match kind {
        ItemKind::Tab => "tab"@,
        ItemKind::Terminal => "terminal"@,
        ItemKind::Editor => "editor"@,
        ItemKind::Generic => "generic"@,
    }
}

impl ItemKind {
    /// The word this kind is stored as.
    pub fn as_str(self) -> (r: &'static str)
        ensures
            r@ == kind_name(self),
    {
        match self {
            ItemKind::Tab => "tab",
            ItemKind::Terminal => "terminal",
            ItemKind::Editor => "editor",
            ItemKind::Generic => "generic",
        }
    }
}

/// One embeddable, deduplicatable unit extracted from a workspace.
#[derive(Debug, PartialEq)]
pub struct WorkspaceItem {
    pub item_ref: ItemRef,
    pub kind: ItemKind,
    /// Identity across snapshots: the same tab URL, editor folder or set of
    /// terminal directories captured twice is one item.
    pub dedup_key: String,
    /// Short human label (interface rows, labeling prompts).
    pub title: String,
    /// Text whose embedding represents this item: content first, light app and
    /// host context after. No generic kind prefix: such prefixes make
    /// clustering collapse by item kind instead of by topic.
    pub embed_text: String,
}

/// What a `WorkspaceItem` says: its texts as character sequences, its lists as sequences.
#[verifier::ext_equal]
pub struct WorkspaceItemView {
    pub item_ref: ItemRefView,
    pub kind: ItemKind,
    pub dedup_key: Seq<char>,
    pub title: Seq<char>,
    pub embed_text: Seq<char>,
}

impl DeepView for WorkspaceItem {
    type V = WorkspaceItemView;

    open spec fn deep_view(&self) -> WorkspaceItemView {
        WorkspaceItemView {
            item_ref: self.item_ref.deep_view(),
            kind: self.kind,
            dedup_key: self.dedup_key.deep_view(),
            title: self.title.deep_view(),
            embed_text: self.embed_text.deep_view(),
        }
    }
}

impl Clone for WorkspaceItem {
    fn clone(&self) -> (r: Self)
        ensures
            r.deep_view() == self.deep_view(),
    {
        WorkspaceItem {
            item_ref: self.item_ref.clone(),
            kind: self.kind,
            dedup_key: self.dedup_key.clone(),
            title: self.title.clone(),
            embed_text: self.embed_text.clone(),
        }
    }
}

/// Strips a URL fragment: the same page scrolled to two anchors is one tab.
pub fn strip_fragment(url: &str) -> (r: String)
    ensures
        r@ == text::before_first(url@, '#'),
{
    let v = chars_of(url);
    let to: usize = find_char(&v, '#', 0);
    let r = string_of(&v, 0, to);
    assert(r@ =~= url@.take(to as int));
    r
}

/// The item of one browser tab.
pub open spec fn tab_item(
    node_id: Seq<char>,
    tab: BrowserTabView,
    index: int,
) -> WorkspaceItemView {
    let host = tagging::host_of(tab.url);
    let title = if tab.title.len() == 0 {
        host
    } else {
        tab.title
    };
    WorkspaceItemView {
        item_ref: ItemRefView { node_id, tab_index: Some(index as usize as i32) },
        kind: ItemKind::Tab,
        dedup_key: text::before_first(tab.url, '#'),
        title,
        embed_text: title + " ("@ + host + ")"@,
    }
}

/// The directory of each tab.
pub open spec fn cwds_of(tabs: Seq<TerminalTabView>) -> Seq<Seq<char>> {
    tabs.map_values(|t: TerminalTabView| t.cwd)
}

/// The directories a terminal window has open: non-empty, ascending, each once.
pub open spec fn terminal_dirs(tabs: Seq<TerminalTabView>) -> Seq<Seq<char>> {
    text::collapsed(text::sorted(cwds_of(tabs).filter(|c: Seq<char>| c.len() > 0)))
}

/// The first entry, or the empty text.
pub open spec fn first_or_empty(s: Seq<Seq<char>>) -> Seq<char> {
    if s.len() > 0 {
        s[0]
    } else {
        Seq::empty()
    }
}

/// Whether a character is dropped from the end of a generic item's text.
pub open spec fn is_filler(c: char) -> bool {
    c == ':' || c == ' '
}

/// Length of `s[..n]` with trailing colons and blanks dropped.
pub open spec fn unfilled_len(s: Seq<char>, n: int) -> int
    decreases n,
{
    if n <= 0 || n > s.len() || !is_filler(s[n - 1]) {
        n
    } else {
        unfilled_len(s, n - 1)
    }
}

/// The items of one window: each tab of a browser, any other window whole.
pub open spec fn node_items(n: WindowNodeView) -> Seq<WorkspaceItemView> {
    match n.payload {
        NodePayloadView::Browser { tabs, active_tab_index } => Seq::new(
            tabs.len(),
            |i: int| tab_item(n.node_id, tabs[i], i),
        ),
        NodePayloadView::Terminal { tabs } => {
            let dirs = terminal_dirs(tabs);
            let base = tagging::base_of(first_or_empty(dirs));
            seq![
                WorkspaceItemView {
                    item_ref: ItemRefView { node_id: n.node_id, tab_index: None },
                    kind: ItemKind::Terminal,
                    dedup_key: text::joined(dirs, "\n"@),
                    title: n.app_name + " — "@ + base,
                    embed_text: n.app_name + " "@ + base + " "@ + text::joined(dirs, " "@),
                },
            ]
        },
        NodePayloadView::Editor { folder_path, open_files } => {
            let base = tagging::base_of(folder_path);
            let files = open_files.map_values(|f: Seq<char>| tagging::base_of(f));
            seq![
                WorkspaceItemView {
                    item_ref: ItemRefView { node_id: n.node_id, tab_index: None },
                    kind: ItemKind::Editor,
                    dedup_key: folder_path,
                    title: n.app_name + " — "@ + base,
                    embed_text: text::trimmed_end(
                        n.app_name + ": "@ + base + " "@ + folder_path + " "@ + text::joined(
                            files,
                            " "@,
                        ),
                    ),
                },
            ]
        },
        NodePayloadView::Generic => {
            let line = n.app_name + ": "@ + n.window_title;
            seq![
                WorkspaceItemView {
                    item_ref: ItemRefView { node_id: n.node_id, tab_index: None },
                    kind: ItemKind::Generic,
                    dedup_key: n.bundle_id + "\u{1}"@ + n.window_title,
                    title: n.app_name,
                    embed_text: line.take(unfilled_len(line, line.len() as int)),
                },
            ]
        },
    }
}

/// The items of a workspace, window by window.
pub open spec fn items_of(nodes: Seq<WindowNodeView>) -> Seq<WorkspaceItemView> {
    text::gathered(nodes, |n: WindowNodeView| node_items(n))
}

fn terminal_directories(tabs: &Vec<TerminalTab>) -> (r: Vec<String>)
    ensures
        r.deep_view() == terminal_dirs(tabs.deep_view()),
{
    let ghost cwds = cwds_of(tabs.deep_view());
    let ghost keep = |c: Seq<char>| c.len() > 0;
    let mut out: Vec<String> = Vec::new();
    let mut i: usize = 0;
    reveal(Seq::filter);
    assert(out.deep_view() =~= cwds.take(0).filter(keep));
    while i < tabs.len()
        invariant
            i <= tabs.len(),
            cwds == cwds_of(tabs.deep_view()),
            keep == (|c: Seq<char>| c.len() > 0),
            out.deep_view() == cwds.take(i as int).filter(keep),
        decreases tabs.len() - i,
    {
        let ghost before = out.deep_view();
        proof {
            reveal(Seq::filter);
            text::lemma_take_step(cwds, i as int);
            assert(cwds[i as int] == tabs[i as int].cwd@);
        }
        if !tabs[i].cwd.as_str().is_empty() {
            out.push(tabs[i].cwd.clone());
            assert(out.deep_view() =~= before.push(cwds[i as int]));
        }
        i = i + 1;
    }
    assert(cwds.take(cwds.len() as int) =~= cwds);
    collapse(&sort(&out))
}

fn base_names(paths: &Vec<String>) -> (r: Vec<String>)
    ensures
        r.deep_view() == paths.deep_view().map_values(|f: Seq<char>| tagging::base_of(f)),
{
    let ghost all = paths.deep_view();
    let ghost f = |f: Seq<char>| tagging::base_of(f);
    let mut out: Vec<String> = Vec::new();
    let mut i: usize = 0;
    while i < paths.len()
        invariant
            i <= paths.len(),
            all == paths.deep_view(),
            f == (|f: Seq<char>| tagging::base_of(f)),
            out.deep_view() == all.take(i as int).map_values(f),
        decreases paths.len() - i,
    {
        let ghost before = out.deep_view();
        out.push(base_name(paths[i].as_str()));
        assert(out.deep_view() =~= before.push(f(all[i as int])));
        assert(out.deep_view() =~= all.take(i + 1).map_values(f));
        i = i + 1;
    }
    assert(all.take(all.len() as int) =~= all);
    out
}

fn without_filler(s: &str) -> (r: String)
    ensures
        r@ == s@.take(unfilled_len(s@, s@.len() as int)),
{
    let v = chars_of(s);
    let mut n: usize = v.len();
    while n > 0 && (v[n - 1] == ':' || v[n - 1] == ' ')
        invariant
            n <= v@.len(),
            unfilled_len(v@, v@.len() as int) == unfilled_len(v@, n as int),
        decreases n,
    {
        n = n - 1;
    }
    let r = string_of(&v, 0, n);
    assert(r@ =~= s@.take(n as int));
    r
}

fn item_of_tab(node_id: &str, tab: &BrowserTab, index: usize) -> (r: WorkspaceItem)
    ensures
        r.deep_view() == tab_item(node_id@, tab.deep_view(), index as int),
{
    let host = url_host(tab.url.as_str());
    let title = if tab.title.as_str().is_empty() {
        host.clone()
    } else {
        tab.title.clone()
    };
    WorkspaceItem {
        item_ref: ItemRef { node_id: node_id.to_owned(), tab_index: Some(index as i32) },
        kind: ItemKind::Tab,
        dedup_key: strip_fragment(tab.url.as_str()),
        embed_text: title.clone().concat(" (").concat(host.as_str()).concat(")"),
        title,
    }
}

/// Pushes the items of one window.
fn push_items(node: &WindowNode, out: &mut Vec<WorkspaceItem>)
    ensures
        final(out).deep_view() == old(out).deep_view() + node_items(node.deep_view()),
{
    let ghost start = out.deep_view();
    let ghost n = node.deep_view();
    match &node.payload {
        NodePayload::Browser { tabs, active_tab_index: _ } => {
            let ghost all = node_items(n);
            let mut i: usize = 0;
            assert(start =~= start + all.take(0));
            while i < tabs.len()
                invariant
                    i <= tabs.len(),
                    n == node.deep_view(),
                    n.payload matches NodePayloadView::Browser { tabs: t, active_tab_index: _ }
                        && t == tabs.deep_view(),
                    all == node_items(n),
                    all.len() == tabs.len(),
                    out.deep_view() == start + all.take(i as int),
                decreases tabs.len() - i,
            {
                let ghost here = out.deep_view();
                out.push(item_of_tab(node.node_id.as_str(), &tabs[i], i));
                proof {
                    text::lemma_take_step(all, i as int);
                    assert(all[i as int] == tab_item(
                        n.node_id,
                        tabs.deep_view()[i as int],
                        i as int,
                    ));
                    assert(out.deep_view() =~= here.push(all[i as int]));
                    assert(out.deep_view() =~= start + all.take(i + 1));
                }
                i = i + 1;
            }
            assert(all.take(all.len() as int) =~= all);
        },
        NodePayload::Terminal { tabs } => {
            let dirs = terminal_directories(tabs);
            let base = if dirs.len() > 0 {
                base_name(dirs[0].as_str())
            } else {
                base_name("")
            };
            proof {
                reveal_strlit("");
                assert(""@ =~= Seq::<char>::empty());
            }
            out.push(
                WorkspaceItem {
                    item_ref: ItemRef { node_id: node.node_id.clone(), tab_index: None },
                    kind: ItemKind::Terminal,
                    dedup_key: join(&dirs, "\n"),
                    title: node.app_name.clone().concat(" — ").concat(base.as_str()),
                    embed_text: node.app_name.clone().concat(" ").concat(base.as_str()).concat(
                        " ",
                    ).concat(join(&dirs, " ").as_str()),
                },
            );
            assert(out.deep_view() =~= start + node_items(n));
        },
        NodePayload::Editor { folder_path, open_files } => {
            let base = base_name(folder_path.as_str());
            let files = base_names(open_files);
            let line = node.app_name.clone().concat(": ").concat(base.as_str()).concat(" ").concat(
                folder_path.as_str(),
            ).concat(" ").concat(join(&files, " ").as_str());
            out.push(
                WorkspaceItem {
                    item_ref: ItemRef { node_id: node.node_id.clone(), tab_index: None },
                    kind: ItemKind::Editor,
                    dedup_key: folder_path.clone(),
                    title: node.app_name.clone().concat(" — ").concat(base.as_str()),
                    embed_text: trim_end(line.as_str()),
                },
            );
            assert(out.deep_view() =~= start + node_items(n));
        },
        NodePayload::Generic => {
            let line = node.app_name.clone().concat(": ").concat(node.window_title.as_str());
            out.push(
                WorkspaceItem {
                    item_ref: ItemRef { node_id: node.node_id.clone(), tab_index: None },
                    kind: ItemKind::Generic,
                    dedup_key: node.bundle_id.clone().concat("\u{1}").concat(
                        node.window_title.as_str(),
                    ),
                    title: node.app_name.clone(),
                    embed_text: without_filler(line.as_str()),
                },
            );
            assert(out.deep_view() =~= start + node_items(n));
        },
    }
}

/// Enumerates the items of a workspace: one per browser tab, one per window of
/// another kind. `materialize_group` resolves the references made here.
pub fn items_for(w: &WorkspaceState) -> (r: Vec<WorkspaceItem>)
    ensures
        r.deep_view() == items_of(w.deep_view().nodes),
{
    let ghost nodes = w.nodes.deep_view();
    let ghost f = |n: WindowNodeView| node_items(n);
    let mut items: Vec<WorkspaceItem> = Vec::new();
    let mut i: usize = 0;
    assert(items.deep_view() =~= text::gathered(nodes.take(0), f));
    while i < w.nodes.len()
        invariant
            i <= w.nodes.len(),
            nodes == w.nodes.deep_view(),
            f == (|n: WindowNodeView| node_items(n)),
            items.deep_view() == text::gathered(nodes.take(i as int), f),
        decreases w.nodes.len() - i,
    {
        push_items(&w.nodes[i], &mut items);
        proof {
            text::lemma_take_step(nodes, i as int);
        }
        i = i + 1;
    }
    assert(nodes.take(nodes.len() as int) =~= nodes);
    items
}

/// One cluster per item.
pub open spec fn singletons(n: nat) -> Seq<Seq<usize>> {
    Seq::new(n, |i: int| seq![i as usize])
}

/// The pairs of clusters, by index, in scan order: (0, 1), (0, 2), .. (1, 2), ..
pub open spec fn pairs(n: nat) -> Seq<(usize, usize)> {
    text::gathered(Seq::new(n, |i: int| i), |i: int| pairs_with(n, i))
}

/// The pairs whose smaller index is `i`.
pub open spec fn pairs_with(n: nat, i: int) -> Seq<(usize, usize)> {
    Seq::new((n - i - 1) as nat, |k: int| (i as usize, (i + 1 + k) as usize))
}

/// Index of the largest of `s[..n]`; the first of them where several are equal.
pub open spec fn leader(s: Seq<u64>, n: int) -> int
    decreases n,
{
    if n <= 1 {
        0
    } else {
        let best = leader(s, n - 1);
        if doubles::below(s[best], s[n - 1]) {
            n - 1
        } else {
            best
        }
    }
}

/// The clusters with the `j`-th appended to the `i`-th.
pub open spec fn merged(clusters: Seq<Seq<usize>>, i: int, j: int) -> Seq<Seq<usize>> {
    clusters.update(i, clusters[i] + clusters[j]).remove(j)
}

/// The clusters after the closest pair was merged; `None` when no pair is close
/// enough. `averages` holds the average similarity of each of `pairs`.
pub open spec fn merge_step(
    clusters: Seq<Seq<usize>>,
    averages: Seq<u64>,
    threshold: u64,
) -> Option<Seq<Seq<usize>>> {
    let best = leader(averages, averages.len() as int);
    if averages.len() > 0 && doubles::at_least(averages[best], threshold) {
        let (i, j) = pairs(clusters.len())[best];
        Some(merged(clusters, i as int, j as int))
    } else {
        None
    }
}

/// Starts clustering: every item in a cluster of its own.
pub fn initial_clusters(n: usize) -> (r: Vec<Vec<usize>>)
    ensures
        r.deep_view() == singletons(n as nat),
{
    let mut out: Vec<Vec<usize>> = Vec::new();
    let mut i: usize = 0;
    while i < n
        invariant
            i <= n,
            out.deep_view() == singletons(i as nat),
        decreases n - i,
    {
        let ghost before = out.deep_view();
        let mut one: Vec<usize> = Vec::new();
        one.push(i);
        assert(one.deep_view() =~= seq![i]);
        out.push(one);
        assert(out.deep_view() =~= before.push(seq![i]));
        assert(out.deep_view() =~= singletons((i + 1) as nat));
        i = i + 1;
    }
    out
}

/// The pairs of clusters whose average similarity is needed to go on.
pub fn cluster_pairs(n: usize) -> (r: Vec<(usize, usize)>)
    ensures
        r@ == pairs(n as nat),
{
    let ghost rows = Seq::new(n as nat, |i: int| i);
    let ghost f = |i: int| pairs_with(n as nat, i);
    let mut out: Vec<(usize, usize)> = Vec::new();
    let mut i: usize = 0;
    assert(out@ =~= text::gathered(rows.take(0), f));
    while i < n
        invariant
            i <= n,
            rows == Seq::new(n as nat, |i: int| i),
            f == (|i: int| pairs_with(n as nat, i)),
            out@ == text::gathered(rows.take(i as int), f),
        decreases n - i,
    {
        let ghost before = out@;
        let ghost row = pairs_with(n as nat, i as int);
        let mut j: usize = i + 1;
        assert(out@ =~= before + row.take(0));
        while j < n
            invariant
                i < j <= n,
                row == pairs_with(n as nat, i as int),
                out@ == before + row.take(j - i - 1),
            decreases n - j,
        {
            out.push((i, j));
            assert(row[j - i - 1] == (i, j));
            assert(out@ =~= before + row.take(j - i));
            j = j + 1;
        }
        proof {
            text::lemma_take_step(rows, i as int);
            assert(row.take(row.len() as int) =~= row);
        }
        i = i + 1;
    }
    assert(rows.take(rows.len() as int) =~= rows);
    out
}

proof fn lemma_pairs_bounds(n: nat, m: int, k: int)
    requires
        0 <= m <= n <= usize::MAX,
        0 <= k < text::gathered(
            Seq::new(n, |i: int| i).take(m),
            |i: int| pairs_with(n, i),
        ).len(),
    ensures
        ({
            let (i, j) = text::gathered(
                Seq::new(n, |i: int| i).take(m),
                |i: int| pairs_with(n, i),
            )[k];
            i < j < n
        }),
    decreases m,
{
    let rows = Seq::new(n, |i: int| i);
    let f = |i: int| pairs_with(n, i);
    if m > 0 {
        text::lemma_take_step(rows, m - 1);
        let head = text::gathered(rows.take(m - 1), f);
        if k < head.len() {
            lemma_pairs_bounds(n, m - 1, k);
            assert(text::gathered(rows.take(m), f)[k] == head[k]);
        } else {
            assert(text::gathered(rows.take(m), f)[k] == pairs_with(n, m - 1)[k - head.len()]);
        }
    }
}

/// Every pair has its smaller index first, and both are in range.
pub proof fn lemma_pairs(n: nat, k: int)
    requires
        n <= usize::MAX,
        0 <= k < pairs(n).len(),
    ensures
        pairs(n)[k].0 < pairs(n)[k].1 < n,
{
    let rows = Seq::new(n, |i: int| i);
    assert(rows.take(n as int) =~= rows);
    lemma_pairs_bounds(n, n as int, k);
}

/// The leader is in range.
pub proof fn lemma_leader_bounds(s: Seq<u64>, n: int)
    requires
        0 < n <= s.len(),
    ensures
        0 <= leader(s, n) < n,
    decreases n,
{
    if n > 1 {
        lemma_leader_bounds(s, n - 1);
    }
}

/// Among numbers the leader is the largest, and the first of the largest: ties
/// break toward the lowest indices.
pub proof fn leader_is_first_largest(s: Seq<u64>, n: int)
    requires
        0 < n <= s.len(),
        forall|i: int| 0 <= i < n ==> doubles::is_number(#[trigger] s[i]),
    ensures
        0 <= leader(s, n) < n,
        forall|i: int| 0 <= i < n ==> doubles::at_least(s[leader(s, n)], #[trigger] s[i]),
        forall|i: int| 0 <= i < leader(s, n) ==> doubles::below(#[trigger] s[i], s[leader(s, n)]),
    decreases n,
{
    if n > 1 {
        leader_is_first_largest(s, n - 1);
    }
}

/// One step of average-linkage clustering: merges the pair with the highest
/// average similarity while that stays at or above `threshold`; ties break
/// toward the lowest indices. `averages` holds one number for each of
/// `cluster_pairs`. Returns false, and changes nothing, when clustering is done.
pub fn merge_closest(
    clusters: &mut Vec<Vec<usize>>,
    averages: &Vec<u64>,
    threshold: u64,
) -> (r: bool)
    requires
        averages.len() == pairs(old(clusters).len() as nat).len(),
    ensures
        match merge_step(old(clusters).deep_view(), averages@, threshold) {
            Some(next) => r && final(clusters).deep_view() == next,
            None => !r && final(clusters).deep_view() == old(clusters).deep_view(),
        },
{
    if averages.len() == 0 {
        return false;
    }
    let mut best: usize = 0;
    let mut k: usize = 1;
    while k < averages.len()
        invariant
            1 <= k <= averages.len(),
            best == leader(averages@, k as int),
            best < k,
        decreases averages.len() - k,
    {
        if doubles::is_below(averages[best], averages[k]) {
            best = k;
        }
        k = k + 1;
    }
    if !doubles::is_at_least(averages[best], threshold) {
        return false;
    }
    let all = cluster_pairs(clusters.len());
    proof {
        lemma_pairs(clusters.len() as nat, best as int);
    }
    let (i, j) = all[best];
    let ghost start = clusters.deep_view();
    let mut tail = clusters.remove(j);
    assert(clusters.deep_view() =~= start.remove(j as int));
    let ghost tail_view = tail.deep_view();
    assert(tail_view == start[j as int]);
    let mut head = clusters.remove(i);
    let ghost head_view = head.deep_view();
    assert(head_view == start[i as int]);
    head.append(&mut tail);
    assert(head.deep_view() =~= head_view + tail_view);
    clusters.insert(i, head);
    assert(clusters.deep_view() =~= merged(start, i as int, j as int));
    true
}

/// Whether cluster `a` is listed before `b`: the larger first, then the one
/// whose first member has the smaller index.
pub open spec fn larger_first(a: Seq<usize>, b: Seq<usize>) -> bool {
    ||| a.len() > b.len()
    ||| a.len() == b.len() && a.len() > 0 && a[0] < b[0]
}

/// The first `MAX_GROUPS` clusters, with all further ones appended to the last.
pub open spec fn capped(clusters: Seq<Seq<usize>>) -> Seq<Seq<usize>> {
    if clusters.len() > MAX_GROUPS {
        let kept = clusters.take(MAX_GROUPS as int);
        kept.update(
            MAX_GROUPS - 1,
            kept[MAX_GROUPS - 1] + text::gathered(
                clusters.skip(MAX_GROUPS as int),
                |c: Seq<usize>| c,
            ),
        )
    } else {
        clusters
    }
}

/// The clusters by size, the largest first.
pub open spec fn by_size(clusters: Seq<Seq<usize>>) -> Seq<Seq<usize>> {
    order::ordered(clusters, |a: Seq<usize>, b: Seq<usize>| larger_first(a, b))
}

/// The clusters as they are handed out: the largest ones kept, the overflow
/// merged into the last of them, and what that leaves listed largest first.
pub open spec fn finished_clusters(clusters: Seq<Seq<usize>>) -> Seq<Seq<usize>> {
    by_size(capped(by_size(clusters)))
}

fn is_larger_first(a: &Vec<usize>, b: &Vec<usize>) -> (r: bool)
    ensures
        r == larger_first(a.deep_view(), b.deep_view()),
{
    a.len() > b.len() || (a.len() == b.len() && a.len() > 0 && a[0] < b[0])
}

fn sort_by_size(clusters: &Vec<Vec<usize>>) -> (r: Vec<Vec<usize>>)
    ensures
        r.deep_view() == by_size(clusters.deep_view()),
{
    let ghost all = clusters.deep_view();
    let ghost before = |a: Seq<usize>, b: Seq<usize>| larger_first(a, b);
    let mut out: Vec<Vec<usize>> = Vec::new();
    let mut i: usize = 0;
    assert(out.deep_view() =~= order::ordered(all.take(0), before));
    while i < clusters.len()
        invariant
            i <= clusters.len(),
            all == clusters.deep_view(),
            before == (|a: Seq<usize>, b: Seq<usize>| larger_first(a, b)),
            out.deep_view() == order::ordered(all.take(i as int), before),
        decreases clusters.len() - i,
    {
        let ghost now = out.deep_view();
        let ghost x = all[i as int];
        let mut k: usize = out.len();
        while k > 0 && is_larger_first(&clusters[i], &out[k - 1])
            invariant
                i < clusters.len(),
                k <= out.len(),
                now == out.deep_view(),
                all == clusters.deep_view(),
                x == all[i as int],
                before == (|a: Seq<usize>, b: Seq<usize>| larger_first(a, b)),
                order::slot(now, x, before, now.len() as int) == order::slot(
                    now,
                    x,
                    before,
                    k as int,
                ),
            decreases k,
        {
            k = k - 1;
        }
        out.insert(k, clusters[i].clone());
        proof {
            text::lemma_take_step(all, i as int);
        }
        assert(out.deep_view() =~= now.insert(k as int, x));
        i = i + 1;
    }
    assert(all.take(all.len() as int) =~= all);
    out
}

/// Ends clustering: the largest clusters are kept, what exceeds the cap is
/// merged into the last of them, and the result comes largest first, ties by
/// first member.
pub fn finish_clusters(clusters: Vec<Vec<usize>>) -> (r: Vec<Vec<usize>>)
    ensures
        r.deep_view() == finished_clusters(clusters.deep_view()),
{
    let mut out = sort_by_size(&clusters);
    if out.len() > MAX_GROUPS {
        let ghost ranked = out.deep_view();
        let ghost rest = ranked.skip(MAX_GROUPS as int);
        let ghost f = |c: Seq<usize>| c;
        let mut last = out[MAX_GROUPS - 1].clone();
        let ghost head = last.deep_view();
        assert(head == ranked[MAX_GROUPS - 1]);
        let mut k: usize = MAX_GROUPS;
        assert(head =~= head + text::gathered(rest.take(0), f));
        while k < out.len()
            invariant
                MAX_GROUPS <= k <= out.len(),
                ranked == out.deep_view(),
                rest == ranked.skip(MAX_GROUPS as int),
                f == (|c: Seq<usize>| c),
                last.deep_view() == head + text::gathered(rest.take(k - MAX_GROUPS), f),
            decreases out.len() - k,
        {
            let ghost here = last.deep_view();
            let mut more = out[k].clone();
            last.append(&mut more);
            proof {
                text::lemma_take_step(rest, k - MAX_GROUPS);
                assert(rest[k - MAX_GROUPS] == ranked[k as int]);
                assert(last.deep_view() =~= here + ranked[k as int]);
                assert(last.deep_view() =~= head + text::gathered(
                    rest.take(k - MAX_GROUPS + 1),
                    f,
                ));
            }
            k = k + 1;
        }
        assert(rest.take(rest.len() as int) =~= rest);
        out.truncate(MAX_GROUPS);
        out.set(MAX_GROUPS - 1, last);
        assert(out.deep_view() =~= capped(ranked));
    }
    sort_by_size(&out)
}

/// How often each item occurs in the clusters together.
pub open spec fn members(clusters: Seq<Seq<usize>>) -> Multiset<usize>
    decreases clusters.len(),
{
    if clusters.len() == 0 {
        Multiset::empty()
    } else {
        members(clusters.drop_last()).add(clusters.last().to_multiset())
    }
}

proof fn lemma_members_add(a: Seq<Seq<usize>>, b: Seq<Seq<usize>>)
    ensures
        members(a + b) == members(a).add(members(b)),
    decreases b.len(),
{
    if b.len() == 0 {
        assert(a + b =~= a);
        assert(members(a).add(Multiset::empty()) =~= members(a));
    } else {
        lemma_members_add(a, b.drop_last());
        assert((a + b).drop_last() =~= a + b.drop_last());
        assert(members(a + b) =~= members(a).add(members(b)));
    }
}

proof fn lemma_members_insert(c: Seq<Seq<usize>>, k: int, x: Seq<usize>)
    requires
        0 <= k <= c.len(),
    ensures
        members(c.insert(k, x)) == members(c).add(x.to_multiset()),
{
    let head = c.take(k);
    let tail = c.skip(k);
    assert(c =~= head + tail);
    assert(c.insert(k, x) =~= head.push(x) + tail);
    lemma_members_add(head, tail);
    lemma_members_add(head.push(x), tail);
    assert(head.push(x).drop_last() =~= head);
    assert(members(c.insert(k, x)) =~= members(c).add(x.to_multiset()));
}

proof fn lemma_members_gathered(c: Seq<Seq<usize>>)
    ensures
        text::gathered(c, |x: Seq<usize>| x).to_multiset() == members(c),
    decreases c.len(),
{
    broadcast use vstd::seq_lib::group_to_multiset_ensures;

    let f = |x: Seq<usize>| x;
    if c.len() == 0 {
        assert(Seq::<usize>::empty().to_multiset() =~= Multiset::empty());
    } else {
        lemma_members_gathered(c.drop_last());
        vstd::seq_lib::lemma_multiset_commutative(text::gathered(c.drop_last(), f), c.last());
    }
}

proof fn lemma_members_ordered(
    c: Seq<Seq<usize>>,
    before: spec_fn(Seq<usize>, Seq<usize>) -> bool,
)
    ensures
        members(order::ordered(c, before)) == members(c),
        order::ordered(c, before).len() == c.len(),
    decreases c.len(),
{
    if c.len() > 0 {
        let rest = order::ordered(c.drop_last(), before);
        lemma_members_ordered(c.drop_last(), before);
        order::lemma_slot(rest, c.last(), before, rest.len() as int);
        lemma_members_insert(
            rest,
            order::slot(rest, c.last(), before, rest.len() as int),
            c.last(),
        );
    }
}

/// Clustering starts with every item in exactly one place.
pub proof fn every_item_starts_once(n: nat, i: usize)
    requires
        n <= usize::MAX,
    ensures
        members(singletons(n)).count(i) == if i < n {
            1nat
        } else {
            0nat
        },
    decreases n,
{
    broadcast use vstd::seq_lib::group_to_multiset_ensures;

    if n > 0 {
        let m = (n - 1) as nat;
        every_item_starts_once(m, i);
        assert(singletons(n).drop_last() =~= singletons(m));
        let last = seq![m as usize];
        assert(singletons(n).last() =~= last);
        assert(last =~= Seq::<usize>::empty().push(m as usize));
        assert(last.to_multiset() =~= Multiset::<usize>::empty().insert(m as usize));
    }
}

/// Merging two clusters loses no item and repeats none, and leaves one cluster
/// fewer.
pub proof fn merging_keeps_every_item(
    clusters: Seq<Seq<usize>>,
    averages: Seq<u64>,
    threshold: u64,
)
    requires
        clusters.len() <= usize::MAX,
        averages.len() == pairs(clusters.len()).len(),
    ensures
        merge_step(clusters, averages, threshold) matches Some(next) ==> members(next) == members(
            clusters,
        ) && next.len() == clusters.len() - 1,
{
    if let Some(next) = merge_step(clusters, averages, threshold) {
        let best = leader(averages, averages.len() as int);
        lemma_leader_bounds(averages, averages.len() as int);
        lemma_pairs(clusters.len(), best);
        let i = pairs(clusters.len())[best].0 as int;
        let j = pairs(clusters.len())[best].1 as int;
        let bare = clusters.remove(j).remove(i);
        assert(clusters.remove(j) =~= bare.insert(i, clusters[i]));
        assert(clusters =~= clusters.remove(j).insert(j, clusters[j]));
        assert(next =~= bare.insert(i, clusters[i] + clusters[j]));
        lemma_members_insert(bare, i, clusters[i]);
        lemma_members_insert(clusters.remove(j), j, clusters[j]);
        lemma_members_insert(bare, i, clusters[i] + clusters[j]);
        vstd::seq_lib::lemma_multiset_commutative(clusters[i], clusters[j]);
        assert(members(next) =~= members(clusters));
    }
}

/// Ending the clustering loses no item and repeats none, and leaves at most
/// `MAX_GROUPS` clusters.
pub proof fn finishing_keeps_every_item(clusters: Seq<Seq<usize>>)
    ensures
        members(finished_clusters(clusters)) == members(clusters),
        finished_clusters(clusters).len() <= MAX_GROUPS,
        clusters.len() <= MAX_GROUPS ==> finished_clusters(clusters).len() == clusters.len(),
{
    let before = |a: Seq<usize>, b: Seq<usize>| larger_first(a, b);
    let ranked = by_size(clusters);
    lemma_members_ordered(clusters, before);
    lemma_members_ordered(capped(ranked), before);
    if ranked.len() > MAX_GROUPS {
        let g = MAX_GROUPS as int;
        let kept = ranked.take(g);
        let rest = ranked.skip(g);
        let extra = text::gathered(rest, |c: Seq<usize>| c);
        assert(ranked =~= kept + rest);
        lemma_members_add(kept, rest);
        lemma_members_gathered(rest);
        let bare = kept.drop_last();
        assert(kept =~= bare.insert(g - 1, kept[g - 1]));
        assert(capped(ranked) =~= bare.insert(g - 1, kept[g - 1] + extra));
        lemma_members_insert(bare, g - 1, kept[g - 1]);
        lemma_members_insert(bare, g - 1, kept[g - 1] + extra);
        vstd::seq_lib::lemma_multiset_commutative(kept[g - 1], extra);
        assert(members(capped(ranked)) =~= members(ranked));
    }
}

proof fn lemma_by_size(clusters: Seq<Seq<usize>>, i: int, j: int)
    requires
        0 <= i < j < clusters.len(),
    ensures
        by_size(clusters).len() == clusters.len(),
        by_size(clusters)[i].len() >= by_size(clusters)[j].len(),
{
    let before = |a: Seq<usize>, b: Seq<usize>| larger_first(a, b);
    order::lemma_ordered_permutes(clusters, before);
    order::lemma_ordered_is_ordered(clusters, before, |a: Seq<usize>| true);
    assert(!before(by_size(clusters)[j], by_size(clusters)[i]));
}

/// Clusters are listed largest first, the one that holds the overflow included.
pub proof fn clusters_come_largest_first(clusters: Seq<Seq<usize>>, i: int, j: int)
    requires
        0 <= i < j < finished_clusters(clusters).len(),
    ensures
        finished_clusters(clusters)[i].len() >= finished_clusters(clusters)[j].len(),
{
    let kept = capped(by_size(clusters));
    order::lemma_ordered_permutes(kept, |a: Seq<usize>, b: Seq<usize>| larger_first(a, b));
    lemma_by_size(kept, i, j);
}

/// The parts a label can be made of, best first: project folders, hosts, app
/// names.
pub open spec fn label_sources(members: Seq<WorkspaceItemView>) -> Seq<Seq<char>> {
    text::gathered(
        members,
        |m: WorkspaceItemView|
            if m.kind == ItemKind::Editor || m.kind == ItemKind::Terminal {
                seq![tagging::base_of(m.dedup_key)]
            } else {
                Seq::empty()
            },
    ) + text::gathered(
        members,
        |m: WorkspaceItemView|
            if m.kind == ItemKind::Tab {
                seq![tagging::host_of(m.dedup_key)]
            } else {
                Seq::empty()
            },
    ) + text::gathered(
        members,
        |m: WorkspaceItemView|
            if m.kind == ItemKind::Generic {
                seq![m.title]
            } else {
                Seq::empty()
            },
    )
}

/// The label derived from the members of a group.
pub open spec fn label_of(members: Seq<WorkspaceItemView>) -> Seq<char> {
    let parts = text::at_most(
        text::distinct_of(label_sources(members)),
        MAX_LABEL_PARTS as int,
    );
    if parts.len() == 0 {
        "group"@
    } else {
        text::joined(parts, " · "@)
    }
}

/// Cheap deterministic label from member content: project folders and URL
/// hosts first (highest signal), app names as fallback.
pub fn heuristic_group_label(members: &[&WorkspaceItem]) -> (r: String)
    ensures
        r@ == label_of(members.deep_view()),
{
    let ghost all = members.deep_view();
    let ghost f = |m: WorkspaceItemView|
        if m.kind == ItemKind::Editor || m.kind == ItemKind::Terminal {
            seq![tagging::base_of(m.dedup_key)]
        } else {
            Seq::empty()
        };
    let ghost g = |m: WorkspaceItemView|
        if m.kind == ItemKind::Tab {
            seq![tagging::host_of(m.dedup_key)]
        } else {
            Seq::empty()
        };
    let ghost h = |m: WorkspaceItemView|
        if m.kind == ItemKind::Generic {
            seq![m.title]
        } else {
            Seq::empty()
        };
    let mut projects: Vec<String> = Vec::new();
    let mut hosts: Vec<String> = Vec::new();
    let mut apps: Vec<String> = Vec::new();
    let mut i: usize = 0;
    assert(projects.deep_view() =~= text::gathered(all.take(0), f));
    assert(hosts.deep_view() =~= text::gathered(all.take(0), g));
    assert(apps.deep_view() =~= text::gathered(all.take(0), h));
    while i < members.len()
        invariant
            i <= members.len(),
            all == members.deep_view(),
            f == (|m: WorkspaceItemView|
                if m.kind == ItemKind::Editor || m.kind == ItemKind::Terminal {
                    seq![tagging::base_of(m.dedup_key)]
                } else {
                    Seq::empty()
                }),
            g == (|m: WorkspaceItemView|
                if m.kind == ItemKind::Tab {
                    seq![tagging::host_of(m.dedup_key)]
                } else {
                    Seq::empty()
                }),
            h == (|m: WorkspaceItemView|
                if m.kind == ItemKind::Generic {
                    seq![m.title]
                } else {
                    Seq::empty()
                }),
            projects.deep_view() == text::gathered(all.take(i as int), f),
            hosts.deep_view() == text::gathered(all.take(i as int), g),
            apps.deep_view() == text::gathered(all.take(i as int), h),
        decreases members.len() - i,
    {
        let ghost p = projects.deep_view();
        let ghost q = hosts.deep_view();
        let ghost s = apps.deep_view();
        let item: &WorkspaceItem = members[i];
        match item.kind {
            ItemKind::Editor | ItemKind::Terminal => {
                projects.push(base_name(item.dedup_key.as_str()));
            },
            ItemKind::Tab => {
                hosts.push(url_host(item.dedup_key.as_str()));
            },
            ItemKind::Generic => {
                apps.push(item.title.clone());
            },
        }
        proof {
            text::lemma_take_step(all, i as int);
            assert(all[i as int] == item.deep_view());
            assert(projects.deep_view() =~= p + f(all[i as int]));
            assert(hosts.deep_view() =~= q + g(all[i as int]));
            assert(apps.deep_view() =~= s + h(all[i as int]));
        }
        i = i + 1;
    }
    assert(all.take(all.len() as int) =~= all);
    let ghost p = projects.deep_view();
    let ghost q = hosts.deep_view();
    let ghost s = apps.deep_view();
    projects.append(&mut hosts);
    assert(projects.deep_view() =~= p + q);
    projects.append(&mut apps);
    assert(projects.deep_view() =~= p + q + s);
    let mut parts = distinct(projects);
    let ghost full = parts.deep_view();
    parts.truncate(MAX_LABEL_PARTS);
    assert(parts.deep_view() =~= text::at_most(full, MAX_LABEL_PARTS as int));
    if parts.len() == 0 {
        "group".to_owned()
    } else {
        join(&parts, " · ")
    }
}

/// The items of one cluster, in its order.
pub open spec fn members_of(
    items: Seq<WorkspaceItemView>,
    cluster: Seq<usize>,
) -> Seq<WorkspaceItemView> {
    cluster.map_values(|i: usize| items[i as int])
}

/// The group one cluster becomes.
pub open spec fn group_of(
    items: Seq<WorkspaceItemView>,
    cluster: Seq<usize>,
    index: int,
) -> WorkspaceGroupView {
    WorkspaceGroupView {
        group_id: "g"@ + text::decimal(index as nat),
        label: label_of(members_of(items, cluster)),
        items: members_of(items, cluster).map_values(|m: WorkspaceItemView| m.item_ref),
    }
}

/// The groups a clustering yields, the largest first; none unless at least two
/// clusters formed.
pub open spec fn groups_of(
    items: Seq<WorkspaceItemView>,
    clusters: Seq<Seq<usize>>,
) -> Seq<WorkspaceGroupView> {
    if clusters.len() < 2 {
        Seq::empty()
    } else {
        Seq::new(clusters.len(), |i: int| group_of(items, by_size(clusters)[i], i))
    }
}

fn build_group(items: &Vec<WorkspaceItem>, cluster: &Vec<usize>, index: usize) -> (r:
    WorkspaceGroup)
    requires
        forall|j: int| 0 <= j < cluster.len() ==> (#[trigger] cluster@[j]) < items.len(),
    ensures
        r.deep_view() == group_of(items.deep_view(), cluster.deep_view(), index as int),
{
    let ghost all = items.deep_view();
    let ghost picked = members_of(all, cluster.deep_view());
    let ghost refs = picked.map_values(|m: WorkspaceItemView| m.item_ref);
    let mut members: Vec<&WorkspaceItem> = Vec::new();
    let mut item_refs: Vec<ItemRef> = Vec::new();
    let mut j: usize = 0;
    assert(members.deep_view() =~= picked.take(0));
    assert(item_refs.deep_view() =~= refs.take(0));
    while j < cluster.len()
        invariant
            j <= cluster.len(),
            all == items.deep_view(),
            picked == members_of(all, cluster.deep_view()),
            refs == picked.map_values(|m: WorkspaceItemView| m.item_ref),
            forall|j: int| 0 <= j < cluster.len() ==> (#[trigger] cluster@[j]) < items.len(),
            members.deep_view() == picked.take(j as int),
            item_refs.deep_view() == refs.take(j as int),
        decreases cluster.len() - j,
    {
        let ghost m0 = members.deep_view();
        let ghost r0 = item_refs.deep_view();
        let at: usize = cluster[j];
        assert(cluster.deep_view()[j as int] == cluster@[j as int]);
        assert(picked[j as int] == all[at as int]);
        assert(refs[j as int] == all[at as int].item_ref);
        members.push(&items[at]);
        item_refs.push(items[at].item_ref.clone());
        assert(members.deep_view() =~= m0.push(all[at as int]));
        assert(members.deep_view() =~= picked.take(j + 1));
        assert(item_refs.deep_view() =~= r0.push(all[at as int].item_ref));
        assert(item_refs.deep_view() =~= refs.take(j + 1));
        j = j + 1;
    }
    assert(picked.take(picked.len() as int) =~= picked);
    assert(refs.take(refs.len() as int) =~= refs);
    let label = heuristic_group_label(members.as_slice());
    WorkspaceGroup {
        group_id: "g".to_owned().concat(decimal_of(index as u128).as_str()),
        label,
        items: item_refs,
    }
}

/// Packages clusters of item indices as groups "g0", "g1", .., the largest
/// first. Returns none unless at least two clusters formed: a single group
/// carries no more information than the workspace itself.
pub fn build_groups(items: &Vec<WorkspaceItem>, clusters: &Vec<Vec<usize>>) -> (r: Vec<
    WorkspaceGroup,
>)
    requires
        forall|c: int, j: int|
            0 <= c < clusters.len() && 0 <= j < clusters@[c].len() ==> (#[trigger] clusters@[c]@[j])
                < items.len(),
    ensures
        r.deep_view() == groups_of(items.deep_view(), clusters.deep_view()),
{
    let mut out: Vec<WorkspaceGroup> = Vec::new();
    if clusters.len() < 2 {
        assert(out.deep_view() =~= Seq::<WorkspaceGroupView>::empty());
        return out;
    }
    let ghost all = groups_of(items.deep_view(), clusters.deep_view());
    let sorted = sort_by_size(clusters);
    proof {
        let unsorted = clusters.deep_view();
        let before = |a: Seq<usize>, b: Seq<usize>| larger_first(a, b);
        let known = |c: Seq<usize>|
            forall|j: int| 0 <= j < c.len() ==> #[trigger] c[j] < items.len();
        order::lemma_ordered_permutes(unsorted, before);
        assert forall|c: int| 0 <= c < unsorted.len() implies known(#[trigger] unsorted[c]) by {
            assert forall|j: int| 0 <= j < unsorted[c].len() implies #[trigger] unsorted[c][j]
                < items.len() by {
                assert(unsorted[c][j] == clusters@[c]@[j]);
            }
        }
        order::lemma_ordered_members(unsorted, before, known);
        assert forall|c: int, j: int| 0 <= c < sorted.len() && 0 <= j < sorted@[c].len() implies (
        #[trigger] sorted@[c]@[j]) < items.len() by {
            assert(known(sorted.deep_view()[c]));
            assert(sorted.deep_view()[c][j] == sorted@[c]@[j]);
        }
    }
    let mut i: usize = 0;
    assert(out.deep_view() =~= all.take(0));
    while i < sorted.len()
        invariant
            i <= sorted.len(),
            2 <= clusters.len(),
            sorted.len() == clusters.len(),
            sorted.deep_view() == by_size(clusters.deep_view()),
            all == groups_of(items.deep_view(), clusters.deep_view()),
            forall|c: int, j: int|
                0 <= c < sorted.len() && 0 <= j < sorted@[c].len() ==> (
                #[trigger] sorted@[c]@[j]) < items.len(),
            out.deep_view() == all.take(i as int),
        decreases sorted.len() - i,
    {
        let ghost before = out.deep_view();
        out.push(build_group(items, &sorted[i], i));
        assert(all[i as int] == group_of(
            items.deep_view(),
            sorted.deep_view()[i as int],
            i as int,
        ));
        assert(out.deep_view() =~= before.push(all[i as int]));
        assert(out.deep_view() =~= all.take(i + 1));
        i = i + 1;
    }
    assert(all.take(all.len() as int) =~= all);
    out
}

/// A resolved selection from a source workspace: a node, plus (for Browser
/// nodes) which of its tabs to keep. Without tab indices the node stays whole.
#[derive(Debug, PartialEq)]
pub struct NodePick {
    pub node: WindowNode,
    pub tab_indices: Option<Vec<i32>>,
}

/// What a `NodePick` says: its texts as character sequences, its lists as sequences.
#[verifier::ext_equal]
pub struct NodePickView {
    pub node: WindowNodeView,
    pub tab_indices: Option<Seq<i32>>,
}

impl DeepView for NodePick {
    type V = NodePickView;

    open spec fn deep_view(&self) -> NodePickView {
        NodePickView {
            node: self.node.deep_view(),
            tab_indices: self.tab_indices.deep_view(),
        }
    }
}

impl Clone for NodePick {
    fn clone(&self) -> (r: Self)
        ensures
            r.deep_view() == self.deep_view(),
    {
        NodePick {
            node: self.node.clone(),
            tab_indices: self.tab_indices.clone(),
        }
    }
}

/// `current` with those of `new` it does not hold yet behind it.
pub open spec fn united(current: Seq<i32>, new: Seq<i32>) -> Seq<i32>
    decreases new.len(),
{
    if new.len() == 0 {
        current
    } else {
        let grown = united(current, new.drop_last());
        if grown.contains(new.last()) {
            grown
        } else {
            grown.push(new.last())
        }
    }
}

/// A pick with the tabs of a later pick of the same node added. A whole-node
/// pick keeps its shape.
pub open spec fn widened(pick: NodePickView, more: Option<Seq<i32>>) -> NodePickView {
    match (pick.tab_indices, more) {
        (Some(current), Some(new)) => NodePickView {
            tab_indices: Some(united(current, new)),
            ..pick
        },
        _ => pick,
    }
}

/// Index of the pick of a source node, or `picks.len()` when there is none.
pub open spec fn pick_at(picks: Seq<NodePickView>, node_id: Seq<char>) -> int {
    order::first_where(picks, |p: NodePickView| p.node.node_id == node_id, 0)
}

/// One pick per source node, in the order the nodes were first picked.
pub open spec fn folded(picks: Seq<NodePickView>) -> Seq<NodePickView>
    decreases picks.len(),
{
    if picks.len() == 0 {
        Seq::empty()
    } else {
        let done = folded(picks.drop_last());
        let p = picks.last();
        let at = pick_at(done, p.node.node_id);
        if at < done.len() {
            done.update(at, widened(done[at], p.tab_indices))
        } else {
            done.push(p)
        }
    }
}

/// The picked tab indices that exist, ascending.
pub open spec fn kept_tabs(indices: Seq<i32>, count: nat) -> Seq<i32> {
    order::ordered(indices, |a: i32, b: i32| a < b).filter(|i: i32| 0 <= i < count)
}

/// The test for one tab index.
pub open spec fn is_tab(index: i32) -> spec_fn(i32) -> bool {
    |i: i32| i == index
}

/// Where the active tab stands among the kept ones; the first when it is not
/// among them.
pub open spec fn active_among(kept: Seq<i32>, active: i32) -> i32 {
    let at = order::first_where(kept, is_tab(active), 0);
    if at < kept.len() {
        at as usize as i32
    } else {
        0
    }
}

/// The node a pick becomes; none when every picked tab is gone.
pub open spec fn standalone(pick: NodePickView) -> Seq<WindowNodeView> {
    match (pick.tab_indices, pick.node.payload) {
        (Some(indices), NodePayloadView::Browser { tabs, active_tab_index }) => {
            let kept = kept_tabs(indices, tabs.len());
            if kept.len() == 0 {
                Seq::empty()
            } else {
                seq![
                    WindowNodeView {
                        payload: NodePayloadView::Browser {
                            tabs: kept.map_values(|i: i32| tabs[i as int]),
                            active_tab_index: active_among(kept, active_tab_index),
                        },
                        ..pick.node
                    },
                ]
            }
        },
        _ => seq![pick.node],
    }
}

/// The nodes with ids "n0", "n1", .. in order.
pub open spec fn numbered(nodes: Seq<WindowNodeView>) -> Seq<WindowNodeView> {
    Seq::new(
        nodes.len(),
        |i: int| WindowNodeView { node_id: "n"@ + text::decimal(i as nat), ..nodes[i] },
    )
}

/// The nodes that picks become.
pub open spec fn synthesized(picks: Seq<NodePickView>) -> Seq<WindowNodeView> {
    numbered(text::gathered(folded(picks), |p: NodePickView| standalone(p)))
}

fn unite(current: &Vec<i32>, new: &Vec<i32>) -> (r: Vec<i32>)
    ensures
        r@ == united(current@, new@),
{
    let mut out = current.clone();
    assert(out@ =~= current@);
    let mut i: usize = 0;
    assert(new@.take(0) =~= Seq::<i32>::empty());
    while i < new.len()
        invariant
            i <= new.len(),
            out@ == united(current@, new@.take(i as int)),
        decreases new.len() - i,
    {
        proof {
            text::lemma_take_step(new@, i as int);
        }
        if !has_index(&out, new[i]) {
            out.push(new[i]);
        }
        i = i + 1;
    }
    assert(new@.take(new@.len() as int) =~= new@);
    out
}

fn has_index(v: &Vec<i32>, x: i32) -> (r: bool)
    ensures
        r == v@.contains(x),
{
    let mut i: usize = 0;
    while i < v.len()
        invariant
            i <= v.len(),
            forall|j: int| 0 <= j < i ==> v@[j] != x,
        decreases v.len() - i,
    {
        if v[i] == x {
            return true;
        }
        i = i + 1;
    }
    false
}

fn find_pick(picks: &Vec<NodePick>, node_id: &str) -> (r: usize)
    ensures
        r == pick_at(picks.deep_view(), node_id@),
        r <= picks.len(),
{
    let ghost all = picks.deep_view();
    let ghost pred = |p: NodePickView| p.node.node_id == node_id@;
    let mut i: usize = 0;
    while i < picks.len()
        invariant
            i <= picks.len(),
            all == picks.deep_view(),
            pred == (|p: NodePickView| p.node.node_id == node_id@),
            order::first_where(all, pred, 0) == order::first_where(all, pred, i as int),
        decreases picks.len() - i,
    {
        if str_eq(picks[i].node.node_id.as_str(), node_id) {
            assert(pred(all[i as int]));
            return i;
        }
        assert(!pred(all[i as int]));
        i = i + 1;
    }
    i
}

fn fold_picks(picks: &Vec<NodePick>) -> (r: Vec<NodePick>)
    ensures
        r.deep_view() == folded(picks.deep_view()),
{
    let ghost all = picks.deep_view();
    let mut out: Vec<NodePick> = Vec::new();
    let mut i: usize = 0;
    assert(out.deep_view() =~= folded(all.take(0)));
    while i < picks.len()
        invariant
            i <= picks.len(),
            all == picks.deep_view(),
            out.deep_view() == folded(all.take(i as int)),
        decreases picks.len() - i,
    {
        let ghost done = out.deep_view();
        let p = &picks[i];
        let at: usize = find_pick(&out, p.node.node_id.as_str());
        proof {
            text::lemma_take_step(all, i as int);
            assert(all[i as int] == p.deep_view());
        }
        if at < out.len() {
            let mut kept = out.remove(at);
            let ghost old_kept = kept.deep_view();
            assert(old_kept == done[at as int]);
            let grown: Option<Vec<i32>> = match (&kept.tab_indices, &p.tab_indices) {
                (Some(current), Some(new)) => {
                    let u = unite(current, new);
                    assert(u.deep_view() =~= u@);
                    assert(current.deep_view() =~= current@);
                    assert(new.deep_view() =~= new@);
                    Some(u)
                },
                _ => None,
            };
            if let Some(indices) = grown {
                kept.tab_indices = Some(indices);
            }
            assert(kept.deep_view() == widened(old_kept, p.deep_view().tab_indices));
            out.insert(at, kept);
            assert(out.deep_view() =~= done.update(
                at as int,
                widened(done[at as int], p.deep_view().tab_indices),
            ));
        } else {
            out.push(p.clone());
            assert(out.deep_view() =~= done.push(p.deep_view()));
        }
        i = i + 1;
    }
    assert(all.take(all.len() as int) =~= all);
    out
}

fn sort_indices(v: &Vec<i32>) -> (r: Vec<i32>)
    ensures
        r@ == order::ordered(v@, |a: i32, b: i32| a < b),
{
    let ghost before = |a: i32, b: i32| a < b;
    let mut out: Vec<i32> = Vec::new();
    let mut i: usize = 0;
    assert(out@ =~= order::ordered(v@.take(0), before));
    while i < v.len()
        invariant
            i <= v.len(),
            before == (|a: i32, b: i32| a < b),
            out@ == order::ordered(v@.take(i as int), before),
        decreases v.len() - i,
    {
        let x: i32 = v[i];
        let mut k: usize = out.len();
        while k > 0 && x < out[k - 1]
            invariant
                k <= out.len(),
                before == (|a: i32, b: i32| a < b),
                order::slot(out@, x, before, out@.len() as int) == order::slot(
                    out@,
                    x,
                    before,
                    k as int,
                ),
            decreases k,
        {
            k = k - 1;
        }
        out.insert(k, x);
        proof {
            text::lemma_take_step(v@, i as int);
        }
        i = i + 1;
    }
    assert(v@.take(v@.len() as int) =~= v@);
    out
}

fn keep_tabs(indices: &Vec<i32>, count: usize) -> (r: Vec<i32>)
    ensures
        r@ == kept_tabs(indices@, count as nat),
{
    let sorted = sort_indices(indices);
    let ghost keep = |i: i32| 0 <= i < count as nat;
    let mut out: Vec<i32> = Vec::new();
    let mut i: usize = 0;
    reveal(Seq::filter);
    assert(out@ =~= sorted@.take(0).filter(keep));
    while i < sorted.len()
        invariant
            i <= sorted.len(),
            keep == (|i: i32| 0 <= i < count as nat),
            out@ == sorted@.take(i as int).filter(keep),
        decreases sorted.len() - i,
    {
        proof {
            reveal(Seq::filter);
            text::lemma_take_step(sorted@, i as int);
        }
        let x: i32 = sorted[i];
        if x >= 0 && (x as usize) < count {
            out.push(x);
        }
        i = i + 1;
    }
    assert(sorted@.take(sorted@.len() as int) =~= sorted@);
    out
}

fn find_active(kept: &Vec<i32>, active: i32) -> (r: i32)
    ensures
        r == active_among(kept@, active),
{
    let ghost pred = is_tab(active);
    let mut k: usize = 0;
    while k < kept.len()
        invariant
            k <= kept.len(),
            pred == is_tab(active),
            order::first_where(kept@, pred, 0) == order::first_where(kept@, pred, k as int),
        decreases kept.len() - k,
    {
        if kept[k] == active {
            return k as i32;
        }
        k = k + 1;
    }
    0
}

/// The node one folded pick becomes, if any of it is left.
fn stand_alone(pick: &NodePick) -> (r: Option<WindowNode>)
    ensures
        standalone(pick.deep_view()) == match r {
            Some(node) => seq![node.deep_view()],
            None => Seq::empty(),
        },
{
    match (&pick.tab_indices, &pick.node.payload) {
        (Some(indices), NodePayload::Browser { tabs, active_tab_index }) => {
            assert(indices.deep_view() =~= indices@);
            let kept = keep_tabs(indices, tabs.len());
            if kept.len() == 0 {
                return None;
            }
            let ghost all = tabs.deep_view();
            let ghost want = kept@.map_values(|i: i32| all[i as int]);
            proof {
                order::lemma_filtered(
                    order::ordered(indices@, |a: i32, b: i32| a < b),
                    |i: i32| 0 <= i < all.len(),
                );
            }
            let mut out: Vec<BrowserTab> = Vec::new();
            let mut k: usize = 0;
            assert(out.deep_view() =~= want.take(0));
            while k < kept.len()
                invariant
                    k <= kept.len(),
                    all == tabs.deep_view(),
                    want == kept@.map_values(|i: i32| all[i as int]),
                    forall|j: int| 0 <= j < kept.len() ==> 0 <= (#[trigger] kept@[j]) < tabs.len(),
                    out.deep_view() == want.take(k as int),
                decreases kept.len() - k,
            {
                let ghost before = out.deep_view();
                let at: usize = kept[k] as usize;
                out.push(tabs[at].clone());
                assert(want[k as int] == all[at as int]);
                assert(out.deep_view() =~= before.push(all[at as int]));
                assert(out.deep_view() =~= want.take(k + 1));
                k = k + 1;
            }
            assert(want.take(want.len() as int) =~= want);
            let mut node = pick.node.clone();
            node.payload = NodePayload::Browser {
                tabs: out,
                active_tab_index: find_active(&kept, *active_tab_index),
            };
            Some(node)
        },
        _ => Some(pick.node.clone()),
    }
}

/// Merges picks into standalone nodes ready for a synthesized workspace.
/// Several picks of one browser window collapse into one window with only the
/// picked tabs (the originally active tab stays active if picked, else the
/// first). Other picks pass through. Node ids are reassigned "n0", "n1", .. so
/// that the result stands alone.
pub fn synthesize_nodes(picks: Vec<NodePick>) -> (r: Vec<WindowNode>)
    ensures
        r.deep_view() == synthesized(picks.deep_view()),
{
    let merged_picks = fold_picks(&picks);
    let ghost all = merged_picks.deep_view();
    let ghost f = |p: NodePickView| standalone(p);
    let mut nodes: Vec<WindowNode> = Vec::new();
    let mut i: usize = 0;
    assert(nodes.deep_view() =~= numbered(text::gathered(all.take(0), f)));
    while i < merged_picks.len()
        invariant
            i <= merged_picks.len(),
            all == merged_picks.deep_view(),
            f == (|p: NodePickView| standalone(p)),
            nodes.deep_view() == numbered(text::gathered(all.take(i as int), f)),
        decreases merged_picks.len() - i,
    {
        let ghost before = nodes.deep_view();
        let ghost bare = text::gathered(all.take(i as int), f);
        proof {
            text::lemma_take_step(all, i as int);
        }
        match stand_alone(&merged_picks[i]) {
            Some(node) => {
                let ghost v = node.deep_view();
                assert(nodes.deep_view().len() == bare.len());
                let mut node = node;
                node.node_id = "n".to_owned().concat(decimal_of(nodes.len() as u128).as_str());
                let ghost w = node.deep_view();
                assert(w == (WindowNodeView {
                    node_id: "n"@ + text::decimal(bare.len()),
                    ..v
                }));
                nodes.push(node);
                assert(nodes.deep_view() =~= before.push(w));
                assert(text::gathered(all.take(i + 1), f) =~= bare.push(v));
                assert(nodes.deep_view() =~= numbered(bare.push(v)));
            },
            None => {
                assert(text::gathered(all.take(i + 1), f) =~= bare);
            },
        }
        i = i + 1;
    }
    assert(all.take(all.len() as int) =~= all);
    nodes
}

/// Index of the node with an id, or `nodes.len()` when there is none.
pub open spec fn node_at(nodes: Seq<WindowNodeView>, node_id: Seq<char>) -> int {
    order::first_where(nodes, |n: WindowNodeView| n.node_id == node_id, 0)
}

/// What a reference points at: the node, whole or one tab of it; none when it
/// is stale.
pub open spec fn resolved(nodes: Seq<WindowNodeView>, item: ItemRefView) -> Seq<NodePickView> {
    let at = node_at(nodes, item.node_id);
    if at >= nodes.len() {
        Seq::empty()
    } else {
        match item.tab_index {
            None => seq![NodePickView { node: nodes[at], tab_indices: None }],
            Some(index) => match nodes[at].payload {
                NodePayloadView::Browser { tabs, active_tab_index } => if 0 <= index < tabs.len() {
                    seq![NodePickView { node: nodes[at], tab_indices: Some(seq![index]) }]
                } else {
                    Seq::empty()
                },
                _ => Seq::empty(),
            },
        }
    }
}

/// Index of the group with an id, or `groups.len()` when there is none.
pub open spec fn group_at(groups: Seq<WorkspaceGroupView>, group_id: Seq<char>) -> int {
    order::first_where(groups, |g: WorkspaceGroupView| g.group_id == group_id, 0)
}

/// The nodes a list of references stands for.
pub open spec fn referenced(nodes: Seq<WindowNodeView>, items: Seq<ItemRefView>) -> Seq<
    WindowNodeView,
> {
    synthesized(text::gathered(items, |r: ItemRefView| resolved(nodes, r)))
}

/// The workspace one group stands for; none when the group is unknown or
/// nothing of it is left.
pub open spec fn materialized(ws: WorkspaceStateView, group_id: Seq<char>) -> Option<
    WorkspaceStateView,
> {
    let at = group_at(ws.groups, group_id);
    if at >= ws.groups.len() {
        None
    } else {
        let nodes = referenced(ws.nodes, ws.groups[at].items);
        if nodes.len() == 0 {
            None
        } else {
            Some(
                WorkspaceStateView {
                    workspace_id: ws.workspace_id + "::"@ + group_id,
                    captured_at_unix_ms: ws.captured_at_unix_ms,
                    summary: ws.groups[at].label,
                    tags: tagging::tags_of(nodes),
                    nodes,
                    groups: Seq::empty(),
                },
            )
        }
    }
}

/// Index of the node with an id; the number of nodes when there is none.
pub fn find_node(nodes: &Vec<WindowNode>, node_id: &str) -> (r: usize)
    ensures
        r == node_at(nodes.deep_view(), node_id@),
        r <= nodes.len(),
{
    let ghost all = nodes.deep_view();
    let ghost pred = |n: WindowNodeView| n.node_id == node_id@;
    let mut i: usize = 0;
    while i < nodes.len()
        invariant
            i <= nodes.len(),
            all == nodes.deep_view(),
            pred == (|n: WindowNodeView| n.node_id == node_id@),
            order::first_where(all, pred, 0) == order::first_where(all, pred, i as int),
        decreases nodes.len() - i,
    {
        if str_eq(nodes[i].node_id.as_str(), node_id) {
            assert(pred(all[i as int]));
            return i;
        }
        assert(!pred(all[i as int]));
        i = i + 1;
    }
    i
}

fn find_group(groups: &Vec<WorkspaceGroup>, group_id: &str) -> (r: usize)
    ensures
        r == group_at(groups.deep_view(), group_id@),
        r <= groups.len(),
{
    let ghost all = groups.deep_view();
    let ghost pred = |g: WorkspaceGroupView| g.group_id == group_id@;
    let mut i: usize = 0;
    while i < groups.len()
        invariant
            i <= groups.len(),
            all == groups.deep_view(),
            pred == (|g: WorkspaceGroupView| g.group_id == group_id@),
            order::first_where(all, pred, 0) == order::first_where(all, pred, i as int),
        decreases groups.len() - i,
    {
        if str_eq(groups[i].group_id.as_str(), group_id) {
            assert(pred(all[i as int]));
            return i;
        }
        assert(!pred(all[i as int]));
        i = i + 1;
    }
    i
}

fn resolve(nodes: &Vec<WindowNode>, item: &ItemRef) -> (r: Option<NodePick>)
    ensures
        resolved(nodes.deep_view(), item.deep_view()) == match r {
            Some(pick) => seq![pick.deep_view()],
            None => Seq::empty(),
        },
{
    let at: usize = find_node(nodes, item.node_id.as_str());
    if at >= nodes.len() {
        return None;
    }
    match item.tab_index {
        None => Some(NodePick { node: nodes[at].clone(), tab_indices: None }),
        Some(index) => {
            match &nodes[at].payload {
                NodePayload::Browser { tabs, active_tab_index: _ } => {
                    if index < 0 || index as usize >= tabs.len() {
                        return None;
                    }
                    let mut one: Vec<i32> = Vec::new();
                    one.push(index);
                    assert(one.deep_view() =~= seq![index]);
                    Some(NodePick { node: nodes[at].clone(), tab_indices: Some(one) })
                },
                _ => None,
            }
        },
    }
}

/// Resolves one group of `ws` into a standalone rehydratable workspace. Stale
/// references (node or tab no longer present) are skipped; returns `None` if
/// the group id is unknown or nothing resolves. Tags are derived from the nodes
/// left, so that they stay truthful to what this slice contains.
pub fn materialize_group(ws: &WorkspaceState, group_id: &str) -> (r: Option<WorkspaceState>)
    ensures
        r.deep_view() == materialized(ws.deep_view(), group_id@),
{
    let at: usize = find_group(&ws.groups, group_id);
    if at >= ws.groups.len() {
        return None;
    }
    let group = &ws.groups[at];
    let ghost nodes_view = ws.nodes.deep_view();
    let ghost refs = group.items.deep_view();
    let ghost f = |r: ItemRefView| resolved(nodes_view, r);
    let mut picks: Vec<NodePick> = Vec::new();
    let mut i: usize = 0;
    assert(picks.deep_view() =~= text::gathered(refs.take(0), f));
    while i < group.items.len()
        invariant
            i <= group.items.len(),
            nodes_view == ws.nodes.deep_view(),
            refs == group.items.deep_view(),
            f == (|r: ItemRefView| resolved(nodes_view, r)),
            picks.deep_view() == text::gathered(refs.take(i as int), f),
        decreases group.items.len() - i,
    {
        let ghost before = picks.deep_view();
        if let Some(pick) = resolve(&ws.nodes, &group.items[i]) {
            picks.push(pick);
        }
        proof {
            text::lemma_take_step(refs, i as int);
            assert(picks.deep_view() =~= before + f(refs[i as int]));
        }
        i = i + 1;
    }
    assert(refs.take(refs.len() as int) =~= refs);
    let nodes = synthesize_nodes(picks);
    if nodes.len() == 0 {
        return None;
    }
    proof {
        let pred = |g: WorkspaceGroupView| g.group_id == group_id@;
        order::lemma_first_where(ws.groups.deep_view(), pred, 0);
        assert(ws.groups.deep_view()[at as int] == group.deep_view());
    }
    let bare = WorkspaceState {
        workspace_id: ws.workspace_id.clone().concat("::").concat(group.group_id.as_str()),
        captured_at_unix_ms: ws.captured_at_unix_ms,
        summary: group.label.clone(),
        tags: Vec::new(),
        nodes,
        groups: Vec::new(),
    };
    assert(bare.groups.deep_view() =~= Seq::<WorkspaceGroupView>::empty());
    let tags = derive_tags(&bare);
    Some(WorkspaceState { tags, ..bare })
}

/// Folding leaves at most one pick per source node.
pub proof fn one_pick_per_source(picks: Seq<NodePickView>)
    ensures
        forall|i: int, j: int|
            0 <= i < j < folded(picks).len() ==> (#[trigger] folded(picks)[i]).node.node_id != (
            #[trigger] folded(picks)[j]).node.node_id,
    decreases picks.len(),
{
    if picks.len() > 0 {
        one_pick_per_source(picks.drop_last());
        let done = folded(picks.drop_last());
        let p = picks.last();
        let pred = |q: NodePickView| q.node.node_id == p.node.node_id;
        order::lemma_first_where(done, pred, 0);
        assert forall|i: int, j: int| 0 <= i < j < folded(picks).len() implies (#[trigger] folded(
            picks,
        )[i]).node.node_id != (#[trigger] folded(picks)[j]).node.node_id by {
            assert(done[i].node.node_id == folded(picks)[i].node.node_id);
            if j < done.len() {
                assert(done[j].node.node_id == folded(picks)[j].node.node_id);
            } else {
                assert(!pred(done[i]));
            }
        }
    }
}

/// Synthesized nodes are numbered "n0", "n1", .. in order.
pub proof fn synthesized_ids_count_up(picks: Seq<NodePickView>, i: int)
    requires
        0 <= i < synthesized(picks).len(),
    ensures
        synthesized(picks)[i].node_id == "n"@ + text::decimal(i as nat),
{
}

/// The active tab stays active when it was picked, and is the first tab when it
/// was not; either way it is one of the tabs kept.
pub proof fn active_tab_is_kept(kept: Seq<i32>, active: i32)
    requires
        0 < kept.len() <= i32::MAX,
    ensures
        0 <= active_among(kept, active) < kept.len(),
        kept.contains(active) ==> kept[active_among(kept, active) as int] == active,
        !kept.contains(active) ==> active_among(kept, active) == 0,
{
    order::lemma_first_where(kept, is_tab(active), 0);
    let at = order::first_where(kept, is_tab(active), 0);
    if kept.contains(active) {
        let j = choose|j: int| 0 <= j < kept.len() && kept[j] == active;
        assert(is_tab(active)(kept[j]));
    }
}

/// Whether `n` is `source`, or a slice of it: the same window with only some of
/// its tabs. The id may differ.
pub open spec fn is_slice(n: WindowNodeView, source: WindowNodeView) -> bool {
    &&& n.bundle_id == source.bundle_id
    &&& n.app_name == source.app_name
    &&& n.window_title == source.window_title
    &&& n.geometry == source.geometry
    &&& n.adapter == source.adapter
    &&& match (n.payload, source.payload) {
        (
            NodePayloadView::Browser { tabs, active_tab_index: _ },
            NodePayloadView::Browser { tabs: all, active_tab_index: _ },
        ) => forall|t: BrowserTabView| tabs.contains(t) ==> #[trigger] all.contains(t),
        (a, b) => a == b,
    }
}

proof fn lemma_standalone_is_slice(pick: NodePickView, i: int)
    requires
        0 <= i < standalone(pick).len(),
    ensures
        is_slice(standalone(pick)[i], pick.node),
{
    match (pick.tab_indices, pick.node.payload) {
        (Some(indices), NodePayloadView::Browser { tabs, active_tab_index }) => {
            let kept = kept_tabs(indices, tabs.len());
            order::lemma_filtered(
                order::ordered(indices, |a: i32, b: i32| a < b),
                |i: i32| 0 <= i < tabs.len(),
            );
            let some = kept.map_values(|i: i32| tabs[i as int]);
            assert forall|t: BrowserTabView| some.contains(t) implies #[trigger] tabs.contains(
                t,
            ) by {
                let k = choose|k: int| 0 <= k < some.len() && some[k] == t;
                assert(tabs[kept[k] as int] == t);
            }
        },
        _ => {},
    }
}

proof fn lemma_folded_nodes(picks: Seq<NodePickView>, ok: spec_fn(WindowNodeView) -> bool)
    requires
        forall|i: int| 0 <= i < picks.len() ==> ok((#[trigger] picks[i]).node),
    ensures
        forall|i: int| 0 <= i < folded(picks).len() ==> ok((#[trigger] folded(picks)[i]).node),
    decreases picks.len(),
{
    if picks.len() > 0 {
        assert forall|i: int| 0 <= i < picks.drop_last().len() implies ok(
            (#[trigger] picks.drop_last()[i]).node,
        ) by {
            assert(picks.drop_last()[i] == picks[i]);
        }
        lemma_folded_nodes(picks.drop_last(), ok);
        let done = folded(picks.drop_last());
        let p = picks.last();
        assert(picks[picks.len() - 1] == p);
        order::lemma_first_where(done, |q: NodePickView| q.node.node_id == p.node.node_id, 0);
        assert forall|i: int| 0 <= i < folded(picks).len() implies ok(
            (#[trigger] folded(picks)[i]).node,
        ) by {
            if i < done.len() {
                assert(done[i].node == folded(picks)[i].node);
            }
        }
    }
}

/// Every synthesized node is a slice of a node that was picked.
pub proof fn synthesized_nodes_are_slices(
    picks: Seq<NodePickView>,
    ok: spec_fn(WindowNodeView) -> bool,
    i: int,
)
    requires
        0 <= i < synthesized(picks).len(),
        forall|k: int| 0 <= k < picks.len() ==> ok((#[trigger] picks[k]).node),
    ensures
        exists|source: WindowNodeView| #[trigger]
            ok(source) && is_slice(synthesized(picks)[i], source),
{
    let f = |p: NodePickView| standalone(p);
    let r = text::lemma_gathered_from(folded(picks), f, i);
    let pick = folded(picks)[r.0];
    lemma_folded_nodes(picks, ok);
    lemma_standalone_is_slice(pick, r.1);
    let bare = text::gathered(folded(picks), f)[i];
    assert(ok(pick.node));
    assert(is_slice(synthesized(picks)[i], pick.node));
}

/// A materialized group holds nothing but slices of the workspace it was carved
/// from, in windows of its own, and tags that say what those windows hold.
pub proof fn materialized_group_is_a_slice(ws: WorkspaceStateView, group_id: Seq<char>, i: int)
    requires
        materialized(ws, group_id) matches Some(m) && 0 <= i < m.nodes.len(),
    ensures
        materialized(ws, group_id) matches Some(m) && m.tags == tagging::tags_of(m.nodes)
            && m.nodes[i].node_id == "n"@ + text::decimal(i as nat) && exists|k: int|
            0 <= k < ws.nodes.len() && is_slice(m.nodes[i], #[trigger] ws.nodes[k]),
{
    let items = ws.groups[group_at(ws.groups, group_id)].items;
    let f = |r: ItemRefView| resolved(ws.nodes, r);
    let picks = text::gathered(items, f);
    let ok = |n: WindowNodeView| ws.nodes.contains(n);
    assert forall|k: int| 0 <= k < picks.len() implies ok((#[trigger] picks[k]).node) by {
        let r = text::lemma_gathered_from(items, f, k);
        let item = items[r.0];
        order::lemma_first_where(
            ws.nodes,
            |n: WindowNodeView| n.node_id == item.node_id,
            0,
        );
        assert(ws.nodes[node_at(ws.nodes, item.node_id)] == picks[k].node);
    }
    synthesized_nodes_are_slices(picks, ok, i);
    let node = synthesized(picks)[i];
    let source = choose|source: WindowNodeView| #[trigger] ok(source) && is_slice(node, source);
    let k = choose|k: int| 0 <= k < ws.nodes.len() && ws.nodes[k] == source;
    assert(is_slice(node, ws.nodes[k]));
}

/// References made by `items_for` resolve: where node ids don't repeat, the
/// reference of each item of a window yields that window, and for a browser tab
/// just that tab.
pub proof fn item_references_resolve(nodes: Seq<WindowNodeView>, k: int, j: int)
    requires
        0 <= k < nodes.len(),
        0 <= j < node_items(nodes[k]).len() <= i32::MAX,
        forall|a: int, b: int|
            0 <= a < b < nodes.len() ==> (#[trigger] nodes[a]).node_id != (
            #[trigger] nodes[b]).node_id,
    ensures
        resolved(nodes, node_items(nodes[k])[j].item_ref) == seq![
            NodePickView {
                node: nodes[k],
                tab_indices: if nodes[k].payload is Browser {
                    Some(seq![j as i32])
                } else {
                    None
                },
            },
        ],
{
    let item = node_items(nodes[k])[j];
    let pred = |n: WindowNodeView| n.node_id == item.item_ref.node_id;
    order::lemma_first_where(nodes, pred, 0);
    let at = node_at(nodes, item.item_ref.node_id);
    assert(pred(nodes[k]));
    assert(at == k);
}

/// Two terminal windows open on the same set of directories are one item across
/// snapshots, in whatever order and however often each directory is open.
pub proof fn terminal_identity_is_its_directories(
    a: Seq<TerminalTabView>,
    b: Seq<TerminalTabView>,
)
    requires
        forall|dir: Seq<char>|
            dir.len() > 0 ==> (#[trigger] cwds_of(a).contains(dir) <==> cwds_of(b).contains(dir)),
    ensures
        terminal_dirs(a) == terminal_dirs(b),
{
    broadcast use vstd::seq_lib::group_filter_ensures;

    let keep = |c: Seq<char>| c.len() > 0;
    let x = cwds_of(a).filter(keep);
    let y = cwds_of(b).filter(keep);
    order::lemma_filtered(cwds_of(a), keep);
    order::lemma_filtered(cwds_of(b), keep);
    text::lemma_sorted_collapsed(x);
    text::lemma_sorted_collapsed(y);
    assert forall|dir: Seq<char>| #[trigger] terminal_dirs(a).contains(dir) <==> terminal_dirs(
        b,
    ).contains(dir) by {
        assert(x.contains(dir) <==> dir.len() > 0 && cwds_of(a).contains(dir)) by {
            if cwds_of(a).contains(dir) && dir.len() > 0 {
                let i = choose|i: int| 0 <= i < cwds_of(a).len() && cwds_of(a)[i] == dir;
                assert(x.contains(cwds_of(a)[i]));
            }
        }
        assert(y.contains(dir) <==> dir.len() > 0 && cwds_of(b).contains(dir)) by {
            if cwds_of(b).contains(dir) && dir.len() > 0 {
                let i = choose|i: int| 0 <= i < cwds_of(b).len() && cwds_of(b)[i] == dir;
                assert(y.contains(cwds_of(b)[i]));
            }
        }
    }
    text::lemma_ascending_unique(terminal_dirs(a), terminal_dirs(b));
}

/// Captured and synthesized nodes are told apart by their ids.
pub proof fn numbered_ids_are_distinct(nodes: Seq<WindowNodeView>, i: int, j: int)
    requires
        0 <= i < j < nodes.len(),
    ensures
        numbered(nodes)[i].node_id != numbered(nodes)[j].node_id,
{
    text::lemma_numbered("n"@, i as nat, j as nat);
}

/// A group is found by its id: no two groups of a workspace share one.
pub proof fn groups_are_found_by_id(
    items: Seq<WorkspaceItemView>,
    clusters: Seq<Seq<usize>>,
    k: int,
)
    requires
        0 <= k < groups_of(items, clusters).len(),
    ensures
        group_at(groups_of(items, clusters), groups_of(items, clusters)[k].group_id) == k,
{
    let groups = groups_of(items, clusters);
    let pred = |g: WorkspaceGroupView| g.group_id == groups[k].group_id;
    order::lemma_first_where(groups, pred, 0);
    let at = group_at(groups, groups[k].group_id);
    assert(pred(groups[k]));
    assert(pred(groups[at]));
    text::lemma_numbered("g"@, at as nat, k as nat);
}

/// Groups are listed by how many members they have, the most first.
pub proof fn groups_come_largest_first(
    items: Seq<WorkspaceItemView>,
    clusters: Seq<Seq<usize>>,
    i: int,
    j: int,
)
    requires
        0 <= i < j < groups_of(items, clusters).len(),
    ensures
        groups_of(items, clusters)[i].items.len() >= groups_of(items, clusters)[j].items.len(),
{
    lemma_by_size(clusters, i, j);
}

/// Clusters that clustering ended with become groups in the order they have.
pub proof fn finished_clusters_keep_their_order(clusters: Seq<Seq<usize>>)
    ensures
        by_size(finished_clusters(clusters)) == finished_clusters(clusters),
{
    let before = |a: Seq<usize>, b: Seq<usize>| larger_first(a, b);
    let kept = capped(by_size(clusters));
    order::lemma_ordered_is_ordered(kept, before, |a: Seq<usize>| true);
    order::lemma_ordered_stays(by_size(kept), before);
}

/// The clusters after each round of merging in turn, until one merges nothing.
/// A round is the averages measured in it.
pub open spec fn clustered(
    clusters: Seq<Seq<usize>>,
    rounds: Seq<Seq<u64>>,
    threshold: u64,
) -> Seq<Seq<usize>>
    decreases rounds.len(),
{
    if rounds.len() == 0 {
        clusters
    } else {
        let before = clustered(clusters, rounds.drop_last(), threshold);
        match merge_step(before, rounds.last(), threshold) {
            Some(next) => next,
            None => before,
        }
    }
}

/// Whether each round measures every pair of the clusters it starts from.
pub open spec fn measured(
    clusters: Seq<Seq<usize>>,
    rounds: Seq<Seq<u64>>,
    threshold: u64,
) -> bool
    decreases rounds.len(),
{
    rounds.len() > 0 ==> {
        &&& measured(clusters, rounds.drop_last(), threshold)
        &&& rounds.last().len() == pairs(
            clustered(clusters, rounds.drop_last(), threshold).len(),
        ).len()
    }
}

proof fn lemma_clustered(clusters: Seq<Seq<usize>>, rounds: Seq<Seq<u64>>, threshold: u64)
    requires
        clusters.len() <= usize::MAX,
        measured(clusters, rounds, threshold),
    ensures
        members(clustered(clusters, rounds, threshold)) == members(clusters),
        clustered(clusters, rounds, threshold).len() <= clusters.len(),
    decreases rounds.len(),
{
    if rounds.len() > 0 {
        lemma_clustered(clusters, rounds.drop_last(), threshold);
        merging_keeps_every_item(
            clustered(clusters, rounds.drop_last(), threshold),
            rounds.last(),
            threshold,
        );
    }
}

proof fn lemma_member_counts(clusters: Seq<Seq<usize>>, c: int, j: int)
    requires
        0 <= c < clusters.len(),
        0 <= j < clusters[c].len(),
    ensures
        members(clusters).count(clusters[c][j]) > 0,
    decreases clusters.len(),
{
    broadcast use vstd::seq_lib::group_to_multiset_ensures;

    let x = clusters[c][j];
    if c == clusters.len() - 1 {
        assert(clusters.last().contains(x));
        assert(clusters.last().to_multiset().count(x) > 0);
    } else {
        assert(clusters.drop_last()[c][j] == x);
        lemma_member_counts(clusters.drop_last(), c, j);
    }
}

/// However similar the items are found to be, clustering ends with each item in
/// exactly one cluster, and with no index that is none of an item.
pub proof fn clustering_partitions_the_items(n: nat, rounds: Seq<Seq<u64>>, threshold: u64)
    requires
        n <= usize::MAX,
        measured(singletons(n), rounds, threshold),
    ensures
        ({
            let done = finished_clusters(clustered(singletons(n), rounds, threshold));
            &&& forall|i: usize|
                #![trigger members(done).count(i)]
                members(done).count(i) == if i < n {
                    1nat
                } else {
                    0nat
                }
            &&& forall|c: int, j: int|
                0 <= c < done.len() && 0 <= j < done[c].len() ==> (#[trigger] done[c][j]) < n
            &&& done.len() <= MAX_GROUPS
        }),
{
    let merged_all = clustered(singletons(n), rounds, threshold);
    let done = finished_clusters(merged_all);
    lemma_clustered(singletons(n), rounds, threshold);
    finishing_keeps_every_item(merged_all);
    assert forall|i: usize|
        #![trigger members(done).count(i)]
        members(done).count(i) == if i < n {
            1nat
        } else {
            0nat
        } by {
        every_item_starts_once(n, i);
    }
    assert forall|c: int, j: int| 0 <= c < done.len() && 0 <= j < done[c].len() implies (
    #[trigger] done[c][j]) < n by {
        lemma_member_counts(done, c, j);
        every_item_starts_once(n, done[c][j]);
    }
}

/// Whether a reference points at a node the way references are made: at one of
/// the tabs of a browser window, at any other window whole.
pub open spec fn points_at(node: WindowNodeView, item: ItemRefView) -> bool {
    &&& node.node_id == item.node_id
    &&& match node.payload {
        NodePayloadView::Browser { tabs, active_tab_index: _ } => item.tab_index matches Some(j)
            && 0 <= j < tabs.len(),
        _ => item.tab_index is None,
    }
}

/// Whether `n` stands for what a reference to `source` points at: it is a slice
/// of it that has the tab, or the whole of it.
pub open spec fn holds_item(
    n: WindowNodeView,
    source: WindowNodeView,
    tab_index: Option<i32>,
) -> bool {
    &&& is_slice(n, source)
    &&& match tab_index {
        None => n.payload == source.payload,
        Some(j) => match (n.payload, source.payload) {
            (
                NodePayloadView::Browser { tabs, active_tab_index: _ },
                NodePayloadView::Browser { tabs: all, active_tab_index: _ },
            ) => tabs.contains(all[j as int]),
            _ => false,
        },
    }
}

/// The reference of every item points at the window it was made for.
pub proof fn items_point_at_their_window(n: WindowNodeView, j: int)
    requires
        0 <= j < node_items(n).len() <= i32::MAX,
    ensures
        points_at(n, node_items(n)[j].item_ref),
{
}

proof fn lemma_united(current: Seq<i32>, new: Seq<i32>)
    ensures
        forall|x: i32| current.contains(x) || new.contains(x) ==> #[trigger] united(
            current,
            new,
        ).contains(x),
    decreases new.len(),
{
    if new.len() > 0 {
        let grown = united(current, new.drop_last());
        lemma_united(current, new.drop_last());
        assert forall|x: i32| current.contains(x) || new.contains(x) implies #[trigger] united(
            current,
            new,
        ).contains(x) by {
            if x == new.last() {
                assert(grown.push(x)[grown.len() as int] == x);
            } else {
                if new.contains(x) {
                    let i = choose|i: int| 0 <= i < new.len() && new[i] == x;
                    assert(new.drop_last()[i] == x);
                }
                assert(grown.contains(x));
                let i = choose|i: int| 0 <= i < grown.len() && grown[i] == x;
                assert(grown.push(new.last())[i] == x);
            }
        }
    }
}

/// Whether picks are made of `nodes` by references: only browser windows are
/// picked by tab.
spec fn is_made_of(picks: Seq<NodePickView>, nodes: Seq<WindowNodeView>) -> bool {
    forall|i: int|
        0 <= i < picks.len() ==> nodes.contains((#[trigger] picks[i]).node) && (
        picks[i].tab_indices is Some ==> picks[i].node.payload is Browser)
}

/// Whether a pick has all of another: the same node, whole or with each of the
/// other's tabs.
spec fn covers(q: NodePickView, p: NodePickView) -> bool {
    &&& q.node == p.node
    &&& match (q.tab_indices, p.tab_indices) {
        (Some(all), Some(some)) => forall|x: i32| some.contains(x) ==> #[trigger] all.contains(x),
        (Some(all), None) => false,
        (None, _) => true,
    }
}

proof fn lemma_folded_made_of(picks: Seq<NodePickView>, nodes: Seq<WindowNodeView>)
    requires
        is_made_of(picks, nodes),
    ensures
        is_made_of(folded(picks), nodes),
    decreases picks.len(),
{
    if picks.len() > 0 {
        let rest = picks.drop_last();
        let done = folded(rest);
        let p = picks.last();
        assert forall|k: int| 0 <= k < rest.len() implies nodes.contains((#[trigger] rest[k]).node)
            && (rest[k].tab_indices is Some ==> rest[k].node.payload is Browser) by {
            assert(rest[k] == picks[k]);
        }
        lemma_folded_made_of(rest, nodes);
        assert(picks[picks.len() - 1] == p);
        order::lemma_first_where(done, |q: NodePickView| q.node.node_id == p.node.node_id, 0);
        assert forall|k: int| 0 <= k < folded(picks).len() implies nodes.contains(
            (#[trigger] folded(picks)[k]).node,
        ) && (folded(picks)[k].tab_indices is Some
            ==> folded(picks)[k].node.payload is Browser) by {
            if k < done.len() {
                assert(nodes.contains(done[k].node));
            }
        }
    }
}

proof fn lemma_folded_covers(picks: Seq<NodePickView>, nodes: Seq<WindowNodeView>, i: int) -> (r:
    int)
    requires
        is_made_of(picks, nodes),
        forall|a: int, b: int|
            0 <= a < b < nodes.len() ==> (#[trigger] nodes[a]).node_id != (
            #[trigger] nodes[b]).node_id,
        0 <= i < picks.len(),
        picks[i].tab_indices is None ==> !(picks[i].node.payload is Browser),
    ensures
        0 <= r < folded(picks).len(),
        covers(folded(picks)[r], picks[i]),
    decreases picks.len(),
{
    let rest = picks.drop_last();
    let done = folded(rest);
    let p = picks.last();
    let pred = |q: NodePickView| q.node.node_id == p.node.node_id;
    assert forall|k: int| 0 <= k < rest.len() implies nodes.contains((#[trigger] rest[k]).node) && (
    rest[k].tab_indices is Some ==> rest[k].node.payload is Browser) by {
        assert(rest[k] == picks[k]);
    }
    lemma_folded_made_of(rest, nodes);
    assert(picks[picks.len() - 1] == p);
    order::lemma_first_where(done, pred, 0);
    let at = pick_at(done, p.node.node_id);
    if at < done.len() {
        // Node ids don't repeat, so the pick there is of the same node.
        assert(pred(done[at]));
        assert(nodes.contains(done[at].node));
        let a = choose|a: int| 0 <= a < nodes.len() && nodes[a] == done[at].node;
        let b = choose|b: int| 0 <= b < nodes.len() && nodes[b] == p.node;
        assert(a == b) by {
            if a < b {
                assert(nodes[a].node_id != nodes[b].node_id);
            } else if b < a {
                assert(nodes[b].node_id != nodes[a].node_id);
            }
        }
        if let (Some(current), Some(new)) = (done[at].tab_indices, p.tab_indices) {
            lemma_united(current, new);
        }
    }
    if i == picks.len() - 1 {
        if at < done.len() {
            at
        } else {
            assert(folded(picks)[done.len() as int] == p);
            done.len() as int
        }
    } else {
        let r = lemma_folded_covers(rest, nodes, i);
        assert(rest[i] == picks[i]);
        assert(covers(done[r], picks[i]));
        assert(covers(folded(picks)[r], picks[i]));
        r
    }
}

proof fn lemma_standalone_holds(q: NodePickView, index: Option<i32>)
    requires
        match index {
            None => q.tab_indices is None,
            Some(j) => points_at(
                q.node,
                ItemRefView { node_id: q.node.node_id, tab_index: index },
            ) && (q.tab_indices matches Some(all) ==> all.contains(j)),
        },
    ensures
        standalone(q).len() == 1,
        holds_item(standalone(q)[0], q.node, index),
{
    broadcast use vstd::seq_lib::group_filter_ensures;

    match (index, q.tab_indices, q.node.payload) {
        (Some(j), Some(all), NodePayloadView::Browser { tabs, active_tab_index: _ }) => {
            let before = |a: i32, b: i32| a < b;
            let keep = |i: i32| 0 <= i < tabs.len();
            order::lemma_ordered_contains(all, before);
            let sorted = order::ordered(all, before);
            assert(sorted.contains(j));
            let k = choose|k: int| 0 <= k < sorted.len() && sorted[k] == j;
            assert(keep(sorted[k]));
            let kept = kept_tabs(all, tabs.len());
            assert(kept.contains(j));
            let m = choose|m: int| 0 <= m < kept.len() && kept[m] == j;
            let some = kept.map_values(|i: i32| tabs[i as int]);
            assert(some[m] == tabs[j as int]);
        },
        _ => {},
    }
    lemma_standalone_is_slice(q, 0);
}

/// A materialized group leaves out none of its members: where node ids don't
/// repeat, whatever a reference made of the workspace points at is found in one
/// of the group's windows. References beside it may be stale.
pub proof fn group_members_are_materialized(
    ws: WorkspaceStateView,
    group_id: Seq<char>,
    r: int,
    k: int,
)
    requires
        ({
            let at = group_at(ws.groups, group_id);
            &&& 0 <= at < ws.groups.len()
            &&& 0 <= r < ws.groups[at].items.len()
            &&& 0 <= k < ws.nodes.len()
            &&& points_at(ws.nodes[k], ws.groups[at].items[r])
        }),
        forall|a: int, b: int|
            0 <= a < b < ws.nodes.len() ==> (#[trigger] ws.nodes[a]).node_id != (
            #[trigger] ws.nodes[b]).node_id,
    ensures
        materialized(ws, group_id) matches Some(m) && exists|i: int|
            0 <= i < m.nodes.len() && holds_item(
                #[trigger] m.nodes[i],
                ws.nodes[k],
                ws.groups[group_at(ws.groups, group_id)].items[r].tab_index,
            ),
{
    let nodes = ws.nodes;
    let items = ws.groups[group_at(ws.groups, group_id)].items;
    let f = |x: ItemRefView| resolved(nodes, x);
    let picks = text::gathered(items, f);
    let index = items[r].tab_index;
    // What the reference resolves to is among the picks.
    lemma_points_resolve(nodes, k, items[r]);
    text::lemma_gathered_contains(items, f, r, 0);
    let p = f(items[r])[0];
    let i = choose|i: int| 0 <= i < picks.len() && picks[i] == p;
    assert forall|x: int| 0 <= x < picks.len() implies nodes.contains((#[trigger] picks[x]).node)
        && (picks[x].tab_indices is Some ==> picks[x].node.payload is Browser) by {
        let from = text::lemma_gathered_from(items, f, x);
        let item = items[from.0];
        order::lemma_first_where(nodes, |n: WindowNodeView| n.node_id == item.node_id, 0);
        assert(nodes[node_at(nodes, item.node_id)] == picks[x].node);
    }
    // One folded pick covers it, and stands alone as a node that holds it.
    let at = lemma_folded_covers(picks, nodes, i);
    let q = folded(picks)[at];
    if let Some(j) = index {
        assert(seq![j].contains(j)) by {
            assert(seq![j][0] == j);
        }
    }
    lemma_standalone_holds(q, index);
    let g = |x: NodePickView| standalone(x);
    text::lemma_gathered_contains(folded(picks), g, at, 0);
    let bare = text::gathered(folded(picks), g);
    let m = choose|m: int| 0 <= m < bare.len() && bare[m] == g(q)[0];
    let all = referenced(nodes, items);
    assert(all == synthesized(picks));
    assert(holds_item(all[m], nodes[k], index));
    assert(materialized(ws, group_id) is Some);
    assert(materialized(ws, group_id)->0.nodes[m] == all[m]);
}

proof fn lemma_points_resolve(nodes: Seq<WindowNodeView>, k: int, item: ItemRefView)
    requires
        0 <= k < nodes.len(),
        points_at(nodes[k], item),
        forall|a: int, b: int|
            0 <= a < b < nodes.len() ==> (#[trigger] nodes[a]).node_id != (
            #[trigger] nodes[b]).node_id,
    ensures
        resolved(nodes, item) == seq![
            NodePickView {
                node: nodes[k],
                tab_indices: match item.tab_index {
                    Some(j) => Some(seq![j]),
                    None => None,
                },
            },
        ],
{
    let pred = |n: WindowNodeView| n.node_id == item.node_id;
    order::lemma_first_where(nodes, pred, 0);
    let at = node_at(nodes, item.node_id);
    assert(pred(nodes[k]));
    assert(pred(nodes[at]));
    assert(at == k);
}

/// An item without the id of the window it was made of.
pub open spec fn unnamed(item: WorkspaceItemView) -> WorkspaceItemView {
    WorkspaceItemView {
        item_ref: ItemRefView { node_id: Seq::empty(), ..item.item_ref },
        ..item
    }
}

/// The items of windows, the ids of those windows aside.
pub open spec fn unnamed_items(nodes: Seq<WindowNodeView>) -> Seq<WorkspaceItemView> {
    items_of(nodes).map_values(|i: WorkspaceItemView| unnamed(i))
}

/// The references of items.
pub open spec fn references(items: Seq<WorkspaceItemView>) -> Seq<ItemRefView> {
    items.map_values(|i: WorkspaceItemView| i.item_ref)
}

/// The first `n` tab indices.
spec fn first_tabs(n: int) -> Seq<i32> {
    Seq::new(n as nat, |j: int| j as i32)
}

/// The picks that the references of all items of a window resolve to.
spec fn picks_of(n: WindowNodeView) -> Seq<NodePickView> {
    match n.payload {
        NodePayloadView::Browser { tabs, active_tab_index: _ } => Seq::new(
            tabs.len(),
            |j: int| NodePickView { node: n, tab_indices: Some(seq![j as i32]) },
        ),
        _ => seq![NodePickView { node: n, tab_indices: None }],
    }
}

/// The one pick they fold into; none for a window without items.
spec fn whole_pick(n: WindowNodeView) -> Seq<NodePickView> {
    match n.payload {
        NodePayloadView::Browser { tabs, active_tab_index: _ } => if tabs.len() == 0 {
            Seq::empty()
        } else {
            seq![NodePickView { node: n, tab_indices: Some(first_tabs(tabs.len() as int)) }]
        },
        _ => seq![NodePickView { node: n, tab_indices: None }],
    }
}

spec fn bare_items(n: WindowNodeView) -> Seq<WorkspaceItemView> {
    node_items(n).map_values(|i: WorkspaceItemView| unnamed(i))
}

/// Whether node ids don't repeat and tab indices can be represented.
pub open spec fn is_referable(nodes: Seq<WindowNodeView>) -> bool {
    &&& forall|a: int, b: int|
        0 <= a < b < nodes.len() ==> (#[trigger] nodes[a]).node_id != (#[trigger] nodes[b]).node_id
    &&& forall|k: int|
        0 <= k < nodes.len() ==> node_items(#[trigger] nodes[k]).len() <= i32::MAX
}

proof fn lemma_references_resolve(nodes: Seq<WindowNodeView>, m: int)
    requires
        is_referable(nodes),
        0 <= m <= nodes.len(),
    ensures
        text::gathered(
            references(items_of(nodes.take(m))),
            |r: ItemRefView| resolved(nodes, r),
        ) == text::gathered(nodes.take(m), |n: WindowNodeView| picks_of(n)),
    decreases m,
{
    let f = |r: ItemRefView| resolved(nodes, r);
    let g = |n: WindowNodeView| picks_of(n);
    if m == 0 {
        assert(references(items_of(nodes.take(0))) =~= Seq::<ItemRefView>::empty());
    } else {
        let n = nodes[m - 1];
        lemma_references_resolve(nodes, m - 1);
        text::lemma_take_step(nodes, m - 1);
        let head = references(items_of(nodes.take(m - 1)));
        let refs = references(node_items(n));
        assert(references(items_of(nodes.take(m))) =~= head + refs);
        text::lemma_gathered_add(head, refs, f);
        assert forall|j: int| 0 <= j < refs.len() implies f(#[trigger] refs[j]) == seq![
            picks_of(n)[j],
        ] by {
            assert(refs[j] == node_items(n)[j].item_ref);
            item_references_resolve(nodes, m - 1, j);
        }
        text::lemma_gathered_singles(refs, f, picks_of(n));
    }
}

proof fn lemma_folded_tabs(picks: Seq<NodePickView>, n: WindowNodeView, j: int)
    requires
        n.payload is Browser,
        0 <= j <= picks_of(n).len() <= i32::MAX,
        forall|i: int|
            0 <= i < folded(picks).len() ==> (#[trigger] folded(picks)[i]).node.node_id
                != n.node_id,
    ensures
        folded(picks + picks_of(n).take(j)) == folded(picks) + if j == 0 {
            Seq::empty()
        } else {
            seq![NodePickView { node: n, tab_indices: Some(first_tabs(j)) }]
        },
    decreases j,
{
    let more = picks_of(n).take(j);
    if j == 0 {
        assert(picks + more =~= picks);
        assert(folded(picks) + Seq::<NodePickView>::empty() =~= folded(picks));
    } else {
        lemma_folded_tabs(picks, n, j - 1);
        let rest = picks + picks_of(n).take(j - 1);
        let done = folded(rest);
        let p = picks_of(n)[j - 1];
        assert((picks + more).drop_last() =~= rest);
        assert((picks + more).last() == p);
        let pred = |q: NodePickView| q.node.node_id == p.node.node_id;
        order::lemma_first_where(done, pred, 0);
        let at = pick_at(done, p.node.node_id);
        let base = folded(picks);
        assert forall|i: int| 0 <= i < base.len() implies !pred(#[trigger] done[i]) by {
            assert(done[i] == base[i]);
        }
        if j == 1 {
            assert(done =~= base);
            assert(at == done.len());
            assert(first_tabs(1) =~= seq![0i32]);
            assert(p == (NodePickView { node: n, tab_indices: Some(first_tabs(1)) }));
            assert(done.push(p) =~= base + seq![p]);
        } else {
            let last = NodePickView { node: n, tab_indices: Some(first_tabs(j - 1)) };
            assert(done[base.len() as int] == last);
            assert(pred(done[base.len() as int]));
            assert(at == base.len());
            let new = seq![(j - 1) as i32];
            let seen = first_tabs(j - 1);
            assert(new.drop_last() =~= Seq::<i32>::empty());
            assert(united(seen, new.drop_last()) == seen);
            assert(!seen.contains(new.last()));
            assert(united(seen, new) == seen.push(new.last()));
            assert(seen.push(new.last()) =~= first_tabs(j));
            assert(done.update(at, widened(done[at], p.tab_indices)) =~= base + seq![
                NodePickView { node: n, tab_indices: Some(first_tabs(j)) },
            ]);
        }
    }
}

proof fn lemma_folded_wholes(nodes: Seq<WindowNodeView>, m: int)
    requires
        is_referable(nodes),
        0 <= m <= nodes.len(),
    ensures
        folded(text::gathered(nodes.take(m), |n: WindowNodeView| picks_of(n))) == text::gathered(
            nodes.take(m),
            |n: WindowNodeView| whole_pick(n),
        ),
    decreases m,
{
    let g = |n: WindowNodeView| picks_of(n);
    let h = |n: WindowNodeView| whole_pick(n);
    if m > 0 {
        let n = nodes[m - 1];
        lemma_folded_wholes(nodes, m - 1);
        text::lemma_take_step(nodes, m - 1);
        let picks = text::gathered(nodes.take(m - 1), g);
        let done = text::gathered(nodes.take(m - 1), h);
        assert forall|i: int| 0 <= i < done.len() implies (#[trigger] done[i]).node.node_id
            != n.node_id by {
            let from = text::lemma_gathered_from(nodes.take(m - 1), h, i);
            assert(nodes.take(m - 1)[from.0] == nodes[from.0]);
            assert(done[i].node == nodes[from.0]);
        }
        if n.payload is Browser {
            lemma_folded_tabs(picks, n, picks_of(n).len() as int);
            assert(picks_of(n).take(picks_of(n).len() as int) =~= picks_of(n));
        } else {
            let p = picks_of(n)[0];
            assert(picks + picks_of(n) =~= picks.push(p));
            assert(picks.push(p).drop_last() =~= picks);
            let pred = |q: NodePickView| q.node.node_id == p.node.node_id;
            order::lemma_first_where(done, pred, 0);
            assert(pick_at(done, p.node.node_id) == done.len()) by {
                let at = pick_at(done, p.node.node_id);
                if at < done.len() {
                    assert(pred(done[at]));
                }
            }
            assert(done.push(p) =~= done + whole_pick(n));
        }
    }
}

proof fn lemma_all_tabs_kept(count: nat)
    requires
        count <= i32::MAX,
    ensures
        kept_tabs(first_tabs(count as int), count) == first_tabs(count as int),
{
    let all = first_tabs(count as int);
    let before = |a: i32, b: i32| a < b;
    let keep = |i: i32| 0 <= i < count;
    order::lemma_ordered_stays(all, before);
    order::lemma_filter_all(all, keep);
}

/// A window as it comes out of a pick of all its tabs: the tab selected may be
/// another where none was.
spec fn reselected(n: WindowNodeView) -> WindowNodeView {
    match n.payload {
        NodePayloadView::Browser { tabs, active_tab_index } => WindowNodeView {
            payload: NodePayloadView::Browser {
                tabs,
                active_tab_index: active_among(first_tabs(tabs.len() as int), active_tab_index),
            },
            ..n
        },
        _ => n,
    }
}

proof fn lemma_whole_stands_alone(n: WindowNodeView)
    requires
        node_items(n).len() <= i32::MAX,
        whole_pick(n).len() > 0,
    ensures
        standalone(whole_pick(n)[0]) == seq![reselected(n)],
{
    if let NodePayloadView::Browser { tabs, active_tab_index } = n.payload {
        let all = first_tabs(tabs.len() as int);
        lemma_all_tabs_kept(tabs.len());
        assert(all.map_values(|i: i32| tabs[i as int]) =~= tabs);
    }
}

proof fn lemma_reselected_items(n: WindowNodeView)
    ensures
        bare_items(reselected(n)) == bare_items(n),
{
    assert(node_items(reselected(n)) =~= node_items(n));
}

proof fn lemma_whole_keeps_items(n: WindowNodeView)
    requires
        node_items(n).len() <= i32::MAX,
    ensures
        text::gathered(
            text::gathered(whole_pick(n), |p: NodePickView| standalone(p)),
            |x: WindowNodeView| bare_items(x),
        ) == bare_items(n),
{
    let s = |p: NodePickView| standalone(p);
    let b = |x: WindowNodeView| bare_items(x);
    let picks = whole_pick(n);
    if picks.len() == 0 {
        assert(bare_items(n) =~= Seq::<WorkspaceItemView>::empty());
    } else {
        assert(picks =~= seq![picks[0]]);
        lemma_whole_stands_alone(n);
        text::lemma_gathered_one(picks[0], s);
        text::lemma_gathered_one(reselected(n), b);
        lemma_reselected_items(n);
    }
}

proof fn lemma_wholes_keep_items(nodes: Seq<WindowNodeView>, m: int)
    requires
        is_referable(nodes),
        0 <= m <= nodes.len(),
    ensures
        text::gathered(
            text::gathered(
                text::gathered(nodes.take(m), |n: WindowNodeView| whole_pick(n)),
                |p: NodePickView| standalone(p),
            ),
            |x: WindowNodeView| bare_items(x),
        ) == text::gathered(nodes.take(m), |x: WindowNodeView| bare_items(x)),
    decreases m,
{
    let h = |n: WindowNodeView| whole_pick(n);
    let s = |p: NodePickView| standalone(p);
    let b = |x: WindowNodeView| bare_items(x);
    if m > 0 {
        let n = nodes[m - 1];
        lemma_wholes_keep_items(nodes, m - 1);
        text::lemma_take_step(nodes, m - 1);
        let picks = text::gathered(nodes.take(m - 1), h);
        text::lemma_gathered_add(picks, whole_pick(n), s);
        text::lemma_gathered_add(
            text::gathered(picks, s),
            text::gathered(whole_pick(n), s),
            b,
        );
        lemma_whole_keeps_items(n);
    }
}

/// A group of all items of a workspace is that workspace again: materialized, it
/// has the same items in the same order, with the same kind, identity, title,
/// text and tab index each. Only windows are numbered anew.
pub proof fn whole_group_keeps_every_item(ws: WorkspaceStateView, group_id: Seq<char>)
    requires
        is_referable(ws.nodes),
        items_of(ws.nodes).len() > 0,
        ({
            let at = group_at(ws.groups, group_id);
            at < ws.groups.len() && ws.groups[at].items == references(items_of(ws.nodes))
        }),
    ensures
        materialized(ws, group_id) matches Some(m) && unnamed_items(m.nodes) == unnamed_items(
            ws.nodes,
        ),
{
    let nodes = ws.nodes;
    let items = references(items_of(nodes));
    let f = |r: ItemRefView| resolved(nodes, r);
    let s = |p: NodePickView| standalone(p);
    let b = |x: WindowNodeView| bare_items(x);
    let u = |i: WorkspaceItemView| unnamed(i);
    let w = |n: WindowNodeView| node_items(n);
    let len = nodes.len() as int;
    assert(nodes.take(len) =~= nodes);
    lemma_references_resolve(nodes, len);
    lemma_folded_wholes(nodes, len);
    lemma_wholes_keep_items(nodes, len);
    let picks = text::gathered(items, f);
    let kept = text::gathered(folded(picks), s);
    let out = referenced(nodes, items);
    assert(out == numbered(kept));
    assert forall|i: int| 0 <= i < kept.len() implies b(#[trigger] out[i]) == b(kept[i]) by {
        assert(bare_items(out[i]) =~= bare_items(kept[i]));
    }
    text::lemma_gathered_same(out, kept, b);
    text::lemma_gathered_mapped(out, w, u, b);
    text::lemma_gathered_mapped(nodes, w, u, b);
    assert(unnamed_items(out) == unnamed_items(nodes));
    if out.len() == 0 {
        assert(items_of(out).len() == 0);
        assert(unnamed_items(nodes).len() == 0);
    }
}

/// Merging two clusters appends the later to the earlier, drops the later, and
/// leaves every other cluster as it is, in its order.
pub proof fn merging_joins_two_clusters(clusters: Seq<Seq<usize>>, i: int, j: int)
    requires
        0 <= i < j < clusters.len(),
    ensures
        merged(clusters, i, j).len() == clusters.len() - 1,
        merged(clusters, i, j)[i] == clusters[i] + clusters[j],
        forall|k: int| 0 <= k < j && k != i ==> merged(clusters, i, j)[k] == clusters[k],
        forall|k: int| j <= k < clusters.len() - 1 ==> merged(clusters, i, j)[k] == clusters[k + 1],
{
}

/// The closest pair merges: one whose average reaches the threshold, is as large
/// as any, and is larger than those of the pairs before it. Nothing merges only
/// where no average reaches the threshold.
pub proof fn the_closest_pair_merges(
    clusters: Seq<Seq<usize>>,
    averages: Seq<u64>,
    threshold: u64,
)
    requires
        clusters.len() <= usize::MAX,
        averages.len() == pairs(clusters.len()).len(),
        forall|k: int| 0 <= k < averages.len() ==> doubles::is_number(#[trigger] averages[k]),
    ensures
        match merge_step(clusters, averages, threshold) {
            Some(next) => exists|k: int|
                {
                    &&& 0 <= k < averages.len()
                    &&& doubles::at_least(#[trigger] averages[k], threshold)
                    &&& forall|m: int|
                        0 <= m < averages.len() ==> doubles::at_least(
                            averages[k],
                            #[trigger] averages[m],
                        )
                    &&& forall|m: int|
                        0 <= m < k ==> doubles::below(#[trigger] averages[m], averages[k])
                    &&& next == merged(
                        clusters,
                        pairs(clusters.len())[k].0 as int,
                        pairs(clusters.len())[k].1 as int,
                    )
                },
            None => forall|k: int|
                0 <= k < averages.len() ==> !doubles::at_least(#[trigger] averages[k], threshold),
        },
{
    if averages.len() > 0 {
        leader_is_first_largest(averages, averages.len() as int);
        let best = leader(averages, averages.len() as int);
        assert(doubles::at_least(averages[best], averages[best]));
    }
}

proof fn lemma_pairs_ascend(n: nat, m: int, a: int, b: int)
    requires
        0 <= m <= n <= usize::MAX,
        ({
            let all = text::gathered(
                Seq::new(n, |i: int| i).take(m),
                |i: int| pairs_with(n, i),
            );
            0 <= a < b < all.len()
        }),
    ensures
        ({
            let all = text::gathered(
                Seq::new(n, |i: int| i).take(m),
                |i: int| pairs_with(n, i),
            );
            &&& all[a].0 <= all[b].0 < m
            &&& all[a].0 == all[b].0 ==> all[a].1 < all[b].1
        }),
    decreases m,
{
    let firsts = Seq::new(n, |i: int| i);
    let f = |i: int| pairs_with(n, i);
    if m > 0 {
        text::lemma_take_step(firsts, m - 1);
        let before = text::gathered(firsts.take(m - 1), f);
        let all = text::gathered(firsts.take(m), f);
        assert(all == before + f(m - 1));
        if b < before.len() {
            lemma_pairs_ascend(n, m - 1, a, b);
        } else if a < before.len() {
            lemma_pairs_bounds(n, m - 1, a);
            let (x, y) = text::lemma_gathered_from(firsts.take(m - 1), f, a);
            assert(all[a] == f(firsts.take(m - 1)[x])[y]);
        }
    }
}

/// The pairs to measure are all pairs of two clusters, each once, the earlier
/// cluster first, in lexicographic order.
pub proof fn every_pair_is_measured_once(n: nat)
    requires
        n <= usize::MAX,
    ensures
        forall|i: usize, j: usize| i < j < n <==> #[trigger] pairs(n).contains((i, j)),
        forall|a: int, b: int|
            0 <= a < b < pairs(n).len() ==> (#[trigger] pairs(n)[a]).0 < (#[trigger] pairs(n)[b]).0
                || pairs(n)[a].0 == pairs(n)[b].0 && pairs(n)[a].1 < pairs(n)[b].1,
{
    let firsts = Seq::new(n, |i: int| i);
    let f = |i: int| pairs_with(n, i);
    assert(firsts.take(n as int) =~= firsts);
    assert forall|i: usize, j: usize| i < j < n <==> #[trigger] pairs(n).contains((i, j)) by {
        if i < j < n {
            assert(f(firsts[i as int])[j - i - 1] == (i, j));
            text::lemma_gathered_contains(firsts, f, i as int, j - i - 1);
        }
        if pairs(n).contains((i, j)) {
            let k = choose|k: int| 0 <= k < pairs(n).len() && pairs(n)[k] == (i, j);
            lemma_pairs(n, k);
        }
    }
    assert forall|a: int, b: int| 0 <= a < b < pairs(n).len() implies (#[trigger] pairs(n)[a]).0 < (
    #[trigger] pairs(n)[b]).0 || pairs(n)[a].0 == pairs(n)[b].0 && pairs(n)[a].1 < pairs(n)[b].1 by {
        lemma_pairs_ascend(n, n as int, a, b);
    }
}

/// A browser window is one item per tab, in the order of the tabs. A tab is known
/// by its address without the fragment and by its title, or by its host where it
/// has none.
pub proof fn tabs_are_items(n: WindowNodeView, tabs: Seq<BrowserTabView>, active: i32, j: int)
    requires
        n.payload == (NodePayloadView::Browser { tabs, active_tab_index: active }),
        0 <= j < tabs.len() <= i32::MAX,
    ensures
        node_items(n).len() == tabs.len(),
        ({
            let item = node_items(n)[j];
            &&& item.kind == ItemKind::Tab
            &&& item.item_ref.node_id == n.node_id
            &&& item.item_ref.tab_index == Some(j as i32)
            &&& text::has_prefix(tabs[j].url, item.dedup_key)
            &&& !item.dedup_key.contains('#')
            &&& item.dedup_key != tabs[j].url ==> tabs[j].url[item.dedup_key.len() as int] == '#'
            &&& tabs[j].title.len() > 0 ==> item.title == tabs[j].title
            &&& tabs[j].title.len() == 0 ==> item.title == tagging::host_of(tabs[j].url)
            &&& item.embed_text == item.title + " ("@ + tagging::host_of(tabs[j].url) + ")"@
        }),
{
    let url = tabs[j].url;
    text::lemma_find_from(url, '#', 0);
    let n = text::find_from(url, '#', 0);
    let key = url.take(n);
    if key.contains('#') {
        let k = choose|k: int| 0 <= k < key.len() && key[k] == '#';
        assert(url[k] == '#');
    }
    if n == url.len() {
        assert(key =~= url);
    }
}

/// Any other window is one item as a whole. A terminal is known by its
/// directories, an editor by its folder, another window by its app and title.
pub proof fn other_windows_are_whole_items(n: WindowNodeView)
    requires
        !(n.payload is Browser),
    ensures
        node_items(n).len() == 1,
        ({
            let item = node_items(n)[0];
            &&& item.item_ref.node_id == n.node_id
            &&& item.item_ref.tab_index is None
            &&& match n.payload {
                NodePayloadView::Browser { tabs: _, active_tab_index: _ } => false,
                NodePayloadView::Terminal { tabs } => {
                    let dirs = terminal_dirs(tabs);
                    &&& item.kind == ItemKind::Terminal
                    &&& item.dedup_key == text::joined(dirs, "\n"@)
                    &&& dirs.len() > 0 ==> item.title == n.app_name + " — "@ + tagging::base_of(
                        dirs[0],
                    )
                    &&& dirs.len() > 0 ==> item.embed_text == n.app_name + " "@ + tagging::base_of(
                        dirs[0],
                    ) + " "@ + text::joined(dirs, " "@)
                    &&& dirs.len() == 0 ==> item.dedup_key.len() == 0 && item.title == n.app_name
                        + " — "@ && item.embed_text == n.app_name + " "@ + " "@
                },
                NodePayloadView::Editor { folder_path, open_files } => {
                    let line = n.app_name + ": "@ + tagging::base_of(folder_path) + " "@
                        + folder_path + " "@;
                    &&& item.kind == ItemKind::Editor
                    &&& item.dedup_key == folder_path
                    &&& item.title == n.app_name + " — "@ + tagging::base_of(folder_path)
                    &&& item.embed_text == text::trimmed_end(
                        line + text::joined(
                            Seq::new(
                                open_files.len(),
                                |i: int| tagging::base_of(open_files[i]),
                            ),
                            " "@,
                        ),
                    )
                },
                NodePayloadView::Generic => {
                    let line = n.app_name + ": "@ + n.window_title;
                    &&& item.kind == ItemKind::Generic
                    &&& item.dedup_key == n.bundle_id + "\u{1}"@ + n.window_title
                    &&& item.title == n.app_name
                    &&& text::has_prefix(line, item.embed_text)
                    &&& item.embed_text.len() > 0 ==> item.embed_text.last() != ':'
                        && item.embed_text.last() != ' '
                    &&& forall|i: int|
                        item.embed_text.len() <= i < line.len() ==> (#[trigger] line[i]) == ':'
                            || line[i] == ' '
                },
            }
        }),
{
    match n.payload {
        NodePayloadView::Generic => {
            let line = n.app_name + ": "@ + n.window_title;
            lemma_unfilled(line, line.len() as int);
        },
        NodePayloadView::Editor { folder_path, open_files } => {
            let files = open_files.map_values(|f: Seq<char>| tagging::base_of(f));
            assert(files =~= Seq::new(
                open_files.len(),
                |i: int| tagging::base_of(open_files[i]),
            ));
        },
        NodePayloadView::Terminal { tabs } => {
            let dirs = terminal_dirs(tabs);
            if dirs.len() == 0 {
                let item = node_items(n)[0];
                let none = Seq::<char>::empty();
                text::behind_the_last(none, '/', none);
                assert(tagging::base_of(none) =~= none);
                assert(item.title =~= n.app_name + " — "@);
                assert(item.embed_text =~= n.app_name + " "@ + " "@);
            }
        },
        _ => {},
    }
}

proof fn lemma_unfilled(s: Seq<char>, n: int)
    requires
        0 <= n <= s.len(),
    ensures
        0 <= unfilled_len(s, n) <= n,
        unfilled_len(s, n) > 0 ==> !is_filler(s[unfilled_len(s, n) - 1]),
        forall|i: int| unfilled_len(s, n) <= i < n ==> is_filler(#[trigger] s[i]),
    decreases n,
{
    if n > 0 && is_filler(s[n - 1]) {
        lemma_unfilled(s, n - 1);
    }
}

/// A terminal's directories are those of its tabs that are known, each once and
/// in ascending order.
pub proof fn terminal_directories_ascend(tabs: Seq<TerminalTabView>)
    ensures
        forall|i: int, j: int|
            0 <= i < j < terminal_dirs(tabs).len() ==> text::less(
                #[trigger] terminal_dirs(tabs)[i],
                #[trigger] terminal_dirs(tabs)[j],
            ),
        forall|dir: Seq<char>| #[trigger]
            terminal_dirs(tabs).contains(dir) <==> dir.len() > 0 && exists|k: int|
                0 <= k < tabs.len() && (#[trigger] tabs[k]).cwd == dir,
{
    let cwds = cwds_of(tabs);
    let keep = |c: Seq<char>| c.len() > 0;
    text::lemma_sorted_collapsed(cwds.filter(keep));
    assert forall|dir: Seq<char>| #[trigger]
        terminal_dirs(tabs).contains(dir) <==> dir.len() > 0 && exists|k: int|
            0 <= k < tabs.len() && (#[trigger] tabs[k]).cwd == dir by {
        order::lemma_filter_contains(cwds, keep, dir);
        if cwds.contains(dir) {
            let k = choose|k: int| 0 <= k < cwds.len() && cwds[k] == dir;
            assert(tabs[k].cwd == dir);
        }
        if exists|k: int| 0 <= k < tabs.len() && (#[trigger] tabs[k]).cwd == dir {
            let k = choose|k: int| 0 <= k < tabs.len() && (#[trigger] tabs[k]).cwd == dir;
            assert(cwds[k] == dir);
        }
    }
}

/// A workspace's items are those of its windows, window by window.
pub proof fn items_come_window_by_window(
    nodes: Seq<WindowNodeView>,
    more: Seq<WindowNodeView>,
    n: WindowNodeView,
)
    ensures
        items_of(nodes + more) == items_of(nodes) + items_of(more),
        items_of(seq![n]) == node_items(n),
        items_of(Seq::empty()).len() == 0,
{
    let f = |n: WindowNodeView| node_items(n);
    text::lemma_gathered_add(nodes, more, f);
    text::lemma_gathered_one(n, f);
}

/// The same page scrolled to two anchors is one item.
pub proof fn anchors_share_an_identity(page: Seq<char>, a: Seq<char>, b: Seq<char>)
    requires
        !page.contains('#'),
    ensures
        text::before_first(page.push('#') + a, '#') == page,
        text::before_first(page.push('#') + a, '#') == text::before_first(page.push('#') + b, '#'),
        text::before_first(page, '#') == page,
{
    text::before_the_first(page, '#', a);
    text::before_the_first(page, '#', b);
}

/// Clusters come by size; of the same size the one with the lower first item
/// comes first. None is lost, added or changed.
pub proof fn clusters_sort_by_size_then_item(clusters: Seq<Seq<usize>>)
    ensures
        by_size(clusters).to_multiset() == clusters.to_multiset(),
        forall|i: int, j: int|
            0 <= i < j < clusters.len() ==> {
                let (a, b) = (#[trigger] by_size(clusters)[i], #[trigger] by_size(clusters)[j]);
                &&& a.len() >= b.len()
                &&& a.len() == b.len() && a.len() > 0 ==> a[0] <= b[0]
            },
{
    let before = |a: Seq<usize>, b: Seq<usize>| larger_first(a, b);
    order::lemma_ordered_permutes(clusters, before);
    order::lemma_ordered_is_ordered(clusters, before, |a: Seq<usize>| true);
    assert forall|i: int, j: int| 0 <= i < j < clusters.len() implies {
        let (a, b) = (#[trigger] by_size(clusters)[i], #[trigger] by_size(clusters)[j]);
        &&& a.len() >= b.len()
        &&& a.len() == b.len() && a.len() > 0 ==> a[0] <= b[0]
    } by {
        assert(!before(by_size(clusters)[j], by_size(clusters)[i]));
    }
}

/// Up to six clusters are only put in order. Of more the five largest stay as
/// they are, and all others make one.
pub proof fn overflow_makes_one_cluster(clusters: Seq<Seq<usize>>)
    ensures
        clusters.len() <= 6 ==> finished_clusters(clusters).to_multiset()
            == clusters.to_multiset(),
        clusters.len() > 6 ==> finished_clusters(clusters).len() == 6 && forall|i: int|
            0 <= i < 5 ==> #[trigger] finished_clusters(clusters).contains(by_size(clusters)[i]),
{
    let before = |a: Seq<usize>, b: Seq<usize>| larger_first(a, b);
    let sorted = by_size(clusters);
    order::lemma_ordered_permutes(clusters, before);
    order::lemma_ordered_permutes(capped(sorted), before);
    order::lemma_ordered_contains(capped(sorted), before);
    if clusters.len() > 6 {
        assert forall|i: int| 0 <= i < 5 implies #[trigger] finished_clusters(clusters).contains(
            sorted[i],
        ) by {
            assert(capped(sorted)[i] == sorted[i]);
            assert(capped(sorted).contains(sorted[i]));
        }
    }
}

/// A group's label names its projects, then its sites, then its other apps, each
/// once, three names at most; without a name it is "group".
#[verifier::rlimit(40)]
pub proof fn labels_name_what_is_in_the_group(members: Seq<WorkspaceItemView>)
    ensures
        ({
            let projects = members.filter(
                |m: WorkspaceItemView| m.kind == ItemKind::Editor || m.kind == ItemKind::Terminal,
            );
            let tabs = members.filter(|m: WorkspaceItemView| m.kind == ItemKind::Tab);
            let others = members.filter(|m: WorkspaceItemView| m.kind == ItemKind::Generic);
            let names = projects.map_values(|m: WorkspaceItemView| tagging::base_of(m.dedup_key))
                + tabs.map_values(|m: WorkspaceItemView| tagging::host_of(m.dedup_key))
                + others.map_values(|m: WorkspaceItemView| m.title);
            let parts = text::distinct_of(names);
            &&& parts.len() == 0 ==> label_of(members) == "group"@
            &&& 0 < parts.len() <= 3 ==> label_of(members) == text::joined(parts, " · "@)
            &&& parts.len() > 3 ==> label_of(members) == parts[0] + " · "@ + parts[1] + " · "@
                + parts[2]
        }),
{
    let is_project = |m: WorkspaceItemView|
        m.kind == ItemKind::Editor || m.kind == ItemKind::Terminal;
    let is_tab = |m: WorkspaceItemView| m.kind == ItemKind::Tab;
    let is_other = |m: WorkspaceItemView| m.kind == ItemKind::Generic;
    text::lemma_gathered_kept(
        members,
        |m: WorkspaceItemView|
            if m.kind == ItemKind::Editor || m.kind == ItemKind::Terminal {
                seq![tagging::base_of(m.dedup_key)]
            } else {
                Seq::empty()
            },
        is_project,
        |m: WorkspaceItemView| tagging::base_of(m.dedup_key),
    );
    text::lemma_gathered_kept(
        members,
        |m: WorkspaceItemView|
            if m.kind == ItemKind::Tab {
                seq![tagging::host_of(m.dedup_key)]
            } else {
                Seq::empty()
            },
        is_tab,
        |m: WorkspaceItemView| tagging::host_of(m.dedup_key),
    );
    text::lemma_gathered_kept(
        members,
        |m: WorkspaceItemView|
            if m.kind == ItemKind::Generic {
                seq![m.title]
            } else {
                Seq::empty()
            },
        is_other,
        |m: WorkspaceItemView| m.title,
    );
    let parts = text::distinct_of(label_sources(members));
    if parts.len() > 3 {
        let first = parts.take(3);
        reveal_with_fuel(text::joined, 3);
        assert(first.drop_last().drop_last() =~= parts.take(1));
        assert(first.drop_last() =~= parts.take(2));
        assert(text::joined(first, " · "@) =~= parts[0] + " · "@ + parts[1] + " · "@ + parts[2]);
    }
}

/// Two clusters or more make as many groups, numbered from "g0" in the order of
/// their sizes; each refers to exactly the items of its cluster, in their order.
/// Fewer make none.
pub proof fn groups_mirror_their_clusters(
    items: Seq<WorkspaceItemView>,
    clusters: Seq<Seq<usize>>,
)
    ensures
        groups_of(items, clusters).len() == if clusters.len() < 2 {
            0
        } else {
            clusters.len()
        },
        clusters.len() >= 2 ==> forall|i: int|
            0 <= i < clusters.len() ==> {
                let g = #[trigger] groups_of(items, clusters)[i];
                let cluster = by_size(clusters)[i];
                &&& g.group_id == "g"@ + text::decimal(i as nat)
                &&& g.items.len() == cluster.len()
                &&& forall|k: int|
                    0 <= k < cluster.len() ==> #[trigger] g.items[k]
                        == items[cluster[k] as int].item_ref
                &&& g.label == label_of(
                    Seq::new(cluster.len(), |k: int| items[cluster[k] as int]),
                )
            },
{
    if clusters.len() >= 2 {
        assert forall|i: int| 0 <= i < clusters.len() implies {
            let g = #[trigger] groups_of(items, clusters)[i];
            let cluster = by_size(clusters)[i];
            &&& g.group_id == "g"@ + text::decimal(i as nat)
            &&& g.items.len() == cluster.len()
            &&& forall|k: int|
                0 <= k < cluster.len() ==> #[trigger] g.items[k]
                    == items[cluster[k] as int].item_ref
            &&& g.label == label_of(Seq::new(cluster.len(), |k: int| items[cluster[k] as int]))
        } by {
            let cluster = by_size(clusters)[i];
            assert(members_of(items, cluster) =~= Seq::new(
                cluster.len(),
                |k: int| items[cluster[k] as int],
            ));
        }
    }
}

/// Every item starts in a cluster of its own.
pub proof fn items_start_apart(n: nat)
    requires
        n <= usize::MAX,
    ensures
        singletons(n).len() == n,
        forall|i: int| 0 <= i < n ==> (#[trigger] singletons(n)[i]) == seq![i as usize],
{
}

/// Adding tabs to a selection keeps those it has, in front, and adds each of the
/// new ones that it lacks, once.
pub proof fn selections_unite(current: Seq<i32>, new: Seq<i32>)
    ensures
        current.len() <= united(current, new).len(),
        united(current, new).take(current.len() as int) == current,
        forall|x: i32| #[trigger]
            united(current, new).contains(x) <==> current.contains(x) || new.contains(x),
        current.no_duplicates() ==> united(current, new).no_duplicates(),
    decreases new.len(),
{
    if new.len() == 0 {
        assert(current.take(current.len() as int) =~= current);
    } else {
        let rest = new.drop_last();
        selections_unite(current, rest);
        let grown = united(current, rest);
        let out = united(current, new);
        assert(out.take(current.len() as int) =~= grown.take(current.len() as int));
        assert forall|x: i32| #[trigger] out.contains(x) <==> current.contains(x) || new.contains(
            x,
        ) by {
            if out.contains(x) {
                let k = choose|k: int| 0 <= k < out.len() && out[k] == x;
                if k < grown.len() {
                    assert(grown[k] == x);
                    assert(grown.contains(x));
                    if rest.contains(x) {
                        let m = choose|m: int| 0 <= m < rest.len() && rest[m] == x;
                        assert(new[m] == x);
                    }
                } else {
                    assert(new[new.len() - 1] == x);
                }
            }
            if new.contains(x) && x != new.last() {
                let m = choose|m: int| 0 <= m < new.len() && new[m] == x;
                assert(rest[m] == x);
            }
            if grown.contains(x) {
                let k = choose|k: int| 0 <= k < grown.len() && grown[k] == x;
                assert(out[k] == x);
            }
            if x == new.last() && !grown.contains(x) {
                assert(out[grown.len() as int] == x);
            }
        }
    }
}

/// The tabs kept of a selection are those the window has, in the window's order.
pub proof fn kept_tabs_are_in_window_order(indices: Seq<i32>, count: nat)
    ensures
        forall|x: i32| #[trigger]
            kept_tabs(indices, count).contains(x) <==> indices.contains(x) && 0 <= x < count,
        forall|i: int, j: int|
            0 <= i < j < kept_tabs(indices, count).len() ==> (#[trigger] kept_tabs(
                indices,
                count,
            )[i]) <= (#[trigger] kept_tabs(indices, count)[j]),
        indices.no_duplicates() ==> kept_tabs(indices, count).no_duplicates(),
{
    let before = |a: i32, b: i32| a < b;
    let valid = |i: i32| 0 <= i < count;
    let sorted = order::ordered(indices, before);
    order::lemma_ordered_is_ordered(indices, before, |a: i32| true);
    order::lemma_ordered_contains(indices, before);
    order::lemma_ordered_permutes(indices, before);
    order::lemma_filter_is_ordered(sorted, valid, before);
    assert forall|x: i32| #[trigger]
        kept_tabs(indices, count).contains(x) <==> indices.contains(x) && 0 <= x < count by {
        order::lemma_filter_contains(sorted, valid, x);
    }
    assert forall|i: int, j: int| 0 <= i < j < kept_tabs(indices, count).len() implies (
    #[trigger] kept_tabs(indices, count)[i]) <= (#[trigger] kept_tabs(indices, count)[j]) by {
        assert(!before(kept_tabs(indices, count)[j], kept_tabs(indices, count)[i]));
    }
    if indices.no_duplicates() {
        indices.lemma_multiset_has_no_duplicates();
        sorted.lemma_multiset_has_no_duplicates_conv();
        order::lemma_filter_distinct(sorted, valid);
    }
}

/// A picked window stands alone as it is, but for its tabs: of a browser whose
/// tabs were picked exactly those are left, in their order, and it is left out
/// where none is.
pub proof fn picked_windows_keep_what_was_picked(pick: NodePickView)
    ensures
        match (pick.tab_indices, pick.node.payload) {
            (
                Some(indices),
                NodePayloadView::Browser { tabs, active_tab_index },
            ) => {
                let kept = kept_tabs(indices, tabs.len());
                &&& standalone(pick).len() == if kept.len() == 0 {
                    0nat
                } else {
                    1nat
                }
                &&& kept.len() > 0 ==> ({
                    let n = standalone(pick)[0];
                    &&& n.node_id == pick.node.node_id
                    &&& n.bundle_id == pick.node.bundle_id
                    &&& n.app_name == pick.node.app_name
                    &&& n.window_title == pick.node.window_title
                    &&& n.geometry == pick.node.geometry
                    &&& n.adapter == pick.node.adapter
                    &&& n.payload matches NodePayloadView::Browser {
                        tabs: left,
                        active_tab_index: active,
                    } && left.len() == kept.len() && active == active_among(kept, active_tab_index)
                        && forall|k: int|
                        0 <= k < kept.len() ==> #[trigger] left[k] == tabs[kept[k] as int]
                })
            },
            _ => standalone(pick) == seq![pick.node],
        },
{
}

/// Picks of one window become one, and the windows come in the order they were
/// first picked.
pub proof fn windows_fold_in_order(picks: Seq<NodePickView>)
    ensures
        folded(picks).map_values(|p: NodePickView| p.node.node_id) == text::unique_of(
            picks.map_values(|p: NodePickView| p.node.node_id),
        ),
    decreases picks.len(),
{
    let ids = |p: NodePickView| p.node.node_id;
    if picks.len() == 0 {
        assert(folded(picks).map_values(ids) =~= text::unique_of(picks.map_values(ids)));
    } else {
        let rest = picks.drop_last();
        windows_fold_in_order(rest);
        let done = folded(rest);
        let p = picks.last();
        let pred = |q: NodePickView| q.node.node_id == p.node.node_id;
        let at = pick_at(done, p.node.node_id);
        order::lemma_first_where(done, pred, 0);
        let out = folded(picks);
        let names = picks.map_values(ids);
        assert(names.drop_last() =~= rest.map_values(ids));
        assert(names.last() == p.node.node_id);
        let seen = done.map_values(ids);
        if at < done.len() {
            assert(pred(done[at]));
            assert(seen[at] == p.node.node_id);
            assert(out.map_values(ids) =~= seen);
        } else {
            if seen.contains(p.node.node_id) {
                let k = choose|k: int| 0 <= k < seen.len() && seen[k] == p.node.node_id;
                assert(!pred(done[k]));
            }
            assert(out.map_values(ids) =~= seen.push(p.node.node_id));
        }
    }
}

/// A window that was picked more than once is taken as it was first picked: that
/// window, whole where it was picked whole.
#[verifier::rlimit(40)]
pub proof fn first_pick_of_a_window_stays(picks: Seq<NodePickView>, k: int)
    requires
        0 <= k < folded(picks).len(),
    ensures
        exists|i: int|
            {
                &&& 0 <= i < picks.len()
                &&& (#[trigger] picks[i]).node == folded(picks)[k].node
                &&& picks[i].tab_indices is None <==> folded(picks)[k].tab_indices is None
                &&& forall|m: int|
                    0 <= m < i ==> (#[trigger] picks[m]).node.node_id != picks[i].node.node_id
            },
    decreases picks.len(),
{
    let rest = picks.drop_last();
    let done = folded(rest);
    let p = picks.last();
    let pred = |q: NodePickView| q.node.node_id == p.node.node_id;
    order::lemma_first_where(done, pred, 0);
    let out = folded(picks);
    if k < done.len() {
        first_pick_of_a_window_stays(rest, k);
        let i = choose|i: int|
            {
                &&& 0 <= i < rest.len()
                &&& (#[trigger] rest[i]).node == done[k].node
                &&& rest[i].tab_indices is None <==> done[k].tab_indices is None
                &&& forall|m: int|
                    0 <= m < i ==> (#[trigger] rest[m]).node.node_id != rest[i].node.node_id
            };
        assert(picks[i] == rest[i]);
        assert(out[k].node == done[k].node);
        assert forall|m: int| 0 <= m < i implies (#[trigger] picks[m]).node.node_id
            != picks[i].node.node_id by {
            assert(rest[m] == picks[m]);
        }
    } else {
        let i = picks.len() - 1;
        assert(picks[i] == out[k]);
        assert forall|m: int| 0 <= m < i implies (#[trigger] picks[m]).node.node_id
            != picks[i].node.node_id by {
            assert(rest[m] == picks[m]);
            lemma_folded_names(rest, m);
            let q = choose|q: int|
                0 <= q < done.len() && (#[trigger] done[q]).node.node_id == rest[m].node.node_id;
            assert(!pred(done[q]));
        }
    }
}

/// Of a window whose tabs were picked exactly those tabs are taken that any pick
/// of it selects.
#[verifier::rlimit(40)]
pub proof fn picked_tabs_unite(picks: Seq<NodePickView>, k: int, x: i32)
    requires
        picks.len() > 0,
        0 <= k < folded(picks).len(),
        folded(picks)[k].tab_indices is Some,
    ensures
        folded(picks)[k].tab_indices->0.contains(x) <==> exists|i: int|
            {
                &&& 0 <= i < picks.len()
                &&& (#[trigger] picks[i]).node.node_id == folded(picks)[k].node.node_id
                &&& picks[i].tab_indices matches Some(some) && some.contains(x)
            },
    decreases picks.len(),
{
    let rest = picks.drop_last();
    let done = folded(rest);
    let p = picks.last();
    let pred = |q: NodePickView| q.node.node_id == p.node.node_id;
    let at = pick_at(done, p.node.node_id);
    order::lemma_first_where(done, pred, 0);
    one_pick_per_source(rest);
    let out = folded(picks);
    let last = picks.len() - 1;
    assert(picks[last] == p);
    if at < done.len() {
        assert(pred(done[at]));
    }
    if k < done.len() {
        assert(out[k].node == done[k].node);
        assert(done[k].tab_indices is Some);
        picked_tabs_unite(rest, k, x);
        let here = k == at;
        if !here {
            if k < at {
                assert(!pred(done[k]));
            } else {
                assert(done[at].node.node_id != done[k].node.node_id);
            }
            assert(p.node.node_id != out[k].node.node_id);
        } else if let Some(new) = p.tab_indices {
            selections_unite(done[at].tab_indices->0, new);
        }
        let in_rest = done[k].tab_indices->0.contains(x);
        if in_rest {
            let i = choose|i: int|
                {
                    &&& 0 <= i < rest.len()
                    &&& (#[trigger] rest[i]).node.node_id == done[k].node.node_id
                    &&& rest[i].tab_indices matches Some(some) && some.contains(x)
                };
            assert(picks[i] == rest[i]);
        }
        if exists|i: int|
            {
                &&& 0 <= i < picks.len()
                &&& (#[trigger] picks[i]).node.node_id == out[k].node.node_id
                &&& picks[i].tab_indices matches Some(some) && some.contains(x)
            } {
            let i = choose|i: int|
                {
                    &&& 0 <= i < picks.len()
                    &&& (#[trigger] picks[i]).node.node_id == out[k].node.node_id
                    &&& picks[i].tab_indices matches Some(some) && some.contains(x)
                };
            if i < last {
                assert(rest[i] == picks[i]);
                assert(in_rest);
            }
        }
    } else {
        assert(out[k] == p);
        if exists|i: int|
            {
                &&& 0 <= i < picks.len()
                &&& (#[trigger] picks[i]).node.node_id == out[k].node.node_id
                &&& picks[i].tab_indices matches Some(some) && some.contains(x)
            } {
            let i = choose|i: int|
                {
                    &&& 0 <= i < picks.len()
                    &&& (#[trigger] picks[i]).node.node_id == out[k].node.node_id
                    &&& picks[i].tab_indices matches Some(some) && some.contains(x)
                };
            if i < last {
                assert(rest[i] == picks[i]);
                lemma_folded_names(rest, i);
                let q = choose|q: int|
                    0 <= q < done.len() && (#[trigger] done[q]).node.node_id
                        == rest[i].node.node_id;
                assert(!pred(done[q]));
            }
        }
    }
}

proof fn lemma_folded_names(picks: Seq<NodePickView>, i: int)
    requires
        0 <= i < picks.len(),
    ensures
        exists|q: int|
            0 <= q < folded(picks).len() && (#[trigger] folded(picks)[q]).node.node_id
                == picks[i].node.node_id,
    decreases picks.len(),
{
    let rest = picks.drop_last();
    let done = folded(rest);
    let p = picks.last();
    let pred = |q: NodePickView| q.node.node_id == p.node.node_id;
    let at = pick_at(done, p.node.node_id);
    order::lemma_first_where(done, pred, 0);
    let out = folded(picks);
    if at < done.len() {
        assert(pred(done[at]));
    }
    if i < picks.len() - 1 {
        lemma_folded_names(rest, i);
        assert(rest[i] == picks[i]);
        let q = choose|q: int|
            0 <= q < done.len() && (#[trigger] done[q]).node.node_id == rest[i].node.node_id;
        assert(out[q].node == done[q].node);
    } else if at < done.len() {
        assert(out[at].node == done[at].node);
    } else {
        assert(out[done.len() as int] == p);
    }
}

/// The windows of a set of picks are those that the folded picks leave, one
/// behind the other; all that changes is their ids.
pub proof fn synthesized_windows_change_their_ids_only(picks: Seq<NodePickView>)
    ensures
        ({
            let plain = text::gathered(folded(picks), |p: NodePickView| standalone(p));
            &&& synthesized(picks).len() == plain.len()
            &&& forall|i: int|
                0 <= i < plain.len() ==> {
                    let n = #[trigger] synthesized(picks)[i];
                    &&& n.node_id == "n"@ + text::decimal(i as nat)
                    &&& n.bundle_id == plain[i].bundle_id
                    &&& n.app_name == plain[i].app_name
                    &&& n.window_title == plain[i].window_title
                    &&& n.geometry == plain[i].geometry
                    &&& n.adapter == plain[i].adapter
                    &&& n.payload == plain[i].payload
                }
        }),
{
}

/// Numbering windows gives each the id of its place and changes nothing else.
pub proof fn numbering_changes_ids_only(nodes: Seq<WindowNodeView>)
    ensures
        numbered(nodes).len() == nodes.len(),
        forall|i: int|
            0 <= i < nodes.len() ==> {
                let n = #[trigger] numbered(nodes)[i];
                &&& n.node_id == "n"@ + text::decimal(i as nat)
                &&& n.bundle_id == nodes[i].bundle_id
                &&& n.app_name == nodes[i].app_name
                &&& n.window_title == nodes[i].window_title
                &&& n.geometry == nodes[i].geometry
                &&& n.adapter == nodes[i].adapter
                &&& n.payload == nodes[i].payload
            },
{
}

/// A reference that is stale resolves to nothing: one to a window that is gone,
/// to a tab that is gone, or to a tab of a window without tabs. A reference to a
/// whole window resolves to it as it is.
pub proof fn stale_references_resolve_to_nothing(
    nodes: Seq<WindowNodeView>,
    item: ItemRefView,
    k: int,
)
    requires
        0 <= k <= nodes.len(),
        forall|m: int| 0 <= m < k ==> (#[trigger] nodes[m]).node_id != item.node_id,
        k < nodes.len() ==> nodes[k].node_id == item.node_id,
    ensures
        k == nodes.len() ==> resolved(nodes, item).len() == 0,
        k < nodes.len() ==> match (item.tab_index, nodes[k].payload) {
            (None, _) => resolved(nodes, item) == seq![
                NodePickView { node: nodes[k], tab_indices: None },
            ],
            (
                Some(index),
                NodePayloadView::Browser { tabs, active_tab_index: _ },
            ) => if 0 <= index < tabs.len() {
                resolved(nodes, item) == seq![
                    NodePickView { node: nodes[k], tab_indices: Some(seq![index]) },
                ]
            } else {
                resolved(nodes, item).len() == 0
            },
            _ => resolved(nodes, item).len() == 0,
        },
{
    let pred = |n: WindowNodeView| n.node_id == item.node_id;
    order::lemma_first_where(nodes, pred, 0);
    let at = node_at(nodes, item.node_id);
    if at < nodes.len() {
        assert(pred(nodes[at]));
    }
    if k < nodes.len() {
        assert(pred(nodes[k]));
    }
}

/// A group becomes a workspace of its own: named after its snapshot and itself,
/// captured with the snapshot, summed up by its label, made of the windows its
/// references resolve to, without groups. There is none only where there is no
/// such group or nothing left of it.
pub proof fn groups_become_workspaces(ws: WorkspaceStateView, group_id: Seq<char>, k: int)
    requires
        0 <= k <= ws.groups.len(),
        forall|m: int| 0 <= m < k ==> (#[trigger] ws.groups[m]).group_id != group_id,
        k < ws.groups.len() ==> ws.groups[k].group_id == group_id,
    ensures
        k == ws.groups.len() ==> materialized(ws, group_id) is None,
        k < ws.groups.len() ==> ({
            let picks = text::gathered(
                ws.groups[k].items,
                |r: ItemRefView| resolved(ws.nodes, r),
            );
            match materialized(ws, group_id) {
                None => synthesized(picks).len() == 0,
                Some(m) => {
                    &&& m.workspace_id == ws.workspace_id + "::"@ + group_id
                    &&& m.captured_at_unix_ms == ws.captured_at_unix_ms
                    &&& m.summary == ws.groups[k].label
                    &&& m.nodes == synthesized(picks)
                    &&& m.nodes.len() > 0
                    &&& m.tags == tagging::tags_of(m.nodes)
                    &&& m.groups.len() == 0
                },
            }
        }),
{
    let pred = |g: WorkspaceGroupView| g.group_id == group_id;
    order::lemma_first_where(ws.groups, pred, 0);
    let at = group_at(ws.groups, group_id);
    if at < ws.groups.len() {
        assert(pred(ws.groups[at]));
    }
    if k < ws.groups.len() {
        assert(pred(ws.groups[k]));
    }
}

/// Items become one group only where they are as similar as 0.65 on average.
pub proof fn unrelated_items_stay_apart(clusters: Seq<Seq<usize>>, averages: Seq<u64>)
    requires
        averages.len() == pairs(clusters.len()).len(),
        forall|k: int| 0 <= k < averages.len() ==> doubles::is_number(#[trigger] averages[k]),
    ensures
        merge_step(clusters, averages, GROUP_SIMILARITY_THRESHOLD) is Some <==> exists|k: int|
            0 <= k < averages.len() && doubles::at_least(
                #[trigger] averages[k],
                0x3FE4_CCCC_C000_0000,
            ),
{
    if averages.len() > 0 {
        leader_is_first_largest(averages, averages.len() as int);
        let best = leader(averages, averages.len() as int);
        assert(doubles::at_least(averages[best], averages[best]));
    }
}

} // verus!

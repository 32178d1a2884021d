//! Heuristic auto-tagging: deterministic tags and a compact summary derived
//! purely from extracted state. This is the floor the semantic index always
//! has; generated tags enrich on top of it later.

use vstd::prelude::*;

use crate::text;
use crate::text::{chars_of, decimal_of, distinct, find_char, join, len_without_trailing, string_of};
use crate::types::{
    BrowserTabView, NodePayload, NodePayloadView, TerminalTabView, WindowNode, WindowNodeView,
    WorkspaceState, WorkspaceStateView,
};

verus! {

/// How many derived tags a workspace keeps.
pub const MAX_TAGS: usize = 24;

/// How many tags a workspace keeps once generated ones are merged in.
pub const MAX_MERGED_TAGS: usize = 32;

/// How many plain apps a summary names.
pub const MAX_SUMMARY_APPS: usize = 4;

/// Index of the first "://" at or after `i`, or `s.len()` when there is none.
pub open spec fn scheme_end(s: Seq<char>, i: int) -> int
    decreases s.len() - i,
{
    if i < 0 || i + 2 >= s.len() {
        s.len() as int
    } else if s[i] == ':' && s[i + 1] == '/' && s[i + 2] == '/' {
        i
    } else {
        scheme_end(s, i + 1)
    }
}

/// What stands between "://" and the next '/', without a port and without a
/// leading "www."; empty when there is no "://".
pub open spec fn host_of(url: Seq<char>) -> Seq<char> {
    let at = scheme_end(url, 0);
    if at + 3 > url.len() {
        Seq::empty()
    } else {
        let host = text::before_first(text::before_first(url.skip(at + 3), '/'), ':');
        if text::has_prefix(host, "www."@) {
            host.skip(4)
        } else {
            host
        }
    }
}

/// The last path component, trailing slashes aside.
pub open spec fn base_of(path: Seq<char>) -> Seq<char> {
    text::after_last(text::trim_end_char(path, '/'), '/')
}

proof fn lemma_find_in_suffix(s: Seq<char>, k: int, c: char, i: int)
    requires
        0 <= k <= s.len(),
        0 <= i <= s.len() - k,
    ensures
        text::find_from(s.skip(k), c, i) + k == text::find_from(s, c, i + k),
    decreases s.len() - k - i,
{
    if i < s.len() - k {
        assert(s.skip(k)[i] == s[i + k]);
        if s[i + k] != c {
            lemma_find_in_suffix(s, k, c, i + 1);
        }
    }
}

proof fn lemma_find_in_prefix(s: Seq<char>, n: int, c: char, i: int)
    requires
        0 <= i <= n <= s.len(),
    ensures
        text::find_from(s.take(n), c, i) == if text::find_from(s, c, i) < n {
            text::find_from(s, c, i)
        } else {
            n
        },
    decreases n - i,
{
    text::lemma_find_from(s, c, i);
    if i < n {
        assert(s.take(n)[i] == s[i]);
        if s[i] != c {
            lemma_find_in_prefix(s, n, c, i + 1);
        }
    }
}

/// The host a URL names.
pub fn url_host(url: &str) -> (r: String)
    ensures
        r@ == host_of(url@),
{
    let v = chars_of(url);
    let n: usize = v.len();
    let mut at: usize = 0;
    while at < n && n - at > 2 && !(v[at] == ':' && v[at + 1] == '/' && v[at + 2] == '/')
        invariant
            at <= n,
            n == v@.len(),
            v@ == url@,
            scheme_end(v@, 0) == scheme_end(v@, at as int),
        decreases n - at,
    {
        at = at + 1;
    }
    if n - at <= 2 {
        return String::new();
    }
    let from: usize = at + 3;
    let slash: usize = find_char(&v, '/', from);
    let colon: usize = find_char(&v, ':', from);
    let to: usize = if colon < slash {
        colon
    } else {
        slash
    };
    proof {
        let rest = v@.skip(from as int);
        lemma_find_in_suffix(v@, from as int, '/', 0);
        lemma_find_in_suffix(v@, from as int, ':', 0);
        let host = text::before_first(rest, '/');
        assert(host =~= rest.take(slash - from));
        lemma_find_in_prefix(rest, slash - from, ':', 0);
        assert(text::before_first(host, ':') =~= v@.subrange(from as int, to as int));
        reveal_strlit("www.");
    }
    let ghost host = v@.subrange(from as int, to as int);
    let www = to - from >= 4 && v[from] == 'w' && v[from + 1] == 'w' && v[from + 2] == 'w'
        && v[from + 3] == '.';
    proof {
        if www {
            assert(host.take(4) =~= "www."@);
            assert(host.skip(4) =~= v@.subrange(from + 4, to as int));
        } else if text::has_prefix(host, "www."@) {
            let p = host.take(4);
            assert(p[0] == v@[from as int] && p[1] == v@[from + 1] && p[2] == v@[from + 2]
                && p[3] == v@[from + 3]);
        }
    }
    if www {
        string_of(&v, from + 4, to)
    } else {
        string_of(&v, from, to)
    }
}

/// The name a path ends in.
pub fn base_name(path: &str) -> (r: String)
    ensures
        r@ == base_of(path@),
{
    let v = chars_of(path);
    let to: usize = len_without_trailing(&v, '/');
    let mut from: usize = to;
    let ghost t = v@.take(to as int);
    assert(t.len() == to);
    while from > 0 && v[from - 1] != '/'
        invariant
            from <= to <= v@.len(),
            t == v@.take(to as int),
            text::rfind_before(t, '/', to as int) == text::rfind_before(t, '/', from as int),
        decreases from,
    {
        from = from - 1;
    }
    assert(t.skip(from as int) =~= v@.subrange(from as int, to as int));
    string_of(&v, from, to)
}

/// Project folders an editor or terminal window stands for.
pub open spec fn project_names(n: WindowNodeView) -> Seq<Seq<char>> {
    match n.payload {
        NodePayloadView::Editor { folder_path, open_files } => seq![base_of(folder_path)],
        NodePayloadView::Terminal { tabs } => tabs.map_values(
            |t: TerminalTabView| base_of(t.cwd),
        ),
        _ => Seq::empty(),
    }
}

/// Hosts of a browser window's tabs.
pub open spec fn host_names(n: WindowNodeView) -> Seq<Seq<char>> {
    match n.payload {
        NodePayloadView::Browser { tabs, active_tab_index } => tabs.map_values(
            |t: BrowserTabView| host_of(t.url),
        ),
        _ => Seq::empty(),
    }
}

/// Every tag source, in priority order: project folders, hosts, app names.
pub open spec fn tag_sources(nodes: Seq<WindowNodeView>) -> Seq<Seq<char>> {
    (text::gathered(nodes, |n: WindowNodeView| project_names(n)) + text::gathered(
        nodes,
        |n: WindowNodeView| host_names(n),
    ) + nodes.map_values(|n: WindowNodeView| n.app_name)).map_values(|t: Seq<char>| text::lower(t))
}

/// The tags derived from captured nodes.
pub open spec fn tags_of(nodes: Seq<WindowNodeView>) -> Seq<Seq<char>> {
    text::at_most(text::distinct_of(tag_sources(nodes)), MAX_TAGS as int)
}

/// Pushes the project folders of one node.
fn push_projects(node: &WindowNode, out: &mut Vec<String>)
    ensures
        final(out).deep_view() == old(out).deep_view() + project_names(node.deep_view()),
{
    let ghost before = out.deep_view();
    match &node.payload {
        NodePayload::Editor { folder_path, open_files: _ } => {
            out.push(base_name(folder_path.as_str()));
            assert(out.deep_view() =~= before + seq![base_of(folder_path@)]);
        },
        NodePayload::Terminal { tabs } => {
            let ghost names = tabs.deep_view().map_values(|t: TerminalTabView| base_of(t.cwd));
            let mut i: usize = 0;
            assert(before =~= before + names.take(0));
            while i < tabs.len()
                invariant
                    i <= tabs.len(),
                    names == tabs.deep_view().map_values(|t: TerminalTabView| base_of(t.cwd)),
                    out.deep_view() == before + names.take(i as int),
                decreases tabs.len() - i,
            {
                let ghost here = out.deep_view();
                out.push(base_name(tabs[i].cwd.as_str()));
                assert(out.deep_view() =~= here.push(base_of(tabs[i as int].cwd@)));
                assert(names[i as int] == base_of(tabs[i as int].cwd@));
                assert(before + names.take(i + 1) =~= (before + names.take(i as int)).push(
                    names[i as int],
                ));
                i = i + 1;
            }
            assert(names.take(names.len() as int) =~= names);
        },
        _ => {
            assert(before =~= before + Seq::<Seq<char>>::empty());
        },
    }
}

/// Pushes the tab hosts of one node.
fn push_hosts(node: &WindowNode, out: &mut Vec<String>)
    ensures
        final(out).deep_view() == old(out).deep_view() + host_names(node.deep_view()),
{
    let ghost before = out.deep_view();
    match &node.payload {
        NodePayload::Browser { tabs, active_tab_index: _ } => {
            let ghost names = tabs.deep_view().map_values(|t: BrowserTabView| host_of(t.url));
            let mut i: usize = 0;
            assert(before =~= before + names.take(0));
            while i < tabs.len()
                invariant
                    i <= tabs.len(),
                    names == tabs.deep_view().map_values(|t: BrowserTabView| host_of(t.url)),
                    out.deep_view() == before + names.take(i as int),
                decreases tabs.len() - i,
            {
                let ghost here = out.deep_view();
                out.push(url_host(tabs[i].url.as_str()));
                assert(out.deep_view() =~= here.push(host_of(tabs[i as int].url@)));
                assert(names[i as int] == host_of(tabs[i as int].url@));
                assert(before + names.take(i + 1) =~= (before + names.take(i as int)).push(
                    names[i as int],
                ));
                i = i + 1;
            }
            assert(names.take(names.len() as int) =~= names);
        },
        _ => {
            assert(before =~= before + Seq::<Seq<char>>::empty());
        },
    }
}

/// Lowercases every entry.
fn lowercase_all(v: &Vec<String>) -> (r: Vec<String>)
    ensures
        r.deep_view() == v.deep_view().map_values(|t: Seq<char>| text::lower(t)),
{
    let mut out: Vec<String> = Vec::new();
    let mut i: usize = 0;
    while i < v.len()
        invariant
            i <= v.len(),
            out.deep_view() == v.deep_view().take(i as int).map_values(
                |t: Seq<char>| text::lower(t),
            ),
        decreases v.len() - i,
    {
        let ghost before = out.deep_view();
        out.push(v[i].as_str().to_lowercase());
        assert(out.deep_view() =~= before.push(text::lower(v[i as int]@)));
        assert(v.deep_view().take(i + 1).map_values(|t: Seq<char>| text::lower(t))
            =~= v.deep_view().take(i as int).map_values(|t: Seq<char>| text::lower(t)).push(
            text::lower(v[i as int]@),
        ));
        i = i + 1;
    }
    assert(v.deep_view().take(v.len() as int) =~= v.deep_view());
    out
}

/// Tag sources, in priority order: project folders (editors, terminals), URL
/// hosts, app names; lowercased, without repeats, capped.
pub fn derive_tags(w: &WorkspaceState) -> (r: Vec<String>)
    ensures
        r.deep_view() == tags_of(w.deep_view().nodes),
{
    let ghost nodes = w.nodes.deep_view();
    let ghost f = |n: WindowNodeView| project_names(n);
    let ghost g = |n: WindowNodeView| host_names(n);
    let ghost h = |n: WindowNodeView| n.app_name;
    let mut raw: Vec<String> = Vec::new();
    let mut i: usize = 0;
    assert(raw.deep_view() =~= text::gathered(nodes.take(0), f));
    while i < w.nodes.len()
        invariant
            i <= w.nodes.len(),
            nodes == w.nodes.deep_view(),
            f == (|n: WindowNodeView| project_names(n)),
            raw.deep_view() == text::gathered(nodes.take(i as int), f),
        decreases w.nodes.len() - i,
    {
        push_projects(&w.nodes[i], &mut raw);
        proof {
            text::lemma_take_step(nodes, i as int);
        }
        i = i + 1;
    }
    let ghost projects = text::gathered(nodes, f);
    assert(nodes.take(nodes.len() as int) =~= nodes);
    let mut i: usize = 0;
    assert(raw.deep_view() =~= projects + text::gathered(nodes.take(0), g));
    while i < w.nodes.len()
        invariant
            i <= w.nodes.len(),
            nodes == w.nodes.deep_view(),
            g == (|n: WindowNodeView| host_names(n)),
            raw.deep_view() == projects + text::gathered(nodes.take(i as int), g),
        decreases w.nodes.len() - i,
    {
        push_hosts(&w.nodes[i], &mut raw);
        proof {
            text::lemma_take_step(nodes, i as int);
            assert(raw.deep_view() =~= projects + text::gathered(nodes.take(i + 1), g));
        }
        i = i + 1;
    }
    let ghost named = projects + text::gathered(nodes, g);
    let mut i: usize = 0;
    assert(raw.deep_view() =~= named + nodes.take(0).map_values(h));
    while i < w.nodes.len()
        invariant
            i <= w.nodes.len(),
            nodes == w.nodes.deep_view(),
            h == (|n: WindowNodeView| n.app_name),
            raw.deep_view() == named + nodes.take(i as int).map_values(h),
        decreases w.nodes.len() - i,
    {
        let ghost before = raw.deep_view();
        raw.push(w.nodes[i].app_name.clone());
        proof {
            text::lemma_take_step(nodes, i as int);
            assert(raw.deep_view() =~= before.push(nodes[i as int].app_name));
            assert(named + nodes.take(i + 1).map_values(h) =~= before.push(
                nodes[i as int].app_name,
            ));
        }
        i = i + 1;
    }
    let all = lowercase_all(&raw);
    let mut tags = distinct(all);
    let ghost full = tags.deep_view();
    tags.truncate(MAX_TAGS);
    assert(tags.deep_view() =~= text::at_most(full, MAX_TAGS as int));
    tags
}

/// The project a window's summary names: an editor's folder, or the directory
/// of a terminal's first tab.
pub open spec fn lead_project(n: WindowNodeView) -> Seq<Seq<char>> {
    match n.payload {
        NodePayloadView::Editor { folder_path, open_files } => seq![base_of(folder_path)],
        NodePayloadView::Terminal { tabs } => if tabs.len() > 0 {
            seq![base_of(tabs[0].cwd)]
        } else {
            Seq::empty()
        },
        _ => Seq::empty(),
    }
}

/// The name of a window no adapter has deeper state of.
pub open spec fn plain_app(n: WindowNodeView) -> Seq<Seq<char>> {
    match n.payload {
        NodePayloadView::Generic => seq![n.app_name],
        _ => Seq::empty(),
    }
}

/// How many browser tabs a window has.
pub open spec fn tabs_in(n: WindowNodeView) -> nat {
    match n.payload {
        NodePayloadView::Browser { tabs, active_tab_index } => tabs.len(),
        _ => 0,
    }
}

/// How many browser tabs the windows have together.
pub open spec fn tab_total(nodes: Seq<WindowNodeView>) -> nat
    decreases nodes.len(),
{
    if nodes.len() == 0 {
        0
    } else {
        tab_total(nodes.drop_last()) + tabs_in(nodes.last())
    }
}

/// The part of a summary that counts browser tabs; none when there are none.
pub open spec fn tab_phrase(count: nat) -> Seq<Seq<char>> {
    if count == 0 {
        Seq::empty()
    } else if count == 1 {
        seq!["1 browser tab"@]
    } else {
        seq![text::decimal(count) + " browser tabs"@]
    }
}

/// The parts of a summary: projects, the tab count, up to four plain apps.
pub open spec fn summary_parts(nodes: Seq<WindowNodeView>) -> Seq<Seq<char>> {
    text::distinct_of(text::gathered(nodes, |n: WindowNodeView| lead_project(n))) + tab_phrase(
        tab_total(nodes),
    ) + text::at_most(
        text::distinct_of(text::gathered(nodes, |n: WindowNodeView| plain_app(n))),
        MAX_SUMMARY_APPS as int,
    )
}

/// The summary derived from captured nodes.
pub open spec fn summary_of(nodes: Seq<WindowNodeView>) -> Seq<char> {
    let parts = summary_parts(nodes);
    if parts.len() == 0 {
        "empty workspace"@
    } else {
        text::joined(parts, " · "@)
    }
}

/// One line the staging interface can show before generated tags arrive, e.g.
/// "temporal · remy-ios · 23 browser tabs · Finder · Notes".
pub fn derive_summary(w: &WorkspaceState) -> (r: String)
    ensures
        r@ == summary_of(w.deep_view().nodes),
{
    let ghost nodes = w.nodes.deep_view();
    let ghost f = |n: WindowNodeView| lead_project(n);
    let ghost g = |n: WindowNodeView| plain_app(n);
    let mut leads: Vec<String> = Vec::new();
    let mut plain: Vec<String> = Vec::new();
    let mut count: u128 = 0;
    let mut i: usize = 0;
    assert(leads.deep_view() =~= text::gathered(nodes.take(0), f));
    assert(plain.deep_view() =~= text::gathered(nodes.take(0), g));
    while i < w.nodes.len()
        invariant
            i <= w.nodes.len(),
            nodes == w.nodes.deep_view(),
            f == (|n: WindowNodeView| lead_project(n)),
            g == (|n: WindowNodeView| plain_app(n)),
            leads.deep_view() == text::gathered(nodes.take(i as int), f),
            plain.deep_view() == text::gathered(nodes.take(i as int), g),
            count == tab_total(nodes.take(i as int)),
            count <= i * 0xFFFF_FFFF_FFFF_FFFF,
        decreases w.nodes.len() - i,
    {
        let ghost before_leads = leads.deep_view();
        let ghost before_plain = plain.deep_view();
        proof {
            text::lemma_take_step(nodes, i as int);
        }
        match &w.nodes[i].payload {
            NodePayload::Editor { folder_path, open_files: _ } => {
                leads.push(base_name(folder_path.as_str()));
            },
            NodePayload::Terminal { tabs } => {
                if tabs.len() > 0 {
                    leads.push(base_name(tabs[0].cwd.as_str()));
                }
            },
            NodePayload::Browser { tabs, active_tab_index: _ } => {
                count = count + tabs.len() as u128;
            },
            NodePayload::Generic => {
                plain.push(w.nodes[i].app_name.clone());
            },
        }
        assert(leads.deep_view() =~= before_leads + lead_project(nodes[i as int]));
        assert(plain.deep_view() =~= before_plain + plain_app(nodes[i as int]));
        i = i + 1;
    }
    assert(nodes.take(nodes.len() as int) =~= nodes);
    let mut parts = distinct(leads);
    let ghost p0 = parts.deep_view();
    if count == 1 {
        parts.push("1 browser tab".to_owned());
    } else if count > 1 {
        parts.push(decimal_of(count).concat(" browser tabs"));
    }
    assert(parts.deep_view() =~= p0 + tab_phrase(count as nat));
    let ghost p1 = parts.deep_view();
    let mut apps = distinct(plain);
    let ghost full = apps.deep_view();
    apps.truncate(MAX_SUMMARY_APPS);
    assert(apps.deep_view() =~= text::at_most(full, MAX_SUMMARY_APPS as int));
    let ghost named = apps.deep_view();
    parts.append(&mut apps);
    assert(parts.deep_view() =~= p1 + named);
    if parts.len() == 0 {
        "empty workspace".to_owned()
    } else {
        join(&parts, " · ")
    }
}

/// Fills tags and summary from the captured nodes.
pub fn enrich(w: WorkspaceState) -> (r: WorkspaceState)
    ensures
        r.deep_view() == (WorkspaceStateView {
            tags: tags_of(w.deep_view().nodes),
            summary: summary_of(w.deep_view().nodes),
            ..w.deep_view()
        }),
{
    let tags = derive_tags(&w);
    let summary = derive_summary(&w);
    WorkspaceState { tags, summary, ..w }
}

/// The workspace with a generated summary and generated tags applied: a
/// non-empty summary replaces, tags merge behind the ones already there.
pub open spec fn with_llm_tags(
    summary: Seq<char>,
    llm_tags: Seq<Seq<char>>,
    w: WorkspaceStateView,
) -> WorkspaceStateView {
    WorkspaceStateView {
        summary: if summary.len() > 0 {
            summary
        } else {
            w.summary
        },
        tags: text::at_most(
            text::distinct_of(w.tags + llm_tags.map_values(|t: Seq<char>| text::lower(t))),
            MAX_MERGED_TAGS as int,
        ),
        ..w
    }
}

/// Applies a generated summary and tags on top of the heuristics: the summary
/// replaces (it is richer), tags merge (heuristics keep recall).
pub fn apply_llm_tags(summary: &str, llm_tags: &Vec<String>, w: WorkspaceState) -> (r:
    WorkspaceState)
    ensures
        r.deep_view() == with_llm_tags(summary@, llm_tags.deep_view(), w.deep_view()),
{
    let mut w = w;
    let ghost start = w.deep_view();
    if !summary.is_empty() {
        w.summary = summary.to_owned();
    }
    let mut all = w.tags.clone();
    let ghost kept = all.deep_view();
    let mut more = lowercase_all(llm_tags);
    let ghost added = more.deep_view();
    all.append(&mut more);
    assert(all.deep_view() =~= kept + added);
    let mut merged = distinct(all);
    let ghost full = merged.deep_view();
    merged.truncate(MAX_MERGED_TAGS);
    assert(merged.deep_view() =~= text::at_most(full, MAX_MERGED_TAGS as int));
    w.tags = merged;
    w
}

/// What a browser tab contributes to the text of its workspace.
pub open spec fn tab_texts(tabs: Seq<BrowserTabView>) -> Seq<Seq<char>> {
    text::gathered(tabs, |t: BrowserTabView| seq![t.title, host_of(t.url)])
}

/// What a window contributes to the text of its workspace.
pub open spec fn node_texts(n: WindowNodeView) -> Seq<Seq<char>> {
    seq![n.app_name, n.window_title] + match n.payload {
        NodePayloadView::Browser { tabs, active_tab_index } => tab_texts(tabs),
        NodePayloadView::Terminal { tabs } => tabs.map_values(|t: TerminalTabView| t.cwd),
        NodePayloadView::Editor { folder_path, open_files } => seq![folder_path] + open_files,
        NodePayloadView::Generic => Seq::empty(),
    }
}

/// The lines that represent a workspace: summary, tags, then each window.
pub open spec fn text_lines(w: WorkspaceStateView) -> Seq<Seq<char>> {
    text::distinct_of(
        seq![w.summary] + w.tags + text::gathered(w.nodes, |n: WindowNodeView| node_texts(n)),
    )
}

/// Pushes what one node contributes.
fn push_node_texts(node: &WindowNode, out: &mut Vec<String>)
    ensures
        final(out).deep_view() == old(out).deep_view() + node_texts(node.deep_view()),
{
    let ghost start = out.deep_view();
    out.push(node.app_name.clone());
    out.push(node.window_title.clone());
    let ghost before = out.deep_view();
    assert(before =~= start + seq![node.app_name@, node.window_title@]);
    match &node.payload {
        NodePayload::Browser { tabs, active_tab_index: _ } => {
            let ghost all = tabs.deep_view();
            let ghost f = |t: BrowserTabView| seq![t.title, host_of(t.url)];
            let mut i: usize = 0;
            assert(before =~= before + text::gathered(all.take(0), f));
            while i < tabs.len()
                invariant
                    i <= tabs.len(),
                    all == tabs.deep_view(),
                    f == (|t: BrowserTabView| seq![t.title, host_of(t.url)]),
                    out.deep_view() == before + text::gathered(all.take(i as int), f),
                decreases tabs.len() - i,
            {
                let ghost here = out.deep_view();
                out.push(tabs[i].title.clone());
                out.push(url_host(tabs[i].url.as_str()));
                proof {
                    text::lemma_take_step(all, i as int);
                    assert(out.deep_view() =~= here + f(all[i as int]));
                    assert(here + f(all[i as int]) =~= before + text::gathered(all.take(i + 1), f));
                }
                i = i + 1;
            }
            assert(all.take(all.len() as int) =~= all);
        },
        NodePayload::Terminal { tabs } => {
            let ghost names = tabs.deep_view().map_values(|t: TerminalTabView| t.cwd);
            let mut i: usize = 0;
            assert(before =~= before + names.take(0));
            while i < tabs.len()
                invariant
                    i <= tabs.len(),
                    names == tabs.deep_view().map_values(|t: TerminalTabView| t.cwd),
                    out.deep_view() == before + names.take(i as int),
                decreases tabs.len() - i,
            {
                let ghost here = out.deep_view();
                out.push(tabs[i].cwd.clone());
                assert(names[i as int] == tabs[i as int].cwd@);
                assert(out.deep_view() =~= here.push(names[i as int]));
                assert(before + names.take(i + 1) =~= here.push(names[i as int]));
                i = i + 1;
            }
            assert(names.take(names.len() as int) =~= names);
        },
        NodePayload::Editor { folder_path, open_files } => {
            out.push(folder_path.clone());
            let mut more = open_files.clone();
            out.append(&mut more);
            assert(out.deep_view() =~= before + (seq![folder_path@] + open_files.deep_view()));
        },
        NodePayload::Generic => {
            assert(before =~= before + Seq::<Seq<char>>::empty());
        },
    }
    assert(out.deep_view() =~= start + node_texts(node.deep_view()));
}

/// The text whose embedding represents this workspace in the vector index.
/// Order matters: summary and tags first (highest signal), then window titles,
/// project folders and tab titles and hosts.
pub fn embedding_text(w: &WorkspaceState) -> (r: String)
    ensures
        r@ == text::joined(text_lines(w.deep_view()), "\n"@),
{
    let ghost nodes = w.nodes.deep_view();
    let ghost f = |n: WindowNodeView| node_texts(n);
    let mut parts: Vec<String> = Vec::new();
    parts.push(w.summary.clone());
    let mut tags = w.tags.clone();
    parts.append(&mut tags);
    let ghost head = parts.deep_view();
    assert(head =~= seq![w.summary@] + w.tags.deep_view());
    let mut i: usize = 0;
    assert(head =~= head + text::gathered(nodes.take(0), f));
    while i < w.nodes.len()
        invariant
            i <= w.nodes.len(),
            nodes == w.nodes.deep_view(),
            f == (|n: WindowNodeView| node_texts(n)),
            parts.deep_view() == head + text::gathered(nodes.take(i as int), f),
        decreases w.nodes.len() - i,
    {
        push_node_texts(&w.nodes[i], &mut parts);
        proof {
            text::lemma_take_step(nodes, i as int);
            assert(parts.deep_view() =~= head + text::gathered(nodes.take(i + 1), f));
        }
        i = i + 1;
    }
    assert(nodes.take(nodes.len() as int) =~= nodes);
    let lines = distinct(parts);
    join(&lines, "\n")
}

/// Derived tags repeat nothing, none is empty, there are at most `MAX_TAGS`,
/// and each says something the windows hold: a project folder, a host or an app
/// name, in lower case.
pub proof fn derived_tags_are_truthful(nodes: Seq<WindowNodeView>)
    ensures
        tags_of(nodes).no_duplicates(),
        tags_of(nodes).len() <= MAX_TAGS,
        forall|i: int|
            0 <= i < tags_of(nodes).len() ==> (#[trigger] tags_of(nodes)[i]).len() > 0
                && tag_sources(nodes).contains(tags_of(nodes)[i]),
{
    let all = text::distinct_of(tag_sources(nodes));
    text::lemma_distinct(tag_sources(nodes));
    assert forall|i: int| 0 <= i < tags_of(nodes).len() implies (#[trigger] tags_of(nodes)[i]).len()
        > 0 && tag_sources(nodes).contains(tags_of(nodes)[i]) by {
        assert(all.contains(all[i]));
    }
}

proof fn lemma_distinct_of_distinct(a: Seq<Seq<char>>)
    requires
        a.no_duplicates(),
        forall|i: int| 0 <= i < a.len() ==> (#[trigger] a[i]).len() > 0,
    ensures
        text::distinct_of(a) == a,
    decreases a.len(),
{
    if a.len() > 0 {
        let rest = a.drop_last();
        assert forall|i: int| 0 <= i < rest.len() implies (#[trigger] rest[i]).len() > 0 by {
            assert(rest[i] == a[i]);
        }
        lemma_distinct_of_distinct(rest);
        assert(a[a.len() - 1].len() > 0);
        assert(!rest.contains(a.last()));
        assert(a =~= rest.push(a.last()));
    }
}

proof fn lemma_distinct_prefix(a: Seq<Seq<char>>, b: Seq<Seq<char>>)
    ensures
        text::distinct_of(a).len() <= text::distinct_of(a + b).len(),
        text::distinct_of(a + b).take(text::distinct_of(a).len() as int) == text::distinct_of(a),
    decreases b.len(),
{
    let head = text::distinct_of(a);
    if b.len() == 0 {
        assert(a + b =~= a);
        assert(head.take(head.len() as int) =~= head);
    } else {
        lemma_distinct_prefix(a, b.drop_last());
        assert((a + b).drop_last() =~= a + b.drop_last());
        let kept = text::distinct_of(a + b.drop_last());
        assert(text::distinct_of(a + b).take(head.len() as int) =~= kept.take(head.len() as int));
    }
}

/// Generated tags never displace derived ones: they merge behind them. A
/// generated summary replaces the derived one unless it is empty. Nothing else
/// changes.
pub proof fn generated_tags_merge_behind(
    summary: Seq<char>,
    llm_tags: Seq<Seq<char>>,
    w: WorkspaceStateView,
)
    requires
        w.tags.no_duplicates(),
        w.tags.len() <= MAX_MERGED_TAGS,
        forall|i: int| 0 <= i < w.tags.len() ==> (#[trigger] w.tags[i]).len() > 0,
    ensures
        ({
            let merged = with_llm_tags(summary, llm_tags, w);
            &&& merged.tags.len() <= MAX_MERGED_TAGS
            &&& merged.tags.no_duplicates()
            &&& merged.tags.take(w.tags.len() as int) == w.tags
            &&& summary.len() == 0 ==> merged.summary == w.summary
            &&& summary.len() > 0 ==> merged.summary == summary
            &&& merged.nodes == w.nodes
            &&& merged.groups == w.groups
        }),
{
    let added = llm_tags.map_values(|t: Seq<char>| text::lower(t));
    lemma_distinct_of_distinct(w.tags);
    lemma_distinct_prefix(w.tags, added);
    text::lemma_distinct(w.tags + added);
    let full = text::distinct_of(w.tags + added);
    let merged = text::at_most(full, MAX_MERGED_TAGS as int);
    assert(merged.take(w.tags.len() as int) =~= full.take(w.tags.len() as int));
}

/// The text that represents a workspace leads with its summary.
pub proof fn embedding_text_leads_with_summary(w: WorkspaceStateView)
    requires
        w.summary.len() > 0,
    ensures
        text_lines(w).len() > 0,
        text_lines(w)[0] == w.summary,
{
    let head = seq![w.summary];
    let rest = w.tags + text::gathered(w.nodes, |n: WindowNodeView| node_texts(n));
    assert(seq![w.summary] + w.tags + text::gathered(w.nodes, |n: WindowNodeView| node_texts(n))
        =~= head + rest);
    lemma_distinct_prefix(head, rest);
    lemma_distinct_of_distinct(head);
    assert(text::distinct_of(head + rest).take(1)[0] == head[0]);
}

/// The host of an address is what stands between the first `://` and the path or
/// port behind it, without a leading `www.`; an address without `://` has none.
#[verifier::rlimit(40)]
pub proof fn hosts_are_read_off_addresses(
    scheme: Seq<char>,
    host: Seq<char>,
    tail: Seq<char>,
)
    requires
        forall|i: int|
            0 <= i < scheme.len() ==> #[trigger] (scheme + "://"@ + host + tail).subrange(i, i + 3)
                != "://"@,
        !host.contains('/'),
        !host.contains(':'),
        tail.len() > 0 ==> tail[0] == '/' || tail[0] == ':',
    ensures
        !scheme.contains(':') ==> host_of(scheme).len() == 0,
        host_of(scheme + "://"@ + host + tail) == if host.len() >= 4 && host.take(4) == "www."@ {
            host.skip(4)
        } else {
            host
        },
{
    reveal_strlit("://");
    reveal_strlit("www.");
    let url = scheme + "://"@ + host + tail;
    assert(url =~= scheme + ("://"@ + host + tail));
    lemma_scheme_end(scheme, "://"@ + host + tail, 0);
    if !scheme.contains(':') {
        lemma_no_scheme_end(scheme, 0);
    }
    let at = scheme.len() as int;
    assert(url[at] == ':' && url[at + 1] == '/' && url[at + 2] == '/');
    assert(scheme_end(url, at) == at);
    let rest = url.skip(at + 3);
    assert(rest =~= host + tail);
    let slash = text::find_from(rest, '/', 0);
    let colon = text::find_from(rest, ':', 0);
    text::lemma_find_from(rest, '/', 0);
    text::lemma_find_from(rest, ':', 0);
    if slash < host.len() {
        assert(host[slash] == '/');
    }
    if colon < host.len() {
        assert(host[colon] == ':');
    }
    if tail.len() > 0 {
        assert(rest[host.len() as int] == tail[0]);
    }
    lemma_find_in_prefix(rest, slash, ':', 0);
    assert(text::before_first(text::before_first(rest, '/'), ':') =~= host);
}

proof fn lemma_scheme_end(scheme: Seq<char>, rest: Seq<char>, i: int)
    requires
        forall|k: int|
            0 <= k < scheme.len() ==> #[trigger] (scheme + rest).subrange(k, k + 3) != "://"@,
        0 <= i <= scheme.len(),
        rest.len() >= 3,
    ensures
        scheme_end(scheme + rest, i) == scheme_end(scheme + rest, scheme.len() as int),
    decreases scheme.len() - i,
{
    if i < scheme.len() {
        let all = scheme + rest;
        reveal_strlit("://");
        assert(all.subrange(i, i + 3) != "://"@);
        if all[i] == ':' && all[i + 1] == '/' && all[i + 2] == '/' {
            assert(all.subrange(i, i + 3) =~= "://"@);
        }
        lemma_scheme_end(scheme, rest, i + 1);
    }
}

proof fn lemma_no_scheme_end(s: Seq<char>, i: int)
    requires
        !s.contains(':'),
        0 <= i,
    ensures
        scheme_end(s, i) == s.len(),
    decreases s.len() - i,
{
    if i + 2 < s.len() {
        assert(s.contains(s[i]));
        lemma_no_scheme_end(s, i + 1);
    }
}

/// The base name of a path is its last name, whatever stands before it and however
/// many slashes end it.
pub proof fn base_names_come_last(dir: Seq<char>, name: Seq<char>, slashes: nat)
    requires
        name.len() > 0,
        !name.contains('/'),
    ensures
        base_of(name + Seq::new(slashes, |i: int| '/')) == name,
        base_of(dir.push('/') + name + Seq::new(slashes, |i: int| '/')) == name,
{
    assert(name.contains(name.last()));
    text::trailing_characters_go(name, '/', slashes);
    text::trailing_characters_go(dir.push('/') + name, '/', slashes);
    text::behind_the_last(dir, '/', name);
}

/// Tags name projects first, those of editors and terminals, the sites of browser
/// tabs next, and every app last, all in lower case and in the order of the
/// windows.
pub proof fn tags_name_projects_sites_and_apps(nodes: Seq<WindowNodeView>)
    ensures
        ({
            let projects = text::gathered(
                nodes,
                |n: WindowNodeView|
                    match n.payload {
                        NodePayloadView::Editor { folder_path, open_files: _ } => seq![
                            base_of(folder_path),
                        ],
                        NodePayloadView::Terminal { tabs } => Seq::new(
                            tabs.len(),
                            |i: int| base_of(tabs[i].cwd),
                        ),
                        _ => Seq::empty(),
                    },
            );
            let sites = text::gathered(
                nodes,
                |n: WindowNodeView|
                    match n.payload {
                        NodePayloadView::Browser { tabs, active_tab_index: _ } => Seq::new(
                            tabs.len(),
                            |i: int| host_of(tabs[i].url),
                        ),
                        _ => Seq::empty(),
                    },
            );
            let named = projects + sites;
            let sources = tag_sources(nodes);
            &&& sources.len() == named.len() + nodes.len()
            &&& forall|i: int|
                0 <= i < named.len() ==> #[trigger] sources[i] == text::lower(named[i])
            &&& forall|i: int|
                0 <= i < nodes.len() ==> sources[named.len() + i] == text::lower(
                    (#[trigger] nodes[i]).app_name,
                )
        }),
{
    let p = |n: WindowNodeView|
        match n.payload {
            NodePayloadView::Editor { folder_path, open_files: _ } => seq![base_of(folder_path)],
            NodePayloadView::Terminal { tabs } => Seq::new(
                tabs.len(),
                |i: int| base_of(tabs[i].cwd),
            ),
            _ => Seq::empty(),
        };
    let s = |n: WindowNodeView|
        match n.payload {
            NodePayloadView::Browser { tabs, active_tab_index: _ } => Seq::new(
                tabs.len(),
                |i: int| host_of(tabs[i].url),
            ),
            _ => Seq::empty(),
        };
    lemma_gathered_alike(nodes, p, |n: WindowNodeView| project_names(n));
    lemma_gathered_alike(nodes, s, |n: WindowNodeView| host_names(n));
}

proof fn lemma_gathered_alike<A, B>(
    s: Seq<A>,
    f: spec_fn(A) -> Seq<B>,
    g: spec_fn(A) -> Seq<B>,
)
    requires
        forall|a: A| (#[trigger] f(a)) =~= g(a),
    ensures
        text::gathered(s, f) == text::gathered(s, g),
    decreases s.len(),
{
    if s.len() > 0 {
        lemma_gathered_alike(s.drop_last(), f, g);
        assert(f(s.last()) =~= g(s.last()));
    }
}

/// A workspace is tagged with every name there is to it, each once and in order,
/// the first 24 of them.
pub proof fn first_names_become_tags(nodes: Seq<WindowNodeView>)
    ensures
        ({
            let names = text::distinct_of(tag_sources(nodes));
            &&& tags_of(nodes).len() == if names.len() < 24 {
                names.len()
            } else {
                24
            }
            &&& forall|i: int|
                0 <= i < tags_of(nodes).len() ==> #[trigger] tags_of(nodes)[i] == names[i]
            &&& forall|t: Seq<char>| #[trigger]
                names.contains(t) <==> t.len() > 0 && tag_sources(nodes).contains(t)
        }),
{
    text::lemma_distinct(tag_sources(nodes));
}

/// The browser tabs of a workspace are those of its browser windows.
pub proof fn browser_tabs_add_up(
    nodes: Seq<WindowNodeView>,
    n: WindowNodeView,
)
    ensures
        tab_total(Seq::empty()) == 0,
        tab_total(nodes.push(n)) == tab_total(nodes) + match n.payload {
            NodePayloadView::Browser { tabs, active_tab_index: _ } => tabs.len(),
            _ => 0,
        },
{
    assert(nodes.push(n).drop_last() =~= nodes);
}

/// A summary names each project once, that of an editor's folder or of a
/// terminal's first tab, then how many browser tabs there are, then up to four
/// other apps; with none of these the workspace is empty.
pub proof fn summaries_name_projects_tabs_and_apps(nodes: Seq<WindowNodeView>)
    ensures
        ({
            let projects = text::distinct_of(
                text::gathered(
                    nodes,
                    |n: WindowNodeView|
                        match n.payload {
                            NodePayloadView::Editor { folder_path, open_files: _ } => seq![
                                base_of(folder_path),
                            ],
                            NodePayloadView::Terminal { tabs } => if tabs.len() > 0 {
                                seq![base_of(tabs[0].cwd)]
                            } else {
                                Seq::empty()
                            },
                            _ => Seq::empty(),
                        },
                ),
            );
            let plain = nodes.filter(|n: WindowNodeView| n.payload is Generic);
            let apps = text::distinct_of(plain.map_values(|n: WindowNodeView| n.app_name));
            let count = tab_total(nodes);
            let tabs = if count == 0 {
                Seq::empty()
            } else if count == 1 {
                seq!["1 browser tab"@]
            } else {
                seq![text::decimal(count) + " browser tabs"@]
            };
            let parts = projects + tabs + if apps.len() <= 4 {
                apps
            } else {
                apps.take(4)
            };
            summary_of(nodes) == if parts.len() == 0 {
                "empty workspace"@
            } else {
                text::joined(parts, " · "@)
            }
        }),
{
    let lead = |n: WindowNodeView|
        match n.payload {
            NodePayloadView::Editor { folder_path, open_files: _ } => seq![base_of(folder_path)],
            NodePayloadView::Terminal { tabs } => if tabs.len() > 0 {
                seq![base_of(tabs[0].cwd)]
            } else {
                Seq::empty()
            },
            _ => Seq::empty(),
        };
    lemma_gathered_alike(nodes, lead, |n: WindowNodeView| lead_project(n));
    text::lemma_gathered_kept(
        nodes,
        |n: WindowNodeView| plain_app(n),
        |n: WindowNodeView| n.payload is Generic,
        |n: WindowNodeView| n.app_name,
    );
}

/// Generated tags join in lower case behind those there are, each once, up to 32
/// in all; while there is room none is left out.
pub proof fn generated_tags_join_in_lower_case(
    summary: Seq<char>,
    llm_tags: Seq<Seq<char>>,
    w: WorkspaceStateView,
    t: Seq<char>,
)
    requires
        w.tags.len() + llm_tags.len() <= 32,
    ensures
        ({
            let merged = with_llm_tags(summary, llm_tags, w);
            &&& merged.tags.contains(t) <==> t.len() > 0 && (w.tags.contains(t) || exists|k: int|
                0 <= k < llm_tags.len() && text::lower(#[trigger] llm_tags[k]) == t)
            &&& merged.workspace_id == w.workspace_id
            &&& merged.captured_at_unix_ms == w.captured_at_unix_ms
        }),
{
    let lowered = llm_tags.map_values(|t: Seq<char>| text::lower(t));
    let all = w.tags + lowered;
    text::lemma_distinct(all);
    assert(text::at_most(text::distinct_of(all), 32) == text::distinct_of(all));
    if all.contains(t) {
        let k = choose|k: int| 0 <= k < all.len() && all[k] == t;
        if k < w.tags.len() {
            assert(w.tags[k] == t);
        } else {
            assert(text::lower(llm_tags[k - w.tags.len()]) == t);
        }
    }
    if w.tags.contains(t) {
        let k = choose|k: int| 0 <= k < w.tags.len() && w.tags[k] == t;
        assert(all[k] == t);
    }
    if exists|k: int| 0 <= k < llm_tags.len() && text::lower(#[trigger] llm_tags[k]) == t {
        let k = choose|k: int| 0 <= k < llm_tags.len() && text::lower(#[trigger] llm_tags[k]) == t;
        assert(all[w.tags.len() + k] == t);
    }
}

/// No workspace has more than 32 tags once generated ones have joined, and the
/// first ones stay.
pub proof fn merged_tags_are_the_first(
    summary: Seq<char>,
    llm_tags: Seq<Seq<char>>,
    w: WorkspaceStateView,
)
    ensures
        ({
            let all = text::distinct_of(
                w.tags + Seq::new(llm_tags.len(), |i: int| text::lower(llm_tags[i])),
            );
            let merged = with_llm_tags(summary, llm_tags, w);
            &&& merged.tags.len() == if all.len() < 32 {
                all.len()
            } else {
                32
            }
            &&& forall|i: int| 0 <= i < merged.tags.len() ==> #[trigger] merged.tags[i] == all[i]
        }),
{
    assert(Seq::new(llm_tags.len(), |i: int| text::lower(llm_tags[i])) =~= llm_tags.map_values(
        |t: Seq<char>| text::lower(t),
    ));
}

/// The text of a window holds its app and title, then what it shows: each tab's
/// title and host, each session's directory, an editor's folder and files.
pub proof fn window_texts_say_what_is_shown(n: WindowNodeView)
    ensures
        node_texts(n).len() >= 2,
        node_texts(n)[0] == n.app_name,
        node_texts(n)[1] == n.window_title,
        match n.payload {
            NodePayloadView::Browser { tabs, active_tab_index: _ } => node_texts(n).len() == 2 + 2
                * tabs.len() && forall|i: int|
                0 <= i < tabs.len() ==> node_texts(n)[2 + 2 * i] == (#[trigger] tabs[i]).title
                    && node_texts(n)[3 + 2 * i] == host_of(tabs[i].url),
            NodePayloadView::Terminal { tabs } => node_texts(n).len() == 2 + tabs.len()
                && forall|i: int|
                0 <= i < tabs.len() ==> node_texts(n)[2 + i] == (#[trigger] tabs[i]).cwd,
            NodePayloadView::Editor { folder_path, open_files } => node_texts(n) == seq![
                n.app_name,
                n.window_title,
                folder_path,
            ] + open_files,
            NodePayloadView::Generic => node_texts(n).len() == 2,
        },
{
    match n.payload {
        NodePayloadView::Browser { tabs, active_tab_index: _ } => {
            lemma_tab_texts(tabs, tabs.len() as int);
            assert(tabs.take(tabs.len() as int) =~= tabs);
        },
        NodePayloadView::Editor { folder_path, open_files } => {
            assert(node_texts(n) =~= seq![n.app_name, n.window_title, folder_path] + open_files);
        },
        _ => {},
    }
}

proof fn lemma_tab_texts(tabs: Seq<BrowserTabView>, m: int)
    requires
        0 <= m <= tabs.len(),
    ensures
        tab_texts(tabs.take(m)).len() == 2 * m,
        forall|i: int|
            0 <= i < m ==> tab_texts(tabs.take(m))[2 * i] == (#[trigger] tabs[i]).title && tab_texts(
                tabs.take(m),
            )[2 * i + 1] == host_of(tabs[i].url),
    decreases m,
{
    if m > 0 {
        lemma_tab_texts(tabs, m - 1);
        text::lemma_take_step(tabs, m - 1);
    }
}

/// What a workspace is embedded as holds its summary, its tags and the texts of
/// its windows, in this order, each once.
#[verifier::rlimit(40)]
pub proof fn embedded_texts_come_in_order(w: WorkspaceStateView, t: Seq<char>)
    ensures
        text_lines(w).no_duplicates(),
        text_lines(w).contains(t) <==> t.len() > 0 && (t == w.summary || w.tags.contains(t)
            || exists|k: int|
            0 <= k < w.nodes.len() && #[trigger] node_texts(w.nodes[k]).contains(t)),
        ({
            let head = text::distinct_of(seq![w.summary] + w.tags);
            &&& head.len() <= text_lines(w).len()
            &&& text_lines(w).take(head.len() as int) == head
        }),
{
    let f = |n: WindowNodeView| node_texts(n);
    let head = seq![w.summary] + w.tags;
    let behind = text::gathered(w.nodes, f);
    let all = head + behind;
    text::lemma_distinct(all);
    text::distinct_texts_keep_their_order(head, behind);
    if all.contains(t) {
        let k = choose|k: int| 0 <= k < all.len() && all[k] == t;
        if k == 0 {
        } else if k < head.len() {
            assert(w.tags[k - 1] == t);
        } else {
            let (i, j) = text::lemma_gathered_from(w.nodes, f, k - head.len());
            assert(behind[k - head.len()] == f(w.nodes[i])[j]);
            assert(node_texts(w.nodes[i]).contains(t));
        }
    }
    if t == w.summary {
        assert(all[0] == t);
    }
    if w.tags.contains(t) {
        let k = choose|k: int| 0 <= k < w.tags.len() && w.tags[k] == t;
        assert(all[1 + k] == t);
    }
    if exists|k: int| 0 <= k < w.nodes.len() && #[trigger] node_texts(w.nodes[k]).contains(t) {
        let k = choose|k: int|
            0 <= k < w.nodes.len() && #[trigger] node_texts(w.nodes[k]).contains(t);
        let j = choose|j: int|
            0 <= j < node_texts(w.nodes[k]).len() && node_texts(w.nodes[k])[j] == t;
        text::lemma_gathered_contains(w.nodes, f, k, j);
        let q = choose|q: int| 0 <= q < behind.len() && behind[q] == t;
        assert(all[head.len() + q] == t);
    }
}

/// Enriching a workspace tags it and sums it up; nothing else of it changes.
pub proof fn enriching_tags_and_sums_up(w: WorkspaceState, r: WorkspaceState)
    requires
        call_ensures(enrich, (w,), r),
    ensures
        r.deep_view().tags == tags_of(w.deep_view().nodes),
        r.deep_view().summary == summary_of(w.deep_view().nodes),
        r.deep_view().nodes == w.deep_view().nodes,
        r.deep_view().groups == w.deep_view().groups,
        r.deep_view().workspace_id == w.deep_view().workspace_id,
        r.deep_view().captured_at_unix_ms == w.deep_view().captured_at_unix_ms,
{
}

/// A workspace is embedded as its texts, one line each.
pub proof fn embedded_texts_are_lines(w: &WorkspaceState, r: String)
    requires
        call_ensures(embedding_text, (w,), r),
    ensures
        text_lines(w.deep_view()).len() == 0 ==> r@.len() == 0,
        text_lines(w.deep_view()).len() == 1 ==> r@ == text_lines(w.deep_view())[0],
        forall|a: Seq<Seq<char>>, b: Seq<Seq<char>>|
            a.len() > 0 && b.len() > 0 && #[trigger] (a + b) == text_lines(w.deep_view()) ==> r@
                == text::joined(a, "\n"@) + "\n"@ + text::joined(b, "\n"@),
{
    let lines = text_lines(w.deep_view());
    text::joining_separates(lines, lines, "\n"@);
    assert forall|a: Seq<Seq<char>>, b: Seq<Seq<char>>|
        a.len() > 0 && b.len() > 0 && #[trigger] (a + b) == lines implies r@ == text::joined(
        a,
        "\n"@,
    ) + "\n"@ + text::joined(b, "\n"@) by {
        text::joining_separates(a, b, "\n"@);
    }
}

} // verus!

//! Installed-app capability catalog: the knowledge that lets a summons propose
//! launching an app the user hasn't opened yet ("work on the app UI" opens
//! Figma even though no snapshot ever held it).
//!
//! This module supplies the capability vocabulary, a seed table from bundle id
//! to capabilities, the text each entry embeds as, and the rule that picks
//! which apps to launch for an intent.

use vstd::prelude::*;

use crate::doubles;
use crate::order;
use crate::text;
use crate::text::{holds, join, str_eq, str_less};

verus! {

/// The fixed capability vocabulary.
pub open spec fn vocabulary() -> Seq<Seq<char>> {
    seq![
        "design"@,
        "editor"@,
        "build"@,
        "terminal"@,
        "browser"@,
        "vcs"@,
        "database"@,
        "api-client"@,
        "container"@,
        "planning"@,
        "notes"@,
        "comms"@,
        "email"@,
        "calendar"@,
        "music"@,
        "video"@,
        "reading"@,
        "spreadsheet"@,
        "ai-chat"@,
    ]
}

/// Fixed capability vocabulary. An intent's inferred capabilities are held to
/// these labels so that they can be matched against the seed table.
pub fn capabilities() -> (r: Vec<&'static str>)
    ensures
        r.deep_view() == vocabulary(),
{
    let mut out: Vec<&'static str> = Vec::new();
    out.push("design");
    out.push("editor");
    out.push("build");
    out.push("terminal");
    out.push("browser");
    out.push("vcs");
    out.push("database");
    out.push("api-client");
    out.push("container");
    out.push("planning");
    out.push("notes");
    out.push("comms");
    out.push("email");
    out.push("calendar");
    out.push("music");
    out.push("video");
    out.push("reading");
    out.push("spreadsheet");
    out.push("ai-chat");
    assert(out.deep_view() =~= vocabulary());
    out
}

/// True if `s` is a recognized capability label. Used to filter generated
/// labels down to the known vocabulary before symbolic matching.
pub fn is_capability(s: &str) -> (r: bool)
    ensures
        r == vocabulary().contains(s@),
{
    let known = capabilities();
    let mut i: usize = 0;
    while i < known.len()
        invariant
            i <= known.len(),
            known.deep_view() == vocabulary(),
            forall|j: int| 0 <= j < i ==> known.deep_view()[j] != s@,
        decreases known.len() - i,
    {
        if str_eq(known[i], s) {
            assert(known.deep_view()[i as int] == s@);
            return true;
        }
        i = i + 1;
    }
    false
}

/// The seed table: what a well-known app is for, by bundle id.
pub open spec fn seed(b: Seq<char>) -> Seq<Seq<char>> {
    if b == "com.figma.Desktop"@
        || b == "com.bohemiancoding.sketch3"@
        || b == "com.adobe.Photoshop"@
        || b == "com.adobe.illustrator"@
        || b == "com.adobe.xd"@
        || b == "com.seriflabs.affinitydesigner2"@
        || b == "com.seriflabs.affinityphoto2"@ {
        // Design
        seq!["design"@]
    } else if b == "com.microsoft.VSCode"@
        || b == "com.todesktop.230313mzl4w4u92"@
        || b == "com.apple.dt.Xcode"@ {
        // Editors / IDEs (also build)
        seq!["editor"@, "build"@]
    } else if b == "com.sublimetext.4"@
        || b == "com.sublimetext.3"@ {
        // Editors / IDEs (also build)
        seq!["editor"@]
    } else if b == "dev.zed.Zed"@
        || b == "com.jetbrains.intellij"@
        || b == "com.jetbrains.pycharm"@
        || b == "com.jetbrains.WebStorm"@
        || b == "com.jetbrains.rustrover"@
        || b == "com.jetbrains.goland"@
        || b == "com.jetbrains.CLion"@
        || b == "com.panic.Nova"@ {
        // Editors / IDEs (also build)
        seq!["editor"@, "build"@]
    } else if b == "com.apple.Terminal"@
        || b == "com.googlecode.iterm2"@
        || b == "dev.warp.Warp-Stable"@
        || b == "net.kovidgoyal.kitty"@
        || b == "com.github.wez.wezterm"@
        || b == "io.alacritty"@ {
        // Terminals
        seq!["terminal"@]
    } else if b == "com.google.Chrome"@
        || b == "com.apple.Safari"@
        || b == "org.mozilla.firefox"@
        || b == "com.microsoft.edgemac"@
        || b == "company.thebrowser.Browser"@
        || b == "com.brave.Browser"@ {
        // Browsers
        seq!["browser"@]
    } else if b == "com.github.GitHubClient"@
        || b == "com.fournova.Tower3"@
        || b == "com.sublimemerge"@
        || b == "com.torusknot.SourceTreeNotMAS"@
        || b == "co.gitup.mac"@ {
        // Version control
        seq!["vcs"@]
    } else if b == "com.tableplus.TablePlus"@
        || b == "com.sequel-ace.sequel-ace"@
        || b == "com.eggerapps.Postico2"@
        || b == "com.mongodb.compass"@
        || b == "com.electron.dbeaver"@ {
        // Databases
        seq!["database"@]
    } else if b == "com.postmanlabs.mac"@
        || b == "com.insomnia.app"@
        || b == "com.usebruno.app"@
        || b == "paw.cloud.RESTClient"@ {
        // API clients
        seq!["api-client"@]
    } else if b == "com.docker.docker"@
        || b == "com.orbstack.OrbStack"@ {
        // Containers / infra
        seq!["container"@]
    } else if b == "com.linear"@
        || b == "com.electron.asana"@
        || b == "com.atlassian.trello"@
        || b == "com.microsoft.to-do-mac"@ {
        // Planning / project management
        seq!["planning"@]
    } else if b == "notion.id"@ {
        // Notes / knowledge
        seq!["notes"@, "planning"@]
    } else if b == "md.obsidian"@
        || b == "com.apple.Notes"@
        || b == "com.agiletortoise.Drafts-OSX"@
        || b == "com.shinyfrog.bear"@ {
        // Notes / knowledge
        seq!["notes"@]
    } else if b == "com.tinyspeck.slackmacgap"@
        || b == "com.hnc.Discord"@ {
        // Communication
        seq!["comms"@]
    } else if b == "us.zoom.xos"@
        || b == "com.microsoft.teams2"@ {
        // Communication
        seq!["comms"@, "video"@]
    } else if b == "com.apple.iChat"@ {
        // Communication
        seq!["comms"@]
    } else if b == "com.apple.mail"@
        || b == "com.readdle.smartemail-Mac"@
        || b == "com.superhuman.electron"@ {
        // Email / calendar
        seq!["email"@]
    } else if b == "com.apple.iCal"@
        || b == "com.flexibits.fantastical2.mac"@ {
        // Email / calendar
        seq!["calendar"@]
    } else if b == "com.spotify.client"@
        || b == "com.apple.Music"@ {
        // Media
        seq!["music"@]
    } else if b == "com.readdle.PDFExpert-Mac"@
        || b == "com.apple.Preview"@ {
        // Reading / docs
        seq!["reading"@]
    } else if b == "com.microsoft.Excel"@
        || b == "com.apple.iWork.Numbers"@ {
        // Office / spreadsheets
        seq!["spreadsheet"@]
    } else if b == "com.microsoft.Word"@
        || b == "com.apple.iWork.Pages"@ {
        // Office / spreadsheets
        seq!["notes"@]
    } else if b == "com.openai.chat"@
        || b == "com.anthropic.claudefordesktop"@ {
        // AI chat
        seq!["ai-chat"@]
    } else {
        Seq::empty()
    }
}

/// Seed capabilities for well-known apps, keyed by bundle id. Unknown apps get
/// an empty list and match on name similarity alone. The table is hand-curated
/// (precision over coverage).
pub fn seed_capabilities(bundle_id: &str) -> (r: Vec<&'static str>)
    ensures
        r.deep_view() == seed(bundle_id@),
{
    let b = bundle_id;
    let mut caps: Vec<&'static str> = Vec::new();
    if str_eq(b, "com.figma.Desktop")
        || str_eq(b, "com.bohemiancoding.sketch3")
        || str_eq(b, "com.adobe.Photoshop")
        || str_eq(b, "com.adobe.illustrator")
        || str_eq(b, "com.adobe.xd")
        || str_eq(b, "com.seriflabs.affinitydesigner2")
        || str_eq(b, "com.seriflabs.affinityphoto2") {
        caps.push("design");
    } else if str_eq(b, "com.microsoft.VSCode")
        || str_eq(b, "com.todesktop.230313mzl4w4u92")
        || str_eq(b, "com.apple.dt.Xcode") {
        caps.push("editor");
        caps.push("build");
    } else if str_eq(b, "com.sublimetext.4")
        || str_eq(b, "com.sublimetext.3") {
        caps.push("editor");
    } else if str_eq(b, "dev.zed.Zed")
        || str_eq(b, "com.jetbrains.intellij")
        || str_eq(b, "com.jetbrains.pycharm")
        || str_eq(b, "com.jetbrains.WebStorm")
        || str_eq(b, "com.jetbrains.rustrover")
        || str_eq(b, "com.jetbrains.goland")
        || str_eq(b, "com.jetbrains.CLion")
        || str_eq(b, "com.panic.Nova") {
        caps.push("editor");
        caps.push("build");
    } else if str_eq(b, "com.apple.Terminal")
        || str_eq(b, "com.googlecode.iterm2")
        || str_eq(b, "dev.warp.Warp-Stable")
        || str_eq(b, "net.kovidgoyal.kitty")
        || str_eq(b, "com.github.wez.wezterm")
        || str_eq(b, "io.alacritty") {
        caps.push("terminal");
    } else if str_eq(b, "com.google.Chrome")
        || str_eq(b, "com.apple.Safari")
        || str_eq(b, "org.mozilla.firefox")
        || str_eq(b, "com.microsoft.edgemac")
        || str_eq(b, "company.thebrowser.Browser")
        || str_eq(b, "com.brave.Browser") {
        caps.push("browser");
    } else if str_eq(b, "com.github.GitHubClient")
        || str_eq(b, "com.fournova.Tower3")
        || str_eq(b, "com.sublimemerge")
        || str_eq(b, "com.torusknot.SourceTreeNotMAS")
        || str_eq(b, "co.gitup.mac") {
        caps.push("vcs");
    } else if str_eq(b, "com.tableplus.TablePlus")
        || str_eq(b, "com.sequel-ace.sequel-ace")
        || str_eq(b, "com.eggerapps.Postico2")
        || str_eq(b, "com.mongodb.compass")
        || str_eq(b, "com.electron.dbeaver") {
        caps.push("database");
    } else if str_eq(b, "com.postmanlabs.mac")
        || str_eq(b, "com.insomnia.app")
        || str_eq(b, "com.usebruno.app")
        || str_eq(b, "paw.cloud.RESTClient") {
        caps.push("api-client");
    } else if str_eq(b, "com.docker.docker")
        || str_eq(b, "com.orbstack.OrbStack") {
        caps.push("container");
    } else if str_eq(b, "com.linear")
        || str_eq(b, "com.electron.asana")
        || str_eq(b, "com.atlassian.trello")
        || str_eq(b, "com.microsoft.to-do-mac") {
        caps.push("planning");
    } else if str_eq(b, "notion.id") {
        caps.push("notes");
        caps.push("planning");
    } else if str_eq(b, "md.obsidian")
        || str_eq(b, "com.apple.Notes")
        || str_eq(b, "com.agiletortoise.Drafts-OSX")
        || str_eq(b, "com.shinyfrog.bear") {
        caps.push("notes");
    } else if str_eq(b, "com.tinyspeck.slackmacgap")
        || str_eq(b, "com.hnc.Discord") {
        caps.push("comms");
    } else if str_eq(b, "us.zoom.xos")
        || str_eq(b, "com.microsoft.teams2") {
        caps.push("comms");
        caps.push("video");
    } else if str_eq(b, "com.apple.iChat") {
        caps.push("comms");
    } else if str_eq(b, "com.apple.mail")
        || str_eq(b, "com.readdle.smartemail-Mac")
        || str_eq(b, "com.superhuman.electron") {
        caps.push("email");
    } else if str_eq(b, "com.apple.iCal")
        || str_eq(b, "com.flexibits.fantastical2.mac") {
        caps.push("calendar");
    } else if str_eq(b, "com.spotify.client")
        || str_eq(b, "com.apple.Music") {
        caps.push("music");
    } else if str_eq(b, "com.readdle.PDFExpert-Mac")
        || str_eq(b, "com.apple.Preview") {
        caps.push("reading");
    } else if str_eq(b, "com.microsoft.Excel")
        || str_eq(b, "com.apple.iWork.Numbers") {
        caps.push("spreadsheet");
    } else if str_eq(b, "com.microsoft.Word")
        || str_eq(b, "com.apple.iWork.Pages") {
        caps.push("notes");
    } else if str_eq(b, "com.openai.chat")
        || str_eq(b, "com.anthropic.claudefordesktop") {
        caps.push("ai-chat");
    }
    assert(caps.deep_view() =~= seed(bundle_id@));
    caps
}

/// Every capability the seed table names is a vocabulary word.
pub proof fn seed_within_vocabulary(b: Seq<char>)
    ensures
        forall|i: int| 0 <= i < seed(b).len() ==> vocabulary().contains(#[trigger] seed(b)[i]),
{
    let v = vocabulary();
    assert(v[0] == "design"@);
    assert(v[1] == "editor"@);
    assert(v[2] == "build"@);
    assert(v[3] == "terminal"@);
    assert(v[4] == "browser"@);
    assert(v[5] == "vcs"@);
    assert(v[6] == "database"@);
    assert(v[7] == "api-client"@);
    assert(v[8] == "container"@);
    assert(v[9] == "planning"@);
    assert(v[10] == "notes"@);
    assert(v[11] == "comms"@);
    assert(v[12] == "email"@);
    assert(v[13] == "calendar"@);
    assert(v[14] == "music"@);
    assert(v[15] == "video"@);
    assert(v[16] == "reading"@);
    assert(v[17] == "spreadsheet"@);
    assert(v[18] == "ai-chat"@);
}

/// The text that represents a catalog entry: the name, then its capabilities.
pub open spec fn embed_text(app_name: Seq<char>, caps: Seq<Seq<char>>) -> Seq<char> {
    if caps.len() == 0 {
        app_name
    } else {
        app_name + " "@ + text::joined(caps, " "@)
    }
}

/// Text embedded to represent a catalog entry. Capabilities describe what the
/// app is for, so they belong in the vector. Name first, capabilities after.
pub fn catalog_embed_text(app_name: &str, capabilities: &Vec<String>) -> (r: String)
    ensures
        r@ == embed_text(app_name@, capabilities.deep_view()),
{
    if capabilities.len() == 0 {
        app_name.to_owned()
    } else {
        app_name.to_owned().concat(" ").concat(join(capabilities, " ").as_str())
    }
}

/// One installed app scored against an intent, ready for selection.
#[derive(Debug, PartialEq)]
pub struct CatalogCandidate {
    pub bundle_id: String,
    pub app_name: String,
    pub capabilities: Vec<String>,
    /// Cosine similarity of the entry's embedding to the intent, as the bit
    /// pattern of its double.
    pub score: u64,
}

/// What a `CatalogCandidate` says: its texts as character sequences, its lists as sequences.
#[verifier::ext_equal]
pub struct CatalogCandidateView {
    pub bundle_id: Seq<char>,
    pub app_name: Seq<char>,
    pub capabilities: Seq<Seq<char>>,
    pub score: u64,
}

impl DeepView for CatalogCandidate {
    type V = CatalogCandidateView;

    open spec fn deep_view(&self) -> CatalogCandidateView {
        CatalogCandidateView {
            bundle_id: self.bundle_id.deep_view(),
            app_name: self.app_name.deep_view(),
            capabilities: self.capabilities.deep_view(),
            score: self.score,
        }
    }
}

impl Clone for CatalogCandidate {
    fn clone(&self) -> (r: Self)
        ensures
            r.deep_view() == self.deep_view(),
    {
        CatalogCandidate {
            bundle_id: self.bundle_id.clone(),
            app_name: self.app_name.clone(),
            capabilities: self.capabilities.clone(),
            score: self.score,
        }
    }
}

/// A catalog entry qualifies on embedding alone only from this score on (0.62).
/// Launching an app the user didn't open is speculative, so picks by embedding
/// alone are held to a high bar.
pub const CATALOG_EMBED_ONLY_MIN: u64 = 0x3FE3_D70A_3D70_A3D7;

/// Even a capability-matched app needs some relevance (0.30), so that an
/// intent that merely implies "editor" doesn't drag in every installed editor.
pub const CATALOG_CAP_MATCH_MIN: u64 = 0x3FD3_3333_3333_3333;

/// How many of an app's capabilities the intent asks for.
pub open spec fn overlap(c: CatalogCandidateView, inferred: Seq<Seq<char>>) -> nat {
    c.capabilities.filter(|cap: Seq<char>| inferred.contains(cap)).len()
}

/// Whether an app is worth launching: it shares a capability and clears the low
/// floor, or it has known capabilities and is a strong match on its own.
pub open spec fn qualifies(c: CatalogCandidateView, inferred: Seq<Seq<char>>) -> bool {
    ||| overlap(c, inferred) > 0 && doubles::at_least(c.score, CATALOG_CAP_MATCH_MIN)
    ||| c.capabilities.len() > 0 && doubles::at_least(c.score, CATALOG_EMBED_ONLY_MIN)
}

/// Whether `a` ranks ahead of `b`: more shared capabilities, then the stronger
/// score, then the smaller bundle id.
pub open spec fn ahead(
    a: CatalogCandidateView,
    b: CatalogCandidateView,
    inferred: Seq<Seq<char>>,
) -> bool {
    let oa = overlap(a, inferred);
    let ob = overlap(b, inferred);
    ||| oa > ob
    ||| oa == ob && doubles::below(b.score, a.score)
    ||| oa == ob && !doubles::below(b.score, a.score) && !doubles::below(a.score, b.score)
        && text::less(a.bundle_id, b.bundle_id)
}

/// The apps that qualify and are not there yet, in the order given.
pub open spec fn eligible(
    candidates: Seq<CatalogCandidateView>,
    inferred: Seq<Seq<char>>,
    present: Seq<Seq<char>>,
) -> Seq<CatalogCandidateView> {
    candidates.filter(
        |c: CatalogCandidateView| !present.contains(c.bundle_id) && qualifies(c, inferred),
    )
}

/// The apps to launch: the eligible ones, best first, at most `max_picks`.
pub open spec fn catalog_picks(
    candidates: Seq<CatalogCandidateView>,
    inferred: Seq<Seq<char>>,
    present: Seq<Seq<char>>,
    max_picks: int,
) -> Seq<CatalogCandidateView> {
    text::at_most(
        order::ordered(
            eligible(candidates, inferred, present),
            |a: CatalogCandidateView, b: CatalogCandidateView| ahead(a, b, inferred),
        ),
        max_picks,
    )
}

/// Every pick was a candidate, is not there yet, has known capabilities, and
/// shares one of those asked for or is a strong match. In particular an app
/// nothing is known of is never launched on the strength of its name.
pub proof fn picks_are_warranted(
    candidates: Seq<CatalogCandidateView>,
    inferred: Seq<Seq<char>>,
    present: Seq<Seq<char>>,
    max_picks: int,
    i: int,
)
    requires
        0 <= max_picks,
        0 <= i < catalog_picks(candidates, inferred, present, max_picks).len(),
    ensures
        ({
            let c = catalog_picks(candidates, inferred, present, max_picks)[i];
            &&& candidates.contains(c)
            &&& !present.contains(c.bundle_id)
            &&& c.capabilities.len() > 0
            &&& qualifies(c, inferred)
        }),
{
    let keep = |c: CatalogCandidateView| !present.contains(c.bundle_id) && qualifies(c, inferred);
    let member = |c: CatalogCandidateView| keep(c) && candidates.contains(c);
    let before = |a: CatalogCandidateView, b: CatalogCandidateView| ahead(a, b, inferred);
    let pool = eligible(candidates, inferred, present);
    order::lemma_filtered(candidates, keep);
    order::lemma_ordered_members(pool, before, member);
    let c = order::ordered(pool, before)[i];
    assert(member(c));
    if c.capabilities.len() == 0 {
        reveal(Seq::filter);
        assert(overlap(c, inferred) == 0);
    }
}

/// No more than `max_picks` apps are proposed.
pub proof fn picks_are_capped(
    candidates: Seq<CatalogCandidateView>,
    inferred: Seq<Seq<char>>,
    present: Seq<Seq<char>>,
    max_picks: int,
)
    requires
        0 <= max_picks,
    ensures
        catalog_picks(candidates, inferred, present, max_picks).len() <= max_picks,
{
}

/// When every score is a number, no pick stands behind one that ranks after it,
/// and no eligible app that was left out ranks ahead of one that was picked.
pub proof fn picks_are_ranked(
    candidates: Seq<CatalogCandidateView>,
    inferred: Seq<Seq<char>>,
    present: Seq<Seq<char>>,
    max_picks: int,
)
    requires
        0 <= max_picks,
        forall|i: int| 0 <= i < candidates.len() ==> doubles::is_number(
            (#[trigger] candidates[i]).score,
        ),
    ensures
        ({
            let all = order::ordered(
                eligible(candidates, inferred, present),
                |a: CatalogCandidateView, b: CatalogCandidateView| ahead(a, b, inferred),
            );
            &&& order::is_ordered(
                all,
                |a: CatalogCandidateView, b: CatalogCandidateView| ahead(a, b, inferred),
            )
            &&& catalog_picks(candidates, inferred, present, max_picks) == text::at_most(
                all,
                max_picks,
            )
        }),
{
    let keep = |c: CatalogCandidateView| !present.contains(c.bundle_id) && qualifies(c, inferred);
    let member = |c: CatalogCandidateView| doubles::is_number(c.score);
    let before = |a: CatalogCandidateView, b: CatalogCandidateView| ahead(a, b, inferred);
    let pool = eligible(candidates, inferred, present);
    order::lemma_filtered(candidates, keep);
    assert forall|j: int| 0 <= j < pool.len() implies member(#[trigger] pool[j]) by {
        let k = choose|k: int| 0 <= k < candidates.len() && candidates[k] == pool[j];
        assert(doubles::is_number(candidates[k].score));
    }
    assert forall|a: CatalogCandidateView, b: CatalogCandidateView|
        member(a) && member(b) && #[trigger] before(a, b) implies !before(b, a) by {
        text::lemma_less(a.bundle_id, b.bundle_id, b.bundle_id, 0);
    }
    assert forall|a: CatalogCandidateView, b: CatalogCandidateView, c: CatalogCandidateView|
        member(a) && member(b) && member(c) && #[trigger] before(a, b) && !#[trigger] before(
            c,
            b,
        ) implies before(a, c) by {
        text::lemma_less(a.bundle_id, b.bundle_id, c.bundle_id, 0);
    }
    order::lemma_ordered_is_ordered(pool, before, member);
}

fn overlap_of(c: &CatalogCandidate, inferred: &Vec<String>) -> (r: usize)
    ensures
        r == overlap(c.deep_view(), inferred.deep_view()),
{
    let ghost caps = c.capabilities.deep_view();
    let ghost p = |cap: Seq<char>| inferred.deep_view().contains(cap);
    let mut n: usize = 0;
    let mut i: usize = 0;
    reveal(Seq::filter);
    assert(caps.take(0).filter(p).len() == 0);
    while i < c.capabilities.len()
        invariant
            i <= c.capabilities.len(),
            caps == c.capabilities.deep_view(),
            p == (|cap: Seq<char>| inferred.deep_view().contains(cap)),
            n == caps.take(i as int).filter(p).len(),
            n <= i,
        decreases c.capabilities.len() - i,
    {
        reveal(Seq::filter);
        assert(caps.take(i + 1).drop_last() =~= caps.take(i as int));
        assert(caps.take(i + 1).last() == caps[i as int]);
        if holds(inferred, c.capabilities[i].as_str()) {
            n = n + 1;
        }
        i = i + 1;
    }
    assert(caps.take(caps.len() as int) =~= caps);
    n
}

fn is_ahead(a: &CatalogCandidate, b: &CatalogCandidate, inferred: &Vec<String>) -> (r: bool)
    ensures
        r == ahead(a.deep_view(), b.deep_view(), inferred.deep_view()),
{
    let oa: usize = overlap_of(a, inferred);
    let ob: usize = overlap_of(b, inferred);
    if oa != ob {
        oa > ob
    } else if doubles::is_below(b.score, a.score) {
        true
    } else if doubles::is_below(a.score, b.score) {
        false
    } else {
        str_less(a.bundle_id.as_str(), b.bundle_id.as_str())
    }
}

/// Chooses which installed apps to speculatively launch for an intent. Apps
/// already present are never proposed. Ranked by capability overlap, then
/// score, then bundle id, and capped.
pub fn select_catalog_picks(
    candidates: &Vec<CatalogCandidate>,
    inferred_caps: &Vec<String>,
    already_present: &Vec<String>,
    max_picks: usize,
) -> (r: Vec<CatalogCandidate>)
    ensures
        r.deep_view() == catalog_picks(
            candidates.deep_view(),
            inferred_caps.deep_view(),
            already_present.deep_view(),
            max_picks as int,
        ),
{
    let ghost all = candidates.deep_view();
    let ghost inferred = inferred_caps.deep_view();
    let ghost present = already_present.deep_view();
    let ghost before = |a: CatalogCandidateView, b: CatalogCandidateView| ahead(a, b, inferred);
    let ghost keep = |c: CatalogCandidateView|
        !present.contains(c.bundle_id) && qualifies(c, inferred);
    let mut ranked: Vec<CatalogCandidate> = Vec::new();
    let mut i: usize = 0;
    reveal(Seq::filter);
    assert(all.take(0).filter(keep) =~= Seq::<CatalogCandidateView>::empty());
    assert(ranked.deep_view() =~= Seq::<CatalogCandidateView>::empty());
    while i < candidates.len()
        invariant
            i <= candidates.len(),
            all == candidates.deep_view(),
            inferred == inferred_caps.deep_view(),
            present == already_present.deep_view(),
            before == (|a: CatalogCandidateView, b: CatalogCandidateView| ahead(a, b, inferred)),
            keep == (|c: CatalogCandidateView|
                !present.contains(c.bundle_id) && qualifies(c, inferred)),
            ranked.deep_view() == order::ordered(all.take(i as int).filter(keep), before),
        decreases candidates.len() - i,
    {
        let c = &candidates[i];
        proof {
            reveal(Seq::filter);
            assert(all.take(i + 1).drop_last() =~= all.take(i as int));
            assert(all.take(i + 1).last() == all[i as int]);
        }
        let n: usize = overlap_of(c, inferred_caps);
        let fits = (n > 0 && doubles::is_at_least(c.score, CATALOG_CAP_MATCH_MIN))
            || (c.capabilities.len() > 0 && doubles::is_at_least(c.score, CATALOG_EMBED_ONLY_MIN));
        if !holds(already_present, c.bundle_id.as_str()) && fits {
            let ghost now = ranked.deep_view();
            let ghost x = c.deep_view();
            let mut k: usize = ranked.len();
            while k > 0 && is_ahead(c, &ranked[k - 1], inferred_caps)
                invariant
                    k <= ranked.len(),
                    now == ranked.deep_view(),
                    x == c.deep_view(),
                    inferred == inferred_caps.deep_view(),
                    before == (|a: CatalogCandidateView, b: CatalogCandidateView|
                        ahead(a, b, inferred)),
                    order::slot(now, x, before, now.len() as int) == order::slot(
                        now,
                        x,
                        before,
                        k as int,
                    ),
                decreases k,
            {
                k = k - 1;
            }
            ranked.insert(k, c.clone());
            assert(ranked.deep_view() =~= now.insert(k as int, x));
            assert(all.take(i + 1).filter(keep) == all.take(i as int).filter(keep).push(x));
            assert(all.take(i as int).filter(keep).push(x).drop_last() =~= all.take(
                i as int,
            ).filter(keep));
        }
        i = i + 1;
    }
    assert(all.take(all.len() as int) =~= all);
    let ghost full = ranked.deep_view();
    ranked.truncate(max_picks);
    assert(ranked.deep_view() =~= text::at_most(full, max_picks as int));
    ranked
}

/// Whether an app shares a capability with an intent shows in its overlap.
pub proof fn overlap_counts_shared_capabilities(
    c: CatalogCandidateView,
    inferred: Seq<Seq<char>>,
)
    ensures
        overlap(c, inferred) > 0 <==> exists|k: int|
            0 <= k < c.capabilities.len() && inferred.contains(#[trigger] c.capabilities[k]),
        overlap(c, inferred) <= c.capabilities.len(),
        (forall|k: int|
            0 <= k < c.capabilities.len() ==> inferred.contains(#[trigger] c.capabilities[k]))
            ==> overlap(c, inferred) == c.capabilities.len(),
{
    let keep = |cap: Seq<char>| inferred.contains(cap);
    let shared = c.capabilities.filter(keep);
    order::lemma_filtered(c.capabilities, keep);
    c.capabilities.lemma_filter_len(keep);
    if shared.len() > 0 {
        assert(keep(shared[0]) && c.capabilities.contains(shared[0]));
        let k = choose|k: int| 0 <= k < c.capabilities.len() && c.capabilities[k] == shared[0];
        assert(inferred.contains(c.capabilities[k]));
    }
    if exists|k: int|
        0 <= k < c.capabilities.len() && inferred.contains(#[trigger] c.capabilities[k]) {
        let k = choose|k: int|
            0 <= k < c.capabilities.len() && inferred.contains(#[trigger] c.capabilities[k]);
        assert(keep(c.capabilities[k]));
        order::lemma_filter_contains(c.capabilities, keep, c.capabilities[k]);
        assert(shared.contains(c.capabilities[k]));
    }
    if forall|k: int|
        0 <= k < c.capabilities.len() ==> inferred.contains(#[trigger] c.capabilities[k]) {
        assert forall|k: int| 0 <= k < c.capabilities.len() implies keep(
            #[trigger] c.capabilities[k],
        ) by {
            assert(inferred.contains(c.capabilities[k]));
        }
        order::lemma_filter_all(c.capabilities, keep);
    }
}

/// The apps to open are the best of those that fit: apps that are not there yet,
/// of known use, that share a capability with the intent and score 0.3 or more,
/// or score 0.62 or more by themselves. They come by how many capabilities they share,
/// by score, then by id, and one that fits is left out only where others fill
/// the places and none of those comes behind it.
#[verifier::rlimit(40)]
pub proof fn picks_are_the_best_that_fit(
    candidates: Seq<CatalogCandidateView>,
    inferred: Seq<Seq<char>>,
    present: Seq<Seq<char>>,
    max_picks: int,
)
    requires
        0 <= max_picks,
        forall|i: int| 0 <= i < candidates.len() ==> doubles::is_number(
            (#[trigger] candidates[i]).score,
        ),
    ensures
        ({
            let picks = catalog_picks(candidates, inferred, present, max_picks);
            let fits = |c: CatalogCandidateView|
                {
                    &&& !present.contains(c.bundle_id)
                    &&& c.capabilities.len() > 0
                    &&& doubles::at_least(c.score, 0x3FE3_D70A_3D70_A3D7) || doubles::at_least(
                        c.score,
                        0x3FD3_3333_3333_3333,
                    ) && exists|k: int|
                        0 <= k < c.capabilities.len() && inferred.contains(
                            #[trigger] c.capabilities[k],
                        )
                };
            let shared = |c: CatalogCandidateView|
                c.capabilities.filter(|cap: Seq<char>| inferred.contains(cap)).len();
            &&& picks.len() == if candidates.filter(fits).len() < max_picks {
                candidates.filter(fits).len() as int
            } else {
                max_picks
            }
            &&& forall|i: int|
                0 <= i < picks.len() ==> candidates.contains(#[trigger] picks[i]) && fits(picks[i])
            &&& forall|i: int, j: int|
                0 <= i < j < picks.len() ==> {
                    let (a, b) = (#[trigger] picks[i], #[trigger] picks[j]);
                    &&& shared(a) >= shared(b)
                    &&& shared(a) == shared(b) ==> doubles::at_least(a.score, b.score)
                    &&& shared(a) == shared(b) && doubles::at_least(b.score, a.score)
                        ==> !text::less(b.bundle_id, a.bundle_id)
                }
            &&& forall|c: CatalogCandidateView| #[trigger]
                candidates.contains(c) && fits(c) ==> picks.contains(c) || picks.len() == max_picks
                    && forall|i: int|
                    0 <= i < picks.len() ==> {
                        let a = #[trigger] picks[i];
                        &&& shared(a) >= shared(c)
                        &&& shared(a) == shared(c) ==> doubles::at_least(a.score, c.score)
                    }
        }),
{
    let picks = catalog_picks(candidates, inferred, present, max_picks);
    let fits = |c: CatalogCandidateView|
        {
            &&& !present.contains(c.bundle_id)
            &&& c.capabilities.len() > 0
            &&& doubles::at_least(c.score, CATALOG_EMBED_ONLY_MIN) || doubles::at_least(
                c.score,
                CATALOG_CAP_MATCH_MIN,
            ) && exists|k: int|
                0 <= k < c.capabilities.len() && inferred.contains(#[trigger] c.capabilities[k])
        };
    let test = |c: CatalogCandidateView| !present.contains(c.bundle_id) && qualifies(c, inferred);
    let before = |a: CatalogCandidateView, b: CatalogCandidateView| ahead(a, b, inferred);
    let able = eligible(candidates, inferred, present);
    let all = order::ordered(able, before);
    assert forall|c: CatalogCandidateView| #[trigger] test(c) == fits(c) by {
        overlap_counts_shared_capabilities(c, inferred);
    }
    order::lemma_filter_same(candidates, test, fits);
    picks_are_ranked(candidates, inferred, present, max_picks);
    order::lemma_ordered_permutes(able, before);
    order::lemma_ordered_contains(able, before);
    assert forall|i: int| 0 <= i < all.len() implies candidates.contains(#[trigger] all[i]) && fits(
        all[i],
    ) && doubles::is_number(all[i].score) by {
        assert(all.contains(all[i]));
        assert(able.contains(all[i]));
        order::lemma_filter_contains(candidates, test, all[i]);
        assert(test(all[i]));
        let k = choose|k: int| 0 <= k < candidates.len() && candidates[k] == all[i];
        assert(doubles::is_number(candidates[k].score));
    }
    assert forall|i: int, j: int| 0 <= i < j < all.len() implies !before(
        #[trigger] all[j],
        #[trigger] all[i],
    ) by {}
    assert forall|c: CatalogCandidateView| #[trigger]
        candidates.contains(c) && fits(c) implies all.contains(c) by {
        assert(test(c));
        order::lemma_filter_contains(candidates, test, c);
        assert(able.contains(c));
    }
    let shared = |c: CatalogCandidateView|
        c.capabilities.filter(|cap: Seq<char>| inferred.contains(cap)).len();
    assert forall|c: CatalogCandidateView| #[trigger]
        candidates.contains(c) && fits(c) implies picks.contains(c) || picks.len() == max_picks
        && forall|i: int|
        0 <= i < picks.len() ==> {
            let a = #[trigger] picks[i];
            &&& shared(a) >= shared(c)
            &&& shared(a) == shared(c) ==> doubles::at_least(a.score, c.score)
        } by {
        assert(all.contains(c));
        let k = choose|k: int| 0 <= k < all.len() && all[k] == c;
        if k < picks.len() {
            assert(picks[k] == c);
        } else {
            assert forall|i: int| 0 <= i < picks.len() implies ({
                let a = #[trigger] picks[i];
                &&& shared(a) >= shared(c)
                &&& shared(a) == shared(c) ==> doubles::at_least(a.score, c.score)
            }) by {
                assert(picks[i] == all[i]);
                assert(!before(all[k], all[i]));
            }
        }
    }
    assert forall|i: int, j: int| 0 <= i < j < picks.len() implies ({
        let (a, b) = (#[trigger] picks[i], #[trigger] picks[j]);
        &&& shared(a) >= shared(b)
        &&& shared(a) == shared(b) ==> doubles::at_least(a.score, b.score)
        &&& shared(a) == shared(b) && doubles::at_least(b.score, a.score) ==> !text::less(
            b.bundle_id,
            a.bundle_id,
        )
    }) by {
        assert(picks[i] == all[i] && picks[j] == all[j]);
        assert(!before(all[j], all[i]));
    }
}

proof fn lemma_one_of_two(s: Seq<Seq<char>>, x: Seq<char>)
    requires
        s.len() <= 2,
    ensures
        s.contains(x) ==> s.len() > 0 && (s[0] == x || s.len() == 2 && s[1] == x),
{
}

/// What an app is known for says which app it is: each capability is that of these
/// apps, and of no other.
#[verifier::rlimit(40)]
pub proof fn capabilities_belong_to_these_apps(b: Seq<char>)
    ensures
        seed(b).contains("design"@) ==> b == "com.figma.Desktop"@
            || b == "com.bohemiancoding.sketch3"@
            || b == "com.adobe.Photoshop"@
            || b == "com.adobe.illustrator"@
            || b == "com.adobe.xd"@
            || b == "com.seriflabs.affinitydesigner2"@
            || b == "com.seriflabs.affinityphoto2"@,
        seed(b).contains("editor"@) ==> b == "com.microsoft.VSCode"@
            || b == "com.todesktop.230313mzl4w4u92"@
            || b == "com.apple.dt.Xcode"@
            || b == "com.sublimetext.4"@
            || b == "com.sublimetext.3"@
            || b == "dev.zed.Zed"@
            || b == "com.jetbrains.intellij"@
            || b == "com.jetbrains.pycharm"@
            || b == "com.jetbrains.WebStorm"@
            || b == "com.jetbrains.rustrover"@
            || b == "com.jetbrains.goland"@
            || b == "com.jetbrains.CLion"@
            || b == "com.panic.Nova"@,
        seed(b).contains("build"@) ==> b == "com.microsoft.VSCode"@
            || b == "com.todesktop.230313mzl4w4u92"@
            || b == "com.apple.dt.Xcode"@
            || b == "dev.zed.Zed"@
            || b == "com.jetbrains.intellij"@
            || b == "com.jetbrains.pycharm"@
            || b == "com.jetbrains.WebStorm"@
            || b == "com.jetbrains.rustrover"@
            || b == "com.jetbrains.goland"@
            || b == "com.jetbrains.CLion"@
            || b == "com.panic.Nova"@,
        seed(b).contains("terminal"@) ==> b == "com.apple.Terminal"@
            || b == "com.googlecode.iterm2"@
            || b == "dev.warp.Warp-Stable"@
            || b == "net.kovidgoyal.kitty"@
            || b == "com.github.wez.wezterm"@
            || b == "io.alacritty"@,
        seed(b).contains("browser"@) ==> b == "com.google.Chrome"@
            || b == "com.apple.Safari"@
            || b == "org.mozilla.firefox"@
            || b == "com.microsoft.edgemac"@
            || b == "company.thebrowser.Browser"@
            || b == "com.brave.Browser"@,
        seed(b).contains("vcs"@) ==> b == "com.github.GitHubClient"@
            || b == "com.fournova.Tower3"@
            || b == "com.sublimemerge"@
            || b == "com.torusknot.SourceTreeNotMAS"@
            || b == "co.gitup.mac"@,
        seed(b).contains("database"@) ==> b == "com.tableplus.TablePlus"@
            || b == "com.sequel-ace.sequel-ace"@
            || b == "com.eggerapps.Postico2"@
            || b == "com.mongodb.compass"@
            || b == "com.electron.dbeaver"@,
        seed(b).contains("api-client"@) ==> b == "com.postmanlabs.mac"@
            || b == "com.insomnia.app"@
            || b == "com.usebruno.app"@
            || b == "paw.cloud.RESTClient"@,
        seed(b).contains("container"@) ==> b == "com.docker.docker"@
            || b == "com.orbstack.OrbStack"@,
        seed(b).contains("planning"@) ==> b == "com.linear"@
            || b == "com.electron.asana"@
            || b == "com.atlassian.trello"@
            || b == "com.microsoft.to-do-mac"@
            || b == "notion.id"@,
        seed(b).contains("notes"@) ==> b == "notion.id"@
            || b == "md.obsidian"@
            || b == "com.apple.Notes"@
            || b == "com.agiletortoise.Drafts-OSX"@
            || b == "com.shinyfrog.bear"@
            || b == "com.microsoft.Word"@
            || b == "com.apple.iWork.Pages"@,
        seed(b).contains("comms"@) ==> b == "com.tinyspeck.slackmacgap"@
            || b == "com.hnc.Discord"@
            || b == "us.zoom.xos"@
            || b == "com.microsoft.teams2"@
            || b == "com.apple.iChat"@,
        seed(b).contains("video"@) ==> b == "us.zoom.xos"@
            || b == "com.microsoft.teams2"@,
        seed(b).contains("email"@) ==> b == "com.apple.mail"@
            || b == "com.readdle.smartemail-Mac"@
            || b == "com.superhuman.electron"@,
        seed(b).contains("calendar"@) ==> b == "com.apple.iCal"@
            || b == "com.flexibits.fantastical2.mac"@,
        seed(b).contains("music"@) ==> b == "com.spotify.client"@
            || b == "com.apple.Music"@,
        seed(b).contains("reading"@) ==> b == "com.readdle.PDFExpert-Mac"@
            || b == "com.apple.Preview"@,
        seed(b).contains("spreadsheet"@) ==> b == "com.microsoft.Excel"@
            || b == "com.apple.iWork.Numbers"@,
        seed(b).contains("ai-chat"@) ==> b == "com.openai.chat"@
            || b == "com.anthropic.claudefordesktop"@,
{
    reveal_strlit("design");
    reveal_strlit("editor");
    reveal_strlit("build");
    reveal_strlit("terminal");
    reveal_strlit("browser");
    reveal_strlit("vcs");
    reveal_strlit("database");
    reveal_strlit("api-client");
    reveal_strlit("container");
    reveal_strlit("planning");
    reveal_strlit("notes");
    reveal_strlit("comms");
    reveal_strlit("video");
    reveal_strlit("email");
    reveal_strlit("calendar");
    reveal_strlit("music");
    reveal_strlit("reading");
    reveal_strlit("spreadsheet");
    reveal_strlit("ai-chat");
    assert("design"@.len() == 6);
    assert("editor"@.len() == 6);
    assert("build"@.len() == 5);
    assert("terminal"@.len() == 8);
    assert("browser"@.len() == 7);
    assert("vcs"@.len() == 3);
    assert("database"@.len() == 8);
    assert("api-client"@.len() == 10);
    assert("container"@.len() == 9);
    assert("planning"@.len() == 8);
    assert("notes"@.len() == 5);
    assert("comms"@.len() == 5);
    assert("video"@.len() == 5);
    assert("email"@.len() == 5);
    assert("calendar"@.len() == 8);
    assert("music"@.len() == 5);
    assert("reading"@.len() == 7);
    assert("spreadsheet"@.len() == 11);
    assert("ai-chat"@.len() == 7);
    assert("design"@[0] != "editor"@[0]);
    assert("terminal"@[0] != "database"@[0]);
    assert("terminal"@[0] != "planning"@[0]);
    assert("database"@[0] != "planning"@[0]);
    assert("build"@[0] != "notes"@[0]);
    assert("build"@[0] != "comms"@[0]);
    assert("notes"@[0] != "comms"@[0]);
    assert("build"@[0] != "video"@[0]);
    assert("notes"@[0] != "video"@[0]);
    assert("comms"@[0] != "video"@[0]);
    assert("build"@[0] != "email"@[0]);
    assert("notes"@[0] != "email"@[0]);
    assert("comms"@[0] != "email"@[0]);
    assert("video"@[0] != "email"@[0]);
    assert("terminal"@[0] != "calendar"@[0]);
    assert("database"@[0] != "calendar"@[0]);
    assert("planning"@[0] != "calendar"@[0]);
    assert("build"@[0] != "music"@[0]);
    assert("notes"@[0] != "music"@[0]);
    assert("comms"@[0] != "music"@[0]);
    assert("video"@[0] != "music"@[0]);
    assert("email"@[0] != "music"@[0]);
    assert("browser"@[0] != "reading"@[0]);
    assert("browser"@[0] != "ai-chat"@[0]);
    assert("reading"@[0] != "ai-chat"@[0]);
    let known = seed(b);
    lemma_one_of_two(known, "design"@);
    lemma_one_of_two(known, "editor"@);
    lemma_one_of_two(known, "build"@);
    lemma_one_of_two(known, "terminal"@);
    lemma_one_of_two(known, "browser"@);
    lemma_one_of_two(known, "vcs"@);
    lemma_one_of_two(known, "database"@);
    lemma_one_of_two(known, "api-client"@);
    lemma_one_of_two(known, "container"@);
    lemma_one_of_two(known, "planning"@);
    lemma_one_of_two(known, "notes"@);
    lemma_one_of_two(known, "comms"@);
    lemma_one_of_two(known, "video"@);
    lemma_one_of_two(known, "email"@);
    lemma_one_of_two(known, "calendar"@);
    lemma_one_of_two(known, "music"@);
    lemma_one_of_two(known, "reading"@);
    lemma_one_of_two(known, "spreadsheet"@);
    lemma_one_of_two(known, "ai-chat"@);
}

/// Each of these apps is known for something.
pub proof fn these_apps_are_known(b: Seq<char>)
    requires
        b == "com.figma.Desktop"@
            || b == "com.bohemiancoding.sketch3"@
            || b == "com.adobe.Photoshop"@
            || b == "com.adobe.illustrator"@
            || b == "com.adobe.xd"@
            || b == "com.seriflabs.affinitydesigner2"@
            || b == "com.seriflabs.affinityphoto2"@
            || b == "com.microsoft.VSCode"@
            || b == "com.todesktop.230313mzl4w4u92"@
            || b == "com.apple.dt.Xcode"@
            || b == "com.sublimetext.4"@
            || b == "com.sublimetext.3"@
            || b == "dev.zed.Zed"@
            || b == "com.jetbrains.intellij"@
            || b == "com.jetbrains.pycharm"@
            || b == "com.jetbrains.WebStorm"@
            || b == "com.jetbrains.rustrover"@
            || b == "com.jetbrains.goland"@
            || b == "com.jetbrains.CLion"@
            || b == "com.panic.Nova"@
            || b == "com.apple.Terminal"@
            || b == "com.googlecode.iterm2"@
            || b == "dev.warp.Warp-Stable"@
            || b == "net.kovidgoyal.kitty"@
            || b == "com.github.wez.wezterm"@
            || b == "io.alacritty"@
            || b == "com.google.Chrome"@
            || b == "com.apple.Safari"@
            || b == "org.mozilla.firefox"@
            || b == "com.microsoft.edgemac"@
            || b == "company.thebrowser.Browser"@
            || b == "com.brave.Browser"@
            || b == "com.github.GitHubClient"@
            || b == "com.fournova.Tower3"@
            || b == "com.sublimemerge"@
            || b == "com.torusknot.SourceTreeNotMAS"@
            || b == "co.gitup.mac"@
            || b == "com.tableplus.TablePlus"@
            || b == "com.sequel-ace.sequel-ace"@
            || b == "com.eggerapps.Postico2"@
            || b == "com.mongodb.compass"@
            || b == "com.electron.dbeaver"@
            || b == "com.postmanlabs.mac"@
            || b == "com.insomnia.app"@
            || b == "com.usebruno.app"@
            || b == "paw.cloud.RESTClient"@
            || b == "com.docker.docker"@
            || b == "com.orbstack.OrbStack"@
            || b == "com.linear"@
            || b == "com.electron.asana"@
            || b == "com.atlassian.trello"@
            || b == "com.microsoft.to-do-mac"@
            || b == "notion.id"@
            || b == "md.obsidian"@
            || b == "com.apple.Notes"@
            || b == "com.agiletortoise.Drafts-OSX"@
            || b == "com.shinyfrog.bear"@
            || b == "com.tinyspeck.slackmacgap"@
            || b == "com.hnc.Discord"@
            || b == "us.zoom.xos"@
            || b == "com.microsoft.teams2"@
            || b == "com.apple.iChat"@
            || b == "com.apple.mail"@
            || b == "com.readdle.smartemail-Mac"@
            || b == "com.superhuman.electron"@
            || b == "com.apple.iCal"@
            || b == "com.flexibits.fantastical2.mac"@
            || b == "com.spotify.client"@
            || b == "com.apple.Music"@
            || b == "com.readdle.PDFExpert-Mac"@
            || b == "com.apple.Preview"@
            || b == "com.microsoft.Excel"@
            || b == "com.apple.iWork.Numbers"@
            || b == "com.microsoft.Word"@
            || b == "com.apple.iWork.Pages"@
            || b == "com.openai.chat"@
            || b == "com.anthropic.claudefordesktop"@,
    ensures
        seed(b).len() > 0,
{
}

/// These apps are known for two things: development environments edit and build,
/// and some notes plan and some calls show.
#[verifier::rlimit(40)]
pub proof fn these_apps_do_two_things(b: Seq<char>)
    ensures
        (b == "com.microsoft.VSCode"@
            || b == "com.todesktop.230313mzl4w4u92"@
            || b == "com.apple.dt.Xcode"@
            || b == "dev.zed.Zed"@
            || b == "com.jetbrains.intellij"@
            || b == "com.jetbrains.pycharm"@
            || b == "com.jetbrains.WebStorm"@
            || b == "com.jetbrains.rustrover"@
            || b == "com.jetbrains.goland"@
            || b == "com.jetbrains.CLion"@
            || b == "com.panic.Nova"@)
            ==> seed(b) == seq!["editor"@, "build"@],
        (b == "notion.id"@)
            ==> seed(b) == seq!["notes"@, "planning"@],
        (b == "us.zoom.xos"@
            || b == "com.microsoft.teams2"@)
            ==> seed(b) == seq!["comms"@, "video"@],
{
    reveal_strlit("co.gitup.mac");
    reveal_strlit("com.adobe.Photoshop");
    reveal_strlit("com.adobe.illustrator");
    reveal_strlit("com.adobe.xd");
    reveal_strlit("com.agiletortoise.Drafts-OSX");
    reveal_strlit("com.apple.Notes");
    reveal_strlit("com.apple.Safari");
    reveal_strlit("com.apple.Terminal");
    reveal_strlit("com.apple.dt.Xcode");
    reveal_strlit("com.atlassian.trello");
    reveal_strlit("com.bohemiancoding.sketch3");
    reveal_strlit("com.brave.Browser");
    reveal_strlit("com.docker.docker");
    reveal_strlit("com.eggerapps.Postico2");
    reveal_strlit("com.electron.asana");
    reveal_strlit("com.electron.dbeaver");
    reveal_strlit("com.figma.Desktop");
    reveal_strlit("com.fournova.Tower3");
    reveal_strlit("com.github.GitHubClient");
    reveal_strlit("com.github.wez.wezterm");
    reveal_strlit("com.google.Chrome");
    reveal_strlit("com.googlecode.iterm2");
    reveal_strlit("com.hnc.Discord");
    reveal_strlit("com.insomnia.app");
    reveal_strlit("com.jetbrains.CLion");
    reveal_strlit("com.jetbrains.WebStorm");
    reveal_strlit("com.jetbrains.goland");
    reveal_strlit("com.jetbrains.intellij");
    reveal_strlit("com.jetbrains.pycharm");
    reveal_strlit("com.jetbrains.rustrover");
    reveal_strlit("com.linear");
    reveal_strlit("com.microsoft.VSCode");
    reveal_strlit("com.microsoft.edgemac");
    reveal_strlit("com.microsoft.teams2");
    reveal_strlit("com.microsoft.to-do-mac");
    reveal_strlit("com.mongodb.compass");
    reveal_strlit("com.orbstack.OrbStack");
    reveal_strlit("com.panic.Nova");
    reveal_strlit("com.postmanlabs.mac");
    reveal_strlit("com.sequel-ace.sequel-ace");
    reveal_strlit("com.seriflabs.affinitydesigner2");
    reveal_strlit("com.seriflabs.affinityphoto2");
    reveal_strlit("com.shinyfrog.bear");
    reveal_strlit("com.sublimemerge");
    reveal_strlit("com.sublimetext.3");
    reveal_strlit("com.sublimetext.4");
    reveal_strlit("com.tableplus.TablePlus");
    reveal_strlit("com.tinyspeck.slackmacgap");
    reveal_strlit("com.todesktop.230313mzl4w4u92");
    reveal_strlit("com.torusknot.SourceTreeNotMAS");
    reveal_strlit("com.usebruno.app");
    reveal_strlit("company.thebrowser.Browser");
    reveal_strlit("dev.warp.Warp-Stable");
    reveal_strlit("dev.zed.Zed");
    reveal_strlit("io.alacritty");
    reveal_strlit("md.obsidian");
    reveal_strlit("net.kovidgoyal.kitty");
    reveal_strlit("notion.id");
    reveal_strlit("org.mozilla.firefox");
    reveal_strlit("paw.cloud.RESTClient");
    reveal_strlit("us.zoom.xos");
    assert("co.gitup.mac"@.len() == 12);
    assert("com.adobe.Photoshop"@.len() == 19);
    assert("com.adobe.illustrator"@.len() == 21);
    assert("com.adobe.xd"@.len() == 12);
    assert("com.agiletortoise.Drafts-OSX"@.len() == 28);
    assert("com.apple.Notes"@.len() == 15);
    assert("com.apple.Safari"@.len() == 16);
    assert("com.apple.Terminal"@.len() == 18);
    assert("com.apple.dt.Xcode"@.len() == 18);
    assert("com.atlassian.trello"@.len() == 20);
    assert("com.bohemiancoding.sketch3"@.len() == 26);
    assert("com.brave.Browser"@.len() == 17);
    assert("com.docker.docker"@.len() == 17);
    assert("com.eggerapps.Postico2"@.len() == 22);
    assert("com.electron.asana"@.len() == 18);
    assert("com.electron.dbeaver"@.len() == 20);
    assert("com.figma.Desktop"@.len() == 17);
    assert("com.fournova.Tower3"@.len() == 19);
    assert("com.github.GitHubClient"@.len() == 23);
    assert("com.github.wez.wezterm"@.len() == 22);
    assert("com.google.Chrome"@.len() == 17);
    assert("com.googlecode.iterm2"@.len() == 21);
    assert("com.hnc.Discord"@.len() == 15);
    assert("com.insomnia.app"@.len() == 16);
    assert("com.jetbrains.CLion"@.len() == 19);
    assert("com.jetbrains.WebStorm"@.len() == 22);
    assert("com.jetbrains.goland"@.len() == 20);
    assert("com.jetbrains.intellij"@.len() == 22);
    assert("com.jetbrains.pycharm"@.len() == 21);
    assert("com.jetbrains.rustrover"@.len() == 23);
    assert("com.linear"@.len() == 10);
    assert("com.microsoft.VSCode"@.len() == 20);
    assert("com.microsoft.edgemac"@.len() == 21);
    assert("com.microsoft.teams2"@.len() == 20);
    assert("com.microsoft.to-do-mac"@.len() == 23);
    assert("com.mongodb.compass"@.len() == 19);
    assert("com.orbstack.OrbStack"@.len() == 21);
    assert("com.panic.Nova"@.len() == 14);
    assert("com.postmanlabs.mac"@.len() == 19);
    assert("com.sequel-ace.sequel-ace"@.len() == 25);
    assert("com.seriflabs.affinitydesigner2"@.len() == 31);
    assert("com.seriflabs.affinityphoto2"@.len() == 28);
    assert("com.shinyfrog.bear"@.len() == 18);
    assert("com.sublimemerge"@.len() == 16);
    assert("com.sublimetext.3"@.len() == 17);
    assert("com.sublimetext.4"@.len() == 17);
    assert("com.tableplus.TablePlus"@.len() == 23);
    assert("com.tinyspeck.slackmacgap"@.len() == 25);
    assert("com.todesktop.230313mzl4w4u92"@.len() == 29);
    assert("com.torusknot.SourceTreeNotMAS"@.len() == 30);
    assert("com.usebruno.app"@.len() == 16);
    assert("company.thebrowser.Browser"@.len() == 26);
    assert("dev.warp.Warp-Stable"@.len() == 20);
    assert("dev.zed.Zed"@.len() == 11);
    assert("io.alacritty"@.len() == 12);
    assert("md.obsidian"@.len() == 11);
    assert("net.kovidgoyal.kitty"@.len() == 20);
    assert("notion.id"@.len() == 9);
    assert("org.mozilla.firefox"@.len() == 19);
    assert("paw.cloud.RESTClient"@.len() == 20);
    assert("us.zoom.xos"@.len() == 11);
    assert("com.jetbrains.pycharm"@[4] != "com.adobe.illustrator"@[4]);
    assert("com.jetbrains.CLion"@[4] != "com.adobe.Photoshop"@[4]);
    assert("us.zoom.xos"@[0] != "dev.zed.Zed"@[0]);
    assert("us.zoom.xos"@[0] != "md.obsidian"@[0]);
    assert("com.microsoft.teams2"@[14] != "com.microsoft.VSCode"@[14]);
    assert("com.microsoft.teams2"@[4] != "com.jetbrains.goland"@[4]);
    assert("com.microsoft.teams2"@[0] != "dev.warp.Warp-Stable"@[0]);
    assert("com.microsoft.teams2"@[0] != "net.kovidgoyal.kitty"@[0]);
    assert("com.microsoft.teams2"@[4] != "com.electron.dbeaver"@[4]);
    assert("com.microsoft.teams2"@[0] != "paw.cloud.RESTClient"@[0]);
    assert("com.microsoft.teams2"@[4] != "com.atlassian.trello"@[4]);
}

} // verus!

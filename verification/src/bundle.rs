//! App bundles: which application a path belongs to, and what it is called.
//!
//! Identity is resolved from executable paths and bundle property lists, so
//! that it works in a headless agent.

use vstd::prelude::*;

use crate::order;
use crate::text;
use crate::text::{chars_of, find_char, holds, str_eq, string_of, unique};

verus! {

/// Which app a process or a bundle belongs to.
#[derive(Debug, PartialEq)]
pub struct AppIdentity {
    /// Empty for a process that is not bundled.
    pub bundle_id: String,
    pub app_name: String,
    pub bundle_path: Option<String>,
}

/// What an `AppIdentity` says: its texts as character sequences, its lists as sequences.
#[verifier::ext_equal]
pub struct AppIdentityView {
    pub bundle_id: Seq<char>,
    pub app_name: Seq<char>,
    pub bundle_path: Option<Seq<char>>,
}

impl DeepView for AppIdentity {
    type V = AppIdentityView;

    open spec fn deep_view(&self) -> AppIdentityView {
        AppIdentityView {
            bundle_id: self.bundle_id.deep_view(),
            app_name: self.app_name.deep_view(),
            bundle_path: self.bundle_path.deep_view(),
        }
    }
}

impl Clone for AppIdentity {
    fn clone(&self) -> (r: Self)
        ensures
            r.deep_view() == self.deep_view(),
    {
        AppIdentity {
            bundle_id: self.bundle_id.clone(),
            app_name: self.app_name.clone(),
            bundle_path: self.bundle_path.clone(),
        }
    }
}

/// What a permission check reports.
#[derive(Debug, Clone, Copy, PartialEq, Eq, Structural)]
pub struct PermissionStatus {
    /// Window titles require the Screen Recording grant.
    pub screen_recording: bool,
}

/// Why the desktop could not be read.
#[derive(Debug, PartialEq)]
pub enum FfiError {
    /// There is no window server session.
    WindowListUnavailable,
    Io { reason: String },
}

/// What a `FfiError` says: its texts as character sequences, its lists as sequences.
#[verifier::ext_equal]
pub enum FfiErrorView {
    WindowListUnavailable,
    Io { reason: Seq<char> },
}

impl DeepView for FfiError {
    type V = FfiErrorView;

    open spec fn deep_view(&self) -> FfiErrorView {
        match self {
            FfiError::WindowListUnavailable => FfiErrorView::WindowListUnavailable,
            FfiError::Io { reason } => FfiErrorView::Io {
                reason: reason.deep_view(),
            },
        }
    }
}

impl Clone for FfiError {
    fn clone(&self) -> (r: Self)
        ensures
            r.deep_view() == self.deep_view(),
    {
        match self {
            FfiError::WindowListUnavailable => FfiError::WindowListUnavailable,
            FfiError::Io { reason } => FfiError::Io {
                reason: reason.clone(),
            },
        }
    }
}

/// What a desktop error says.
pub open spec fn ffi_message(e: FfiErrorView) -> Seq<char> {
    match e {
        FfiErrorView::WindowListUnavailable =>
            "CGWindowListCopyWindowInfo returned NULL (no window server session?)"@,
        FfiErrorView::Io { reason } => "io error: "@ + reason,
    }
}

impl FfiError {
    /// The message for a log or a warning.
    pub fn message(&self) -> (r: String)
        ensures
            r@ == ffi_message(self.deep_view()),
    {
        match self {
            FfiError::WindowListUnavailable =>
                "CGWindowListCopyWindowInfo returned NULL (no window server session?)".to_owned(),
            FfiError::Io { reason } => "io error: ".to_owned().concat(reason.as_str()),
        }
    }
}

/// The components of a path from position `i` on, each as the range it takes.
/// Separators may repeat, and "." names nothing.
pub open spec fn components(path: Seq<char>, i: int) -> Seq<(usize, usize)>
    decreases path.len() - i,
{
    let e = text::find_from(path, '/', i);
    if i < 0 || i >= path.len() || e < i {
        Seq::empty()
    } else {
        let name = path.subrange(i, e);
        let head = if name.len() == 0 || name == "."@ {
            Seq::empty()
        } else {
            seq![(i as usize, e as usize)]
        };
        if e >= path.len() {
            head
        } else {
            head + components(path, e + 1)
        }
    }
}

/// The text of a component.
pub open spec fn component_name(path: Seq<char>, span: (usize, usize)) -> Seq<char> {
    path.subrange(span.0 as int, span.1 as int)
}

/// The name a path ends in; none for an empty path, a root, and a path that
/// ends in "..".
pub open spec fn file_name_of(path: Seq<char>) -> Option<Seq<char>> {
    let all = components(path, 0);
    if all.len() == 0 || component_name(path, all.last()) == ".."@ {
        None
    } else {
        Some(component_name(path, all.last()))
    }
}

/// Whether a file name has the extension of an app bundle.
pub open spec fn is_app_name(name: Seq<char>) -> bool {
    name.len() > 4 && name.skip(name.len() - 4) == ".app"@
}

/// A file name without its extension. A dot in front starts no extension.
pub open spec fn stem_of(name: Seq<char>) -> Seq<char> {
    let dot = text::rfind_before(name, '.', name.len() as int);
    if dot <= 0 {
        name
    } else {
        name.take(dot)
    }
}

/// The outermost app bundle a path lies in or names; none when there is none.
pub open spec fn outermost_bundle(path: Seq<char>) -> Option<Seq<char>> {
    let all = components(path, 0);
    let at = order::first_where(
        all,
        |c: (usize, usize)| is_app_name(component_name(path, c)),
        0,
    );
    if at >= all.len() {
        None
    } else if at == all.len() - 1 {
        Some(path)
    } else {
        Some(path.take(all[at].1 as int))
    }
}

/// Components are non-empty ranges in order, each between separators or the
/// path's ends.
proof fn lemma_components(path: Seq<char>, i: int)
    requires
        0 <= i,
        path.len() <= usize::MAX,
    ensures
        forall|k: int|
            0 <= k < components(path, i).len() ==> i <= (#[trigger] components(path, i)[k]).0
                < components(path, i)[k].1 <= path.len(),
        forall|k: int|
            0 <= k < components(path, i).len() ==> ((#[trigger] components(path, i)[k]).1
                == path.len() || path[components(path, i)[k].1 as int] == '/'),
        forall|a: int, b: int|
            0 <= a < b < components(path, i).len() ==> (#[trigger] components(path, i)[a]).1 < (
            #[trigger] components(path, i)[b]).0,
    decreases path.len() - i,
{
    if i < path.len() {
        text::lemma_find_from(path, '/', i);
        let e = text::find_from(path, '/', i);
        let all = components(path, i);
        let tail = if e >= path.len() {
            Seq::empty()
        } else {
            components(path, e + 1)
        };
        if e < path.len() {
            lemma_components(path, e + 1);
        }
        let name = path.subrange(i, e);
        let head = if name.len() == 0 || name == "."@ {
            Seq::empty()
        } else {
            seq![(i as usize, e as usize)]
        };
        assert(all =~= head + tail);
        assert forall|k: int| 0 <= k < all.len() implies i <= (#[trigger] all[k]).0 < all[k].1
            <= path.len() && (all[k].1 == path.len() || path[all[k].1 as int] == '/') by {
            if k >= head.len() {
                assert(all[k] == tail[k - head.len()]);
            }
        }
        assert forall|a: int, b: int| 0 <= a < b < all.len() implies (#[trigger] all[a]).1 < (
        #[trigger] all[b]).0 by {
            assert(all[b] == tail[b - head.len()]);
            if a >= head.len() {
                assert(all[a] == tail[a - head.len()]);
            }
        }
    }
}

/// The components of a path with more behind a separator: its own, then those
/// behind.
proof fn lemma_components_joined(a: Seq<char>, b: Seq<char>, i: int)
    requires
        0 <= i <= a.len(),
        (a + seq!['/'] + b).len() <= usize::MAX,
    ensures
        components(a + seq!['/'] + b, i) == components(a, i) + components(
            a + seq!['/'] + b,
            a.len() as int + 1,
        ),
    decreases a.len() - i,
{
    let whole = a + seq!['/'] + b;
    let behind = components(whole, a.len() as int + 1);
    text::lemma_find_from(a, '/', i);
    text::lemma_find_from(whole, '/', i);
    let e = text::find_from(a, '/', i);
    assert(whole[a.len() as int] == '/');
    assert(text::find_from(whole, '/', i) == e) by {
        let w = text::find_from(whole, '/', i);
        if w < e {
            assert(whole[w] == a[w]);
        } else if e < w {
            if e < a.len() {
                assert(whole[e] == a[e]);
            }
        }
    }
    let name = whole.subrange(i, e);
    assert(name =~= a.subrange(i, e));
    let head = if name.len() == 0 || name == "."@ {
        Seq::empty()
    } else {
        seq![(i as usize, e as usize)]
    };
    assert(components(whole, i) == head + components(whole, e + 1));
    if e < a.len() {
        lemma_components_joined(a, b, e + 1);
        assert(components(a, i) == head + components(a, e + 1));
        assert(components(whole, i) =~= components(a, i) + behind);
    } else {
        assert(components(a, i) =~= head);
    }
}

fn split_path(v: &Vec<char>) -> (r: Vec<(usize, usize)>)
    ensures
        r@ == components(v@, 0),
        forall|k: int| 0 <= k < r.len() ==> (#[trigger] r@[k]).0 < r@[k].1 <= v@.len(),
{
    let mut out: Vec<(usize, usize)> = Vec::new();
    let mut i: usize = 0;
    assert(out@ + components(v@, 0) =~= components(v@, 0));
    while i < v.len()
        invariant
            i <= v@.len(),
            components(v@, 0) == out@ + components(v@, i as int),
        decreases v@.len() - i,
    {
        let e: usize = find_char(v, '/', i);
        let ghost name = v@.subrange(i as int, e as int);
        let dot = e - i == 1 && v[i] == '.';
        proof {
            reveal_strlit(".");
            assert(dot <==> name == "."@) by {
                if dot {
                    assert(name =~= "."@);
                } else if name == "."@ {
                    assert(name.len() == 1);
                    assert(name[0] == v@[i as int]);
                }
            }
        }
        let ghost before = out@;
        if e > i && !dot {
            out.push((i, e));
        }
        if e >= v.len() {
            assert(out@ =~= before + components(v@, i as int));
            proof {
                lemma_components(v@, 0);
            }
            return out;
        }
        assert(out@ + components(v@, e + 1) =~= before + components(v@, i as int));
        i = e + 1;
    }
    assert(out@ + Seq::<(usize, usize)>::empty() =~= out@);
    proof {
        lemma_components(v@, 0);
    }
    out
}

/// The name a path ends in.
pub fn file_name(path: &str) -> (r: Option<String>)
    ensures
        r.deep_view() == file_name_of(path@),
{
    let v = chars_of(path);
    let all = split_path(&v);
    if all.len() == 0 {
        return None;
    }
    let (from, to) = all[all.len() - 1];
    assert(all@[all.len() - 1].0 < all@[all.len() - 1].1);
    let name = string_of(&v, from, to);
    if str_eq(name.as_str(), "..") {
        None
    } else {
        Some(name)
    }
}

fn app_name_at(v: &Vec<char>, from: usize, to: usize) -> (r: bool)
    requires
        from <= to <= v@.len(),
    ensures
        r == is_app_name(v@.subrange(from as int, to as int)),
{
    let ghost name = v@.subrange(from as int, to as int);
    proof {
        reveal_strlit(".app");
    }
    if to - from <= 4 {
        return false;
    }
    let hit = v[to - 4] == '.' && v[to - 3] == 'a' && v[to - 2] == 'p' && v[to - 1] == 'p';
    proof {
        let tail = name.skip(name.len() - 4);
        if hit {
            assert(tail =~= ".app"@);
        } else if tail == ".app"@ {
            assert(tail[0] == v@[to - 4] && tail[1] == v@[to - 3] && tail[2] == v@[to - 2]
                && tail[3] == v@[to - 1]);
        }
    }
    hit
}

/// Whether a path names an app bundle.
pub fn is_app_path(path: &str) -> (r: bool)
    ensures
        r == (file_name_of(path@) matches Some(name) && is_app_name(name)),
{
    match file_name(path) {
        None => false,
        Some(name) => {
            let v = chars_of(name.as_str());
            assert(v@.subrange(0, v@.len() as int) =~= name@);
            app_name_at(&v, 0, v.len())
        },
    }
}

/// The outermost app bundle a path lies in, so that helper processes nested in
/// an application attribute to the application that owns them.
pub fn enclosing_app_bundle(exe: &str) -> (r: Option<String>)
    ensures
        r.deep_view() == outermost_bundle(exe@),
{
    let v = chars_of(exe);
    let all = split_path(&v);
    let ghost pred = |c: (usize, usize)| is_app_name(component_name(exe@, c));
    let mut i: usize = 0;
    while i < all.len()
        invariant
            i <= all.len(),
            v@ == exe@,
            all@ == components(exe@, 0),
            forall|k: int| 0 <= k < all.len() ==> (#[trigger] all@[k]).0 < all@[k].1 <= v@.len(),
            pred == (|c: (usize, usize)| is_app_name(component_name(exe@, c))),
            order::first_where(all@, pred, 0) == order::first_where(all@, pred, i as int),
        decreases all.len() - i,
    {
        let (from, to) = all[i];
        assert(all@[i as int].0 < all@[i as int].1);
        if app_name_at(&v, from, to) {
            assert(pred(all@[i as int]));
            if i + 1 == all.len() {
                return Some(exe.to_owned());
            }
            let root = string_of(&v, 0, to);
            assert(root@ =~= exe@.take(to as int));
            return Some(root);
        }
        assert(!pred(all@[i as int]));
        i = i + 1;
    }
    None
}

/// A file name without its extension.
pub fn file_stem(path: &str) -> (r: Option<String>)
    ensures
        r.deep_view() == match file_name_of(path@) {
            Some(name) => Some(stem_of(name)),
            None => None,
        },
{
    match file_name(path) {
        None => None,
        Some(name) => {
            let v = chars_of(name.as_str());
            let past: usize = text::end_of_last(&v, '.');
            if past <= 1 {
                return Some(name);
            }
            let stem = string_of(&v, 0, past - 1);
            assert(stem@ =~= name@.take(past - 1));
            Some(stem)
        },
    }
}

/// Nothing outside the bundle of an application is taken for it: the bundle is
/// the path itself, or a prefix of it that ends where a component does.
pub proof fn bundle_encloses_its_files(path: Seq<char>)
    requires
        path.len() <= usize::MAX,
    ensures
        outermost_bundle(path) matches Some(root) ==> text::has_prefix(path, root) && (root == path
            || path[root.len() as int] == '/'),
{
    lemma_components(path, 0);
    let all = components(path, 0);
    let pred = |c: (usize, usize)| is_app_name(component_name(path, c));
    order::lemma_first_where(all, pred, 0);
    if let Some(root) = outermost_bundle(path) {
        let at = order::first_where(all, pred, 0);
        if at == all.len() - 1 {
            assert(path.take(path.len() as int) =~= path);
        } else {
            assert(all[at].1 < all[at + 1].0);
            assert(path.take(root.len() as int) =~= root);
        }
    }
}

/// Whatever lies inside an application attributes to it, helper applications
/// among it: `app` is the path of a bundle that lies in no other.
pub proof fn helpers_belong_to_their_app(app: Seq<char>, inside: Seq<char>)
    requires
        (app + seq!['/'] + inside).len() <= usize::MAX,
        outermost_bundle(app) == Some(app),
        components(app, 0).last().1 == app.len(),
        components(app + seq!['/'] + inside, app.len() as int + 1).len() > 0,
    ensures
        outermost_bundle(app + seq!['/'] + inside) == Some(app),
{
    let whole = app + seq!['/'] + inside;
    let own = components(app, 0);
    let all = components(whole, 0);
    lemma_components(app, 0);
    lemma_components_joined(app, inside, 0);
    let p = |c: (usize, usize)| is_app_name(component_name(app, c));
    let q = |c: (usize, usize)| is_app_name(component_name(whole, c));
    order::lemma_first_where(own, p, 0);
    order::lemma_first_where(all, q, 0);
    let last = own.len() - 1;
    let at = order::first_where(own, p, 0);
    if at < last {
        assert(own[at].1 < own[last].0);
    }
    assert forall|k: int| 0 <= k < own.len() implies (#[trigger] all[k]) == own[k] && q(all[k])
        == p(own[k]) by {
        assert(component_name(whole, own[k]) =~= component_name(app, own[k]));
    }
    assert(p(own[last]));
    assert(q(all[last]));
    let found = order::first_where(all, q, 0);
    assert(found == last) by {
        if found < last {
            assert(q(all[found]));
            assert(p(own[found]));
        }
    }
    assert(whole.take(app.len() as int) =~= app);
}

/// What a property list says under a key: nothing, something that is no text
/// (`Some(None)`), or a text.
pub open spec fn plain_name(
    display_name: Option<Option<Seq<char>>>,
    name: Option<Option<Seq<char>>>,
) -> Option<Seq<char>> {
    match display_name {
        Some(entry) => entry,
        None => match name {
            Some(entry) => entry,
            None => None,
        },
    }
}

/// The identity of a bundle from its property list: its identifier must be a
/// text. It is called by its display name, or else its name, or else its file
/// name without the extension.
pub open spec fn identity_of(
    root: Seq<char>,
    identifier: Option<Seq<char>>,
    display_name: Option<Option<Seq<char>>>,
    name: Option<Option<Seq<char>>>,
) -> Option<AppIdentityView> {
    match identifier {
        None => None,
        Some(bundle_id) => Some(
            AppIdentityView {
                bundle_id,
                app_name: match plain_name(display_name, name) {
                    Some(n) => n,
                    None => match file_name_of(root) {
                        Some(n) => stem_of(n),
                        None => Seq::empty(),
                    },
                },
                bundle_path: Some(root),
            },
        ),
    }
}

/// Puts together the identity of a bundle from what its property list says.
pub fn bundle_identity(
    root: &str,
    identifier: Option<String>,
    display_name: Option<Option<String>>,
    name: Option<Option<String>>,
) -> (r: Option<AppIdentity>)
    ensures
        r.deep_view() == identity_of(
            root@,
            identifier.deep_view(),
            display_name.deep_view(),
            name.deep_view(),
        ),
{
    match identifier {
        None => None,
        Some(bundle_id) => {
            let entry: Option<String> = match display_name {
                Some(entry) => entry,
                None => match name {
                    Some(entry) => entry,
                    None => None,
                },
            };
            let app_name = match entry {
                Some(n) => n,
                None => match file_stem(root) {
                    Some(n) => n,
                    None => String::new(),
                },
            };
            assert(identifier.deep_view() matches Some(b) && b == bundle_id@);
            let r = AppIdentity { bundle_id, app_name, bundle_path: Some(root.to_owned()) };
            assert(r.deep_view() =~= identity_of(
                root@,
                identifier.deep_view(),
                display_name.deep_view(),
                name.deep_view(),
            )->0);
            Some(r)
        },
    }
}

/// The identity of a process: that of its bundle, or for one that is not
/// bundled the name of its executable, or else what the system calls it.
pub open spec fn process_identity(
    exe: Seq<char>,
    bundle: Option<AppIdentityView>,
    process_name: Option<Seq<char>>,
) -> AppIdentityView {
    match bundle {
        Some(identity) => identity,
        None => AppIdentityView {
            bundle_id: Seq::empty(),
            app_name: match file_name_of(exe) {
                Some(n) => n,
                None => match process_name {
                    Some(n) => n,
                    None => Seq::empty(),
                },
            },
            bundle_path: None,
        },
    }
}

/// Best-effort identity of a process; falls back to a plain name with an empty
/// bundle id for daemons and command-line tools.
pub fn identify_executable(
    exe: &str,
    bundle: Option<AppIdentity>,
    process_name: Option<String>,
) -> (r: AppIdentity)
    ensures
        r.deep_view() == process_identity(
            exe@,
            bundle.deep_view(),
            process_name.deep_view(),
        ),
{
    match bundle {
        Some(identity) => identity,
        None => {
            let app_name = match file_name(exe) {
                Some(n) => n,
                None => match process_name {
                    Some(n) => n,
                    None => String::new(),
                },
            };
            let r = AppIdentity { bundle_id: String::new(), app_name, bundle_path: None };
            assert(r.deep_view() =~= process_identity(
                exe@,
                bundle.deep_view(),
                process_name.deep_view(),
            ));
            r
        },
    }
}

/// The bundles that running executables lie in, each once.
pub open spec fn bundle_roots_of(exes: Seq<Seq<char>>) -> Seq<Seq<char>> {
    text::unique_of(
        text::gathered(
            exes,
            |e: Seq<char>|
                match outermost_bundle(e) {
                    Some(root) => seq![root],
                    None => Seq::empty(),
                },
        ),
    )
}

/// The bundles whose property lists have to be read to know what is running:
/// each once, however many processes it has.
pub fn bundle_roots(exes: &Vec<String>) -> (r: Vec<String>)
    ensures
        r.deep_view() == bundle_roots_of(exes.deep_view()),
{
    let ghost all = exes.deep_view();
    let ghost f = |e: Seq<char>|
        match outermost_bundle(e) {
            Some(root) => seq![root],
            None => Seq::empty(),
        };
    let mut roots: Vec<String> = Vec::new();
    let mut i: usize = 0;
    assert(roots.deep_view() =~= text::gathered(all.take(0), f));
    while i < exes.len()
        invariant
            i <= exes.len(),
            all == exes.deep_view(),
            f == (|e: Seq<char>|
                match outermost_bundle(e) {
                    Some(root) => seq![root],
                    None => Seq::empty(),
                }),
            roots.deep_view() == text::gathered(all.take(i as int), f),
        decreases exes.len() - i,
    {
        let ghost before = roots.deep_view();
        if let Some(root) = enclosing_app_bundle(exes[i].as_str()) {
            roots.push(root);
        }
        proof {
            text::lemma_take_step(all, i as int);
            assert(roots.deep_view() =~= before + f(all[i as int]));
        }
        i = i + 1;
    }
    assert(all.take(all.len() as int) =~= all);
    unique(&roots)
}

/// The apps found, first occurrence of each bundle id, those without one
/// dropped.
pub open spec fn installed_of(found: Seq<AppIdentityView>) -> Seq<AppIdentityView>
    decreases found.len(),
{
    if found.len() == 0 {
        Seq::empty()
    } else {
        let kept = installed_of(found.drop_last());
        if found.last().bundle_id.len() == 0 || bundle_ids_of(kept).contains(
            found.last().bundle_id,
        ) {
            kept
        } else {
            kept.push(found.last())
        }
    }
}

/// The bundle ids of apps, in order.
pub open spec fn bundle_ids_of(apps: Seq<AppIdentityView>) -> Seq<Seq<char>> {
    apps.map_values(|a: AppIdentityView| a.bundle_id)
}

/// The installed apps among the bundles found: those with an id, each id once;
/// the first directory searched wins.
pub fn installed_apps(found: &Vec<AppIdentity>) -> (r: Vec<AppIdentity>)
    ensures
        r.deep_view() == installed_of(found.deep_view()),
{
    let ghost all = found.deep_view();
    let mut apps: Vec<AppIdentity> = Vec::new();
    let mut seen: Vec<String> = Vec::new();
    let mut i: usize = 0;
    assert(all.take(0) =~= Seq::<AppIdentityView>::empty());
    assert(apps.deep_view() =~= Seq::<AppIdentityView>::empty());
    assert(seen.deep_view() =~= bundle_ids_of(apps.deep_view()));
    while i < found.len()
        invariant
            i <= found.len(),
            all == found.deep_view(),
            apps.deep_view() == installed_of(all.take(i as int)),
            seen.deep_view() == bundle_ids_of(apps.deep_view()),
        decreases found.len() - i,
    {
        proof {
            text::lemma_take_step(all, i as int);
        }
        let app = &found[i];
        if !app.bundle_id.as_str().is_empty() && !holds(&seen, app.bundle_id.as_str()) {
            let ghost before = apps.deep_view();
            let ghost ids = seen.deep_view();
            apps.push(app.clone());
            seen.push(app.bundle_id.clone());
            assert(apps.deep_view() =~= before.push(app.deep_view()));
            assert(seen.deep_view() =~= ids.push(app.bundle_id@));
            assert(seen.deep_view() =~= bundle_ids_of(apps.deep_view()));
        }
        i = i + 1;
    }
    assert(all.take(all.len() as int) =~= all);
    apps
}

/// No bundle id is listed twice, and none is empty.
pub proof fn installed_ids_are_unique(found: Seq<AppIdentityView>)
    ensures
        bundle_ids_of(installed_of(found)).no_duplicates(),
        forall|i: int|
            0 <= i < installed_of(found).len() ==> (#[trigger] installed_of(
                found,
            )[i]).bundle_id.len() > 0,
    decreases found.len(),
{
    if found.len() > 0 {
        installed_ids_are_unique(found.drop_last());
        let kept = installed_of(found.drop_last());
        let last = found.last();
        if installed_of(found) != kept {
            let ids = bundle_ids_of(kept);
            let out = bundle_ids_of(kept.push(last));
            assert(out =~= ids.push(last.bundle_id));
            assert(out.no_duplicates()) by {
                assert forall|i: int, j: int| 0 <= i < j < out.len() implies out[i] != out[j] by {
                    assert(out[i] == ids[i]);
                    if j < ids.len() {
                        assert(out[j] == ids[j]);
                    } else {
                        assert(ids.contains(ids[i]));
                    }
                }
            }
        }
    }
}

proof fn lemma_one_component(name: Seq<char>)
    requires
        0 < name.len() <= usize::MAX,
        !name.contains('/'),
    ensures
        components(name, 0) == if name == "."@ {
            Seq::empty()
        } else {
            seq![(0usize, name.len() as usize)]
        },
{
    text::lemma_find_from(name, '/', 0);
    let e = text::find_from(name, '/', 0);
    if e < name.len() {
        assert(name[e] == '/');
    }
    assert(name.subrange(0, e) =~= name);
}

proof fn lemma_components_behind(head: Seq<char>, rest: Seq<char>, i: int)
    requires
        0 <= i,
        (head + rest).len() <= usize::MAX,
    ensures
        components(head + rest, head.len() + i).len() == components(rest, i).len(),
        forall|k: int|
            0 <= k < components(rest, i).len() ==> (#[trigger] components(
                head + rest,
                head.len() + i,
            )[k]).0 == head.len() + components(rest, i)[k].0 && components(
                head + rest,
                head.len() + i,
            )[k].1 == head.len() + components(rest, i)[k].1,
    decreases rest.len() - i,
{
    let all = head + rest;
    if i < rest.len() {
        lemma_found_behind(head, rest, i);
        text::lemma_find_from(rest, '/', i);
        let e = text::find_from(rest, '/', i);
        assert(all.subrange(head.len() + i, head.len() + e) =~= rest.subrange(i, e));
        if e < rest.len() {
            lemma_components_behind(head, rest, e + 1);
        }
    }
}

proof fn lemma_found_behind(head: Seq<char>, rest: Seq<char>, i: int)
    requires
        0 <= i <= rest.len(),
    ensures
        text::find_from(head + rest, '/', head.len() + i) == head.len() + text::find_from(
            rest,
            '/',
            i,
        ),
    decreases rest.len() - i,
{
    if i < rest.len() {
        assert((head + rest)[head.len() + i] == rest[i]);
        if rest[i] != '/' {
            lemma_found_behind(head, rest, i + 1);
        }
    }
}

/// The file name of a path is its last name; a slash at the end does not count, and
/// neither does a last name that stands for the directory itself. One that stands
/// for the directory above is no name, and an empty path has none.
#[verifier::rlimit(40)]
pub proof fn file_names_come_last(dir: Seq<char>, name: Seq<char>)
    requires
        name.len() > 0,
        !name.contains('/'),
        dir.len() + name.len() + 1 <= usize::MAX,
    ensures
        file_name_of(Seq::empty()) is None,
        name == ".."@ ==> file_name_of(dir + seq!['/'] + name) is None,
        name == "."@ ==> file_name_of(dir + seq!['/'] + name) == file_name_of(dir),
        name != "."@ && name != ".."@ ==> file_name_of(name) == Some(name) && file_name_of(
            dir + seq!['/'] + name,
        ) == Some(name),
        file_name_of(dir + seq!['/']) == file_name_of(dir),
{
    let all = dir + seq!['/'] + name;
    lemma_one_component(name);
    reveal_strlit(".");
    reveal_strlit("..");
    assert(name.subrange(0, name.len() as int) =~= name);
    lemma_components_joined(dir, name, 0);
    let head = dir + seq!['/'];
    assert(all =~= head + name);
    lemma_components_behind(head, name, 0);
    lemma_components(dir, 0);
    let last = components(all, 0).last();
    if name == "."@ {
        assert(components(all, 0) =~= components(dir, 0));
        if components(dir, 0).len() > 0 {
            assert(component_name(all, last) =~= component_name(dir, last));
        }
    } else {
        assert(last == components(all, head.len() as int)[0]);
        assert(component_name(all, last) =~= name);
    }
    let none = Seq::<char>::empty();
    lemma_components_joined(dir, none, 0);
    assert(head + none =~= head);
    assert(components(head, head.len() as int) =~= Seq::empty());
    assert(components(head, 0) =~= components(dir, 0));
    if components(dir, 0).len() > 0 {
        let span = components(dir, 0).last();
        assert(component_name(head, span) =~= component_name(dir, span));
    }
}

/// An app is named by what ends in `.app` behind something else.
pub proof fn apps_are_named_by_their_ending(s: Seq<char>, stem: Seq<char>)
    ensures
        is_app_name(stem + ".app"@) <==> stem.len() > 0,
        is_app_name(s) ==> s.len() > 4 && s == s.take(s.len() - 4) + ".app"@,
{
    reveal_strlit(".app");
    let all = stem + ".app"@;
    assert(all.skip(all.len() - 4) =~= ".app"@);
    if is_app_name(s) {
        assert(s =~= s.take(s.len() - 4) + s.skip(s.len() - 4));
    }
}

/// The stem of a name is what stands before its last dot; a name without one, or
/// that only starts with one, is its own stem.
pub proof fn stems_end_at_the_last_dot(stem: Seq<char>, ending: Seq<char>)
    requires
        !ending.contains('.'),
    ensures
        stem_of(ending) == ending,
        stem.len() > 0 ==> stem_of(stem.push('.') + ending) == stem,
        stem_of(seq!['.'] + ending) == seq!['.'] + ending,
{
    let n = ending.len() as int;
    text::lemma_rfind_before(ending, '.', n);
    let d = text::rfind_before(ending, '.', n);
    if d >= 0 {
        assert(ending[d] == '.');
    }
    let all = stem.push('.') + ending;
    text::lemma_rfind_before(all, '.', all.len() as int);
    let m = text::rfind_before(all, '.', all.len() as int);
    assert(all[stem.len() as int] == '.');
    if m > stem.len() {
        assert(all[m] == ending[m - stem.len() - 1]);
    }
    assert(all.take(m) =~= stem);
    let dotted = seq!['.'] + ending;
    text::lemma_rfind_before(dotted, '.', dotted.len() as int);
    let k = text::rfind_before(dotted, '.', dotted.len() as int);
    if k > 0 {
        assert(dotted[k] == ending[k - 1]);
    }
}

/// A bundle is known by its identifier, without which it is none, and by its
/// display name, else by its name, else by its file; an entry that is there but no
/// text counts as no name.
pub proof fn bundles_are_known_by_their_identifier(
    root: Seq<char>,
    identifier: Option<Seq<char>>,
    display_name: Option<Option<Seq<char>>>,
    name: Option<Option<Seq<char>>>,
)
    ensures
        identity_of(root, identifier, display_name, name) is None <==> identifier is None,
        identity_of(root, identifier, display_name, name) matches Some(app) ==> {
            let by_file = match file_name_of(root) {
                Some(n) => stem_of(n),
                None => Seq::empty(),
            };
            &&& identifier == Some(app.bundle_id)
            &&& app.bundle_path == Some(root)
            &&& display_name matches Some(Some(n)) ==> app.app_name == n
            &&& display_name == Some(None::<Seq<char>>) ==> app.app_name == by_file
            &&& display_name is None ==> (name matches Some(Some(n)) ==> app.app_name == n)
            &&& display_name is None && name == Some(None::<Seq<char>>) ==> app.app_name == by_file
            &&& display_name is None && name is None ==> app.app_name == by_file
        },
{
}

/// A process is known by its bundle; without one it has no id and goes by the name
/// of its file, else by its own.
pub proof fn processes_are_known_by_their_bundle(
    exe: Seq<char>,
    bundle: Option<AppIdentityView>,
    process_name: Option<Seq<char>>,
)
    ensures
        bundle matches Some(app) ==> process_identity(exe, bundle, process_name) == app,
        bundle is None ==> {
            let app = process_identity(exe, bundle, process_name);
            &&& app.bundle_id.len() == 0
            &&& app.bundle_path is None
            &&& file_name_of(exe) matches Some(n) ==> app.app_name == n
            &&& file_name_of(exe) is None ==> (process_name matches Some(n) ==> app.app_name == n)
            &&& file_name_of(exe) is None && process_name is None ==> app.app_name.len() == 0
        },
{
}

/// The bundles that run are those that enclose an executable, each once.
pub proof fn running_bundles_are_listed_once(exes: Seq<Seq<char>>, root: Seq<char>)
    ensures
        bundle_roots_of(exes).no_duplicates(),
        bundle_roots_of(exes).contains(root) <==> exists|k: int|
            0 <= k < exes.len() && outermost_bundle(#[trigger] exes[k]) == Some(root),
{
    let f = |e: Seq<char>|
        match outermost_bundle(e) {
            Some(root) => seq![root],
            None => Seq::empty(),
        };
    let all = text::gathered(exes, f);
    text::lemma_unique(all);
    if all.contains(root) {
        let j = choose|j: int| 0 <= j < all.len() && all[j] == root;
        let (i, k) = text::lemma_gathered_from(exes, f, j);
        assert(outermost_bundle(exes[i]) == Some(root));
    }
    if exists|k: int| 0 <= k < exes.len() && outermost_bundle(#[trigger] exes[k]) == Some(root) {
        let k = choose|k: int|
            0 <= k < exes.len() && outermost_bundle(#[trigger] exes[k]) == Some(root);
        text::lemma_gathered_contains(exes, f, k, 0);
    }
}

/// One more executable adds the bundle that encloses it, behind the others, where
/// that is not listed yet.
pub proof fn running_bundles_are_listed_in_order(exes: Seq<Seq<char>>, exe: Seq<char>)
    ensures
        bundle_roots_of(Seq::empty()).len() == 0,
        bundle_roots_of(exes.push(exe)) == match outermost_bundle(exe) {
            Some(root) => if bundle_roots_of(exes).contains(root) {
                bundle_roots_of(exes)
            } else {
                bundle_roots_of(exes).push(root)
            },
            None => bundle_roots_of(exes),
        },
{
    let f = |e: Seq<char>|
        match outermost_bundle(e) {
            Some(root) => seq![root],
            None => Seq::empty(),
        };
    let before = text::gathered(exes, f);
    let after = text::gathered(exes.push(exe), f);
    assert(exes.push(exe).drop_last() =~= exes);
    assert(after =~= before + f(exe));
    match outermost_bundle(exe) {
        Some(root) => {
            assert(after =~= before.push(root));
            assert(after.drop_last() =~= before);
        },
        None => {
            assert(after =~= before);
        },
    }
}

/// A path has an enclosing app exactly where one of its names is that of an app.
pub proof fn enclosing_apps_are_found(path: Seq<char>)
    ensures
        outermost_bundle(path) is Some <==> exists|k: int|
            0 <= k < components(path, 0).len() && is_app_name(
                component_name(path, #[trigger] components(path, 0)[k]),
            ),
{
    let all = components(path, 0);
    let pred = |c: (usize, usize)| is_app_name(component_name(path, c));
    order::lemma_first_where(all, pred, 0);
    let at = order::first_where(all, pred, 0);
    if at < all.len() {
        assert(pred(all[at]));
        assert(is_app_name(component_name(path, all[at])));
    } else {
        assert forall|k: int| 0 <= k < all.len() implies !is_app_name(
            component_name(path, #[trigger] all[k]),
        ) by {
            assert(!pred(all[k]));
        }
    }
}

/// Of the apps found one more counts where it has an id that none before it has.
pub proof fn first_of_an_id_is_installed(found: Seq<AppIdentityView>, app: AppIdentityView)
    ensures
        installed_of(Seq::empty()).len() == 0,
        ({
            let seen = exists|k: int|
                0 <= k < found.len() && (#[trigger] found[k]).bundle_id == app.bundle_id;
            installed_of(found.push(app)) == if app.bundle_id.len() == 0 || seen {
                installed_of(found)
            } else {
                installed_of(found).push(app)
            }
        }),
{
    assert(found.push(app).drop_last() =~= found);
    if app.bundle_id.len() > 0 {
        lemma_installed_covers(found, app.bundle_id);
    }
}

proof fn lemma_installed_covers(found: Seq<AppIdentityView>, id: Seq<char>)
    requires
        id.len() > 0,
    ensures
        bundle_ids_of(installed_of(found)).contains(id) <==> exists|k: int|
            0 <= k < found.len() && (#[trigger] found[k]).bundle_id == id,
    decreases found.len(),
{
    if found.len() > 0 {
        let rest = found.drop_last();
        lemma_installed_covers(rest, id);
        let kept = bundle_ids_of(installed_of(rest));
        let out = bundle_ids_of(installed_of(found));
        let last = found[found.len() - 1];
        if out.contains(id) {
            let k = choose|k: int| 0 <= k < out.len() && out[k] == id;
            if k < kept.len() {
                assert(kept[k] == id);
                let m = choose|m: int| 0 <= m < rest.len() && (#[trigger] rest[m]).bundle_id == id;
                assert(found[m].bundle_id == id);
            } else {
                assert(last.bundle_id == id);
            }
        }
        if exists|k: int| 0 <= k < found.len() && (#[trigger] found[k]).bundle_id == id {
            let k = choose|k: int| 0 <= k < found.len() && (#[trigger] found[k]).bundle_id == id;
            if k < rest.len() {
                assert(rest[k].bundle_id == id);
            }
            if kept.contains(id) {
                let m = choose|m: int| 0 <= m < kept.len() && kept[m] == id;
                assert(out[m] == id);
            } else {
                assert(out[kept.len() as int] == id);
            }
        }
    }
}

/// The enclosing app of a path is the first app on the way: the path up to that
/// name, or all of it where that is its last name.
pub proof fn first_app_on_the_way_encloses(path: Seq<char>, k: int)
    requires
        path.len() <= usize::MAX,
        0 <= k < components(path, 0).len(),
        is_app_name(component_name(path, components(path, 0)[k])),
        forall|m: int|
            0 <= m < k ==> !is_app_name(
                component_name(path, #[trigger] components(path, 0)[m]),
            ),
    ensures
        k == components(path, 0).len() - 1 ==> outermost_bundle(path) == Some(path),
        k < components(path, 0).len() - 1 ==> outermost_bundle(path) == Some(
            path.take(components(path, 0)[k].1 as int),
        ),
{
    let all = components(path, 0);
    let pred = |c: (usize, usize)| is_app_name(component_name(path, c));
    order::lemma_first_where(all, pred, 0);
    let at = order::first_where(all, pred, 0);
    assert(pred(all[k]));
    if at < k {
        assert(pred(all[at]));
    }
    assert(at == k);
}

} // verus!

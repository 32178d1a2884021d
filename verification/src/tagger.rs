//! Language-model prompts and what is accepted of the replies.
//!
//! A model replies with free text that should hold a JSON value. Where the
//! value starts and ends, what of it is kept and when it is refused is decided
//! here; decoding JSON is `serde_json`'s work.

use vstd::prelude::*;

use crate::order;
use crate::text;
use crate::text::{
    chars_of, decimal_of, find_char, first_chars, join, lossy_text, split_words, str_eq, string_of,
    trim,
};

verus! {

/// How much context a prompt carries, to stay inside the model's window.
pub const MAX_CONTEXT_CHARS: usize = 9000;

/// Per-group slice of the labeling prompt; a handful of member titles is plenty
/// of signal for a short label.
pub const MAX_GROUP_CONTEXT_CHARS: usize = 800;

/// How many generated tags are kept.
pub const MAX_GENERATED_TAGS: usize = 12;

/// How many words a generated summary may have.
pub const MAX_SUMMARY_WORDS: usize = 24;

/// A generated summary and generated keyword tags.
#[derive(Debug, PartialEq)]
pub struct TagResult {
    pub summary: String,
    pub tags: Vec<String>,
}

/// What a `TagResult` says: its texts as character sequences, its lists as sequences.
#[verifier::ext_equal]
pub struct TagResultView {
    pub summary: Seq<char>,
    pub tags: Seq<Seq<char>>,
}

impl DeepView for TagResult {
    type V = TagResultView;

    open spec fn deep_view(&self) -> TagResultView {
        TagResultView {
            summary: self.summary.deep_view(),
            tags: self.tags.deep_view(),
        }
    }
}

impl Clone for TagResult {
    fn clone(&self) -> (r: Self)
        ensures
            r.deep_view() == self.deep_view(),
    {
        TagResult {
            summary: self.summary.clone(),
            tags: self.tags.clone(),
        }
    }
}

/// Name for the list of strings a JSON text holds; none when it is not JSON or
/// not such a list.
pub uninterp spec fn json_strings(s: Seq<char>) -> Option<Seq<Seq<char>>>;

/// Name for the string members of a JSON object, by ascending key; none when
/// the text is not JSON or not an object of strings.
pub uninterp spec fn json_members(s: Seq<char>) -> Option<Seq<(Seq<char>, Seq<char>)>>;

/// Name for the JSON text of a list of strings.
pub uninterp spec fn json_list(v: Seq<Seq<char>>) -> Seq<char>;

/// `serde_json::from_str` into a list of strings, a function of the text alone;
/// the grammar of JSON is left unsaid.
#[verifier::external_body]
fn decode_strings(s: &str) -> (r: Option<Vec<String>>)
    ensures
        r.deep_view() == json_strings(s@),
{
    serde_json::from_str::<Vec<String>>(s).ok()
}

/// `serde_json::from_str` into a map from strings to strings, handed out in key
/// order, a function of the text alone. No key occurs twice: of members with
/// one key the last counts. The grammar of JSON is left unsaid.
#[verifier::external_body]
fn decode_members(s: &str) -> (r: Option<Vec<(String, String)>>)
    ensures
        r.deep_view() == json_members(s@),
        r matches Some(v) ==> forall|i: int, j: int|
            0 <= i < j < v.len() ==> (#[trigger] v@[i]).0@ != (#[trigger] v@[j]).0@,
{
    serde_json::from_str::<std::collections::BTreeMap<String, String>>(s).ok().map(
        |m| m.into_iter().collect(),
    )
}

/// `serde_json::to_string` on a list of strings, which always succeeds; reading
/// the text back yields the list. How strings are escaped is left unsaid.
#[verifier::external_body]
fn encode_strings(v: &Vec<String>) -> (r: String)
    ensures
        r@ == json_list(v.deep_view()),
        json_strings(r@) == Some(v.deep_view()),
{
    serde_json::to_string(v).expect("strings always serialize")
}

/// A list of strings as JSON, for the columns that hold one. Reading it back
/// yields the list.
pub fn strings_to_json(v: &Vec<String>) -> (r: String)
    ensures
        r@ == json_list(v.deep_view()),
        json_strings(r@) == Some(v.deep_view()),
{
    encode_strings(v)
}

/// The list of strings a JSON text holds; empty when it holds none.
pub fn strings_from_json(s: &str) -> (r: Vec<String>)
    ensures
        r.deep_view() == match json_strings(s@) {
            Some(v) => v,
            None => Seq::empty(),
        },
{
    match decode_strings(s) {
        Some(v) => v,
        None => {
            let none: Vec<String> = Vec::new();
            assert(none.deep_view() =~= Seq::<Seq<char>>::empty());
            none
        },
    }
}

/// How far into brackets and strings a text has led.
#[verifier::ext_equal]
pub struct Nesting {
    /// How many brackets are open.
    pub depth: int,
    /// Whether a string is open.
    pub quoted: bool,
    /// Whether the next character of that string is escaped.
    pub escaped: bool,
}

/// Where one more character leads. Inside a string only its end counts, and
/// whether it is escaped.
pub open spec fn stepped(at: Nesting, c: char, open: char, close: char) -> Nesting {
    if at.escaped {
        Nesting { escaped: false, ..at }
    } else if at.quoted {
        Nesting { quoted: c != '"', escaped: c == '\\', ..at }
    } else if c == '"' {
        Nesting { quoted: true, ..at }
    } else if c == open {
        Nesting { depth: at.depth + 1, ..at }
    } else if c == close {
        Nesting { depth: at.depth - 1, ..at }
    } else {
        at
    }
}

/// Where a text leads, read from its start.
pub open spec fn nesting(s: Seq<char>, open: char, close: char) -> Nesting
    decreases s.len(),
{
    if s.len() == 0 {
        Nesting { depth: 0, quoted: false, escaped: false }
    } else {
        stepped(nesting(s.drop_last(), open, close), s.last(), open, close)
    }
}

/// Whether a text is one bracketed value: it opens with a bracket, and that
/// bracket closes with its last character and not before.
pub open spec fn is_bracketed(s: Seq<char>, open: char, close: char) -> bool {
    &&& s.len() > 0
    &&& s[0] == open
    &&& nesting(s, open, close).depth == 0
    &&& forall|n: int| 0 < n < s.len() ==> (#[trigger] nesting(s.take(n), open, close)).depth > 0
}

/// Length, at least `n`, of the shortest start of `s` with every bracket closed;
/// `s.len() + 1` when there is none.
pub open spec fn closed_len(s: Seq<char>, open: char, close: char, n: int) -> int
    decreases s.len() + 1 - n,
{
    if n < 0 || n > s.len() {
        s.len() as int + 1
    } else if nesting(s.take(n), open, close).depth == 0 {
        n
    } else {
        closed_len(s, open, close, n + 1)
    }
}

/// The part of a reply from its first opening bracket to the bracket that
/// closes it, those in strings aside; none when there is no such part.
pub open spec fn bracketed_in(raw: Seq<char>, open: char, close: char) -> Option<Seq<char>> {
    let rest = raw.skip(text::find_from(raw, open, 0));
    let n = closed_len(rest, open, close, 1);
    if n <= rest.len() {
        Some(rest.take(n))
    } else {
        None
    }
}

/// The first object of a reply.
pub open spec fn object_in(raw: Seq<char>) -> Option<Seq<char>> {
    bracketed_in(raw, '{', '}')
}

/// The first list of a reply.
pub open spec fn list_in(raw: Seq<char>) -> Option<Seq<char>> {
    bracketed_in(raw, '[', ']')
}

proof fn lemma_opens(s: Seq<char>, open: char, close: char)
    requires
        s.len() > 0,
        s[0] == open,
        open != '"',
    ensures
        nesting(s.take(1), open, close) == (Nesting { depth: 1, quoted: false, escaped: false }),
{
    let first = s.take(1);
    assert(first.drop_last() =~= Seq::<char>::empty());
    assert(first.last() == open);
    assert(nesting(first.drop_last(), open, close) == (Nesting {
        depth: 0,
        quoted: false,
        escaped: false,
    }));
}

fn find_bracketed(raw: &str, open: char, close: char) -> (r: Option<String>)
    requires
        open != '"',
    ensures
        r.deep_view() == bracketed_in(raw@, open, close),
{
    let v = chars_of(raw);
    let from: usize = find_char(&v, open, 0);
    let ghost rest = raw@.skip(from as int);
    if from >= v.len() {
        assert(rest.len() == 0);
        return None;
    }
    proof {
        text::lemma_find_from(raw@, open, 0);
        assert(rest[0] == open);
        lemma_opens(rest, open, close);
    }
    let mut depth: usize = 1;
    let mut quoted = false;
    let mut escaped = false;
    let mut i: usize = from + 1;
    while i < v.len()
        invariant
            from < i <= v@.len(),
            v@ == raw@,
            from == text::find_from(raw@, open, 0),
            rest == raw@.skip(from as int),
            nesting(rest.take(i - from), open, close) == (Nesting {
                depth: depth as int,
                quoted,
                escaped,
            }),
            0 < depth <= i - from,
            closed_len(rest, open, close, 1) == closed_len(rest, open, close, i - from),
        decreases v@.len() - i,
    {
        let c = v[i];
        proof {
            text::lemma_take_step(rest, i - from);
            assert(rest[i - from] == c);
            assert(closed_len(rest, open, close, i - from) == closed_len(
                rest,
                open,
                close,
                i + 1 - from,
            ));
        }
        if escaped {
            escaped = false;
        } else if quoted {
            if c == '\\' {
                escaped = true;
            } else if c == '"' {
                quoted = false;
            }
        } else if c == '"' {
            quoted = true;
        } else if c == open {
            depth = depth + 1;
        } else if c == close {
            if depth == 1 {
                let r = string_of(&v, from, i + 1);
                assert(r@ =~= rest.take(i + 1 - from));
                return Some(r);
            }
            depth = depth - 1;
        }
        i = i + 1;
    }
    assert(rest.take(rest.len() as int) =~= rest);
    assert(closed_len(rest, open, close, rest.len() as int) == closed_len(
        rest,
        open,
        close,
        rest.len() as int + 1,
    ));
    None
}

/// Pulls the first JSON object out of a reply, which may have an empty thinking
/// block or stray prose around it.
pub fn find_object(raw: &str) -> (r: Option<String>)
    ensures
        r.deep_view() == object_in(raw@),
{
    find_bracketed(raw, '{', '}')
}

/// Pulls the first JSON array out of a reply.
pub fn find_list(raw: &str) -> (r: Option<String>)
    ensures
        r.deep_view() == list_in(raw@),
{
    find_bracketed(raw, '[', ']')
}

proof fn lemma_closed_len(s: Seq<char>, open: char, close: char, n: int)
    requires
        0 < n <= s.len() + 1,
        forall|m: int| 0 < m < n ==> (#[trigger] nesting(s.take(m), open, close)).depth > 0,
        s.len() > 0,
        s[0] == open,
        open != '"',
    ensures
        ({
            let to = closed_len(s, open, close, n);
            &&& n <= to <= s.len() + 1
            &&& to <= s.len() ==> nesting(s.take(to), open, close).depth == 0
            &&& forall|m: int| 0 < m < to ==> (#[trigger] nesting(s.take(m), open, close)).depth > 0
        }),
    decreases s.len() + 1 - n,
{
    if n <= s.len() && nesting(s.take(n), open, close).depth != 0 {
        if n > 1 {
            text::lemma_take_step(s, n - 1);
            assert(nesting(s.take(n - 1), open, close).depth > 0);
        } else {
            lemma_opens(s, open, close);
        }
        lemma_closed_len(s, open, close, n + 1);
    }
}

/// The tags kept of those generated: trimmed, lowercase, without empty ones,
/// the first dozen.
pub open spec fn kept_tags(tags: Seq<Seq<char>>) -> Seq<Seq<char>> {
    text::at_most(
        tags.map_values(|t: Seq<char>| text::lower(text::trimmed(t))).filter(
            |t: Seq<char>| t.len() > 0,
        ),
        MAX_GENERATED_TAGS as int,
    )
}

/// The summary kept of one generated: its words with single blanks between, or
/// nothing when it has none or runs away.
pub open spec fn kept_summary(summary: Seq<char>) -> Seq<char> {
    let words = text::words(summary);
    if words.len() == 0 || words.len() > MAX_SUMMARY_WORDS {
        Seq::empty()
    } else {
        text::joined(words, " "@)
    }
}

fn clean_tags(generated: &Vec<String>) -> (r: Vec<String>)
    ensures
        r.deep_view() == kept_tags(generated.deep_view()),
{
    let ghost f = |t: Seq<char>| text::lower(text::trimmed(t));
    let ghost all = generated.deep_view().map_values(f);
    let ghost keep = |t: Seq<char>| t.len() > 0;
    let mut tags: Vec<String> = Vec::new();
    let mut i: usize = 0;
    reveal(Seq::filter);
    assert(tags.deep_view() =~= all.take(0).filter(keep));
    while i < generated.len()
        invariant
            i <= generated.len(),
            f == (|t: Seq<char>| text::lower(text::trimmed(t))),
            all == generated.deep_view().map_values(f),
            keep == (|t: Seq<char>| t.len() > 0),
            tags.deep_view() == all.take(i as int).filter(keep),
        decreases generated.len() - i,
    {
        let ghost before = tags.deep_view();
        let tag = trim(generated[i].as_str()).as_str().to_lowercase();
        assert(all[i as int] == f(generated.deep_view()[i as int]));
        proof {
            text::lemma_take_step(all, i as int);
            assert(all.take(i + 1).filter(keep) == if keep(all[i as int]) {
                all.take(i as int).filter(keep).push(all[i as int])
            } else {
                all.take(i as int).filter(keep)
            }) by {
                reveal(Seq::filter);
            }
        }
        if !tag.as_str().is_empty() {
            tags.push(tag);
            assert(tags.deep_view() =~= before.push(all[i as int]));
        }
        i = i + 1;
    }
    assert(all.take(all.len() as int) =~= all);
    let ghost full = tags.deep_view();
    tags.truncate(MAX_GENERATED_TAGS);
    assert(tags.deep_view() =~= text::at_most(full, MAX_GENERATED_TAGS as int));
    tags
}

/// Cleans a decoded reply. Small models sometimes ignore length limits and dump
/// the whole context; a runaway summary is worse than the heuristic one, so it
/// comes out empty and the caller keeps its own.
pub fn clean_tag_result(parsed: &TagResult) -> (r: TagResult)
    ensures
        r.deep_view() == (TagResultView {
            summary: kept_summary(parsed.deep_view().summary),
            tags: kept_tags(parsed.deep_view().tags),
        }),
{
    let words = split_words(parsed.summary.as_str());
    let summary = if words.len() == 0 || words.len() > MAX_SUMMARY_WORDS {
        String::new()
    } else {
        join(&words, " ")
    };
    assert(summary@ =~= kept_summary(parsed.summary@));
    TagResult { summary, tags: clean_tags(&parsed.tags) }
}

/// The label an object's members give the group with a number: that member,
/// trimmed; none when it is missing or blank.
pub open spec fn label_for(members: Seq<(Seq<char>, Seq<char>)>, number: nat) -> Option<Seq<char>> {
    let at = order::first_where(
        members,
        |m: (Seq<char>, Seq<char>)| m.0 == text::decimal(number),
        0,
    );
    if at < members.len() && text::trimmed(members[at].1).len() > 0 {
        Some(text::trimmed(members[at].1))
    } else {
        None
    }
}

/// The labels of groups 1 to `n`; none unless every group has one.
pub open spec fn labels_of(members: Seq<(Seq<char>, Seq<char>)>, n: nat) -> Option<
    Seq<Seq<char>>,
> {
    if forall|k: int| 1 <= k <= n ==> (#[trigger] label_for(members, k as nat)) is Some {
        Some(Seq::new(n, |i: int| label_for(members, (i + 1) as nat)->0))
    } else {
        None
    }
}

fn label_of_group(members: &Vec<(String, String)>, number: usize) -> (r: Option<String>)
    ensures
        r.deep_view() == label_for(members.deep_view(), number as nat),
{
    let ghost all = members.deep_view();
    let ghost pred = |m: (Seq<char>, Seq<char>)| m.0 == text::decimal(number as nat);
    let key = decimal_of(number as u128);
    let mut i: usize = 0;
    while i < members.len()
        invariant
            i <= members.len(),
            all == members.deep_view(),
            key@ == text::decimal(number as nat),
            pred == (|m: (Seq<char>, Seq<char>)| m.0 == text::decimal(number as nat)),
            order::first_where(all, pred, 0) == order::first_where(all, pred, i as int),
        decreases members.len() - i,
    {
        assert(all[i as int] == (members[i as int].0@, members[i as int].1@));
        if str_eq(members[i].0.as_str(), key.as_str()) {
            assert(pred(all[i as int]));
            let label = trim(members[i].1.as_str());
            if label.as_str().is_empty() {
                return None;
            }
            return Some(label);
        }
        assert(!pred(all[i as int]));
        i = i + 1;
    }
    None
}

/// Orders the labels an object gives by group number; `None` when one is
/// missing or blank, which sends the caller back to heuristic labels.
pub fn order_labels(members: &Vec<(String, String)>, n: usize) -> (r: Option<Vec<String>>)
    ensures
        r.deep_view() == labels_of(members.deep_view(), n as nat),
{
    let ghost all = members.deep_view();
    let mut out: Vec<String> = Vec::new();
    let mut k: usize = 0;
    while k < n
        invariant
            k <= n,
            all == members.deep_view(),
            forall|j: int| 1 <= j <= k ==> (#[trigger] label_for(all, j as nat)) is Some,
            out.deep_view() == Seq::new(k as nat, |i: int| label_for(all, (i + 1) as nat)->0),
        decreases n - k,
    {
        let ghost before = out.deep_view();
        match label_of_group(members, k + 1) {
            Some(label) => {
                out.push(label);
                assert(out.deep_view() =~= before.push(label_for(all, (k + 1) as nat)->0));
                assert(out.deep_view() =~= Seq::new(
                    (k + 1) as nat,
                    |i: int| label_for(all, (i + 1) as nat)->0,
                ));
            },
            None => {
                assert(label_for(all, (k + 1) as nat) is None);
                return None;
            },
        }
        k = k + 1;
    }
    Some(out)
}

/// Pulls a JSON object of group number to label out of a reply and returns the
/// labels in group order; `None` (missing or blank members, junk) sends the
/// caller back to heuristic labels.
pub fn parse_labels(raw: &str, n: usize) -> (r: Option<Vec<String>>)
    ensures
        r.deep_view() == match object_in(raw@) {
            None => None,
            Some(json) => match json_members(json) {
                None => None,
                Some(members) => labels_of(members, n as nat),
            },
        },
{
    match find_object(raw) {
        None => None,
        Some(json) => match decode_members(json.as_str()) {
            None => None,
            Some(members) => order_labels(&members, n),
        },
    }
}

/// The entries that are vocabulary words once trimmed and lowercased, each
/// once, in order.
pub open spec fn known_labels(entries: Seq<Seq<char>>, vocabulary: Seq<Seq<char>>) -> Seq<
    Seq<char>,
>
    decreases entries.len(),
{
    if entries.len() == 0 {
        Seq::empty()
    } else {
        let kept = known_labels(entries.drop_last(), vocabulary);
        let label = text::lower(text::trimmed(entries.last()));
        if vocabulary.contains(label) && !kept.contains(label) {
            kept.push(label)
        } else {
            kept
        }
    }
}

fn is_word(vocabulary: &[&str], s: &str) -> (r: bool)
    ensures
        r == vocabulary.deep_view().contains(s@),
{
    let mut i: usize = 0;
    while i < vocabulary.len()
        invariant
            i <= vocabulary.len(),
            forall|j: int| 0 <= j < i ==> vocabulary.deep_view()[j] != s@,
        decreases vocabulary.len() - i,
    {
        if str_eq(vocabulary[i], s) {
            assert(vocabulary.deep_view()[i as int] == s@);
            return true;
        }
        i = i + 1;
    }
    false
}

/// Keeps the entries that are vocabulary words: trimmed, lowercased, each once,
/// in order.
pub fn keep_known(entries: &Vec<String>, vocabulary: &[&str]) -> (r: Vec<String>)
    ensures
        r.deep_view() == known_labels(entries.deep_view(), vocabulary.deep_view()),
{
    let ghost all = entries.deep_view();
    let mut out: Vec<String> = Vec::new();
    let mut i: usize = 0;
    assert(all.take(0) =~= Seq::<Seq<char>>::empty());
    assert(out.deep_view() =~= Seq::<Seq<char>>::empty());
    while i < entries.len()
        invariant
            i <= entries.len(),
            all == entries.deep_view(),
            out.deep_view() == known_labels(all.take(i as int), vocabulary.deep_view()),
        decreases entries.len() - i,
    {
        let ghost before = out.deep_view();
        proof {
            text::lemma_take_step(all, i as int);
        }
        let label = trim(entries[i].as_str()).as_str().to_lowercase();
        if is_word(vocabulary, label.as_str()) && !text::holds(&out, label.as_str()) {
            out.push(label);
            assert(out.deep_view() =~= before.push(label@));
        }
        i = i + 1;
    }
    assert(all.take(all.len() as int) =~= all);
    out
}

/// Pulls the first JSON array out of a reply and keeps only entries that are in
/// `vocabulary`. Junk or a missing array yields nothing; the caller then relies
/// on embedding matches alone.
pub fn parse_capabilities(raw: &str, vocabulary: &[&str]) -> (r: Vec<String>)
    ensures
        r.deep_view() == match list_in(raw@) {
            None => Seq::empty(),
            Some(json) => match json_strings(json) {
                None => Seq::empty(),
                Some(entries) => known_labels(entries, vocabulary.deep_view()),
            },
        },
{
    let none: Vec<String> = Vec::new();
    assert(none.deep_view() =~= Seq::<Seq<char>>::empty());
    match find_list(raw) {
        None => none,
        Some(json) => match decode_strings(json.as_str()) {
            None => none,
            Some(entries) => keep_known(&entries, vocabulary),
        },
    }
}

proof fn lemma_find_behind(head: Seq<char>, tail: Seq<char>, c: char, i: int)
    requires
        0 <= i <= head.len(),
        !head.contains(c),
        tail.len() > 0,
        tail[0] == c,
    ensures
        text::find_from(head + tail, c, i) == head.len(),
    decreases head.len() - i,
{
    if i < head.len() {
        assert((head + tail)[i] == head[i]);
        assert(head.contains(head[i]));
        lemma_find_behind(head, tail, c, i + 1);
    } else {
        assert((head + tail)[i] == tail[0]);
    }
}

proof fn lemma_closed_at(s: Seq<char>, value: Seq<char>, open: char, close: char, n: int)
    requires
        is_bracketed(value, open, close),
        value.len() <= s.len(),
        s.take(value.len() as int) == value,
        0 < n <= value.len(),
    ensures
        closed_len(s, open, close, n) == value.len(),
    decreases value.len() - n,
{
    assert(s.take(n) =~= value.take(n));
    if n < value.len() {
        assert(nesting(value.take(n), open, close).depth > 0);
        lemma_closed_at(s, value, open, close, n + 1);
    } else {
        assert(value.take(n) =~= value);
    }
}

/// The first bracketed value of a reply is the one that is taken, whatever
/// prose stands before it and whatever follows, further values too.
pub proof fn first_value_is_taken(
    before: Seq<char>,
    value: Seq<char>,
    behind: Seq<char>,
    open: char,
    close: char,
)
    requires
        !before.contains(open),
        is_bracketed(value, open, close),
    ensures
        bracketed_in(before + value + behind, open, close) == Some(value),
{
    let raw = before + value + behind;
    let tail = value + behind;
    assert(raw =~= before + tail);
    lemma_find_behind(before, tail, open, 0);
    assert(raw.skip(before.len() as int) =~= tail);
    assert(tail.take(value.len() as int) =~= value);
    lemma_closed_at(tail, value, open, close, 1);
}

/// What is taken of a reply is one bracketed value, and nothing of it is
/// changed: it stands in the reply behind its first opening bracket.
pub proof fn taken_values_are_bracketed(raw: Seq<char>, open: char, close: char)
    requires
        open != '"',
    ensures
        bracketed_in(raw, open, close) matches Some(value) ==> is_bracketed(
            value,
            open,
            close,
        ) && ({
            let from = text::find_from(raw, open, 0);
            from + value.len() <= raw.len() && raw.subrange(from, from + value.len()) == value
        }),
{
    if let Some(value) = bracketed_in(raw, open, close) {
        text::lemma_find_from(raw, open, 0);
        let from = text::find_from(raw, open, 0);
        let rest = raw.skip(from);
        assert(rest.len() > 0);
        assert(rest[0] == open);
        lemma_closed_len(rest, open, close, 1);
        assert(raw.subrange(from, from + value.len()) =~= value);
        assert forall|n: int| 0 < n < value.len() implies (#[trigger] nesting(
            value.take(n),
            open,
            close,
        )).depth > 0 by {
            assert(value.take(n) =~= rest.take(n));
        }
    }
}

/// Whatever a model replies, only vocabulary words are kept, and none twice.
pub proof fn kept_labels_are_words(entries: Seq<Seq<char>>, vocabulary: Seq<Seq<char>>)
    ensures
        known_labels(entries, vocabulary).no_duplicates(),
        forall|i: int|
            0 <= i < known_labels(entries, vocabulary).len() ==> vocabulary.contains(
                #[trigger] known_labels(entries, vocabulary)[i],
            ),
    decreases entries.len(),
{
    if entries.len() > 0 {
        kept_labels_are_words(entries.drop_last(), vocabulary);
    }
}

/// A reply with a label for every group yields one label per group, in order,
/// none of them blank.
pub proof fn labels_are_complete(members: Seq<(Seq<char>, Seq<char>)>, n: nat)
    ensures
        labels_of(members, n) matches Some(labels) ==> labels.len() == n && forall|i: int|
            0 <= i < n ==> (#[trigger] labels[i]).len() > 0,
{
    if let Some(labels) = labels_of(members, n) {
        assert forall|i: int| 0 <= i < n implies (#[trigger] labels[i]).len() > 0 by {
            assert(label_for(members, (i + 1) as nat) is Some);
        }
    }
}

/// However long a reply is, at most a dozen tags are kept, none of them empty.
pub proof fn kept_tags_are_few(tags: Seq<Seq<char>>)
    ensures
        kept_tags(tags).len() <= MAX_GENERATED_TAGS,
        forall|i: int| 0 <= i < kept_tags(tags).len() ==> (#[trigger] kept_tags(tags)[i]).len() > 0,
{
    let all = tags.map_values(|t: Seq<char>| text::lower(text::trimmed(t)));
    let keep = |t: Seq<char>| t.len() > 0;
    order::lemma_filtered(all, keep);
    assert forall|i: int| 0 <= i < kept_tags(tags).len() implies (#[trigger] kept_tags(
        tags,
    )[i]).len() > 0 by {
        assert(keep(all.filter(keep)[i]));
    }
}

/// Opens the system turn of a prompt.
pub const SYSTEM_TURN: &'static str = "<|im_start|>system\n";

/// Ends the system turn, asks for no thinking block, and opens the user turn.
pub const USER_TURN: &'static str = " /no_think<|im_end|>\n<|im_start|>user\n";

/// Ends the user turn and opens the reply.
pub const REPLY_TURN: &'static str = "<|im_end|>\n<|im_start|>assistant\n";

/// Instructions for naming a whole desktop.
pub const TAG_INSTRUCTIONS: &'static str =
    "You label snapshots of a user's desktop. Reply with ONLY a JSON object: a \
     one-sentence summary (at most 14 words) naming the 2-4 MAIN projects or activities \
     — never an exhaustive list, never generic phrases like 'multiple projects' — and 5 \
     to 10 short lowercase keyword tags (concrete project names, technologies, topics).\n\
     Example reply: {\"summary\": \"iOS work on the remy app with TestFlight uploads and \
     App Store Connect\", \"tags\": [\"remy-ios\", \"swift\", \"testflight\", \"app \
     store\"]}";

/// Instructions for naming groups, up to their number.
pub const LABEL_INSTRUCTIONS: &'static str =
    "You label groups of related windows and browser tabs from one desktop. Reply with \
     ONLY a JSON object mapping each group number to a short label (2-4 words, no \
     punctuation) naming that group's activity or project. Label all ";

/// Instructions for naming groups, behind their number.
pub const LABEL_EXAMPLE: &'static str =
    " groups.\nExample reply: {\"1\": \"temporal rust daemon\", \"2\": \"apartment hunting\"}";

/// Instructions for inferring capabilities, up to the vocabulary.
pub const CAPABILITY_INSTRUCTIONS: &'static str =
    "The user states what they want to work on. Reply with ONLY a JSON array of the \
     capabilities they will need, chosen strictly from this list: [";

/// Instructions for inferring capabilities, behind the vocabulary.
pub const CAPABILITY_EXAMPLE: &'static str =
    "]. Include only what the intent clearly implies — an empty array [] if unsure. \
     Never invent labels outside the list.\n\
     Example: intent \"work on the app's UI\" -> [\"design\", \"editor\", \"browser\"]";

/// A whole prompt from its instructions and what the user turn holds.
pub open spec fn prompt_of(instructions: Seq<char>, user: Seq<char>) -> Seq<char> {
    SYSTEM_TURN@ + instructions + USER_TURN@ + user + REPLY_TURN@
}

fn prompt(instructions: &str, user: &str) -> (r: String)
    ensures
        r@ == prompt_of(instructions@, user@),
{
    SYSTEM_TURN.to_owned().concat(instructions).concat(USER_TURN).concat(user).concat(REPLY_TURN)
}

/// The prompt for a summary and tags of one workspace; its context is cut to
/// what fits the model's window.
pub fn tag_prompt(context: &str) -> (r: String)
    ensures
        r@ == prompt_of(TAG_INSTRUCTIONS@, text::at_most(context@, MAX_CONTEXT_CHARS as int)),
{
    let context = first_chars(context, MAX_CONTEXT_CHARS);
    prompt(TAG_INSTRUCTIONS, context.as_str())
}

/// How many characters each of `n` groups gets.
pub open spec fn group_budget(n: int) -> int {
    if MAX_CONTEXT_CHARS as int / n < MAX_GROUP_CONTEXT_CHARS {
        MAX_CONTEXT_CHARS as int / n
    } else {
        MAX_GROUP_CONTEXT_CHARS as int
    }
}

/// One group as the prompt lists it.
pub open spec fn numbered_group(context: Seq<char>, budget: int, index: int) -> Seq<char> {
    "Group "@ + text::decimal((index + 1) as nat) + ":\n"@ + text::at_most(context, budget) + "\n"@
}

/// The groups as the prompt lists them.
pub open spec fn numbered_groups(contexts: Seq<Seq<char>>) -> Seq<Seq<char>> {
    Seq::new(
        contexts.len(),
        |i: int| numbered_group(contexts[i], group_budget(contexts.len() as int), i),
    )
}

/// The prompt that names each semantic group of one workspace. `contexts[i]` is
/// the newline-joined member titles of group i. One prompt covers all groups so
/// that the model sees them side by side. The reply is keyed by group number:
/// small models reorder array elements, and a swapped label is worse than a
/// heuristic one.
pub fn label_prompt(contexts: &Vec<String>) -> (r: String)
    requires
        contexts.len() > 0,
    ensures
        r@ == prompt_of(
            LABEL_INSTRUCTIONS@ + text::decimal(contexts.len() as nat) + LABEL_EXAMPLE@,
            text::joined(numbered_groups(contexts.deep_view()), "\n"@),
        ),
{
    let n: usize = contexts.len();
    let share: usize = MAX_CONTEXT_CHARS / n;
    let budget: usize = if share < MAX_GROUP_CONTEXT_CHARS {
        share
    } else {
        MAX_GROUP_CONTEXT_CHARS
    };
    let ghost all = numbered_groups(contexts.deep_view());
    let mut lines: Vec<String> = Vec::new();
    let mut i: usize = 0;
    assert(lines.deep_view() =~= all.take(0));
    while i < n
        invariant
            i <= n,
            n == contexts.len(),
            n > 0,
            budget == group_budget(n as int),
            all == numbered_groups(contexts.deep_view()),
            lines.deep_view() == all.take(i as int),
        decreases n - i,
    {
        let ghost before = lines.deep_view();
        let context = first_chars(contexts[i].as_str(), budget);
        lines.push(
            "Group ".to_owned().concat(decimal_of(i as u128 + 1).as_str()).concat(":\n").concat(
                context.as_str(),
            ).concat("\n"),
        );
        assert(all[i as int] == numbered_group(
            contexts.deep_view()[i as int],
            budget as int,
            i as int,
        ));
        assert(lines.deep_view() =~= before.push(all[i as int]));
        assert(lines.deep_view() =~= all.take(i + 1));
        i = i + 1;
    }
    assert(all.take(all.len() as int) =~= all);
    let listed = join(&lines, "\n");
    let instructions = LABEL_INSTRUCTIONS.to_owned().concat(decimal_of(n as u128).as_str()).concat(
        LABEL_EXAMPLE,
    );
    prompt(instructions.as_str(), listed.as_str())
}

fn owned(words: &[&str]) -> (r: Vec<String>)
    ensures
        r.deep_view() == words.deep_view(),
{
    let mut out: Vec<String> = Vec::new();
    let mut i: usize = 0;
    while i < words.len()
        invariant
            i <= words.len(),
            out.deep_view() == words.deep_view().take(i as int),
        decreases words.len() - i,
    {
        let ghost before = out.deep_view();
        out.push(words[i].to_owned());
        assert(out.deep_view() =~= before.push(words.deep_view()[i as int]));
        assert(out.deep_view() =~= words.deep_view().take(i + 1));
        i = i + 1;
    }
    assert(words.deep_view().take(words.len() as int) =~= words.deep_view());
    out
}

/// The prompt that infers which capabilities a stated intent needs, from a
/// fixed vocabulary.
pub fn capability_prompt(intent: &str, vocabulary: &[&str]) -> (r: String)
    ensures
        r@ == prompt_of(
            CAPABILITY_INSTRUCTIONS@ + text::joined(vocabulary.deep_view(), ", "@)
                + CAPABILITY_EXAMPLE@,
            text::at_most(intent@, MAX_CONTEXT_CHARS as int),
        ),
{
    let intent = first_chars(intent, MAX_CONTEXT_CHARS);
    let words = owned(vocabulary);
    let instructions = CAPABILITY_INSTRUCTIONS.to_owned().concat(
        join(&words, ", ").as_str(),
    ).concat(CAPABILITY_EXAMPLE);
    prompt(instructions.as_str(), intent.as_str())
}

/// The error for a reply that holds no usable tags.
pub fn unparseable_output(raw: &str) -> (r: String)
    ensures
        r@ == "model returned unparseable output: "@ + raw@,
{
    "model returned unparseable output: ".to_owned().concat(raw)
}

/// The error for a reply that holds no usable labels.
pub fn unparseable_labels(raw: &str) -> (r: String)
    ensures
        r@ == "model returned unparseable labels: "@ + raw@,
{
    "model returned unparseable labels: ".to_owned().concat(raw)
}

/// The parts from position `from` on in which a prompt of `tokens` tokens is
/// fed to the model, each at most `batch` long.
pub open spec fn chunks_from(from: int, tokens: int, batch: int) -> Seq<(usize, usize)>
    decreases tokens - from,
{
    if from < 0 || from >= tokens || batch <= 0 {
        Seq::empty()
    } else if tokens - from <= batch {
        seq![(from as usize, tokens as usize)]
    } else {
        seq![(from as usize, (from + batch) as usize)] + chunks_from(from + batch, tokens, batch)
    }
}

/// Splits a prompt of `tokens` tokens into parts of `batch` tokens, the last
/// one possibly shorter; each part is a range of positions.
pub fn prompt_chunks(tokens: usize, batch: usize) -> (r: Vec<(usize, usize)>)
    requires
        batch > 0,
    ensures
        r@ == chunks_from(0, tokens as int, batch as int),
{
    let mut out: Vec<(usize, usize)> = Vec::new();
    let mut from: usize = 0;
    assert(out@ + chunks_from(0, tokens as int, batch as int) =~= chunks_from(
        0,
        tokens as int,
        batch as int,
    ));
    while from < tokens
        invariant
            from <= tokens,
            batch > 0,
            chunks_from(0, tokens as int, batch as int) == out@ + chunks_from(
                from as int,
                tokens as int,
                batch as int,
            ),
        decreases tokens - from,
    {
        let to: usize = if tokens - from <= batch {
            tokens
        } else {
            from + batch
        };
        let ghost before = out@;
        out.push((from, to));
        assert(out@ + chunks_from(to as int, tokens as int, batch as int) =~= before + chunks_from(
            from as int,
            tokens as int,
            batch as int,
        ));
        from = to;
    }
    assert(out@ + Seq::<(usize, usize)>::empty() =~= out@);
    out
}

/// Whether the model's prediction is wanted at a position: only behind the last
/// token of the prompt.
pub fn wants_logits(position: usize, tokens: usize) -> (r: bool)
    requires
        tokens > 0,
    ensures
        r == (position == tokens - 1),
{
    position == tokens - 1
}

/// The text of a reply, decoded once all its bytes are there: a character can
/// be split across tokens, so decoding them one by one would mangle it.
pub fn reply_text(bytes: &Vec<u8>) -> (r: String)
    ensures
        r@ == text::lossy(bytes@),
        vstd::utf8::valid_utf8(bytes@) ==> r@ == vstd::utf8::decode_utf8(bytes@),
{
    lossy_text(bytes)
}

/// Longest reply, in tokens, that is waited for.
pub const MAX_GENERATED_TOKENS: usize = 320;

/// A reply in the making.
#[derive(Debug, PartialEq)]
pub struct Reply {
    /// The bytes of the tokens so far.
    pub bytes: Vec<u8>,
    /// How many tokens there are so far.
    pub tokens: usize,
    /// Whether the model has ended it.
    pub ended: bool,
}

/// What a `Reply` says.
#[verifier::ext_equal]
pub struct ReplyView {
    pub bytes: Seq<u8>,
    pub tokens: int,
    pub ended: bool,
}

impl View for Reply {
    type V = ReplyView;

    open spec fn view(&self) -> ReplyView {
        ReplyView { bytes: self.bytes@, tokens: self.tokens as int, ended: self.ended }
    }
}

/// Whether another token is sampled: neither has the model ended the reply nor
/// is it as long as it may get.
pub open spec fn is_open(reply: ReplyView) -> bool {
    !reply.ended && reply.tokens < MAX_GENERATED_TOKENS
}

/// A reply with one more sample: the bytes of a token, or (`None`) its end.
pub open spec fn continued(reply: ReplyView, sample: Option<Seq<u8>>) -> ReplyView {
    match sample {
        Some(piece) => ReplyView {
            bytes: reply.bytes + piece,
            tokens: reply.tokens + 1,
            ended: reply.ended,
        },
        None => ReplyView { ended: true, ..reply },
    }
}

/// The reply that samples make up, as long as it is open.
pub open spec fn reply_of(samples: Seq<Option<Seq<u8>>>) -> ReplyView
    decreases samples.len(),
{
    if samples.len() == 0 {
        ReplyView { bytes: Seq::empty(), tokens: 0, ended: false }
    } else {
        let reply = reply_of(samples.drop_last());
        if is_open(reply) {
            continued(reply, samples.last())
        } else {
            reply
        }
    }
}

impl Reply {
    /// A reply without tokens.
    pub fn new() -> (r: Self)
        ensures
            r@ == reply_of(Seq::empty()),
    {
        Reply { bytes: Vec::new(), tokens: 0, ended: false }
    }

    /// Whether another token is to be sampled.
    pub fn wants_token(&self) -> (r: bool)
        ensures
            r == is_open(self@),
    {
        !self.ended && self.tokens < MAX_GENERATED_TOKENS
    }

    /// Takes the next sample in: the bytes of a token, or its end.
    pub fn take_sample(&mut self, sample: Option<Vec<u8>>)
        requires
            is_open(old(self)@),
        ensures
            final(self)@ == continued(
                old(self)@,
                match sample {
                    Some(piece) => Some(piece@),
                    None => None,
                },
            ),
    {
        match sample {
            Some(piece) => {
                let mut piece = piece;
                self.bytes.append(&mut piece);
                self.tokens = self.tokens + 1;
            },
            None => {
                self.ended = true;
            },
        }
    }

    /// The position at which the last token is fed back to the model, behind a
    /// prompt of `prompt` tokens.
    pub fn position(&self, prompt: usize) -> (r: usize)
        requires
            0 < self@.tokens <= MAX_GENERATED_TOKENS,
            prompt + MAX_GENERATED_TOKENS <= usize::MAX,
        ensures
            r == prompt + self@.tokens - 1,
    {
        prompt + (self.tokens - 1)
    }
}

/// Generation ends: whatever is sampled, a reply has at most
/// `MAX_GENERATED_TOKENS` tokens, and what comes behind its end changes nothing.
pub proof fn replies_are_bounded(samples: Seq<Option<Seq<u8>>>, more: Seq<Option<Seq<u8>>>)
    ensures
        0 <= reply_of(samples).tokens <= MAX_GENERATED_TOKENS,
        !is_open(reply_of(samples)) ==> reply_of(samples + more) == reply_of(samples),
        samples.len() >= MAX_GENERATED_TOKENS ==> !is_open(reply_of(samples)),
    decreases samples.len() + more.len(),
{
    lemma_reply_progress(samples);
    if more.len() > 0 {
        replies_are_bounded(samples, more.drop_last());
        assert((samples + more).drop_last() =~= samples + more.drop_last());
    } else {
        assert(samples + more =~= samples);
    }
}

proof fn lemma_reply_progress(samples: Seq<Option<Seq<u8>>>)
    ensures
        0 <= reply_of(samples).tokens <= MAX_GENERATED_TOKENS,
        is_open(reply_of(samples)) ==> reply_of(samples).tokens == samples.len(),
    decreases samples.len(),
{
    if samples.len() > 0 {
        lemma_reply_progress(samples.drop_last());
    }
}

/// A prompt is fed whole and in order: the parts are non-empty, at most `batch`
/// long, and each starts where the one before it ends, up to the last token.
pub proof fn chunks_cover_the_prompt(from: int, tokens: int, batch: int, k: int)
    requires
        0 <= from,
        tokens <= usize::MAX,
        batch > 0,
        0 <= k < chunks_from(from, tokens, batch).len(),
    ensures
        ({
            let all = chunks_from(from, tokens, batch);
            &&& all[k].0 < all[k].1
            &&& all[k].1 - all[k].0 <= batch
            &&& all[k].0 == if k == 0 {
                from
            } else {
                all[k - 1].1 as int
            }
            &&& k == all.len() - 1 ==> all[k].1 == tokens
        }),
    decreases tokens - from,
{
    let all = chunks_from(from, tokens, batch);
    if tokens - from > batch {
        let rest = chunks_from(from + batch, tokens, batch);
        if k > 0 {
            assert(all[k] == rest[k - 1]);
            chunks_cover_the_prompt(from + batch, tokens, batch, k - 1);
            if k > 1 {
                assert(all[k - 1] == rest[k - 2]);
            }
        } else {
            assert(rest.len() > 0);
        }
    }
}

/// Brackets count where they stand outside a string. A quote opens a string and,
/// unless a backslash stands before it there, closes it; within a string nothing
/// else counts.
pub proof fn brackets_count_outside_strings(s: Seq<char>, c: char, open: char, close: char)
    requires
        open != close,
        open != '"',
        close != '"',
    ensures
        ({
            let at = nesting(s, open, close);
            let next = nesting(s.push(c), open, close);
            &&& nesting(Seq::empty(), open, close) == (Nesting {
                depth: 0,
                quoted: false,
                escaped: false,
            })
            &&& at.quoted || at.escaped ==> next.depth == at.depth
            &&& !at.quoted && !at.escaped && c == open ==> next.depth == at.depth + 1
            &&& !at.quoted && !at.escaped && c == close ==> next.depth == at.depth - 1
            &&& c != open && c != close ==> next.depth == at.depth
            &&& !at.quoted && !at.escaped ==> next.quoted == (c == '"') && !next.escaped
            &&& at.escaped ==> next.quoted == at.quoted && !next.escaped
            &&& at.quoted && !at.escaped ==> next.quoted == (c != '"') && next.escaped == (c
                == '\\')
        }),
{
    assert(s.push(c).drop_last() =~= s);
}

/// A generated tag is kept trimmed and in lower case, where that leaves anything
/// and twelve are not yet kept.
pub proof fn generated_tags_are_cleaned(tags: Seq<Seq<char>>, t: Seq<char>)
    ensures
        kept_tags(Seq::empty()).len() == 0,
        ({
            let clean = text::lower(text::trimmed(t));
            kept_tags(tags.push(t)) == if clean.len() > 0 && kept_tags(tags).len() < 12 {
                kept_tags(tags).push(clean)
            } else {
                kept_tags(tags)
            }
        }),
{
    reveal(Seq::filter);
    let f = |t: Seq<char>| text::lower(text::trimmed(t));
    let keep = |t: Seq<char>| t.len() > 0;
    let all = tags.push(t).map_values(f);
    assert(all.drop_last() =~= tags.map_values(f));
    assert(all.last() == f(t));
    let before = tags.map_values(f).filter(keep);
    let after = all.filter(keep);
    if f(t).len() > 0 {
        assert(after =~= before.push(f(t)));
        if before.len() < 12 {
            assert(kept_tags(tags.push(t)) =~= kept_tags(tags).push(f(t)));
        } else {
            assert(kept_tags(tags.push(t)) =~= kept_tags(tags));
        }
    } else {
        assert(after =~= before);
    }
}

/// A generated summary is kept as its words, one blank between, where it has from
/// 1 to 24 of them; a longer one is dropped.
pub proof fn long_summaries_are_dropped(summary: Seq<char>)
    ensures
        1 <= text::words(summary).len() <= 24 ==> kept_summary(summary) == text::joined(
            text::words(summary),
            " "@,
        ),
        text::words(summary).len() > 24 || text::words(summary).len() == 0 ==> kept_summary(
            summary,
        ).len() == 0,
{
}

/// The label of a group is what the first entry under its number holds, trimmed;
/// there is none where no entry has its number or nothing is left of it.
pub proof fn labels_are_found_by_number(
    members: Seq<(Seq<char>, Seq<char>)>,
    number: nat,
    k: int,
)
    requires
        0 <= k <= members.len(),
        forall|m: int| 0 <= m < k ==> (#[trigger] members[m]).0 != text::decimal(number),
        k < members.len() ==> members[k].0 == text::decimal(number),
    ensures
        k == members.len() ==> label_for(members, number) is None,
        k < members.len() ==> ({
            let label = text::trimmed(members[k].1);
            label_for(members, number) == if label.len() > 0 {
                Some(label)
            } else {
                None
            }
        }),
{
    let pred = |m: (Seq<char>, Seq<char>)| m.0 == text::decimal(number);
    order::lemma_first_where(members, pred, 0);
    let at = order::first_where(members, pred, 0);
    if at < members.len() {
        assert(pred(members[at]));
    }
    if k < members.len() {
        assert(pred(members[k]));
    }
}

/// Labels are taken all or none: where every number from 1 on has one they come in
/// the order of the numbers, and where any has none there are none.
pub proof fn labels_come_by_number(members: Seq<(Seq<char>, Seq<char>)>, n: nat)
    ensures
        match labels_of(members, n) {
            Some(labels) => labels.len() == n && forall|i: int|
                0 <= i < n ==> label_for(members, (i + 1) as nat) == Some(#[trigger] labels[i]),
            None => exists|k: int|
                1 <= k <= n && (#[trigger] label_for(members, k as nat)) is None,
        },
{
    if let Some(labels) = labels_of(members, n) {
        assert forall|i: int| 0 <= i < n implies label_for(members, (i + 1) as nat) == Some(
            #[trigger] labels[i],
        ) by {
            assert(label_for(members, (i + 1) as nat) is Some);
        }
    }
}

/// A capability that the model names is kept where the vocabulary has it, read
/// without regard to case and outer whitespace, once and in the order named.
pub proof fn known_words_are_kept_in_order(
    entries: Seq<Seq<char>>,
    e: Seq<char>,
    vocabulary: Seq<Seq<char>>,
)
    ensures
        known_labels(Seq::empty(), vocabulary).len() == 0,
        ({
            let word = text::lower(text::trimmed(e));
            let before = known_labels(entries, vocabulary);
            known_labels(entries.push(e), vocabulary) == if vocabulary.contains(word)
                && !before.contains(word) {
                before.push(word)
            } else {
                before
            }
        }),
{
    assert(entries.push(e).drop_last() =~= entries);
}

/// Every word of the vocabulary that the model names is kept.
pub proof fn named_words_are_kept(
    entries: Seq<Seq<char>>,
    vocabulary: Seq<Seq<char>>,
    k: int,
)
    requires
        0 <= k < entries.len(),
        vocabulary.contains(text::lower(text::trimmed(entries[k]))),
    ensures
        known_labels(entries, vocabulary).contains(text::lower(text::trimmed(entries[k]))),
    decreases entries.len(),
{
    let rest = entries.drop_last();
    let kept = known_labels(rest, vocabulary);
    let out = known_labels(entries, vocabulary);
    let word = text::lower(text::trimmed(entries[k]));
    if k < rest.len() {
        assert(rest[k] == entries[k]);
        named_words_are_kept(rest, vocabulary, k);
    }
    if kept.contains(word) {
        let i = choose|i: int| 0 <= i < kept.len() && kept[i] == word;
        assert(out[i] == word);
    } else {
        assert(out[kept.len() as int] == word);
    }
}

/// A prompt holds the instructions in the system's turn and what they are about in
/// the user's, and ends where the reply is to start.
pub proof fn prompts_take_turns(instructions: Seq<char>, user: Seq<char>)
    ensures
        ({
            let p = prompt_of(instructions, user);
            let head = SYSTEM_TURN@ + instructions + USER_TURN@;
            &&& p.len() == head.len() + user.len() + REPLY_TURN@.len()
            &&& p.take(head.len() as int) == head
            &&& p.subrange(head.len() as int, (head.len() + user.len()) as int) == user
            &&& p.skip((head.len() + user.len()) as int) == REPLY_TURN@
        }),
{
    let p = prompt_of(instructions, user);
    let head = SYSTEM_TURN@ + instructions + USER_TURN@;
    assert(p.take(head.len() as int) =~= head);
    assert(p.subrange(head.len() as int, (head.len() + user.len()) as int) =~= user);
    assert(p.skip((head.len() + user.len()) as int) =~= REPLY_TURN@);
}

/// Groups share the context evenly: each gets as much as fits them all into 9000
/// characters, but never more than 800.
pub proof fn groups_share_the_context(n: int)
    requires
        n > 0,
    ensures
        0 <= group_budget(n) <= 800,
        n * group_budget(n) <= 9000,
        group_budget(n) < 800 ==> 9000 < n * (group_budget(n) + 1),
{
    let q = 9000int / n;
    assert(n * q <= 9000 < n * (q + 1) && 0 <= q) by (nonlinear_arith)
        requires
            q == 9000int / n,
            n > 0,
    ;
    if q >= 800 {
        assert(n * 800 <= n * q) by (nonlinear_arith)
            requires
                n > 0,
                q >= 800,
        ;
    }
}

/// The model sees the groups numbered from 1, in order, each cut to its share.
pub proof fn groups_are_numbered_from_one(contexts: Seq<Seq<char>>, i: int)
    requires
        0 <= i < contexts.len(),
    ensures
        numbered_groups(contexts).len() == contexts.len(),
        ({
            let share = group_budget(contexts.len() as int);
            let shown = if contexts[i].len() <= share {
                contexts[i]
            } else {
                contexts[i].take(share)
            };
            numbered_groups(contexts)[i] == "Group "@ + text::decimal((i + 1) as nat) + ":\n"@
                + shown + "\n"@
        }),
{
}

/// Every part of a prompt but the last is as large as a batch, and an empty prompt
/// has no parts.
pub proof fn chunks_fill_their_batches(from: int, tokens: int, batch: int, k: int)
    requires
        0 <= from,
        tokens <= usize::MAX,
        batch > 0,
    ensures
        from >= tokens ==> chunks_from(from, tokens, batch).len() == 0,
        from < tokens ==> chunks_from(from, tokens, batch).len() > 0,
        0 <= k < chunks_from(from, tokens, batch).len() - 1 ==> chunks_from(from, tokens, batch)[k].1
            - chunks_from(from, tokens, batch)[k].0 == batch,
    decreases tokens - from,
{
    if from < tokens && tokens - from > batch {
        chunks_fill_their_batches(from + batch, tokens, batch, k - 1);
        let rest = chunks_from(from + batch, tokens, batch);
        if 0 < k < rest.len() {
            assert(chunks_from(from, tokens, batch)[k] == rest[k - 1]);
        }
    }
}

/// A reply grows by the bytes of each token the model gives, until the model ends
/// it or it has 320 tokens; what comes after that is not taken.
pub proof fn replies_grow_token_by_token(samples: Seq<Option<Seq<u8>>>, sample: Option<Seq<u8>>)
    ensures
        reply_of(Seq::empty()) == (ReplyView { bytes: Seq::empty(), tokens: 0, ended: false }),
        ({
            let before = reply_of(samples);
            let after = reply_of(samples.push(sample));
            let full = before.ended || before.tokens >= 320;
            &&& full ==> after == before
            &&& !full ==> match sample {
                Some(piece) => after.bytes == before.bytes + piece && after.tokens == before.tokens
                    + 1 && !after.ended,
                None => after.bytes == before.bytes && after.tokens == before.tokens && after.ended,
            }
        }),
{
    assert(samples.push(sample).drop_last() =~= samples);
}

/// The first object of a reply is the first thing in braces, and its first list the
/// first in square brackets, whatever stands around it.
pub proof fn replies_hold_objects_and_lists(
    before: Seq<char>,
    value: Seq<char>,
    behind: Seq<char>,
)
    ensures
        !before.contains('{') && is_bracketed(value, '{', '}') ==> object_in(
            before + value + behind,
        ) == Some(value),
        !before.contains('[') && is_bracketed(value, '[', ']') ==> list_in(before + value + behind)
            == Some(value),
        !before.contains('{') ==> object_in(before) is None,
        !before.contains('[') ==> list_in(before) is None,
{
    if !before.contains('{') {
        if is_bracketed(value, '{', '}') {
            first_value_is_taken(before, value, behind, '{', '}');
        }
        lemma_nothing_bracketed(before, '{', '}');
    }
    if !before.contains('[') {
        if is_bracketed(value, '[', ']') {
            first_value_is_taken(before, value, behind, '[', ']');
        }
        lemma_nothing_bracketed(before, '[', ']');
    }
}

proof fn lemma_nothing_bracketed(s: Seq<char>, open: char, close: char)
    requires
        !s.contains(open),
    ensures
        bracketed_in(s, open, close) is None,
{
    text::lemma_find_from(s, open, 0);
    let n = text::find_from(s, open, 0);
    if n < s.len() {
        assert(s[n] == open);
    }
    assert(s.skip(n).len() == 0);
}

/// A cleaned reply has the summary and the tags that are worth keeping.
pub proof fn replies_are_cleaned(parsed: &TagResult, r: TagResult)
    requires
        call_ensures(clean_tag_result, (parsed,), r),
    ensures
        r.deep_view().summary == kept_summary(parsed.deep_view().summary),
        r.deep_view().tags == kept_tags(parsed.deep_view().tags),
{
}

/// Labels are read from the first object of a reply, capabilities from its first
/// list; a reply without one, or with one that cannot be read, gives none.
pub proof fn replies_are_read_from_their_json(
    raw: &str,
    n: usize,
    labels: Option<Vec<String>>,
    vocabulary: &[&str],
    words: Vec<String>,
)
    requires
        call_ensures(parse_labels, (raw, n), labels),
        call_ensures(parse_capabilities, (raw, vocabulary), words),
    ensures
        labels matches Some(v) ==> (object_in(raw@) matches Some(json) && json_members(
            json,
        ) matches Some(members) && labels_of(members, n as nat) == Some(v.deep_view())),
        object_in(raw@) matches Some(json) ==> (json_members(json) matches Some(members)
            ==> labels.deep_view() == labels_of(members, n as nat)),
        words.len() > 0 ==> (list_in(raw@) matches Some(json) && json_strings(json) is Some),
        list_in(raw@) matches Some(json) ==> (json_strings(json) matches Some(entries)
            ==> words.deep_view() == known_labels(entries, vocabulary.deep_view())),
{
    assert(words.deep_view().len() == words.len());
    if let Some(v) = labels {
        assert(labels.deep_view() == Some(v.deep_view()));
    }
}

/// A reply takes another token until it has ended or has 320 of them. A token adds
/// its bytes and counts; the end adds nothing.
pub proof fn replies_take_tokens_until_they_end(reply: ReplyView, sample: Option<Seq<u8>>)
    ensures
        is_open(reply) <==> !reply.ended && reply.tokens < 320,
        sample matches Some(piece) ==> continued(reply, sample).bytes == reply.bytes + piece
            && continued(reply, sample).tokens == reply.tokens + 1 && continued(reply, sample).ended
            == reply.ended,
        sample is None ==> continued(reply, sample).bytes == reply.bytes && continued(
            reply,
            sample,
        ).tokens == reply.tokens && continued(reply, sample).ended,
{
}

/// The model is asked about the first 9000 characters of what there is.
pub proof fn prompts_hold_the_first_characters(
    context: &str,
    tags: String,
    intent: &str,
    vocabulary: &[&str],
    words: String,
)
    requires
        call_ensures(tag_prompt, (context,), tags),
        call_ensures(capability_prompt, (intent, vocabulary), words),
    ensures
        ({
            let said = if context@.len() <= 9000 {
                context@
            } else {
                context@.take(9000)
            };
            tags@ == prompt_of(TAG_INSTRUCTIONS@, said)
        }),
        ({
            let said = if intent@.len() <= 9000 {
                intent@
            } else {
                intent@.take(9000)
            };
            words@ == prompt_of(
                CAPABILITY_INSTRUCTIONS@ + text::joined(vocabulary.deep_view(), ", "@)
                    + CAPABILITY_EXAMPLE@,
                said,
            )
        }),
{
}

/// The model is asked for as many labels as there are groups and sees each of
/// them, in order.
pub proof fn label_prompts_show_every_group(contexts: &Vec<String>, r: String)
    requires
        contexts.len() > 0,
        call_ensures(label_prompt, (contexts,), r),
    ensures
        r@ == prompt_of(
            LABEL_INSTRUCTIONS@ + text::decimal(contexts.len() as nat) + LABEL_EXAMPLE@,
            text::joined(numbered_groups(contexts.deep_view()), "\n"@),
        ),
        numbered_groups(contexts.deep_view()).len() == contexts.len(),
{
    assert(contexts.deep_view().len() == contexts.len());
}

} // verus!

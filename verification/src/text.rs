//! Text primitives the rules are written with.
//!
//! A string is modelled as the sequence of its characters (`s@`). The spec
//! functions here say what each operation yields on such sequences; the
//! executable functions compute it.

use vstd::prelude::*;

use crate::order;

verus! {

/// `String::push`: appends one character at the end.
pub assume_specification[ String::push ](s: &mut String, c: char)
    ensures
        final(s)@ == old(s)@.push(c),
;

/// Name for what `char::is_whitespace` answers: whether the character has the
/// Unicode `White_Space` property.
pub uninterp spec fn is_space(c: char) -> bool;

/// `char::is_whitespace`, a fixed property of the character; the table of
/// characters behind it is left unsaid.
pub assume_specification[ char::is_whitespace ](c: char) -> (r: bool)
    ensures
        r == is_space(c),
;

/// Name for the Unicode lowercase mapping of a text.
pub uninterp spec fn lower(s: Seq<char>) -> Seq<char>;

/// `str::to_lowercase`, a function of the text alone; the Unicode mapping
/// itself is left unsaid.
pub assume_specification[ str::to_lowercase ](s: &str) -> (r: String)
    ensures
        r@ == lower(s@),
;

/// The characters of a string, in order.
pub fn chars_of(s: &str) -> (r: Vec<char>)
    ensures
        r@ == s@,
{
    let mut out: Vec<char> = Vec::new();
    for c in it: s.chars()
        invariant
            out@ == it.seq().take(it.index() as int),
            it.seq() == s@,
    {
        out.push(c);
        assert(it.seq().take(it.index() + 1) =~= it.seq().take(it.index() as int).push(c));
    }
    assert(s@.take(s@.len() as int) =~= s@);
    out
}

/// The string spelled by `v[from..to]`.
pub fn string_of(v: &Vec<char>, from: usize, to: usize) -> (r: String)
    requires
        from <= to <= v@.len(),
    ensures
        r@ == v@.subrange(from as int, to as int),
{
    let mut out = String::new();
    let mut i: usize = from;
    assert(v@.subrange(from as int, from as int) =~= Seq::<char>::empty());
    while i < to
        invariant
            from <= i <= to <= v@.len(),
            out@ == v@.subrange(from as int, i as int),
        decreases to - i,
    {
        out.push(v[i]);
        assert(v@.subrange(from as int, i + 1) =~= v@.subrange(from as int, i as int).push(
            v@[i as int],
        ));
        i = i + 1;
    }
    out
}

/// Equality of two texts.
pub fn str_eq(a: &str, b: &str) -> (r: bool)
    ensures
        r == (a@ == b@),
{
    a.to_owned() == b.to_owned()
}

/// Whether `s` starts with `prefix`.
pub open spec fn has_prefix(s: Seq<char>, prefix: Seq<char>) -> bool {
    prefix.len() <= s.len() && s.take(prefix.len() as int) == prefix
}

/// Index of the first `c` at or after `i`, or `s.len()` when there is none.
pub open spec fn find_from(s: Seq<char>, c: char, i: int) -> int
    decreases s.len() - i,
{
    if i < 0 || i >= s.len() {
        s.len() as int
    } else if s[i] == c {
        i
    } else {
        find_from(s, c, i + 1)
    }
}

/// `find_from` is the first hit: in range, nothing before it matches, and it
/// matches itself unless it is the end.
pub proof fn lemma_find_from(s: Seq<char>, c: char, i: int)
    requires
        0 <= i <= s.len(),
    ensures
        i <= find_from(s, c, i) <= s.len(),
        find_from(s, c, i) < s.len() ==> s[find_from(s, c, i)] == c,
        forall|j: int| i <= j < find_from(s, c, i) ==> s[j] != c,
    decreases s.len() - i,
{
    if i < s.len() && s[i] != c {
        lemma_find_from(s, c, i + 1);
    }
}

/// Index of the last `c` before `i`, or -1 when there is none.
pub open spec fn rfind_before(s: Seq<char>, c: char, i: int) -> int
    decreases i,
{
    if i <= 0 || i > s.len() {
        -1
    } else if s[i - 1] == c {
        i - 1
    } else {
        rfind_before(s, c, i - 1)
    }
}

/// `rfind_before` is the last hit: nothing after it matches, and it matches
/// itself unless it is -1.
pub proof fn lemma_rfind_before(s: Seq<char>, c: char, i: int)
    requires
        0 <= i <= s.len(),
    ensures
        -1 <= rfind_before(s, c, i) < i || i == 0 && rfind_before(s, c, i) == -1,
        rfind_before(s, c, i) >= 0 ==> s[rfind_before(s, c, i)] == c,
        forall|j: int| rfind_before(s, c, i) < j < i ==> s[j] != c,
    decreases i,
{
    if i > 0 && s[i - 1] != c {
        lemma_rfind_before(s, c, i - 1);
    }
}

/// What stands before the first `c`; the whole text when there is none.
pub open spec fn before_first(s: Seq<char>, c: char) -> Seq<char> {
    s.take(find_from(s, c, 0))
}

/// What stands after the last `c`; the whole text when there is none.
pub open spec fn after_last(s: Seq<char>, c: char) -> Seq<char> {
    s.skip(rfind_before(s, c, s.len() as int) + 1)
}

/// Index of the first `c` in `v` at or after `from`; `v.len()` when absent.
pub fn find_char(v: &Vec<char>, c: char, from: usize) -> (r: usize)
    requires
        from <= v@.len(),
    ensures
        r == find_from(v@, c, from as int),
        from <= r <= v@.len(),
{
    let mut i: usize = from;
    while i < v.len()
        invariant
            from <= i <= v@.len(),
            find_from(v@, c, from as int) == find_from(v@, c, i as int),
        decreases v@.len() - i,
    {
        if v[i] == c {
            return i;
        }
        i = i + 1;
    }
    i
}

/// Number of characters up to and counting the last `c` in `v`; 0 when absent.
pub fn end_of_last(v: &Vec<char>, c: char) -> (r: usize)
    ensures
        r == rfind_before(v@, c, v@.len() as int) + 1,
        r <= v@.len(),
{
    let mut i: usize = v.len();
    while i > 0
        invariant
            i <= v@.len(),
            rfind_before(v@, c, v@.len() as int) == rfind_before(v@, c, i as int),
        decreases i,
    {
        if v[i - 1] == c {
            return i;
        }
        i = i - 1;
    }
    i
}

/// Length of `s` with every trailing `c` dropped.
pub open spec fn trimmed_len(s: Seq<char>, c: char, n: int) -> int
    decreases n,
{
    if n <= 0 || n > s.len() || s[n - 1] != c {
        n
    } else {
        trimmed_len(s, c, n - 1)
    }
}

/// `s` with every trailing `c` dropped.
pub open spec fn trim_end_char(s: Seq<char>, c: char) -> Seq<char> {
    s.take(trimmed_len(s, c, s.len() as int))
}

/// Bounds of `trimmed_len`.
pub proof fn lemma_trimmed_len(s: Seq<char>, c: char, n: int)
    requires
        0 <= n <= s.len(),
    ensures
        0 <= trimmed_len(s, c, n) <= n,
        trimmed_len(s, c, n) > 0 ==> s[trimmed_len(s, c, n) - 1] != c,
    decreases n,
{
    if n > 0 && s[n - 1] == c {
        lemma_trimmed_len(s, c, n - 1);
    }
}

/// Number of leading characters of `v` left when trailing `c`s are dropped.
pub fn len_without_trailing(v: &Vec<char>, c: char) -> (r: usize)
    ensures
        r == trimmed_len(v@, c, v@.len() as int),
        r <= v@.len(),
{
    let mut n: usize = v.len();
    while n > 0 && v[n - 1] == c
        invariant
            n <= v@.len(),
            trimmed_len(v@, c, v@.len() as int) == trimmed_len(v@, c, n as int),
        decreases n,
    {
        n = n - 1;
    }
    n
}

/// Index of the first character at or after `i` that is no whitespace.
pub open spec fn skip_space(s: Seq<char>, i: int) -> int
    decreases s.len() - i,
{
    if i < 0 || i >= s.len() || !is_space(s[i]) {
        i
    } else {
        skip_space(s, i + 1)
    }
}

/// Index of the first whitespace character at or after `i`.
pub open spec fn skip_word(s: Seq<char>, i: int) -> int
    decreases s.len() - i,
{
    if i < 0 || i >= s.len() || is_space(s[i]) {
        i
    } else {
        skip_word(s, i + 1)
    }
}

/// End of the text that ends at `n` once trailing whitespace is dropped.
pub open spec fn unspaced_len(s: Seq<char>, n: int) -> int
    decreases n,
{
    if n <= 0 || n > s.len() || !is_space(s[n - 1]) {
        n
    } else {
        unspaced_len(s, n - 1)
    }
}

/// Bounds of `skip_space` and `skip_word`.
pub proof fn lemma_skip(s: Seq<char>, i: int)
    requires
        0 <= i <= s.len(),
    ensures
        i <= skip_space(s, i) <= s.len(),
        i <= skip_word(s, i) <= s.len(),
    decreases s.len() - i,
{
    if i < s.len() {
        lemma_skip(s, i + 1);
    }
}

/// Trimming from the end never crosses a character that is no whitespace.
pub proof fn lemma_unspaced_len(s: Seq<char>, n: int)
    requires
        0 <= n <= s.len(),
    ensures
        0 <= unspaced_len(s, n) <= n,
        forall|j: int| 0 <= j < n && !is_space(s[j]) ==> j < unspaced_len(s, n),
    decreases n,
{
    if n > 0 && is_space(s[n - 1]) {
        lemma_unspaced_len(s, n - 1);
    }
}

/// `s` with leading and trailing whitespace dropped.
pub open spec fn trimmed(s: Seq<char>) -> Seq<char> {
    let from = skip_space(s, 0);
    let to = unspaced_len(s, s.len() as int);
    if from >= s.len() {
        Seq::empty()
    } else {
        s.subrange(from, to)
    }
}

/// `s` with trailing whitespace dropped.
pub open spec fn trimmed_end(s: Seq<char>) -> Seq<char> {
    s.take(unspaced_len(s, s.len() as int))
}

/// `skip_space` stops at a character that is no whitespace, or at the end.
pub proof fn lemma_skip_space_stop(s: Seq<char>, i: int)
    requires
        0 <= i <= s.len(),
    ensures
        skip_space(s, i) < s.len() ==> !is_space(s[skip_space(s, i)]),
    decreases s.len() - i,
{
    if i < s.len() && is_space(s[i]) {
        lemma_skip_space_stop(s, i + 1);
    }
}

fn after_space(v: &Vec<char>, from: usize) -> (r: usize)
    requires
        from <= v@.len(),
    ensures
        r == skip_space(v@, from as int),
        from <= r <= v@.len(),
{
    let mut i: usize = from;
    while i < v.len() && v[i].is_whitespace()
        invariant
            from <= i <= v@.len(),
            skip_space(v@, from as int) == skip_space(v@, i as int),
        decreases v@.len() - i,
    {
        i = i + 1;
    }
    i
}

fn after_word(v: &Vec<char>, from: usize) -> (r: usize)
    requires
        from <= v@.len(),
    ensures
        r == skip_word(v@, from as int),
        from <= r <= v@.len(),
{
    let mut i: usize = from;
    while i < v.len() && !v[i].is_whitespace()
        invariant
            from <= i <= v@.len(),
            skip_word(v@, from as int) == skip_word(v@, i as int),
        decreases v@.len() - i,
    {
        i = i + 1;
    }
    i
}

fn len_without_space(v: &Vec<char>) -> (r: usize)
    ensures
        r == unspaced_len(v@, v@.len() as int),
        r <= v@.len(),
{
    let mut n: usize = v.len();
    while n > 0 && v[n - 1].is_whitespace()
        invariant
            n <= v@.len(),
            unspaced_len(v@, v@.len() as int) == unspaced_len(v@, n as int),
        decreases n,
    {
        n = n - 1;
    }
    n
}

/// Drops leading and trailing whitespace.
pub fn trim(s: &str) -> (r: String)
    ensures
        r@ == trimmed(s@),
{
    let v = chars_of(s);
    let from: usize = after_space(&v, 0);
    if from >= v.len() {
        return String::new();
    }
    let to: usize = len_without_space(&v);
    proof {
        lemma_skip_space_stop(v@, 0);
        lemma_unspaced_len(v@, v@.len() as int);
    }
    string_of(&v, from, to)
}

/// Drops trailing whitespace.
pub fn trim_end(s: &str) -> (r: String)
    ensures
        r@ == trimmed_end(s@),
{
    let v = chars_of(s);
    let to: usize = len_without_space(&v);
    string_of(&v, 0, to)
}

/// The words of `s` from `i` on: maximal runs free of whitespace.
pub open spec fn words_from(s: Seq<char>, i: int) -> Seq<Seq<char>>
    decreases s.len() - i,
{
    let a = skip_space(s, i);
    let b = skip_word(s, a);
    if i < 0 || a < i || a >= s.len() || b <= a || b > s.len() {
        Seq::empty()
    } else {
        seq![s.subrange(a, b)] + words_from(s, b)
    }
}

/// The words of `s`: what whitespace separates, in order.
pub open spec fn words(s: Seq<char>) -> Seq<Seq<char>> {
    words_from(s, 0)
}

/// Splits at whitespace into the words between.
pub fn split_words(s: &str) -> (r: Vec<String>)
    ensures
        r.deep_view() == words(s@),
{
    let v = chars_of(s);
    let mut out: Vec<String> = Vec::new();
    let mut i: usize = 0;
    assert(words(s@) =~= out.deep_view() + words_from(v@, 0));
    while i < v.len()
        invariant
            i <= v@.len(),
            v@ == s@,
            words(v@) == out.deep_view() + words_from(v@, i as int),
        decreases v@.len() - i,
    {
        let a: usize = after_space(&v, i);
        if a >= v.len() {
            assert(words_from(v@, i as int) =~= Seq::<Seq<char>>::empty());
            assert(out.deep_view() + words_from(v@, i as int) =~= out.deep_view());
            return out;
        }
        let b: usize = after_word(&v, a);
        proof {
            lemma_skip_space_stop(v@, i as int);
            lemma_skip(v@, a + 1);
        }
        assert(b > a);
        let ghost before = out.deep_view();
        out.push(string_of(&v, a, b));
        assert(out.deep_view() =~= before.push(v@.subrange(a as int, b as int)));
        assert(out.deep_view() + words_from(v@, b as int) =~= before + words_from(v@, i as int));
        i = b;
    }
    assert(words_from(v@, i as int) =~= Seq::<Seq<char>>::empty());
    assert(out.deep_view() + words_from(v@, i as int) =~= out.deep_view());
    out
}

/// `parts` laid end to end with `sep` between neighbours.
pub open spec fn joined(parts: Seq<Seq<char>>, sep: Seq<char>) -> Seq<char>
    decreases parts.len(),
{
    if parts.len() == 0 {
        Seq::empty()
    } else if parts.len() == 1 {
        parts[0]
    } else {
        joined(parts.drop_last(), sep) + sep + parts.last()
    }
}

/// Joins `parts` with `sep` between neighbours.
pub fn join(parts: &Vec<String>, sep: &str) -> (r: String)
    ensures
        r@ == joined(parts.deep_view(), sep@),
{
    let mut out = String::new();
    let mut i: usize = 0;
    let ghost all = parts.deep_view();
    assert(all.take(0) =~= Seq::<Seq<char>>::empty());
    while i < parts.len()
        invariant
            i <= parts.len(),
            all == parts.deep_view(),
            out@ == joined(all.take(i as int), sep@),
        decreases parts.len() - i,
    {
        if i > 0 {
            out.append(sep);
        }
        out.append(parts[i].as_str());
        assert(all.take(i + 1).drop_last() =~= all.take(i as int));
        assert(all.take(i + 1).last() == parts[i as int]@);
        if i == 0 {
            assert(out@ =~= parts[i as int]@);
        }
        i = i + 1;
    }
    assert(all.take(all.len() as int) =~= all);
    out
}

/// The digit character of `d`.
pub open spec fn digit(d: int) -> char {
    (48 + d) as char
}

/// `n` in decimal, without leading zeros.
pub open spec fn decimal(n: nat) -> Seq<char>
    decreases n,
{
    if n < 10 {
        seq![digit(n as int)]
    } else {
        decimal(n / 10).push(digit((n % 10) as int))
    }
}

/// Writes `n` in decimal.
pub fn decimal_of(n: u128) -> (r: String)
    ensures
        r@ == decimal(n as nat),
    decreases n,
{
    if n < 10 {
        let mut out = String::new();
        out.push((48u8 + n as u8) as char);
        assert(out@ =~= seq![digit(n as int)]);
        out
    } else {
        let mut out = decimal_of(n / 10);
        out.push((48u8 + (n % 10) as u8) as char);
        out
    }
}

/// Whether `v` holds the text `s`.
pub fn holds(v: &Vec<String>, s: &str) -> (r: bool)
    ensures
        r == v.deep_view().contains(s@),
{
    let mut i: usize = 0;
    while i < v.len()
        invariant
            i <= v.len(),
            forall|j: int| 0 <= j < i ==> v.deep_view()[j] != s@,
        decreases v.len() - i,
    {
        if str_eq(v[i].as_str(), s) {
            assert(v.deep_view()[i as int] == s@);
            return true;
        }
        i = i + 1;
    }
    false
}

/// First occurrences, in order, with empty texts dropped.
pub open spec fn distinct_of(items: Seq<Seq<char>>) -> Seq<Seq<char>>
    decreases items.len(),
{
    if items.len() == 0 {
        Seq::empty()
    } else {
        let kept = distinct_of(items.drop_last());
        if items.last().len() == 0 || kept.contains(items.last()) {
            kept
        } else {
            kept.push(items.last())
        }
    }
}

/// Order-preserving removal of repeats that drops empty strings.
pub fn distinct(items: Vec<String>) -> (r: Vec<String>)
    ensures
        r.deep_view() == distinct_of(items.deep_view()),
{
    let mut seen: Vec<String> = Vec::new();
    let mut i: usize = 0;
    let ghost all = items.deep_view();
    assert(all.take(0) =~= Seq::<Seq<char>>::empty());
    assert(seen.deep_view() =~= Seq::<Seq<char>>::empty());
    while i < items.len()
        invariant
            i <= items.len(),
            all == items.deep_view(),
            seen.deep_view() == distinct_of(all.take(i as int)),
        decreases items.len() - i,
    {
        assert(all.take(i + 1).drop_last() =~= all.take(i as int));
        assert(all.take(i + 1).last() == items[i as int]@);
        if !items[i].as_str().is_empty() && !holds(&seen, items[i].as_str()) {
            let ghost before = seen.deep_view();
            seen.push(items[i].clone());
            assert(seen.deep_view() =~= before.push(items[i as int]@));
        }
        i = i + 1;
    }
    assert(all.take(all.len() as int) =~= all);
    seen
}

/// `distinct_of` repeats nothing, drops every empty text, and keeps exactly
/// the texts that occur.
pub proof fn lemma_distinct(items: Seq<Seq<char>>)
    ensures
        distinct_of(items).no_duplicates(),
        distinct_of(items).len() <= items.len(),
        forall|x: Seq<char>| #[trigger]
            distinct_of(items).contains(x) <==> x.len() > 0 && items.contains(x),
    decreases items.len(),
{
    if items.len() > 0 {
        let rest = items.drop_last();
        let last = items.last();
        lemma_distinct(rest);
        let kept = distinct_of(rest);
        assert(items =~= rest.push(last));
        assert forall|x: Seq<char>| #[trigger] distinct_of(items).contains(x) <==> x.len() > 0
            && items.contains(x) by {
            lemma_push_contains(rest, last, x);
            lemma_push_contains(kept, last, x);
        }
    }
}

/// First occurrences, in order.
pub open spec fn unique_of(items: Seq<Seq<char>>) -> Seq<Seq<char>>
    decreases items.len(),
{
    if items.len() == 0 {
        Seq::empty()
    } else {
        let kept = unique_of(items.drop_last());
        if kept.contains(items.last()) {
            kept
        } else {
            kept.push(items.last())
        }
    }
}

/// Order-preserving removal of repeats.
pub fn unique(items: &Vec<String>) -> (r: Vec<String>)
    ensures
        r.deep_view() == unique_of(items.deep_view()),
{
    let mut seen: Vec<String> = Vec::new();
    let mut i: usize = 0;
    let ghost all = items.deep_view();
    assert(all.take(0) =~= Seq::<Seq<char>>::empty());
    assert(seen.deep_view() =~= Seq::<Seq<char>>::empty());
    while i < items.len()
        invariant
            i <= items.len(),
            all == items.deep_view(),
            seen.deep_view() == unique_of(all.take(i as int)),
        decreases items.len() - i,
    {
        proof {
            lemma_take_step(all, i as int);
        }
        if !holds(&seen, items[i].as_str()) {
            let ghost before = seen.deep_view();
            seen.push(items[i].clone());
            assert(seen.deep_view() =~= before.push(items[i as int]@));
        }
        i = i + 1;
    }
    assert(all.take(all.len() as int) =~= all);
    seen
}

/// `unique_of` repeats nothing and keeps exactly the texts that occur.
pub proof fn lemma_unique(items: Seq<Seq<char>>)
    ensures
        unique_of(items).no_duplicates(),
        forall|x: Seq<char>| #[trigger] unique_of(items).contains(x) <==> items.contains(x),
    decreases items.len(),
{
    if items.len() > 0 {
        let rest = items.drop_last();
        let last = items.last();
        lemma_unique(rest);
        let kept = unique_of(rest);
        assert(items =~= rest.push(last));
        assert forall|x: Seq<char>| #[trigger] unique_of(items).contains(x) <==> items.contains(
            x,
        ) by {
            lemma_push_contains(rest, last, x);
            lemma_push_contains(kept, last, x);
        }
    }
}

proof fn lemma_push_contains<A>(s: Seq<A>, last: A, x: A)
    ensures
        s.push(last).contains(x) <==> s.contains(x) || x == last,
{
    assert(s.push(last)[s.len() as int] == last);
    if s.contains(x) {
        let j = choose|j: int| 0 <= j < s.len() && s[j] == x;
        assert(s.push(last)[j] == x);
    }
    if s.push(last).contains(x) {
        let j = choose|j: int| 0 <= j < s.push(last).len() && s.push(last)[j] == x;
        if j < s.len() {
            assert(s[j] == x);
        }
    }
}

/// What `f` yields for each entry of `s`, one after the other.
pub open spec fn gathered<A, B>(s: Seq<A>, f: spec_fn(A) -> Seq<B>) -> Seq<B>
    decreases s.len(),
{
    if s.len() == 0 {
        Seq::empty()
    } else {
        gathered(s.drop_last(), f) + f(s.last())
    }
}

/// Gathering from one entry.
pub proof fn lemma_gathered_one<A, B>(a: A, f: spec_fn(A) -> Seq<B>)
    ensures
        gathered(seq![a], f) == f(a),
{
    assert(seq![a].drop_last() =~= Seq::<A>::empty());
    assert(gathered(seq![a].drop_last(), f) =~= Seq::<B>::empty());
    assert(gathered(seq![a], f) =~= f(a));
}

/// Gathering one thing from each entry yields those things in order.
pub proof fn lemma_gathered_singles<A, B>(s: Seq<A>, f: spec_fn(A) -> Seq<B>, out: Seq<B>)
    requires
        s.len() == out.len(),
        forall|i: int| 0 <= i < s.len() ==> f(#[trigger] s[i]) == seq![out[i]],
    ensures
        gathered(s, f) == out,
    decreases s.len(),
{
    if s.len() > 0 {
        let rest = s.drop_last();
        assert forall|i: int| 0 <= i < rest.len() implies f(#[trigger] rest[i]) == seq![
            out.drop_last()[i],
        ] by {
            assert(rest[i] == s[i]);
        }
        lemma_gathered_singles(rest, f, out.drop_last());
        assert(f(s[s.len() - 1]) == seq![out.last()]);
    }
    assert(gathered(s, f) =~= out);
}

/// Gathering the same from each entry yields the same.
pub proof fn lemma_gathered_same<A, B>(s: Seq<A>, t: Seq<A>, f: spec_fn(A) -> Seq<B>)
    requires
        s.len() == t.len(),
        forall|i: int| 0 <= i < t.len() ==> f(#[trigger] s[i]) == f(t[i]),
    ensures
        gathered(s, f) == gathered(t, f),
    decreases s.len(),
{
    if s.len() > 0 {
        assert forall|i: int| 0 <= i < t.drop_last().len() implies f(#[trigger] s.drop_last()[i])
            == f(t.drop_last()[i]) by {
            assert(s.drop_last()[i] == s[i]);
        }
        lemma_gathered_same(s.drop_last(), t.drop_last(), f);
        assert(f(s[s.len() - 1]) == f(t.last()));
    }
}

/// What is done to everything gathered can be done where it is gathered.
pub proof fn lemma_gathered_mapped<A, B, C>(
    s: Seq<A>,
    f: spec_fn(A) -> Seq<B>,
    g: spec_fn(B) -> C,
    h: spec_fn(A) -> Seq<C>,
)
    requires
        forall|a: A| #[trigger] h(a) == f(a).map_values(g),
    ensures
        gathered(s, f).map_values(g) == gathered(s, h),
    decreases s.len(),
{
    if s.len() > 0 {
        lemma_gathered_mapped(s.drop_last(), f, g, h);
        assert(h(s.last()) == f(s.last()).map_values(g));
    }
    assert(gathered(s, f).map_values(g) =~= gathered(s, h));
}

/// Gathering of two parts is gathering of the whole.
pub proof fn lemma_gathered_add<A, B>(a: Seq<A>, b: Seq<A>, f: spec_fn(A) -> Seq<B>)
    ensures
        gathered(a + b, f) == gathered(a, f) + gathered(b, f),
    decreases b.len(),
{
    if b.len() == 0 {
        assert(a + b =~= a);
        assert(gathered(a, f) + gathered(b, f) =~= gathered(a, f));
    } else {
        lemma_gathered_add(a, b.drop_last(), f);
        assert((a + b).drop_last() =~= a + b.drop_last());
        assert(gathered(a + b, f) =~= gathered(a, f) + gathered(b, f));
    }
}

/// Where an entry of `gathered` comes from.
pub proof fn lemma_gathered_from<A, B>(s: Seq<A>, f: spec_fn(A) -> Seq<B>, j: int) -> (r: (
    int,
    int,
))
    requires
        0 <= j < gathered(s, f).len(),
    ensures
        0 <= r.0 < s.len(),
        0 <= r.1 < f(s[r.0]).len(),
        gathered(s, f)[j] == f(s[r.0])[r.1],
    decreases s.len(),
{
    let head = gathered(s.drop_last(), f);
    if j < head.len() {
        let r = lemma_gathered_from(s.drop_last(), f, j);
        assert(s.drop_last()[r.0] == s[r.0]);
        assert(gathered(s, f)[j] == head[j]);
        r
    } else {
        assert(gathered(s, f)[j] == f(s.last())[j - head.len()]);
        (s.len() - 1, j - head.len())
    }
}

/// Whatever `f` yields for an entry is in `gathered`.
pub proof fn lemma_gathered_contains<A, B>(s: Seq<A>, f: spec_fn(A) -> Seq<B>, i: int, j: int)
    requires
        0 <= i < s.len(),
        0 <= j < f(s[i]).len(),
    ensures
        gathered(s, f).contains(f(s[i])[j]),
    decreases s.len(),
{
    let head = gathered(s.drop_last(), f);
    if i == s.len() - 1 {
        assert(gathered(s, f)[head.len() + j] == f(s[i])[j]);
    } else {
        assert(s.drop_last()[i] == s[i]);
        lemma_gathered_contains(s.drop_last(), f, i, j);
        let k = choose|k: int| 0 <= k < head.len() && head[k] == f(s[i])[j];
        assert(gathered(s, f)[k] == f(s[i])[j]);
    }
}

/// The first `n` entries; all of them when there are fewer.
pub open spec fn at_most<A>(s: Seq<A>, n: int) -> Seq<A> {
    if s.len() <= n {
        s
    } else {
        s.take(n)
    }
}

/// Lexicographic order on texts by character, from position `i` on.
pub open spec fn less_from(a: Seq<char>, b: Seq<char>, i: int) -> bool
    decreases b.len() - i,
{
    if i < 0 || i >= b.len() {
        false
    } else if i >= a.len() {
        true
    } else if a[i] != b[i] {
        a[i] < b[i]
    } else {
        less_from(a, b, i + 1)
    }
}

/// Lexicographic order on texts by character.
pub open spec fn less(a: Seq<char>, b: Seq<char>) -> bool {
    less_from(a, b, 0)
}

/// The order on texts is strict: never both ways round, and what comes before
/// one text comes before every text that does not come before that one.
pub proof fn lemma_less(a: Seq<char>, b: Seq<char>, c: Seq<char>, i: int)
    requires
        0 <= i,
        i <= a.len(),
        i <= b.len(),
        i <= c.len(),
    ensures
        less_from(a, b, i) ==> !less_from(b, a, i),
        less_from(a, b, i) && !less_from(c, b, i) ==> less_from(a, c, i),
    decreases b.len() - i,
{
    if i < a.len() && i < b.len() && i < c.len() && a[i] == b[i] && b[i] == c[i] {
        lemma_less(a, b, c, i + 1);
    } else if i < a.len() && i < b.len() && a[i] == b[i] {
        lemma_less(a, b, b, i + 1);
    }
}

/// Whether `a` comes before `b` in lexicographic order.
pub fn str_less(a: &str, b: &str) -> (r: bool)
    ensures
        r == less(a@, b@),
{
    let x = chars_of(a);
    let y = chars_of(b);
    let mut i: usize = 0;
    while i < y.len()
        invariant
            i <= y.len(),
            i <= x.len(),
            x@ == a@,
            y@ == b@,
            less(x@, y@) == less_from(x@, y@, i as int),
        decreases y.len() - i,
    {
        if i >= x.len() {
            return true;
        }
        if x[i] != y[i] {
            return x[i] < y[i];
        }
        i = i + 1;
    }
    false
}

/// Texts in ascending order.
pub open spec fn sorted(s: Seq<Seq<char>>) -> Seq<Seq<char>> {
    order::ordered(s, |a: Seq<char>, b: Seq<char>| less(a, b))
}

/// Sorts texts into ascending order.
pub fn sort(v: &Vec<String>) -> (r: Vec<String>)
    ensures
        r.deep_view() == sorted(v.deep_view()),
{
    let ghost all = v.deep_view();
    let ghost before = |a: Seq<char>, b: Seq<char>| less(a, b);
    let mut out: Vec<String> = Vec::new();
    let mut i: usize = 0;
    assert(out.deep_view() =~= order::ordered(all.take(0), before));
    while i < v.len()
        invariant
            i <= v.len(),
            all == v.deep_view(),
            before == (|a: Seq<char>, b: Seq<char>| less(a, b)),
            out.deep_view() == order::ordered(all.take(i as int), before),
        decreases v.len() - i,
    {
        let ghost now = out.deep_view();
        let ghost x = all[i as int];
        let mut k: usize = out.len();
        while k > 0 && str_less(v[i].as_str(), out[k - 1].as_str())
            invariant
                i < v.len(),
                k <= out.len(),
                now == out.deep_view(),
                all == v.deep_view(),
                x == all[i as int],
                before == (|a: Seq<char>, b: Seq<char>| less(a, b)),
                order::slot(now, x, before, now.len() as int) == order::slot(
                    now,
                    x,
                    before,
                    k as int,
                ),
            decreases k,
        {
            k = k - 1;
        }
        out.insert(k, v[i].clone());
        proof {
            lemma_take_step(all, i as int);
        }
        assert(out.deep_view() =~= now.insert(k as int, x));
        i = i + 1;
    }
    assert(all.take(all.len() as int) =~= all);
    out
}

/// Every entry but those equal to the one before them.
pub open spec fn collapsed(s: Seq<Seq<char>>) -> Seq<Seq<char>>
    decreases s.len(),
{
    if s.len() <= 1 {
        s
    } else if s.last() == s[s.len() - 2] {
        collapsed(s.drop_last())
    } else {
        collapsed(s.drop_last()).push(s.last())
    }
}

/// Drops every entry equal to the one before it.
pub fn collapse(v: &Vec<String>) -> (r: Vec<String>)
    ensures
        r.deep_view() == collapsed(v.deep_view()),
{
    let ghost all = v.deep_view();
    let mut out: Vec<String> = Vec::new();
    let mut i: usize = 0;
    assert(out.deep_view() =~= collapsed(all.take(0)));
    while i < v.len()
        invariant
            i <= v.len(),
            all == v.deep_view(),
            out.deep_view() == collapsed(all.take(i as int)),
        decreases v.len() - i,
    {
        let ghost before = out.deep_view();
        proof {
            lemma_take_step(all, i as int);
        }
        if i == 0 || !str_eq(v[i].as_str(), v[i - 1].as_str()) {
            out.push(v[i].clone());
            assert(out.deep_view() =~= before.push(all[i as int]));
            if i == 0 {
                assert(out.deep_view() =~= all.take(1));
            }
        }
        i = i + 1;
    }
    assert(all.take(all.len() as int) =~= all);
    out
}

/// Sorted and collapsed, texts stand in strictly ascending order, and exactly
/// those that occurred are left.
pub proof fn lemma_sorted_collapsed(s: Seq<Seq<char>>)
    ensures
        forall|i: int, j: int|
            0 <= i < j < collapsed(sorted(s)).len() ==> less(
                #[trigger] collapsed(sorted(s))[i],
                #[trigger] collapsed(sorted(s))[j],
            ),
        forall|x: Seq<char>| #[trigger]
            collapsed(sorted(s)).contains(x) <==> s.contains(x),
{
    let before = |a: Seq<char>, b: Seq<char>| less(a, b);
    let member = |a: Seq<char>| true;
    assert forall|a: Seq<char>, b: Seq<char>|
        member(a) && member(b) && #[trigger] before(a, b) implies !before(b, a) by {
        lemma_less(a, b, b, 0);
    }
    assert forall|a: Seq<char>, b: Seq<char>, c: Seq<char>|
        member(a) && member(b) && member(c) && #[trigger] before(a, b) && !#[trigger] before(
            c,
            b,
        ) implies before(a, c) by {
        lemma_less(a, b, c, 0);
    }
    order::lemma_ordered_is_ordered(s, before, member);
    order::lemma_ordered_contains(s, before);
    lemma_collapsed(sorted(s));
}

/// Texts in strictly ascending order are determined by which they are.
pub proof fn lemma_ascending_unique(a: Seq<Seq<char>>, b: Seq<Seq<char>>)
    requires
        forall|i: int, j: int| 0 <= i < j < a.len() ==> less(#[trigger] a[i], #[trigger] a[j]),
        forall|i: int, j: int| 0 <= i < j < b.len() ==> less(#[trigger] b[i], #[trigger] b[j]),
        forall|x: Seq<char>| #[trigger] a.contains(x) <==> b.contains(x),
    ensures
        a == b,
    decreases a.len(),
{
    if a.len() == 0 {
        if b.len() > 0 {
            assert(b.contains(b[0]));
            assert(a.contains(b[0]));
        }
        assert(a =~= b);
    } else {
        assert(a.contains(a.last()));
        assert(b.contains(a.last()));
        let k = choose|k: int| 0 <= k < b.len() && b[k] == a.last();
        assert(b.contains(b.last()));
        assert(a.contains(b.last()));
        let m = choose|m: int| 0 <= m < a.len() && a[m] == b.last();
        if a.last() != b.last() {
            assert(less(b[k], b[b.len() - 1]));
            assert(less(a[m], a[a.len() - 1]));
            lemma_less(a.last(), b.last(), b.last(), 0);
        }
        let x = a.drop_last();
        let y = b.drop_last();
        assert forall|i: int, j: int| 0 <= i < j < x.len() implies less(
            #[trigger] x[i],
            #[trigger] x[j],
        ) by {
            assert(less(a[i], a[j]));
        }
        assert forall|i: int, j: int| 0 <= i < j < y.len() implies less(
            #[trigger] y[i],
            #[trigger] y[j],
        ) by {
            assert(less(b[i], b[j]));
        }
        assert(a =~= x.push(a.last()));
        assert(b =~= y.push(b.last()));
        assert forall|t: Seq<char>| #[trigger] x.contains(t) <==> y.contains(t) by {
            lemma_push_contains(x, a.last(), t);
            lemma_push_contains(y, b.last(), t);
            assert(a.contains(t) <==> b.contains(t));
            if x.contains(t) {
                let i = choose|i: int| 0 <= i < x.len() && x[i] == t;
                assert(less(a[i], a[a.len() - 1]));
                lemma_less(t, t, t, 0);
            }
            if y.contains(t) {
                let i = choose|i: int| 0 <= i < y.len() && y[i] == t;
                assert(less(b[i], b[b.len() - 1]));
                lemma_less(t, t, t, 0);
            }
        }
        lemma_ascending_unique(x, y);
    }
}

proof fn lemma_less_total(a: Seq<char>, b: Seq<char>, i: int)
    requires
        0 <= i <= a.len(),
        i <= b.len(),
        a.take(i) == b.take(i),
    ensures
        less_from(a, b, i) || less_from(b, a, i) || a == b,
    decreases a.len() - i,
{
    if i < a.len() && i < b.len() && a[i] == b[i] {
        assert(a.take(i + 1) =~= b.take(i + 1)) by {
            assert forall|j: int| 0 <= j < i + 1 implies #[trigger] a[j] == b[j] by {
                if j < i {
                    assert(a.take(i)[j] == a[j] && b.take(i)[j] == b[j]);
                } else {
                    assert(j == i);
                }
            }
        }
        lemma_less_total(a, b, i + 1);
    } else if i >= a.len() && i >= b.len() {
        assert(a =~= a.take(i));
        assert(b =~= b.take(i));
    }
}

proof fn lemma_collapsed(s: Seq<Seq<char>>)
    requires
        order::is_ordered(s, |a: Seq<char>, b: Seq<char>| less(a, b)),
    ensures
        s.len() > 0 ==> collapsed(s).len() > 0 && collapsed(s).last() == s.last(),
        forall|i: int, j: int|
            0 <= i < j < collapsed(s).len() ==> less(
                #[trigger] collapsed(s)[i],
                #[trigger] collapsed(s)[j],
            ),
        forall|x: Seq<char>| #[trigger] collapsed(s).contains(x) <==> s.contains(x),
    decreases s.len(),
{
    if s.len() > 1 {
        let rest = s.drop_last();
        let before = |a: Seq<char>, b: Seq<char>| less(a, b);
        assert(order::is_ordered(rest, before)) by {
            assert forall|i: int, j: int| 0 <= i < j < rest.len() implies !before(
                #[trigger] rest[j],
                #[trigger] rest[i],
            ) by {
                assert(!before(s[j], s[i]));
            }
        }
        lemma_collapsed(rest);
        let kept = collapsed(rest);
        let last = s.last();
        assert(rest.last() == s[s.len() - 2]);
        assert(s =~= rest.push(last));
        assert forall|x: Seq<char>| #[trigger] collapsed(s).contains(x) <==> s.contains(x) by {
            lemma_push_contains(rest, last, x);
            lemma_push_contains(kept, last, x);
            assert(rest[rest.len() - 1] == s[s.len() - 2]);
        }
        if last != s[s.len() - 2] {
            let out = kept.push(last);
            assert forall|i: int, j: int| 0 <= i < j < out.len() implies less(
                #[trigger] out[i],
                #[trigger] out[j],
            ) by {
                if j == kept.len() {
                    let prev = rest.last();
                    assert(!before(s[s.len() - 1], s[s.len() - 2]));
                    assert(prev.take(0) =~= last.take(0));
                    lemma_less_total(prev, last, 0);
                    assert(less(prev, last));
                    assert(kept[kept.len() - 1] == prev);
                    if i < kept.len() - 1 {
                        assert(less(kept[i], prev));
                        lemma_less(kept[i], prev, last, 0);
                        lemma_less(prev, last, last, 0);
                    }
                } else {
                    assert(out[i] == kept[i] && out[j] == kept[j]);
                }
            }
        }
    }
}

/// Taking one entry more appends that entry.
pub proof fn lemma_take_step<A>(s: Seq<A>, i: int)
    requires
        0 <= i < s.len(),
    ensures
        s.take(i + 1).drop_last() == s.take(i),
        s.take(i + 1).last() == s[i],
        s.take(i + 1) == s.take(i).push(s[i]),
{
    assert(s.take(i + 1).drop_last() =~= s.take(i));
    assert(s.take(i + 1) =~= s.take(i).push(s[i]));
}

/// Name for the quoted, escaped rendering of a text (`{:?}`).
pub uninterp spec fn quoted(s: Seq<char>) -> Seq<char>;

/// `format!("{:?}", ..)` on a string (the `Debug` rendering of `str`), a
/// function of the text alone; how each character is escaped is left unsaid.
#[verifier::external_body]
pub(crate) fn quote(s: &str) -> (r: String)
    ensures
        r@ == quoted(s@),
{
    format!("{:?}", s)
}

/// Name for what lossy decoding makes of bytes.
pub uninterp spec fn lossy(bytes: Seq<u8>) -> Seq<char>;

/// `String::from_utf8_lossy`, a function of the bytes alone: it decodes UTF-8
/// exactly. What stands in for malformed parts is left unsaid.
#[verifier::external_body]
pub(crate) fn lossy_text(bytes: &Vec<u8>) -> (r: String)
    ensures
        r@ == lossy(bytes@),
        vstd::utf8::valid_utf8(bytes@) ==> r@ == vstd::utf8::decode_utf8(bytes@),
{
    String::from_utf8_lossy(bytes).into_owned()
}

/// The first `n` characters; all of them when there are fewer.
pub fn first_chars(s: &str, n: usize) -> (r: String)
    ensures
        r@ == at_most(s@, n as int),
{
    let v = chars_of(s);
    if v.len() <= n {
        s.to_owned()
    } else {
        let r = string_of(&v, 0, n);
        assert(r@ =~= s@.take(n as int));
        r
    }
}

/// One line without the carriage return before its line feed.
pub open spec fn without_return(s: Seq<char>) -> Seq<char> {
    if s.len() > 0 && s.last() == '\r' {
        s.drop_last()
    } else {
        s
    }
}

/// The lines of `s` from `i` on. A line ends at a line feed, which may have a
/// carriage return before it; the last line need not end.
pub open spec fn lines_from(s: Seq<char>, i: int) -> Seq<Seq<char>>
    decreases s.len() - i,
{
    let e = find_from(s, '\n', i);
    if i < 0 || i >= s.len() || e < i {
        Seq::empty()
    } else if e >= s.len() {
        seq![s.subrange(i, s.len() as int)]
    } else {
        seq![without_return(s.subrange(i, e))] + lines_from(s, e + 1)
    }
}

/// The lines of `s`.
pub open spec fn lines(s: Seq<char>) -> Seq<Seq<char>> {
    lines_from(s, 0)
}

/// Splits into lines.
pub fn split_lines(s: &str) -> (r: Vec<String>)
    ensures
        r.deep_view() == lines(s@),
{
    let v = chars_of(s);
    let mut out: Vec<String> = Vec::new();
    let mut i: usize = 0;
    assert(lines(s@) =~= out.deep_view() + lines_from(v@, 0));
    while i < v.len()
        invariant
            i <= v@.len(),
            v@ == s@,
            lines(v@) == out.deep_view() + lines_from(v@, i as int),
        decreases v@.len() - i,
    {
        let e: usize = find_char(&v, '\n', i);
        let ghost before = out.deep_view();
        if e >= v.len() {
            out.push(string_of(&v, i, e));
            assert(out.deep_view() =~= before + lines_from(v@, i as int));
            return out;
        }
        let ghost line = v@.subrange(i as int, e as int);
        if e > i && v[e - 1] == '\r' {
            out.push(string_of(&v, i, e - 1));
            assert(line.drop_last() =~= v@.subrange(i as int, e - 1));
        } else {
            out.push(string_of(&v, i, e));
        }
        assert(out.deep_view() =~= before.push(without_return(line)));
        assert(out.deep_view() + lines_from(v@, e + 1) =~= before + lines_from(v@, i as int));
        i = e + 1;
    }
    assert(lines_from(v@, i as int) =~= Seq::<Seq<char>>::empty());
    assert(out.deep_view() + lines_from(v@, i as int) =~= out.deep_view());
    out
}

/// Whether the character is an ASCII letter.
pub open spec fn is_letter(c: char) -> bool {
    'a' <= c <= 'z' || 'A' <= c <= 'Z'
}

/// Whether the character is an ASCII digit.
pub open spec fn is_digit(c: char) -> bool {
    '0' <= c <= '9'
}

/// Whether `c` is an ASCII letter.
pub fn letter(c: char) -> (r: bool)
    ensures
        r == is_letter(c),
{
    ('a' <= c && c <= 'z') || ('A' <= c && c <= 'Z')
}

/// Whether `c` is an ASCII digit.
pub fn digit_char(c: char) -> (r: bool)
    ensures
        r == is_digit(c),
{
    '0' <= c && c <= '9'
}

/// What the digits `s` say in decimal.
pub open spec fn digits_value(s: Seq<char>) -> nat
    decreases s.len(),
{
    if s.len() == 0 {
        0
    } else {
        10 * digits_value(s.drop_last()) + (s.last() as int - 48) as nat
    }
}

/// Digits alone, at least one.
pub open spec fn all_digits(s: Seq<char>) -> bool {
    s.len() > 0 && forall|i: int| 0 <= i < s.len() ==> is_digit(#[trigger] s[i])
}

/// The number a text spells (digits behind an optional '+'), if it fits 32 bits.
pub open spec fn number_of(s: Seq<char>) -> Option<u32> {
    let t = if s.len() > 0 && s[0] == '+' {
        s.skip(1)
    } else {
        s
    };
    if all_digits(t) && digits_value(t) <= u32::MAX {
        Some(digits_value(t) as u32)
    } else {
        None
    }
}

proof fn lemma_digits_grow(s: Seq<char>, n: int)
    requires
        0 <= n <= s.len(),
    ensures
        digits_value(s.take(n)) <= digits_value(s),
    decreases s.len() - n,
{
    if n < s.len() {
        lemma_digits_grow(s, n + 1);
        lemma_take_step(s, n);
    } else {
        assert(s.take(n) =~= s);
    }
}

/// Reads the number a text spells.
pub fn parse_number(s: &str) -> (r: Option<u32>)
    ensures
        r == number_of(s@),
{
    let v = chars_of(s);
    let from: usize = if v.len() > 0 && v[0] == '+' {
        1
    } else {
        0
    };
    let ghost t = v@.skip(from as int);
    assert(from == 0 ==> t =~= s@);
    if from >= v.len() {
        return None;
    }
    let mut n: u64 = 0;
    let mut i: usize = from;
    assert(t.take(0) =~= Seq::<char>::empty());
    while i < v.len()
        invariant
            from <= i <= v@.len(),
            t == v@.skip(from as int),
            number_of(s@) == if all_digits(t) && digits_value(t) <= u32::MAX {
                Some(digits_value(t) as u32)
            } else {
                None
            },
            forall|j: int| 0 <= j < i - from ==> is_digit(#[trigger] t[j]),
            n == digits_value(t.take(i - from)),
            n <= u32::MAX,
        decreases v@.len() - i,
    {
        let c = v[i];
        assert(t[i - from] == c);
        if !digit_char(c) {
            assert(!all_digits(t));
            return None;
        }
        proof {
            lemma_take_step(t, i - from);
        }
        n = 10 * n + (c as u32 - 48) as u64;
        if n > 0xFFFF_FFFF {
            proof {
                lemma_digits_grow(t, i - from + 1);
            }
            return None;
        }
        i = i + 1;
    }
    assert(t.take(t.len() as int) =~= t);
    Some(n as u32)
}

/// Reading a number that was written in decimal gives it back.
pub proof fn decimal_round_trips(n: nat)
    ensures
        all_digits(decimal(n)),
        digits_value(decimal(n)) == n,
        n <= u32::MAX ==> number_of(decimal(n)) == Some(n as u32),
    decreases n,
{
    if n < 10 {
        let one = decimal(n);
        assert(one.drop_last() =~= Seq::<char>::empty());
        assert(digits_value(one.drop_last()) == 0);
        assert(one[0] as int == 48 + n);
    } else {
        decimal_round_trips(n / 10);
        let head = decimal(n / 10);
        let last = digit((n % 10) as int);
        assert(last as int == 48 + n % 10);
        assert(decimal(n).drop_last() =~= head);
        assert(decimal(n).last() == last);
    }
    assert(is_digit(decimal(n)[0]));
}

/// Numbers behind one prefix make different texts.
pub proof fn lemma_numbered(prefix: Seq<char>, a: nat, b: nat)
    ensures
        prefix + decimal(a) == prefix + decimal(b) ==> a == b,
{
    decimal_round_trips(a);
    decimal_round_trips(b);
    assert((prefix + decimal(a)).skip(prefix.len() as int) =~= decimal(a));
    assert((prefix + decimal(b)).skip(prefix.len() as int) =~= decimal(b));
}

/// Outcome of an operation that yields nothing, its message as characters.
pub open spec fn verdict(r: Result<(), String>) -> Result<(), Seq<char>> {
    match r {
        Ok(()) => Ok(()),
        Err(m) => Err(m@),
    }
}

/// Gathering at most one thing of each is keeping some and reading each of them.
pub proof fn lemma_gathered_kept<A, B>(
    s: Seq<A>,
    f: spec_fn(A) -> Seq<B>,
    keep: spec_fn(A) -> bool,
    read: spec_fn(A) -> B,
)
    requires
        forall|a: A| #[trigger]
            f(a) == if keep(a) {
                seq![read(a)]
            } else {
                Seq::empty()
            },
    ensures
        gathered(s, f) == s.filter(keep).map_values(read),
    decreases s.len(),
{
    reveal(Seq::filter);
    if s.len() > 0 {
        lemma_gathered_kept(s.drop_last(), f, keep, read);
        assert(f(s.last()).len() <= 1);
        assert(gathered(s, f) =~= s.filter(keep).map_values(read));
    } else {
        assert(gathered(s, f) =~= s.filter(keep).map_values(read));
    }
}

/// Trimming drops whitespace at the ends and nothing else: what is left neither
/// starts nor ends with any, and all that was dropped is whitespace.
pub proof fn trimming_drops_outer_space(s: Seq<char>) -> (r: (int, int))
    ensures
        0 <= r.0 <= r.1 <= s.len(),
        trimmed(s) == s.subrange(r.0, r.1),
        forall|i: int| 0 <= i < r.0 || r.1 <= i < s.len() ==> is_space(#[trigger] s[i]),
        r.0 < r.1 ==> !is_space(s[r.0]) && !is_space(s[r.1 - 1]),
{
    lemma_skip(s, 0);
    lemma_skip_space_stop(s, 0);
    lemma_skipped_space(s, 0);
    lemma_unspaced_len(s, s.len() as int);
    lemma_unspaced_stop(s, s.len() as int);
    let from = skip_space(s, 0);
    let to = unspaced_len(s, s.len() as int);
    if from >= s.len() {
        assert(s.subrange(from, from) =~= Seq::empty());
        (from, from)
    } else {
        assert(from < to);
        (from, to)
    }
}

/// Trimming the end drops whitespace there and nothing else.
pub proof fn trimming_the_end_drops_space(s: Seq<char>) -> (n: int)
    ensures
        0 <= n <= s.len(),
        trimmed_end(s) == s.take(n),
        forall|i: int| n <= i < s.len() ==> is_space(#[trigger] s[i]),
        n > 0 ==> !is_space(s[n - 1]),
{
    lemma_unspaced_len(s, s.len() as int);
    lemma_unspaced_stop(s, s.len() as int);
    unspaced_len(s, s.len() as int)
}

proof fn lemma_skipped_space(s: Seq<char>, i: int)
    requires
        0 <= i <= s.len(),
    ensures
        forall|j: int| i <= j < skip_space(s, i) ==> is_space(#[trigger] s[j]),
    decreases s.len() - i,
{
    if i < s.len() && is_space(s[i]) {
        lemma_skipped_space(s, i + 1);
    }
}

proof fn lemma_unspaced_stop(s: Seq<char>, n: int)
    requires
        0 <= n <= s.len(),
    ensures
        forall|j: int| unspaced_len(s, n) <= j < n ==> is_space(#[trigger] s[j]),
        unspaced_len(s, n) > 0 ==> !is_space(s[unspaced_len(s, n) - 1]),
    decreases n,
{
    if n > 0 && is_space(s[n - 1]) {
        lemma_unspaced_stop(s, n - 1);
    }
}

/// Joining nothing gives the empty text, joining one text gives that text, and
/// the separator stands between any two that meet.
pub proof fn joining_separates(a: Seq<Seq<char>>, b: Seq<Seq<char>>, sep: Seq<char>)
    ensures
        joined(Seq::empty(), sep).len() == 0,
        a.len() == 1 ==> joined(a, sep) == a[0],
        a.len() > 0 && b.len() > 0 ==> joined(a + b, sep) == joined(a, sep) + sep + joined(b, sep),
    decreases b.len(),
{
    if a.len() > 0 && b.len() > 0 {
        let all = a + b;
        assert(all.drop_last() =~= a + b.drop_last());
        assert(all.last() == b.last());
        joining_separates(a, b.drop_last(), sep);
        if b.len() == 1 {
            assert(all.drop_last() =~= a);
        } else {
            assert(joined(all, sep) =~= joined(a, sep) + sep + joined(b, sep));
        }
    }
}

/// Text order goes by the first character that differs; a text comes before
/// those that it starts.
pub proof fn texts_order_by_first_difference(a: Seq<char>, b: Seq<char>, n: int)
    requires
        0 <= n <= a.len(),
        n <= b.len(),
        forall|i: int| 0 <= i < n ==> a[i] == b[i],
    ensures
        n < a.len() && n < b.len() && a[n] != b[n] ==> (less(a, b) <==> a[n] < b[n]),
        n == a.len() ==> (less(a, b) <==> a.len() < b.len()),
        n == b.len() ==> !less(a, b),
{
    lemma_less_behind(a, b, 0, n);
}

proof fn lemma_less_behind(a: Seq<char>, b: Seq<char>, i: int, n: int)
    requires
        0 <= i <= n <= a.len(),
        n <= b.len(),
        forall|k: int| 0 <= k < n ==> a[k] == b[k],
    ensures
        less_from(a, b, i) == less_from(a, b, n),
    decreases n - i,
{
    if i < n {
        lemma_less_behind(a, b, i + 1, n);
    }
}

/// Removing repeats and empty texts goes from the front: what stands in front is
/// not changed by what comes behind it.
pub proof fn distinct_texts_keep_their_order(a: Seq<Seq<char>>, b: Seq<Seq<char>>)
    ensures
        distinct_of(a).len() <= distinct_of(a + b).len(),
        distinct_of(a + b).take(distinct_of(a).len() as int) == distinct_of(a),
        a.len() == 1 && a[0].len() > 0 ==> distinct_of(a) == a,
    decreases b.len(),
{
    if b.len() == 0 {
        assert(a + b =~= a);
        if a.len() == 1 {
            assert(distinct_of(a.drop_last()) =~= Seq::empty());
            assert(a[0].len() > 0 ==> distinct_of(a) =~= a);
        }
    } else {
        distinct_texts_keep_their_order(a, b.drop_last());
        assert((a + b).drop_last() =~= a + b.drop_last());
        assert((a + b).last() == b.last());
        let n = distinct_of(a).len() as int;
        assert(distinct_of(a + b).take(n) =~= distinct_of(a + b.drop_last()).take(n));
    }
}

/// Removing repeats goes from the front: what stands in front is not changed by
/// what comes behind it.
pub proof fn unique_texts_keep_their_order(a: Seq<Seq<char>>, b: Seq<Seq<char>>)
    ensures
        unique_of(a).len() <= unique_of(a + b).len(),
        unique_of(a + b).take(unique_of(a).len() as int) == unique_of(a),
        a.len() == 1 ==> unique_of(a) == a,
    decreases b.len(),
{
    if b.len() == 0 {
        assert(a + b =~= a);
        if a.len() == 1 {
            assert(unique_of(a.drop_last()) =~= Seq::empty());
            assert(unique_of(a) =~= a);
        }
    } else {
        unique_texts_keep_their_order(a, b.drop_last());
        assert((a + b).drop_last() =~= a + b.drop_last());
        assert((a + b).last() == b.last());
        let n = unique_of(a).len() as int;
        assert(unique_of(a + b).take(n) =~= unique_of(a + b.drop_last()).take(n));
    }
}

/// What stands before the first `c` is what stands before a `c` that none comes
/// before; without one it is the whole text.
pub proof fn before_the_first(head: Seq<char>, c: char, tail: Seq<char>)
    requires
        !head.contains(c),
    ensures
        before_first(head, c) == head,
        before_first(head.push(c) + tail, c) == head,
{
    let all = head.push(c) + tail;
    lemma_find_from(head, c, 0);
    lemma_find_from(all, c, 0);
    let n = find_from(head, c, 0);
    if n < head.len() {
        assert(head[n] == c);
    }
    assert(head.take(head.len() as int) =~= head);
    let m = find_from(all, c, 0);
    if m < head.len() {
        assert(head[m] == c);
    }
    assert(all[head.len() as int] == c);
    assert(all.take(m) =~= head);
}

/// What stands behind the last `c` is what stands behind a `c` that none comes
/// behind; without one it is the whole text.
pub proof fn behind_the_last(head: Seq<char>, c: char, tail: Seq<char>)
    requires
        !tail.contains(c),
    ensures
        after_last(tail, c) == tail,
        after_last(head.push(c) + tail, c) == tail,
{
    let all = head.push(c) + tail;
    lemma_rfind_before(tail, c, tail.len() as int);
    lemma_rfind_before(all, c, all.len() as int);
    let n = rfind_before(tail, c, tail.len() as int);
    if n >= 0 {
        assert(tail[n] == c);
    }
    assert(tail.skip(0) =~= tail);
    let m = rfind_before(all, c, all.len() as int);
    if m > head.len() {
        assert(all[m] == tail[m - head.len() - 1]);
    }
    assert(all[head.len() as int] == c);
    assert(all.skip(m + 1) =~= tail);
}

/// Trimming a character from the end drops all of it there, and nothing else.
pub proof fn trailing_characters_go(head: Seq<char>, c: char, n: nat)
    requires
        head.len() > 0 ==> head.last() != c,
    ensures
        trim_end_char(head + Seq::new(n, |i: int| c), c) == head,
    decreases n,
{
    let all = head + Seq::new(n, |i: int| c);
    lemma_trailing(head, c, n, all.len() as int);
    assert(all.take(head.len() as int) =~= head);
}

proof fn lemma_trailing(head: Seq<char>, c: char, n: nat, m: int)
    requires
        head.len() > 0 ==> head.last() != c,
        head.len() <= m <= head.len() + n,
    ensures
        trimmed_len(head + Seq::new(n, |i: int| c), c, m) == head.len(),
    decreases m,
{
    if m > head.len() {
        lemma_trailing(head, c, n, m - 1);
    }
}

/// Cutting a sequence keeps its first entries, all of them where it is short.
pub proof fn cutting_keeps_the_front<A>(s: Seq<A>, n: int)
    requires
        0 <= n,
    ensures
        at_most(s, n).len() == if s.len() < n {
            s.len() as int
        } else {
            n
        },
        forall|i: int| 0 <= i < at_most(s, n).len() ==> at_most(s, n)[i] == s[i],
{
}

/// A text starts with what it was put behind, and with nothing else.
pub proof fn prefixes_stand_in_front(s: Seq<char>, prefix: Seq<char>, rest: Seq<char>)
    ensures
        has_prefix(prefix + rest, prefix),
        has_prefix(s, prefix) ==> s == prefix + s.skip(prefix.len() as int),
{
    assert((prefix + rest).take(prefix.len() as int) =~= prefix);
    if has_prefix(s, prefix) {
        assert(s =~= s.take(prefix.len() as int) + s.skip(prefix.len() as int));
    }
}

/// A text is split at each line end; the end takes a carriage return before it
/// along, and the last line needs none.
pub proof fn lines_end_at_line_ends(line: Seq<char>, rest: Seq<char>)
    requires
        !line.contains('\n'),
    ensures
        lines(Seq::empty()).len() == 0,
        line.len() > 0 ==> lines(line) == seq![line],
        line.len() > 0 && line.last() == '\r' ==> lines(line.push('\n') + rest) == seq![
            line.drop_last(),
        ] + lines(rest),
        line.len() == 0 || line.last() != '\r' ==> lines(line.push('\n') + rest) == seq![line]
            + lines(rest),
{
    let all = line.push('\n') + rest;
    lemma_find_from(line, '\n', 0);
    lemma_find_from(all, '\n', 0);
    let n = find_from(line, '\n', 0);
    if n < line.len() {
        assert(line[n] == '\n');
    }
    let m = find_from(all, '\n', 0);
    if m < line.len() {
        assert(line[m] == '\n');
    }
    assert(all[line.len() as int] == '\n');
    assert(m == line.len());
    assert(line.subrange(0, line.len() as int) =~= line);
    assert(all.subrange(0, m) =~= line);
    lemma_lines_behind(line.push('\n'), rest, 0);
}

proof fn lemma_lines_behind(head: Seq<char>, rest: Seq<char>, i: int)
    requires
        0 <= i <= rest.len(),
    ensures
        lines_from(head + rest, head.len() + i) == lines_from(rest, i),
    decreases rest.len() - i,
{
    let all = head + rest;
    lemma_find_shifted(head, rest, '\n', i);
    lemma_find_from(rest, '\n', i);
    let e = find_from(rest, '\n', i);
    if i < rest.len() {
        assert(all.subrange(head.len() + i, head.len() + e) =~= rest.subrange(i, e));
        if e < rest.len() {
            lemma_lines_behind(head, rest, e + 1);
        }
    }
}

proof fn lemma_find_shifted(head: Seq<char>, rest: Seq<char>, c: char, i: int)
    requires
        0 <= i <= rest.len(),
    ensures
        find_from(head + rest, c, head.len() + i) == head.len() + find_from(rest, c, i),
    decreases rest.len() - i,
{
    if i < rest.len() {
        assert((head + rest)[head.len() + i] == rest[i]);
        if rest[i] != c {
            lemma_find_shifted(head, rest, c, i + 1);
        }
    }
}

proof fn lemma_skip_in(a: Seq<char>, gap: char, b: Seq<char>, i: int)
    requires
        is_space(gap),
        0 <= i <= a.len(),
    ensures
        skip_space(a, i) < a.len() ==> skip_space(a.push(gap) + b, i) == skip_space(a, i),
        skip_space(a, i) == a.len() ==> skip_space(a.push(gap) + b, i) == skip_space(
            a.push(gap) + b,
            a.len() as int + 1,
        ),
        skip_word(a.push(gap) + b, i) == skip_word(a, i),
    decreases a.len() - i,
{
    let all = a.push(gap) + b;
    if i < a.len() {
        assert(all[i] == a[i]);
        lemma_skip_in(a, gap, b, i + 1);
    } else {
        assert(all[i] == gap);
    }
}

proof fn lemma_skip_behind(head: Seq<char>, rest: Seq<char>, i: int)
    requires
        0 <= i <= rest.len(),
    ensures
        skip_space(head + rest, head.len() + i) == head.len() + skip_space(rest, i),
        skip_word(head + rest, head.len() + i) == head.len() + skip_word(rest, i),
    decreases rest.len() - i,
{
    if i < rest.len() {
        assert((head + rest)[head.len() + i] == rest[i]);
        lemma_skip_behind(head, rest, i + 1);
    }
}

proof fn lemma_words_behind(head: Seq<char>, rest: Seq<char>, i: int)
    requires
        0 <= i <= rest.len(),
    ensures
        words_from(head + rest, head.len() + i) == words_from(rest, i),
    decreases rest.len() - i,
{
    let all = head + rest;
    lemma_skip(rest, i);
    let a = skip_space(rest, i);
    lemma_skip(rest, a);
    let b = skip_word(rest, a);
    lemma_skip_behind(head, rest, i);
    lemma_skip_behind(head, rest, a);
    if a < rest.len() && b > a {
        assert(all.subrange(head.len() + a, head.len() + b) =~= rest.subrange(a, b));
        lemma_words_behind(head, rest, b);
    }
}

proof fn lemma_words_split(a: Seq<char>, gap: char, b: Seq<char>, i: int)
    requires
        is_space(gap),
        0 <= i <= a.len(),
    ensures
        words_from(a.push(gap) + b, i) == words_from(a, i) + words(b),
    decreases a.len() - i,
{
    let all = a.push(gap) + b;
    lemma_skip(a, i);
    lemma_skip_space_stop(a, i);
    lemma_skip_in(a, gap, b, i);
    let from = skip_space(a, i);
    if from < a.len() {
        lemma_skip(a, from);
        lemma_skip_in(a, gap, b, from);
        let to = skip_word(a, from);
        assert(to > from) by {
            lemma_skip(a, from + 1);
        }
        assert(all.subrange(from, to) =~= a.subrange(from, to));
        lemma_words_split(a, gap, b, to);
        assert(words_from(all, i) =~= words_from(a, i) + words(b));
    } else {
        lemma_words_behind(a.push(gap), b, 0);
        lemma_skip(b, 0);
        lemma_skip_behind(a.push(gap), b, 0);
        assert(words_from(all, i) =~= words_from(all, a.len() as int + 1));
        assert(words_from(a, i) + words(b) =~= words(b));
    }
}

/// A text is split into its words at whitespace: whitespace parts it, and what
/// holds none is one word, unless it is empty.
pub proof fn words_are_parted_by_space(a: Seq<char>, gap: char, b: Seq<char>)
    requires
        is_space(gap),
    ensures
        words(a.push(gap) + b) == words(a) + words(b),
        words(Seq::empty()).len() == 0,
        a.len() > 0 && (forall|i: int| 0 <= i < a.len() ==> !is_space(#[trigger] a[i])) ==> words(a)
            == seq![a],
{
    lemma_words_split(a, gap, b, 0);
    if a.len() > 0 && (forall|i: int| 0 <= i < a.len() ==> !is_space(#[trigger] a[i])) {
        lemma_whole_word(a, 0);
        assert(!is_space(a[0]));
        assert(a.subrange(0, a.len() as int) =~= a);
        assert(words_from(a, a.len() as int) =~= Seq::empty());
        assert(words(a) =~= seq![a]);
    }
}

proof fn lemma_whole_word(a: Seq<char>, i: int)
    requires
        0 <= i <= a.len(),
        forall|k: int| 0 <= k < a.len() ==> !is_space(#[trigger] a[k]),
    ensures
        skip_word(a, i) == a.len(),
    decreases a.len() - i,
{
    if i < a.len() {
        lemma_whole_word(a, i + 1);
    }
}

/// A number is read off its digits from the front, an optional plus before them;
/// a text with anything else in it, or without digits, is none, and so is one
/// that does not fit.
#[verifier::rlimit(40)]
pub proof fn numbers_are_read_from_digits(s: Seq<char>, d: char)
    ensures
        number_of(Seq::empty()) is None,
        is_digit(d) ==> number_of(seq![d]) == Some((d as int - 48) as u32),
        s.len() > 0 && '0' <= s[0] <= '9' && '0' <= d <= '9' ==> match number_of(s) {
            Some(n) => number_of(s.push(d)) == if n as int * 10 + (d as int - 48) <= u32::MAX {
                Some((n as int * 10 + (d as int - 48)) as u32)
            } else {
                None
            },
            None => number_of(s.push(d)) is None,
        },
        s.len() > 0 && s[0] != '+' ==> number_of(seq!['+'] + s) == number_of(s),
        s.len() > 0 && !('0' <= d <= '9') ==> number_of(s.push(d)) is None,
{
    reveal_with_fuel(digits_value, 2);
    if is_digit(d) {
        assert(all_digits(seq![d]));
        assert(seq![d].drop_last() =~= Seq::empty());
    }
    if s.len() > 0 && s[0] != '+' {
        assert((seq!['+'] + s).skip(1) =~= s);
    }
    if s.len() > 0 && s[0] != '+' && is_digit(d) {
        assert(s.push(d).drop_last() =~= s);
        if all_digits(s) {
            assert(all_digits(s.push(d)));
        } else {
            if all_digits(s.push(d)) {
                assert forall|i: int| 0 <= i < s.len() implies is_digit(#[trigger] s[i]) by {
                    assert(s.push(d)[i] == s[i]);
                }
            }
        }
    }
    if s.len() > 0 && !is_digit(d) {
        let t = s.push(d);
        let u = if t[0] == '+' {
            t.skip(1)
        } else {
            t
        };
        assert(u.last() == d);
        assert(!is_digit(u[u.len() - 1]));
    }
}

/// A verdict tells success from failure and keeps what a failure says.
pub proof fn verdicts_keep_what_is_said(r: Result<(), String>)
    ensures
        verdict(r) is Ok <==> r is Ok,
        r matches Err(m) ==> verdict(r) == Err::<(), Seq<char>>(m@),
{
}

} // verus!

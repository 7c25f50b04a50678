//! The exclusion engine: which templates are enabled, and the folder names
//! and file extensions that their pattern lines exclude.
//!
//! A template's contents are read line by line. Blank lines and lines that
//! begin with `#` say nothing. Of the others, a line without `*` and `.` names
//! a folder, a line that begins with `*.` names an extension, and every other
//! line is inert.

use vstd::prelude::*;
use vstd::hash_set::StringHashSet;
use crate::config::{
    forced, holds_key, position, store_keys, FetchReply, TemplateManager, TemplateView,
    UpdateError,
};
use crate::text::{
    contains_text, is_whitespace, push_char, string_of, to_chars, views, white_space,
};

verus! {

/// A text whose characters are marked: each comes with whether it counts
/// as white space.
pub open spec fn marked(content: Seq<char>) -> Seq<(char, bool)> {
    Seq::new(content.len(), |i: int| (content[i], white_space(content[i])))
}

/// The characters of a marked text, without their marks.
pub open spec fn unmarked(s: Seq<(char, bool)>) -> Seq<char> {
    Seq::new(s.len(), |i: int| s[i].0)
}

/// The number of characters before the first line feed of `s`.
pub open spec fn line_len(s: Seq<(char, bool)>) -> nat
    decreases s.len(),
{
    if s.len() == 0 || s[0].0 == '\n' {
        0
    } else {
        1 + line_len(s.skip(1))
    }
}

/// The first line of `s` without its ending, which is a line feed or a
/// carriage return followed by a line feed.
pub open spec fn first_line(s: Seq<(char, bool)>) -> Seq<(char, bool)> {
    let k = line_len(s) as int;
    if 0 < k < s.len() && s[k - 1].0 == '\r' {
        s.take(k - 1)
    } else {
        s.take(k)
    }
}

/// What follows the first line of `s` and its ending.
pub open spec fn after_first_line(s: Seq<(char, bool)>) -> Seq<(char, bool)> {
    let k = line_len(s) as int;
    if k < s.len() {
        s.skip(k + 1)
    } else {
        Seq::empty()
    }
}

/// `s` without the white space it begins with.
pub open spec fn trim_start(s: Seq<(char, bool)>) -> Seq<(char, bool)>
    decreases s.len(),
{
    if s.len() > 0 && s[0].1 {
        trim_start(s.skip(1))
    } else {
        s
    }
}

/// `s` without the white space it ends with.
pub open spec fn trim_end(s: Seq<(char, bool)>) -> Seq<(char, bool)>
    decreases s.len(),
{
    if s.len() > 0 && s.last().1 {
        trim_end(s.drop_last())
    } else {
        s
    }
}

/// `s` without the white space around it.
pub open spec fn trim(s: Seq<(char, bool)>) -> Seq<(char, bool)> {
    trim_end(trim_start(s))
}

/// Whether a trimmed line is a pattern: it is neither blank nor a comment.
pub open spec fn is_pattern(line: Seq<(char, bool)>) -> bool {
    line.len() > 0 && line[0].0 != '#'
}

/// The patterns of a marked text: its lines, trimmed, without the blank
/// ones and the comments, in their order.
pub open spec fn parse_marked(content: Seq<(char, bool)>) -> Seq<Seq<char>>
    decreases content.len(),
{
    if content.len() == 0 {
        Seq::empty()
    } else {
        let line = trim(first_line(content));
        let rest = parse_marked(after_first_line(content));
        if is_pattern(line) {
            seq![unmarked(line)] + rest
        } else {
            rest
        }
    }
}

/// The patterns of a template's contents: its lines, trimmed, without the
/// blank ones and the comments, in their order.
pub open spec fn parse_patterns(content: Seq<char>) -> Seq<Seq<char>> {
    parse_marked(marked(content))
}

/// `s` without the run of `c` that it ends with.
pub open spec fn strip_trailing(s: Seq<char>, c: char) -> Seq<char>
    decreases s.len(),
{
    if s.len() > 0 && s.last() == c {
        strip_trailing(s.drop_last(), c)
    } else {
        s
    }
}

/// The folder that a pattern names: the pattern without trailing slashes,
/// if that holds neither `*` nor `.`.
pub open spec fn folder_name(pattern: Seq<char>) -> Option<Seq<char>> {
    let p = strip_trailing(pattern, '/');
    if !p.contains('*') && !p.contains('.') {
        Some(p)
    } else {
        None
    }
}

/// Whether `s` begins with `*.`.
pub open spec fn has_wildcard_prefix(s: Seq<char>) -> bool {
    s.len() >= 2 && s[0] == '*' && s[1] == '.'
}

/// `s` without every `*.` that it begins with.
pub open spec fn strip_wildcard_prefixes(s: Seq<char>) -> Seq<char>
    decreases s.len(),
{
    if has_wildcard_prefix(s) {
        strip_wildcard_prefixes(s.skip(2))
    } else {
        s
    }
}

/// The extension that a pattern names: what follows its leading `*.`, for
/// a pattern that begins so.
pub open spec fn extension_pattern(pattern: Seq<char>) -> Option<Seq<char>> {
    if has_wildcard_prefix(pattern) {
        Some(strip_wildcard_prefixes(pattern))
    } else {
        None
    }
}

/// The folder names that a list of patterns excludes.
pub open spec fn folder_set(patterns: Seq<Seq<char>>) -> Set<Seq<char>> {
    Set::new(
        |f: Seq<char>|
            exists|i: int| 0 <= i < patterns.len() && folder_name(#[trigger] patterns[i]) == Some(f),
    )
}

/// The extensions that a list of patterns excludes.
pub open spec fn extension_set(patterns: Seq<Seq<char>>) -> Set<Seq<char>> {
    Set::new(
        |x: Seq<char>|
            exists|i: int|
                0 <= i < patterns.len() && extension_pattern(#[trigger] patterns[i]) == Some(x),
    )
}

/// The patterns of the enabled templates that the store holds, template by
/// template in the order in which they were enabled.
pub open spec fn patterns_of(store: Seq<TemplateView>, enabled: Seq<Seq<char>>) -> Seq<Seq<char>>
    decreases enabled.len(),
{
    if enabled.len() == 0 {
        Seq::empty()
    } else {
        let rest = patterns_of(store, enabled.drop_last());
        let key = enabled.last();
        if holds_key(store, key) {
            rest + parse_patterns(store[position(store, key)].contents)
        } else {
            rest
        }
    }
}

/// The enabled keys after `key` was enabled: it comes last if it is new.
pub open spec fn with_key(enabled: Seq<Seq<char>>, key: Seq<char>) -> Seq<Seq<char>> {
    if enabled.contains(key) {
        enabled
    } else {
        enabled.push(key)
    }
}

/// The enabled keys without `key`, the others in their order.
pub open spec fn without_key(enabled: Seq<Seq<char>>, key: Seq<char>) -> Seq<Seq<char>>
    decreases enabled.len(),
{
    if enabled.len() == 0 {
        enabled
    } else if enabled.last() == key {
        without_key(enabled.drop_last(), key)
    } else {
        without_key(enabled.drop_last(), key).push(enabled.last())
    }
}

/// The enabled keys after each key of `keys` was enabled in turn.
pub open spec fn with_keys(enabled: Seq<Seq<char>>, keys: Seq<Seq<char>>) -> Seq<Seq<char>>
    decreases keys.len(),
{
    if keys.len() == 0 {
        enabled
    } else {
        with_key(with_keys(enabled, keys.drop_last()), keys.last())
    }
}

/// The enabled keys after each key of `keys` was disabled in turn.
pub open spec fn without_keys(enabled: Seq<Seq<char>>, keys: Seq<Seq<char>>) -> Seq<Seq<char>>
    decreases keys.len(),
{
    if keys.len() == 0 {
        enabled
    } else {
        without_key(without_keys(enabled, keys.drop_last()), keys.last())
    }
}

/// The template keys that can be detected, each with the marker files whose
/// presence in a project's root speaks for it.
pub open spec fn detection_table() -> Seq<(Seq<char>, Seq<Seq<char>>)> {
    seq![
        ("rust"@, seq!["Cargo.toml"@]),
        ("node"@, seq!["package.json"@]),
        ("python"@, seq!["requirements.txt"@, "pyproject.toml"@]),
        ("java"@, seq!["pom.xml"@, "build.gradle"@]),
        ("go"@, seq!["go.mod"@]),
        ("ruby"@, seq!["Gemfile"@]),
        ("php"@, seq!["composer.json"@]),
    ]
}

/// Whether one of `markers` is among the files that are present.
pub open spec fn detects(markers: Seq<Seq<char>>, present: Seq<Seq<char>>) -> bool {
    exists|i: int| 0 <= i < markers.len() && present.contains(#[trigger] markers[i])
}

/// The enabled keys after detection over the rows of `table`: each row
/// with a marker present enables its key, and no key is ever taken away.
pub open spec fn detect_into(
    enabled: Seq<Seq<char>>,
    table: Seq<(Seq<char>, Seq<Seq<char>>)>,
    present: Seq<Seq<char>>,
) -> Seq<Seq<char>>
    decreases table.len(),
{
    if table.len() == 0 {
        enabled
    } else {
        let before = detect_into(enabled, table.drop_last(), present);
        if detects(table.last().1, present) {
            with_key(before, table.last().0)
        } else {
            before
        }
    }
}

/// The texts of a sequence of string slices, in the same order.
pub open spec fn str_views(v: Seq<&str>) -> Seq<Seq<char>> {
    Seq::new(v.len(), |i: int| v[i]@)
}

/// Taking a key away leaves it out and brings no other key in.
pub proof fn lemma_without_key(enabled: Seq<Seq<char>>, key: Seq<char>)
    ensures
        !without_key(enabled, key).contains(key),
        forall|k: Seq<char>| #[trigger] without_key(enabled, key).contains(k) ==> enabled.contains(k),
        forall|k: Seq<char>|
            k != key && enabled.contains(k) ==> #[trigger] without_key(enabled, key).contains(k),
    decreases enabled.len(),
{
    if enabled.len() > 0 {
        let shorter = enabled.drop_last();
        let last = enabled.last();
        let kept = without_key(shorter, key);
        lemma_without_key(shorter, key);
        assert forall|k: Seq<char>| #[trigger] without_key(enabled, key).contains(k) implies enabled.contains(
            k,
        ) by {
            if kept.contains(k) {
                let i = choose|i: int| 0 <= i < shorter.len() && shorter[i] == k;
                assert(enabled[i] == k);
            } else {
                assert(last == k) by {
                    let i = choose|i: int|
                        0 <= i < without_key(enabled, key).len() && without_key(enabled, key)[i]
                            == k;
                    if last != key && i < kept.len() {
                        assert(kept[i] == k);
                    }
                }
                assert(enabled[enabled.len() - 1] == k);
            }
        }
        assert forall|k: Seq<char>| k != key && enabled.contains(k) implies #[trigger] without_key(
            enabled,
            key,
        ).contains(k) by {
            let i = choose|i: int| 0 <= i < enabled.len() && enabled[i] == k;
            if i < shorter.len() {
                assert(shorter[i] == k);
                assert(kept.contains(k));
                let m = choose|m: int| 0 <= m < kept.len() && kept[m] == k;
                assert(without_key(enabled, key)[m] == k);
            } else {
                assert(without_key(enabled, key)[kept.len() as int] == k);
            }
        }
        if without_key(enabled, key).contains(key) {
            let i = choose|i: int|
                0 <= i < without_key(enabled, key).len() && without_key(enabled, key)[i] == key;
            if last != key && i < kept.len() {
                assert(kept[i] == key);
            }
        }
    }
}

/// A key that is turned off is not enabled afterwards, whatever was
/// enabled before.
pub proof fn lemma_without_keys(enabled: Seq<Seq<char>>, keys: Seq<Seq<char>>, key: Seq<char>)
    requires
        keys.contains(key),
    ensures
        !without_keys(enabled, keys).contains(key),
    decreases keys.len(),
{
    let before = without_keys(enabled, keys.drop_last());
    lemma_without_key(before, keys.last());
    if keys.last() != key {
        let i = choose|i: int| 0 <= i < keys.len() && keys[i] == key;
        assert(keys.drop_last()[i] == key);
        lemma_without_keys(enabled, keys.drop_last(), key);
    }
}

/// Detection only adds: every key that was enabled before detection over
/// a table is enabled after it.
pub proof fn lemma_detection_adds(
    enabled: Seq<Seq<char>>,
    table: Seq<(Seq<char>, Seq<Seq<char>>)>,
    present: Seq<Seq<char>>,
    key: Seq<char>,
)
    requires
        enabled.contains(key),
    ensures
        detect_into(enabled, table, present).contains(key),
    decreases table.len(),
{
    if table.len() > 0 {
        lemma_detection_adds(enabled, table.drop_last(), present, key);
        let before = detect_into(enabled, table.drop_last(), present);
        let i = choose|i: int| 0 <= i < before.len() && before[i] == key;
        assert(with_key(before, table.last().0)[i] == key);
    }
}

/// Whether the store holds a template under `key` whose contents yield
/// the pattern `p`.
pub open spec fn yields(store: Seq<TemplateView>, key: Seq<char>, p: Seq<char>) -> bool {
    holds_key(store, key) && parse_patterns(store[position(store, key)].contents).contains(p)
}

/// Whether one of the enabled keys yields the pattern `p`.
pub open spec fn some_key_yields(
    store: Seq<TemplateView>,
    enabled: Seq<Seq<char>>,
    p: Seq<char>,
) -> bool {
    exists|k: int| 0 <= k < enabled.len() && yields(store, #[trigger] enabled[k], p)
}

/// A pattern is among the patterns of the enabled templates exactly if one
/// of the enabled keys yields it.
pub proof fn lemma_patterns_membership(
    store: Seq<TemplateView>,
    enabled: Seq<Seq<char>>,
    p: Seq<char>,
)
    ensures
        patterns_of(store, enabled).contains(p) == some_key_yields(store, enabled, p),
    decreases enabled.len(),
{
    if enabled.len() > 0 {
        let shorter = enabled.drop_last();
        let key = enabled.last();
        let rest = patterns_of(store, shorter);
        let all = patterns_of(store, enabled);
        lemma_patterns_membership(store, shorter, p);
        if some_key_yields(store, enabled, p) {
            let k = choose|k: int| 0 <= k < enabled.len() && yields(store, #[trigger] enabled[k], p);
            if k < shorter.len() {
                assert(yields(store, shorter[k], p));
                let i = choose|i: int| 0 <= i < rest.len() && rest[i] == p;
                assert(all[i] == p);
            } else {
                let found = parse_patterns(store[position(store, key)].contents);
                let i = choose|i: int| 0 <= i < found.len() && found[i] == p;
                assert(all[rest.len() + i] == p);
            }
        }
        if all.contains(p) {
            let i = choose|i: int| 0 <= i < all.len() && all[i] == p;
            if i < rest.len() {
                let k = choose|k: int|
                    0 <= k < shorter.len() && yields(store, #[trigger] shorter[k], p);
                assert(yields(store, enabled[k], p));
            } else {
                let found = parse_patterns(store[position(store, key)].contents);
                assert(found[i - rest.len()] == p);
            }
        }
    }
}

/// The exclusion sets depend on which templates are enabled and not on the
/// order in which they were: two lists of the same keys give the same
/// folder names and the same extensions.
pub proof fn lemma_sets_ignore_order(
    store: Seq<TemplateView>,
    first: Seq<Seq<char>>,
    second: Seq<Seq<char>>,
)
    requires
        first.to_set() == second.to_set(),
    ensures
        folder_set(patterns_of(store, first)) == folder_set(patterns_of(store, second)),
        extension_set(patterns_of(store, first)) == extension_set(patterns_of(store, second)),
{
    lemma_same_patterns(store, first, second);
    lemma_same_patterns(store, second, first);
    let a = patterns_of(store, first);
    let b = patterns_of(store, second);
    assert forall|f: Seq<char>| folder_set(a).contains(f) == folder_set(b).contains(f) by {
        if folder_set(a).contains(f) {
            let i = choose|i: int| 0 <= i < a.len() && folder_name(#[trigger] a[i]) == Some(f);
            assert(a.contains(a[i]));
            assert(b.contains(a[i]));
            let j = choose|j: int| 0 <= j < b.len() && b[j] == a[i];
            assert(folder_name(b[j]) == Some(f));
        }
        if folder_set(b).contains(f) {
            let i = choose|i: int| 0 <= i < b.len() && folder_name(#[trigger] b[i]) == Some(f);
            assert(b.contains(b[i]));
            assert(a.contains(b[i]));
            let j = choose|j: int| 0 <= j < a.len() && a[j] == b[i];
            assert(folder_name(a[j]) == Some(f));
        }
    }
    assert forall|x: Seq<char>| extension_set(a).contains(x) == extension_set(b).contains(x) by {
        if extension_set(a).contains(x) {
            let i = choose|i: int|
                0 <= i < a.len() && extension_pattern(#[trigger] a[i]) == Some(x);
            assert(a.contains(a[i]));
            assert(b.contains(a[i]));
            let j = choose|j: int| 0 <= j < b.len() && b[j] == a[i];
            assert(extension_pattern(b[j]) == Some(x));
        }
        if extension_set(b).contains(x) {
            let i = choose|i: int|
                0 <= i < b.len() && extension_pattern(#[trigger] b[i]) == Some(x);
            assert(b.contains(b[i]));
            assert(a.contains(b[i]));
            let j = choose|j: int| 0 <= j < a.len() && a[j] == b[i];
            assert(extension_pattern(a[j]) == Some(x));
        }
    }
}

/// Two lists of the same keys have the same patterns: every pattern of the
/// first is a pattern of the second.
proof fn lemma_same_patterns(
    store: Seq<TemplateView>,
    first: Seq<Seq<char>>,
    second: Seq<Seq<char>>,
)
    requires
        first.to_set() == second.to_set(),
    ensures
        forall|p: Seq<char>|
            patterns_of(store, first).contains(p) ==> #[trigger] patterns_of(store, second).contains(
                p,
            ),
{
    assert forall|p: Seq<char>| patterns_of(store, first).contains(p) implies #[trigger] patterns_of(
        store,
        second,
    ).contains(p) by {
        lemma_patterns_membership(store, first, p);
        lemma_patterns_membership(store, second, p);
        let k = choose|k: int| 0 <= k < first.len() && yields(store, #[trigger] first[k], p);
        assert(first.to_set().contains(first[k])) by {
            assert(first.contains(first[k]));
        }
        let m = choose|m: int| 0 <= m < second.len() && second[m] == first[k];
        assert(yields(store, second[m], p));
    }
}

/// A line that ends at `k` has length `k`.
proof fn lemma_line_len(s: Seq<(char, bool)>, k: int)
    requires
        0 <= k <= s.len(),
        forall|m: int| 0 <= m < k ==> s[m].0 != '\n',
        k == s.len() || s[k].0 == '\n',
    ensures
        line_len(s) == k,
    decreases k,
{
    if k > 0 {
        lemma_line_len(s.skip(1), k - 1);
    }
}

/// Where `v[start..end]` begins and ends once the white space around it is
/// trimmed.
fn trim_range(v: &Vec<(char, bool)>, start: usize, end: usize) -> (r: (usize, usize))
    requires
        start <= end <= v.len(),
    ensures
        start <= r.0 <= r.1 <= end,
        v@.subrange(r.0 as int, r.1 as int) == trim(v@.subrange(start as int, end as int)),
{
    let mut a: usize = start;
    while a < end && v[a].1
        invariant
            start <= a <= end <= v.len(),
            trim_start(v@.subrange(start as int, end as int)) == trim_start(
                v@.subrange(a as int, end as int),
            ),
        decreases end - a,
    {
        assert(v@.subrange(a as int, end as int).skip(1) =~= v@.subrange(a + 1, end as int));
        a += 1;
    }
    let mut b: usize = end;
    while b > a && v[b - 1].1
        invariant
            a <= b <= end <= v.len(),
            trim_end(v@.subrange(a as int, end as int)) == trim_end(
                v@.subrange(a as int, b as int),
            ),
        decreases b - a,
    {
        assert(v@.subrange(a as int, b as int).drop_last() =~= v@.subrange(a as int, b - 1));
        b -= 1;
    }
    (a, b)
}

/// The string made of the characters `v[from..to]`, without their marks.
fn unmarked_string(v: &Vec<(char, bool)>, from: usize, to: usize) -> (s: String)
    requires
        from <= to <= v.len(),
    ensures
        s@ == unmarked(v@.subrange(from as int, to as int)),
{
    let mut s = String::new();
    let mut i: usize = from;
    assert(s@ =~= unmarked(v@.subrange(from as int, from as int)));
    while i < to
        invariant
            from <= i <= to <= v.len(),
            s@ == unmarked(v@.subrange(from as int, i as int)),
        decreases to - i,
    {
        push_char(&mut s, v[i].0);
        i += 1;
    }
    s
}

/// The patterns of a text whose characters come marked with whether they
/// count as white space.
pub fn parse_marked_patterns(text: &Vec<(char, bool)>) -> (patterns: Vec<String>)
    ensures
        views(patterns@) == parse_marked(text@),
{
    let n = text.len();
    let mut patterns: Vec<String> = Vec::new();
    let mut pos: usize = 0;
    assert(text@.skip(0) =~= text@);
    while pos < n
        invariant
            pos <= n,
            n == text.len(),
            views(patterns@) + parse_marked(text@.skip(pos as int)) == parse_marked(text@),
        decreases n - pos,
    {
        let ghost rest = text@.skip(pos as int);
        let mut j: usize = pos;
        while j < n && text[j].0 != '\n'
            invariant
                pos <= j <= n,
                n == text.len(),
                forall|m: int| pos <= m < j ==> text[m].0 != '\n',
            decreases n - j,
        {
            j += 1;
        }
        proof {
            lemma_line_len(rest, j - pos);
        }
        let end: usize = if j < n && j > pos && text[j - 1].0 == '\r' {
            (j - 1) as usize
        } else {
            j
        };
        assert(first_line(rest) =~= text@.subrange(pos as int, end as int));
        let (a, b) = trim_range(text, pos, end);
        let ghost before = views(patterns@);
        if b > a && text[a].0 != '#' {
            let line = unmarked_string(text, a, b);
            patterns.push(line);
        }
        let next: usize = if j < n {
            j + 1
        } else {
            n
        };
        assert(after_first_line(rest) =~= text@.skip(next as int));
        assert(views(patterns@) + parse_marked(text@.skip(next as int)) =~= before + parse_marked(
            rest,
        ));
        pos = next;
    }
    patterns
}

/// The keys of the enabled templates: each at most once, in the order in
/// which they were enabled.
#[derive(Debug)]
pub struct EnabledTemplates {
    keys: Vec<String>,
}

impl View for EnabledTemplates {
    type V = Seq<Seq<char>>;

    closed spec fn view(&self) -> Seq<Seq<char>> {
        views(self.keys@)
    }
}

impl EnabledTemplates {
    /// No key is held twice.
    #[verifier::type_invariant]
    spec fn distinct(&self) -> bool {
        views(self.keys@).no_duplicates()
    }

    /// The empty set of keys.
    pub fn new() -> (enabled: Self)
        ensures
            enabled@ == Seq::<Seq<char>>::empty(),
    {
        let enabled = EnabledTemplates { keys: Vec::new() };
        assert(views(enabled.keys@) =~= Seq::<Seq<char>>::empty());
        enabled
    }

    /// The keys, in the order in which they were enabled.
    pub fn keys(&self) -> (keys: &Vec<String>)
        ensures
            views(keys@) == self@,
            self@.no_duplicates(),
    {
        proof {
            use_type_invariant(self);
        }
        &self.keys
    }

    /// Adds `key`, which comes last if it is new.
    pub fn insert(&mut self, key: String)
        ensures
            final(self)@ == with_key(old(self)@, key@),
    {
        proof {
            use_type_invariant(&*self);
        }
        if !contains_text(&self.keys, &key) {
            let ghost before = views(self.keys@);
            let mut keys = copy_texts(&self.keys);
            keys.push(key);
            assert(views(keys@) =~= before.push(key@));
            self.keys = keys;
        }
    }

    /// Takes `key` away and keeps the others in their order.
    pub fn remove(&mut self, key: &str)
        ensures
            final(self)@ == without_key(old(self)@, key@),
    {
        proof {
            use_type_invariant(&*self);
        }
        let wanted = key.to_owned();
        let mut kept: Vec<String> = Vec::new();
        let mut i: usize = 0;
        let ghost all = views(self.keys@);
        assert(all.take(0) =~= Seq::empty());
        while i < self.keys.len()
            invariant
                i <= self.keys.len(),
                *self == *old(self),
                all == views(self.keys@),
                all.no_duplicates(),
                wanted@ == key@,
                views(kept@) == without_key(all.take(i as int), wanted@),
                forall|k: int|
                    0 <= k < kept.len() ==> all.take(i as int).contains(#[trigger] views(kept@)[k]),
                views(kept@).no_duplicates(),
            decreases self.keys.len() - i,
        {
            proof {
                assert(all.take(i + 1).drop_last() =~= all.take(i as int));
            }
            let ghost before = views(kept@);
            if self.keys[i] != wanted {
                let ghost prefix = all.take(i as int);
                assert(!prefix.contains(all[i as int])) by {
                    if prefix.contains(all[i as int]) {
                        let m = choose|m: int| 0 <= m < prefix.len() && prefix[m] == all[i as int];
                        assert(all[m] == all[i as int]);
                    }
                }
                kept.push(self.keys[i].clone());
                assert(views(kept@) =~= before.push(all[i as int]));
            }
            assert forall|k: int| 0 <= k < kept.len() implies all.take(i + 1).contains(
                #[trigger] views(kept@)[k],
            ) by {
                if k < before.len() {
                    let m = choose|m: int|
                        0 <= m < all.take(i as int).len() && all.take(i as int)[m] == before[k];
                    assert(all.take(i + 1)[m] == before[k]);
                } else {
                    assert(all.take(i + 1)[i as int] == views(kept@)[k]);
                }
            }
            i += 1;
        }
        assert(all.take(all.len() as int) =~= all);
        self.keys = kept;
    }
}

/// Manages which templates are enabled and derives the exclusion sets.
#[derive(Debug)]
pub struct ExclusionManager {
    template_manager: TemplateManager,
    enabled_templates: EnabledTemplates,
}

impl ExclusionManager {
    /// The template cache behind the manager.
    pub closed spec fn manager(&self) -> TemplateManager {
        self.template_manager
    }

    /// The keys of the enabled templates, each once, in the order in which
    /// they were enabled.
    pub closed spec fn enabled(&self) -> Seq<Seq<char>> {
        self.enabled_templates@
    }

    /// The patterns of all enabled templates.
    pub open spec fn patterns(&self) -> Seq<Seq<char>> {
        patterns_of(self.manager().store(), self.enabled())
    }

    /// A manager over the given cache, with no template enabled.
    pub fn new(template_manager: TemplateManager) -> (manager: Self)
        ensures
            manager.manager() == template_manager,
            manager.enabled() == Seq::<Seq<char>>::empty(),
    {
        ExclusionManager { template_manager, enabled_templates: EnabledTemplates::new() }
    }

    /// The template cache, for reading.
    pub fn template_manager(&self) -> (manager: &TemplateManager)
        ensures
            *manager == self.manager(),
    {
        &self.template_manager
    }

    /// The rows of the detection table: a template key and the marker
    /// files that speak for it.
    pub fn get_detection_map() -> (table: Vec<(&'static str, Vec<&'static str>)>)
        ensures
            table.len() == detection_table().len(),
            forall|i: int|
                0 <= i < table.len() ==> (#[trigger] table[i]).0@ == detection_table()[i].0
                    && str_views(table[i].1@) == detection_table()[i].1,
    {
        let mut table: Vec<(&'static str, Vec<&'static str>)> = Vec::new();
        table.push(("rust", one_marker("Cargo.toml")));
        table.push(("node", one_marker("package.json")));
        table.push(("python", two_markers("requirements.txt", "pyproject.toml")));
        table.push(("java", two_markers("pom.xml", "build.gradle")));
        table.push(("go", one_marker("go.mod")));
        table.push(("ruby", one_marker("Gemfile")));
        table.push(("php", one_marker("composer.json")));
        table
    }

    /// The template keys that the files in a project's root speak for, in
    /// the order of the detection table. `present` names the files found
    /// there.
    pub fn detect_project(present: &Vec<String>) -> (keys: Vec<String>)
        ensures
            views(keys@) == detect_into(Seq::empty(), detection_table(), views(present@)),
    {
        let mut detected = EnabledTemplates::new();
        detect(&mut detected, present);
        copy_texts(detected.keys())
    }

    /// Enables the templates that the files in a project's root speak for.
    /// `present` names the files found there. Detection only adds keys.
    pub fn enable_templates_for_project(&mut self, present: &Vec<String>)
        ensures
            final(self).manager() == old(self).manager(),
            final(self).enabled() == detect_into(
                old(self).enabled(),
                detection_table(),
                views(present@),
            ),
    {
        detect(&mut self.enabled_templates, present);
    }

    /// The patterns of all enabled templates that the cache holds.
    pub fn get_all_patterns(&self) -> (patterns: Vec<String>)
        ensures
            views(patterns@) == self.patterns(),
    {
        let mut patterns: Vec<String> = Vec::new();
        let keys = self.enabled_templates.keys();
        let mut i: usize = 0;
        assert(self.enabled().take(0) =~= Seq::empty());
        while i < keys.len()
            invariant
                i <= keys.len(),
                views(keys@) == self.enabled(),
                views(patterns@) == patterns_of(self.manager().store(), self.enabled().take(i as int)),
            decreases keys.len() - i,
        {
            proof {
                assert(self.enabled().take(i + 1).drop_last() =~= self.enabled().take(i as int));
            }
            match self.template_manager.get_template_contents(keys[i].as_str()) {
                Some(contents) => {
                    let mut found = Self::parse_ignore_patterns(contents);
                    patterns.append(&mut found);
                },
                None => {},
            }
            i += 1;
        }
        assert(self.enabled().take(keys.len() as int) =~= self.enabled());
        patterns
    }

    /// The patterns that a template's contents hold.
    pub fn parse_ignore_patterns(content: &str) -> (patterns: Vec<String>)
        ensures
            views(patterns@) == parse_patterns(content@),
    {
        let chars = to_chars(content);
        let mut text: Vec<(char, bool)> = Vec::new();
        let mut i: usize = 0;
        while i < chars.len()
            invariant
                i <= chars.len(),
                chars@ == content@,
                text.len() == i,
                forall|m: int| 0 <= m < i ==> (#[trigger] text[m]) == marked(content@)[m],
            decreases chars.len() - i,
        {
            text.push((chars[i], is_whitespace(chars[i])));
            i += 1;
        }
        assert(text@ =~= marked(content@));
        parse_marked_patterns(&text)
    }

    /// The folder names that the enabled templates exclude.
    pub fn get_folder_patterns(&self) -> (folders: StringHashSet)
        ensures
            folders@ == folder_set(self.patterns()),
    {
        let patterns = self.get_all_patterns();
        let mut folders = StringHashSet::new();
        insert_folders(&mut folders, &patterns);
        folders
    }

    /// The file extensions that the enabled templates exclude.
    pub fn get_extension_patterns(&self) -> (extensions: StringHashSet)
        ensures
            extensions@ == extension_set(self.patterns()),
    {
        let patterns = self.get_all_patterns();
        let mut extensions = StringHashSet::new();
        insert_extensions(&mut extensions, &patterns);
        extensions
    }

    /// The folder that a pattern names, if it names one.
    pub fn extract_folder_name(pattern: &str) -> (name: Option<String>)
        ensures
            name is Some == folder_name(pattern@) is Some,
            name matches Some(n) ==> folder_name(pattern@) == Some(n@),
    {
        let chars = to_chars(pattern);
        let mut end: usize = chars.len();
        assert(chars@.subrange(0, end as int) =~= chars@);
        while end > 0 && chars[end - 1] == '/'
            invariant
                end <= chars.len(),
                strip_trailing(chars@, '/') == strip_trailing(chars@.subrange(0, end as int), '/'),
            decreases end,
        {
            assert(chars@.subrange(0, end as int).drop_last() =~= chars@.subrange(0, end - 1));
            end -= 1;
        }
        let ghost p = chars@.subrange(0, end as int);
        assert(strip_trailing(chars@, '/') == p);
        let mut i: usize = 0;
        while i < end
            invariant
                i <= end <= chars.len(),
                p == chars@.subrange(0, end as int),
                strip_trailing(pattern@, '/') == p,
                forall|m: int| 0 <= m < i ==> p[m] != '*' && p[m] != '.',
            decreases end - i,
        {
            if chars[i] == '*' || chars[i] == '.' {
                assert(p[i as int] == chars[i as int]);
                return None;
            }
            i += 1;
        }
        Some(string_of(&chars, 0, end))
    }

    /// The extension that a pattern names, if it names one.
    pub fn extract_extension(pattern: &str) -> (extension: Option<String>)
        ensures
            extension is Some == extension_pattern(pattern@) is Some,
            extension matches Some(x) ==> extension_pattern(pattern@) == Some(x@),
    {
        let chars = to_chars(pattern);
        let n = chars.len();
        if !(n >= 2 && chars[0] == '*' && chars[1] == '.') {
            return None;
        }
        let mut start: usize = 0;
        assert(chars@.skip(0) =~= chars@);
        while n - start >= 2 && chars[start] == '*' && chars[start + 1] == '.'
            invariant
                start <= n,
                n == chars.len(),
                strip_wildcard_prefixes(chars@) == strip_wildcard_prefixes(chars@.skip(start as int)),
            decreases n - start,
        {
            assert(chars@.skip(start as int).skip(2) =~= chars@.skip(start + 2));
            start += 2;
        }
        Some(string_of(&chars, start, n))
    }

    /// The keys of the enabled templates.
    pub fn get_enabled_templates(&self) -> (keys: Vec<&str>)
        ensures
            str_views(keys@) == self.enabled(),
            self.enabled().no_duplicates(),
    {
        let enabled = self.enabled_templates.keys();
        let mut keys: Vec<&str> = Vec::new();
        let mut i: usize = 0;
        while i < enabled.len()
            invariant
                i <= enabled.len(),
                keys.len() == i,
                forall|j: int| 0 <= j < i ==> (#[trigger] keys[j])@ == enabled[j]@,
            decreases enabled.len() - i,
        {
            keys.push(enabled[i].as_str());
            i += 1;
        }
        keys
    }

    /// Enables the template with the given key.
    pub fn enable_template(&mut self, template_key: String)
        ensures
            final(self).manager() == old(self).manager(),
            final(self).enabled() == with_key(old(self).enabled(), template_key@),
    {
        self.enabled_templates.insert(template_key);
    }

    /// Disables the template with the given key.
    pub fn disable_template(&mut self, template_key: &str)
        ensures
            final(self).manager() == old(self).manager(),
            final(self).enabled() == without_key(old(self).enabled(), template_key@),
    {
        self.enabled_templates.remove(template_key);
    }

    /// Takes in the reply to a fetch that was asked for by force, as
    /// [`TemplateManager::force_update`] does.
    pub fn force_update_templates(&mut self, now: u64, reply: FetchReply) -> (result: Result<
        Vec<String>,
        UpdateError,
    >)
        ensures
            final(self).enabled() == old(self).enabled(),
            final(self).manager().wf(),
            forced(old(self).manager(), now, reply, final(self).manager(), result),
    {
        self.template_manager.force_update(now, reply)
    }

    /// The keys of all templates that the cache holds.
    pub fn get_available_templates(&self) -> (keys: Vec<String>)
        ensures
            views(keys@) == store_keys(self.manager().store()),
    {
        self.template_manager.get_available_templates()
    }
}

/// Adds to `enabled` the keys that the files in `present` speak for.
fn detect(enabled: &mut EnabledTemplates, present: &Vec<String>)
    ensures
        final(enabled)@ == detect_into(old(enabled)@, detection_table(), views(present@)),
{
    let table = ExclusionManager::get_detection_map();
    let ghost rows = detection_table();
    let mut i: usize = 0;
    assert(rows.take(0) =~= Seq::empty());
    while i < table.len()
        invariant
            i <= table.len(),
            rows == detection_table(),
            table.len() == rows.len(),
            forall|k: int|
                0 <= k < table.len() ==> (#[trigger] table[k]).0@ == rows[k].0 && str_views(
                    table[k].1@,
                ) == rows[k].1,
            enabled@ == detect_into(old(enabled)@, rows.take(i as int), views(present@)),
        decreases table.len() - i,
    {
        proof {
            assert(rows.take(i + 1).drop_last() =~= rows.take(i as int));
        }
        let row = &table[i];
        if any_present(&row.1, present) {
            enabled.insert(row.0.to_owned());
        }
        i += 1;
    }
    assert(rows.take(rows.len() as int) =~= rows);
}

/// A copy of a list of strings.
fn copy_texts(list: &Vec<String>) -> (copy: Vec<String>)
    ensures
        views(copy@) == views(list@),
{
    let mut copy: Vec<String> = Vec::new();
    let mut i: usize = 0;
    while i < list.len()
        invariant
            i <= list.len(),
            copy.len() == i,
            forall|k: int| 0 <= k < i ==> (#[trigger] copy[k])@ == list[k]@,
        decreases list.len() - i,
    {
        copy.push(list[i].clone());
        i += 1;
    }
    copy
}

/// A row's markers, where it has one.
fn one_marker(a: &'static str) -> (markers: Vec<&'static str>)
    ensures
        str_views(markers@) == seq![a@],
{
    let mut markers: Vec<&'static str> = Vec::new();
    markers.push(a);
    markers
}

/// A row's markers, where it has two.
fn two_markers(a: &'static str, b: &'static str) -> (markers: Vec<&'static str>)
    ensures
        str_views(markers@) == seq![a@, b@],
{
    let mut markers: Vec<&'static str> = Vec::new();
    markers.push(a);
    markers.push(b);
    markers
}

/// Whether one of `markers` is among the files in `present`.
fn any_present(markers: &Vec<&'static str>, present: &Vec<String>) -> (found: bool)
    ensures
        found == detects(str_views(markers@), views(present@)),
{
    let mut i: usize = 0;
    while i < markers.len()
        invariant
            i <= markers.len(),
            forall|k: int|
                0 <= k < i ==> !views(present@).contains(#[trigger] str_views(markers@)[k]),
        decreases markers.len() - i,
    {
        let marker = markers[i].to_owned();
        if contains_text(present, &marker) {
            assert(views(present@).contains(str_views(markers@)[i as int]));
            return true;
        }
        i += 1;
    }
    false
}

/// Adds to `folders` the folder names that `patterns` exclude.
pub(crate) fn insert_folders(folders: &mut StringHashSet, patterns: &Vec<String>)
    ensures
        final(folders)@ == old(folders)@.union(folder_set(views(patterns@))),
{
    let ghost all = views(patterns@);
    let mut i: usize = 0;
    assert(folders@ =~= old(folders)@.union(folder_set(all.take(0))));
    while i < patterns.len()
        invariant
            i <= patterns.len(),
            all == views(patterns@),
            folders@ == old(folders)@.union(folder_set(all.take(i as int))),
        decreases patterns.len() - i,
    {
        let found = ExclusionManager::extract_folder_name(patterns[i].as_str());
        assert(all.take(i + 1)[i as int] == all[i as int]);
        match found {
            Some(name) => {
                folders.insert(name);
            },
            None => {},
        }
        assert(folders@ =~= old(folders)@.union(folder_set(all.take(i + 1)))) by {
            lemma_folder_set_step(all, i as int);
        }
        i += 1;
    }
    assert(all.take(all.len() as int) =~= all);
}

/// Adds to `extensions` the extensions that `patterns` exclude.
pub(crate) fn insert_extensions(extensions: &mut StringHashSet, patterns: &Vec<String>)
    ensures
        final(extensions)@ == old(extensions)@.union(extension_set(views(patterns@))),
{
    let ghost all = views(patterns@);
    let mut i: usize = 0;
    assert(extensions@ =~= old(extensions)@.union(extension_set(all.take(0))));
    while i < patterns.len()
        invariant
            i <= patterns.len(),
            all == views(patterns@),
            extensions@ == old(extensions)@.union(extension_set(all.take(i as int))),
        decreases patterns.len() - i,
    {
        let found = ExclusionManager::extract_extension(patterns[i].as_str());
        assert(all.take(i + 1)[i as int] == all[i as int]);
        match found {
            Some(name) => {
                extensions.insert(name);
            },
            None => {},
        }
        assert(extensions@ =~= old(extensions)@.union(extension_set(all.take(i + 1)))) by {
            lemma_extension_set_step(all, i as int);
        }
        i += 1;
    }
    assert(all.take(all.len() as int) =~= all);
}

/// One more pattern adds the folder it names, if any, to the folder set.
proof fn lemma_folder_set_step(patterns: Seq<Seq<char>>, i: int)
    requires
        0 <= i < patterns.len(),
    ensures
        folder_set(patterns.take(i + 1)) == match folder_name(patterns[i]) {
            Some(f) => folder_set(patterns.take(i)).insert(f),
            None => folder_set(patterns.take(i)),
        },
{
    let shorter = patterns.take(i);
    let longer = patterns.take(i + 1);
    let expected = match folder_name(patterns[i]) {
        Some(f) => folder_set(shorter).insert(f),
        None => folder_set(shorter),
    };
    assert forall|f: Seq<char>| folder_set(longer).contains(f) implies expected.contains(f) by {
        let k = choose|k: int| 0 <= k < longer.len() && folder_name(#[trigger] longer[k]) == Some(f);
        if k < i {
            assert(folder_name(shorter[k]) == Some(f));
        }
    }
    assert forall|f: Seq<char>| expected.contains(f) implies folder_set(longer).contains(f) by {
        if folder_set(shorter).contains(f) {
            let k = choose|k: int|
                0 <= k < shorter.len() && folder_name(#[trigger] shorter[k]) == Some(f);
            assert(folder_name(longer[k]) == Some(f));
        } else {
            assert(folder_name(longer[i]) == Some(f));
        }
    }
}

/// One more pattern adds the extension it names, if any, to the extension
/// set.
proof fn lemma_extension_set_step(patterns: Seq<Seq<char>>, i: int)
    requires
        0 <= i < patterns.len(),
    ensures
        extension_set(patterns.take(i + 1)) == match extension_pattern(patterns[i]) {
            Some(x) => extension_set(patterns.take(i)).insert(x),
            None => extension_set(patterns.take(i)),
        },
{
    let shorter = patterns.take(i);
    let longer = patterns.take(i + 1);
    let expected = match extension_pattern(patterns[i]) {
        Some(x) => extension_set(shorter).insert(x),
        None => extension_set(shorter),
    };
    assert forall|x: Seq<char>| extension_set(longer).contains(x) implies expected.contains(x) by {
        let k = choose|k: int|
            0 <= k < longer.len() && extension_pattern(#[trigger] longer[k]) == Some(x);
        if k < i {
            assert(extension_pattern(shorter[k]) == Some(x));
        }
    }
    assert forall|x: Seq<char>| expected.contains(x) implies extension_set(longer).contains(x) by {
        if extension_set(shorter).contains(x) {
            let k = choose|k: int|
                0 <= k < shorter.len() && extension_pattern(#[trigger] shorter[k]) == Some(x);
            assert(extension_pattern(longer[k]) == Some(x));
        } else {
            assert(extension_pattern(longer[i]) == Some(x));
        }
    }
}

} // verus!

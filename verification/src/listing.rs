//! Listings of template keys, as lines of text: the keys that are cached,
//! sorted and set five to a line, and the keys that are enabled.
//!
//! Keys are sorted character by character, and a key comes before every
//! longer key that begins with it.

use vstd::prelude::*;
use vstd::relations::{sorted_by, total_ordering};
use vstd::seq_lib::lemma_sorted_unique;
use vstd::string::StringExecFns;
use crate::exclusions::str_views;
use crate::text::{decimal, push_decimal, string_of, to_chars, views};

verus! {

/// The number of keys on a full line of the listing.
pub const KEYS_PER_LINE: usize = 5;

/// Whether `a` comes no later than `b` when texts are sorted.
pub open spec fn text_le(a: Seq<char>, b: Seq<char>) -> bool
    decreases a.len(),
{
    if a.len() == 0 {
        true
    } else if b.len() == 0 {
        false
    } else if a[0] != b[0] {
        a[0] < b[0]
    } else {
        text_le(a.skip(1), b.skip(1))
    }
}

/// The order that texts are sorted by.
pub open spec fn by_text() -> spec_fn(Seq<char>, Seq<char>) -> bool {
    |a: Seq<char>, b: Seq<char>| text_le(a, b)
}

/// The first `n` of `items`, with a comma and a space between every two.
pub open spec fn joined(items: Seq<Seq<char>>, n: int) -> Seq<char>
    decreases n,
{
    if n <= 0 {
        Seq::empty()
    } else if n == 1 {
        items[0]
    } else {
        joined(items, n - 1) + ", "@ + items[n - 1]
    }
}

/// The number of lines that `n` keys take, five to a line.
pub open spec fn row_count(n: nat) -> nat {
    (n + 4) / 5
}

/// Where line `k` of the keys ends: five keys on, or with the last key.
pub open spec fn row_end(n: nat, k: int) -> int {
    if 5 * k + 5 <= n {
        5 * k + 5
    } else {
        n as int
    }
}

/// Line `k` of the keys: two spaces, then up to five keys.
pub open spec fn row(sorted: Seq<Seq<char>>, k: int) -> Seq<char> {
    "  "@ + joined(
        sorted.subrange(5 * k, row_end(sorted.len(), k)),
        row_end(sorted.len(), k) - 5 * k,
    )
}

/// The listing of the cached templates: how many there are, a blank line,
/// and the keys, sorted, five to a line.
pub open spec fn template_listing(keys: Seq<Seq<char>>) -> Seq<Seq<char>> {
    let sorted = keys.sort_by(by_text());
    seq![
        "Available exclusion templates ("@ + decimal(keys.len()) + " total):"@,
        Seq::empty(),
    ] + Seq::new(row_count(keys.len()), |k: int| row(sorted, k))
}

/// The listing of the enabled templates: how many there are and one line
/// for each, or one line that says that there are none.
pub open spec fn enabled_listing(keys: Seq<Seq<char>>) -> Seq<Seq<char>> {
    if keys.len() == 0 {
        seq!["No templates currently enabled."@]
    } else {
        seq!["Enabled templates ("@ + decimal(keys.len()) + "):"@] + Seq::new(
            keys.len(),
            |i: int| "  - "@ + keys[i],
        )
    }
}

/// The texts held by a sequence of vectors of characters.
pub open spec fn texts(v: Seq<Vec<char>>) -> Seq<Seq<char>> {
    Seq::new(v.len(), |i: int| v[i]@)
}

/// Every text comes no later than itself.
proof fn lemma_text_le_reflexive(a: Seq<char>)
    ensures
        text_le(a, a),
    decreases a.len(),
{
    if a.len() > 0 {
        lemma_text_le_reflexive(a.skip(1));
    }
}

/// Two texts that each come no later than the other are the same text.
proof fn lemma_text_le_antisymmetric(a: Seq<char>, b: Seq<char>)
    requires
        text_le(a, b),
        text_le(b, a),
    ensures
        a == b,
    decreases a.len(),
{
    if a.len() == 0 {
        assert(a =~= b);
    } else {
        lemma_text_le_antisymmetric(a.skip(1), b.skip(1));
        assert(a =~= seq![a[0]] + a.skip(1));
    }
}

/// A text that comes no later than a second comes no later than any text
/// that the second comes no later than.
proof fn lemma_text_le_transitive(a: Seq<char>, b: Seq<char>, c: Seq<char>)
    requires
        text_le(a, b),
        text_le(b, c),
    ensures
        text_le(a, c),
    decreases a.len(),
{
    if a.len() > 0 && a[0] == b[0] && b[0] == c[0] {
        lemma_text_le_transitive(a.skip(1), b.skip(1), c.skip(1));
    }
}

/// Of two texts, one comes no later than the other.
proof fn lemma_text_le_total(a: Seq<char>, b: Seq<char>)
    ensures
        text_le(a, b) || text_le(b, a),
    decreases a.len(),
{
    if a.len() > 0 && b.len() > 0 {
        if a[0] == b[0] {
            lemma_text_le_total(a.skip(1), b.skip(1));
        } else {
            assert(a[0] < b[0] || b[0] < a[0]);
        }
    }
}

/// The order of texts is a total order: any two texts can be told apart,
/// and sorting has one result.
pub proof fn lemma_text_order_is_total()
    ensures
        total_ordering(by_text()),
{
    let r = by_text();
    assert forall|a: Seq<char>| #[trigger] r(a, a) by {
        lemma_text_le_reflexive(a);
    }
    assert forall|a: Seq<char>, b: Seq<char>| #[trigger] r(a, b) && #[trigger] r(b, a) implies a
        == b by {
        lemma_text_le_antisymmetric(a, b);
    }
    assert forall|a: Seq<char>, b: Seq<char>, c: Seq<char>| #[trigger]
        r(a, b) && #[trigger] r(b, c) implies r(a, c) by {
        lemma_text_le_transitive(a, b, c);
    }
    assert forall|a: Seq<char>, b: Seq<char>| #[trigger] r(a, b) || #[trigger] r(b, a) by {
        lemma_text_le_total(a, b);
    }
}

/// Whether `a` comes no later than `b` when texts are sorted.
fn chars_le(a: &Vec<char>, b: &Vec<char>) -> (le: bool)
    ensures
        le == text_le(a@, b@),
{
    let mut i: usize = 0;
    assert(a@.skip(0) =~= a@ && b@.skip(0) =~= b@);
    while i < a.len() && i < b.len()
        invariant
            i <= a.len(),
            i <= b.len(),
            text_le(a@, b@) == text_le(a@.skip(i as int), b@.skip(i as int)),
        decreases a.len() - i,
    {
        let x: char = a[i];
        let y: char = b[i];
        if x != y {
            return x < y;
        }
        assert(a@.skip(i as int).skip(1) =~= a@.skip(i + 1));
        assert(b@.skip(i as int).skip(1) =~= b@.skip(i + 1));
        i += 1;
    }
    i == a.len()
}

/// Putting an item into a sequence adds it to what the sequence holds.
proof fn lemma_insert_to_multiset(s: Seq<Seq<char>>, i: int, x: Seq<char>)
    requires
        0 <= i <= s.len(),
    ensures
        s.insert(i, x).to_multiset() == s.to_multiset().insert(x),
{
    broadcast use vstd::multiset::group_multiset_axioms;
    broadcast use vstd::seq_lib::group_to_multiset_ensures;

    let t = s.insert(i, x);
    assert(t.remove(i) =~= s);
}

/// The texts of `list`, sorted.
fn sort_texts(list: Vec<Vec<char>>) -> (sorted: Vec<Vec<char>>)
    ensures
        texts(sorted@) == texts(list@).sort_by(by_text()),
{
    broadcast use vstd::multiset::group_multiset_axioms;
    broadcast use vstd::seq_lib::group_to_multiset_ensures;

    let ghost all = texts(list@);
    let mut rest = list;
    let mut sorted: Vec<Vec<char>> = Vec::new();
    assert(texts(sorted@) =~= Seq::<Seq<char>>::empty());
    while rest.len() > 0
        invariant
            sorted_by(texts(sorted@), by_text()),
            texts(sorted@).to_multiset().add(texts(rest@).to_multiset()) == all.to_multiset(),
        decreases rest.len(),
    {
        let ghost before = texts(sorted@);
        let ghost waiting = texts(rest@);
        let x = rest.pop().unwrap();
        assert(waiting =~= texts(rest@).push(x@));
        let mut at: usize = 0;
        while at < sorted.len() && chars_le(&sorted[at], &x)
            invariant
                at <= sorted.len(),
                before == texts(sorted@),
                forall|m: int| 0 <= m < at ==> text_le(#[trigger] before[m], x@),
            decreases sorted.len() - at,
        {
            at += 1;
        }
        sorted.insert(at, x);
        let ghost after = texts(sorted@);
        proof {
            assert(after =~= before.insert(at as int, x@));
            lemma_insert_to_multiset(before, at as int, x@);
            vstd::seq_lib::to_multiset_build(texts(rest@), x@);
            assert(after.to_multiset().add(texts(rest@).to_multiset()) =~= before.to_multiset().add(
                waiting.to_multiset(),
            ));
            assert forall|p: int, q: int| 0 <= p < q < after.len() implies #[trigger] by_text()(
                after[p],
                after[q],
            ) by {
                if q == at {
                    assert(text_le(before[p], x@));
                } else if p == at {
                    lemma_text_le_total(before[at as int], x@);
                    if q - 1 > at {
                        assert(by_text()(before[at as int], before[q - 1]));
                        lemma_text_le_transitive(x@, before[at as int], before[q - 1]);
                    }
                } else {
                    let p0 = if p < at { p } else { p - 1 };
                    let q0 = if q < at { q } else { q - 1 };
                    assert(by_text()(before[p0], before[q0]));
                }
            }
        }
    }
    proof {
        assert(texts(sorted@).to_multiset() =~= all.to_multiset());
        lemma_text_order_is_total();
        all.lemma_sort_by_ensures(by_text());
        lemma_sorted_unique(texts(sorted@), all.sort_by(by_text()), by_text());
    }
    sorted
}

/// The keys, sorted.
pub fn sorted_keys(keys: &Vec<String>) -> (sorted: Vec<String>)
    ensures
        views(sorted@) == views(keys@).sort_by(by_text()),
{
    let mut list: Vec<Vec<char>> = Vec::new();
    let mut i: usize = 0;
    while i < keys.len()
        invariant
            i <= keys.len(),
            list.len() == i,
            forall|m: int| 0 <= m < i ==> (#[trigger] list[m])@ == keys[m]@,
        decreases keys.len() - i,
    {
        list.push(to_chars(keys[i].as_str()));
        i += 1;
    }
    assert(texts(list@) =~= views(keys@));
    let ordered = sort_texts(list);
    let mut sorted: Vec<String> = Vec::new();
    let mut i: usize = 0;
    while i < ordered.len()
        invariant
            i <= ordered.len(),
            sorted.len() == i,
            forall|m: int| 0 <= m < i ==> (#[trigger] sorted[m])@ == ordered[m]@,
        decreases ordered.len() - i,
    {
        let text = &ordered[i];
        assert(text@.subrange(0, text.len() as int) =~= text@);
        sorted.push(string_of(text, 0, text.len()));
        i += 1;
    }
    sorted
}

/// Line `k` of the sorted keys.
fn row_of(sorted: &Vec<String>, k: usize) -> (line: String)
    requires
        5 * k < sorted.len(),
    ensures
        line@ == row(views(sorted@), k as int),
{
    let ghost all = views(sorted@);
    let from: usize = KEYS_PER_LINE * k;
    let to: usize = if sorted.len() - from >= KEYS_PER_LINE {
        from + KEYS_PER_LINE
    } else {
        sorted.len()
    };
    let ghost items = all.subrange(from as int, to as int);
    let mut line = "  ".to_owned();
    let mut i: usize = from;
    assert(line@ =~= "  "@ + joined(items, 0));
    while i < to
        invariant
            from <= i <= to <= sorted.len(),
            all == views(sorted@),
            items == all.subrange(from as int, to as int),
            line@ == "  "@ + joined(items, i - from),
        decreases to - i,
    {
        if i > from {
            line.append(", ");
        }
        line.append(sorted[i].as_str());
        i += 1;
    }
    line
}

/// The listing of the cached templates, line by line.
pub fn list_templates(keys: &Vec<String>) -> (lines: Vec<String>)
    ensures
        views(lines@) == template_listing(views(keys@)),
{
    let sorted = sorted_keys(keys);
    let ghost all = views(sorted@);
    let ghost expected = template_listing(views(keys@));
    proof {
        lemma_text_order_is_total();
        views(keys@).lemma_sort_by_ensures(by_text());
        all.to_multiset_ensures();
        views(keys@).to_multiset_ensures();
    }
    let mut header = "Available exclusion templates (".to_owned();
    push_decimal(&mut header, keys.len() as u64);
    header.append(" total):");
    let mut lines: Vec<String> = Vec::new();
    lines.push(header);
    lines.push(String::new());
    let full: usize = sorted.len() / KEYS_PER_LINE;
    let rows: usize = if sorted.len() % KEYS_PER_LINE > 0 {
        full + 1
    } else {
        full
    };
    let mut k: usize = 0;
    while k < rows
        invariant
            rows == row_count(all.len()),
            all == views(sorted@),
            all == views(keys@).sort_by(by_text()),
            all.len() == keys.len(),
            expected == template_listing(views(keys@)),
            k <= row_count(all.len()),
            lines.len() == k + 2,
            forall|m: int| 0 <= m < lines.len() ==> (#[trigger] lines[m])@ == expected[m],
        decreases row_count(all.len()) - k,
    {
        let line = row_of(&sorted, k);
        lines.push(line);
        k += 1;
    }
    lines
}

/// The listing of the enabled templates, line by line.
pub fn show_enabled(keys: &Vec<&str>) -> (lines: Vec<String>)
    ensures
        views(lines@) == enabled_listing(str_views(keys@)),
{
    let ghost all = str_views(keys@);
    let ghost expected = enabled_listing(all);
    let mut lines: Vec<String> = Vec::new();
    if keys.len() == 0 {
        lines.push("No templates currently enabled.".to_owned());
        return lines;
    }
    let mut header = "Enabled templates (".to_owned();
    push_decimal(&mut header, keys.len() as u64);
    header.append("):");
    lines.push(header);
    let mut i: usize = 0;
    while i < keys.len()
        invariant
            i <= keys.len(),
            keys.len() > 0,
            all == str_views(keys@),
            expected == enabled_listing(all),
            lines.len() == i + 1,
            forall|m: int| 0 <= m < lines.len() ==> (#[trigger] lines[m])@ == expected[m],
        decreases keys.len() - i,
    {
        let mut line = "  - ".to_owned();
        line.append(keys[i]);
        lines.push(line);
        i += 1;
    }
    lines
}

} // verus!

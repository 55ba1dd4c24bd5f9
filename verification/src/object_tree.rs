//! The ordered object tree that the JSON and YAML renderers share.
//!
//! Sibling nodes fold into an ordered list of key/value entries: keys
//! keep the order of their first occurrence, and siblings that repeat
//! a key collapse into one array-valued entry at that position.

use vstd::prelude::*;
use crate::node::{forest_view, Node, NodeView};

verus! {

/// A value of the object tree: a text leaf, an array, or an ordered
/// list of key/value entries.
pub enum PromptValue {
    Text(String),
    Array(Vec<PromptValue>),
    Object(Vec<(String, PromptValue)>),
}

/// The mathematical image of a [`PromptValue`].
pub enum ValueView {
    Text(Seq<char>),
    Array(Seq<ValueView>),
    Object(Seq<(Seq<char>, ValueView)>),
}

impl View for PromptValue {
    type V = ValueView;

    open spec fn view(&self) -> ValueView
        decreases *self,
    {
        match self {
            PromptValue::Text(s) => ValueView::Text(s@),
            PromptValue::Array(items) => {
                proof {
                    assert(decreases_to!(*self => *items));
                    assert(decreases_to!(*items => items@));
                }
                ValueView::Array(values_view(items@))
            },
            PromptValue::Object(entries) => {
                proof {
                    assert(decreases_to!(*self => *entries));
                    assert(decreases_to!(*entries => entries@));
                }
                ValueView::Object(entries_view(entries@))
            },
        }
    }
}

/// The sequence of views of a sequence of values.
pub open spec fn values_view(s: Seq<PromptValue>) -> Seq<ValueView>
    decreases s,
{
    if s.len() == 0 {
        Seq::empty()
    } else {
        Seq::empty().push(s[0]@) + values_view(s.subrange(1, s.len() as int))
    }
}

/// The sequence of views of a sequence of entries.
pub open spec fn entries_view(s: Seq<(String, PromptValue)>) -> Seq<(Seq<char>, ValueView)>
    decreases s,
{
    if s.len() == 0 {
        Seq::empty()
    } else {
        Seq::empty().push((s[0].0@, s[0].1@)) + entries_view(s.subrange(1, s.len() as int))
    }
}

/// `values_view` is the pointwise image of the value sequence.
pub proof fn lemma_values_view(s: Seq<PromptValue>)
    ensures
        values_view(s).len() == s.len(),
        forall|i: int| 0 <= i < s.len() ==> values_view(s)[i] == s[i]@,
    decreases s.len(),
{
    if s.len() > 0 {
        let rest = s.subrange(1, s.len() as int);
        lemma_values_view(rest);
        assert(values_view(s) == Seq::empty().push(s[0]@) + values_view(rest));
        assert(forall|i: int| 1 <= i < s.len() ==> rest[i - 1] == #[trigger] s[i]);
    } else {
        assert(values_view(s).len() == 0);
    }
}

/// `entries_view` is the pointwise image of the entry sequence.
pub proof fn lemma_entries_view(s: Seq<(String, PromptValue)>)
    ensures
        entries_view(s).len() == s.len(),
        forall|i: int| 0 <= i < s.len() ==> entries_view(s)[i] == (s[i].0@, s[i].1@),
    decreases s.len(),
{
    if s.len() > 0 {
        let rest = s.subrange(1, s.len() as int);
        lemma_entries_view(rest);
        assert(entries_view(s) == Seq::empty().push((s[0].0@, s[0].1@)) + entries_view(rest));
        assert(forall|i: int| 1 <= i < s.len() ==> rest[i - 1] == #[trigger] s[i]);
    } else {
        assert(entries_view(s).len() == 0);
    }
}

/// The key a sibling contributes: its tag, or `BLOCK` when the tag is
/// empty.
pub open spec fn node_key(n: NodeView) -> Seq<char> {
    if n.tag.len() == 0 {
        seq!['B', 'L', 'O', 'C', 'K']
    } else {
        n.tag
    }
}

/// The index of the first entry with the given key, or -1.
pub open spec fn find_key(entries: Seq<(Seq<char>, ValueView)>, key: Seq<char>) -> int
    decreases entries.len(),
{
    if entries.len() == 0 {
        -1
    } else if entries[0].0 == key {
        0
    } else {
        let r = find_key(entries.subrange(1, entries.len() as int), key);
        if r == -1 {
            -1
        } else {
            r + 1
        }
    }
}

/// `find_key` yields -1 exactly when the key is absent, and otherwise
/// the position of its first occurrence.
pub proof fn lemma_find_key(entries: Seq<(Seq<char>, ValueView)>, key: Seq<char>)
    ensures
        find_key(entries, key) == -1 ==> forall|j: int|
            0 <= j < entries.len() ==> (#[trigger] entries[j]).0 != key,
        find_key(entries, key) != -1 ==> {
            let r = find_key(entries, key);
            &&& 0 <= r < entries.len()
            &&& entries[r].0 == key
            &&& forall|j: int| 0 <= j < r ==> (#[trigger] entries[j]).0 != key
        },
    decreases entries.len(),
{
    if entries.len() > 0 {
        let rest = entries.subrange(1, entries.len() as int);
        lemma_find_key(rest, key);
        assert(forall|j: int| 1 <= j < entries.len() ==> rest[j - 1] == #[trigger] entries[j]);
    }
}

/// How a repeated key's value absorbs one more sibling value: an
/// existing array grows by one; anything else becomes a two-element
/// array of the old and the new value.
pub open spec fn merge_dup(old_v: ValueView, v: ValueView) -> ValueView {
    match old_v {
        ValueView::Array(a) => ValueView::Array(a.push(v)),
        _ => ValueView::Array(seq![old_v, v]),
    }
}

/// Adds one key/value pair to the entry list: a fresh key is appended
/// at the end, a repeated key merges into the entry where the key
/// first occurred.
pub open spec fn insert_entry(
    entries: Seq<(Seq<char>, ValueView)>,
    key: Seq<char>,
    v: ValueView,
) -> Seq<(Seq<char>, ValueView)> {
    let i = find_key(entries, key);
    if i == -1 {
        entries.push((key, v))
    } else {
        entries.update(i, (key, merge_dup(entries[i].1, v)))
    }
}

/// Folds the siblings of `s`, left to right, into `acc`.
pub open spec fn build_entries_from(
    s: Seq<NodeView>,
    acc: Seq<(Seq<char>, ValueView)>,
) -> Seq<(Seq<char>, ValueView)>
    decreases s, 0nat,
{
    if s.len() == 0 {
        acc
    } else {
        build_entries_from(
            s.subrange(1, s.len() as int),
            insert_entry(acc, node_key(s[0]), build_value(s[0])),
        )
    }
}

/// The entry list built from a sibling sequence.
pub open spec fn build_entries(s: Seq<NodeView>) -> Seq<(Seq<char>, ValueView)> {
    build_entries_from(s, Seq::empty())
}

/// The object built from a sibling sequence.
pub open spec fn build_object(s: Seq<NodeView>) -> ValueView
    decreases s, 1nat,
{
    ValueView::Object(build_entries_from(s, Seq::empty()))
}

/// The value a sibling contributes: the object of its children when it
/// is a branch, else its content as text.
pub open spec fn build_value(n: NodeView) -> ValueView
    decreases n, 2nat,
{
    if n.children.len() > 0 {
        build_object(n.children)
    } else {
        ValueView::Text(n.content)
    }
}

/// Unrolls `build_entries_from` at position `i`.
pub proof fn lemma_build_entries_skip(s: Seq<NodeView>, acc: Seq<(Seq<char>, ValueView)>, i: int)
    requires
        0 <= i < s.len(),
    ensures
        build_entries_from(s.skip(i), acc) == build_entries_from(
            s.skip(i + 1),
            insert_entry(acc, node_key(s[i]), build_value(s[i])),
        ),
{
    let rest = s.skip(i);
    assert(rest.len() == s.len() - i);
    assert(rest[0] == s[i]);
    assert(rest.subrange(1, rest.len() as int) =~= s.skip(i + 1));
}

/// No two entries share a key.
pub open spec fn unique_keys(entries: Seq<(Seq<char>, ValueView)>) -> bool {
    forall|i: int, j: int|
        0 <= i < j < entries.len() ==> (#[trigger] entries[i]).0 != (#[trigger] entries[j]).0
}

/// The values contributed by the siblings that carry `key`, in
/// sibling order.
pub open spec fn values_of(s: Seq<NodeView>, key: Seq<char>) -> Seq<ValueView>
    decreases s,
{
    if s.len() == 0 {
        Seq::empty()
    } else {
        (if node_key(s[0]) == key {
            seq![build_value(s[0])]
        } else {
            Seq::<ValueView>::empty()
        }) + values_of(s.subrange(1, s.len() as int), key)
    }
}

/// Folds a run of later duplicate values into an entry's value, one
/// at a time.
pub open spec fn merge_into(v: ValueView, vs: Seq<ValueView>) -> ValueView
    decreases vs.len(),
{
    if vs.len() == 0 {
        v
    } else {
        merge_into(merge_dup(v, vs[0]), vs.subrange(1, vs.len() as int))
    }
}

/// A sibling's value is never itself an array.
proof fn lemma_build_value_not_array(n: NodeView)
    ensures
        !(build_value(n) is Array),
{
}

/// Merging values into an array appends them.
proof fn lemma_merge_into_array(a: Seq<ValueView>, vs: Seq<ValueView>)
    ensures
        merge_into(ValueView::Array(a), vs) == ValueView::Array(a + vs),
    decreases vs.len(),
{
    if vs.len() == 0 {
        assert(a + vs =~= a);
    } else {
        let rest = vs.subrange(1, vs.len() as int);
        lemma_merge_into_array(a.push(vs[0]), rest);
        assert(a.push(vs[0]) + rest =~= a + vs);
    }
}

/// Merging one or more values into a non-array makes the array of the
/// old value followed by the new ones.
proof fn lemma_merge_into_fresh(v: ValueView, vs: Seq<ValueView>)
    requires
        !(v is Array),
        vs.len() >= 1,
    ensures
        merge_into(v, vs) == ValueView::Array(seq![v] + vs),
{
    let rest = vs.subrange(1, vs.len() as int);
    lemma_merge_into_array(seq![v, vs[0]], rest);
    assert(seq![v, vs[0]] + rest =~= seq![v] + vs);
}

/// `values_of` distributes over concatenation.
proof fn lemma_values_of_add(a: Seq<NodeView>, b: Seq<NodeView>, key: Seq<char>)
    ensures
        values_of(a + b, key) == values_of(a, key) + values_of(b, key),
    decreases a.len(),
{
    if a.len() == 0 {
        assert(a + b =~= b);
        assert(values_of(a, key) + values_of(b, key) =~= values_of(b, key));
    } else {
        let ar = a.subrange(1, a.len() as int);
        lemma_values_of_add(ar, b, key);
        assert((a + b)[0] == a[0]);
        assert((a + b).subrange(1, (a + b).len() as int) =~= ar + b);
        let h = if node_key(a[0]) == key {
            seq![build_value(a[0])]
        } else {
            Seq::<ValueView>::empty()
        };
        assert(values_of(a + b, key) == h + (values_of(ar, key) + values_of(b, key)));
        assert(h + (values_of(ar, key) + values_of(b, key)) =~= (h + values_of(ar, key))
            + values_of(b, key));
    }
}

/// An entry whose key stands at `x`, with no earlier occurrence, is
/// the one `find_key` yields.
proof fn lemma_find_key_exact(
    entries: Seq<(Seq<char>, ValueView)>,
    key: Seq<char>,
    x: int,
)
    requires
        0 <= x < entries.len(),
        entries[x].0 == key,
        forall|j: int| 0 <= j < x ==> (#[trigger] entries[j]).0 != key,
    ensures
        find_key(entries, key) == x,
    decreases entries.len(),
{
    if x > 0 {
        let rest = entries.subrange(1, entries.len() as int);
        assert(forall|j: int| 0 <= j < rest.len() ==> rest[j] == #[trigger] entries[j + 1]);
        assert(forall|j: int| 0 <= j < x - 1 ==> (#[trigger] rest[j]).0 != key);
        lemma_find_key_exact(rest, key, x - 1);
    }
}

/// What one insertion does to key lookup: a fresh key lands at the
/// end, a present key keeps its position and merges its value, and
/// every other key's entry is untouched.
proof fn lemma_insert_entry_facts(
    acc: Seq<(Seq<char>, ValueView)>,
    k0: Seq<char>,
    v0: ValueView,
    k: Seq<char>,
)
    requires
        unique_keys(acc),
    ensures
        unique_keys(insert_entry(acc, k0, v0)),
        k == k0 && find_key(acc, k0) == -1 ==> find_key(insert_entry(acc, k0, v0), k)
            == acc.len() && insert_entry(acc, k0, v0)[acc.len() as int].1 == v0,
        k == k0 && find_key(acc, k0) != -1 ==> find_key(insert_entry(acc, k0, v0), k)
            == find_key(acc, k0) && insert_entry(acc, k0, v0)[find_key(acc, k0)].1 == merge_dup(
            acc[find_key(acc, k0)].1,
            v0,
        ),
        k != k0 ==> find_key(insert_entry(acc, k0, v0), k) == find_key(acc, k) && (find_key(
            acc,
            k,
        ) != -1 ==> insert_entry(acc, k0, v0)[find_key(acc, k)].1 == acc[find_key(acc, k)].1),
{
    let i0 = find_key(acc, k0);
    lemma_find_key(acc, k0);
    lemma_find_key(acc, k);
    if i0 == -1 {
        let acc2 = acc.push((k0, v0));
        assert(insert_entry(acc, k0, v0) == acc2);
        assert(forall|j: int| 0 <= j < acc.len() ==> acc2[j] == #[trigger] acc[j]);
        assert(unique_keys(acc2)) by {
            assert(forall|j: int| 0 <= j < acc.len() ==> (#[trigger] acc[j]).0 != k0);
        }
        lemma_find_key_exact(acc2, k0, acc.len() as int);
        if k != k0 {
            if find_key(acc, k) != -1 {
                lemma_find_key_exact(acc2, k, find_key(acc, k));
            } else {
                lemma_find_key(acc2, k);
                if find_key(acc2, k) != -1 {
                    assert(acc2[find_key(acc2, k)].0 == k);
                    assert(find_key(acc2, k) < acc.len());
                }
            }
        }
    } else {
        let acc2 = acc.update(i0, (k0, merge_dup(acc[i0].1, v0)));
        assert(insert_entry(acc, k0, v0) == acc2);
        assert(acc2.len() == acc.len());
        assert(forall|j: int| 0 <= j < acc.len() ==> (#[trigger] acc2[j]).0 == acc[j].0);
        assert(unique_keys(acc2));
        lemma_find_key_exact(acc2, k0, i0);
        if k != k0 {
            if find_key(acc, k) != -1 {
                assert(find_key(acc, k) != i0);
                lemma_find_key_exact(acc2, k, find_key(acc, k));
            } else {
                lemma_find_key(acc2, k);
                if find_key(acc2, k) != -1 {
                    assert(acc2[find_key(acc2, k)].0 == acc[find_key(acc2, k)].0);
                }
            }
        }
    }
}

/// How the fold resolves one key: absent keys stay absent, a lone
/// occurrence keeps its plain value, repeated occurrences collapse
/// into the array of all their values, and a key already accumulated
/// merges every later value into its entry.
proof fn lemma_build_entries_from_char(
    s: Seq<NodeView>,
    acc: Seq<(Seq<char>, ValueView)>,
    k: Seq<char>,
)
    requires
        unique_keys(acc),
    ensures
        unique_keys(build_entries_from(s, acc)),
        find_key(acc, k) == -1 && values_of(s, k).len() == 0 ==> find_key(
            build_entries_from(s, acc),
            k,
        ) == -1,
        find_key(acc, k) == -1 && values_of(s, k).len() == 1 ==> find_key(
            build_entries_from(s, acc),
            k,
        ) != -1 && build_entries_from(s, acc)[find_key(build_entries_from(s, acc), k)].1
            == values_of(s, k)[0],
        find_key(acc, k) == -1 && values_of(s, k).len() >= 2 ==> find_key(
            build_entries_from(s, acc),
            k,
        ) != -1 && build_entries_from(s, acc)[find_key(build_entries_from(s, acc), k)].1
            == ValueView::Array(values_of(s, k)),
        find_key(acc, k) != -1 ==> find_key(build_entries_from(s, acc), k) != -1
            && build_entries_from(s, acc)[find_key(build_entries_from(s, acc), k)].1
            == merge_into(acc[find_key(acc, k)].1, values_of(s, k)),
    decreases s.len(),
{
    if s.len() == 0 {
    } else {
        let k0 = node_key(s[0]);
        let v0 = build_value(s[0]);
        let rest = s.subrange(1, s.len() as int);
        let acc2 = insert_entry(acc, k0, v0);
        lemma_insert_entry_facts(acc, k0, v0, k);
        lemma_build_entries_from_char(rest, acc2, k);
        let r = build_entries_from(s, acc);
        assert(r == build_entries_from(rest, acc2));
        let vs = values_of(s, k);
        let vsr = values_of(rest, k);
        if k0 == k {
            assert(vs == seq![v0] + vsr);
            assert(vs.len() == 1 + vsr.len());
            if find_key(acc, k) == -1 {
                assert(find_key(acc2, k) == acc.len() && acc2[acc.len() as int].1 == v0);
                assert(r[find_key(r, k)].1 == merge_into(v0, vsr));
                if vsr.len() == 0 {
                    assert(merge_into(v0, vsr) == v0);
                    assert(vs[0] == v0);
                } else {
                    lemma_build_value_not_array(s[0]);
                    lemma_merge_into_fresh(v0, vsr);
                    assert(merge_into(v0, vsr) == ValueView::Array(seq![v0] + vsr));
                }
            } else {
                let ia = find_key(acc, k);
                assert(find_key(acc2, k) == ia && acc2[ia].1 == merge_dup(acc[ia].1, v0));
                assert(r[find_key(r, k)].1 == merge_into(merge_dup(acc[ia].1, v0), vsr));
                assert(merge_into(acc[ia].1, vs) == merge_into(merge_dup(acc[ia].1, v0), vsr))
                    by {
                    assert(vs[0] == v0);
                    assert(vs.subrange(1, vs.len() as int) =~= vsr);
                }
            }
        } else {
            assert(vs =~= vsr);
            assert(find_key(acc2, k) == find_key(acc, k));
            if find_key(acc, k) != -1 {
                assert(acc2[find_key(acc2, k)].1 == acc[find_key(acc, k)].1);
            }
        }
    }
}

/// The index of `i`'s occurrence among the values of its key: how many
/// earlier siblings carry the same key.
pub open spec fn occurrence_rank(s: Seq<NodeView>, key: Seq<char>, i: int) -> int {
    values_of(s.take(i), key).len() as int
}

/// A sibling's value stands at its occurrence rank among the values
/// of its key.
proof fn lemma_values_of_position(s: Seq<NodeView>, key: Seq<char>, i: int)
    requires
        0 <= i < s.len(),
        node_key(s[i]) == key,
    ensures
        0 <= occurrence_rank(s, key, i) < values_of(s, key).len(),
        values_of(s, key)[occurrence_rank(s, key, i)] == build_value(s[i]),
{
    let pre = s.take(i);
    let post = s.skip(i);
    assert(s =~= pre + post);
    lemma_values_of_add(pre, post, key);
    assert(post[0] == s[i]);
    assert(values_of(post, key) == seq![build_value(s[i])] + values_of(
        post.subrange(1, post.len() as int),
        key,
    ));
}

/// Occurrence ranks grow strictly along the siblings.
proof fn lemma_occurrence_rank_monotone(s: Seq<NodeView>, key: Seq<char>, i: int, j: int)
    requires
        0 <= i < j <= s.len(),
        node_key(s[i]) == key,
    ensures
        occurrence_rank(s, key, i) < occurrence_rank(s, key, j),
{
    let pre = s.take(i);
    let mid = s.subrange(i, j);
    assert(s.take(j) =~= pre + mid);
    lemma_values_of_add(pre, mid, key);
    assert(mid[0] == s[i]);
    assert(values_of(mid, key) == seq![build_value(s[i])] + values_of(
        mid.subrange(1, mid.len() as int),
        key,
    ));
}

/// Two siblings that share a key collapse into one entry of the built
/// object: the entry carries their common key, its value is the array
/// of all the values that key contributed among the siblings, and the
/// two siblings' values stand in it in sibling order.
pub proof fn lemma_sibling_tags_coalesce(s: Seq<NodeView>, i: int, j: int)
    requires
        0 <= i < j < s.len(),
        node_key(s[i]) == node_key(s[j]),
    ensures
        ({
            let k = node_key(s[i]);
            let entries = build_entries(s);
            let idx = find_key(entries, k);
            let vs = values_of(s, k);
            let a = occurrence_rank(s, k, i);
            let b = occurrence_rank(s, k, j);
            &&& 0 <= idx < entries.len()
            &&& entries[idx].0 == k
            &&& entries[idx].1 == ValueView::Array(vs)
            &&& 0 <= a < b < vs.len()
            &&& vs[a] == build_value(s[i])
            &&& vs[b] == build_value(s[j])
        }),
{
    let k = node_key(s[i]);
    let entries = build_entries(s);
    lemma_values_of_position(s, k, i);
    lemma_values_of_position(s, k, j);
    lemma_occurrence_rank_monotone(s, k, i, j);
    assert(values_of(s, k).len() >= 2);
    lemma_build_entries_from_char(s, Seq::empty(), k);
    lemma_find_key(entries, k);
}

/// The keys of an entry list, in order.
pub open spec fn entry_keys(entries: Seq<(Seq<char>, ValueView)>) -> Seq<Seq<char>>
    decreases entries.len(),
{
    if entries.len() == 0 {
        Seq::empty()
    } else {
        seq![entries[0].0] + entry_keys(entries.subrange(1, entries.len() as int))
    }
}

/// `entry_keys` is the pointwise key of each entry.
proof fn lemma_entry_keys(entries: Seq<(Seq<char>, ValueView)>)
    ensures
        entry_keys(entries).len() == entries.len(),
        forall|i: int| 0 <= i < entries.len() ==> (#[trigger] entry_keys(entries)[i])
            == entries[i].0,
    decreases entries.len(),
{
    if entries.len() > 0 {
        let rest = entries.subrange(1, entries.len() as int);
        lemma_entry_keys(rest);
        assert(forall|i: int| 1 <= i < entries.len() ==> rest[i - 1] == #[trigger] entries[i]);
    }
}

/// A key stands among the entry keys exactly when lookup finds it.
proof fn lemma_keys_contains(entries: Seq<(Seq<char>, ValueView)>, k: Seq<char>)
    ensures
        entry_keys(entries).contains(k) <==> find_key(entries, k) != -1,
{
    lemma_entry_keys(entries);
    lemma_find_key(entries, k);
    if find_key(entries, k) != -1 {
        assert(entry_keys(entries)[find_key(entries, k)] == k);
    }
    if entry_keys(entries).contains(k) {
        let i = choose|i: int| 0 <= i < entry_keys(entries).len() && entry_keys(entries)[i] == k;
        assert(entries[i].0 == k);
    }
}

/// The distinct keys the siblings add, in first-occurrence order,
/// appended to those already `seen`.
pub open spec fn first_keys_from(s: Seq<NodeView>, seen: Seq<Seq<char>>) -> Seq<Seq<char>>
    decreases s.len(),
{
    if s.len() == 0 {
        seen
    } else {
        first_keys_from(
            s.subrange(1, s.len() as int),
            if seen.contains(node_key(s[0])) {
                seen
            } else {
                seen.push(node_key(s[0]))
            },
        )
    }
}

/// The distinct keys of the siblings, each at the position of its
/// first occurrence.
pub open spec fn first_keys(s: Seq<NodeView>) -> Seq<Seq<char>> {
    first_keys_from(s, Seq::empty())
}

/// The fold's entry keys follow the siblings' first occurrences.
proof fn lemma_build_keys(s: Seq<NodeView>, acc: Seq<(Seq<char>, ValueView)>)
    requires
        unique_keys(acc),
    ensures
        entry_keys(build_entries_from(s, acc)) == first_keys_from(s, entry_keys(acc)),
    decreases s.len(),
{
    if s.len() > 0 {
        let k0 = node_key(s[0]);
        let v0 = build_value(s[0]);
        let rest = s.subrange(1, s.len() as int);
        let acc2 = insert_entry(acc, k0, v0);
        lemma_insert_entry_facts(acc, k0, v0, k0);
        lemma_keys_contains(acc, k0);
        lemma_entry_keys(acc);
        lemma_entry_keys(acc2);
        lemma_find_key(acc, k0);
        if find_key(acc, k0) == -1 {
            assert(acc2 == acc.push((k0, v0)));
            assert(forall|i: int| 0 <= i < acc.len() ==> acc2[i] == #[trigger] acc[i]);
            assert(entry_keys(acc2) =~~= entry_keys(acc).push(k0));
        } else {
            assert(forall|i: int| 0 <= i < acc.len() ==> (#[trigger] acc2[i]).0 == acc[i].0);
            assert(entry_keys(acc2) =~~= entry_keys(acc));
        }
        lemma_build_keys(rest, acc2);
    }
}

/// The built object's keys stand in first-occurrence order: one key
/// per distinct sibling key, positioned where that key first appeared.
pub proof fn lemma_builder_key_order(s: Seq<NodeView>)
    ensures
        entry_keys(build_entries(s)) == first_keys(s),
{
    lemma_build_keys(s, Seq::empty());
}

/// Finds the entry with the given key, if any.
fn find_entry(entries: &Vec<(String, PromptValue)>, key: &String) -> (r: Option<usize>)
    ensures
        match r {
            Option::Some(ix) => ix as int == find_key(entries_view(entries@), key@),
            Option::None => find_key(entries_view(entries@), key@) == -1,
        },
{
    let ghost ev = entries_view(entries@);
    proof {
        lemma_entries_view(entries@);
        lemma_find_key(ev, key@);
    }
    let n = entries.len();
    let mut j: usize = 0;
    while j < n
        invariant
            j <= n,
            n == entries@.len(),
            ev == entries_view(entries@),
            ev.len() == n,
            forall|m: int| 0 <= m < n ==> ev[m] == (entries@[m].0@, entries@[m].1@),
            forall|m: int| 0 <= m < j ==> (#[trigger] ev[m]).0 != key@,
        decreases n - j,
    {
        if entries[j].0.eq(key) {
            proof {
                assert(ev[j as int].0 == key@);
                lemma_find_key(ev, key@);
                if find_key(ev, key@) == -1 {
                    assert(ev[j as int].0 != key@);
                }
                assert(find_key(ev, key@) == j as int);
            }
            return Option::Some(j);
        }
        j = j + 1;
    }
    proof {
        lemma_find_key(ev, key@);
        if find_key(ev, key@) != -1 {
            assert(ev[find_key(ev, key@)].0 == key@);
        }
    }
    Option::None
}

/// Folds an ordered sequence of sibling nodes into one object-tree
/// value: an object whose keys keep first-occurrence order and whose
/// repeated keys collapse into arrays.
pub fn to_prompt_tree(nodes: &[Node]) -> (res: PromptValue)
    ensures
        res@ == build_object(forest_view(nodes@)),
    decreases nodes@,
{
    let ghost fv = forest_view(nodes@);
    proof {
        crate::node::lemma_forest_view(nodes@);
        assert(fv.skip(0) =~= fv);
    }
    let n = nodes.len();
    let mut entries: Vec<(String, PromptValue)> = Vec::new();
    let mut i: usize = 0;
    proof {
        assert(entries_view(entries@) =~= Seq::<(Seq<char>, ValueView)>::empty());
    }
    while i < n
        invariant
            i <= n,
            n == nodes@.len(),
            fv == forest_view(nodes@),
            fv.len() == n,
            forall|j: int| 0 <= j < n ==> fv[j] == nodes@[j]@,
            build_entries_from(fv.skip(i as int), entries_view(entries@)) == build_entries(fv),
        decreases n - i,
    {
        let node = &nodes[i];
        proof {
            lemma_build_entries_skip(fv, entries_view(entries@), i as int);
        }
        let key: String = if node.tag.as_str().is_empty() {
            let b = <String as vstd::prelude::StringExecFns>::from_str("BLOCK");
            proof {
                reveal_strlit("BLOCK");
                assert(b@ =~= seq!['B', 'L', 'O', 'C', 'K']);
            }
            b
        } else {
            node.tag.clone()
        };
        proof {
            assert(key@ == node_key(fv[i as int]));
        }
        let value: PromptValue = match &node.children {
            Option::Some(cs) if cs.len() > 0 => {
                proof {
                    assert(decreases_to!(nodes@ => nodes@[i as int]));
                    assert(decreases_to!(nodes@[i as int] => nodes@[i as int].children));
                    assert(decreases_to!(nodes@[i as int].children => *cs));
                    assert(decreases_to!(*cs => cs@));
                    assert(forest_view(cs@) == fv[i as int].children);
                    crate::node::lemma_forest_view(cs@);
                    assert(fv[i as int].children.len() > 0);
                }
                to_prompt_tree(cs.as_slice())
            },
            _ => {
                proof {
                    assert(fv[i as int].children.len() == 0);
                }
                PromptValue::Text(node.content.clone())
            },
        };
        proof {
            assert(value@ == build_value(fv[i as int]));
        }
        let ghost ev = entries_view(entries@);
        match find_entry(&entries, &key) {
            Option::Some(ix) => {
                let ghost pre = entries@;
                proof {
                    lemma_entries_view(pre);
                    lemma_find_key(ev, key@);
                }
                let old_pair = entries.remove(ix);
                proof {
                    assert(old_pair == pre[ix as int]);
                    assert(ev[ix as int] == (pre[ix as int].0@, pre[ix as int].1@));
                }
                let new_value: PromptValue = match old_pair.1 {
                    PromptValue::Array(mut arr) => {
                        let ghost arr0 = arr@;
                        proof {
                            lemma_values_view(arr0);
                        }
                        arr.push(value);
                        proof {
                            lemma_values_view(arr@);
                            assert(values_view(arr@) =~= values_view(arr0).push(value@));
                        }
                        PromptValue::Array(arr)
                    },
                    other => {
                        let ghost other_view = other@;
                        let mut pair_vec: Vec<PromptValue> = Vec::new();
                        pair_vec.push(other);
                        pair_vec.push(value);
                        proof {
                            lemma_values_view(pair_vec@);
                            assert(values_view(pair_vec@) =~= seq![other_view, value@]);
                        }
                        PromptValue::Array(pair_vec)
                    },
                };
                proof {
                    assert(new_value@ == merge_dup(ev[ix as int].1, value@));
                }
                entries.insert(ix, (key, new_value));
                proof {
                    assert(entries@ =~= pre.update(ix as int, (key, new_value)));
                    lemma_entries_view(entries@);
                    assert(find_key(ev, key@) == ix as int);
                    let target = ev.update(ix as int, (key@, merge_dup(ev[ix as int].1, value@)));
                    assert(insert_entry(ev, key@, value@) == target);
                    assert forall|m: int| 0 <= m < pre.len() implies entries_view(entries@)[m]
                        == target[m] by {
                        if m == ix as int {
                            assert(entries@[m] == (key, new_value));
                        } else {
                            assert(entries@[m] == pre[m]);
                        }
                    }
                    assert(entries_view(entries@) =~= target);
                }
            },
            Option::None => {
                let ghost pre = entries@;
                proof {
                    lemma_entries_view(pre);
                }
                entries.push((key, value));
                proof {
                    lemma_entries_view(entries@);
                    assert(entries_view(entries@) =~= insert_entry(ev, key@, value@));
                }
            },
        }
        i = i + 1;
    }
    proof {
        assert(fv.skip(n as int) =~= Seq::<NodeView>::empty());
    }
    PromptValue::Object(entries)
}

} // verus!

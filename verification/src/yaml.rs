//! The YAML renderer over the object tree.

use vstd::prelude::*;
use crate::json::{escape_json_string, json_quoted, value_height};
use crate::object_tree::{
    entries_view, lemma_entries_view, lemma_values_view, values_view, PromptValue, ValueView,
};
use crate::text::{push_spaces, spaces};
use crate::tokens::{is_whitespace_char, spec_is_whitespace};

verus! {

/// The number of white-space characters at the front of `s`.
pub open spec fn leading_ws(s: Seq<char>) -> int
    decreases s.len(),
{
    if s.len() == 0 || !spec_is_whitespace(s[0]) {
        0
    } else {
        1 + leading_ws(s.subrange(1, s.len() as int))
    }
}

/// `s` with its leading white space removed.
pub open spec fn trim_start_spec(s: Seq<char>) -> Seq<char> {
    s.skip(leading_ws(s))
}

/// `leading_ws` is the position of the first non-white-space character.
proof fn lemma_leading_ws(s: Seq<char>, k: int)
    requires
        0 <= k <= s.len(),
        forall|j: int| 0 <= j < k ==> spec_is_whitespace(s[j]),
        k < s.len() ==> !spec_is_whitespace(s[k]),
    ensures
        leading_ws(s) == k,
    decreases s.len(),
{
    if k == 0 {
    } else {
        let rest = s.subrange(1, s.len() as int);
        assert(forall|j: int| 0 <= j < k - 1 ==> rest[j] == s[j + 1]);
        lemma_leading_ws(rest, k - 1);
    }
}

/// Appends `s` to `out` with its leading white space removed.
fn push_trimmed(out: &mut String, s: &str)
    ensures
        final(out)@ == old(out)@ + trim_start_spec(s@),
{
    let n = s.unicode_len();
    let mut idx: usize = 0;
    while idx < n && is_whitespace_char(s.get_char(idx))
        invariant
            idx <= n,
            n == s@.len(),
            forall|j: int| 0 <= j < idx ==> spec_is_whitespace(s@[j]),
        decreases n - idx,
    {
        idx = idx + 1;
    }
    proof {
        lemma_leading_ws(s@, idx as int);
    }
    let t = s.substring_char(idx, n);
    out.append(t);
    proof {
        assert(t@ =~= s@.skip(idx as int));
    }
}

/// The YAML rendering of a value at `indent`: scalars as the same
/// quoted form JSON uses, arrays as dashed block items, objects as
/// `key: value` lines.
pub open spec fn yaml_spec(v: ValueView, indent: nat) -> Seq<char>
    decreases v,
{
    match v {
        ValueView::Text(s) => json_quoted(s),
        ValueView::Array(a) => yaml_items(a, indent),
        ValueView::Object(o) => yaml_entries(o, indent),
    }
}

/// The items of a YAML block sequence: one `- ` line per element, the
/// element rendered two spaces deeper and spliced in after the dash
/// with its leading white space trimmed.
pub open spec fn yaml_items(a: Seq<ValueView>, indent: nat) -> Seq<char>
    decreases a,
{
    if a.len() == 0 {
        Seq::empty()
    } else {
        spaces(indent) + seq!['-', ' '] + trim_start_spec(yaml_spec(a[0], indent + 2))
            + seq!['\n'] + yaml_items(a.subrange(1, a.len() as int), indent)
    }
}

/// The entries of a YAML mapping: `key: ` then the scalar inline, or a
/// newline and the nested block (sequences at the key's own indent,
/// mappings two spaces deeper).
pub open spec fn yaml_entries(o: Seq<(Seq<char>, ValueView)>, indent: nat) -> Seq<char>
    decreases o,
{
    if o.len() == 0 {
        Seq::empty()
    } else {
        spaces(indent) + o[0].0 + seq![':', ' '] + (match o[0].1 {
            ValueView::Text(s) => json_quoted(s) + seq!['\n'],
            ValueView::Array(a) => seq!['\n'] + yaml_items(a, indent),
            ValueView::Object(oo) => seq!['\n'] + yaml_entries(oo, indent + 2),
        }) + yaml_entries(o.subrange(1, o.len() as int), indent)
    }
}

/// Unrolls `yaml_items` at position `i`.
proof fn lemma_yaml_items_skip(a: Seq<ValueView>, indent: nat, i: int)
    requires
        0 <= i < a.len(),
    ensures
        yaml_items(a.skip(i), indent) == spaces(indent) + seq!['-', ' '] + trim_start_spec(
            yaml_spec(a[i], indent + 2),
        ) + seq!['\n'] + yaml_items(a.skip(i + 1), indent),
{
    let rest = a.skip(i);
    assert(rest.len() == a.len() - i);
    assert(rest[0] == a[i]);
    assert(rest.subrange(1, rest.len() as int) =~= a.skip(i + 1));
}

/// Unrolls `yaml_entries` at position `i`.
proof fn lemma_yaml_entries_skip(o: Seq<(Seq<char>, ValueView)>, indent: nat, i: int)
    requires
        0 <= i < o.len(),
    ensures
        yaml_entries(o.skip(i), indent) == spaces(indent) + o[i].0 + seq![':', ' '] + (match o[i].1 {
            ValueView::Text(s) => json_quoted(s) + seq!['\n'],
            ValueView::Array(a) => seq!['\n'] + yaml_items(a, indent),
            ValueView::Object(oo) => seq!['\n'] + yaml_entries(oo, indent + 2),
        }) + yaml_entries(o.skip(i + 1), indent),
{
    let rest = o.skip(i);
    assert(rest.len() == o.len() - i);
    assert(rest[0] == o[i]);
    assert(rest.subrange(1, rest.len() as int) =~= o.skip(i + 1));
}

/// Appends the YAML rendering of `v` at `indent` to `out`.
#[verifier::rlimit(60)]
fn yaml_into(out: &mut String, v: &PromptValue, indent: usize)
    requires
        indent + 2 * value_height(v@) <= usize::MAX,
    ensures
        final(out)@ == old(out)@ + yaml_spec(v@, indent as nat),
    decreases *v,
{
    match v {
        PromptValue::Text(s) => {
            let q = escape_json_string(s.as_str());
            out.append(q.as_str());
        },
        PromptValue::Array(items) => {
            let ghost av = values_view(items@);
            proof {
                lemma_values_view(items@);
                assert(av.skip(0) =~= av);
            }
            let n = items.len();
            let ghost o1 = out@;
            let mut j: usize = 0;
            while j < n
                invariant
                    j <= n,
                    n == items@.len(),
                    av == values_view(items@),
                    av.len() == n,
                    forall|m: int| 0 <= m < n ==> av[m] == items@[m]@,
                    indent + 2 * value_height(v@) <= usize::MAX,
                    *v == PromptValue::Array(*items),
                    v@ == ValueView::Array(av),
                    out@ + yaml_items(av.skip(j as int), indent as nat) == o1 + yaml_items(
                        av,
                        indent as nat,
                    ),
                decreases n - j,
            {
                proof {
                    crate::json::lemma_values_height(av);
                    lemma_yaml_items_skip(av, indent as nat, j as int);
                }
                let ghost o2 = out@;
                push_spaces(out, indent);
                out.push('-');
                out.push(' ');
                let mut item_out = String::new();
                proof {
                    assert(v->Array_0 == *items);
                    assert(decreases_to!(*v => v->Array_0));
                    assert(decreases_to!(*items => items@));
                    assert(decreases_to!(items@ => items@[j as int]));
                }
                yaml_into(&mut item_out, &items[j], indent + 2);
                push_trimmed(out, item_out.as_str());
                out.push('\n');
                proof {
                    assert(item_out@ =~= yaml_spec(av[j as int], indent as nat + 2));
                    assert(out@ =~= o2 + (spaces(indent as nat) + seq!['-', ' ']
                        + trim_start_spec(yaml_spec(av[j as int], indent as nat + 2))
                        + seq!['\n']));
                }
                j = j + 1;
            }
            proof {
                assert(av.skip(n as int) =~= Seq::<ValueView>::empty());
                assert(yaml_items(av.skip(n as int), indent as nat) =~= Seq::<char>::empty());
            }
        },
        PromptValue::Object(entries) => {
            let ghost ov = entries_view(entries@);
            proof {
                lemma_entries_view(entries@);
                assert(ov.skip(0) =~= ov);
            }
            let n = entries.len();
            let ghost o1 = out@;
            let mut j: usize = 0;
            while j < n
                invariant
                    j <= n,
                    n == entries@.len(),
                    ov == entries_view(entries@),
                    ov.len() == n,
                    forall|m: int| 0 <= m < n ==> ov[m] == (entries@[m].0@, entries@[m].1@),
                    indent + 2 * value_height(v@) <= usize::MAX,
                    *v == PromptValue::Object(*entries),
                    v@ == ValueView::Object(ov),
                    out@ + yaml_entries(ov.skip(j as int), indent as nat) == o1 + yaml_entries(
                        ov,
                        indent as nat,
                    ),
                decreases n - j,
            {
                proof {
                    crate::json::lemma_entries_height(ov);
                    lemma_yaml_entries_skip(ov, indent as nat, j as int);
                    assert(value_height(ov[j as int].1) <= crate::json::entries_height(ov));
                }
                let ghost o2 = out@;
                push_spaces(out, indent);
                let pair = &entries[j];
                out.append(pair.0.as_str());
                out.push(':');
                out.push(' ');
                proof {
                    assert(v->Object_0 == *entries);
                    assert(decreases_to!(*v => v->Object_0));
                    assert(decreases_to!(*entries => entries@));
                    assert(decreases_to!(entries@ => entries@[j as int]));
                    assert(decreases_to!(entries@[j as int] => entries@[j as int].1));
                }
                match &pair.1 {
                    PromptValue::Text(st) => {
                        let q = escape_json_string(st.as_str());
                        out.append(q.as_str());
                        out.push('\n');
                    },
                    PromptValue::Array(_) => {
                        out.push('\n');
                        yaml_into(out, &pair.1, indent);
                    },
                    PromptValue::Object(_) => {
                        out.push('\n');
                        yaml_into(out, &pair.1, indent + 2);
                    },
                }
                proof {
                    assert(out@ =~= o2 + (spaces(indent as nat) + ov[j as int].0 + seq![':', ' ']
                        + (match ov[j as int].1 {
                        ValueView::Text(s) => json_quoted(s) + seq!['\n'],
                        ValueView::Array(a) => seq!['\n'] + yaml_items(a, indent as nat),
                        ValueView::Object(oo) => seq!['\n'] + yaml_entries(oo, indent as nat + 2),
                    })));
                }
                j = j + 1;
            }
            proof {
                assert(ov.skip(n as int) =~= Seq::<(Seq<char>, ValueView)>::empty());
                assert(yaml_entries(ov.skip(n as int), indent as nat) =~= Seq::<char>::empty());
            }
        },
    }
}

/// Renders an object-tree value as YAML at `indent`.
pub fn yaml_stringify(val: &PromptValue, indent: usize) -> (res: String)
    requires
        indent + 2 * value_height(val@) <= usize::MAX,
    ensures
        res@ == yaml_spec(val@, indent as nat),
{
    let mut out = String::new();
    yaml_into(&mut out, val, indent);
    proof {
        assert(out@ =~= yaml_spec(val@, indent as nat));
    }
    out
}

} // verus!

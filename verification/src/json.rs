//! The JSON renderer over the object tree, with its string escaping.

use vstd::prelude::*;
use crate::object_tree::{
    entries_view, lemma_entries_view, lemma_values_view, values_view, PromptValue, ValueView,
};
use crate::text::{push_spaces, spaces};

verus! {

/// The escape sequence a character contributes inside a quoted string:
/// quote, backslash, backspace, form feed, newline, carriage return and
/// tab take their two-character escapes; everything else passes through.
pub open spec fn json_escape_char(c: char) -> Seq<char> {
    if c == '"' {
        seq!['\\', '"']
    } else if c == '\\' {
        seq!['\\', '\\']
    } else if c == '\u{8}' {
        seq!['\\', 'b']
    } else if c == '\u{c}' {
        seq!['\\', 'f']
    } else if c == '\n' {
        seq!['\\', 'n']
    } else if c == '\r' {
        seq!['\\', 'r']
    } else if c == '\t' {
        seq!['\\', 't']
    } else {
        seq![c]
    }
}

/// The body of a quoted string: each character escaped.
pub open spec fn json_escaped(s: Seq<char>) -> Seq<char>
    decreases s.len(),
{
    if s.len() == 0 {
        Seq::empty()
    } else {
        json_escape_char(s[0]) + json_escaped(s.subrange(1, s.len() as int))
    }
}

/// A double-quoted, escaped string scalar.
pub open spec fn json_quoted(s: Seq<char>) -> Seq<char> {
    seq!['"'] + json_escaped(s) + seq!['"']
}

/// Quotes and escapes `s` as a JSON string scalar.
pub fn escape_json_string(s: &str) -> (res: String)
    ensures
        res@ == json_quoted(s@),
{
    let mut out = String::new();
    out.push('"');
    let n = s.unicode_len();
    let mut i: usize = 0;
    proof {
        assert(s@.skip(0) =~= s@);
    }
    while i < n
        invariant
            i <= n,
            n == s@.len(),
            out@ + json_escaped(s@.skip(i as int)) == seq!['"'] + json_escaped(s@),
        decreases n - i,
    {
        let ch = s.get_char(i);
        proof {
            let rest = s@.skip(i as int);
            assert(rest.len() > 0);
            assert(rest[0] == s@[i as int]);
            assert(rest.subrange(1, rest.len() as int) =~= s@.skip(i as int + 1));
        }
        let ghost o0 = out@;
        if ch == '"' {
            out.push('\\');
            out.push('"');
        } else if ch == '\\' {
            out.push('\\');
            out.push('\\');
        } else if ch == '\u{8}' {
            out.push('\\');
            out.push('b');
        } else if ch == '\u{c}' {
            out.push('\\');
            out.push('f');
        } else if ch == '\n' {
            out.push('\\');
            out.push('n');
        } else if ch == '\r' {
            out.push('\\');
            out.push('r');
        } else if ch == '\t' {
            out.push('\\');
            out.push('t');
        } else {
            out.push(ch);
        }
        proof {
            assert(out@ =~= o0 + json_escape_char(ch));
            crate::text::lemma_concat_assoc(
                o0,
                json_escape_char(ch),
                json_escaped(s@.skip(i as int + 1)),
            );
        }
        i = i + 1;
    }
    out.push('"');
    proof {
        assert(s@.skip(n as int) =~= Seq::<char>::empty());
        assert(json_escaped(s@.skip(n as int)) =~= Seq::<char>::empty());
        assert(out@ =~= json_quoted(s@));
    }
    out
}

/// The height of an object-tree value: leaves are flat, arrays and
/// objects stand one level above their deepest member.
pub open spec fn value_height(v: ValueView) -> nat
    decreases v,
{
    match v {
        ValueView::Text(_) => 0,
        ValueView::Array(a) => 1 + values_height(a),
        ValueView::Object(o) => 1 + entries_height(o),
    }
}

/// The largest height among a sequence of values.
pub open spec fn values_height(a: Seq<ValueView>) -> nat
    decreases a,
{
    if a.len() == 0 {
        0
    } else if value_height(a[0]) >= values_height(a.subrange(1, a.len() as int)) {
        value_height(a[0])
    } else {
        values_height(a.subrange(1, a.len() as int))
    }
}

/// The largest height among an entry list's values.
pub open spec fn entries_height(o: Seq<(Seq<char>, ValueView)>) -> nat
    decreases o,
{
    if o.len() == 0 {
        0
    } else if value_height(o[0].1) >= entries_height(o.subrange(1, o.len() as int)) {
        value_height(o[0].1)
    } else {
        entries_height(o.subrange(1, o.len() as int))
    }
}

/// Every element stays within its sequence's height.
pub proof fn lemma_values_height(a: Seq<ValueView>)
    ensures
        forall|m: int| 0 <= m < a.len() ==> value_height(a[m]) <= values_height(a),
    decreases a.len(),
{
    if a.len() > 0 {
        let rest = a.subrange(1, a.len() as int);
        lemma_values_height(rest);
        assert(forall|m: int| 1 <= m < a.len() ==> rest[m - 1] == #[trigger] a[m]);
    }
}

/// Every entry's value stays within the entry list's height.
pub proof fn lemma_entries_height(o: Seq<(Seq<char>, ValueView)>)
    ensures
        forall|m: int| 0 <= m < o.len() ==> value_height((#[trigger] o[m]).1) <= entries_height(o),
    decreases o.len(),
{
    if o.len() > 0 {
        let rest = o.subrange(1, o.len() as int);
        lemma_entries_height(rest);
        assert(forall|m: int| 1 <= m < o.len() ==> rest[m - 1] == #[trigger] o[m]);
    }
}

/// The JSON rendering of a value whose own line starts at `indent`
/// spaces: quoted scalars; arrays and objects either empty as a pair
/// of brackets or multi-line with members two spaces deeper and the
/// closing bracket back at `indent`.
pub open spec fn json_spec(v: ValueView, indent: nat) -> Seq<char>
    decreases v,
{
    match v {
        ValueView::Text(s) => json_quoted(s),
        ValueView::Array(a) => {
            if a.len() == 0 {
                seq!['[', ']']
            } else {
                seq!['[', '\n'] + json_items(a, indent + 2) + spaces(indent) + seq![']']
            }
        },
        ValueView::Object(o) => {
            if o.len() == 0 {
                seq!['{', '}']
            } else {
                seq!['{', '\n'] + json_entries(o, indent + 2) + spaces(indent) + seq!['}']
            }
        },
    }
}

/// The members of a JSON array, one per line at `indent`, every line
/// but the last ending in a comma.
pub open spec fn json_items(a: Seq<ValueView>, indent: nat) -> Seq<char>
    decreases a,
{
    if a.len() == 0 {
        Seq::empty()
    } else {
        spaces(indent) + json_spec(a[0], indent) + (if a.len() > 1 {
            seq![',']
        } else {
            Seq::<char>::empty()
        }) + seq!['\n'] + json_items(a.subrange(1, a.len() as int), indent)
    }
}

/// The entries of a JSON object, one `"key": value` per line at
/// `indent`, every line but the last ending in a comma.
pub open spec fn json_entries(o: Seq<(Seq<char>, ValueView)>, indent: nat) -> Seq<char>
    decreases o,
{
    if o.len() == 0 {
        Seq::empty()
    } else {
        spaces(indent) + json_quoted(o[0].0) + seq![':', ' '] + json_spec(o[0].1, indent) + (if o.len() > 1 {
            seq![',']
        } else {
            Seq::<char>::empty()
        }) + seq!['\n'] + json_entries(o.subrange(1, o.len() as int), indent)
    }
}

/// Unrolls `json_items` at position `i`.
proof fn lemma_json_items_skip(a: Seq<ValueView>, indent: nat, i: int)
    requires
        0 <= i < a.len(),
    ensures
        json_items(a.skip(i), indent) == spaces(indent) + json_spec(a[i], indent) + (if i < a.len()
            - 1 {
            seq![',']
        } else {
            Seq::<char>::empty()
        }) + seq!['\n'] + json_items(a.skip(i + 1), indent),
{
    let rest = a.skip(i);
    assert(rest.len() == a.len() - i);
    assert(rest[0] == a[i]);
    assert(rest.subrange(1, rest.len() as int) =~= a.skip(i + 1));
}

/// Unrolls `json_entries` at position `i`.
proof fn lemma_json_entries_skip(o: Seq<(Seq<char>, ValueView)>, indent: nat, i: int)
    requires
        0 <= i < o.len(),
    ensures
        json_entries(o.skip(i), indent) == spaces(indent) + json_quoted(o[i].0) + seq![':', ' ']
            + json_spec(o[i].1, indent) + (if i < o.len() - 1 {
            seq![',']
        } else {
            Seq::<char>::empty()
        }) + seq!['\n'] + json_entries(o.skip(i + 1), indent),
{
    let rest = o.skip(i);
    assert(rest.len() == o.len() - i);
    assert(rest[0] == o[i]);
    assert(rest.subrange(1, rest.len() as int) =~= o.skip(i + 1));
}

/// Appends the JSON rendering of `v` at `indent` to `out`.
#[verifier::rlimit(60)]
fn json_into(out: &mut String, v: &PromptValue, indent: usize)
    requires
        indent + 2 * value_height(v@) <= usize::MAX,
    ensures
        final(out)@ == old(out)@ + json_spec(v@, indent as nat),
    decreases *v,
{
    match v {
        PromptValue::Text(s) => {
            let q = escape_json_string(s.as_str());
            out.append(q.as_str());
        },
        PromptValue::Array(items) => {
            let ghost av = values_view(items@);
            proof {
                lemma_values_view(items@);
                lemma_values_height(av);
                assert(av.skip(0) =~= av);
            }
            let n = items.len();
            if n == 0 {
                out.push('[');
                out.push(']');
                proof {
                    assert(out@ =~= old(out)@ + json_spec(v@, indent as nat));
                }
            } else {
                out.push('[');
                out.push('\n');
                let ghost o1 = out@;
                proof {
                    assert(o1 =~= old(out)@ + seq!['[', '\n']);
                }
                let mut j: usize = 0;
                while j < n
                    invariant
                        j <= n,
                        n == items@.len(),
                        av == values_view(items@),
                        av.len() == n,
                        forall|m: int| 0 <= m < n ==> av[m] == items@[m]@,
                        indent + 2 * value_height(v@) <= usize::MAX,
                        *v == PromptValue::Array(*items),
                        v@ == ValueView::Array(av),
                        out@ + json_items(av.skip(j as int), indent as nat + 2) == o1 + json_items(
                            av,
                            indent as nat + 2,
                        ),
                    decreases n - j,
                {
                    proof {
                        lemma_values_height(av);
                        lemma_json_items_skip(av, indent as nat + 2, j as int);
                        assert(value_height(av[j as int]) <= values_height(av));
                    }
                    let ghost o2 = out@;
                    push_spaces(out, indent + 2);
                    proof {
                        assert(*v == PromptValue::Array(*items));
                        assert(v->Array_0 == *items);
                        assert(decreases_to!(*v => v->Array_0));
                        assert(decreases_to!(*items => items@));
                        assert(decreases_to!(items@ => items@[j as int]));
                    }
                    json_into(out, &items[j], indent + 2);
                    if j + 1 < n {
                        out.push(',');
                    }
                    out.push('\n');
                    proof {
                        assert(out@ =~= o2 + (spaces(indent as nat + 2) + json_spec(
                            av[j as int],
                            indent as nat + 2,
                        ) + (if (j as int) < av.len() - 1 {
                            seq![',']
                        } else {
                            Seq::<char>::empty()
                        }) + seq!['\n']));
                    }
                    j = j + 1;
                }
                proof {
                    assert(av.skip(n as int) =~= Seq::<ValueView>::empty());
                    assert(json_items(av.skip(n as int), indent as nat + 2)
                        =~= Seq::<char>::empty());
                }
                push_spaces(out, indent);
                out.push(']');
                proof {
                    assert(out@ =~= old(out)@ + json_spec(v@, indent as nat));
                }
            }
        },
        PromptValue::Object(entries) => {
            let ghost ov = entries_view(entries@);
            proof {
                lemma_entries_view(entries@);
                lemma_entries_height(ov);
                assert(ov.skip(0) =~= ov);
            }
            let n = entries.len();
            if n == 0 {
                out.push('{');
                out.push('}');
                proof {
                    assert(out@ =~= old(out)@ + json_spec(v@, indent as nat));
                }
            } else {
                out.push('{');
                out.push('\n');
                let ghost o1 = out@;
                proof {
                    assert(o1 =~= old(out)@ + seq!['{', '\n']);
                }
                let mut j: usize = 0;
                while j < n
                    invariant
                        j <= n,
                        n == entries@.len(),
                        ov == entries_view(entries@),
                        ov.len() == n,
                        forall|m: int| 0 <= m < n ==> ov[m] == (entries@[m].0@, entries@[m].1@),
                        indent + 2 * value_height(v@) <= usize::MAX,
                        *v == PromptValue::Object(*entries),
                        v@ == ValueView::Object(ov),
                        out@ + json_entries(ov.skip(j as int), indent as nat + 2) == o1
                            + json_entries(ov, indent as nat + 2),
                    decreases n - j,
                {
                    proof {
                        lemma_entries_height(ov);
                        lemma_json_entries_skip(ov, indent as nat + 2, j as int);
                        assert(value_height(ov[j as int].1) <= entries_height(ov));
                    }
                    let ghost o2 = out@;
                    push_spaces(out, indent + 2);
                    let pair = &entries[j];
                    let q = escape_json_string(pair.0.as_str());
                    out.append(q.as_str());
                    out.push(':');
                    out.push(' ');
                    proof {
                        assert(*v == PromptValue::Object(*entries));
                        assert(v->Object_0 == *entries);
                        assert(decreases_to!(*v => v->Object_0));
                        assert(decreases_to!(*entries => entries@));
                        assert(decreases_to!(entries@ => entries@[j as int]));
                        assert(decreases_to!(entries@[j as int] => entries@[j as int].1));
                    }
                    json_into(out, &pair.1, indent + 2);
                    if j + 1 < n {
                        out.push(',');
                    }
                    out.push('\n');
                    proof {
                        assert(out@ =~= o2 + (spaces(indent as nat + 2) + json_quoted(
                            ov[j as int].0,
                        ) + seq![':', ' '] + json_spec(ov[j as int].1, indent as nat + 2) + (
                        if (j as int) < ov.len() - 1 {
                            seq![',']
                        } else {
                            Seq::<char>::empty()
                        }) + seq!['\n']));
                    }
                    j = j + 1;
                }
                proof {
                    assert(ov.skip(n as int) =~= Seq::<(Seq<char>, ValueView)>::empty());
                    assert(json_entries(ov.skip(n as int), indent as nat + 2)
                        =~= Seq::<char>::empty());
                }
                push_spaces(out, indent);
                out.push('}');
                proof {
                    assert(out@ =~= old(out)@ + json_spec(v@, indent as nat));
                }
            }
        },
    }
}

/// Renders an object-tree value as pretty-printed JSON whose own line
/// starts at `indent` spaces; nesting grows by two spaces per level.
pub fn json_stringify(val: &PromptValue, indent: usize) -> (res: String)
    requires
        indent + 2 * value_height(val@) <= usize::MAX,
    ensures
        res@ == json_spec(val@, indent as nat),
{
    let mut out = String::new();
    json_into(&mut out, val, indent);
    proof {
        assert(out@ =~= json_spec(val@, indent as nat));
    }
    out
}

} // verus!

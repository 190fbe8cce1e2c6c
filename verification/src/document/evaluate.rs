//! Evaluation of a parsed skin against receipt data, producing a document.
use vstd::prelude::*;
use super::json::{
    clone_json, copy_string, get_member, get_member_exec, lemma_values_model, lookup, lookup_pairs,
    members_model, values_model, JsonModel, JsonValue,
};
use super::model::{doc_model, Alignment, DocumentElement, ElementModel, ReceiptDocument, SizeMode};
use crate::skin::model::{
    cases_model, node_model, nodes_model, Alignment as SkinAlignment, SizeMode as SkinSizeMode,
    SkinNode, SkinNodeModel,
};
use crate::text::{
    append_chars, append_str, find, find_chars, from_chars, lemma_find_bounds, slice_chars,
    split_chars, split_on, starts_with, strip_prefix, strip_prefix_chars, to_chars, trim, trim_chars, pieces_view,
    lemma_split_on_nonempty,
};

verus! {

/// The variables bound by enclosing `@foreach` loops, as a map from name to
/// value: the first pair for a name wins.
pub open spec fn bindings(pairs: Seq<(Seq<char>, JsonModel)>) -> Map<Seq<char>, JsonModel>
    decreases pairs.len(),
{
    if pairs.len() == 0 {
        Map::empty()
    } else {
        bindings(pairs.drop_first()).insert(pairs[0].0, pairs[0].1)
    }
}

/// Looking a name up in a pair list agrees with its bindings.
pub proof fn lemma_lookup_bindings(pairs: Seq<(Seq<char>, JsonModel)>, key: Seq<char>)
    ensures
        lookup(pairs, key) == (if bindings(pairs).contains_key(key) {
            Some(bindings(pairs)[key])
        } else {
            None
        }),
    decreases pairs.len(),
{
    if pairs.len() > 0 {
        lemma_lookup_bindings(pairs.drop_first(), key);
    }
}

/// Follows the member names `path` from `cur`, one object level per name.
pub open spec fn follow(cur: Option<JsonModel>, path: Seq<Seq<char>>) -> Option<JsonModel>
    decreases path.len(),
{
    if path.len() == 0 {
        cur
    } else {
        match cur {
            None => None,
            Some(v) => follow(get_member(v, path[0]), path.drop_first()),
        }
    }
}

/// The value at a dot path such as `store.name`: its first segment names a
/// loop variable, or else a member of the root; the rest are member names.
pub open spec fn resolve_spec(root: JsonModel, vars: Map<Seq<char>, JsonModel>, path: Seq<char>) -> Option<
    JsonModel,
> {
    let parts = split_on(path, '.');
    let first = parts[0];
    let start = if vars.contains_key(first) {
        Some(vars[first])
    } else {
        get_member(root, first)
    };
    follow(start, parts.skip(1))
}

/// Whether a resolved value counts as true in `@if:`.
pub open spec fn truthy(v: Option<JsonModel>) -> bool {
    match v {
        None => false,
        Some(JsonModel::Null) => false,
        Some(JsonModel::Bool(b)) => b,
        Some(JsonModel::Str(s)) => s.len() > 0,
        Some(JsonModel::Array(a)) => a.len() > 0,
        Some(JsonModel::Object(o)) => o.len() > 0,
        Some(JsonModel::Number { text, nonzero }) => nonzero,
    }
}

/// The text of a resolved value: strings as they are, numbers and booleans
/// printed, anything else (or nothing) as the empty string.
pub open spec fn text_of(v: Option<JsonModel>) -> Seq<char> {
    match v {
        Some(JsonModel::Str(s)) => s,
        Some(JsonModel::Number { text, nonzero }) => text,
        Some(JsonModel::Bool(b)) => if b {
            "true"@
        } else {
            "false"@
        },
        _ => Seq::empty(),
    }
}

/// `template` with every `{{path}}` replaced by the text of the (trimmed)
/// path; an unclosed `{{` and all that follows is kept as it is.
pub open spec fn interpolate_spec(
    root: JsonModel,
    vars: Map<Seq<char>, JsonModel>,
    template: Seq<char>,
) -> Seq<char>
    decreases template.len(),
{
    match find(template, "{{"@) {
        None => template,
        Some(start) => {
            let after = template.skip(start + "{{"@.len());
            match find(after, "}}"@) {
                None => template.take(start) + "{{"@ + after,
                Some(end) => {
                    proof {
                        reveal_strlit("{{");
                        reveal_strlit("}}");
                        lemma_find_bounds(template, "{{"@);
                        lemma_find_bounds(after, "}}"@);
                    }
                    let path = trim(after.take(end));
                    template.take(start) + text_of(resolve_spec(root, vars, path))
                        + interpolate_spec(root, vars, after.skip(end + "}}"@.len()))
                },
            }
        },
    }
}

/// The current text style while walking a skin.
#[derive(Debug, Clone, Copy, PartialEq, Eq)]
pub struct Style {
    pub align: Alignment,
    pub bold: bool,
    pub size: SizeMode,
    pub underline: bool,
}

/// Left-aligned, normal size, not bold, not underlined.
pub open spec fn default_style() -> Style {
    Style { align: Alignment::Left, bold: false, size: SizeMode::Normal, underline: false }
}

impl Default for Style {
    fn default() -> (s: Self)
        ensures
            s == default_style(),
    {
        Style { align: Alignment::Left, bold: false, size: SizeMode::Normal, underline: false }
    }
}

/// The document alignment for a skin alignment.
pub open spec fn align_of(a: SkinAlignment) -> Alignment {
    match a {
        SkinAlignment::Left => Alignment::Left,
        SkinAlignment::Center => Alignment::Center,
        SkinAlignment::Right => Alignment::Right,
    }
}

/// The document size for a skin size.
pub open spec fn size_of_mode(s: SkinSizeMode) -> SizeMode {
    match s {
        SkinSizeMode::Normal => SizeMode::Normal,
        SkinSizeMode::Double => SizeMode::Double,
    }
}

/// The index of the first case whose value is `v`.
pub open spec fn case_index(cases: Seq<(Seq<char>, Seq<SkinNodeModel>)>, v: Seq<char>) -> Option<int>
    decreases cases.len(),
{
    if cases.len() == 0 {
        None
    } else if cases[0].0 == v {
        Some(0)
    } else {
        match case_index(cases.drop_first(), v) {
            Some(i) => Some(i + 1),
            None => None,
        }
    }
}

/// The elements that walking `nodes` in order emits, and the style after it.
pub open spec fn walk_spec(
    nodes: Seq<SkinNodeModel>,
    root: JsonModel,
    vars: Map<Seq<char>, JsonModel>,
    style: Style,
) -> (Seq<ElementModel>, Style)
    decreases nodes, 1nat,
{
    if nodes.len() == 0 {
        (Seq::empty(), style)
    } else {
        let (first, s1) = walk_node_spec(nodes[0], root, vars, style);
        let (rest, s2) = walk_spec(nodes.subrange(1, nodes.len() as int), root, vars, s1);
        (first + rest, s2)
    }
}

/// The elements that one node emits, and the style after it.
pub open spec fn walk_node_spec(
    node: SkinNodeModel,
    root: JsonModel,
    vars: Map<Seq<char>, JsonModel>,
    style: Style,
) -> (Seq<ElementModel>, Style)
    decreases node, 1nat,
{
    match node {
        SkinNodeModel::Text(t) => (
            seq![
                ElementModel::Text {
                    content: interpolate_spec(root, vars, t),
                    align: style.align,
                    bold: style.bold,
                    size: style.size,
                    underline: style.underline,
                },
            ],
            style,
        ),
        SkinNodeModel::Align(a) => (
            seq![ElementModel::Align(align_of(a))],
            Style { align: align_of(a), ..style },
        ),
        SkinNodeModel::Bold(b) => (Seq::empty(), Style { bold: b, ..style }),
        SkinNodeModel::Size(s) => (Seq::empty(), Style { size: size_of_mode(s), ..style }),
        SkinNodeModel::Underline(u) => (Seq::empty(), Style { underline: u, ..style }),
        SkinNodeModel::Divider => (seq![ElementModel::Divider], style),
        SkinNodeModel::Blank => (seq![ElementModel::Blank], style),
        SkinNodeModel::Image(p) => {
            let r = text_of(resolve_spec(root, vars, p));
            if r.len() > 0 {
                (seq![ElementModel::Image(r)], style)
            } else {
                (Seq::empty(), style)
            }
        },
        SkinNodeModel::Qr(p) => {
            let r = text_of(resolve_spec(root, vars, p));
            if r.len() > 0 {
                (seq![ElementModel::Qr(r)], style)
            } else {
                (Seq::empty(), style)
            }
        },
        SkinNodeModel::Row { left, right } => (
            seq![
                ElementModel::Row {
                    left: interpolate_spec(root, vars, left),
                    right: interpolate_spec(root, vars, right),
                    bold: style.bold,
                },
            ],
            style,
        ),
        SkinNodeModel::Cut => (seq![ElementModel::Cut], style),
        SkinNodeModel::If { condition, then_branch, else_branch } => {
            if truthy(resolve_spec(root, vars, condition)) {
                walk_spec(then_branch, root, vars, style)
            } else {
                walk_spec(else_branch, root, vars, style)
            }
        },
        SkinNodeModel::Foreach { list, var, body } => match resolve_spec(root, vars, list) {
            Some(JsonModel::Array(items)) => walk_items_spec(body, root, vars, var, items, style),
            _ => (Seq::empty(), style),
        },
        SkinNodeModel::Match { value, cases } => {
            let v = text_of(resolve_spec(root, vars, value));
            match case_index(cases, v) {
                Some(i) => if 0 <= i < cases.len() {
                    walk_spec(cases[i].1, root, vars, style)
                } else {
                    (Seq::empty(), style)
                },
                None => (Seq::empty(), style),
            }
        },
    }
}

/// The elements that walking `body` once per item emits, with `var` bound
/// to the item, and the style after the last pass.
pub open spec fn walk_items_spec(
    body: Seq<SkinNodeModel>,
    root: JsonModel,
    vars: Map<Seq<char>, JsonModel>,
    var: Seq<char>,
    items: Seq<JsonModel>,
    style: Style,
) -> (Seq<ElementModel>, Style)
    decreases body, 2 + items.len(),
{
    if items.len() == 0 {
        (Seq::empty(), style)
    } else {
        let (first, s1) = walk_spec(body, root, vars.insert(var, items[0]), style);
        let (rest, s2) = walk_items_spec(
            body,
            root,
            vars,
            var,
            items.subrange(1, items.len() as int),
            s1,
        );
        (first + rest, s2)
    }
}


/// The model of an optional reference to a value.
pub open spec fn opt_model(v: Option<&JsonValue>) -> Option<JsonModel> {
    match v {
        Some(x) => Some(x@),
        None => None,
    }
}

/// Evaluation context: root data (store/meta/items/computed/footer)
/// plus any loop-bound variables (e.g. "item", "child").
pub struct EvalContext {
    pub root: JsonValue,
    /// Loop variables, the innermost binding of a name first.
    pub vars: Vec<(String, JsonValue)>,
}

impl EvalContext {
    /// The loop variables as a map from name to value.
    pub open spec fn var_map(&self) -> Map<Seq<char>, JsonModel> {
        bindings(members_model(self.vars@))
    }

    /// The value at a dot path, if there is one.
    pub fn resolve(&self, path: &str) -> (r: Option<JsonValue>)
        ensures
            match r {
                Some(v) => resolve_spec(self.root@, self.var_map(), path@) == Some(v@),
                None => resolve_spec(self.root@, self.var_map(), path@) is None,
            },
    {
        let p = to_chars(path);
        match resolve_in(&self.root, self.vars.as_slice(), p.as_slice()) {
            Some(v) => Some(clone_json(v)),
            None => None,
        }
    }

    /// Whether the value at a dot path counts as true.
    pub fn is_truthy(&self, path: &str) -> (b: bool)
        ensures
            b == truthy(resolve_spec(self.root@, self.var_map(), path@)),
    {
        let p = to_chars(path);
        truthy_exec(resolve_in(&self.root, self.vars.as_slice(), p.as_slice()))
    }

    /// The text of the value at a dot path.
    pub fn as_string(&self, path: &str) -> (s: String)
        ensures
            s@ == text_of(resolve_spec(self.root@, self.var_map(), path@)),
    {
        let p = to_chars(path);
        let t = text_exec(resolve_in(&self.root, self.vars.as_slice(), p.as_slice()));
        from_chars(t.as_slice())
    }
}

/// The value at a dot path within `root` and the loop variables `vars`.
fn resolve_in<'a>(root: &'a JsonValue, vars: &'a [(String, JsonValue)], path: &[char]) -> (r: Option<
    &'a JsonValue,
>)
    ensures
        opt_model(r) == resolve_spec(root@, bindings(members_model(vars@)), path@),
{
    let parts = split_chars(path, '.');
    proof {
        lemma_split_on_nonempty(path@, '.');
    }
    let ghost ps = split_on(path@, '.');
    assert(parts@[0]@ == ps[0]);
    let first = &parts[0];
    proof {
        lemma_lookup_bindings(members_model(vars@), ps[0]);
    }
    let mut cur: Option<&JsonValue> = match lookup_pairs(vars, first.as_slice()) {
        Some(v) => Some(v),
        None => get_member_exec(root, first.as_slice()),
    };
    let mut i: usize = 1;
    while i < parts.len()
        invariant
            pieces_view(parts@) == ps,
            1 <= i <= parts@.len(),
            resolve_spec(root@, bindings(members_model(vars@)), path@) == follow(
                opt_model(cur),
                ps.skip(i as int),
            ),
        decreases parts@.len() - i,
    {
        assert(ps.skip(i as int)[0] == parts@[i as int]@);
        assert(ps.skip(i as int).drop_first() == ps.skip(i + 1));
        match cur {
            None => {
                return None;
            },
            Some(v) => {
                cur = get_member_exec(v, parts[i].as_slice());
            },
        }
        i += 1;
    }
    assert(ps.skip(i as int).len() == 0);
    cur
}

fn truthy_exec(v: Option<&JsonValue>) -> (b: bool)
    ensures
        b == truthy(opt_model(v)),
{
    match v {
        None => false,
        Some(JsonValue::Null) => false,
        Some(JsonValue::Bool(b)) => *b,
        Some(JsonValue::String(s)) => {
            let c = to_chars(s.as_str());
            c.len() > 0
        },
        Some(JsonValue::Array(a)) => {
            proof {
                lemma_values_model(a@);
            }
            a.len() > 0
        },
        Some(JsonValue::Object(o)) => {
            proof {
                super::json::lemma_members_model(o@);
            }
            o.len() > 0
        },
        Some(JsonValue::Number(n)) => n.nonzero,
    }
}

fn text_exec(v: Option<&JsonValue>) -> (t: Vec<char>)
    ensures
        t@ == text_of(opt_model(v)),
{
    match v {
        Some(JsonValue::String(s)) => to_chars(s.as_str()),
        Some(JsonValue::Number(n)) => to_chars(n.text.as_str()),
        Some(JsonValue::Bool(b)) => if *b {
            to_chars("true")
        } else {
            to_chars("false")
        },
        _ => Vec::new(),
    }
}

/// Replaces all {{path}} occurrences in a text line with resolved string values.
fn interpolate(root: &JsonValue, vars: &[(String, JsonValue)], template: &[char]) -> (r: Vec<char>)
    ensures
        r@ == interpolate_spec(root@, bindings(members_model(vars@)), template@),
{
    let ghost vm = bindings(members_model(vars@));
    let mut result: Vec<char> = Vec::new();
    let mut rest: Vec<char> = slice_chars(template, 0, template.len());
    assert(rest@ == template@);
    loop
        invariant_except_break
            interpolate_spec(root@, vm, template@) == result@ + interpolate_spec(root@, vm, rest@),
        invariant
            vm == bindings(members_model(vars@)),
        ensures
            interpolate_spec(root@, vm, template@) == result@,
        decreases rest@.len(),
    {
        proof {
            reveal_strlit("{{");
            reveal_strlit("}}");
        }
        let n = rest.len();
        match find_chars(rest.as_slice(), "{{") {
            None => {
                append_chars(&mut result, rest.as_slice());
                break;
            },
            Some(start) => {
                proof {
                    lemma_find_bounds(rest@, "{{"@);
                }
                let after = slice_chars(rest.as_slice(), start + 2, n);
                let an = after.len();
                match find_chars(after.as_slice(), "}}") {
                    None => {
                        let head = slice_chars(rest.as_slice(), 0, start);
                        append_chars(&mut result, head.as_slice());
                        append_str(&mut result, "{{");
                        append_chars(&mut result, after.as_slice());
                        break;
                    },
                    Some(end) => {
                        proof {
                            lemma_find_bounds(after@, "}}"@);
                        }
                        let head = slice_chars(rest.as_slice(), 0, start);
                        let raw = slice_chars(after.as_slice(), 0, end);
                        let path = trim_chars(raw.as_slice());
                        let value = text_exec(resolve_in(root, vars, path.as_slice()));
                        let ghost before = result@;
                        append_chars(&mut result, head.as_slice());
                        append_chars(&mut result, value.as_slice());
                        let tail = slice_chars(after.as_slice(), end + 2, an);
                        assert(result@ + interpolate_spec(root@, vm, tail@) == before + (head@
                            + value@ + interpolate_spec(root@, vm, tail@)));
                        rest = tail;
                    },
                }
            },
        }
    }
    result
}

fn convert_align(a: &SkinAlignment) -> (r: Alignment)
    ensures
        r == align_of(*a),
{
    match a {
        SkinAlignment::Left => Alignment::Left,
        SkinAlignment::Center => Alignment::Center,
        SkinAlignment::Right => Alignment::Right,
    }
}

fn convert_size(s: &SkinSizeMode) -> (r: SizeMode)
    ensures
        r == size_of_mode(*s),
{
    match s {
        SkinSizeMode::Normal => SizeMode::Normal,
        SkinSizeMode::Double => SizeMode::Double,
    }
}

/// `vars` with `name` bound to a copy of `value` in front of them.
fn bind_var(vars: &[(String, JsonValue)], name: &String, value: &JsonValue) -> (r: Vec<
    (String, JsonValue),
>)
    ensures
        bindings(members_model(r@)) == bindings(members_model(vars@)).insert(name@, value@),
{
    let mut out: Vec<(String, JsonValue)> = Vec::new();
    let k0 = copy_string(name);
    let v0 = clone_json(value);
    out.push((k0, v0));
    let ghost head = (name@, value@);
    assert(out@.drop_last() == Seq::<(String, JsonValue)>::empty());
    assert(members_model(Seq::<(String, JsonValue)>::empty()) == Seq::<(Seq<char>, JsonModel)>::empty());
    assert(out@.last().1@ == value@);
    assert(members_model(out@) == Seq::<(Seq<char>, JsonModel)>::empty().push(head));
    assert(members_model(out@) == seq![head]);
    assert(vars@.take(0) == Seq::<(String, JsonValue)>::empty());
    let mut i: usize = 0;
    while i < vars.len()
        invariant
            i <= vars@.len(),
            members_model(out@) == seq![head] + members_model(vars@.take(i as int)),
        decreases vars@.len() - i,
    {
        let k = copy_string(&vars[i].0);
        let v = clone_json(&vars[i].1);
        let ghost before = out@;
        out.push((k, v));
        proof {
            assert(out@.drop_last() == before);
            assert(vars@.take(i + 1).drop_last() == vars@.take(i as int));
            assert(vars@.take(i + 1).last() == vars@[i as int]);
        }
        i += 1;
    }
    assert(vars@.take(vars@.len() as int) == vars@);
    let ghost m = members_model(out@);
    assert(m.drop_first() == members_model(vars@));
    out
}

/// Pushes one element, keeping the document model in step.
fn emit(doc: &mut Vec<DocumentElement>, e: DocumentElement)
    ensures
        doc_model(final(doc)@) == doc_model(old(doc)@) + seq![e@],
{
    doc.push(e);
    assert(doc_model(doc@) == doc_model(old(doc)@) + seq![e@]);
}

/// Walks `nodes` in order, updating `style` and emitting document elements.
fn walk(
    nodes: &[SkinNode],
    root: &JsonValue,
    vars: &[(String, JsonValue)],
    style: &mut Style,
    doc: &mut Vec<DocumentElement>,
)
    ensures
        doc_model(final(doc)@) == doc_model(old(doc)@) + walk_spec(
            nodes_model(nodes@),
            root@,
            bindings(members_model(vars@)),
            *old(style),
        ).0,
        *final(style) == walk_spec(
            nodes_model(nodes@),
            root@,
            bindings(members_model(vars@)),
            *old(style),
        ).1,
    decreases nodes@, 1nat,
{
    let ghost nm = nodes_model(nodes@);
    let ghost vm = bindings(members_model(vars@));
    let ghost d0 = doc_model(doc@);
    proof {
        crate::skin::model::lemma_nodes_model(nodes@);
        assert(nm.subrange(0, nm.len() as int) == nm);
    }
    let mut i: usize = 0;
    while i < nodes.len()
        invariant
            nm == nodes_model(nodes@),
            nm.len() == nodes@.len(),
            forall|k: int| 0 <= k < nodes@.len() ==> #[trigger] nm[k] == node_model(nodes@[k]),
            vm == bindings(members_model(vars@)),
            i <= nodes@.len(),
            d0 == doc_model(old(doc)@),
            ({
                let total = walk_spec(nm, root@, vm, *old(style));
                let rest = walk_spec(nm.subrange(i as int, nm.len() as int), root@, vm, *style);
                &&& total.1 == rest.1
                &&& d0 + total.0 == doc_model(doc@) + rest.0
            }),
        decreases nodes@.len() - i,
    {
        let ghost sub = nm.subrange(i as int, nm.len() as int);
        let ghost st = *style;
        let ghost dd = doc_model(doc@);
        proof {
            assert(sub[0] == nm[i as int]);
            assert(sub.subrange(1, sub.len() as int) == nm.subrange(i + 1, nm.len() as int));
            assert(decreases_to!(nodes@ => nodes@[i as int]));
        }
        walk_node(&nodes[i], root, vars, style, doc);
        proof {
            let step = walk_node_spec(nm[i as int], root@, vm, st);
            let rest = walk_spec(nm.subrange(i + 1, nm.len() as int), root@, vm, *style);
            assert(walk_spec(sub, root@, vm, st) == (step.0 + rest.0, rest.1));
            assert(dd + (step.0 + rest.0) == (dd + step.0) + rest.0);
        }
        i += 1;
    }
    proof {
        let rest = walk_spec(nm.subrange(i as int, nm.len() as int), root@, vm, *style);
        assert(nm.subrange(i as int, nm.len() as int).len() == 0);
        assert(doc_model(doc@) + rest.0 == doc_model(doc@));
    }
}

/// Walks one node, updating `style` and emitting document elements.
fn walk_node(
    node: &SkinNode,
    root: &JsonValue,
    vars: &[(String, JsonValue)],
    style: &mut Style,
    doc: &mut Vec<DocumentElement>,
)
    ensures
        doc_model(final(doc)@) == doc_model(old(doc)@) + walk_node_spec(
            node_model(*node),
            root@,
            bindings(members_model(vars@)),
            *old(style),
        ).0,
        *final(style) == walk_node_spec(
            node_model(*node),
            root@,
            bindings(members_model(vars@)),
            *old(style),
        ).1,
    decreases *node, 0nat,
{
    let ghost vm = bindings(members_model(vars@));
    match node {
        SkinNode::Text(t) => {
            let tc = to_chars(t.as_str());
            let content = from_chars(interpolate(root, vars, tc.as_slice()).as_slice());
            emit(
                doc,
                DocumentElement::Text {
                    content,
                    align: style.align,
                    bold: style.bold,
                    size: style.size,
                    underline: style.underline,
                },
            );
        },
        SkinNode::Align(a) => {
            style.align = convert_align(a);
            emit(doc, DocumentElement::Align(style.align));
        },
        SkinNode::Bold(b) => {
            style.bold = *b;
            assert(doc_model(doc@) + Seq::<ElementModel>::empty() == doc_model(doc@));
        },
        SkinNode::Size(s) => {
            style.size = convert_size(s);
            assert(doc_model(doc@) + Seq::<ElementModel>::empty() == doc_model(doc@));
        },
        SkinNode::Underline(u) => {
            style.underline = *u;
            assert(doc_model(doc@) + Seq::<ElementModel>::empty() == doc_model(doc@));
        },
        SkinNode::Divider => emit(doc, DocumentElement::Divider),
        SkinNode::Blank => emit(doc, DocumentElement::Blank),
        SkinNode::Image(path) => {
            let pc = to_chars(path.as_str());
            let resolved = text_exec(resolve_in(root, vars, pc.as_slice()));
            if resolved.len() > 0 {
                emit(doc, DocumentElement::Image(from_chars(resolved.as_slice())));
            } else {
                assert(doc_model(doc@) + Seq::<ElementModel>::empty() == doc_model(doc@));
            }
        },
        SkinNode::Qr(content) => {
            let pc = to_chars(content.as_str());
            let resolved = text_exec(resolve_in(root, vars, pc.as_slice()));
            if resolved.len() > 0 {
                emit(doc, DocumentElement::Qr(from_chars(resolved.as_slice())));
            } else {
                assert(doc_model(doc@) + Seq::<ElementModel>::empty() == doc_model(doc@));
            }
        },
        SkinNode::Row { left, right } => {
            let lc = to_chars(left.as_str());
            let rc = to_chars(right.as_str());
            let l = from_chars(interpolate(root, vars, lc.as_slice()).as_slice());
            let r = from_chars(interpolate(root, vars, rc.as_slice()).as_slice());
            emit(doc, DocumentElement::Row { left: l, right: r, bold: style.bold });
        },
        SkinNode::Cut => emit(doc, DocumentElement::Cut),
        SkinNode::If { condition, then_branch, else_branch } => {
            let cc = to_chars(condition.as_str());
            if truthy_exec(resolve_in(root, vars, cc.as_slice())) {
                proof {
                    assert(decreases_to!(*node => then_branch@));
                }
                walk(then_branch.as_slice(), root, vars, style, doc);
            } else {
                proof {
                    assert(decreases_to!(*node => else_branch@));
                }
                walk(else_branch.as_slice(), root, vars, style, doc);
            }
        },
        SkinNode::Foreach { list, var, body } => {
            let lc = to_chars(list.as_str());
            match resolve_in(root, vars, lc.as_slice()) {
                Some(JsonValue::Array(items)) => {
                    let ghost bm = nodes_model(body@);
                    let ghost im = values_model(items@);
                    let ghost d0 = doc_model(doc@);
                    let ghost s0 = *style;
                    proof {
                        lemma_values_model(items@);
                        assert(im.subrange(0, im.len() as int) == im);
                    }
                    let mut k: usize = 0;
                    while k < items.len()
                        invariant
                            bm == nodes_model(body@),
                            im == values_model(items@),
                            im.len() == items@.len(),
                            forall|j: int|
                                0 <= j < items@.len() ==> #[trigger] im[j] == json_model_of(
                                    items@[j],
                                ),
                            vm == bindings(members_model(vars@)),
                            k <= items@.len(),
                            decreases_to!(*node => body@),
                            ({
                                let total = walk_items_spec(bm, root@, vm, var@, im, s0);
                                let rest = walk_items_spec(
                                    bm,
                                    root@,
                                    vm,
                                    var@,
                                    im.subrange(k as int, im.len() as int),
                                    *style,
                                );
                                &&& total.1 == rest.1
                                &&& d0 + total.0 == doc_model(doc@) + rest.0
                            }),
                        decreases items@.len() - k,
                    {
                        let ghost sub = im.subrange(k as int, im.len() as int);
                        let ghost st = *style;
                        let ghost dd = doc_model(doc@);
                        proof {
                            assert(sub[0] == im[k as int]);
                            assert(sub.subrange(1, sub.len() as int) == im.subrange(
                                k + 1,
                                im.len() as int,
                            ));
                        }
                        let child = bind_var(vars, var, &items[k]);
                        walk(body.as_slice(), root, child.as_slice(), style, doc);
                        proof {
                            let step = walk_spec(bm, root@, vm.insert(var@, im[k as int]), st);
                            let rest = walk_items_spec(
                                bm,
                                root@,
                                vm,
                                var@,
                                im.subrange(k + 1, im.len() as int),
                                *style,
                            );
                            assert(walk_items_spec(bm, root@, vm, var@, sub, st) == (
                                step.0 + rest.0,
                                rest.1,
                            ));
                            assert(dd + (step.0 + rest.0) == (dd + step.0) + rest.0);
                        }
                        k += 1;
                    }
                    proof {
                        let rest = walk_items_spec(
                            bm,
                            root@,
                            vm,
                            var@,
                            im.subrange(k as int, im.len() as int),
                            *style,
                        );
                        assert(im.subrange(k as int, im.len() as int).len() == 0);
                        assert(doc_model(doc@) + rest.0 == doc_model(doc@));
                    }
                },
                _ => {
                    assert(doc_model(doc@) + Seq::<ElementModel>::empty() == doc_model(doc@));
                },
            }
        },
        SkinNode::Match { value, cases } => {
            let vc = to_chars(value.as_str());
            let v = text_exec(resolve_in(root, vars, vc.as_slice()));
            let ghost cm = cases_model(cases@);
            proof {
                crate::skin::model::lemma_cases_model(cases@);
            }
            let mut k: usize = 0;
            let mut found = false;
            while !found && k < cases.len()
                invariant
                    cm == cases_model(cases@),
                    cm.len() == cases@.len(),
                    forall|j: int|
                        0 <= j < cases@.len() ==> #[trigger] cm[j] == (
                            cases@[j].0@,
                            nodes_model(cases@[j].1@),
                        ),
                    k <= cases@.len(),
                    forall|j: int| 0 <= j < k ==> cm[j].0 != v@,
                    found ==> k < cases@.len() && cm[k as int].0 == v@,
                decreases cases@.len() - k + (if found { 0int } else { 1int }),
            {
                let cv = to_chars(cases[k].0.as_str());
                if crate::text::same_chars(cv.as_slice(), v.as_slice()) {
                    found = true;
                } else {
                    k += 1;
                }
            }
            if found {
                proof {
                    lemma_case_index_first(cm, v@, k as int);
                    assert(decreases_to!(*node => cases@[k as int].1@));
                }
                walk(cases[k].1.as_slice(), root, vars, style, doc);
            } else {
                proof {
                    lemma_case_index_none(cm, v@);
                }
                assert(doc_model(doc@) + Seq::<ElementModel>::empty() == doc_model(doc@));
            }
        },
    }
}

/// The model of a value (a name for `json_model` usable in triggers here).
pub open spec fn json_model_of(v: JsonValue) -> JsonModel {
    super::json::json_model(v)
}

proof fn lemma_case_index_first(cases: Seq<(Seq<char>, Seq<SkinNodeModel>)>, v: Seq<char>, k: int)
    requires
        0 <= k < cases.len(),
        cases[k].0 == v,
        forall|j: int| 0 <= j < k ==> cases[j].0 != v,
    ensures
        case_index(cases, v) == Some(k),
    decreases k,
{
    if k > 0 {
        let rest = cases.drop_first();
        assert forall|j: int| 0 <= j < k - 1 implies rest[j].0 != v by {
            assert(rest[j] == cases[j + 1]);
        }
        lemma_case_index_first(rest, v, k - 1);
    }
}

proof fn lemma_case_index_none(cases: Seq<(Seq<char>, Seq<SkinNodeModel>)>, v: Seq<char>)
    requires
        forall|j: int| 0 <= j < cases.len() ==> cases[j].0 != v,
    ensures
        case_index(cases, v) is None,
    decreases cases.len(),
{
    if cases.len() > 0 {
        let rest = cases.drop_first();
        assert forall|j: int| 0 <= j < rest.len() implies rest[j].0 != v by {
            assert(rest[j] == cases[j + 1]);
        }
        lemma_case_index_none(rest, v);
    }
}

/// Evaluates a skin against a context, producing the document to print.
pub fn build_document(skin: &Vec<SkinNode>, ctx: &EvalContext) -> (doc: ReceiptDocument)
    ensures
        doc_model(doc@) == walk_spec(nodes_model(skin@), ctx.root@, ctx.var_map(), default_style()).0,
{
    let mut doc: Vec<DocumentElement> = Vec::new();
    let mut style = Style::default();
    walk(skin.as_slice(), &ctx.root, ctx.vars.as_slice(), &mut style, &mut doc);
    assert(doc_model(Seq::<DocumentElement>::empty()) + walk_spec(
        nodes_model(skin@),
        ctx.root@,
        ctx.var_map(),
        default_style(),
    ).0 == walk_spec(nodes_model(skin@), ctx.root@, ctx.var_map(), default_style()).0);
    doc
}


/// The JSON object `{"kind": kind, "content": content}` of one footer entry.
pub open spec fn footer_object(kind: Seq<char>, content: Seq<char>) -> JsonModel {
    JsonModel::Object(seq![("kind"@, JsonModel::Str(kind)), ("content"@, JsonModel::Str(content))])
}

/// One footer entry: `qr:<content>` is a QR code, anything else is text.
pub open spec fn footer_entry(e: Seq<char>) -> JsonModel {
    match strip_prefix(e, "qr:"@) {
        Some(rest) => footer_object("qr"@, rest),
        None => footer_object("text"@, e),
    }
}

/// The footer array built from the entries, in the order given.
pub open spec fn footer_spec(entries: Seq<Seq<char>>) -> JsonModel {
    JsonModel::Array(entries.map_values(|e: Seq<char>| footer_entry(e)))
}

fn footer_object_exec(kind: &str, content: &[char]) -> (r: JsonValue)
    ensures
        r@ == footer_object(kind@, content@),
{
    let k1 = from_chars(to_chars("kind").as_slice());
    let v1 = JsonValue::String(from_chars(to_chars(kind).as_slice()));
    let k2 = from_chars(to_chars("content").as_slice());
    let v2 = JsonValue::String(from_chars(content));
    let ghost m1 = (k1@, v1@);
    let ghost m2 = (k2@, v2@);
    assert(m1 == ("kind"@, JsonModel::Str(kind@)));
    assert(m2 == ("content"@, JsonModel::Str(content@)));
    let mut members: Vec<(String, JsonValue)> = Vec::new();
    members.push((k1, v1));
    let ghost first = members@;
    members.push((k2, v2));
    proof {
        assert(first.drop_last() == Seq::<(String, JsonValue)>::empty());
        assert(members_model(Seq::<(String, JsonValue)>::empty()) == Seq::<
            (Seq<char>, JsonModel),
        >::empty());
        assert(first.last().0@ == m1.0);
        assert(json_model_of(first.last().1) == m1.1);
        assert(members_model(first) == seq![m1]);
        assert(members@.drop_last() == first);
        assert(members@.last().0@ == m2.0);
        assert(json_model_of(members@.last().1) == m2.1);
        assert(members_model(members@) == seq![m1, m2]);
    }
    JsonValue::Object(members)
}

/// Builds the CLI `--footer-text` entries into a JSON array of
/// {"kind": "text"|"qr", "content": "..."} objects, in the order given.
pub fn build_footer_value(entries: &[String]) -> (r: JsonValue)
    ensures
        r@ == footer_spec(entries.deep_view()),
{
    let ghost es = entries.deep_view();
    let mut items: Vec<JsonValue> = Vec::new();
    let mut i: usize = 0;
    while i < entries.len()
        invariant
            es == entries.deep_view(),
            i <= entries@.len(),
            values_model(items@) == es.take(i as int).map_values(|e: Seq<char>| footer_entry(e)),
        decreases entries@.len() - i,
    {
        let e = to_chars(entries[i].as_str());
        assert(e@ == es[i as int]);
        let item = match strip_prefix_chars(e.as_slice(), "qr:") {
            Some(rest) => footer_object_exec("qr", rest.as_slice()),
            None => footer_object_exec("text", e.as_slice()),
        };
        let ghost before = items@;
        items.push(item);
        proof {
            assert(items@.drop_last() == before);
            assert(es.take(i + 1).map_values(|e: Seq<char>| footer_entry(e)) == es.take(
                i as int,
            ).map_values(|e: Seq<char>| footer_entry(e)).push(footer_entry(es[i as int])));
        }
        i += 1;
    }
    assert(es.take(es.len() as int) == es);
    JsonValue::Array(items)
}


/// A template without `{{` is printed as it is.
pub proof fn lemma_interpolate_plain(root: JsonModel, vars: Map<Seq<char>, JsonModel>, t: Seq<char>)
    requires
        find(t, "{{"@) is None,
    ensures
        interpolate_spec(root, vars, t) == t,
{
}

/// Inside `@foreach:<list> as <var>`, the path `<var>` (a name without a
/// dot) gives the current item, whatever the root data holds.
pub proof fn lemma_loop_variable_resolves(
    root: JsonModel,
    vars: Map<Seq<char>, JsonModel>,
    var: Seq<char>,
    item: JsonModel,
)
    requires
        forall|i: int| 0 <= i < var.len() ==> var[i] != '.',
    ensures
        resolve_spec(root, vars.insert(var, item), var) == Some(item),
{
    crate::text::lemma_split_on_no_sep(var, '.');
    let parts = split_on(var, '.');
    assert(parts[0] == var);
    assert(parts.skip(1).len() == 0);
}

/// A `@foreach` whose list is missing or is not an array emits nothing and
/// leaves the style as it was.
pub proof fn lemma_foreach_needs_array(
    list: Seq<char>,
    var: Seq<char>,
    body: Seq<SkinNodeModel>,
    root: JsonModel,
    vars: Map<Seq<char>, JsonModel>,
    style: Style,
)
    requires
        !(resolve_spec(root, vars, list) matches Some(JsonModel::Array(_))),
    ensures
        walk_node_spec(SkinNodeModel::Foreach { list, var, body }, root, vars, style) == (
            Seq::<ElementModel>::empty(),
            style,
        ),
{
}

/// An `@if` emits exactly what its chosen branch emits: the then-branch when
/// the condition holds, the else-branch otherwise.
pub proof fn lemma_if_takes_one_branch(
    condition: Seq<char>,
    then_branch: Seq<SkinNodeModel>,
    else_branch: Seq<SkinNodeModel>,
    root: JsonModel,
    vars: Map<Seq<char>, JsonModel>,
    style: Style,
)
    ensures
        walk_node_spec(SkinNodeModel::If { condition, then_branch, else_branch }, root, vars, style)
            == if truthy(resolve_spec(root, vars, condition)) {
            walk_spec(then_branch, root, vars, style)
        } else {
            walk_spec(else_branch, root, vars, style)
        },
{
}

/// Walking two node lists one after the other emits what each emits, in
/// order, the second starting from the style the first leaves.
pub proof fn lemma_walk_concat(
    a: Seq<SkinNodeModel>,
    b: Seq<SkinNodeModel>,
    root: JsonModel,
    vars: Map<Seq<char>, JsonModel>,
    style: Style,
)
    ensures
        ({
            let (ea, sa) = walk_spec(a, root, vars, style);
            let (eb, sb) = walk_spec(b, root, vars, sa);
            walk_spec(a + b, root, vars, style) == (ea + eb, sb)
        }),
    decreases a.len(),
{
    if a.len() == 0 {
        assert(a + b == b);
        let (eb, sb) = walk_spec(b, root, vars, style);
        assert(Seq::<ElementModel>::empty() + eb == eb);
    } else {
        let (first, s1) = walk_node_spec(a[0], root, vars, style);
        let a1 = a.subrange(1, a.len() as int);
        lemma_walk_concat(a1, b, root, vars, s1);
        assert((a + b)[0] == a[0]);
        assert((a + b).subrange(1, (a + b).len() as int) == a1 + b);
        let (e1, t1) = walk_spec(a1, root, vars, s1);
        let (eb, sb) = walk_spec(b, root, vars, t1);
        assert(first + (e1 + eb) == (first + e1) + eb);
    }
}


/// `@match` picks the first case whose value equals the matched text, and
/// none when no case does.
pub proof fn lemma_match_picks_first_case(cases: Seq<(Seq<char>, Seq<SkinNodeModel>)>, v: Seq<char>)
    ensures
        case_index(cases, v) matches Some(i) ==> {
            &&& 0 <= i < cases.len()
            &&& cases[i].0 == v
            &&& forall|j: int| 0 <= j < i ==> cases[j].0 != v
        },
        case_index(cases, v) is None ==> forall|j: int| 0 <= j < cases.len() ==> cases[j].0 != v,
    decreases cases.len(),
{
    if cases.len() > 0 && cases[0].0 != v {
        let rest = cases.drop_first();
        lemma_match_picks_first_case(rest, v);
        assert forall|j: int| 1 <= j < cases.len() implies cases[j] == rest[j - 1] by {}
    }
}

/// How `@if` judges the value at its condition path, kind by kind: a
/// missing value and `null` are false; a boolean is itself; a number is true
/// exactly when it is not zero; a string, an array and an object are true
/// exactly when they are not empty. A false condition takes the else-branch.
pub proof fn lemma_if_condition_by_kind(
    condition: Seq<char>,
    then_branch: Seq<SkinNodeModel>,
    else_branch: Seq<SkinNodeModel>,
    root: JsonModel,
    vars: Map<Seq<char>, JsonModel>,
    style: Style,
)
    ensures
        ({
            let taken = walk_node_spec(
                SkinNodeModel::If { condition, then_branch, else_branch },
                root,
                vars,
                style,
            );
            let on_true = walk_spec(then_branch, root, vars, style);
            let on_false = walk_spec(else_branch, root, vars, style);
            match resolve_spec(root, vars, condition) {
                None => taken == on_false,
                Some(JsonModel::Null) => taken == on_false,
                Some(JsonModel::Bool(b)) => taken == if b {
                    on_true
                } else {
                    on_false
                },
                Some(JsonModel::Number { text, nonzero }) => taken == if nonzero {
                    on_true
                } else {
                    on_false
                },
                Some(JsonModel::Str(s)) => taken == if s.len() == 0 {
                    on_false
                } else {
                    on_true
                },
                Some(JsonModel::Array(a)) => taken == if a.len() == 0 {
                    on_false
                } else {
                    on_true
                },
                Some(JsonModel::Object(o)) => taken == if o.len() == 0 {
                    on_false
                } else {
                    on_true
                },
            }
        }),
{
}

/// The truth of a value at a path, as `is_truthy` reports it: a number
/// that is zero is false and any other number true; `null` and a missing
/// value are false.
pub proof fn lemma_number_truth(root: JsonModel, vars: Map<Seq<char>, JsonModel>, path: Seq<char>)
    ensures
        resolve_spec(root, vars, path) matches Some(JsonModel::Number { text, nonzero }) ==> truthy(
            resolve_spec(root, vars, path),
        ) == nonzero,
        resolve_spec(root, vars, path) is None ==> !truthy(resolve_spec(root, vars, path)),
        resolve_spec(root, vars, path) == Some(JsonModel::Null) ==> !truthy(
            resolve_spec(root, vars, path),
        ),
{
}

/// The footer holds one object per entry, in the order given. An entry
/// `qr:<content>` becomes `{"kind": "qr", "content": <content>}`, the prefix
/// taken off; any other entry becomes `{"kind": "text", "content": <entry>}`
/// with the whole entry kept, colons and all.
pub proof fn lemma_footer_entries(entries: Seq<Seq<char>>)
    ensures
        ({
            let items = footer_spec(entries)->Array_0;
            &&& footer_spec(entries) is Array
            &&& items.len() == entries.len()
            &&& forall|i: int, c: Seq<char>|
                0 <= i < entries.len() && entries[i] == "qr:"@ + c ==> items[i] == JsonModel::Object(
                    seq![("kind"@, JsonModel::Str("qr"@)), ("content"@, JsonModel::Str(c))],
                )
            &&& forall|i: int|
                0 <= i < entries.len() && !starts_with(entries[i], "qr:"@) ==> items[i]
                    == JsonModel::Object(
                    seq![("kind"@, JsonModel::Str("text"@)), ("content"@, JsonModel::Str(entries[i]))],
                )
        }),
{
    let items = footer_spec(entries)->Array_0;
    assert forall|i: int, c: Seq<char>|
        0 <= i < entries.len() && entries[i] == "qr:"@ + c implies items[i] == JsonModel::Object(
            seq![("kind"@, JsonModel::Str("qr"@)), ("content"@, JsonModel::Str(c))],
        ) by {
        let e = entries[i];
        assert(e.take("qr:"@.len() as int) =~= "qr:"@);
        assert(e.skip("qr:"@.len() as int) =~= c);
    }
}

/// A placeholder `{{path}}` is replaced by the text of the value at the
/// trimmed path: text before it that holds no `{` is kept as it is, and what
/// follows is interpolated in turn. A `{{` that no `}}` closes is kept, with
/// all that follows it.
pub proof fn lemma_interpolate_placeholder(
    root: JsonModel,
    vars: Map<Seq<char>, JsonModel>,
    before: Seq<char>,
    path: Seq<char>,
    rest: Seq<char>,
)
    requires
        forall|i: int| 0 <= i < before.len() ==> before[i] != '{',
    ensures
        (forall|i: int| 0 <= i < path.len() ==> path[i] != '}') ==> interpolate_spec(
            root,
            vars,
            before + "{{"@ + path + "}}"@ + rest,
        ) == before + text_of(resolve_spec(root, vars, trim(path))) + interpolate_spec(root, vars, rest),
        (forall|j: int| !crate::text::occurs_at(rest, "}}"@, j)) ==> interpolate_spec(
            root,
            vars,
            before + "{{"@ + rest,
        ) == before + "{{"@ + rest,
{
    reveal_strlit("{{");
    reveal_strlit("}}");
    let b = before.len() as int;
    let t1 = before + "{{"@ + path + "}}"@ + rest;
    let t2 = before + "{{"@ + rest;
    lemma_opens_at(before, path + "}}"@ + rest);
    assert(t1 == before + "{{"@ + (path + "}}"@ + rest));
    lemma_opens_at(before, rest);
    let after1 = t1.skip(b + 2);
    assert(after1 =~= path + "}}"@ + rest);
    if forall|i: int| 0 <= i < path.len() ==> path[i] != '}' {
        let p = path.len() as int;
        assert(after1.subrange(p, p + 2) =~= "}}"@);
        assert forall|j: int| 0 <= j < p implies !crate::text::occurs_at(after1, "}}"@, j) by {
            if crate::text::occurs_at(after1, "}}"@, j) {
                assert(after1.subrange(j, j + 2)[0] == after1[j]);
            }
        }
        crate::text::lemma_find_at(after1, "}}"@, p);
        assert(after1.take(p) =~= path);
        assert(after1.skip(p + 2) =~= rest);
        assert(t1.take(b) =~= before);
    }
    let after2 = t2.skip(b + 2);
    assert(after2 =~= rest);
    if forall|j: int| !crate::text::occurs_at(rest, "}}"@, j) {
        crate::text::lemma_find_first(rest, "}}"@);
        assert(t2.take(b) =~= before);
    }
}

/// `{{` opens first right after a text that holds no `{`.
proof fn lemma_opens_at(before: Seq<char>, tail: Seq<char>)
    requires
        forall|i: int| 0 <= i < before.len() ==> before[i] != '{',
    ensures
        find(before + "{{"@ + tail, "{{"@) == Some(before.len() as int),
{
    reveal_strlit("{{");
    let t = before + "{{"@ + tail;
    let b = before.len() as int;
    assert(t.subrange(b, b + 2) =~= "{{"@);
    assert forall|j: int| 0 <= j < b implies !crate::text::occurs_at(t, "{{"@, j) by {
        if crate::text::occurs_at(t, "{{"@, j) {
            assert(t.subrange(j, j + 2)[0] == t[j]);
        }
    }
    crate::text::lemma_find_at(t, "{{"@, b);
}

/// `@foreach` over an array walks its body once per item, in order, with
/// the loop variable bound to that item: for one item, exactly one pass
/// with the variable bound to it; for items `xs` then `ys`, the passes for
/// `xs` and then, from the style they leave, those for `ys`.
pub proof fn lemma_foreach_each_item(
    body: Seq<SkinNodeModel>,
    root: JsonModel,
    vars: Map<Seq<char>, JsonModel>,
    var: Seq<char>,
    xs: Seq<JsonModel>,
    ys: Seq<JsonModel>,
    style: Style,
)
    ensures
        walk_items_spec(body, root, vars, var, Seq::<JsonModel>::empty(), style) == (
            Seq::<ElementModel>::empty(),
            style,
        ),
        xs.len() == 1 ==> walk_items_spec(body, root, vars, var, xs, style) == walk_spec(
            body,
            root,
            vars.insert(var, xs[0]),
            style,
        ),
        ({
            let (ex, sx) = walk_items_spec(body, root, vars, var, xs, style);
            let (ey, sy) = walk_items_spec(body, root, vars, var, ys, sx);
            walk_items_spec(body, root, vars, var, xs + ys, style) == (ex + ey, sy)
        }),
    decreases xs.len(),
{
    if xs.len() == 1 {
        let (first, s1) = walk_spec(body, root, vars.insert(var, xs[0]), style);
        assert(xs.subrange(1, 1) == Seq::<JsonModel>::empty());
        assert(first + Seq::<ElementModel>::empty() == first);
    }
    if xs.len() == 0 {
        assert(xs + ys == ys);
        let (ey, sy) = walk_items_spec(body, root, vars, var, ys, style);
        assert(Seq::<ElementModel>::empty() + ey == ey);
    } else {
        let xs1 = xs.subrange(1, xs.len() as int);
        let (first, s1) = walk_spec(body, root, vars.insert(var, xs[0]), style);
        lemma_foreach_each_item(body, root, vars, var, xs1, ys, s1);
        assert((xs + ys)[0] == xs[0]);
        assert((xs + ys).subrange(1, (xs + ys).len() as int) == xs1 + ys);
        let (e1, t1) = walk_items_spec(body, root, vars, var, xs1, s1);
        let (ey, sy) = walk_items_spec(body, root, vars, var, ys, t1);
        assert(first + (e1 + ey) == (first + e1) + ey);
    }
}

/// `@match` walks the body of the first case whose value equals the text of
/// the matched value, and emits nothing, the style unchanged, when no case
/// does.
pub proof fn lemma_match_walks_first_case(
    value: Seq<char>,
    cases: Seq<(Seq<char>, Seq<SkinNodeModel>)>,
    root: JsonModel,
    vars: Map<Seq<char>, JsonModel>,
    style: Style,
)
    ensures
        ({
            let v = text_of(resolve_spec(root, vars, value));
            let out = walk_node_spec(SkinNodeModel::Match { value, cases }, root, vars, style);
            &&& forall|i: int|
                0 <= i < cases.len() && cases[i].0 == v && (forall|j: int| 0 <= j < i ==> cases[j].0 != v)
                    ==> out == walk_spec(cases[i].1, root, vars, style)
            &&& (forall|i: int| 0 <= i < cases.len() ==> cases[i].0 != v) ==> out == (
                Seq::<ElementModel>::empty(),
                style,
            )
        }),
{
    let v = text_of(resolve_spec(root, vars, value));
    lemma_match_picks_first_case(cases, v);
}

/// A `@foreach` whose list is an array makes one pass of its body per item
/// of that array, in order (see `lemma_foreach_each_item`); with an array of
/// one item, the loop variable is that item in the pass.
pub proof fn lemma_foreach_walks_items(
    list: Seq<char>,
    var: Seq<char>,
    body: Seq<SkinNodeModel>,
    root: JsonModel,
    vars: Map<Seq<char>, JsonModel>,
    style: Style,
)
    ensures
        resolve_spec(root, vars, list) matches Some(JsonModel::Array(items)) ==> walk_node_spec(
            SkinNodeModel::Foreach { list, var, body },
            root,
            vars,
            style,
        ) == walk_items_spec(body, root, vars, var, items, style),
        resolve_spec(root, vars, list) == Some(JsonModel::Array(Seq::<JsonModel>::empty()))
            ==> walk_node_spec(SkinNodeModel::Foreach { list, var, body }, root, vars, style) == (
            Seq::<ElementModel>::empty(),
            style,
        ),
{
}

/// Style directives set the style of what follows: after `@align`,
/// `@bold`, `@size` and `@underline`, a text line is emitted (after the
/// alignment element) in that alignment, emphasis, size and underline, and a
/// row in that emphasis, whatever the style before.
pub proof fn lemma_style_reaches_text(
    a: SkinAlignment,
    b: bool,
    sz: SkinSizeMode,
    u: bool,
    t: Seq<char>,
    left: Seq<char>,
    right: Seq<char>,
    root: JsonModel,
    vars: Map<Seq<char>, JsonModel>,
    style: Style,
)
    ensures
        ({
            let align = match a {
                SkinAlignment::Left => Alignment::Left,
                SkinAlignment::Center => Alignment::Center,
                SkinAlignment::Right => Alignment::Right,
            };
            let size = match sz {
                SkinSizeMode::Normal => SizeMode::Normal,
                SkinSizeMode::Double => SizeMode::Double,
            };
            let nodes = seq![
                SkinNodeModel::Align(a),
                SkinNodeModel::Bold(b),
                SkinNodeModel::Size(sz),
                SkinNodeModel::Underline(u),
                SkinNodeModel::Text(t),
                SkinNodeModel::Row { left, right },
            ];
            walk_spec(nodes, root, vars, style).0 == seq![
                ElementModel::Align(align),
                ElementModel::Text {
                    content: interpolate_spec(root, vars, t),
                    align,
                    bold: b,
                    size,
                    underline: u,
                },
                ElementModel::Row {
                    left: interpolate_spec(root, vars, left),
                    right: interpolate_spec(root, vars, right),
                    bold: b,
                },
            ]
        }),
{
    let n0 = SkinNodeModel::Align(a);
    let n1 = SkinNodeModel::Bold(b);
    let n2 = SkinNodeModel::Size(sz);
    let n3 = SkinNodeModel::Underline(u);
    let n4 = SkinNodeModel::Text(t);
    let n5 = SkinNodeModel::Row { left, right };
    let nodes = seq![n0, n1, n2, n3, n4, n5];
    let s5 = seq![n5];
    let s4 = seq![n4, n5];
    let s3 = seq![n3, n4, n5];
    let s2 = seq![n2, n3, n4, n5];
    let s1 = seq![n1, n2, n3, n4, n5];
    assert(nodes.subrange(1, 6) == s1);
    assert(s1.subrange(1, 5) == s2);
    assert(s2.subrange(1, 4) == s3);
    assert(s3.subrange(1, 3) == s4);
    assert(s4.subrange(1, 2) == s5);
    assert(s5.subrange(1, 1) == Seq::<SkinNodeModel>::empty());
    let st1 = Style { align: align_of(a), ..style };
    let st2 = Style { bold: b, ..st1 };
    let st3 = Style { size: size_of_mode(sz), ..st2 };
    let st4 = Style { underline: u, ..st3 };
    assert(s5[0] == n5 && s4[0] == n4 && s3[0] == n3 && s2[0] == n2 && s1[0] == n1 && nodes[0] == n0);
    assert(walk_spec(Seq::<SkinNodeModel>::empty(), root, vars, st4).0 == Seq::<ElementModel>::empty());
    let e5 = walk_spec(s5, root, vars, st4);
    assert(e5.0 == walk_node_spec(n5, root, vars, st4).0 + Seq::<ElementModel>::empty());
    let e4 = walk_spec(s4, root, vars, st4);
    let e3 = walk_spec(s3, root, vars, st3);
    let e2 = walk_spec(s2, root, vars, st2);
    let e1 = walk_spec(s1, root, vars, st1);
    assert(Seq::<ElementModel>::empty() + e4.0 == e4.0);
    assert(walk_node_spec(n3, root, vars, st3) == (Seq::<ElementModel>::empty(), st4));
    assert(e3.0 == e4.0);
    assert(walk_node_spec(n2, root, vars, st2) == (Seq::<ElementModel>::empty(), st3));
    assert(e2.0 == e4.0);
    assert(walk_node_spec(n1, root, vars, st1) == (Seq::<ElementModel>::empty(), st2));
    assert(e1.0 == e4.0);
    assert(walk_node_spec(n0, root, vars, style) == (seq![ElementModel::Align(align_of(a))], st1));
    assert(walk_spec(nodes, root, vars, style).0 == seq![ElementModel::Align(align_of(a))] + e1.0);
    let te = walk_node_spec(n4, root, vars, st4).0;
    assert(e4.0 == te + e5.0);
    assert(seq![ElementModel::Align(align_of(a))] + e4.0 =~= seq![
        ElementModel::Align(align_of(a)),
        te[0],
        walk_node_spec(n5, root, vars, st4).0[0],
    ]);
}

/// A dot path is followed one member at a time: a plain name is the loop
/// variable of that name, or else the root's member of that name; `a.b` is
/// member `b` of what `a` gives, and nothing when `a` gives nothing.
pub proof fn lemma_resolve_dotted(
    root: JsonModel,
    vars: Map<Seq<char>, JsonModel>,
    a: Seq<char>,
    b: Seq<char>,
)
    requires
        forall|i: int| 0 <= i < a.len() ==> a[i] != '.',
        forall|i: int| 0 <= i < b.len() ==> b[i] != '.',
    ensures
        ({
            let start = if vars.contains_key(a) {
                Some(vars[a])
            } else {
                get_member(root, a)
            };
            &&& resolve_spec(root, vars, a) == start
            &&& resolve_spec(root, vars, a + "."@ + b) == match start {
                Some(v) => get_member(v, b),
                None => None,
            }
        }),
{
    reveal_strlit(".");
    assert("."@ =~= seq!['.']);
    crate::text::lemma_split_on_no_sep(a, '.');
    crate::text::lemma_split_on_no_sep(b, '.');
    crate::text::lemma_split_on_concat(a, b, '.');
    let parts = split_on(a + "."@ + b, '.');
    assert(parts == seq![a] + seq![b]);
    assert(parts[0] == a);
    assert(parts.skip(1) =~= seq![b]);
    assert(seq![b].drop_first() =~= Seq::<Seq<char>>::empty());
    assert(split_on(a, '.').skip(1) =~= Seq::<Seq<char>>::empty());
    let start = if vars.contains_key(a) {
        Some(vars[a])
    } else {
        get_member(root, a)
    };
    assert(follow(start, Seq::<Seq<char>>::empty()) == start);
    assert(resolve_spec(root, vars, a) == follow(start, Seq::<Seq<char>>::empty()));
    if let Some(v) = start {
        assert(follow(get_member(v, b), Seq::<Seq<char>>::empty()) == get_member(v, b));
        assert(seq![b][0] == b);
    }
    assert(resolve_spec(root, vars, a + "."@ + b) == follow(start, seq![b]));
}

/// The text of a value: a string is itself, a number its text, a boolean
/// `true` or `false`; null, arrays, objects and a missing value are empty.
/// So `@image:` and `@qr:` emit their element for a non-empty string at
/// their path, and nothing, the style unchanged, for a missing value or null.
pub proof fn lemma_value_text(
    p: Seq<char>,
    root: JsonModel,
    vars: Map<Seq<char>, JsonModel>,
    style: Style,
)
    ensures
        ({
            let v = resolve_spec(root, vars, p);
            let img = walk_node_spec(SkinNodeModel::Image(p), root, vars, style);
            let qr = walk_node_spec(SkinNodeModel::Qr(p), root, vars, style);
            &&& v matches Some(JsonModel::Str(s)) ==> text_of(v) == s
            &&& v matches Some(JsonModel::Number { text, nonzero }) ==> text_of(v) == text
            &&& v == Some(JsonModel::Bool(true)) ==> text_of(v) == "true"@
            &&& v == Some(JsonModel::Bool(false)) ==> text_of(v) == "false"@
            &&& (v is None || v == Some(JsonModel::Null) || v matches Some(JsonModel::Array(_))
                || v matches Some(JsonModel::Object(_))) ==> text_of(v) == Seq::<char>::empty()
            &&& v matches Some(JsonModel::Str(s)) ==> (s.len() > 0 ==> img == (
                seq![ElementModel::Image(s)],
                style,
            ) && qr == (seq![ElementModel::Qr(s)], style))
            &&& (v is None || v == Some(JsonModel::Null)) ==> img == (Seq::<ElementModel>::empty(), style)
                && qr == (Seq::<ElementModel>::empty(), style)
        }),
{
}

} // verus!

use vstd::prelude::*;

verus! {

/// Horizontal alignment requested by an `@align:` directive.
#[derive(Debug, Clone, Copy, PartialEq, Eq)]
pub enum Alignment {
    Left,
    Center,
    Right,
}

/// Character size requested by a `@size:` directive.
#[derive(Debug, Clone, Copy, PartialEq, Eq)]
pub enum SizeMode {
    Normal,
    Double,
}

/// One node of a parsed skin (template).
#[derive(Debug)]
pub enum SkinNode {
    /// Literal text line, may contain {{placeholder}} tokens.
    Text(String),
    Align(Alignment),
    Bold(bool),
    Size(SizeMode),
    Underline(bool),
    Divider,
    Blank,
    /// Path to a value resolving to an image file path.
    Image(String),
    /// Path to a value resolving to QR content string.
    Qr(String),
    /// Two-column single line: name on the left, value on the right,
    /// joined by a dot leader filling the remaining paper width.
    Row { left: String, right: String },
    Cut,
    If { condition: String, then_branch: Vec<SkinNode>, else_branch: Vec<SkinNode> },
    Foreach { list: String, var: String, body: Vec<SkinNode> },
    Match { value: String, cases: Vec<(String, Vec<SkinNode>)> },
}

/// A parsed skin: the top-level sequence of nodes.
pub type Skin = Vec<SkinNode>;

/// Mathematical model of a skin node: strings become character sequences
/// and nested blocks become sequences of models.
pub enum SkinNodeModel {
    Text(Seq<char>),
    Align(Alignment),
    Bold(bool),
    Size(SizeMode),
    Underline(bool),
    Divider,
    Blank,
    Image(Seq<char>),
    Qr(Seq<char>),
    Row { left: Seq<char>, right: Seq<char> },
    Cut,
    If { condition: Seq<char>, then_branch: Seq<SkinNodeModel>, else_branch: Seq<SkinNodeModel> },
    Foreach { list: Seq<char>, var: Seq<char>, body: Seq<SkinNodeModel> },
    Match { value: Seq<char>, cases: Seq<(Seq<char>, Seq<SkinNodeModel>)> },
}

impl View for SkinNode {
    type V = SkinNodeModel;

    open spec fn view(&self) -> SkinNodeModel {
        node_model(*self)
    }
}

/// The model of one node.
pub open spec fn node_model(n: SkinNode) -> SkinNodeModel
    decreases n, 0nat,
{
    match n {
        SkinNode::Text(s) => SkinNodeModel::Text(s@),
        SkinNode::Align(a) => SkinNodeModel::Align(a),
        SkinNode::Bold(b) => SkinNodeModel::Bold(b),
        SkinNode::Size(s) => SkinNodeModel::Size(s),
        SkinNode::Underline(u) => SkinNodeModel::Underline(u),
        SkinNode::Divider => SkinNodeModel::Divider,
        SkinNode::Blank => SkinNodeModel::Blank,
        SkinNode::Image(p) => SkinNodeModel::Image(p@),
        SkinNode::Qr(p) => SkinNodeModel::Qr(p@),
        SkinNode::Row { left, right } => SkinNodeModel::Row { left: left@, right: right@ },
        SkinNode::Cut => SkinNodeModel::Cut,
        SkinNode::If { condition, then_branch, else_branch } => SkinNodeModel::If {
            condition: condition@,
            then_branch: nodes_model(then_branch@),
            else_branch: nodes_model(else_branch@),
        },
        SkinNode::Foreach { list, var, body } => SkinNodeModel::Foreach {
            list: list@,
            var: var@,
            body: nodes_model(body@),
        },
        SkinNode::Match { value, cases } => SkinNodeModel::Match {
            value: value@,
            cases: cases_model(cases@),
        },
    }
}

/// The model of a sequence of nodes, element by element.
pub open spec fn nodes_model(s: Seq<SkinNode>) -> Seq<SkinNodeModel>
    decreases s, s.len(),
{
    if s.len() == 0 {
        Seq::empty()
    } else {
        nodes_model(s.drop_last()).push(node_model(s.last()))
    }
}

/// The model of the `(case value, body)` list of a `@match` block.
pub open spec fn cases_model(s: Seq<(String, Vec<SkinNode>)>) -> Seq<(Seq<char>, Seq<SkinNodeModel>)>
    decreases s, s.len(),
{
    if s.len() == 0 {
        Seq::empty()
    } else {
        cases_model(s.drop_last()).push((s.last().0@, nodes_model(s.last().1@)))
    }
}


proof fn lemma_nodes_model_index(s: Seq<SkinNode>, i: int)
    requires
        0 <= i < s.len(),
    ensures
        nodes_model(s).len() == s.len(),
        nodes_model(s)[i] == node_model(s[i]),
    decreases s.len(),
{
    lemma_nodes_model_len(s);
    if i < s.len() - 1 {
        lemma_nodes_model_index(s.drop_last(), i);
    }
}

proof fn lemma_nodes_model_len(s: Seq<SkinNode>)
    ensures
        nodes_model(s).len() == s.len(),
    decreases s.len(),
{
    if s.len() > 0 {
        lemma_nodes_model_len(s.drop_last());
    }
}

/// The nodes of a sequence, modelled one by one.
pub proof fn lemma_nodes_model(s: Seq<SkinNode>)
    ensures
        nodes_model(s).len() == s.len(),
        forall|i: int| 0 <= i < s.len() ==> #[trigger] nodes_model(s)[i] == node_model(s[i]),
{
    lemma_nodes_model_len(s);
    assert forall|i: int| 0 <= i < s.len() implies #[trigger] nodes_model(s)[i] == node_model(s[i]) by {
        lemma_nodes_model_index(s, i);
    }
}

proof fn lemma_cases_model_len(s: Seq<(String, Vec<SkinNode>)>)
    ensures
        cases_model(s).len() == s.len(),
    decreases s.len(),
{
    if s.len() > 0 {
        lemma_cases_model_len(s.drop_last());
    }
}

proof fn lemma_cases_model_index(s: Seq<(String, Vec<SkinNode>)>, i: int)
    requires
        0 <= i < s.len(),
    ensures
        cases_model(s).len() == s.len(),
        cases_model(s)[i] == (s[i].0@, nodes_model(s[i].1@)),
    decreases s.len(),
{
    lemma_cases_model_len(s);
    if i < s.len() - 1 {
        lemma_cases_model_index(s.drop_last(), i);
    }
}

/// The cases of a `@match` list, modelled one by one.
pub proof fn lemma_cases_model(s: Seq<(String, Vec<SkinNode>)>)
    ensures
        cases_model(s).len() == s.len(),
        forall|i: int|
            0 <= i < s.len() ==> #[trigger] cases_model(s)[i] == (s[i].0@, nodes_model(s[i].1@)),
{
    lemma_cases_model_len(s);
    assert forall|i: int| 0 <= i < s.len() implies #[trigger] cases_model(s)[i] == (
        s[i].0@,
        nodes_model(s[i].1@),
    ) by {
        lemma_cases_model_index(s, i);
    }
}


fn copy_string(s: &String) -> (r: String)
    ensures
        r@ == s@,
{
    s.clone()
}

/// A deep copy of a list of nodes.
fn clone_nodes(v: &Vec<SkinNode>) -> (r: Vec<SkinNode>)
    ensures
        nodes_model(r@) == nodes_model(v@),
    decreases v@, 0nat,
{
    let mut out: Vec<SkinNode> = Vec::new();
    let mut i: usize = 0;
    while i < v.len()
        invariant
            i <= v@.len(),
            nodes_model(out@) == nodes_model(v@.take(i as int)),
        decreases v@.len() - i,
    {
        proof {
            assert(decreases_to!(v@ => v@[i as int]));
        }
        let c = clone_node(&v[i]);
        let ghost before = out@;
        out.push(c);
        proof {
            assert(out@.drop_last() == before);
            assert(v@.take(i + 1).drop_last() == v@.take(i as int));
        }
        i += 1;
    }
    assert(v@.take(v@.len() as int) == v@);
    out
}

/// A deep copy of a node.
pub fn clone_node(n: &SkinNode) -> (r: SkinNode)
    ensures
        r@ == n@,
    decreases *n, 1nat,
{
    match n {
        SkinNode::Text(t) => SkinNode::Text(copy_string(t)),
        SkinNode::Align(a) => SkinNode::Align(*a),
        SkinNode::Bold(b) => SkinNode::Bold(*b),
        SkinNode::Size(s) => SkinNode::Size(*s),
        SkinNode::Underline(u) => SkinNode::Underline(*u),
        SkinNode::Divider => SkinNode::Divider,
        SkinNode::Blank => SkinNode::Blank,
        SkinNode::Image(p) => SkinNode::Image(copy_string(p)),
        SkinNode::Qr(p) => SkinNode::Qr(copy_string(p)),
        SkinNode::Row { left, right } => SkinNode::Row {
            left: copy_string(left),
            right: copy_string(right),
        },
        SkinNode::Cut => SkinNode::Cut,
        SkinNode::If { condition, then_branch, else_branch } => {
            proof {
                assert(decreases_to!(*n => then_branch@));
                assert(decreases_to!(*n => else_branch@));
            }
            SkinNode::If {
                condition: copy_string(condition),
                then_branch: clone_nodes(then_branch),
                else_branch: clone_nodes(else_branch),
            }
        },
        SkinNode::Foreach { list, var, body } => {
            proof {
                assert(decreases_to!(*n => body@));
            }
            SkinNode::Foreach {
                list: copy_string(list),
                var: copy_string(var),
                body: clone_nodes(body),
            }
        },
        SkinNode::Match { value, cases } => {
            let mut out: Vec<(String, Vec<SkinNode>)> = Vec::new();
            let mut i: usize = 0;
            while i < cases.len()
                invariant
                    i <= cases@.len(),
                    cases_model(out@) == cases_model(cases@.take(i as int)),
                    decreases_to!(*n => cases@),
                decreases cases@.len() - i,
            {
                proof {
                    assert(decreases_to!(*n => cases@[i as int].1@));
                }
                let k = copy_string(&cases[i].0);
                let b = clone_nodes(&cases[i].1);
                let ghost before = out@;
                out.push((k, b));
                proof {
                    assert(out@.drop_last() == before);
                    assert(cases@.take(i + 1).drop_last() == cases@.take(i as int));
                }
                i += 1;
            }
            assert(cases@.take(cases@.len() as int) == cases@);
            SkinNode::Match { value: copy_string(value), cases: out }
        },
    }
}

impl Clone for SkinNode {
    /// A deep copy of this node.
    fn clone(&self) -> (r: Self)
        ensures
            r@ == self@,
    {
        clone_node(self)
    }
}

} // verus!

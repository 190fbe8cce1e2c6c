//! Recursive-descent parser from skin source text to a tree of skin nodes.
use vstd::prelude::*;
use super::lexer::{tokenize, tokenize_spec};
use super::model::{cases_model, node_model, nodes_model, Alignment, SizeMode, Skin, SkinNode, SkinNodeModel};
use crate::text::{
    append_str, chars_eq, find, find_chars, from_chars, has_prefix, has_suffix,
    slice_chars, starts_with, ends_with, strip_prefix, strip_prefix_chars, strip_suffix,
    strip_suffix_chars, to_chars, trim, trim_chars,
};

verus! {

/// Why a skin could not be parsed. Each variant carries the offending text.
#[derive(Debug)]
pub enum ParseError {
    /// `@align:` with a value other than left, center or right.
    UnknownAlignment(String),
    /// `@size:` with a value other than normal, double, double_width or double_height.
    UnknownSize(String),
    /// `@row:` whose argument has no `|`.
    InvalidRow(String),
    /// `@foreach:` whose argument is not `<list> as <var>`.
    InvalidForeach(String),
    /// `@if:` (with this condition) that no `@endif` closes.
    MissingEndif(String),
    /// `@foreach:` (with this argument) that no `@endforeach` closes.
    MissingEndforeach(String),
    /// `@match:` (with this value) that no `@endmatch` closes.
    MissingEndmatch(String),
}

/// Mathematical model of a [`ParseError`].
pub enum ParseErrorModel {
    UnknownAlignment(Seq<char>),
    UnknownSize(Seq<char>),
    InvalidRow(Seq<char>),
    InvalidForeach(Seq<char>),
    MissingEndif(Seq<char>),
    MissingEndforeach(Seq<char>),
    MissingEndmatch(Seq<char>),
}

impl View for ParseError {
    type V = ParseErrorModel;

    open spec fn view(&self) -> ParseErrorModel {
        match self {
            ParseError::UnknownAlignment(s) => ParseErrorModel::UnknownAlignment(s@),
            ParseError::UnknownSize(s) => ParseErrorModel::UnknownSize(s@),
            ParseError::InvalidRow(s) => ParseErrorModel::InvalidRow(s@),
            ParseError::InvalidForeach(s) => ParseErrorModel::InvalidForeach(s@),
            ParseError::MissingEndif(s) => ParseErrorModel::MissingEndif(s@),
            ParseError::MissingEndforeach(s) => ParseErrorModel::MissingEndforeach(s@),
            ParseError::MissingEndmatch(s) => ParseErrorModel::MissingEndmatch(s@),
        }
    }
}

/// The human-readable text of an error.
pub open spec fn error_message(e: ParseErrorModel) -> Seq<char> {
    match e {
        ParseErrorModel::UnknownAlignment(s) => "unknown alignment: "@ + s,
        ParseErrorModel::UnknownSize(s) => "unknown size: "@ + s,
        ParseErrorModel::InvalidRow(s) => "invalid @row syntax: expected '<left>|<right>', got '"@ + s
            + "'"@,
        ParseErrorModel::InvalidForeach(s) => "invalid @foreach syntax: expected '<list> as <var>', got '"@
            + s + "'"@,
        ParseErrorModel::MissingEndif(s) => "expected @endif to close @if:"@ + s,
        ParseErrorModel::MissingEndforeach(s) => "expected @endforeach to close @foreach:"@ + s,
        ParseErrorModel::MissingEndmatch(s) => "expected @endmatch to close @match:"@ + s,
    }
}

impl ParseError {
    /// The human-readable text of this error.
    pub fn message(&self) -> (m: String)
        ensures
            m@ == error_message(self@),
    {
        let mut v: Vec<char> = Vec::new();
        match self {
            ParseError::UnknownAlignment(s) => {
                append_str(&mut v, "unknown alignment: ");
                append_str(&mut v, s.as_str());
            },
            ParseError::UnknownSize(s) => {
                append_str(&mut v, "unknown size: ");
                append_str(&mut v, s.as_str());
            },
            ParseError::InvalidRow(s) => {
                append_str(&mut v, "invalid @row syntax: expected '<left>|<right>', got '");
                append_str(&mut v, s.as_str());
                append_str(&mut v, "'");
            },
            ParseError::InvalidForeach(s) => {
                append_str(&mut v, "invalid @foreach syntax: expected '<list> as <var>', got '");
                append_str(&mut v, s.as_str());
                append_str(&mut v, "'");
            },
            ParseError::MissingEndif(s) => {
                append_str(&mut v, "expected @endif to close @if:");
                append_str(&mut v, s.as_str());
            },
            ParseError::MissingEndforeach(s) => {
                append_str(&mut v, "expected @endforeach to close @foreach:");
                append_str(&mut v, s.as_str());
            },
            ParseError::MissingEndmatch(s) => {
                append_str(&mut v, "expected @endmatch to close @match:");
                append_str(&mut v, s.as_str());
            },
        }
        from_chars(v.as_slice())
    }
}

// ---------------------------------------------------------------------------
// Specification of the grammar
// ---------------------------------------------------------------------------

/// `line` ends a block delimited by `terms`: a terminator ending with `:` is
/// matched as a prefix, any other terminator exactly.
pub open spec fn is_terminator_spec(line: Seq<char>, terms: Seq<Seq<char>>) -> bool {
    exists|i: int|
        0 <= i < terms.len() && if ends_with(#[trigger] terms[i], ":"@) {
            starts_with(line, terms[i])
        } else {
            line == terms[i]
        }
}

/// The argument of `@image:` / `@qr:`: trimmed, and unwrapped from `{{ }}` if
/// it is written as a single placeholder.
pub open spec fn unwrap_placeholder_spec(s: Seq<char>) -> Seq<char> {
    let t = trim(s);
    match strip_prefix(t, "{{"@) {
        Some(a) => match strip_suffix(a, "}}"@) {
            Some(inner) => trim(inner),
            None => t,
        },
        None => t,
    }
}

/// `<left>|<right>` split at the first `|`, both sides trimmed.
pub open spec fn split_row_spec(s: Seq<char>) -> Option<(Seq<char>, Seq<char>)> {
    match find(s, "|"@) {
        Some(i) => Some((trim(s.take(i)), trim(s.skip(i + "|"@.len())))),
        None => None,
    }
}

/// `<list> as <var>`: exactly one ` as ` separator, both sides trimmed.
pub open spec fn split_foreach_spec(s: Seq<char>) -> Option<(Seq<char>, Seq<char>)> {
    match find(s, " as "@) {
        Some(i) => {
            let rest = s.skip(i + " as "@.len());
            if find(rest, " as "@) is Some {
                None
            } else {
                Some((trim(s.take(i)), trim(rest)))
            }
        },
        None => None,
    }
}

/// Terminators of the then-branch of `@if:`.
pub open spec fn if_terms() -> Seq<Seq<char>> {
    seq!["@else"@, "@endif"@]
}

/// Terminators of the else-branch of `@if:`.
pub open spec fn else_terms() -> Seq<Seq<char>> {
    seq!["@endif"@]
}

/// Terminators of the body of `@foreach:`.
pub open spec fn foreach_terms() -> Seq<Seq<char>> {
    seq!["@endforeach"@]
}

/// Terminators of the body of a `@case:`.
pub open spec fn case_terms() -> Seq<Seq<char>> {
    seq!["@case:"@, "@endmatch"@]
}

/// Parses `lines[cursor..]` up to (not including) the first terminator line,
/// or to the end. On success gives the nodes and the index where it stopped.
pub open spec fn parse_block_spec(lines: Seq<Seq<char>>, cursor: int, terms: Seq<Seq<char>>)
    -> Result<(Seq<SkinNodeModel>, int), ParseErrorModel>
    decreases lines.len() - cursor, 3nat,
{
    if cursor < 0 || cursor >= lines.len() || is_terminator_spec(lines[cursor], terms) {
        Ok((Seq::empty(), cursor))
    } else {
        match parse_line_spec(lines, cursor) {
            Err(e) => Err(e),
            Ok((node, next)) => if cursor < next <= lines.len() {
                match parse_block_spec(lines, next, terms) {
                    Err(e) => Err(e),
                    Ok((rest, end)) => Ok((seq![node] + rest, end)),
                }
            } else {
                Ok((seq![node], next))
            },
        }
    }
}

/// Parses the one directive or text line at `lines[cursor]` (with the block
/// it opens, if any). On success gives the node and the index after it.
pub open spec fn parse_line_spec(lines: Seq<Seq<char>>, cursor: int) -> Result<
    (SkinNodeModel, int),
    ParseErrorModel,
>
    decreases lines.len() - cursor, 2nat,
{
    let line = lines[cursor];
    let next = cursor + 1;
    if let Some(rest) = strip_prefix(line, "@align:"@) {
        if rest == "left"@ {
            Ok((SkinNodeModel::Align(Alignment::Left), next))
        } else if rest == "center"@ {
            Ok((SkinNodeModel::Align(Alignment::Center), next))
        } else if rest == "right"@ {
            Ok((SkinNodeModel::Align(Alignment::Right), next))
        } else {
            Err(ParseErrorModel::UnknownAlignment(rest))
        }
    } else if let Some(rest) = strip_prefix(line, "@bold:"@) {
        Ok((SkinNodeModel::Bold(rest == "on"@), next))
    } else if let Some(rest) = strip_prefix(line, "@size:"@) {
        if rest == "normal"@ {
            Ok((SkinNodeModel::Size(SizeMode::Normal), next))
        } else if rest == "double"@ || rest == "double_width"@ || rest == "double_height"@ {
            Ok((SkinNodeModel::Size(SizeMode::Double), next))
        } else {
            Err(ParseErrorModel::UnknownSize(rest))
        }
    } else if let Some(rest) = strip_prefix(line, "@underline:"@) {
        Ok((SkinNodeModel::Underline(rest == "on"@), next))
    } else if line == "@divider"@ {
        Ok((SkinNodeModel::Divider, next))
    } else if line == "@blank"@ {
        Ok((SkinNodeModel::Blank, next))
    } else if let Some(rest) = strip_prefix(line, "@image:"@) {
        Ok((SkinNodeModel::Image(unwrap_placeholder_spec(rest)), next))
    } else if let Some(rest) = strip_prefix(line, "@qr:"@) {
        Ok((SkinNodeModel::Qr(unwrap_placeholder_spec(rest)), next))
    } else if let Some(rest) = strip_prefix(line, "@row:"@) {
        match split_row_spec(rest) {
            Some((left, right)) => Ok((SkinNodeModel::Row { left, right }, next)),
            None => Err(ParseErrorModel::InvalidRow(rest)),
        }
    } else if line == "@cut"@ {
        Ok((SkinNodeModel::Cut, next))
    } else if let Some(rest) = strip_prefix(line, "@if:"@) {
        parse_if_spec(lines, cursor, rest)
    } else if let Some(rest) = strip_prefix(line, "@foreach:"@) {
        match split_foreach_spec(rest) {
            None => Err(ParseErrorModel::InvalidForeach(rest)),
            Some((list, var)) => parse_foreach_spec(lines, cursor, rest, list, var),
        }
    } else if let Some(rest) = strip_prefix(line, "@match:"@) {
        parse_match_spec(lines, cursor, rest)
    } else {
        Ok((SkinNodeModel::Text(line), next))
    }
}

/// `lines[at]` is the `@endif` that closes an `@if:`.
pub open spec fn closes_with(lines: Seq<Seq<char>>, at: int, end: Seq<char>) -> bool {
    0 <= at < lines.len() && lines[at] == end
}

/// The `@if:condition` block that starts at `lines[cursor]`.
pub open spec fn parse_if_spec(lines: Seq<Seq<char>>, cursor: int, condition: Seq<char>) -> Result<
    (SkinNodeModel, int),
    ParseErrorModel,
>
    decreases lines.len() - cursor, 1nat,
    when 0 <= cursor < lines.len()
{
    match parse_block_spec(lines, cursor + 1, if_terms()) {
        Err(e) => Err(e),
        Ok((then_branch, c1)) => {
            let else_part = if cursor < c1 && closes_with(lines, c1, "@else"@) {
                match parse_block_spec(lines, c1 + 1, else_terms()) {
                    Err(e) => Err(e),
                    Ok((else_branch, c2)) => Ok((else_branch, c2)),
                }
            } else {
                Ok((Seq::empty(), c1))
            };
            match else_part {
                Err(e) => Err(e),
                Ok((else_branch, c2)) => if closes_with(lines, c2, "@endif"@) {
                    Ok((SkinNodeModel::If { condition, then_branch, else_branch }, c2 + 1))
                } else {
                    Err(ParseErrorModel::MissingEndif(condition))
                },
            }
        },
    }
}

/// The `@foreach:<list> as <var>` block that starts at `lines[cursor]`.
pub open spec fn parse_foreach_spec(
    lines: Seq<Seq<char>>,
    cursor: int,
    arg: Seq<char>,
    list: Seq<char>,
    var: Seq<char>,
) -> Result<(SkinNodeModel, int), ParseErrorModel>
    decreases lines.len() - cursor, 1nat,
    when 0 <= cursor < lines.len()
{
    match parse_block_spec(lines, cursor + 1, foreach_terms()) {
        Err(e) => Err(e),
        Ok((body, c1)) => if closes_with(lines, c1, "@endforeach"@) {
            Ok((SkinNodeModel::Foreach { list, var, body }, c1 + 1))
        } else {
            Err(ParseErrorModel::MissingEndforeach(arg))
        },
    }
}

/// The `@match:value` block that starts at `lines[cursor]`.
pub open spec fn parse_match_spec(lines: Seq<Seq<char>>, cursor: int, value: Seq<char>) -> Result<
    (SkinNodeModel, int),
    ParseErrorModel,
>
    decreases lines.len() - cursor, 1nat,
    when 0 <= cursor < lines.len()
{
    match parse_cases_spec(lines, cursor + 1) {
        Err(e) => Err(e),
        Ok((cases, c1)) => if closes_with(lines, c1, "@endmatch"@) {
            Ok((SkinNodeModel::Match { value, cases }, c1 + 1))
        } else {
            Err(ParseErrorModel::MissingEndmatch(value))
        },
    }
}

/// The run of `@case:` blocks that starts at `lines[cursor]`.
pub open spec fn parse_cases_spec(lines: Seq<Seq<char>>, cursor: int) -> Result<
    (Seq<(Seq<char>, Seq<SkinNodeModel>)>, int),
    ParseErrorModel,
>
    decreases lines.len() - cursor, 0nat,
{
    if 0 <= cursor < lines.len() && starts_with(lines[cursor], "@case:"@) {
        let value = trim(lines[cursor].skip("@case:"@.len() as int));
        match parse_block_spec(lines, cursor + 1, case_terms()) {
            Err(e) => Err(e),
            Ok((body, c1)) => if cursor < c1 <= lines.len() {
                match parse_cases_spec(lines, c1) {
                    Err(e) => Err(e),
                    Ok((rest, c2)) => Ok((seq![(value, body)] + rest, c2)),
                }
            } else {
                Ok((seq![(value, body)], c1))
            },
        }
    } else {
        Ok((Seq::empty(), cursor))
    }
}

/// The result of parsing skin source text `source`.
pub open spec fn parse_spec(source: Seq<char>) -> Result<Seq<SkinNodeModel>, ParseErrorModel> {
    match parse_block_spec(tokenize_spec(source), 0, Seq::empty()) {
        Ok((nodes, _)) => Ok(nodes),
        Err(e) => Err(e),
    }
}


/// The block result `r` with the nodes `ns` put in front.
pub open spec fn prepend_nodes(
    ns: Seq<SkinNodeModel>,
    r: Result<(Seq<SkinNodeModel>, int), ParseErrorModel>,
) -> Result<(Seq<SkinNodeModel>, int), ParseErrorModel> {
    match r {
        Ok((rest, c)) => Ok((ns + rest, c)),
        Err(e) => Err(e),
    }
}

/// The cases result `r` with the cases `cs` put in front.
pub open spec fn prepend_cases(
    cs: Seq<(Seq<char>, Seq<SkinNodeModel>)>,
    r: Result<(Seq<(Seq<char>, Seq<SkinNodeModel>)>, int), ParseErrorModel>,
) -> Result<(Seq<(Seq<char>, Seq<SkinNodeModel>)>, int), ParseErrorModel> {
    match r {
        Ok((rest, c)) => Ok((cs + rest, c)),
        Err(e) => Err(e),
    }
}

/// The terminator list that an optional slice of terminators stands for.
pub open spec fn terms_view(t: Option<&[&str]>) -> Seq<Seq<char>> {
    match t {
        Some(s) => s.deep_view(),
        None => Seq::empty(),
    }
}

// ---------------------------------------------------------------------------
// Executable parser
// ---------------------------------------------------------------------------

fn is_terminator_chars(line: &[char], terminators: &[&str]) -> (b: bool)
    ensures
        b == is_terminator_spec(line@, terminators.deep_view()),
{
    let ghost terms = terminators.deep_view();
    let mut i: usize = 0;
    while i < terminators.len()
        invariant
            i <= terminators@.len(),
            terms == terminators.deep_view(),
            forall|k: int|
                0 <= k < i ==> !(if ends_with(#[trigger] terms[k], ":"@) {
                    starts_with(line@, terms[k])
                } else {
                    line@ == terms[k]
                }),
        decreases terminators@.len() - i,
    {
        let t = terminators[i];
        let tc = to_chars(t);
        assert(terms[i as int] == t@);
        let hit = if has_suffix(tc.as_slice(), ":") {
            has_prefix(line, t)
        } else {
            chars_eq(line, t)
        };
        if hit {
            return true;
        }
        i += 1;
    }
    false
}

/// Whether `line` ends a block delimited by `terminators`: a terminator
/// ending with `:` matches as a prefix (e.g. `@case:`), any other exactly.
pub fn is_terminator(line: &str, terminators: &[&str]) -> (b: bool)
    ensures
        b == is_terminator_spec(line@, terminators.deep_view()),
{
    let l = to_chars(line);
    is_terminator_chars(l.as_slice(), terminators)
}

fn unwrap_placeholder_chars(s: &[char]) -> (r: Vec<char>)
    ensures
        r@ == unwrap_placeholder_spec(s@),
{
    let t = trim_chars(s);
    match strip_prefix_chars(t.as_slice(), "{{") {
        Some(a) => match strip_suffix_chars(a.as_slice(), "}}") {
            Some(inner) => trim_chars(inner.as_slice()),
            None => t,
        },
        None => t,
    }
}

/// The argument of `@image:` / `@qr:`, trimmed, with a surrounding `{{ }}`
/// removed (and the inside trimmed) when present.
pub fn unwrap_placeholder(s: &str) -> (r: String)
    ensures
        r@ == unwrap_placeholder_spec(s@),
{
    let c = to_chars(s);
    let r = unwrap_placeholder_chars(c.as_slice());
    from_chars(r.as_slice())
}

fn split_row_chars(s: &[char]) -> (r: Option<(Vec<char>, Vec<char>)>)
    ensures
        match r {
            Some((a, b)) => split_row_spec(s@) == Some((a@, b@)),
            None => split_row_spec(s@) is None,
        },
{
    let n = s.len();
    match find_chars(s, "|") {
        Some(i) => {
            proof {
                reveal_strlit("|");
                crate::text::lemma_find_bounds(s@, "|"@);
            }
            let l = slice_chars(s, 0, i);
            let r = slice_chars(s, i + 1, n);
            Some((trim_chars(l.as_slice()), trim_chars(r.as_slice())))
        },
        None => None,
    }
}

/// Splits `<left>|<right>` at the first `|`, trimming both sides.
pub fn split_row(s: &str) -> (r: Result<(String, String), ParseError>)
    ensures
        match r {
            Ok((a, b)) => split_row_spec(s@) == Some((a@, b@)),
            Err(e) => split_row_spec(s@) is None && e@ == ParseErrorModel::InvalidRow(s@),
        },
{
    let c = to_chars(s);
    match split_row_chars(c.as_slice()) {
        Some((a, b)) => Ok((from_chars(a.as_slice()), from_chars(b.as_slice()))),
        None => Err(ParseError::InvalidRow(from_chars(c.as_slice()))),
    }
}

fn split_foreach_chars(s: &[char]) -> (r: Option<(Vec<char>, Vec<char>)>)
    ensures
        match r {
            Some((a, b)) => split_foreach_spec(s@) == Some((a@, b@)),
            None => split_foreach_spec(s@) is None,
        },
{
    let n = s.len();
    match find_chars(s, " as ") {
        Some(i) => {
            proof {
                reveal_strlit(" as ");
                crate::text::lemma_find_bounds(s@, " as "@);
            }
            let rest = slice_chars(s, i + 4, n);
            assert(rest@ == s@.skip(i + " as "@.len()));
            match find_chars(rest.as_slice(), " as ") {
                Some(_) => None,
                None => {
                    let l = slice_chars(s, 0, i);
                    Some((trim_chars(l.as_slice()), trim_chars(rest.as_slice())))
                },
            }
        },
        None => None,
    }
}

/// Splits `<list> as <var>`, which must hold exactly one ` as `, trimming both sides.
pub fn split_foreach(s: &str) -> (r: Result<(String, String), ParseError>)
    ensures
        match r {
            Ok((a, b)) => split_foreach_spec(s@) == Some((a@, b@)),
            Err(e) => split_foreach_spec(s@) is None && e@ == ParseErrorModel::InvalidForeach(s@),
        },
{
    let c = to_chars(s);
    match split_foreach_chars(c.as_slice()) {
        Some((a, b)) => Ok((from_chars(a.as_slice()), from_chars(b.as_slice()))),
        None => Err(ParseError::InvalidForeach(from_chars(c.as_slice()))),
    }
}

/// Whether `lines[at]` is exactly `end`.
fn line_is(lines: &[String], at: usize, end: &str) -> (b: bool)
    ensures
        b == closes_with(lines.deep_view(), at as int, end@),
{
    if at < lines.len() {
        let l = to_chars(lines[at].as_str());
        chars_eq(l.as_slice(), end)
    } else {
        false
    }
}

/// Parses lines into nodes until a terminator line is hit (or the end if
/// `terminators` is `None`). Terminators ending with ':' are matched by
/// prefix (e.g. "@case:"), others exactly (e.g. "@endif"). The terminator
/// line itself is not consumed.
fn parse_block(lines: &[String], cursor: &mut usize, terminators: Option<&[&str]>) -> (r: Result<
    Vec<SkinNode>,
    ParseError,
>)
    requires
        *old(cursor) <= lines@.len(),
    ensures
        match r {
            Ok(nodes) => {
                &&& parse_block_spec(lines.deep_view(), *old(cursor) as int, terms_view(terminators))
                    == Ok::<_, ParseErrorModel>((nodes_model(nodes@), *final(cursor) as int))
                &&& *old(cursor) <= *final(cursor) <= lines@.len()
            },
            Err(e) => parse_block_spec(lines.deep_view(), *old(cursor) as int, terms_view(terminators))
                == Err::<(Seq<SkinNodeModel>, int), ParseErrorModel>(e@),
        },
    decreases lines@.len() - *old(cursor), 3nat,
{
    let ghost ls = lines.deep_view();
    let ghost ts = terms_view(terminators);
    let ghost c0 = *cursor as int;
    let mut nodes: Vec<SkinNode> = Vec::new();
    while *cursor < lines.len()
        invariant
            ls == lines.deep_view(),
            ts == terms_view(terminators),
            c0 == *old(cursor),
            c0 <= *cursor <= lines@.len(),
            parse_block_spec(ls, c0, ts) == prepend_nodes(
                nodes_model(nodes@),
                parse_block_spec(ls, *cursor as int, ts),
            ),
        decreases lines@.len() - *cursor,
    {
        let ghost cur = *cursor as int;
        let line = to_chars(lines[*cursor].as_str());
        if let Some(terms) = terminators {
            if is_terminator_chars(line.as_slice(), terms) {
                assert(nodes_model(nodes@) + Seq::<SkinNodeModel>::empty() == nodes_model(nodes@));
                return Ok(nodes);
            }
        }
        assert(!is_terminator_spec(ls[cur], ts));
        match parse_directive(lines, cursor) {
            Ok(node) => {
                let ghost before = nodes@;
                nodes.push(node);
                proof {
                    assert(nodes@.drop_last() == before);
                    assert forall|rest: Seq<SkinNodeModel>|
                        nodes_model(before) + (seq![node_model(node)] + rest) == nodes_model(nodes@)
                            + rest by {
                        assert(nodes_model(before) + (seq![node_model(node)] + rest) == nodes_model(
                            before,
                        ).push(node_model(node)) + rest);
                    }
                }
            },
            Err(e) => {
                return Err(e);
            },
        }
    }
    assert(nodes_model(nodes@) + Seq::<SkinNodeModel>::empty() == nodes_model(nodes@));
    Ok(nodes)
}

/// Parses the directive or text line at `lines[*cursor]`, together with the
/// block it opens, and moves the cursor past it.
fn parse_directive(lines: &[String], cursor: &mut usize) -> (r: Result<SkinNode, ParseError>)
    requires
        *old(cursor) < lines@.len(),
    ensures
        match r {
            Ok(node) => {
                &&& parse_line_spec(lines.deep_view(), *old(cursor) as int) == Ok::<_, ParseErrorModel>((
                    node_model(node),
                    *final(cursor) as int,
                ))
                &&& *old(cursor) < *final(cursor) <= lines@.len()
            },
            Err(e) => parse_line_spec(lines.deep_view(), *old(cursor) as int) == Err::<
                (SkinNodeModel, int),
                ParseErrorModel,
            >(e@),
        },
    decreases lines@.len() - *old(cursor), 2nat,
{
    let ghost ls = lines.deep_view();
    let ghost c0 = *cursor as int;
    let line = to_chars(lines[*cursor].as_str());
    assert(line@ == ls[c0]);
    if let Some(rest) = strip_prefix_chars(line.as_slice(), "@align:") {
        let a = if chars_eq(rest.as_slice(), "left") {
            Alignment::Left
        } else if chars_eq(rest.as_slice(), "center") {
            Alignment::Center
        } else if chars_eq(rest.as_slice(), "right") {
            Alignment::Right
        } else {
            return Err(ParseError::UnknownAlignment(from_chars(rest.as_slice())));
        };
        *cursor += 1;
        Ok(SkinNode::Align(a))
    } else if let Some(rest) = strip_prefix_chars(line.as_slice(), "@bold:") {
        *cursor += 1;
        Ok(SkinNode::Bold(chars_eq(rest.as_slice(), "on")))
    } else if let Some(rest) = strip_prefix_chars(line.as_slice(), "@size:") {
        let s = if chars_eq(rest.as_slice(), "normal") {
            SizeMode::Normal
        } else if chars_eq(rest.as_slice(), "double") || chars_eq(rest.as_slice(), "double_width")
            || chars_eq(rest.as_slice(), "double_height") {
            SizeMode::Double
        } else {
            return Err(ParseError::UnknownSize(from_chars(rest.as_slice())));
        };
        *cursor += 1;
        Ok(SkinNode::Size(s))
    } else if let Some(rest) = strip_prefix_chars(line.as_slice(), "@underline:") {
        *cursor += 1;
        Ok(SkinNode::Underline(chars_eq(rest.as_slice(), "on")))
    } else if chars_eq(line.as_slice(), "@divider") {
        *cursor += 1;
        Ok(SkinNode::Divider)
    } else if chars_eq(line.as_slice(), "@blank") {
        *cursor += 1;
        Ok(SkinNode::Blank)
    } else if let Some(rest) = strip_prefix_chars(line.as_slice(), "@image:") {
        *cursor += 1;
        Ok(SkinNode::Image(from_chars(unwrap_placeholder_chars(rest.as_slice()).as_slice())))
    } else if let Some(rest) = strip_prefix_chars(line.as_slice(), "@qr:") {
        *cursor += 1;
        Ok(SkinNode::Qr(from_chars(unwrap_placeholder_chars(rest.as_slice()).as_slice())))
    } else if let Some(rest) = strip_prefix_chars(line.as_slice(), "@row:") {
        match split_row_chars(rest.as_slice()) {
            Some((l, r)) => {
                *cursor += 1;
                Ok(SkinNode::Row { left: from_chars(l.as_slice()), right: from_chars(r.as_slice()) })
            },
            None => Err(ParseError::InvalidRow(from_chars(rest.as_slice()))),
        }
    } else if chars_eq(line.as_slice(), "@cut") {
        *cursor += 1;
        Ok(SkinNode::Cut)
    } else if let Some(rest) = strip_prefix_chars(line.as_slice(), "@if:") {
        let condition = from_chars(rest.as_slice());
        *cursor += 1;
        let if_t: Vec<&str> = vec!["@else", "@endif"];
        let if_t_s = if_t.as_slice();
        assert(if_t_s.deep_view() == if_terms());
        let then_branch = match parse_block(lines, cursor, Some(if_t_s)) {
            Ok(v) => v,
            Err(e) => return Err(e),
        };
        let ghost c1 = *cursor as int;
        let mut else_branch: Vec<SkinNode> = Vec::new();
        if line_is(lines, *cursor, "@else") {
            *cursor += 1;
            let else_t: Vec<&str> = vec!["@endif"];
            let else_t_s = else_t.as_slice();
        assert(else_t_s.deep_view() == else_terms());
            else_branch = match parse_block(lines, cursor, Some(else_t_s)) {
                Ok(v) => v,
                Err(e) => return Err(e),
            };
        }
        if !line_is(lines, *cursor, "@endif") {
            return Err(ParseError::MissingEndif(condition));
        }
        *cursor += 1;
        Ok(SkinNode::If { condition, then_branch, else_branch })
    } else if let Some(rest) = strip_prefix_chars(line.as_slice(), "@foreach:") {
        let (list, var) = match split_foreach_chars(rest.as_slice()) {
            Some((l, v)) => (from_chars(l.as_slice()), from_chars(v.as_slice())),
            None => return Err(ParseError::InvalidForeach(from_chars(rest.as_slice()))),
        };
        *cursor += 1;
        let fe_t: Vec<&str> = vec!["@endforeach"];
        let fe_t_s = fe_t.as_slice();
        assert(fe_t_s.deep_view() == foreach_terms());
        let body = match parse_block(lines, cursor, Some(fe_t_s)) {
            Ok(v) => v,
            Err(e) => return Err(e),
        };
        if !line_is(lines, *cursor, "@endforeach") {
            return Err(ParseError::MissingEndforeach(from_chars(rest.as_slice())));
        }
        *cursor += 1;
        Ok(SkinNode::Foreach { list, var, body })
    } else if let Some(rest) = strip_prefix_chars(line.as_slice(), "@match:") {
        let value = from_chars(rest.as_slice());
        *cursor += 1;
        let ghost start = *cursor as int;
        assert(parse_line_spec(ls, c0) == parse_match_spec(ls, c0, value@));
        let mut cases: Vec<(String, Vec<SkinNode>)> = Vec::new();
        loop
            invariant
                ls == lines.deep_view(),
                c0 == *old(cursor),
                c0 < start <= *cursor <= lines@.len(),
                start == c0 + 1,
                parse_line_spec(ls, c0) == parse_match_spec(ls, c0, value@),
                parse_cases_spec(ls, start) == prepend_cases(
                    cases_model(cases@),
                    parse_cases_spec(ls, *cursor as int),
                ),
            ensures
                ls == lines.deep_view(),
                c0 < start <= *cursor <= lines@.len(),
                parse_cases_spec(ls, start) == prepend_cases(
                    cases_model(cases@),
                    parse_cases_spec(ls, *cursor as int),
                ),
                parse_cases_spec(ls, *cursor as int) == Ok::<_, ParseErrorModel>(
                    (Seq::<(Seq<char>, Seq<SkinNodeModel>)>::empty(), *cursor as int),
                ),
            decreases lines@.len() - *cursor,
        {
            if *cursor >= lines.len() {
                break;
            }
            let l = to_chars(lines[*cursor].as_str());
            let case_rest = match strip_prefix_chars(l.as_slice(), "@case:") {
                Some(r) => r,
                None => break,
            };
            let case_value = from_chars(trim_chars(case_rest.as_slice()).as_slice());
            let ghost cc = *cursor as int;
            *cursor += 1;
            let case_t: Vec<&str> = vec!["@case:", "@endmatch"];
            let case_t_s = case_t.as_slice();
        assert(case_t_s.deep_view() == case_terms());
            let case_body = match parse_block(lines, cursor, Some(case_t_s)) {
                Ok(v) => v,
                Err(e) => return Err(e),
            };
            let ghost before = cases@;
            cases.push((case_value, case_body));
            proof {
                assert(cases@.drop_last() == before);
                let item = (case_value@, nodes_model(case_body@));
                assert(cases_model(cases@) == cases_model(before).push(item));
                assert forall|rest: Seq<(Seq<char>, Seq<SkinNodeModel>)>|
                    cases_model(before) + (seq![item] + rest) == cases_model(cases@) + rest by {
                    assert(cases_model(before) + (seq![item] + rest) == cases_model(before).push(item)
                        + rest);
                }
            }
        }
        proof {
            assert(cases_model(cases@) + Seq::<(Seq<char>, Seq<SkinNodeModel>)>::empty()
                == cases_model(cases@));
        }
        if !line_is(lines, *cursor, "@endmatch") {
            return Err(ParseError::MissingEndmatch(value));
        }
        *cursor += 1;
        Ok(SkinNode::Match { value, cases })
    } else {
        *cursor += 1;
        Ok(SkinNode::Text(from_chars(line.as_slice())))
    }
}

/// Parses skin source text into a tree of skin nodes.
pub fn parse(source: &str) -> (r: Result<Skin, ParseError>)
    ensures
        match r {
            Ok(nodes) => parse_spec(source@) == Ok::<_, ParseErrorModel>(nodes_model(nodes@)),
            Err(e) => parse_spec(source@) == Err::<Seq<SkinNodeModel>, _>(e@),
        },
{
    let lines = tokenize(source);
    let mut cursor: usize = 0;
    assert(terms_view(None) == Seq::<Seq<char>>::empty());
    match parse_block(lines.as_slice(), &mut cursor, None) {
        Ok(nodes) => Ok(nodes),
        Err(e) => Err(e),
    }
}


/// A block parse that succeeds stops at a terminator line or at the end,
/// never before where it started: the terminator line is left for the
/// caller. Without terminators it consumes every line.
pub proof fn lemma_parse_block_stops(lines: Seq<Seq<char>>, cursor: int, terms: Seq<Seq<char>>)
    requires
        0 <= cursor <= lines.len(),
    ensures
        parse_block_spec(lines, cursor, terms) matches Ok((_, end)) ==> {
            &&& cursor <= end <= lines.len()
            &&& end < lines.len() ==> is_terminator_spec(lines[end], terms)
            &&& terms.len() == 0 ==> end == lines.len()
        },
    decreases lines.len() - cursor, 3nat,
{
    if terms.len() == 0 && cursor < lines.len() {
        assert(!is_terminator_spec(lines[cursor], terms));
    }
    if cursor < lines.len() && !is_terminator_spec(lines[cursor], terms) {
        lemma_parse_line_advances(lines, cursor);
        if let Ok((node, next)) = parse_line_spec(lines, cursor) {
            lemma_parse_block_stops(lines, next, terms);
        }
    }
}

/// A directive or text line that parses moves the cursor forward, and not
/// past the end.
pub proof fn lemma_parse_line_advances(lines: Seq<Seq<char>>, cursor: int)
    requires
        0 <= cursor < lines.len(),
    ensures
        parse_line_spec(lines, cursor) matches Ok((_, next)) ==> cursor < next <= lines.len(),
    decreases lines.len() - cursor, 2nat,
{
    let line = lines[cursor];
    if strip_prefix(line, "@align:"@) is Some || strip_prefix(line, "@bold:"@) is Some
        || strip_prefix(line, "@size:"@) is Some || strip_prefix(line, "@underline:"@) is Some
        || line == "@divider"@ || line == "@blank"@ || strip_prefix(line, "@image:"@) is Some
        || strip_prefix(line, "@qr:"@) is Some || strip_prefix(line, "@row:"@) is Some
        || line == "@cut"@ {
    } else if let Some(rest) = strip_prefix(line, "@if:"@) {
        lemma_parse_block_stops(lines, cursor + 1, if_terms());
        if let Ok((t, c1)) = parse_block_spec(lines, cursor + 1, if_terms()) {
            if cursor < c1 && closes_with(lines, c1, "@else"@) {
                lemma_parse_block_stops(lines, c1 + 1, else_terms());
            }
        }
    } else if let Some(rest) = strip_prefix(line, "@foreach:"@) {
        lemma_parse_block_stops(lines, cursor + 1, foreach_terms());
    } else if let Some(rest) = strip_prefix(line, "@match:"@) {
        lemma_parse_cases_advances(lines, cursor + 1);
    }
}

/// A run of `@case:` blocks that parses ends at or after where it started.
pub proof fn lemma_parse_cases_advances(lines: Seq<Seq<char>>, cursor: int)
    requires
        0 <= cursor <= lines.len(),
    ensures
        parse_cases_spec(lines, cursor) matches Ok((_, end)) ==> cursor <= end <= lines.len(),
    decreases lines.len() - cursor, 0nat,
{
    if 0 <= cursor < lines.len() && starts_with(lines[cursor], "@case:"@) {
        lemma_parse_block_stops(lines, cursor + 1, case_terms());
        if let Ok((body, c1)) = parse_block_spec(lines, cursor + 1, case_terms()) {
            if cursor < c1 <= lines.len() {
                lemma_parse_cases_advances(lines, c1);
            }
        }
    }
}


/// Stripping a prefix from a text made of that prefix and a remainder leaves
/// the remainder.
proof fn lemma_strip_joined(p: Seq<char>, rest: Seq<char>)
    ensures
        strip_prefix(p + rest, p) == Some(rest),
{
    assert((p + rest).take(p.len() as int) =~= p);
    assert((p + rest).skip(p.len() as int) =~= rest);
}

/// Each alignment word names its own alignment: a line `@align:left`,
/// `@align:center` or `@align:right` is accepted as that alignment and takes
/// exactly one line. Any other word after `@align:` is refused, naming it.
pub proof fn lemma_align_words(lines: Seq<Seq<char>>, cursor: int)
    requires
        0 <= cursor < lines.len(),
    ensures
        lines[cursor] == "@align:left"@ ==> parse_line_spec(lines, cursor) == Ok::<
            (SkinNodeModel, int),
            ParseErrorModel,
        >((SkinNodeModel::Align(Alignment::Left), cursor + 1)),
        lines[cursor] == "@align:center"@ ==> parse_line_spec(lines, cursor) == Ok::<
            (SkinNodeModel, int),
            ParseErrorModel,
        >((SkinNodeModel::Align(Alignment::Center), cursor + 1)),
        lines[cursor] == "@align:right"@ ==> parse_line_spec(lines, cursor) == Ok::<
            (SkinNodeModel, int),
            ParseErrorModel,
        >((SkinNodeModel::Align(Alignment::Right), cursor + 1)),
        forall|w: Seq<char>|
            lines[cursor] == "@align:"@ + w && w != "left"@ && w != "center"@ && w != "right"@
                ==> parse_line_spec(lines, cursor) == Err::<(SkinNodeModel, int), ParseErrorModel>(
                ParseErrorModel::UnknownAlignment(w),
            ),
{
    reveal_strlit("@align:");
    reveal_strlit("@align:left");
    reveal_strlit("@align:center");
    reveal_strlit("@align:right");
    reveal_strlit("left");
    reveal_strlit("center");
    reveal_strlit("right");
    let line = lines[cursor];
    if line == "@align:left"@ {
        assert("@align:left"@ =~= "@align:"@ + "left"@);
        lemma_strip_joined("@align:"@, "left"@);
    }
    if line == "@align:center"@ {
        assert("@align:center"@ =~= "@align:"@ + "center"@);
        lemma_strip_joined("@align:"@, "center"@);
    }
    if line == "@align:right"@ {
        assert("@align:right"@ =~= "@align:"@ + "right"@);
        lemma_strip_joined("@align:"@, "right"@);
    }
    assert forall|w: Seq<char>|
        line == "@align:"@ + w && w != "left"@ && w != "center"@ && w != "right"@
            implies parse_line_spec(lines, cursor) == Err::<(SkinNodeModel, int), ParseErrorModel>(
            ParseErrorModel::UnknownAlignment(w),
        ) by {
        lemma_strip_joined("@align:"@, w);
    }
}

/// A text whose character at `i` differs from that of `p` does not start
/// with `p`.
proof fn lemma_not_prefix(s: Seq<char>, p: Seq<char>, i: int)
    requires
        0 <= i < s.len(),
        i < p.len(),
        s[i] != p[i],
    ensures
        strip_prefix(s, p) is None,
{
    if starts_with(s, p) {
        assert(s.take(p.len() as int)[i] == p[i]);
    }
}

/// The style words: `@bold:` and `@underline:` switch on exactly for `on`
/// and off for any other word; `@size:normal` gives normal size, and
/// `@size:double`, `@size:double_width` and `@size:double_height` double
/// size, any other size word being refused, naming it. Each takes one line.
pub proof fn lemma_style_words(lines: Seq<Seq<char>>, cursor: int, w: Seq<char>)
    requires
        0 <= cursor < lines.len(),
    ensures
        lines[cursor] == "@bold:"@ + w ==> parse_line_spec(lines, cursor) == Ok::<
            (SkinNodeModel, int),
            ParseErrorModel,
        >((SkinNodeModel::Bold(w == "on"@), cursor + 1)),
        lines[cursor] == "@underline:"@ + w ==> parse_line_spec(lines, cursor) == Ok::<
            (SkinNodeModel, int),
            ParseErrorModel,
        >((SkinNodeModel::Underline(w == "on"@), cursor + 1)),
        lines[cursor] == "@size:"@ + w && w == "normal"@ ==> parse_line_spec(lines, cursor) == Ok::<
            (SkinNodeModel, int),
            ParseErrorModel,
        >((SkinNodeModel::Size(SizeMode::Normal), cursor + 1)),
        lines[cursor] == "@size:"@ + w && (w == "double"@ || w == "double_width"@ || w
            == "double_height"@) ==> parse_line_spec(lines, cursor) == Ok::<
            (SkinNodeModel, int),
            ParseErrorModel,
        >((SkinNodeModel::Size(SizeMode::Double), cursor + 1)),
        lines[cursor] == "@size:"@ + w && w != "normal"@ && w != "double"@ && w != "double_width"@
            && w != "double_height"@ ==> parse_line_spec(lines, cursor) == Err::<
            (SkinNodeModel, int),
            ParseErrorModel,
        >(ParseErrorModel::UnknownSize(w)),
{
    reveal_strlit("@align:");
    reveal_strlit("@bold:");
    reveal_strlit("@size:");
    reveal_strlit("@underline:");
    let line = lines[cursor];
    if line == "@bold:"@ + w {
        lemma_not_prefix(line, "@align:"@, 1);
        lemma_strip_joined("@bold:"@, w);
    }
    if line == "@size:"@ + w {
        lemma_not_prefix(line, "@align:"@, 1);
        lemma_not_prefix(line, "@bold:"@, 1);
        lemma_strip_joined("@size:"@, w);
        reveal_strlit("normal");
        reveal_strlit("double");
        reveal_strlit("double_width");
        reveal_strlit("double_height");
        if w == "double"@ {
            assert(w[0] != "normal"@[0]);
        }
    }
    if line == "@underline:"@ + w {
        lemma_not_prefix(line, "@align:"@, 1);
        lemma_not_prefix(line, "@bold:"@, 1);
        lemma_not_prefix(line, "@size:"@, 1);
        lemma_strip_joined("@underline:"@, w);
    }
}

/// The bare layout words: `@divider`, `@blank` and `@cut` each stand for
/// their own node and take one line.
pub proof fn lemma_layout_words(lines: Seq<Seq<char>>, cursor: int)
    requires
        0 <= cursor < lines.len(),
    ensures
        lines[cursor] == "@divider"@ ==> parse_line_spec(lines, cursor) == Ok::<
            (SkinNodeModel, int),
            ParseErrorModel,
        >((SkinNodeModel::Divider, cursor + 1)),
        lines[cursor] == "@blank"@ ==> parse_line_spec(lines, cursor) == Ok::<
            (SkinNodeModel, int),
            ParseErrorModel,
        >((SkinNodeModel::Blank, cursor + 1)),
        lines[cursor] == "@cut"@ ==> parse_line_spec(lines, cursor) == Ok::<
            (SkinNodeModel, int),
            ParseErrorModel,
        >((SkinNodeModel::Cut, cursor + 1)),
{
    reveal_strlit("@align:");
    reveal_strlit("@bold:");
    reveal_strlit("@size:");
    reveal_strlit("@underline:");
    reveal_strlit("@divider");
    reveal_strlit("@blank");
    reveal_strlit("@image:");
    reveal_strlit("@qr:");
    reveal_strlit("@row:");
    reveal_strlit("@cut");
    let line = lines[cursor];
    if line == "@divider"@ {
        lemma_not_prefix(line, "@align:"@, 1);
        lemma_not_prefix(line, "@bold:"@, 1);
        lemma_not_prefix(line, "@size:"@, 1);
        lemma_not_prefix(line, "@underline:"@, 1);
    }
    if line == "@blank"@ {
        lemma_not_prefix(line, "@align:"@, 1);
        lemma_not_prefix(line, "@bold:"@, 2);
        lemma_not_prefix(line, "@size:"@, 1);
        lemma_not_prefix(line, "@underline:"@, 1);
    }
    if line == "@cut"@ {
        lemma_not_prefix(line, "@align:"@, 1);
        lemma_not_prefix(line, "@bold:"@, 1);
        lemma_not_prefix(line, "@size:"@, 1);
        lemma_not_prefix(line, "@underline:"@, 1);
        lemma_not_prefix(line, "@image:"@, 1);
        lemma_not_prefix(line, "@qr:"@, 1);
        lemma_not_prefix(line, "@row:"@, 1);
    }
}

/// Inside a block, an `@align:` line with a known word puts that alignment
/// in front of what the following lines give.
pub proof fn lemma_block_align(lines: Seq<Seq<char>>, cursor: int, terms: Seq<Seq<char>>, a: Alignment)
    requires
        0 <= cursor < lines.len(),
        !is_terminator_spec(lines[cursor], terms),
        lines[cursor] == "@align:"@ + match a {
            Alignment::Left => "left"@,
            Alignment::Center => "center"@,
            Alignment::Right => "right"@,
        },
    ensures
        parse_block_spec(lines, cursor, terms) == prepend_nodes(
            seq![SkinNodeModel::Align(a)],
            parse_block_spec(lines, cursor + 1, terms),
        ),
{
    reveal_strlit("@align:");
    reveal_strlit("@align:left");
    reveal_strlit("@align:center");
    reveal_strlit("@align:right");
    reveal_strlit("left");
    reveal_strlit("center");
    reveal_strlit("right");
    match a {
        Alignment::Left => assert(lines[cursor] =~= "@align:left"@),
        Alignment::Center => assert(lines[cursor] =~= "@align:center"@),
        Alignment::Right => assert(lines[cursor] =~= "@align:right"@),
    }
    lemma_align_words(lines, cursor);
}

/// A row argument is split at its first `|`, each side trimmed; one
/// without a `|` is no row.
pub proof fn lemma_split_row_first_bar(s: Seq<char>)
    ensures
        split_row_spec(s) is None <==> forall|k: int| 0 <= k < s.len() ==> s[k] != '|',
        split_row_spec(s) matches Some((left, right)) ==> exists|i: int|
            {
                &&& 0 <= i < s.len()
                &&& s[i] == '|'
                &&& forall|k: int| 0 <= k < i ==> s[k] != '|'
                &&& left == trim(s.take(i))
                &&& right == trim(s.skip(i + 1))
            },
{
    reveal_strlit("|");
    crate::text::lemma_find_first(s, "|"@);
    assert forall|k: int| 0 <= k < s.len() implies (s[k] == '|' <==> crate::text::occurs_at(
        s,
        "|"@,
        k,
    )) by {
        if s[k] == '|' {
            assert(s.subrange(k, k + 1) =~= "|"@);
        }
        if crate::text::occurs_at(s, "|"@, k) {
            assert(s.subrange(k, k + 1)[0] == s[k]);
        }
    }
    if let Some(i) = find(s, "|"@) {
        assert(s.subrange(i, i + 1)[0] == s[i]);
    }
}

/// The content words: `@image:<arg>` and `@qr:<arg>` carry their argument
/// unwrapped from its placeholder; `@row:<arg>` carries the two sides of its
/// argument, and is refused, naming the argument, when it has no `|`. Each
/// takes one line.
pub proof fn lemma_content_words(lines: Seq<Seq<char>>, cursor: int, arg: Seq<char>)
    requires
        0 <= cursor < lines.len(),
    ensures
        lines[cursor] == "@image:"@ + arg ==> parse_line_spec(lines, cursor) == Ok::<
            (SkinNodeModel, int),
            ParseErrorModel,
        >((SkinNodeModel::Image(unwrap_placeholder_spec(arg)), cursor + 1)),
        lines[cursor] == "@qr:"@ + arg ==> parse_line_spec(lines, cursor) == Ok::<
            (SkinNodeModel, int),
            ParseErrorModel,
        >((SkinNodeModel::Qr(unwrap_placeholder_spec(arg)), cursor + 1)),
        lines[cursor] == "@row:"@ + arg ==> match split_row_spec(arg) {
            Some((left, right)) => parse_line_spec(lines, cursor) == Ok::<
                (SkinNodeModel, int),
                ParseErrorModel,
            >((SkinNodeModel::Row { left, right }, cursor + 1)),
            None => parse_line_spec(lines, cursor) == Err::<(SkinNodeModel, int), ParseErrorModel>(
                ParseErrorModel::InvalidRow(arg),
            ),
        },
{
    reveal_strlit("@align:");
    reveal_strlit("@bold:");
    reveal_strlit("@size:");
    reveal_strlit("@underline:");
    reveal_strlit("@divider");
    reveal_strlit("@blank");
    reveal_strlit("@image:");
    reveal_strlit("@qr:");
    reveal_strlit("@row:");
    let line = lines[cursor];
    if line == "@image:"@ + arg {
        lemma_not_prefix(line, "@align:"@, 1);
        lemma_not_prefix(line, "@bold:"@, 1);
        lemma_not_prefix(line, "@size:"@, 1);
        lemma_not_prefix(line, "@underline:"@, 1);
        assert(line != "@divider"@ && line != "@blank"@) by {
            assert(line[1] == 'i');
        }
        lemma_strip_joined("@image:"@, arg);
    }
    if line == "@qr:"@ + arg {
        lemma_not_prefix(line, "@align:"@, 1);
        lemma_not_prefix(line, "@bold:"@, 1);
        lemma_not_prefix(line, "@size:"@, 1);
        lemma_not_prefix(line, "@underline:"@, 1);
        lemma_not_prefix(line, "@image:"@, 1);
        assert(line != "@divider"@ && line != "@blank"@) by {
            assert(line[1] == 'q');
        }
        lemma_strip_joined("@qr:"@, arg);
    }
    if line == "@row:"@ + arg {
        lemma_not_prefix(line, "@align:"@, 1);
        lemma_not_prefix(line, "@bold:"@, 1);
        lemma_not_prefix(line, "@size:"@, 1);
        lemma_not_prefix(line, "@underline:"@, 1);
        lemma_not_prefix(line, "@image:"@, 1);
        lemma_not_prefix(line, "@qr:"@, 1);
        assert(line != "@divider"@ && line != "@blank"@) by {
            assert(line[1] == 'r');
        }
        lemma_strip_joined("@row:"@, arg);
    }
}

/// The argument of `@image:` / `@qr:` written as one placeholder
/// `{{path}}` gives the trimmed path, white space around the braces
/// allowed; one that does not begin with `{{` is only trimmed.
pub proof fn lemma_unwrap_placeholder(before: Seq<char>, path: Seq<char>, after: Seq<char>, s: Seq<char>)
    requires
        forall|i: int| 0 <= i < before.len() ==> crate::text::is_ws(#[trigger] before[i]),
        forall|i: int| 0 <= i < after.len() ==> crate::text::is_ws(#[trigger] after[i]),
    ensures
        unwrap_placeholder_spec(before + "{{"@ + path + "}}"@ + after) == trim(path),
        !starts_with(trim(s), "{{"@) ==> unwrap_placeholder_spec(s) == trim(s),
{
    reveal_strlit("{{");
    reveal_strlit("}}");
    let core = "{{"@ + path + "}}"@;
    assert(before + core + after == before + "{{"@ + path + "}}"@ + after);
    lemma_trim_start_ws(before, core + after);
    assert(before + core + after == before + (core + after));
    lemma_trim_end_ws(core, after);
    assert(core.take(2) =~= "{{"@);
    let a = core.skip(2);
    assert(a =~= path + "}}"@);
    assert(a.skip(a.len() - 2) =~= "}}"@);
    assert(a.take(a.len() - 2) =~= path);
}

proof fn lemma_trim_start_ws(w: Seq<char>, rest: Seq<char>)
    requires
        forall|i: int| 0 <= i < w.len() ==> crate::text::is_ws(#[trigger] w[i]),
        rest.len() > 0,
        !crate::text::is_ws(rest[0]),
    ensures
        crate::text::trim_start(w + rest) == rest,
    decreases w.len(),
{
    if w.len() > 0 {
        assert((w + rest)[0] == w[0]);
        assert((w + rest).drop_first() == w.drop_first() + rest);
        lemma_trim_start_ws(w.drop_first(), rest);
    } else {
        assert(w + rest == rest);
    }
}

proof fn lemma_trim_end_ws(core: Seq<char>, w: Seq<char>)
    requires
        forall|i: int| 0 <= i < w.len() ==> crate::text::is_ws(#[trigger] w[i]),
        core.len() > 0,
        !crate::text::is_ws(core.last()),
    ensures
        crate::text::trim_end(core + w) == core,
    decreases w.len(),
{
    if w.len() > 0 {
        assert((core + w).last() == w.last());
        assert((core + w).drop_last() == core + w.drop_last());
        lemma_trim_end_ws(core, w.drop_last());
    } else {
        assert(core + w == core);
    }
}

/// A line that opens with `@` followed by `c` at index 1 is none of the
/// simple directives whose second character differs from `c`.
proof fn lemma_not_simple(line: Seq<char>)
    requires
        line.len() >= 3,
        line[0] == '@',
        line[1] == 'i' || line[1] == 'f' || line[1] == 'm',
        line[1] == 'i' ==> line[2] == 'f',
    ensures
        strip_prefix(line, "@align:"@) is None,
        strip_prefix(line, "@bold:"@) is None,
        strip_prefix(line, "@size:"@) is None,
        strip_prefix(line, "@underline:"@) is None,
        line != "@divider"@,
        line != "@blank"@,
        strip_prefix(line, "@image:"@) is None,
        strip_prefix(line, "@qr:"@) is None,
        strip_prefix(line, "@row:"@) is None,
        line != "@cut"@,
{
    reveal_strlit("@align:");
    reveal_strlit("@bold:");
    reveal_strlit("@size:");
    reveal_strlit("@underline:");
    reveal_strlit("@divider");
    reveal_strlit("@blank");
    reveal_strlit("@image:");
    reveal_strlit("@qr:");
    reveal_strlit("@row:");
    reveal_strlit("@cut");
    lemma_not_prefix(line, "@align:"@, 1);
    lemma_not_prefix(line, "@bold:"@, 1);
    lemma_not_prefix(line, "@size:"@, 1);
    lemma_not_prefix(line, "@underline:"@, 1);
    lemma_not_prefix(line, "@qr:"@, 1);
    lemma_not_prefix(line, "@row:"@, 1);
    if line[1] == 'i' {
        lemma_not_prefix(line, "@image:"@, 2);
    } else {
        lemma_not_prefix(line, "@image:"@, 1);
    }
    assert(line[1] != "@divider"@[1]);
    assert(line[1] != "@blank"@[1]);
    assert(line[1] != "@cut"@[1]);
}

/// `@if:<condition>` opens a conditional. Its then-branch is the block up to
/// the first `@else` or `@endif` at its level; after an `@else`, the
/// else-branch is the block up to `@endif`, and without one the else-branch
/// is empty. The closing `@endif` is consumed; when the lines end before it,
/// the condition is reported as unclosed. An error inside a branch is the
/// error of the whole.
pub proof fn lemma_if_block(lines: Seq<Seq<char>>, cursor: int, condition: Seq<char>)
    requires
        0 <= cursor < lines.len(),
        lines[cursor] == "@if:"@ + condition,
    ensures
        ({
            let r = parse_line_spec(lines, cursor);
            match parse_block_spec(lines, cursor + 1, if_terms()) {
                Err(err) => r == Err::<(SkinNodeModel, int), _>(err),
                Ok((t, c1)) => if c1 >= lines.len() {
                    r == Err::<(SkinNodeModel, int), _>(ParseErrorModel::MissingEndif(condition))
                } else if lines[c1] == "@endif"@ {
                    r == Ok::<_, ParseErrorModel>(
                        (SkinNodeModel::If { condition, then_branch: t, else_branch: Seq::empty() }, c1 + 1),
                    )
                } else {
                    &&& lines[c1] == "@else"@
                    &&& match parse_block_spec(lines, c1 + 1, else_terms()) {
                        Err(err) => r == Err::<(SkinNodeModel, int), _>(err),
                        Ok((e, c2)) => if c2 < lines.len() {
                            &&& lines[c2] == "@endif"@
                            &&& r == Ok::<_, ParseErrorModel>(
                                (SkinNodeModel::If { condition, then_branch: t, else_branch: e }, c2 + 1),
                            )
                        } else {
                            r == Err::<(SkinNodeModel, int), _>(ParseErrorModel::MissingEndif(condition))
                        },
                    }
                },
            }
        }),
{
    reveal_strlit("@if:");
    reveal_strlit("@else");
    reveal_strlit("@endif");
    let line = lines[cursor];
    lemma_not_simple(line);
    lemma_strip_joined("@if:"@, condition);
    lemma_parse_block_stops(lines, cursor + 1, if_terms());
    assert forall|i: int| 0 <= i < if_terms().len() implies !ends_with(#[trigger] if_terms()[i], ":"@) by {
        lemma_no_colon_end(if_terms()[i]);
    }
    assert forall|i: int| 0 <= i < else_terms().len() implies !ends_with(#[trigger] else_terms()[i], ":"@) by {
        lemma_no_colon_end(else_terms()[i]);
    }
    if let Ok((t, c1)) = parse_block_spec(lines, cursor + 1, if_terms()) {
        if c1 < lines.len() {
            lemma_terminator_of(lines[c1], if_terms());
            assert("@endif"@ != "@else"@);
            if lines[c1] == "@else"@ {
                lemma_parse_block_stops(lines, c1 + 1, else_terms());
                if let Ok((e, c2)) = parse_block_spec(lines, c1 + 1, else_terms()) {
                    if c2 < lines.len() {
                        lemma_terminator_of(lines[c2], else_terms());
                    }
                }
            }
        }
    }
}

/// A text whose last character is not `:` does not end with `:`.
proof fn lemma_no_colon_end(t: Seq<char>)
    requires
        t.len() > 0,
        t.last() != ':',
    ensures
        !ends_with(t, ":"@),
{
    reveal_strlit(":");
    if ends_with(t, ":"@) {
        assert(t.skip(t.len() - 1)[0] == t.last());
    }
}

/// A line that ends a block whose terminators all lack a trailing `:` is one
/// of them.
proof fn lemma_terminator_of(line: Seq<char>, terms: Seq<Seq<char>>)
    requires
        is_terminator_spec(line, terms),
        forall|i: int| 0 <= i < terms.len() ==> !ends_with(#[trigger] terms[i], ":"@),
    ensures
        exists|i: int| 0 <= i < terms.len() && line == terms[i],
{
    let i = choose|i: int|
        0 <= i < terms.len() && if ends_with(#[trigger] terms[i], ":"@) {
            starts_with(line, terms[i])
        } else {
            line == terms[i]
        };
    assert(line == terms[i]);
}

/// `@foreach:<arg>` opens a loop: an argument that is not `<list> as <var>`
/// is refused, naming it; otherwise the body is the block up to the first
/// `@endforeach` at its level, which is consumed, and when the lines end
/// before it the argument is reported as unclosed.
pub proof fn lemma_foreach_block(lines: Seq<Seq<char>>, cursor: int, arg: Seq<char>)
    requires
        0 <= cursor < lines.len(),
        lines[cursor] == "@foreach:"@ + arg,
    ensures
        ({
            let r = parse_line_spec(lines, cursor);
            match split_foreach_spec(arg) {
                None => r == Err::<(SkinNodeModel, int), _>(ParseErrorModel::InvalidForeach(arg)),
                Some((list, var)) => match parse_block_spec(lines, cursor + 1, foreach_terms()) {
                    Err(err) => r == Err::<(SkinNodeModel, int), _>(err),
                    Ok((body, c1)) => if c1 < lines.len() {
                        &&& lines[c1] == "@endforeach"@
                        &&& r == Ok::<_, ParseErrorModel>((SkinNodeModel::Foreach { list, var, body }, c1 + 1))
                    } else {
                        r == Err::<(SkinNodeModel, int), _>(ParseErrorModel::MissingEndforeach(arg))
                    },
                },
            }
        }),
{
    reveal_strlit("@foreach:");
    reveal_strlit("@endforeach");
    reveal_strlit("@if:");
    let line = lines[cursor];
    lemma_not_simple(line);
    lemma_not_prefix(line, "@if:"@, 1);
    lemma_strip_joined("@foreach:"@, arg);
    lemma_parse_block_stops(lines, cursor + 1, foreach_terms());
    assert forall|i: int| 0 <= i < foreach_terms().len() implies !ends_with(#[trigger] foreach_terms()[i], ":"@) by {
        lemma_no_colon_end(foreach_terms()[i]);
    }
    if let Ok((body, c1)) = parse_block_spec(lines, cursor + 1, foreach_terms()) {
        if c1 < lines.len() {
            lemma_terminator_of(lines[c1], foreach_terms());
        }
    }
}

/// `@match:<value>` opens a match: the cases are the run of `@case:` blocks
/// that follows, and it must be closed by `@endmatch`, which is consumed;
/// otherwise the value is reported as unclosed.
pub proof fn lemma_match_block(lines: Seq<Seq<char>>, cursor: int, value: Seq<char>)
    requires
        0 <= cursor < lines.len(),
        lines[cursor] == "@match:"@ + value,
    ensures
        ({
            let r = parse_line_spec(lines, cursor);
            match parse_cases_spec(lines, cursor + 1) {
                Err(err) => r == Err::<(SkinNodeModel, int), _>(err),
                Ok((cases, c1)) => if c1 < lines.len() && lines[c1] == "@endmatch"@ {
                    r == Ok::<_, ParseErrorModel>((SkinNodeModel::Match { value, cases }, c1 + 1))
                } else {
                    r == Err::<(SkinNodeModel, int), _>(ParseErrorModel::MissingEndmatch(value))
                },
            }
        }),
{
    reveal_strlit("@match:");
    reveal_strlit("@if:");
    reveal_strlit("@foreach:");
    let line = lines[cursor];
    lemma_not_simple(line);
    lemma_not_prefix(line, "@if:"@, 1);
    lemma_not_prefix(line, "@foreach:"@, 1);
    lemma_strip_joined("@match:"@, value);
    lemma_parse_cases_advances(lines, cursor + 1);
}

/// Each `@case:<value>` line opens a case named by its trimmed value, whose
/// body is the block up to the next `@case:` or `@endmatch`; the run of
/// cases ends at the first line that is not a `@case:`.
pub proof fn lemma_case_value(lines: Seq<Seq<char>>, cursor: int, v: Seq<char>)
    requires
        0 <= cursor < lines.len(),
        lines[cursor] == "@case:"@ + v,
    ensures
        parse_cases_spec(lines, cursor) matches Ok((cases, _)) ==> cases.len() > 0 && cases[0].0 == trim(v),
        forall|c: int| 0 <= c <= lines.len() && !(c < lines.len() && starts_with(lines[c], "@case:"@))
            ==> parse_cases_spec(lines, c) == Ok::<_, ParseErrorModel>((Seq::<(Seq<char>, Seq<SkinNodeModel>)>::empty(), c)),
{
    reveal_strlit("@case:");
    lemma_strip_joined("@case:"@, v);
}

/// A line that does not begin with `@` is printed text, kept as it is.
pub proof fn lemma_plain_text(lines: Seq<Seq<char>>, cursor: int)
    requires
        0 <= cursor < lines.len(),
        lines[cursor].len() == 0 || lines[cursor][0] != '@',
    ensures
        parse_line_spec(lines, cursor) == Ok::<_, ParseErrorModel>(
            (SkinNodeModel::Text(lines[cursor]), cursor + 1),
        ),
{
    reveal_strlit("@align:");
    reveal_strlit("@bold:");
    reveal_strlit("@size:");
    reveal_strlit("@underline:");
    reveal_strlit("@divider");
    reveal_strlit("@blank");
    reveal_strlit("@image:");
    reveal_strlit("@qr:");
    reveal_strlit("@row:");
    reveal_strlit("@cut");
    reveal_strlit("@if:");
    reveal_strlit("@foreach:");
    reveal_strlit("@match:");
    let line = lines[cursor];
    if line.len() > 0 {
        lemma_not_prefix(line, "@align:"@, 0);
        lemma_not_prefix(line, "@bold:"@, 0);
        lemma_not_prefix(line, "@size:"@, 0);
        lemma_not_prefix(line, "@underline:"@, 0);
        lemma_not_prefix(line, "@image:"@, 0);
        lemma_not_prefix(line, "@qr:"@, 0);
        lemma_not_prefix(line, "@row:"@, 0);
        lemma_not_prefix(line, "@if:"@, 0);
        lemma_not_prefix(line, "@foreach:"@, 0);
        lemma_not_prefix(line, "@match:"@, 0);
        assert(line[0] != "@divider"@[0]);
        assert(line[0] != "@blank"@[0]);
        assert(line[0] != "@cut"@[0]);
    }
}

/// A `@foreach:` argument is split at its one ` as `: both sides trimmed,
/// and refused when ` as ` does not occur, or occurs again after the first.
pub proof fn lemma_split_foreach_one_as(s: Seq<char>)
    ensures
        (forall|j: int| !crate::text::occurs_at(s, " as "@, j)) ==> split_foreach_spec(s) is None,
        forall|i: int|
            crate::text::occurs_at(s, " as "@, i) && (forall|j: int|
                0 <= j < i ==> !crate::text::occurs_at(s, " as "@, j)) ==> split_foreach_spec(s) == if (
            forall|j: int| i + 4 <= j ==> !crate::text::occurs_at(s, " as "@, j)) {
                Some((trim(s.take(i)), trim(s.skip(i + 4))))
            } else {
                None::<(Seq<char>, Seq<char>)>
            },
{
    reveal_strlit(" as ");
    let pat = " as "@;
    crate::text::lemma_find_first(s, pat);
    assert forall|i: int|
        crate::text::occurs_at(s, pat, i) && (forall|j: int|
            0 <= j < i ==> !crate::text::occurs_at(s, pat, j)) implies split_foreach_spec(s) == if (
    forall|j: int| i + 4 <= j ==> !crate::text::occurs_at(s, pat, j)) {
        Some((trim(s.take(i)), trim(s.skip(i + 4))))
    } else {
        None::<(Seq<char>, Seq<char>)>
    } by {
        crate::text::lemma_find_at(s, pat, i);
        let rest = s.skip(i + 4);
        crate::text::lemma_find_first(rest, pat);
        assert forall|j: int| 0 <= j implies (crate::text::occurs_at(rest, pat, j)
            <==> crate::text::occurs_at(s, pat, i + 4 + j)) by {
            if j + 4 <= rest.len() {
                assert(rest.subrange(j, j + 4) =~= s.subrange(i + 4 + j, i + 4 + j + 4));
            }
        }
        if !(forall|j: int| i + 4 <= j ==> !crate::text::occurs_at(s, pat, j)) {
            let k = choose|k: int| i + 4 <= k && crate::text::occurs_at(s, pat, k);
            assert(crate::text::occurs_at(rest, pat, k - i - 4));
        } else {
            assert forall|j: int| !crate::text::occurs_at(rest, pat, j) by {
                if j >= 0 {
                    assert(!crate::text::occurs_at(s, pat, i + 4 + j));
                }
            }
        }
    }
}

} // verus!

//! Line splitting of skin source text.
use vstd::prelude::*;
use crate::text::{from_chars, pieces_view, split_chars, split_on, to_chars, trim, trim_chars, trim_start, trim_end};

verus! {

/// The lines of `s`: the pieces between `'\n'` characters.
pub open spec fn split_lines(s: Seq<char>) -> Seq<Seq<char>> {
    split_on(s, '\n')
}

/// A trimmed line is kept when it is not empty and is not a `#` comment.
pub open spec fn is_significant(line: Seq<char>) -> bool {
    line.len() > 0 && line[0] != '#'
}

/// The trimmed lines of `lines` that are significant, in order.
pub open spec fn significant_lines(lines: Seq<Seq<char>>) -> Seq<Seq<char>>
    decreases lines.len(),
{
    if lines.len() == 0 {
        Seq::empty()
    } else {
        let rest = significant_lines(lines.drop_last());
        let t = trim(lines.last());
        if is_significant(t) {
            rest.push(t)
        } else {
            rest
        }
    }
}

/// The result of tokenizing skin source `s`.
pub open spec fn tokenize_spec(s: Seq<char>) -> Seq<Seq<char>> {
    significant_lines(split_lines(s))
}

/// Splits skin source into significant lines: trims whitespace,
/// drops blank lines and comment lines (starting with '#').
pub fn tokenize(source: &str) -> (lines: Vec<String>)
    ensures
        lines.deep_view() == tokenize_spec(source@),
{
    let chars = to_chars(source);
    let pieces = split_chars(chars.as_slice(), '\n');
    let ghost all = split_lines(source@);
    let mut out: Vec<String> = Vec::new();
    let mut i: usize = 0;
    assert(all.take(0) == Seq::<Seq<char>>::empty());
    while i < pieces.len()
        invariant
            pieces_view(pieces@) == all,
            i <= pieces@.len(),
            out.deep_view() == significant_lines(all.take(i as int)),
        decreases pieces@.len() - i,
    {
        let t = trim_chars(pieces[i].as_slice());
        assert(all.take(i + 1).drop_last() == all.take(i as int));
        assert(all.take(i + 1).last() == pieces@[i as int]@);
        if t.len() > 0 && t[0] != '#' {
            let ghost before = out.deep_view();
            out.push(from_chars(t.as_slice()));
            assert(out.deep_view() == before.push(t@));
        }
        i += 1;
    }
    assert(all.take(all.len() as int) == all);
    out
}

proof fn lemma_significant_lines(lines: Seq<Seq<char>>)
    ensures
        forall|i: int|
            0 <= i < significant_lines(lines).len() ==> {
                let l = #[trigger] significant_lines(lines)[i];
                &&& is_significant(l)
                &&& trim(l) == l
            },
    decreases lines.len(),
{
    if lines.len() > 0 {
        lemma_significant_lines(lines.drop_last());
        crate::text::lemma_trim_idempotent(lines.last());
        let rest = significant_lines(lines.drop_last());
        let all = significant_lines(lines);
        assert forall|i: int| 0 <= i < all.len() implies {
            let l = #[trigger] all[i];
            &&& is_significant(l)
            &&& trim(l) == l
        } by {
            if i < rest.len() {
                assert(all[i] == rest[i]);
            }
        }
    }
}

/// Every line that tokenizing gives is trimmed, not empty, and not a
/// `#` comment: blank lines and comments never reach the parser.
pub proof fn lemma_tokenize_significant(source: Seq<char>)
    ensures
        forall|i: int|
            0 <= i < tokenize_spec(source).len() ==> {
                let l = #[trigger] tokenize_spec(source)[i];
                &&& l.len() > 0
                &&& l[0] != '#'
                &&& trim(l) == l
            },
{
    lemma_significant_lines(split_lines(source));
}


proof fn lemma_significant_lines_concat(x: Seq<Seq<char>>, y: Seq<Seq<char>>)
    ensures
        significant_lines(x + y) == significant_lines(x) + significant_lines(y),
    decreases y.len(),
{
    if y.len() == 0 {
        assert(x + y == x);
        assert(significant_lines(x) + Seq::<Seq<char>>::empty() == significant_lines(x));
    } else {
        assert((x + y).drop_last() == x + y.drop_last());
        assert((x + y).last() == y.last());
        lemma_significant_lines_concat(x, y.drop_last());
        let t = trim(y.last());
        if is_significant(t) {
            assert((significant_lines(x) + significant_lines(y.drop_last())).push(t)
                == significant_lines(x) + significant_lines(y.drop_last()).push(t));
        }
    }
}

/// Tokenizing two texts joined by a line feed gives the lines of the first
/// followed by the lines of the second.
pub proof fn lemma_tokenize_concat(a: Seq<char>, b: Seq<char>)
    ensures
        tokenize_spec(a + seq!['\n'] + b) == tokenize_spec(a) + tokenize_spec(b),
{
    crate::text::lemma_split_on_concat(a, b, '\n');
    lemma_significant_lines_concat(split_lines(a), split_lines(b));
}

/// The text of `lines` joined with line feeds.
pub open spec fn join_lines(lines: Seq<Seq<char>>) -> Seq<char>
    decreases lines.len(),
{
    if lines.len() == 0 {
        Seq::empty()
    } else if lines.len() == 1 {
        lines[0]
    } else {
        join_lines(lines.drop_last()) + seq!['\n'] + lines.last()
    }
}

/// A line as tokenizing gives it: not empty, not a comment, trimmed, and
/// without a line feed.
pub open spec fn is_token_line(l: Seq<char>) -> bool {
    &&& is_significant(l)
    &&& trim(l) == l
    &&& forall|j: int| 0 <= j < l.len() ==> l[j] != '\n'
}

proof fn lemma_tokenize_single(l: Seq<char>)
    requires
        is_token_line(l),
    ensures
        tokenize_spec(l) == seq![l],
{
    crate::text::lemma_split_on_no_sep(l, '\n');
    assert(seq![l].drop_last() == Seq::<Seq<char>>::empty());
    assert(significant_lines(Seq::<Seq<char>>::empty()) == Seq::<Seq<char>>::empty());
}

/// Tokenizing lines of token form joined by line feeds gives them back.
pub proof fn lemma_tokenize_join(lines: Seq<Seq<char>>)
    requires
        forall|i: int| 0 <= i < lines.len() ==> is_token_line(#[trigger] lines[i]),
    ensures
        tokenize_spec(join_lines(lines)) == lines,
    decreases lines.len(),
{
    if lines.len() == 0 {
        let e = Seq::<char>::empty();
        assert(split_on(e, '\n') == seq![e]);
        assert(seq![e].drop_last() == Seq::<Seq<char>>::empty());
        assert(trim_start(e) == e);
        assert(trim_end(e) == e);
        assert(trim(e) == e);
        assert(split_lines(e) == seq![e]);
        assert(!is_significant(trim(seq![e].last())));
        assert(significant_lines(seq![e]) == significant_lines(seq![e].drop_last()));
        assert(tokenize_spec(e) == Seq::<Seq<char>>::empty());
        assert(lines == Seq::<Seq<char>>::empty());
    } else if lines.len() == 1 {
        lemma_tokenize_single(lines[0]);
        assert(lines == seq![lines[0]]);
    } else {
        let init = lines.drop_last();
        assert forall|i: int| 0 <= i < init.len() implies is_token_line(#[trigger] init[i]) by {
            assert(init[i] == lines[i]);
        }
        lemma_tokenize_join(init);
        assert(is_token_line(lines[lines.len() - 1]));
        lemma_tokenize_single(lines.last());
        lemma_tokenize_concat(join_lines(init), lines.last());
        assert(init + seq![lines.last()] == lines);
    }
}

/// Tokenizing is a fixed point on its own output: joining the lines it gives
/// with line feeds and tokenizing again gives the same lines.
pub proof fn lemma_tokenize_idempotent(source: Seq<char>)
    ensures
        tokenize_spec(join_lines(tokenize_spec(source))) == tokenize_spec(source),
{
    let lines = tokenize_spec(source);
    lemma_tokenize_significant(source);
    crate::text::lemma_split_on_pieces_free(source, '\n');
    lemma_token_lines_free(split_lines(source));
    assert forall|i: int| 0 <= i < lines.len() implies is_token_line(#[trigger] lines[i]) by {
        let l = lines[i];
        assert(l.len() > 0 && l[0] != '#' && trim(l) == l);
    }
    lemma_tokenize_join(lines);
}

proof fn lemma_token_lines_free(pieces: Seq<Seq<char>>)
    requires
        forall|i: int, j: int| 0 <= i < pieces.len() && 0 <= j < pieces[i].len() ==> pieces[i][j] != '\n',
    ensures
        forall|i: int, j: int|
            0 <= i < significant_lines(pieces).len() && 0 <= j < significant_lines(pieces)[i].len()
                ==> significant_lines(pieces)[i][j] != '\n',
    decreases pieces.len(),
{
    if pieces.len() > 0 {
        let init = pieces.drop_last();
        assert forall|i: int, j: int| 0 <= i < init.len() && 0 <= j < init[i].len() implies init[i][j] != '\n' by {
            assert(init[i] == pieces[i]);
        }
        lemma_token_lines_free(init);
        let l = pieces.last();
        assert forall|j: int| 0 <= j < l.len() implies l[j] != '\n' by {
            assert(l == pieces[pieces.len() - 1]);
        }
        crate::text::lemma_trim_free_of(l, '\n');
        let rest = significant_lines(init);
        let all = significant_lines(pieces);
        assert forall|i: int, j: int| 0 <= i < all.len() && 0 <= j < all[i].len() implies all[i][j] != '\n' by {
            if i < rest.len() {
                assert(all[i] == rest[i]);
            }
        }
    }
}

/// A single line (no line feed) gives its trimmed text when that is neither
/// empty nor a `#` comment, and nothing otherwise.
pub proof fn lemma_tokenize_line(s: Seq<char>)
    requires
        forall|i: int| 0 <= i < s.len() ==> s[i] != '\n',
    ensures
        tokenize_spec(s) == if trim(s).len() > 0 && trim(s)[0] != '#' {
            seq![trim(s)]
        } else {
            Seq::<Seq<char>>::empty()
        },
{
    crate::text::lemma_split_on_no_sep(s, '\n');
    let lines = split_lines(s);
    assert(lines.len() == 1);
    assert(lines.last() == s);
    assert(lines.drop_last() == Seq::<Seq<char>>::empty());
    assert(significant_lines(Seq::<Seq<char>>::empty()) == Seq::<Seq<char>>::empty());
    assert(Seq::<Seq<char>>::empty().push(trim(s)) == seq![trim(s)]);
}

} // verus!

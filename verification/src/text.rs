//! Character-level text primitives shared by the skin parser, the document
//! builder and the ESC/POS renderer.
use vstd::prelude::*;

verus! {

/// `String::push`: appends one character.
#[verifier::external_body]
fn push_char(s: &mut String, c: char)
    ensures
        final(s)@ == old(s)@.push(c),
{
    s.push(c);
}

/// The characters of a string slice, in order.
pub fn to_chars(s: &str) -> (v: Vec<char>)
    ensures
        v@ == s@,
{
    let mut v: Vec<char> = Vec::new();
    for c in it: s.chars()
        invariant
            v@ == it.seq().take(it.index() as int),
    {
        v.push(c);
    }
    v
}

/// A string made of the given characters.
pub fn from_chars(v: &[char]) -> (s: String)
    ensures
        s@ == v@,
{
    let mut s = String::new();
    let mut i: usize = 0;
    while i < v.len()
        invariant
            i <= v@.len(),
            s@ == v@.take(i as int),
        decreases v@.len() - i,
    {
        push_char(&mut s, v[i]);
        i += 1;
        assert(v@.take(i as int) == v@.take(i - 1).push(v@[i - 1]));
    }
    assert(v@.take(v@.len() as int) == v@);
    s
}


/// Unicode `White_Space`: the characters that `char::is_whitespace` accepts.
pub open spec fn is_ws(c: char) -> bool {
    ||| ('\u{9}' <= c && c <= '\u{d}')
    ||| c == ' '
    ||| c == '\u{85}'
    ||| c == '\u{a0}'
    ||| c == '\u{1680}'
    ||| ('\u{2000}' <= c && c <= '\u{200a}')
    ||| c == '\u{2028}'
    ||| c == '\u{2029}'
    ||| c == '\u{202f}'
    ||| c == '\u{205f}'
    ||| c == '\u{3000}'
}

/// Whether `c` is Unicode white space.
pub fn is_whitespace(c: char) -> (b: bool)
    ensures
        b == is_ws(c),
{
    ('\u{9}' <= c && c <= '\u{d}') || c == ' ' || c == '\u{85}' || c == '\u{a0}' || c == '\u{1680}'
        || ('\u{2000}' <= c && c <= '\u{200a}') || c == '\u{2028}' || c == '\u{2029}'
        || c == '\u{202f}' || c == '\u{205f}' || c == '\u{3000}'
}

/// `s` without its leading white space.
pub open spec fn trim_start(s: Seq<char>) -> Seq<char>
    decreases s.len(),
{
    if s.len() > 0 && is_ws(s[0]) {
        trim_start(s.drop_first())
    } else {
        s
    }
}

/// `s` without its trailing white space.
pub open spec fn trim_end(s: Seq<char>) -> Seq<char>
    decreases s.len(),
{
    if s.len() > 0 && is_ws(s.last()) {
        trim_end(s.drop_last())
    } else {
        s
    }
}

/// `s` without leading and trailing white space (as `str::trim`).
pub open spec fn trim(s: Seq<char>) -> Seq<char> {
    trim_end(trim_start(s))
}

/// The characters of `s` between its leading and its trailing white space.
pub fn trim_chars(s: &[char]) -> (r: Vec<char>)
    ensures
        r@ == trim(s@),
{
    let n = s.len();
    let mut i: usize = 0;
    assert(s@.skip(0) == s@);
    while i < n && is_whitespace(s[i])
        invariant
            i <= n == s@.len(),
            trim_start(s@) == trim_start(s@.skip(i as int)),
        decreases n - i,
    {
        assert(s@.skip(i as int).drop_first() == s@.skip(i + 1));
        i += 1;
    }
    assert(trim_start(s@) == s@.skip(i as int));
    let mut j: usize = n;
    while j > i && is_whitespace(s[j - 1])
        invariant
            i <= j <= n == s@.len(),
            trim(s@) == trim_end(s@.subrange(i as int, j as int)),
        decreases j,
    {
        assert(s@.subrange(i as int, j as int).drop_last() == s@.subrange(i as int, j - 1));
        j -= 1;
    }
    let mut r: Vec<char> = Vec::new();
    let mut k: usize = i;
    while k < j
        invariant
            i <= k <= j <= n == s@.len(),
            r@ == s@.subrange(i as int, k as int),
        decreases j - k,
    {
        r.push(s[k]);
        k += 1;
    }
    r
}

/// `p` is a prefix of `s`.
pub open spec fn starts_with(s: Seq<char>, p: Seq<char>) -> bool {
    p.len() <= s.len() && s.take(p.len() as int) == p
}

/// `p` is a suffix of `s`.
pub open spec fn ends_with(s: Seq<char>, p: Seq<char>) -> bool {
    p.len() <= s.len() && s.skip(s.len() - p.len()) == p
}

/// What follows the prefix `p` in `s` (as `str::strip_prefix`).
pub open spec fn strip_prefix(s: Seq<char>, p: Seq<char>) -> Option<Seq<char>> {
    if starts_with(s, p) {
        Some(s.skip(p.len() as int))
    } else {
        None
    }
}

/// What precedes the suffix `p` in `s` (as `str::strip_suffix`).
pub open spec fn strip_suffix(s: Seq<char>, p: Seq<char>) -> Option<Seq<char>> {
    if ends_with(s, p) {
        Some(s.take(s.len() - p.len()))
    } else {
        None
    }
}

/// Whether `s` begins with the characters of `p`.
pub fn has_prefix(s: &[char], p: &str) -> (b: bool)
    ensures
        b == starts_with(s@, p@),
{
    let pc = to_chars(p);
    if pc.len() > s.len() {
        return false;
    }
    let mut i: usize = 0;
    while i < pc.len()
        invariant
            pc@ == p@,
            pc@.len() <= s@.len(),
            i <= pc@.len(),
            s@.take(i as int) == pc@.take(i as int),
        decreases pc@.len() - i,
    {
        if s[i] != pc[i] {
            assert(s@.take(pc@.len() as int)[i as int] != pc@[i as int]);
            return false;
        }
        i += 1;
        assert(s@.take(i as int) == s@.take(i - 1).push(s@[i - 1]));
        assert(pc@.take(i as int) == pc@.take(i - 1).push(pc@[i - 1]));
    }
    assert(pc@.take(pc@.len() as int) == pc@);
    true
}

/// Whether `s` ends with the characters of `p`.
pub fn has_suffix(s: &[char], p: &str) -> (b: bool)
    ensures
        b == ends_with(s@, p@),
{
    let pc = to_chars(p);
    if pc.len() > s.len() {
        return false;
    }
    let off = s.len() - pc.len();
    let mut i: usize = 0;
    while i < pc.len()
        invariant
            pc@ == p@,
            off + pc@.len() == s@.len(),
            s@.len() == s.len(),
            i <= pc@.len(),
            forall|k: int| 0 <= k < i ==> s@[off + k] == pc@[k],
        decreases pc@.len() - i,
    {
        if s[off + i] != pc[i] {
            assert(s@.skip(off as int)[i as int] != pc@[i as int]);
            return false;
        }
        i += 1;
    }
    assert(s@.skip(off as int) == pc@);
    true
}

/// Whether the characters of `s` are exactly those of `p`.
pub fn chars_eq(s: &[char], p: &str) -> (b: bool)
    ensures
        b == (s@ == p@),
{
    let pc = to_chars(p);
    if pc.len() != s.len() {
        return false;
    }
    let mut i: usize = 0;
    while i < pc.len()
        invariant
            pc@ == p@,
            pc@.len() == s@.len(),
            i <= pc@.len(),
            forall|k: int| 0 <= k < i ==> s@[k] == pc@[k],
        decreases pc@.len() - i,
    {
        if s[i] != pc[i] {
            return false;
        }
        i += 1;
    }
    assert(s@ == pc@);
    true
}

/// The characters `s[from..to]`.
pub fn slice_chars(s: &[char], from: usize, to: usize) -> (r: Vec<char>)
    requires
        from <= to <= s@.len(),
    ensures
        r@ == s@.subrange(from as int, to as int),
{
    let mut r: Vec<char> = Vec::new();
    let mut k: usize = from;
    while k < to
        invariant
            from <= k <= to <= s@.len(),
            r@ == s@.subrange(from as int, k as int),
        decreases to - k,
    {
        r.push(s[k]);
        k += 1;
    }
    r
}

/// `pat` occurs in `s` at position `i`.
pub open spec fn occurs_at(s: Seq<char>, pat: Seq<char>, i: int) -> bool {
    0 <= i && i + pat.len() <= s.len() && s.subrange(i, i + pat.len()) == pat
}

/// The first position at or after `from` where `pat` occurs in `s`.
pub open spec fn find_from(s: Seq<char>, pat: Seq<char>, from: int) -> Option<int>
    decreases s.len() + 1 - from,
{
    if from < 0 || from + pat.len() > s.len() {
        None
    } else if occurs_at(s, pat, from) {
        Some(from)
    } else {
        find_from(s, pat, from + 1)
    }
}

/// The first position where `pat` occurs in `s` (as `str::find`).
pub open spec fn find(s: Seq<char>, pat: Seq<char>) -> Option<int> {
    find_from(s, pat, 0)
}

/// The first position where the characters of `pat` occur in `s`.
pub fn find_chars(s: &[char], pat: &str) -> (r: Option<usize>)
    ensures
        r matches Some(i) ==> find(s@, pat@) == Some(i as int),
        r is None ==> find(s@, pat@) is None,
{
    let pc = to_chars(pat);
    if pc.len() > s.len() {
        return None;
    }
    let last = s.len() - pc.len();
    let mut i: usize = 0;
    while i <= last
        invariant
            pc@ == pat@,
            s@.len() == s.len(),
            last + pc@.len() == s@.len(),
            find(s@, pat@) == find_from(s@, pat@, i as int),
        decreases last + 1 - i,
    {
        let mut j: usize = 0;
        let mut ok = true;
        while ok && j < pc.len()
            invariant
                pc@ == pat@,
                last + pc@.len() == s@.len(),
                s@.len() == s.len(),
                i <= last,
                j <= pc@.len(),
                ok ==> forall|k: int| 0 <= k < j ==> s@[i + k] == pc@[k],
                !ok ==> !occurs_at(s@, pat@, i as int),
            decreases pc@.len() - j + (if ok { 1int } else { 0int }),
        {
            if s[i + j] != pc[j] {
                assert(s@.subrange(i as int, i + pc@.len())[j as int] != pc@[j as int]);
                ok = false;
            } else {
                j += 1;
            }
        }
        if ok {
            assert(s@.subrange(i as int, i + pc@.len()) == pc@);
            return Some(i);
        }
        if i == last {
            assert(find_from(s@, pat@, i + 1) is None);
            return None;
        }
        i += 1;
    }
    None
}


/// What follows the characters of `p` at the start of `s`, if `s` starts with them.
pub fn strip_prefix_chars(s: &[char], p: &str) -> (r: Option<Vec<char>>)
    ensures
        match r {
            Some(v) => strip_prefix(s@, p@) == Some(v@),
            None => strip_prefix(s@, p@) is None,
        },
{
    if has_prefix(s, p) {
        let n = to_chars(p).len();
        Some(slice_chars(s, n, s.len()))
    } else {
        None
    }
}

/// What precedes the characters of `p` at the end of `s`, if `s` ends with them.
pub fn strip_suffix_chars(s: &[char], p: &str) -> (r: Option<Vec<char>>)
    ensures
        match r {
            Some(v) => strip_suffix(s@, p@) == Some(v@),
            None => strip_suffix(s@, p@) is None,
        },
{
    if has_suffix(s, p) {
        let n = to_chars(p).len();
        Some(slice_chars(s, 0, s.len() - n))
    } else {
        None
    }
}

/// Appends the characters of `src` to `dst`.
pub fn append_chars(dst: &mut Vec<char>, src: &[char])
    ensures
        final(dst)@ == old(dst)@ + src@,
{
    let mut i: usize = 0;
    while i < src.len()
        invariant
            i <= src@.len(),
            dst@ == old(dst)@ + src@.take(i as int),
        decreases src@.len() - i,
    {
        dst.push(src[i]);
        i += 1;
        assert(src@.take(i as int) == src@.take(i - 1).push(src@[i - 1]));
    }
    assert(src@.take(src@.len() as int) == src@);
}

/// Appends the characters of `src` to `dst`.
pub fn append_str(dst: &mut Vec<char>, src: &str)
    ensures
        final(dst)@ == old(dst)@ + src@,
{
    let c = to_chars(src);
    append_chars(dst, c.as_slice());
}


/// A position returned by `find` leaves room for the pattern.
pub proof fn lemma_find_bounds(s: Seq<char>, pat: Seq<char>)
    ensures
        find(s, pat) matches Some(i) ==> occurs_at(s, pat, i),
{
    lemma_find_from_bounds(s, pat, 0);
}

proof fn lemma_find_from_bounds(s: Seq<char>, pat: Seq<char>, from: int)
    ensures
        find_from(s, pat, from) matches Some(i) ==> occurs_at(s, pat, i) && from <= i,
    decreases s.len() + 1 - from,
{
    if from >= 0 && from + pat.len() <= s.len() && !occurs_at(s, pat, from) {
        lemma_find_from_bounds(s, pat, from + 1);
    }
}


/// Whether two character slices are equal.
pub fn same_chars(a: &[char], b: &[char]) -> (r: bool)
    ensures
        r == (a@ == b@),
{
    if a.len() != b.len() {
        return false;
    }
    let mut i: usize = 0;
    while i < a.len()
        invariant
            a@.len() == b@.len(),
            i <= a@.len(),
            forall|k: int| 0 <= k < i ==> a@[k] == b@[k],
        decreases a@.len() - i,
    {
        if a[i] != b[i] {
            return false;
        }
        i += 1;
    }
    assert(a@ == b@);
    true
}


/// The pieces of `s` between occurrences of `sep` (as `str::split` with a
/// character pattern): always at least one piece.
pub open spec fn split_on(s: Seq<char>, sep: char) -> Seq<Seq<char>>
    decreases s.len(),
{
    if s.len() == 0 {
        seq![Seq::<char>::empty()]
    } else {
        let prev = split_on(s.drop_last(), sep);
        if s.last() == sep {
            prev.push(Seq::empty())
        } else {
            prev.update(prev.len() - 1, prev.last().push(s.last()))
        }
    }
}

/// `split_on` always gives at least one piece.
pub proof fn lemma_split_on_nonempty(s: Seq<char>, sep: char)
    ensures
        split_on(s, sep).len() >= 1,
    decreases s.len(),
{
    if s.len() > 0 {
        lemma_split_on_nonempty(s.drop_last(), sep);
    }
}

/// The character sequences held by a list of character vectors.
pub open spec fn pieces_view(v: Seq<Vec<char>>) -> Seq<Seq<char>> {
    v.map_values(|x: Vec<char>| x@)
}

/// The pieces of `s` between occurrences of `sep`.
pub fn split_chars(s: &[char], sep: char) -> (parts: Vec<Vec<char>>)
    ensures
        pieces_view(parts@) == split_on(s@, sep),
{
    let n = s.len();
    let mut out: Vec<Vec<char>> = Vec::new();
    let mut cur: Vec<char> = Vec::new();
    let mut k: usize = 0;
    proof {
        assert(s@.take(0) == Seq::<char>::empty());
    }
    while k < n
        invariant
            n == s@.len(),
            k <= n,
            split_on(s@.take(k as int), sep).len() >= 1,
            cur@ == split_on(s@.take(k as int), sep).last(),
            pieces_view(out@) == split_on(s@.take(k as int), sep).drop_last(),
        decreases n - k,
    {
        let c = s[k];
        let ghost pre = s@.take(k as int);
        proof {
            assert(s@.take(k + 1).drop_last() == pre);
            assert(s@.take(k + 1).last() == c);
            lemma_split_on_nonempty(pre, sep);
        }
        if c == sep {
            let ghost done = split_on(pre, sep);
            let ghost before = pieces_view(out@);
            out.push(cur);
            proof {
                assert(pieces_view(out@) == before.push(done.last()));
                assert(done == done.drop_last().push(done.last()));
                assert(split_on(s@.take(k + 1), sep).drop_last() == done);
            }
            cur = Vec::new();
        } else {
            cur.push(c);
            proof {
                let done = split_on(pre, sep);
                assert(split_on(s@.take(k + 1), sep).drop_last() == done.drop_last());
            }
        }
        k += 1;
    }
    proof {
        assert(s@.take(n as int) == s@);
    }
    let ghost before = pieces_view(out@);
    out.push(cur);
    proof {
        let all = split_on(s@, sep);
        assert(pieces_view(out@) == before.push(all.last()));
        assert(all == all.drop_last().push(all.last()));
    }
    out
}


/// Trimming the start removes exactly the leading white space: what is left
/// is a suffix that does not begin with white space, and every character
/// taken off is white space.
pub proof fn lemma_trim_start_shape(s: Seq<char>)
    ensures
        trim_start(s).len() <= s.len(),
        trim_start(s) == s.skip(s.len() - trim_start(s).len()),
        trim_start(s).len() > 0 ==> !is_ws(trim_start(s)[0]),
        forall|i: int| 0 <= i < s.len() - trim_start(s).len() ==> is_ws(#[trigger] s[i]),
    decreases s.len(),
{
    if s.len() > 0 && is_ws(s[0]) {
        lemma_trim_start_shape(s.drop_first());
        let t = trim_start(s.drop_first());
        assert(s.drop_first().skip(s.drop_first().len() - t.len()) == s.skip(s.len() - t.len()));
        assert forall|i: int| 0 <= i < s.len() - t.len() implies is_ws(#[trigger] s[i]) by {
            if i > 0 {
                assert(s[i] == s.drop_first()[i - 1]);
            }
        }
    } else {
        assert(s.skip(0) == s);
    }
}

/// Trimming the end removes exactly the trailing white space: what is left
/// is a prefix that does not end with white space, and every character
/// taken off is white space.
pub proof fn lemma_trim_end_shape(s: Seq<char>)
    ensures
        trim_end(s).len() <= s.len(),
        trim_end(s) == s.take(trim_end(s).len() as int),
        trim_end(s).len() > 0 ==> !is_ws(trim_end(s).last()),
        forall|i: int| trim_end(s).len() <= i < s.len() ==> is_ws(#[trigger] s[i]),
    decreases s.len(),
{
    if s.len() > 0 && is_ws(s.last()) {
        lemma_trim_end_shape(s.drop_last());
        let t = trim_end(s.drop_last());
        assert(s.drop_last().take(t.len() as int) == s.take(t.len() as int));
        assert forall|i: int| t.len() <= i < s.len() implies is_ws(#[trigger] s[i]) by {
            if i < s.len() - 1 {
                assert(s[i] == s.drop_last()[i]);
            }
        }
    } else {
        assert(s.take(s.len() as int) == s);
    }
}

/// A trimmed string has no white space at either end, so trimming it again
/// changes nothing.
pub proof fn lemma_trim_idempotent(s: Seq<char>)
    ensures
        trim(s).len() > 0 ==> !is_ws(trim(s)[0]) && !is_ws(trim(s).last()),
        trim(trim(s)) == trim(s),
{
    let a = trim_start(s);
    lemma_trim_start_shape(s);
    lemma_trim_end_shape(a);
    let t = trim_end(a);
    if t.len() > 0 {
        assert(t[0] == a[0]);
    }
    assert(trim_start(t) == t);
    assert(trim_end(t) == t);
}


/// A string without the separator is a single piece.
pub proof fn lemma_split_on_no_sep(s: Seq<char>, sep: char)
    requires
        forall|i: int| 0 <= i < s.len() ==> s[i] != sep,
    ensures
        split_on(s, sep) == seq![s],
    decreases s.len(),
{
    if s.len() > 0 {
        lemma_split_on_no_sep(s.drop_last(), sep);
        assert(s.drop_last().push(s.last()) == s);
        assert(seq![s.drop_last()].update(0, s.drop_last().push(s.last())) == seq![s]);
    } else {
        assert(s == Seq::<char>::empty());
    }
}


/// Splitting `a`, the separator, then `b` gives the pieces of `a` followed
/// by the pieces of `b`.
pub proof fn lemma_split_on_concat(a: Seq<char>, b: Seq<char>, sep: char)
    ensures
        split_on(a + seq![sep] + b, sep) == split_on(a, sep) + split_on(b, sep),
    decreases b.len(),
{
    let whole = a + seq![sep] + b;
    lemma_split_on_nonempty(a, sep);
    if b.len() == 0 {
        assert(whole.drop_last() == a);
        assert(whole == a + seq![sep]);
        assert(split_on(b, sep) == seq![Seq::<char>::empty()]);
    } else {
        let b1 = b.drop_last();
        assert(whole.drop_last() == a + seq![sep] + b1);
        lemma_split_on_concat(a, b1, sep);
        lemma_split_on_nonempty(b1, sep);
        let x = split_on(a, sep);
        let y = split_on(b1, sep);
        if b.last() == sep {
            assert((x + y).push(Seq::empty()) == x + y.push(Seq::empty()));
        } else {
            let v = (x + y).last().push(b.last());
            assert((x + y).update((x + y).len() - 1, v) == x + y.update(y.len() - 1, y.last().push(b.last())));
        }
    }
}

/// No piece of a split holds the separator.
pub proof fn lemma_split_on_pieces_free(s: Seq<char>, sep: char)
    ensures
        forall|i: int, j: int|
            0 <= i < split_on(s, sep).len() && 0 <= j < split_on(s, sep)[i].len() ==> split_on(
                s,
                sep,
            )[i][j] != sep,
    decreases s.len(),
{
    if s.len() > 0 {
        lemma_split_on_pieces_free(s.drop_last(), sep);
        lemma_split_on_nonempty(s.drop_last(), sep);
        let prev = split_on(s.drop_last(), sep);
        let cur = split_on(s, sep);
        assert forall|i: int, j: int| 0 <= i < cur.len() && 0 <= j < cur[i].len() implies cur[i][j]
            != sep by {
            if s.last() != sep && i == prev.len() - 1 {
                assert(cur[i] == prev.last().push(s.last()));
                if j < prev.last().len() {
                    assert(cur[i][j] == prev[i][j]);
                }
            } else if i < prev.len() {
                assert(cur[i] == prev[i]);
            }
        }
    }
}

/// Trimming keeps no character that was not in the text.
pub proof fn lemma_trim_free_of(s: Seq<char>, c: char)
    requires
        forall|j: int| 0 <= j < s.len() ==> s[j] != c,
    ensures
        forall|j: int| 0 <= j < trim(s).len() ==> trim(s)[j] != c,
{
    lemma_trim_start_shape(s);
    let a = trim_start(s);
    lemma_trim_end_shape(a);
    assert forall|j: int| 0 <= j < trim(s).len() implies trim(s)[j] != c by {
        assert(trim(s)[j] == a[j]);
        assert(a[j] == s[s.len() - a.len() + j]);
    }
}

proof fn lemma_find_from_first(s: Seq<char>, pat: Seq<char>, from: int)
    requires
        from >= 0,
    ensures
        find_from(s, pat, from) matches Some(i) ==> forall|j: int| from <= j < i ==> !occurs_at(s, pat, j),
        find_from(s, pat, from) is None ==> forall|j: int| from <= j ==> !occurs_at(s, pat, j),
    decreases s.len() + 1 - from,
{
    if from + pat.len() <= s.len() && !occurs_at(s, pat, from) {
        lemma_find_from_first(s, pat, from + 1);
    }
}

/// `find` gives the first position where the pattern occurs, and nothing
/// exactly when it occurs nowhere.
pub proof fn lemma_find_first(s: Seq<char>, pat: Seq<char>)
    ensures
        find(s, pat) matches Some(i) ==> occurs_at(s, pat, i) && forall|j: int|
            0 <= j < i ==> !occurs_at(s, pat, j),
        find(s, pat) is None <==> forall|j: int| !occurs_at(s, pat, j),
{
    lemma_find_bounds(s, pat);
    lemma_find_from_first(s, pat, 0);
}

/// A position where the pattern occurs, with no occurrence before it, is
/// what `find` gives.
pub proof fn lemma_find_at(s: Seq<char>, pat: Seq<char>, i: int)
    requires
        occurs_at(s, pat, i),
        forall|j: int| 0 <= j < i ==> !occurs_at(s, pat, j),
    ensures
        find(s, pat) == Some(i),
{
    lemma_find_first(s, pat);
    if let Some(k) = find(s, pat) {
        if k < i {
            assert(!occurs_at(s, pat, k));
        }
    }
}

} // verus!

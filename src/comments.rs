//! The comment pass: `//` line comments are cut off before the text is lexed.
use vstd::prelude::*;
use crate::text::{is_ws, is_ws_char, all_ws, chars_of, string_of};

verus! {

/// The pieces of `s` between `'\n'` characters; there is always at least one.
pub open spec fn pieces(s: Seq<char>) -> Seq<Seq<char>>
    decreases s.len(),
{
    if s.len() == 0 {
        seq![Seq::<char>::empty()]
    } else {
        let p = pieces(s.drop_last());
        if s.last() == '\n' {
            p.push(Seq::<char>::empty())
        } else {
            p.update(p.len() - 1, p.last().push(s.last()))
        }
    }
}

/// The lines of `s`, split as `str::lines` splits them: at `"\n"` and at
/// `"\r\n"`. A line that a `'\n'` ends loses one `'\r'` before it; a final
/// line that no `'\n'` ends is kept whole, and a final empty piece (after a
/// trailing line break) is no line.
pub open spec fn text_lines(s: Seq<char>) -> Seq<Seq<char>> {
    let p = pieces(s);
    let ended = p.drop_last().map_values(|l: Seq<char>| without_cr(l));
    if p.last().len() == 0 {
        ended
    } else {
        ended.push(p.last())
    }
}

/// The lines joined with `'\n'` between them.
pub open spec fn join_lines(ls: Seq<Seq<char>>) -> Seq<char>
    decreases ls.len(),
{
    if ls.len() == 0 {
        Seq::<char>::empty()
    } else if ls.len() == 1 {
        ls[0]
    } else {
        join_lines(ls.drop_last()) + seq!['\n'] + ls.last()
    }
}

/// Whether a `//` starts at index `i` of `l`.
pub open spec fn comment_at(l: Seq<char>, i: int) -> bool {
    0 <= i && i + 1 < l.len() && l[i] == '/' && l[i + 1] == '/'
}

/// The first index at or after `i` where a `//` starts, or the length of `l`.
pub open spec fn code_end_from(l: Seq<char>, i: nat) -> nat
    decreases l.len() - i,
{
    if i >= l.len() {
        l.len()
    } else if comment_at(l, i as int) {
        i
    } else {
        code_end_from(l, i + 1)
    }
}

/// Where the code of a line ends: the first `//`, or the end of the line.
pub open spec fn code_end(l: Seq<char>) -> nat {
    code_end_from(l, 0)
}

/// A line without a carriage return at its end.
pub open spec fn without_cr(l: Seq<char>) -> Seq<char> {
    if l.len() > 0 && l.last() == '\r' {
        l.drop_last()
    } else {
        l
    }
}

/// What is kept of one line: the text before its first `//`, or nothing when
/// only whitespace stands before it.
pub open spec fn line_code(l: Seq<char>) -> Seq<char> {
    let e = code_end(l);
    if e < l.len() && all_ws(l.take(e as int)) {
        Seq::<char>::empty()
    } else {
        l.take(e as int)
    }
}

/// What is kept of each line of `s`.
pub open spec fn code_lines(s: Seq<char>) -> Seq<Seq<char>> {
    text_lines(s).map_values(|l: Seq<char>| line_code(l))
}

/// The text with every line comment removed: the code of each line, joined
/// by `'\n'`. A `'\r'` before a `'\n'` goes with the line break; a final
/// `'\r'` that no `'\n'` follows stays.
pub open spec fn stripped(s: Seq<char>) -> Seq<char> {
    join_lines(code_lines(s))
}

proof fn lemma_join_push(ls: Seq<Seq<char>>, x: Seq<char>)
    ensures
        join_lines(ls.push(x)) == if ls.len() == 0 {
            x
        } else {
            join_lines(ls) + seq!['\n'] + x
        },
{
    assert(ls.push(x).drop_last() =~= ls);
}

/// The code of one line, without its line break; `ended` tells whether a
/// `'\n'` ended the line, which then loses a `'\r'` at its end.
fn code_of_line(l: &Vec<char>, ended: bool) -> (r: Vec<char>)
    ensures
        r@ == line_code(if ended { without_cr(l@) } else { l@ }),
{
    let mut n: usize = l.len();
    if ended && n > 0 && l[n - 1] == '\r' {
        n = n - 1;
    }
    let ghost lc = if ended { without_cr(l@) } else { l@ };
    assert(lc =~= l@.take(n as int));
    let mut i: usize = 0;
    while i < n && !(i + 1 < n && l[i] == '/' && l[i + 1] == '/')
        invariant
            n <= l.len(),
            lc == l@.take(n as int),
            i <= n,
            code_end_from(lc, i as nat) == code_end(lc),
        decreases n - i,
    {
        i = i + 1;
    }
    assert(code_end_from(lc, i as nat) == i);
    let mut all_blank = true;
    let mut k: usize = 0;
    while k < i
        invariant
            i <= n <= l.len(),
            k <= i,
            all_blank <==> forall|j: int| 0 <= j < k ==> is_ws(#[trigger] l@[j]),
        decreases i - k,
    {
        if !is_ws_char(l[k]) {
            all_blank = false;
        }
        k = k + 1;
    }
    assert(all_blank == all_ws(l@.take(i as int))) by {
        if all_blank {
            assert forall|j: int| 0 <= j < i implies is_ws(#[trigger] l@.take(i as int)[j]) by {
                assert(l@.take(i as int)[j] == l@[j]);
            }
        } else {
            let j = choose|j: int| 0 <= j < i && !is_ws(#[trigger] l@[j]);
            assert(l@.take(i as int)[j] == l@[j]);
        }
    }
    let mut r: Vec<char> = Vec::new();
    if i < n && all_blank {
        assert(lc.take(i as int) =~= l@.take(i as int));
        return r;
    }
    let mut j: usize = 0;
    while j < i
        invariant
            i <= n <= l.len(),
            j <= i,
            r@ == l@.take(j as int),
        decreases i - j,
    {
        r.push(l[j]);
        assert(l@.take(j + 1) =~= l@.take(j as int).push(l@[j as int]));
        j = j + 1;
    }
    assert(lc.take(i as int) =~= l@.take(i as int));
    r
}

/// Appends the characters of `src` to `dst`.
fn append_chars(dst: &mut Vec<char>, src: &Vec<char>)
    ensures
        final(dst)@ == old(dst)@ + src@,
{
    let mut i: usize = 0;
    while i < src.len()
        invariant
            i <= src.len(),
            dst@ == old(dst)@ + src@.take(i as int),
        decreases src.len() - i,
    {
        dst.push(src[i]);
        assert(src@.take(i + 1) =~= src@.take(i as int).push(src@[i as int]));
        i = i + 1;
    }
    assert(src@.take(src.len() as int) =~= src@);
}

/// Removes `//` comments from DOT text, line by line.
///
/// Each line keeps the text before its first `//`; a line where only
/// whitespace stands before the `//` becomes empty. The pass does not look at
/// quotes, so a `//` inside a quoted string cuts the line too. Lines are split
/// at `"\n"` and `"\r\n"` and joined again with `"\n"`; a final line break is
/// dropped, and a final `'\r'` that no `'\n'` follows is kept.
pub fn strip_comments(dot: &str) -> (r: String)
    ensures
        r@ == stripped(dot@),
{
    let s = chars_of(dot);
    let mut out: Vec<char> = Vec::new();
    let mut line: Vec<char> = Vec::new();
    let mut done: usize = 0;
    let ghost f = |l: Seq<char>| line_code(without_cr(l));
    let mut i: usize = 0;
    while i < s.len()
        invariant
            i <= s.len(),
            s@ == dot@,
            f == (|l: Seq<char>| line_code(without_cr(l))),
            done <= i,
            pieces(s@.take(i as int)).len() == done + 1,
            line@ == pieces(s@.take(i as int)).last(),
            out@ == join_lines(pieces(s@.take(i as int)).drop_last().map_values(f)),
        decreases s.len() - i,
    {
        let ghost before = pieces(s@.take(i as int));
        assert(s@.take(i + 1).drop_last() =~= s@.take(i as int));
        if s[i] == '\n' {
            let code = code_of_line(&line, true);
            proof {
                lemma_join_push(before.drop_last().map_values(f), f(line@));
                assert(before.drop_last().map_values(f).push(f(line@)) =~= before.map_values(f));
                assert(pieces(s@.take(i + 1)).drop_last() =~= before);
            }
            if done > 0 {
                out.push('\n');
            }
            append_chars(&mut out, &code);
            line = Vec::new();
            done = done + 1;
        } else {
            line.push(s[i]);
            proof {
                assert(pieces(s@.take(i + 1)).drop_last() =~= before.drop_last());
            }
        }
        i = i + 1;
    }
    assert(s@.take(s.len() as int) =~= s@);
    let ghost p = pieces(s@);
    let ghost g = |l: Seq<char>| line_code(l);
    let ghost ended = p.drop_last().map_values(|l: Seq<char>| without_cr(l));
    assert(ended.map_values(g) =~= p.drop_last().map_values(f));
    if line.len() > 0 {
        let code = code_of_line(&line, false);
        proof {
            lemma_join_push(p.drop_last().map_values(f), line_code(line@));
            assert(ended.push(p.last()).map_values(g) =~= p.drop_last().map_values(f).push(line_code(line@)));
        }
        if done > 0 {
            out.push('\n');
        }
        append_chars(&mut out, &code);
    }
    string_of(out.as_slice())
}

proof fn lemma_code_end_from(l: Seq<char>, i: nat, k: nat)
    requires
        i <= k <= l.len(),
        forall|j: int| i <= j < k ==> !comment_at(l, j),
        k == l.len() || comment_at(l, k as int),
    ensures
        code_end_from(l, i) == k,
    decreases k - i,
{
    if i < k {
        lemma_code_end_from(l, i + 1, k);
    }
}

/// The line `ws // c`, where only whitespace stands before the `//`, keeps no code.
pub proof fn lemma_comment_line_is_empty(ws: Seq<char>, c: Seq<char>)
    requires
        all_ws(ws),
    ensures
        line_code(ws + seq!['/', '/'] + c) == Seq::<char>::empty(),
{
    let lc = ws + seq!['/', '/'] + c;
    let k = ws.len();
    assert(lc.len() >= k + 2);
    assert forall|j: int| 0 <= j < k implies !comment_at(lc, j) by {
        assert(lc[j] == ws[j]);
        assert(is_ws(ws[j]));
    }
    assert(lc[k as int] == '/' && lc[k + 1 as int] == '/');
    lemma_code_end_from(lc, 0, k);
    assert(lc.take(k as int) =~= ws);
}

proof fn lemma_pieces_of_line(x: Seq<char>)
    requires
        forall|i: int| 0 <= i < x.len() ==> x[i] != '\n',
    ensures
        pieces(x) == seq![x],
    decreases x.len(),
{
    if x.len() == 0 {
        assert(x =~= Seq::<char>::empty());
    } else {
        lemma_pieces_of_line(x.drop_last());
        assert(x.drop_last().push(x.last()) =~= x);
        assert(pieces(x) =~= seq![x]);
    }
}

/// A text of one non-empty line is stripped to the code of that line.
proof fn lemma_stripped_line(x: Seq<char>)
    requires
        x.len() > 0,
        forall|i: int| 0 <= i < x.len() ==> x[i] != '\n',
    ensures
        stripped(x) == line_code(x),
{
    lemma_pieces_of_line(x);
    assert(text_lines(x) =~= seq![x]);
    assert(code_lines(x) =~= seq![line_code(x)]);
}

/// A comment at the end of a one-line text changes nothing: `l // c` is
/// stripped to the same text as `l`, where `l` is a line whose code has no
/// `//` (and that does not end in `/`, which would start one), holds not only
/// whitespace, and `c` holds no line break.
pub proof fn lemma_trailing_comment_stripped(l: Seq<char>, c: Seq<char>)
    requires
        forall|i: int| 0 <= i < l.len() ==> l[i] != '\n',
        forall|i: int| !comment_at(l, i),
        l.len() > 0 ==> l.last() != '/',
        !all_ws(l),
        forall|i: int| 0 <= i < c.len() ==> c[i] != '\n',
    ensures
        stripped(l + seq!['/', '/'] + c) == stripped(l),
{
    let x = l + seq!['/', '/'] + c;
    assert(l.len() > 0);
    assert forall|i: int| 0 <= i < x.len() implies x[i] != '\n' by {
        if i < l.len() {
            assert(x[i] == l[i]);
        } else if i >= l.len() + 2 {
            assert(x[i] == c[i - l.len() - 2]);
        }
    }
    lemma_stripped_line(x);
    lemma_stripped_line(l);
    let k = l.len();
    assert forall|j: int| 0 <= j < k implies !comment_at(x, j) by {
        assert(x[j] == l[j]);
        if j + 1 < k {
            assert(x[j + 1] == l[j + 1]);
            assert(!comment_at(l, j));
        } else {
            assert(l.last() == l[j]);
        }
    }
    assert(x[k as int] == '/' && x[k + 1 as int] == '/');
    lemma_code_end_from(x, 0, k);
    assert(x.take(k as int) =~= l);
    lemma_code_end_from(l, 0, k);
    assert(l.take(k as int) =~= l);
}

/// A line that begins with optional whitespace and then `//` becomes an empty
/// line of the output, so it contributes no tokens.
pub proof fn lemma_comment_lines_vanish(s: Seq<char>, i: int, ws: Seq<char>, c: Seq<char>)
    requires
        0 <= i < text_lines(s).len(),
        all_ws(ws),
        text_lines(s)[i] == ws + seq!['/', '/'] + c,
    ensures
        stripped(s) == join_lines(code_lines(s)),
        code_lines(s)[i] == Seq::<char>::empty(),
{
    lemma_comment_line_is_empty(ws, c);
}

proof fn lemma_pieces_nonempty(s: Seq<char>)
    ensures
        pieces(s).len() >= 1,
    decreases s.len(),
{
    if s.len() > 0 {
        lemma_pieces_nonempty(s.drop_last());
    }
}

/// Characters that `s` lacks are lacking in its pieces too; no piece holds a `'\n'`.
proof fn lemma_pieces_chars(s: Seq<char>, c: char)
    requires
        forall|i: int| 0 <= i < s.len() ==> s[i] != c,
    ensures
        forall|k: int, j: int|
            0 <= k < pieces(s).len() && 0 <= j < pieces(s)[k].len() ==> #[trigger] pieces(s)[k][j]
                != c && pieces(s)[k][j] != '\n',
    decreases s.len(),
{
    if s.len() > 0 {
        let init = s.drop_last();
        assert forall|i: int| 0 <= i < init.len() implies init[i] != c by {
            assert(init[i] == s[i]);
        }
        lemma_pieces_chars(init, c);
        lemma_pieces_nonempty(init);
        assert(s.last() == s[s.len() - 1]);
        let p = pieces(init);
        if s.last() != '\n' {
            assert forall|k: int, j: int|
                0 <= k < pieces(s).len() && 0 <= j < pieces(s)[k].len() implies #[trigger] pieces(
                s,
            )[k][j] != c && pieces(s)[k][j] != '\n' by {
                if k < p.len() - 1 {
                    assert(pieces(s)[k] == p[k]);
                } else if j < p.last().len() {
                    assert(pieces(s)[k][j] == p[k][j]);
                }
            }
        } else {
            assert forall|k: int, j: int|
                0 <= k < pieces(s).len() && 0 <= j < pieces(s)[k].len() implies #[trigger] pieces(
                s,
            )[k][j] != c && pieces(s)[k][j] != '\n' by {
                assert(pieces(s)[k] == p[k]);
            }
        }
    }
}

/// Appending text without a line break extends the last piece.
proof fn lemma_pieces_append(x: Seq<char>, y: Seq<char>)
    requires
        forall|i: int| 0 <= i < y.len() ==> y[i] != '\n',
    ensures
        pieces(x + y) == pieces(x).update(pieces(x).len() - 1, pieces(x).last() + y),
    decreases y.len(),
{
    lemma_pieces_nonempty(x);
    if y.len() == 0 {
        assert(x + y =~= x);
        assert(pieces(x).last() + y =~= pieces(x).last());
        assert(pieces(x).update(pieces(x).len() - 1, pieces(x).last()) =~= pieces(x));
    } else {
        let yi = y.drop_last();
        assert forall|i: int| 0 <= i < yi.len() implies yi[i] != '\n' by {
            assert(yi[i] == y[i]);
        }
        lemma_pieces_append(x, yi);
        assert((x + y).drop_last() =~= x + yi);
        assert((x + y).last() == y[y.len() - 1]);
        assert(y.last() != '\n');
        let pp = pieces(x);
        let p1 = pieces(x + yi);
        assert(p1.len() == pp.len());
        assert(p1.last() == pp.last() + yi);
        assert(pieces(x + y) == p1.update(p1.len() - 1, p1.last().push(y.last())));
        assert(p1.last().push(y.last()) =~= pp.last() + y);
        assert(pieces(x + y) =~= pieces(x).update(pieces(x).len() - 1, pieces(x).last() + y));
    }
}

/// Joining lines without line breaks and splitting again gives them back.
proof fn lemma_pieces_join(ls: Seq<Seq<char>>)
    requires
        ls.len() >= 1,
        forall|k: int, j: int| 0 <= k < ls.len() && 0 <= j < ls[k].len() ==> #[trigger] ls[k][j] != '\n',
    ensures
        pieces(join_lines(ls)) == ls,
    decreases ls.len(),
{
    if ls.len() == 1 {
        assert forall|i: int| 0 <= i < ls[0].len() implies ls[0][i] != '\n' by {}
        lemma_pieces_of_line(ls[0]);
        assert(pieces(join_lines(ls)) =~= ls);
    } else {
        let init = ls.drop_last();
        assert forall|k: int, j: int| 0 <= k < init.len() && 0 <= j < init[k].len() implies #[trigger] init[k][j] != '\n' by {
            assert(init[k] == ls[k]);
        }
        lemma_pieces_join(init);
        let a = join_lines(init);
        let last = ls.last();
        assert(a + seq!['\n'] =~= a.push('\n'));
        assert((a.push('\n')).drop_last() =~= a);
        assert(pieces(a.push('\n')) == init.push(Seq::<char>::empty()));
        assert forall|i: int| 0 <= i < last.len() implies last[i] != '\n' by {
            assert(ls[ls.len() - 1][i] == last[i]);
        }
        lemma_pieces_append(a.push('\n'), last);
        assert(Seq::<char>::empty() + last =~= last);
        assert(init.push(Seq::<char>::empty()).update(init.len() as int, last) =~= ls);
    }
}

/// Every index before the first `//` found from `i` on starts no `//`.
proof fn lemma_code_end_clear(l: Seq<char>, i: nat)
    ensures
        i <= l.len() ==> i <= code_end_from(l, i) <= l.len(),
        forall|j: int| i <= j < code_end_from(l, i) ==> !comment_at(l, j),
    decreases l.len() - i,
{
    if i < l.len() && !comment_at(l, i as int) {
        lemma_code_end_clear(l, i + 1);
    }
}

/// The code of a line is its own code.
proof fn lemma_line_code_idempotent(l: Seq<char>)
    ensures
        line_code(line_code(l)) == line_code(l),
{
    let e = code_end(l);
    lemma_code_end_clear(l, 0);
    let c = line_code(l);
    if c.len() == 0 {
        lemma_code_end_from(c, 0, 0);
        assert(c.take(0) =~= c);
    } else {
        assert(c =~= l.take(e as int));
        assert(c.len() == e);
        assert forall|j: int| 0 <= j < c.len() implies !comment_at(c, j) by {
            if j + 1 < c.len() {
                assert(c[j] == l[j] && c[j + 1] == l[j + 1]);
                assert(0 <= j < code_end_from(l, 0));
                assert(!comment_at(l, j));
            }
        }
        lemma_code_end_from(c, 0, c.len());
        assert(c.take(c.len() as int) =~= c);
    }
}

/// Stripping again changes nothing, but that a final empty line left by the
/// first pass goes away: for a text without `'\r'`, the second pass gives the
/// first pass's text, or that text less its final `'\n'`.
pub proof fn lemma_strip_idempotent(s: Seq<char>)
    requires
        forall|i: int| 0 <= i < s.len() ==> s[i] != '\r',
    ensures
        stripped(stripped(s)) == stripped(s) || stripped(s) == stripped(stripped(s)) + seq!['\n'],
{
    let c = code_lines(s);
    let j = stripped(s);
    lemma_pieces_chars(s, '\r');
    lemma_pieces_nonempty(s);
    let p = pieces(s);
    let tl = text_lines(s);
    assert forall|k: int, i: int| 0 <= k < tl.len() && 0 <= i < tl[k].len() implies #[trigger] tl[k][i] != '\r' && tl[k][i] != '\n' by {
        if k < p.len() - 1 {
            assert(tl[k] == without_cr(p[k]));
            assert(tl[k][i] == p[k][i]);
        } else {
            assert(tl[k] == p.last());
            assert(tl[k][i] == p[k][i]);
        }
    }
    assert forall|k: int, i: int| 0 <= k < c.len() && 0 <= i < c[k].len() implies #[trigger] c[k][i] != '\r' && c[k][i] != '\n' by {
        let l = tl[k];
        lemma_code_end_clear(l, 0);
        assert(c[k] == line_code(l));
        assert(c[k][i] == l[i]);
    }
    if c.len() == 0 {
        assert(j =~= Seq::<char>::empty());
        assert(pieces(j) =~= seq![Seq::<char>::empty()]);
        assert(text_lines(j) =~= Seq::<Seq<char>>::empty());
        assert(code_lines(j) =~= Seq::<Seq<char>>::empty());
    } else {
        lemma_pieces_join(c);
        assert forall|k: int| 0 <= k < c.len() implies without_cr(#[trigger] c[k]) == c[k] by {
            if c[k].len() > 0 {
                assert(c[k].last() == c[k][c[k].len() - 1]);
            }
        }
        assert(c.drop_last().map_values(|l: Seq<char>| without_cr(l)) =~= c.drop_last());
        assert forall|k: int| 0 <= k < c.len() implies line_code(#[trigger] c[k]) == c[k] by {
            lemma_line_code_idempotent(tl[k]);
        }
        if c.last().len() == 0 {
            assert(text_lines(j) =~= c.drop_last());
            assert(code_lines(j) =~= c.drop_last());
            if c.len() >= 2 {
                assert(j == join_lines(c.drop_last()) + seq!['\n'] + c.last());
                assert(j =~= stripped(j) + seq!['\n']);
            } else {
                assert(c.drop_last() =~= Seq::<Seq<char>>::empty());
                assert(j == c[0]);
                assert(j =~= stripped(j));
            }
        } else {
            assert(c.drop_last().push(c.last()) =~= c);
            assert(text_lines(j) =~= c);
            assert(code_lines(j) =~= c);
        }
    }
}

} // verus!

//! Character-level helpers shared by the comment pass and the lexer.
use vstd::prelude::*;
use vstd::std_specs::iter::IteratorSpec;
use vstd::utf8::{char_is_scalar, encode_scalar, encode_utf8};

verus! {

/// Unicode `White_Space` characters, as `char::is_whitespace` classifies them.
pub open spec fn is_ws(c: char) -> bool {
    ||| ('\u{9}' <= c && c <= '\u{d}')
    ||| c == ' '
    ||| c == '\u{85}'
    ||| c == '\u{a0}'
    ||| c == '\u{1680}'
    ||| ('\u{2000}' <= c && c <= '\u{200a}')
    ||| c == '\u{2028}'
    ||| c == '\u{2029}'
    ||| c == '\u{202f}'
    ||| c == '\u{205f}'
    ||| c == '\u{3000}'
}

pub fn is_ws_char(c: char) -> (r: bool)
    ensures
        r == is_ws(c),
{
    ('\u{9}' <= c && c <= '\u{d}') || c == ' ' || c == '\u{85}' || c == '\u{a0}' || c == '\u{1680}'
        || ('\u{2000}' <= c && c <= '\u{200a}') || c == '\u{2028}' || c == '\u{2029}' || c
        == '\u{202f}' || c == '\u{205f}' || c == '\u{3000}'
}

pub open spec fn all_ws(s: Seq<char>) -> bool {
    forall|i: int| 0 <= i < s.len() ==> is_ws(#[trigger] s[i])
}

/// The characters of the text, in order.
pub(crate) fn chars_of(s: &str) -> (r: Vec<char>)
    ensures
        r@ == s@,
{
    broadcast use vstd::string::group_string_axioms;
    let mut it = s.chars();
    let mut r: Vec<char> = Vec::new();
    assert(it.remaining() == s@);
    loop
        invariant
            r@ + it.remaining() == s@,
            it.decrease() is Some,
        decreases it.decrease()->0,
    {
        let ghost before = it.remaining();
        match it.next() {
            Some(c) => {
                r.push(c);
                assert(r@ + it.remaining() =~= s@) by {
                    assert(before =~= seq![c] + it.remaining());
                }
            },
            None => {
                assert(r@ =~= s@);
                return r;
            },
        }
    }
}

/// Relies on `String::from_iter` over characters: the string holding exactly them.
#[verifier::external_body]
pub(crate) fn string_of(cs: &[char]) -> (r: String)
    ensures
        r@ == cs@,
{
    cs.iter().collect()
}

/// The number of bytes that the UTF-8 encoding of `c` takes.
pub open spec fn utf8_width(c: char) -> nat {
    if (c as u32) < 0x80 {
        1
    } else if (c as u32) < 0x800 {
        2
    } else if (c as u32) < 0x10000 {
        3
    } else {
        4
    }
}

/// The number of bytes that the UTF-8 encoding of `s` takes.
pub open spec fn utf8_size(s: Seq<char>) -> nat
    decreases s.len(),
{
    if s.len() == 0 {
        0
    } else {
        utf8_size(s.drop_last()) + utf8_width(s.last())
    }
}

proof fn lemma_width_is_encoding(c: char)
    ensures
        encode_scalar(c as u32).len() == utf8_width(c),
{
    char_is_scalar(c);
}

proof fn lemma_utf8_size_first(x: Seq<char>)
    requires
        x.len() > 0,
    ensures
        utf8_size(x) == utf8_width(x[0]) + utf8_size(x.drop_first()),
    decreases x.len(),
{
    if x.len() == 1 {
        assert(x.drop_last() =~= Seq::<char>::empty());
        assert(x.drop_first() =~= Seq::<char>::empty());
    } else {
        lemma_utf8_size_first(x.drop_last());
        assert(x.drop_last().drop_first() =~= x.drop_first().drop_last());
        assert(x.drop_first().last() == x.last());
        assert(x.drop_last()[0] == x[0]);
    }
}

/// `utf8_size` is the length of the UTF-8 encoding as vstd defines it.
proof fn lemma_utf8_size_is_encoding(x: Seq<char>)
    ensures
        utf8_size(x) == encode_utf8(x).len(),
    decreases x.len(),
{
    if x.len() > 0 {
        lemma_utf8_size_first(x);
        lemma_width_is_encoding(x[0]);
        lemma_utf8_size_is_encoding(x.drop_first());
    }
}

/// The length of a string in bytes: the size of its UTF-8 encoding.
pub(crate) fn byte_len(s: &str) -> (r: usize)
    ensures
        r as nat == utf8_size(s@),
{
    proof {
        lemma_utf8_size_is_encoding(s@);
    }
    s.as_bytes().len()
}

pub proof fn lemma_utf8_step(s: Seq<char>, i: int)
    requires
        0 <= i < s.len(),
    ensures
        utf8_size(s.take(i + 1)) == utf8_size(s.take(i)) + utf8_width(s[i]),
{
    assert(s.take(i + 1).drop_last() =~= s.take(i));
}

pub proof fn lemma_utf8_prefix(s: Seq<char>, i: int)
    requires
        0 <= i <= s.len(),
    ensures
        utf8_size(s.take(i)) <= utf8_size(s),
    decreases s.len() - i,
{
    if i < s.len() {
        lemma_utf8_step(s, i);
        lemma_utf8_prefix(s, i + 1);
    } else {
        assert(s.take(i) =~= s);
    }
}

/// The byte offset of index `i + 1`, from that of index `i`.
pub(crate) fn advance(s: &Vec<char>, i: usize, b: usize, Ghost(total): Ghost<nat>) -> (r: usize)
    requires
        i < s.len(),
        b as nat == utf8_size(s@.take(i as int)),
        total == utf8_size(s@),
        total <= usize::MAX,
    ensures
        r as nat == utf8_size(s@.take(i + 1)),
{
    proof {
        lemma_utf8_step(s@, i as int);
        lemma_utf8_prefix(s@, i + 1);
    }
    let c = s[i];
    let w: usize = if (c as u32) < 0x80 {
        1
    } else if (c as u32) < 0x800 {
        2
    } else if (c as u32) < 0x10000 {
        3
    } else {
        4
    };
    b + w
}

/// The characters of `s` from index `a` up to index `b`.
pub(crate) fn copy_range(s: &Vec<char>, a: usize, b: usize) -> (r: Vec<char>)
    requires
        a <= b <= s.len(),
    ensures
        r@ == s@.subrange(a as int, b as int),
{
    let mut r: Vec<char> = Vec::new();
    let mut k: usize = a;
    while k < b
        invariant
            a <= k <= b <= s.len(),
            r@ == s@.subrange(a as int, k as int),
        decreases b - k,
    {
        r.push(s[k]);
        assert(s@.subrange(a as int, k + 1) =~= s@.subrange(a as int, k as int).push(s@[k as int]));
        k = k + 1;
    }
    r
}

/// A copy of the characters of `v`.
pub(crate) fn copy_text(v: &Vec<char>) -> (r: Vec<char>)
    ensures
        r@ == v@,
{
    let r = copy_range(v, 0, v.len());
    assert(r@ =~= v@);
    r
}

pub(crate) proof fn lemma_push_to_set<T>(s: Seq<T>, x: T)
    ensures
        s.push(x).to_set() == s.to_set().insert(x),
{
    assert forall|v: T| #[trigger] s.push(x).contains(v) <==> (s.contains(v) || v == x) by {
        if s.push(x).contains(v) {
            let k = choose|k: int| 0 <= k < s.push(x).len() && s.push(x)[k] == v;
            if k < s.len() {
                assert(s[k] == v);
            }
        }
        if s.contains(v) {
            let k = choose|k: int| 0 <= k < s.len() && s[k] == v;
            assert(s.push(x)[k] == v);
        }
        if v == x {
            assert(s.push(x)[s.len() as int] == v);
        }
    }
    assert(s.push(x).to_set() =~= s.to_set().insert(x));
}

} // verus!

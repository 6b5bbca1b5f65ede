//! Small conversions between strings and character vectors.
use vstd::prelude::*;
use vstd::string::*;

verus! {

/// Relies on `String::push`: the character is appended at the end.
#[verifier::external_body]
pub(crate) fn push_char(s: &mut String, c: char)
    ensures
        final(s)@ == old(s)@.push(c),
{
    s.push(c)
}

/// The characters of `s`, in order.
pub fn chars_of(s: &str) -> (r: Vec<char>)
    ensures
        r@ == s@,
{
    let n = s.unicode_len();
    let mut r: Vec<char> = Vec::new();
    let mut i: usize = 0;
    while i < n
        invariant
            i <= n,
            n == s@.len(),
            r@ =~= s@.subrange(0, i as int),
        decreases n - i,
    {
        r.push(s.get_char(i));
        i = i + 1;
    }
    r
}

/// The string made of `cs[lo..hi]`, in order.
pub fn string_of(cs: &Vec<char>, lo: usize, hi: usize) -> (r: String)
    requires
        lo <= hi <= cs@.len(),
    ensures
        r@ == cs@.subrange(lo as int, hi as int),
{
    let mut r = String::new();
    let mut i: usize = lo;
    while i < hi
        invariant
            lo <= i <= hi <= cs@.len(),
            r@ =~= cs@.subrange(lo as int, i as int),
        decreases hi - i,
    {
        push_char(&mut r, cs[i]);
        i = i + 1;
    }
    r
}

/// The pieces of `s` between occurrences of `sep`; there is always at
/// least one.
pub open spec fn split(s: Seq<char>, sep: char) -> Seq<Seq<char>>
    decreases s.len(),
{
    if s.len() == 0 {
        seq![Seq::empty()]
    } else {
        let prev = split(s.drop_last(), sep);
        if s.last() == sep {
            prev.push(Seq::empty())
        } else {
            prev.update(prev.len() - 1, prev.last().push(s.last()))
        }
    }
}

pub proof fn lemma_split_len(s: Seq<char>, sep: char)
    ensures
        split(s, sep).len() >= 1,
    decreases s.len(),
{
    if s.len() > 0 {
        lemma_split_len(s.drop_last(), sep);
    }
}

pub open spec fn strs(v: Seq<String>) -> Seq<Seq<char>> {
    v.map_values(|x: String| x@)
}

/// The pieces of `s` between occurrences of `sep`.
pub fn split_str(s: &str, sep: char) -> (r: Vec<String>)
    ensures
        strs(r@) == split(s@, sep),
{
    let cs = chars_of(s);
    let ghost t = cs@;
    let mut pieces: Vec<String> = Vec::new();
    let mut cur: Vec<char> = Vec::new();
    let mut i: usize = 0;
    assert(t.subrange(0, 0) =~= Seq::<char>::empty());
    assert(strs(pieces@) =~= Seq::<Seq<char>>::empty());
    while i < cs.len()
        invariant
            i <= t.len(),
            t == cs@,
            split(t.subrange(0, i as int), sep) == strs(pieces@).push(cur@),
        decreases t.len() - i,
    {
        assert(t.subrange(0, i + 1).drop_last() =~= t.subrange(0, i as int));
        let ghost old_cur = cur@;
        let ghost done = strs(pieces@);
        if cs[i] == sep {
            let n = cur.len();
            let piece = string_of(&cur, 0, n);
            assert(cur@.subrange(0, n as int) =~= cur@);
            pieces.push(piece);
            assert(strs(pieces@) =~= done.push(old_cur));
            cur = Vec::new();
        } else {
            cur.push(cs[i]);
            assert(done.push(old_cur).update(done.len() as int, old_cur.push(t[i as int])) =~= done.push(cur@));
        }
        i = i + 1;
    }
    let n = cur.len();
    let piece = string_of(&cur, 0, n);
    assert(cur@.subrange(0, n as int) =~= cur@);
    let ghost done = strs(pieces@);
    pieces.push(piece);
    assert(strs(pieces@) =~= done.push(cur@));
    assert(t.subrange(0, t.len() as int) =~= t);
    pieces
}

/// Whether two strings hold the same characters.
pub fn str_eq(a: &str, b: &str) -> (r: bool)
    ensures
        r == (a@ == b@),
{
    let x = a.to_owned();
    let y = b.to_owned();
    x == y
}

/// Appends `t` to `s`.
pub fn push_str(s: &mut String, t: &str)
    ensures
        final(s)@ == old(s)@ + t@,
{
    s.append(t);
}

} // verus!

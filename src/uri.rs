//! URI normalisation: percent-encoding of path terms, `.` and `..`
//! collapsing, and a canonical query string.
use vstd::prelude::*;
use vstd::string::*;
use crate::text::{chars_of, push_char, push_str, string_of, split, strs};

verus! {

/// The characters that stand for themselves in a normalised term.
pub open spec fn is_unreserved(b: u8) -> bool {
    ||| 0x41 <= b <= 0x5a
    ||| 0x61 <= b <= 0x7a
    ||| 0x30 <= b <= 0x39
    ||| b == 0x2d
    ||| b == 0x2e
    ||| b == 0x5f
    ||| b == 0x7e
}

/// The value of a hexadecimal digit, of either case.
pub open spec fn hex_value(c: char) -> Option<u8> {
    let v = c as u32;
    if 48 <= v <= 57 {
        Some((v - 48) as u8)
    } else if 97 <= v <= 102 {
        Some((v - 87) as u8)
    } else if 65 <= v <= 70 {
        Some((v - 55) as u8)
    } else {
        None
    }
}

/// The upper-case hexadecimal digit of `d < 16`.
pub open spec fn hex_char(d: u8) -> char {
    if d < 10 {
        (48 + d) as u8 as char
    } else {
        (55 + d) as u8 as char
    }
}

/// `%` followed by the two upper-case digits of `b`.
pub open spec fn pct(b: u8) -> Seq<char> {
    seq!['%', hex_char(b / 16), hex_char(b % 16)]
}

/// The percent-encodings of `bs`, one after the other.
pub open spec fn pct_all(bs: Seq<u8>) -> Seq<char>
    decreases bs.len(),
{
    if bs.len() == 0 {
        Seq::empty()
    } else {
        pct_all(bs.drop_last()) + pct(bs.last())
    }
}

/// The UTF-8 encoding of `c`.
pub open spec fn utf8(c: char) -> Seq<u8> {
    let v = c as u32;
    if v < 0x80 {
        seq![v as u8]
    } else if v < 0x800 {
        seq![(0xC0 + v / 64) as u8, (0x80 + v % 64) as u8]
    } else if v < 0x10000 {
        seq![(0xE0 + v / 4096) as u8, (0x80 + (v / 64) % 64) as u8, (0x80 + v % 64) as u8]
    } else {
        seq![
            (0xF0 + v / 262144) as u8,
            (0x80 + (v / 4096) % 64) as u8,
            (0x80 + (v / 64) % 64) as u8,
            (0x80 + v % 64) as u8,
        ]
    }
}

/// A byte written as two hexadecimal digits at `pos`, after a `%` there
/// first when `first` holds; with the position that follows it.
pub open spec fn pct_at(s: Seq<char>, pos: int, first: bool) -> Option<(u8, int)> {
    let p = if first { pos + 1 } else { pos };
    if first && !(0 <= pos < s.len() && s[pos] == '%') {
        None
    } else if !(0 <= p && p + 2 <= s.len()) {
        None
    } else {
        match (hex_value(s[p]), hex_value(s[p + 1])) {
            (Some(h), Some(l)) => Some(((h * 16 + l) as u8, p + 2)),
            _ => None,
        }
    }
}

/// The bytes of a percent group whose `%` stands at `i`: the lead byte and
/// as many `%XX` continuations as the lead byte announces.
pub open spec fn pct_group(s: Seq<char>, i: int) -> Option<(Seq<u8>, int)> {
    match pct_at(s, i + 1, false) {
        None => None,
        Some((b0, p1)) => if b0 < 192 {
            Some((seq![b0], p1))
        } else {
            match pct_at(s, p1, true) {
                None => None,
                Some((b1, p2)) => if b0 < 224 {
                    Some((seq![b0, b1], p2))
                } else {
                    match pct_at(s, p2, true) {
                        None => None,
                        Some((b2, p3)) => if b0 < 240 {
                            Some((seq![b0, b1, b2], p3))
                        } else {
                            match pct_at(s, p3, true) {
                                None => None,
                                Some((b3, p4)) => Some((seq![b0, b1, b2, b3], p4)),
                            }
                        },
                    }
                },
            }
        },
    }
}

/// How a group of bytes is written back: an unreserved character as
/// itself, anything else percent-encoded; a lead byte above 247 is refused.
pub open spec fn emit(bs: Seq<u8>) -> Option<Seq<char>> {
    if bs[0] > 247 {
        None
    } else if is_unreserved(bs[0]) {
        Some(seq![bs[0] as char])
    } else {
        Some(pct_all(bs))
    }
}

/// The output for the character at `i` and the position after what it
/// consumed.
pub open spec fn term_step(s: Seq<char>, i: int) -> Option<(Seq<char>, int)> {
    if s[i] == '%' {
        match pct_group(s, i) {
            None => None,
            Some((bs, next)) => match emit(bs) {
                None => None,
                Some(out) => Some((out, next)),
            },
        }
    } else {
        match emit(utf8(s[i])) {
            None => None,
            Some(out) => Some((out, i + 1)),
        }
    }
}

/// Prepends `p` to an output that may have failed.
pub open spec fn prepend(p: Seq<char>, o: Option<Seq<char>>) -> Option<Seq<char>> {
    match o {
        Some(x) => Some(p + x),
        None => None,
    }
}

/// The normalised form of `s` from position `i` on; `None` when a percent
/// group is malformed.
pub open spec fn norm_from(s: Seq<char>, i: int) -> Option<Seq<char>>
    decreases s.len() - i,
{
    if i < 0 || i >= s.len() {
        Some(Seq::empty())
    } else {
        match term_step(s, i) {
            None => None,
            Some((out, next)) => if next > i {
                prepend(out, norm_from(s, next))
            } else {
                None
            },
        }
    }
}

/// The normalised form of a term; a malformed term becomes empty.
pub open spec fn norm_term(s: Seq<char>) -> Seq<char> {
    match norm_from(s, 0) {
        Some(o) => o,
        None => Seq::empty(),
    }
}

fn hex_digit(d: u8) -> (r: char)
    requires
        d < 16,
    ensures
        r == hex_char(d),
{
    if d < 10 {
        (48 + d) as char
    } else {
        (55 + d) as char
    }
}

fn hex_of(c: char) -> (r: Option<u8>)
    ensures
        r == hex_value(c),
{
    let v = c as u32;
    if 48 <= v && v <= 57 {
        Some((v - 48) as u8)
    } else if 97 <= v && v <= 102 {
        Some((v - 87) as u8)
    } else if 65 <= v && v <= 70 {
        Some((v - 55) as u8)
    } else {
        None
    }
}

/// Appends the percent-encoding of `digit`.
fn push_unicode_digit(digit: u8, result: &mut String)
    ensures
        final(result)@ == old(result)@ + pct(digit),
{
    push_char(result, '%');
    push_char(result, hex_digit(digit / 16));
    push_char(result, hex_digit(digit % 16));
    assert(final(result)@ =~= old(result)@ + pct(digit));
}

/// Reads a percent-encoded byte at `pos`; when `first` is false the `%`
/// has been taken already.
fn read_unicode_digit(cs: &Vec<char>, pos: usize, first: bool) -> (r: Option<(u8, usize)>)
    requires
        cs@.len() < usize::MAX - 3,
    ensures
        match pct_at(cs@, pos as int, first) {
            Some((b, p)) => r == Some((b, p as usize)),
            None => r is None,
        },
{
    let mut p = pos;
    if first {
        if pos >= cs.len() || cs[pos] != '%' {
            return None;
        }
        p = pos + 1;
    }
    if p >= cs.len() || cs.len() - p < 2 {
        return None;
    }
    match (hex_of(cs[p]), hex_of(cs[p + 1])) {
        (Some(h), Some(l)) => Some((h * 16 + l, p + 2)),
        _ => None,
    }
}

fn pct_group_exec(cs: &Vec<char>, i: usize) -> (r: Option<(Vec<u8>, usize)>)
    requires
        i < cs@.len(),
        cs@.len() < usize::MAX - 3,
    ensures
        match pct_group(cs@, i as int) {
            Some((bs, next)) => r matches Some((v, n)) && v@ == bs && n == next,
            None => r is None,
        },
{
    let (b0, p1) = match read_unicode_digit(cs, i + 1, false) {
        Some(x) => x,
        None => return None,
    };
    let mut v: Vec<u8> = Vec::new();
    v.push(b0);
    if b0 < 192 {
        assert(v@ =~= seq![b0]);
        return Some((v, p1));
    }
    let (b1, p2) = match read_unicode_digit(cs, p1, true) {
        Some(x) => x,
        None => return None,
    };
    v.push(b1);
    if b0 < 224 {
        assert(v@ =~= seq![b0, b1]);
        return Some((v, p2));
    }
    let (b2, p3) = match read_unicode_digit(cs, p2, true) {
        Some(x) => x,
        None => return None,
    };
    v.push(b2);
    if b0 < 240 {
        assert(v@ =~= seq![b0, b1, b2]);
        return Some((v, p3));
    }
    let (b3, p4) = match read_unicode_digit(cs, p3, true) {
        Some(x) => x,
        None => return None,
    };
    v.push(b3);
    assert(v@ =~= seq![b0, b1, b2, b3]);
    Some((v, p4))
}

fn utf8_exec(c: char) -> (r: Vec<u8>)
    ensures
        r@ == utf8(c),
{
    let v = c as u32;
    let mut r: Vec<u8> = Vec::new();
    if v < 0x80 {
        r.push(v as u8);
        assert(r@ =~= utf8(c));
    } else if v < 0x800 {
        r.push((0xC0 + v / 64) as u8);
        r.push((0x80 + v % 64) as u8);
        assert(r@ =~= utf8(c));
    } else if v < 0x10000 {
        r.push((0xE0 + v / 4096) as u8);
        r.push((0x80 + (v / 64) % 64) as u8);
        r.push((0x80 + v % 64) as u8);
        assert(r@ =~= utf8(c));
    } else {
        r.push((0xF0 + v / 262144) as u8);
        r.push((0x80 + (v / 4096) % 64) as u8);
        r.push((0x80 + (v / 64) % 64) as u8);
        r.push((0x80 + v % 64) as u8);
        assert(r@ =~= utf8(c));
    }
    r
}

fn emit_exec(bs: &Vec<u8>, result: &mut String) -> (ok: bool)
    requires
        bs@.len() > 0,
    ensures
        match emit(bs@) {
            Some(out) => ok && final(result)@ == old(result)@ + out,
            None => !ok,
        },
{
    if bs[0] > 247 {
        return false;
    }
    if (0x41 <= bs[0] && bs[0] <= 0x5a) || (0x61 <= bs[0] && bs[0] <= 0x7a) || (0x30 <= bs[0]
        && bs[0] <= 0x39) || bs[0] == 0x2d || bs[0] == 0x2e || bs[0] == 0x5f || bs[0] == 0x7e {
        push_char(result, bs[0] as char);
        return true;
    }
    let ghost start = result@;
    let mut i: usize = 0;
    while i < bs.len()
        invariant
            i <= bs@.len(),
            result@ == start + pct_all(bs@.subrange(0, i as int)),
        decreases bs@.len() - i,
    {
        push_unicode_digit(bs[i], result);
        assert(bs@.subrange(0, i + 1).drop_last() =~= bs@.subrange(0, i as int));
        i = i + 1;
    }
    assert(bs@.subrange(0, bs@.len() as int) =~= bs@);
    true
}

/// Normalises the percent-encoding of a term: unreserved characters stand
/// for themselves, everything else becomes upper-case `%XX` groups of its
/// UTF-8 bytes.  A malformed percent group makes the whole term empty.
#[verifier::rlimit(50)]
pub fn normalize_term(part: String) -> (r: String)
    requires
        part@.len() < usize::MAX - 3,
    ensures
        r@ == norm_term(part@),
{
    let cs = chars_of(part.as_str());
    let ghost s = cs@;
    let mut result = String::new();
    let mut i: usize = 0;
    while i < cs.len()
        invariant
            s == cs@,
            s == part@,
            s.len() < usize::MAX - 3,
            i <= s.len(),
            norm_from(s, 0) == prepend(result@, norm_from(s, i as int)),
        decreases s.len() - i,
    {
        let ghost before = result@;
        let next: usize;
        if cs[i] == '%' {
            match pct_group_exec(&cs, i) {
                Some((bs, n)) => {
                    if !emit_exec(&bs, &mut result) {
                        assert(norm_from(s, i as int) is None);
                        return String::new();
                    }
                    next = n;
                },
                None => {
                    assert(norm_from(s, i as int) is None);
                    return String::new();
                },
            }
        } else {
            let bs = utf8_exec(cs[i]);
            if !emit_exec(&bs, &mut result) {
                assert(norm_from(s, i as int) is None);
                return String::new();
            }
            next = i + 1;
        }
        assert(next > i);
        let ghost out = result@.subrange(before.len() as int, result@.len() as int);
        assert(result@ =~= before + out);
        assert(norm_from(s, i as int) == prepend(out, norm_from(s, next as int)));
        proof {
            match norm_from(s, next as int) {
                Some(x) => {
                    assert(before + (out + x) =~= (before + out) + x);
                },
                None => {},
            }
        }
        i = next;
    }
    assert(norm_from(s, i as int) == Some(Seq::<char>::empty()));
    assert(result@ + Seq::<char>::empty() =~= result@);
    result
}

} // verus!

verus! {

/// The position of the first `c` in `s`, or the length of `s`.
pub open spec fn find_char(s: Seq<char>, c: char) -> nat
    decreases s.len(),
{
    if s.len() == 0 {
        0
    } else if s[0] == c {
        0
    } else {
        1 + find_char(s.drop_first(), c)
    }
}

proof fn lemma_find_char(s: Seq<char>, c: char, k: int)
    requires
        0 <= k <= s.len(),
        forall|j: int| 0 <= j < k ==> s[j] != c,
        k == s.len() || s[k] == c,
    ensures
        find_char(s, c) == k,
    decreases k,
{
    if k > 0 {
        lemma_find_char(s.drop_first(), c, k - 1);
    }
}

/// One path segment applied to the segments kept so far: it is normalised,
/// then `.` is dropped, `..` removes the last kept segment, and anything
/// else is kept.
pub open spec fn collapse_step(stack: Seq<Seq<char>>, raw: Seq<char>) -> Seq<Seq<char>> {
    let t = norm_term(raw);
    if t == seq!['.'] {
        stack
    } else if t == seq!['.', '.'] {
        if stack.len() > 0 {
            stack.drop_last()
        } else {
            stack
        }
    } else {
        stack.push(t)
    }
}

/// The segments of a path after `.` and `..` are applied in order.
pub open spec fn collapse(segs: Seq<Seq<char>>) -> Seq<Seq<char>>
    decreases segs.len(),
{
    if segs.len() == 0 {
        Seq::empty()
    } else {
        collapse_step(collapse(segs.drop_last()), segs.last())
    }
}

/// A query parameter: the name before the first `=`, and the value after
/// it when there is one.
pub open spec fn param_of(piece: Seq<char>) -> (Seq<char>, Option<Seq<char>>) {
    let e = find_char(piece, '=');
    if e < piece.len() {
        (piece.subrange(0, e as int), Some(piece.subrange(e as int + 1, piece.len() as int)))
    } else {
        (piece, None)
    }
}

/// A parameter added to the list: a name seen before keeps its place and
/// takes the new value; a new name goes at the end.
pub open spec fn param_insert(
    ps: Seq<(Seq<char>, Option<Seq<char>>)>,
    p: (Seq<char>, Option<Seq<char>>),
) -> Seq<(Seq<char>, Option<Seq<char>>)> {
    if exists|i: int| 0 <= i < ps.len() && (#[trigger] ps[i]).0 == p.0 {
        let i = choose|i: int| 0 <= i < ps.len() && (#[trigger] ps[i]).0 == p.0;
        ps.update(i, p)
    } else {
        ps.push(p)
    }
}

pub open spec fn params_of(pieces: Seq<Seq<char>>) -> Seq<(Seq<char>, Option<Seq<char>>)>
    decreases pieces.len(),
{
    if pieces.len() == 0 {
        Seq::empty()
    } else {
        param_insert(params_of(pieces.drop_last()), param_of(pieces.last()))
    }
}

pub open spec fn keys_distinct(ps: Seq<(Seq<char>, Option<Seq<char>>)>) -> bool {
    forall|i: int, j: int|
        0 <= i < ps.len() && 0 <= j < ps.len() && i != j ==> (#[trigger] ps[i]).0 != (#[trigger] ps[j]).0
}

/// `/` before each segment.
pub open spec fn render_path(stack: Seq<Seq<char>>) -> Seq<char>
    decreases stack.len(),
{
    if stack.len() == 0 {
        Seq::empty()
    } else {
        render_path(stack.drop_last()) + seq!['/'] + stack.last()
    }
}

pub open spec fn param_text(p: (Seq<char>, Option<Seq<char>>)) -> Seq<char> {
    match p.1 {
        Some(v) => p.0 + seq!['='] + v,
        None => p.0,
    }
}

/// The parameters joined by `&`.
pub open spec fn join_params(ps: Seq<(Seq<char>, Option<Seq<char>>)>) -> Seq<char>
    decreases ps.len(),
{
    if ps.len() == 0 {
        Seq::empty()
    } else if ps.len() == 1 {
        param_text(ps[0])
    } else {
        join_params(ps.drop_last()) + seq!['&'] + param_text(ps.last())
    }
}

/// Where the path ends: at the first `?` before the fragment.
pub open spec fn path_end(s: Seq<char>) -> nat {
    find_char(s.subrange(0, find_char(s, '#') as int), '?')
}

/// The raw segments of the path: what follows its first character, split
/// on `/`.  An empty path has none.
pub open spec fn path_segments(s: Seq<char>) -> Seq<Seq<char>> {
    let pe = path_end(s);
    if pe == 0 {
        Seq::empty()
    } else {
        split(s.subrange(1, pe as int), '/')
    }
}

/// The text between the first `?` and the fragment, if there is a `?`.
pub open spec fn uri_query(s: Seq<char>) -> Option<Seq<char>> {
    let qe = find_char(s, '#');
    let pe = path_end(s);
    if pe < qe {
        Some(s.subrange(pe as int + 1, qe as int))
    } else {
        None
    }
}

/// The text after the first `#`.
pub open spec fn uri_fragment(s: Seq<char>) -> Seq<char> {
    let qe = find_char(s, '#');
    if qe < s.len() {
        s.subrange(qe as int + 1, s.len() as int)
    } else {
        Seq::empty()
    }
}

/// The normalised form of a URI: the collapsed path, the parameters in the
/// order their names first appeared, and the fragment if it is not empty.
pub open spec fn normalized_uri(s: Seq<char>) -> Seq<char> {
    let path = render_path(collapse(path_segments(s)));
    let query = match uri_query(s) {
        Some(q) => seq!['?'] + join_params(params_of(split(q, '&'))),
        None => Seq::empty(),
    };
    let frag = uri_fragment(s);
    path + query + if frag.len() > 0 {
        seq!['#'] + frag
    } else {
        Seq::empty()
    }
}

pub open spec fn param_view(p: (String, Option<String>)) -> (Seq<char>, Option<Seq<char>>) {
    (
        p.0@,
        match p.1 {
            Some(v) => Some(v@),
            None => None,
        },
    )
}

pub open spec fn params_view(v: Seq<(String, Option<String>)>) -> Seq<(Seq<char>, Option<Seq<char>>)> {
    v.map_values(|p: (String, Option<String>)| param_view(p))
}

fn find_from(cs: &Vec<char>, lo: usize, hi: usize, c: char) -> (r: usize)
    requires
        lo <= hi <= cs@.len(),
    ensures
        lo <= r <= hi,
        r - lo == find_char(cs@.subrange(lo as int, hi as int), c),
{
    let mut i = lo;
    while i < hi && cs[i] != c
        invariant
            lo <= i <= hi <= cs@.len(),
            forall|j: int| lo <= j < i ==> cs@[j] != c,
        decreases hi - i,
    {
        i = i + 1;
    }
    proof {
        lemma_find_char(cs@.subrange(lo as int, hi as int), c, i - lo);
    }
    i
}

fn is_dots(t: &str, n: usize) -> (r: bool)
    requires
        n == 1 || n == 2,
    ensures
        r == ((n == 1 && t@ == seq!['.']) || (n == 2 && t@ == seq!['.', '.'])),
{
    let len = t.unicode_len();
    if len != n {
        return false;
    }
    let mut i: usize = 0;
    while i < n
        invariant
            i <= n,
            len == t@.len(),
            n == len,
            forall|j: int| 0 <= j < i ==> t@[j] == '.',
        decreases n - i,
    {
        if t.get_char(i) != '.' {
            return false;
        }
        i = i + 1;
    }
    proof {
        if n == 1 {
            assert(t@ =~= seq!['.']);
        } else {
            assert(t@ =~= seq!['.', '.']);
        }
    }
    true
}

fn apply_segment(stack: &mut Vec<String>, raw: &Vec<char>)
    requires
        raw@.len() < usize::MAX - 3,
    ensures
        strs(final(stack)@) == collapse_step(strs(old(stack)@), raw@),
{
    let t = normalize_term(string_of(raw, 0, raw.len()));
    assert(raw@.subrange(0, raw@.len() as int) =~= raw@);
    if is_dots(t.as_str(), 1) {
        assert(t@ == seq!['.']);
        assert(norm_term(raw@) == seq!['.']);
    } else if is_dots(t.as_str(), 2) {
        assert(t@ != seq!['.']);
        if stack.len() > 0 {
            stack.pop();
            assert(strs(stack@) =~= strs(old(stack)@).drop_last());
        }
        assert(seq!['.', '.'].len() == 2);
        assert(strs(stack@) == collapse_step(strs(old(stack)@), raw@));
    } else {
        let ghost tv = t@;
        stack.push(t);
        assert(strs(stack@) =~= strs(old(stack)@).push(tv));
        assert(strs(stack@) == collapse_step(strs(old(stack)@), raw@));
    }
}

fn param_from(piece: &Vec<char>) -> (r: (String, Option<String>))
    ensures
        param_view(r) == param_of(piece@),
{
    let n = piece.len();
    let e = find_from(piece, 0, n, '=');
    assert(piece@.subrange(0, n as int) =~= piece@);
    if e < n {
        let k = string_of(piece, 0, e);
        let v = string_of(piece, e + 1, n);
        (k, Some(v))
    } else {
        (string_of(piece, 0, n), None)
    }
}

fn insert_param(ps: &mut Vec<(String, Option<String>)>, p: (String, Option<String>))
    requires
        keys_distinct(params_view(old(ps)@)),
    ensures
        keys_distinct(params_view(final(ps)@)),
        params_view(final(ps)@) == param_insert(params_view(old(ps)@), param_view(p)),
{
    let ghost pv = params_view(ps@);
    let mut i: usize = 0;
    while i < ps.len()
        invariant
            i <= ps@.len(),
            ps@ == old(ps)@,
            pv == params_view(ps@),
            keys_distinct(pv),
            forall|j: int| 0 <= j < i ==> (#[trigger] pv[j]).0 != p.0@,
        decreases ps@.len() - i,
    {
        if ps[i].0 == p.0 {
            assert(pv[i as int].0 == param_view(p).0);
            let ghost c = choose|k: int| 0 <= k < pv.len() && (#[trigger] pv[k]).0 == param_view(p).0;
            assert(c == i as int) by {
                if c != i as int {
                    assert(pv[c].0 == pv[i as int].0);
                }
            }
            ps.set(i, p);
            let ghost nv = params_view(ps@);
            assert(nv =~= pv.update(i as int, param_view(p)));
            assert forall|a: int, b: int| 0 <= a < nv.len() && 0 <= b < nv.len() && a != b implies
                (#[trigger] nv[a]).0 != (#[trigger] nv[b]).0 by {
                assert(nv[a].0 == pv[a].0 && nv[b].0 == pv[b].0);
            }
            return;
        }
        i = i + 1;
    }
    ps.push(p);
    let ghost nv = params_view(ps@);
    assert(nv =~= pv.push(param_view(p)));
    assert forall|a: int, b: int| 0 <= a < nv.len() && 0 <= b < nv.len() && a != b implies
        (#[trigger] nv[a]).0 != (#[trigger] nv[b]).0 by {
        if a == pv.len() {
            assert(pv[b].0 != p.0@);
        } else if b == pv.len() {
            assert(pv[a].0 != p.0@);
        }
    }
}

fn render_param(out: &mut String, p: &(String, Option<String>))
    ensures
        final(out)@ == old(out)@ + param_text(param_view(*p)),
{
    push_str(out, p.0.as_str());
    match &p.1 {
        Some(v) => {
            push_char(out, '=');
            push_str(out, v.as_str());
            assert(final(out)@ =~= old(out)@ + (p.0@ + seq!['='] + v@));
        },
        None => {},
    }
}

/// The collapsed segments of the path `cs[1..pe]`, or none when `pe` is 0.
fn collapse_path(cs: &Vec<char>, pe: usize) -> (stack: Vec<String>)
    requires
        pe <= cs@.len() < usize::MAX - 3,
    ensures
        strs(stack@) == (if pe == 0 {
            Seq::empty()
        } else {
            collapse(split(cs@.subrange(1, pe as int), '/'))
        }),
{
    let ghost s = cs@;
    let mut stack: Vec<String> = Vec::new();
    if pe == 0 {
        assert(strs(stack@) =~= Seq::<Seq<char>>::empty());
        return stack;
    }
    let ghost mut done: Seq<Seq<char>> = Seq::empty();
    let mut cur: Vec<char> = Vec::new();
    let mut i: usize = 1;
    assert(s.subrange(1, 1) =~= Seq::<char>::empty());
    assert(strs(stack@) =~= Seq::<Seq<char>>::empty());
    while i < pe
        invariant
            1 <= i <= pe <= s.len(),
            s == cs@,
            s.len() < usize::MAX - 3,
            cur@.len() <= i,
            split(s.subrange(1, i as int), '/') == done.push(cur@),
            strs(stack@) == collapse(done),
        decreases pe - i,
    {
        let ghost prefix = s.subrange(1, i as int);
        assert(s.subrange(1, i + 1).drop_last() =~= prefix);
        let ghost old_cur = cur@;
        if cs[i] == '/' {
            apply_segment(&mut stack, &cur);
            proof {
                let d2 = done.push(old_cur);
                assert(d2.drop_last() =~= done);
                done = d2;
            }
            cur = Vec::new();
        } else {
            cur.push(cs[i]);
            assert(done.push(old_cur).update(done.len() as int, old_cur.push(cs@[i as int]))
                =~= done.push(cur@));
        }
        i = i + 1;
    }
    apply_segment(&mut stack, &cur);
    assert(done.push(cur@).drop_last() =~= done);
    stack
}

/// The parameters of the query `cs[lo..hi]`, split on `&`.
fn collect_params(cs: &Vec<char>, lo: usize, hi: usize) -> (ps: Vec<(String, Option<String>)>)
    requires
        lo <= hi <= cs@.len(),
    ensures
        params_view(ps@) == params_of(split(cs@.subrange(lo as int, hi as int), '&')),
{
    let ghost s = cs@;
    let mut ps: Vec<(String, Option<String>)> = Vec::new();
    let ghost mut done: Seq<Seq<char>> = Seq::empty();
    let mut cur: Vec<char> = Vec::new();
    let mut i: usize = lo;
    assert(s.subrange(lo as int, lo as int) =~= Seq::<char>::empty());
    assert(params_view(ps@) =~= Seq::<(Seq<char>, Option<Seq<char>>)>::empty());
    while i < hi
        invariant
            lo <= i <= hi <= s.len(),
            s == cs@,
            split(s.subrange(lo as int, i as int), '&') == done.push(cur@),
            params_view(ps@) == params_of(done),
            keys_distinct(params_view(ps@)),
        decreases hi - i,
    {
        assert(s.subrange(lo as int, i + 1).drop_last() =~= s.subrange(lo as int, i as int));
        let ghost old_cur = cur@;
        if cs[i] == '&' {
            let p = param_from(&cur);
            insert_param(&mut ps, p);
            proof {
                let d2 = done.push(old_cur);
                assert(d2.drop_last() =~= done);
                done = d2;
            }
            cur = Vec::new();
        } else {
            cur.push(cs[i]);
            assert(done.push(old_cur).update(done.len() as int, old_cur.push(cs@[i as int]))
                =~= done.push(cur@));
        }
        i = i + 1;
    }
    let p = param_from(&cur);
    insert_param(&mut ps, p);
    assert(done.push(cur@).drop_last() =~= done);
    ps
}

fn render_segments(stack: &Vec<String>) -> (r: String)
    ensures
        r@ == render_path(strs(stack@)),
{
    let mut result = String::new();
    let mut k: usize = 0;
    assert(strs(stack@.subrange(0, 0)) =~= Seq::<Seq<char>>::empty());
    while k < stack.len()
        invariant
            k <= stack@.len(),
            result@ == render_path(strs(stack@.subrange(0, k as int))),
        decreases stack@.len() - k,
    {
        push_char(&mut result, '/');
        push_str(&mut result, stack[k].as_str());
        let ghost next = strs(stack@.subrange(0, k + 1));
        assert(next.drop_last() =~= strs(stack@.subrange(0, k as int)));
        assert(next.last() == stack@[k as int]@);
        k = k + 1;
    }
    assert(stack@.subrange(0, stack@.len() as int) =~= stack@);
    result
}

fn render_params(ps: &Vec<(String, Option<String>)>) -> (r: String)
    ensures
        r@ == join_params(params_view(ps@)),
{
    let mut result = String::new();
    let mut k: usize = 0;
    assert(params_view(ps@.subrange(0, 0)) =~= Seq::<(Seq<char>, Option<Seq<char>>)>::empty());
    while k < ps.len()
        invariant
            k <= ps@.len(),
            result@ == join_params(params_view(ps@.subrange(0, k as int))),
        decreases ps@.len() - k,
    {
        let ghost before = result@;
        if k > 0 {
            push_char(&mut result, '&');
        }
        render_param(&mut result, &ps[k]);
        let ghost next = params_view(ps@.subrange(0, k + 1));
        assert(next.drop_last() =~= params_view(ps@.subrange(0, k as int)));
        assert(next.last() == param_view(ps@[k as int]));
        if k == 0 {
            assert(before =~= Seq::<char>::empty());
            assert(result@ =~= param_text(next[0]));
        }
        k = k + 1;
    }
    assert(ps@.subrange(0, ps@.len() as int) =~= ps@);
    result
}

/// Normalises a URI: the path is split on `/`, each segment normalised
/// with [`normalize_term`], `.` dropped and `..` applied; the query keeps
/// one entry per name, in the order the names first appear; the fragment
/// is kept as it is.
pub fn normalized(source: String) -> (r: String)
    requires
        source@.len() < usize::MAX - 3,
    ensures
        r@ == normalized_uri(source@),
{
    let cs = chars_of(source.as_str());
    let ghost s = cs@;
    let n = cs.len();
    assert(s.subrange(0, n as int) =~= s);
    let qe = find_from(&cs, 0, n, '#');
    let pe = find_from(&cs, 0, qe, '?');
    assert(pe == path_end(s));
    let stack = collapse_path(&cs, pe);
    let mut result = render_segments(&stack);
    let ghost path = result@;
    if pe < qe {
        let ps = collect_params(&cs, pe + 1, qe);
        push_char(&mut result, '?');
        let q = render_params(&ps);
        push_str(&mut result, q.as_str());
        assert(result@ =~= path + (seq!['?'] + join_params(params_of(split(s.subrange(pe + 1, qe as int), '&')))));
    }
    let ghost with_query = result@;
    if qe + 1 < n {
        push_char(&mut result, '#');
        let f = string_of(&cs, qe + 1, n);
        push_str(&mut result, f.as_str());
        assert(result@ =~= with_query + (seq!['#'] + uri_fragment(s)));
    } else {
        assert(uri_fragment(s).len() == 0);
        assert(result@ =~= with_query + Seq::<char>::empty());
    }
    result
}

} // verus!

verus! {

proof fn lemma_dotdot_is_kept()
    ensures
        norm_term(seq!['.', '.']) == seq!['.', '.'],
{
    let s = seq!['.', '.'];
    assert(utf8('.') =~= seq![0x2eu8]);
    assert(term_step(s, 1) == Some((seq!['.'], 2int)));
    assert(norm_from(s, 2) == Some(Seq::<char>::empty()));
    assert(norm_from(s, 1) == Some(seq!['.'] + Seq::<char>::empty()));
    assert(seq!['.'] + Seq::<char>::empty() =~= seq!['.']);
    assert(term_step(s, 0) == Some((seq!['.'], 1int)));
    assert(seq!['.'] + seq!['.'] =~= s);
}

/// Path collapsing drops a segment that normalises to `.`, lets one that
/// normalises to `..` remove the segment kept before it, and so a segment
/// followed by `..` leaves no trace.
pub proof fn lemma_dot_segments(segs: Seq<Seq<char>>, t: Seq<char>)
    ensures
        norm_term(t) == seq!['.'] ==> collapse(segs.push(t)) == collapse(segs),
        norm_term(t) == seq!['.', '.'] ==> collapse(segs.push(t)) == (if collapse(segs).len() > 0 {
            collapse(segs).drop_last()
        } else {
            collapse(segs)
        }),
        norm_term(t) != seq!['.'] && norm_term(t) != seq!['.', '.'] ==> collapse(
            segs.push(t).push(seq!['.', '.']),
        ) == collapse(segs),
{
    assert(segs.push(t).drop_last() =~= segs);
    let longer = segs.push(t).push(seq!['.', '.']);
    assert(longer.drop_last() =~= segs.push(t));
    lemma_dotdot_is_kept();
    assert(seq!['.', '.'] != seq!['.']) by {
        assert(seq!['.', '.'].len() != seq!['.'].len());
    }
    if norm_term(t) != seq!['.'] && norm_term(t) != seq!['.', '.'] {
        assert(collapse(segs.push(t)) == collapse(segs).push(norm_term(t)));
        assert(collapse(segs).push(norm_term(t)).drop_last() =~= collapse(segs));
    }
}

} // verus!

verus! {

proof fn lemma_hex_roundtrip(d: u8)
    requires
        d < 16,
    ensures
        hex_value(hex_char(d)) == Some(d),
        hex_char(d) != '%',
{
    if d < 10 {
        assert(((48 + d) as u8 as char) as u32 == (48 + d) as u32);
    } else {
        assert(((55 + d) as u8 as char) as u32 == (55 + d) as u32);
    }
}

/// Reading at a position past a prefix reads what the rest holds there.
proof fn lemma_shift_pct_at(x: Seq<char>, y: Seq<char>, p: int, first: bool)
    requires
        p >= 0,
    ensures
        pct_at(x + y, x.len() + p, first) == match pct_at(y, p, first) {
            Some((b, q)) => Some((b, x.len() + q)),
            None => None,
        },
{
    let s = x + y;
    let n = x.len() as int;
    let q = if first { p + 1 } else { p };
    if first && 0 <= p < y.len() {
        assert(s[n + p] == y[p]);
    }
    if 0 <= q && q + 2 <= y.len() {
        assert(s[n + q] == y[q]);
        assert(s[n + q + 1] == y[q + 1]);
    }
}

proof fn lemma_shift_group(x: Seq<char>, y: Seq<char>, i: int)
    requires
        i >= 0,
    ensures
        pct_group(x + y, x.len() + i) == match pct_group(y, i) {
            Some((bs, q)) => Some((bs, x.len() + q)),
            None => None,
        },
{
    let n = x.len() as int;
    lemma_shift_pct_at(x, y, i + 1, false);
    match pct_at(y, i + 1, false) {
        Some((b0, p1)) => {
            lemma_shift_pct_at(x, y, p1, true);
            match pct_at(y, p1, true) {
                Some((b1, p2)) => {
                    lemma_shift_pct_at(x, y, p2, true);
                    match pct_at(y, p2, true) {
                        Some((b2, p3)) => {
                            lemma_shift_pct_at(x, y, p3, true);
                        },
                        None => {},
                    }
                },
                None => {},
            }
        },
        None => {},
    }
}

proof fn lemma_shift_step(x: Seq<char>, y: Seq<char>, i: int)
    requires
        0 <= i < y.len(),
    ensures
        term_step(x + y, x.len() + i) == match term_step(y, i) {
            Some((o, q)) => Some((o, x.len() + q)),
            None => None,
        },
{
    assert((x + y)[x.len() + i] == y[i]);
    lemma_shift_group(x, y, i);
}

/// Normalising past a prefix normalises what follows it.
proof fn lemma_shift_norm(x: Seq<char>, y: Seq<char>, i: int)
    requires
        0 <= i <= y.len(),
    ensures
        norm_from(x + y, x.len() + i) == norm_from(y, i),
    decreases y.len() - i,
{
    if i < y.len() {
        lemma_shift_step(x, y, i);
        match term_step(y, i) {
            Some((o, q)) => {
                if q > i && q <= y.len() {
                    lemma_shift_norm(x, y, q);
                } else if q > y.len() {
                    assert(norm_from(y, q) == Some(Seq::<char>::empty()));
                    assert(norm_from(x + y, x.len() + q) == Some(Seq::<char>::empty()));
                }
            },
            None => {},
        }
    }
}

} // verus!

verus! {

/// How many `%XX` continuations a lead byte announces.
pub open spec fn extra(b0: u8) -> nat {
    if b0 < 192 {
        0
    } else if b0 < 224 {
        1
    } else if b0 < 240 {
        2
    } else {
        3
    }
}

proof fn lemma_pct_all_index(bs: Seq<u8>, k: int)
    requires
        0 <= k < bs.len(),
    ensures
        pct_all(bs).len() == 3 * bs.len(),
        pct_all(bs)[3 * k] == '%',
        pct_all(bs)[3 * k + 1] == hex_char(bs[k] / 16),
        pct_all(bs)[3 * k + 2] == hex_char(bs[k] % 16),
    decreases bs.len(),
{
    lemma_pct_all_len(bs);
    let init = bs.drop_last();
    lemma_pct_all_len(init);
    if k < bs.len() - 1 {
        lemma_pct_all_index(init, k);
    }
}

proof fn lemma_pct_all_len(bs: Seq<u8>)
    ensures
        pct_all(bs).len() == 3 * bs.len(),
    decreases bs.len(),
{
    if bs.len() > 0 {
        lemma_pct_all_len(bs.drop_last());
    }
}

proof fn lemma_read_back(bs: Seq<u8>, rest: Seq<char>, k: int)
    requires
        0 <= k < bs.len(),
    ensures
        pct_at(pct_all(bs) + rest, 3 * k + 1, false) == Some((bs[k], 3 * k + 3)),
        pct_at(pct_all(bs) + rest, 3 * k, true) == Some((bs[k], 3 * k + 3)),
{
    let s = pct_all(bs) + rest;
    lemma_pct_all_index(bs, k);
    let b = bs[k];
    lemma_hex_roundtrip(b / 16);
    lemma_hex_roundtrip(b % 16);
    assert(s[3 * k] == '%');
    assert(s[3 * k + 1] == hex_char(b / 16));
    assert(s[3 * k + 2] == hex_char(b % 16));
    assert(((b / 16) * 16 + b % 16) as u8 == b);
}

/// A percent-encoded group reads back as the same bytes.
proof fn lemma_pct_token(bs: Seq<u8>, rest: Seq<char>)
    requires
        bs.len() >= 1,
        bs.len() == 1 + extra(bs[0]),
        bs[0] <= 247,
        !is_unreserved(bs[0]),
    ensures
        term_step(pct_all(bs) + rest, 0) == Some((pct_all(bs), pct_all(bs).len() as int)),
{
    let s = pct_all(bs) + rest;
    lemma_pct_all_index(bs, 0);
    lemma_read_back(bs, rest, 0);
    if bs.len() >= 2 {
        lemma_read_back(bs, rest, 1);
    }
    if bs.len() >= 3 {
        lemma_read_back(bs, rest, 2);
    }
    if bs.len() >= 4 {
        lemma_read_back(bs, rest, 3);
    }
    let g = pct_group(s, 0);
    if bs.len() == 1 {
        assert(g == Some((seq![bs[0]], 3int)));
        assert(seq![bs[0]] =~= bs);
    } else if bs.len() == 2 {
        assert(g == Some((seq![bs[0], bs[1]], 6int)));
        assert(seq![bs[0], bs[1]] =~= bs);
    } else if bs.len() == 3 {
        assert(g == Some((seq![bs[0], bs[1], bs[2]], 9int)));
        assert(seq![bs[0], bs[1], bs[2]] =~= bs);
    } else {
        assert(g == Some((seq![bs[0], bs[1], bs[2], bs[3]], 12int)));
        assert(seq![bs[0], bs[1], bs[2], bs[3]] =~= bs);
    }
}

/// An unreserved character reads back as itself.
proof fn lemma_char_token(b: u8, rest: Seq<char>)
    requires
        is_unreserved(b),
    ensures
        term_step(seq![b as char] + rest, 0) == Some((seq![b as char], 1int)),
{
    let s = seq![b as char] + rest;
    assert(s[0] == b as char);
    assert((b as char) as u32 == b as u32);
    assert(utf8(b as char) =~= seq![b]);
}

proof fn lemma_utf8_shape(c: char)
    ensures
        utf8(c).len() == 1 + extra(utf8(c)[0]),
        utf8(c)[0] <= 247,
{
    let v = c as u32;
    assert(v <= 0x10FFFF);
}

proof fn lemma_group_shape(s: Seq<char>, i: int)
    requires
        pct_group(s, i) is Some,
    ensures
        ({
            let bs = (pct_group(s, i)->0).0;
            bs.len() >= 1 && bs.len() == 1 + extra(bs[0])
        }),
{
}

proof fn lemma_norm_output(s: Seq<char>, i: int)
    requires
        i >= 0,
        norm_from(s, i) is Some,
    ensures
        norm_from(norm_from(s, i)->0, 0) == norm_from(s, i),
    decreases s.len() - i,
{
    if i >= s.len() {
        return;
    }
    let (out, next) = term_step(s, i)->0;
    lemma_norm_output(s, next);
    let o2 = norm_from(s, next)->0;
    let bs = if s[i] == '%' { (pct_group(s, i)->0).0 } else { utf8(s[i]) };
    if s[i] == '%' {
        lemma_group_shape(s, i);
    } else {
        lemma_utf8_shape(s[i]);
    }
    if is_unreserved(bs[0]) {
        lemma_char_token(bs[0], o2);
    } else {
        lemma_pct_token(bs, o2);
    }
    lemma_shift_norm(out, o2, 0);
    assert(out + o2 == norm_from(s, i)->0);
}

/// Normalising the percent-encoding of a term twice gives the same as once.
pub proof fn lemma_norm_term_idempotent(t: Seq<char>)
    ensures
        norm_term(norm_term(t)) == norm_term(t),
{
    if norm_from(t, 0) is Some {
        lemma_norm_output(t, 0);
    } else {
        assert(norm_from(Seq::<char>::empty(), 0) == Some(Seq::<char>::empty()));
    }
}

} // verus!

verus! {

pub open spec fn lacks(s: Seq<char>, c: char) -> bool {
    forall|j: int| 0 <= j < s.len() ==> s[j] != c
}

proof fn lemma_find_char_props(s: Seq<char>, c: char)
    ensures
        find_char(s, c) <= s.len(),
        forall|j: int| 0 <= j < find_char(s, c) ==> s[j] != c,
        find_char(s, c) == s.len() || s[find_char(s, c) as int] == c,
    decreases s.len(),
{
    if s.len() > 0 && s[0] != c {
        lemma_find_char_props(s.drop_first(), c);
        assert forall|j: int| 0 <= j < find_char(s, c) implies s[j] != c by {
            if j > 0 {
                assert(s[j] == s.drop_first()[j - 1]);
            }
        }
    }
}

/// Finding a character past a prefix that lacks it.
proof fn lemma_find_concat(a: Seq<char>, b: Seq<char>, c: char)
    requires
        lacks(a, c),
    ensures
        find_char(a + b, c) == a.len() + find_char(b, c),
{
    lemma_find_char_props(b, c);
    let k: int = a.len() as int + find_char(b, c) as int;
    let s = a + b;
    assert forall|j: int| 0 <= j < k implies s[j] != c by {
        if j >= a.len() {
            assert(s[j] == b[j - a.len()]);
        }
    }
    if k < s.len() {
        assert(s[k] == b[find_char(b, c) as int]);
    }
    lemma_find_char(s, c, k);
}

proof fn lemma_find_absent(a: Seq<char>, c: char)
    requires
        lacks(a, c),
    ensures
        find_char(a, c) == a.len(),
{
    lemma_find_char(a, c, a.len() as int);
}

/// Splitting a text with more text that lacks the separator extends the
/// last piece.
proof fn lemma_split_extend(x: Seq<char>, y: Seq<char>, sep: char)
    requires
        lacks(y, sep),
    ensures
        split(x + y, sep) == split(x, sep).update(split(x, sep).len() - 1, split(x, sep).last() + y),
    decreases y.len(),
{
    crate::text::lemma_split_len(x, sep);
    if y.len() == 0 {
        assert(x + y =~= x);
        assert(split(x, sep).last() + y =~= split(x, sep).last());
        assert(split(x, sep).update(split(x, sep).len() - 1, split(x, sep).last()) =~= split(x, sep));
    } else {
        let y0 = y.drop_last();
        lemma_split_extend(x, y0, sep);
        assert((x + y).drop_last() =~= x + y0);
        assert((x + y).last() == y.last());
        let p = split(x, sep);
        assert(y.last() != sep);
        let prev = p.update(p.len() - 1, p.last() + y0);
        assert(prev.len() == p.len());
        assert(prev.last() == p.last() + y0);
        assert((p.last() + y0).push(y.last()) =~= p.last() + y);
        assert(prev.update(prev.len() - 1, prev.last().push(y.last())) =~= p.update(p.len() - 1, p.last() + y));
    }
}

/// A separator then text without it adds one piece.
proof fn lemma_split_sep_then(x: Seq<char>, y: Seq<char>, sep: char)
    requires
        lacks(y, sep),
    ensures
        split(x + seq![sep] + y, sep) == split(x, sep).push(y),
{
    let xs = x + seq![sep];
    assert(xs.drop_last() =~= x);
    lemma_split_extend(xs, y, sep);
    let p = split(x, sep).push(Seq::<char>::empty());
    assert(split(xs, sep) == p);
    assert(p.update(p.len() - 1, p.last() + y) =~= split(x, sep).push(y));
}

proof fn lemma_split_single(y: Seq<char>, sep: char)
    requires
        lacks(y, sep),
    ensures
        split(y, sep) == seq![y],
{
    lemma_split_extend(Seq::<char>::empty(), y, sep);
    assert(Seq::<char>::empty() + y =~= y);
    assert(seq![Seq::<char>::empty()].update(0, Seq::<char>::empty() + y) =~= seq![y]);
}

/// Rendering segments without `/` and splitting the result gives them back.
proof fn lemma_render_split(st: Seq<Seq<char>>)
    requires
        st.len() > 0,
        forall|i: int| 0 <= i < st.len() ==> lacks(#[trigger] st[i], '/'),
    ensures
        render_path(st).len() > 0,
        render_path(st)[0] == '/',
        split(render_path(st).drop_first(), '/') == st,
    decreases st.len(),
{
    let init = st.drop_last();
    if st.len() == 1 {
        assert(render_path(init) =~= Seq::<char>::empty());
        assert(render_path(st) =~= seq!['/'] + st[0]);
        assert(render_path(st).drop_first() =~= st[0]);
        lemma_split_single(st[0], '/');
        assert(seq![st[0]] =~= st);
    } else {
        assert forall|i: int| 0 <= i < init.len() implies lacks(#[trigger] init[i], '/') by {
            assert(init[i] == st[i]);
        }
        lemma_render_split(init);
        let r = render_path(init);
        assert(render_path(st).drop_first() =~= r.drop_first() + seq!['/'] + st.last());
        lemma_split_sep_then(r.drop_first(), st.last(), '/');
        assert(split(r.drop_first(), '/').push(st.last()) =~= st);
    }
}

} // verus!

verus! {

/// The characters a normalised term is made of: `%` and the unreserved
/// characters (hexadecimal digits among them).
pub open spec fn url_char(c: char) -> bool {
    let v = c as u32;
    c == '%' || (0x41 <= v <= 0x5a) || (0x61 <= v <= 0x7a) || (0x30 <= v <= 0x39) || v == 0x2d || v == 0x2e || v
        == 0x5f || v == 0x7e
}

pub open spec fn all_url(s: Seq<char>) -> bool {
    forall|j: int| 0 <= j < s.len() ==> url_char(#[trigger] s[j])
}

proof fn lemma_hex_char_url(d: u8)
    requires
        d < 16,
    ensures
        url_char(hex_char(d)),
{
    if d < 10 {
        assert(((48 + d) as u8 as char) as u32 == (48 + d) as u32);
    } else {
        assert(((55 + d) as u8 as char) as u32 == (55 + d) as u32);
    }
}

proof fn lemma_pct_all_url(bs: Seq<u8>)
    ensures
        all_url(pct_all(bs)),
{
    lemma_pct_all_len(bs);
    let o = pct_all(bs);
    assert forall|j: int| 0 <= j < o.len() implies url_char(#[trigger] o[j]) by {
        let k = j / 3;
        lemma_pct_all_index(bs, k);
        lemma_hex_char_url(bs[k] / 16);
        lemma_hex_char_url(bs[k] % 16);
        assert(j == 3 * k || j == 3 * k + 1 || j == 3 * k + 2);
    }
}

proof fn lemma_norm_chars(s: Seq<char>, i: int)
    requires
        i >= 0,
        norm_from(s, i) is Some,
    ensures
        all_url(norm_from(s, i)->0),
    decreases s.len() - i,
{
    if i >= s.len() {
        return;
    }
    let (out, next) = term_step(s, i)->0;
    lemma_norm_chars(s, next);
    let o2 = norm_from(s, next)->0;
    let bs = if s[i] == '%' { (pct_group(s, i)->0).0 } else { utf8(s[i]) };
    if s[i] == '%' {
        lemma_group_shape(s, i);
    } else {
        lemma_utf8_shape(s[i]);
    }
    if is_unreserved(bs[0]) {
        assert((bs[0] as char) as u32 == bs[0] as u32);
        assert(all_url(out));
    } else {
        lemma_pct_all_url(bs);
    }
    let o = out + o2;
    assert forall|j: int| 0 <= j < o.len() implies url_char(#[trigger] o[j]) by {
        if j < out.len() {
            assert(o[j] == out[j]);
        } else {
            assert(o[j] == o2[j - out.len()]);
        }
    }
}

/// A segment that collapsing keeps: normalised, not `.` or `..`, and made
/// of URL characters.
pub open spec fn kept_segment(e: Seq<char>) -> bool {
    &&& norm_term(e) == e
    &&& e != seq!['.']
    &&& e != seq!['.', '.']
    &&& all_url(e)
}

proof fn lemma_collapse_kept(segs: Seq<Seq<char>>)
    ensures
        forall|i: int| 0 <= i < collapse(segs).len() ==> kept_segment(#[trigger] collapse(segs)[i]),
    decreases segs.len(),
{
    if segs.len() > 0 {
        let init = segs.drop_last();
        lemma_collapse_kept(init);
        let st = collapse(init);
        let t = norm_term(segs.last());
        lemma_norm_term_idempotent(segs.last());
        if norm_from(segs.last(), 0) is Some {
            lemma_norm_chars(segs.last(), 0);
        }
        let r = collapse(segs);
        assert forall|i: int| 0 <= i < r.len() implies kept_segment(#[trigger] r[i]) by {
            if i < st.len() {
                assert(r[i] == st[i]);
            } else {
                assert(r[i] == t);
            }
        }
    }
}

proof fn lemma_collapse_fixed(st: Seq<Seq<char>>)
    requires
        forall|i: int| 0 <= i < st.len() ==> kept_segment(#[trigger] st[i]),
    ensures
        collapse(st) == st,
    decreases st.len(),
{
    if st.len() > 0 {
        let init = st.drop_last();
        assert forall|i: int| 0 <= i < init.len() implies kept_segment(#[trigger] init[i]) by {
            assert(init[i] == st[i]);
        }
        lemma_collapse_fixed(init);
        assert(kept_segment(st.last()));
        assert(init.push(st.last()) =~= st);
    }
}

} // verus!

verus! {

proof fn lemma_split_pieces(x: Seq<char>, sep: char, c: char)
    ensures
        forall|i: int| 0 <= i < split(x, sep).len() ==> lacks(#[trigger] split(x, sep)[i], sep),
        lacks(x, c) ==> forall|i: int| 0 <= i < split(x, sep).len() ==> lacks(#[trigger] split(x, sep)[i], c),
    decreases x.len(),
{
    if x.len() > 0 {
        let x0 = x.drop_last();
        lemma_split_pieces(x0, sep, c);
        crate::text::lemma_split_len(x0, sep);
        let p = split(x0, sep);
        let r = split(x, sep);
        if lacks(x, c) {
            assert(lacks(x0, c)) by {
                assert forall|j: int| 0 <= j < x0.len() implies x0[j] != c by {
                    assert(x0[j] == x[j]);
                }
            }
        }
        assert forall|i: int| 0 <= i < r.len() implies lacks(#[trigger] r[i], sep) && (lacks(x, c) ==> lacks(r[i], c)) by {
            if i < p.len() - 1 || (i == p.len() - 1 && x.last() == sep) {
                assert(r[i] == p[i]);
            } else if i == p.len() {
                assert(r[i] == Seq::<char>::empty());
            } else {
                let e = p[i].push(x.last());
                assert(r[i] == e);
                assert forall|j: int| 0 <= j < e.len() implies e[j] != sep && (lacks(x, c) ==> e[j] != c) by {
                    if j < p[i].len() {
                        assert(e[j] == p[i][j]);
                    }
                }
            }
        }
    }
}

/// A parameter that reads back from its own text: a name without `=`, and
/// name and value without `&` or `#`.
pub open spec fn good_param(p: (Seq<char>, Option<Seq<char>>)) -> bool {
    &&& lacks(p.0, '=')
    &&& lacks(p.0, '&')
    &&& lacks(p.0, '#')
    &&& match p.1 {
        Some(v) => lacks(v, '&') && lacks(v, '#'),
        None => true,
    }
}

proof fn lemma_subrange_lacks(s: Seq<char>, a: int, b: int, c: char)
    requires
        0 <= a <= b <= s.len(),
        lacks(s, c),
    ensures
        lacks(s.subrange(a, b), c),
{
    assert forall|j: int| 0 <= j < b - a implies s.subrange(a, b)[j] != c by {
        assert(s.subrange(a, b)[j] == s[a + j]);
    }
}

proof fn lemma_param_of_good(piece: Seq<char>)
    requires
        lacks(piece, '&'),
        lacks(piece, '#'),
    ensures
        good_param(param_of(piece)),
{
    lemma_find_char_props(piece, '=');
    let e = find_char(piece, '=') as int;
    lemma_subrange_lacks(piece, 0, e, '&');
    lemma_subrange_lacks(piece, 0, e, '#');
    if e < piece.len() {
        lemma_subrange_lacks(piece, e + 1, piece.len() as int, '&');
        lemma_subrange_lacks(piece, e + 1, piece.len() as int, '#');
        assert forall|j: int| 0 <= j < e implies piece.subrange(0, e)[j] != '=' by {
            assert(piece.subrange(0, e)[j] == piece[j]);
        }
    }
}

proof fn lemma_params_good(pieces: Seq<Seq<char>>)
    requires
        forall|i: int| 0 <= i < pieces.len() ==> lacks(#[trigger] pieces[i], '&') && lacks(pieces[i], '#'),
    ensures
        keys_distinct(params_of(pieces)),
        forall|i: int| 0 <= i < params_of(pieces).len() ==> good_param(#[trigger] params_of(pieces)[i]),
    decreases pieces.len(),
{
    if pieces.len() > 0 {
        let init = pieces.drop_last();
        assert forall|i: int| 0 <= i < init.len() implies lacks(#[trigger] init[i], '&') && lacks(init[i], '#') by {
            assert(init[i] == pieces[i]);
        }
        lemma_params_good(init);
        let ps = params_of(init);
        let p = param_of(pieces.last());
        lemma_param_of_good(pieces.last());
        let r = params_of(pieces);
        if exists|i: int| 0 <= i < ps.len() && (#[trigger] ps[i]).0 == p.0 {
            let k = choose|i: int| 0 <= i < ps.len() && (#[trigger] ps[i]).0 == p.0;
            assert(r == ps.update(k, p));
            assert forall|i: int| 0 <= i < r.len() implies good_param(#[trigger] r[i]) by {
                if i != k {
                    assert(r[i] == ps[i]);
                }
            }
            assert forall|a: int, b: int| 0 <= a < r.len() && 0 <= b < r.len() && a != b implies (#[trigger] r[a]).0
                != (#[trigger] r[b]).0 by {
                assert(r[a].0 == ps[a].0 && r[b].0 == ps[b].0);
            }
        } else {
            assert(r == ps.push(p));
            assert forall|i: int| 0 <= i < r.len() implies good_param(#[trigger] r[i]) by {
                if i < ps.len() {
                    assert(r[i] == ps[i]);
                }
            }
            assert forall|a: int, b: int| 0 <= a < r.len() && 0 <= b < r.len() && a != b implies (#[trigger] r[a]).0
                != (#[trigger] r[b]).0 by {
                if a < ps.len() && b < ps.len() {
                    assert(r[a] == ps[a] && r[b] == ps[b]);
                } else if a < ps.len() {
                    assert(r[a] == ps[a]);
                } else {
                    assert(r[b] == ps[b]);
                }
            }
        }
    }
}

proof fn lemma_text_lacks(p: (Seq<char>, Option<Seq<char>>), c: char)
    requires
        good_param(p),
        c == '&' || c == '#',
    ensures
        lacks(param_text(p), c),
{
    match p.1 {
        Some(v) => {
            let t = p.0 + seq!['='] + v;
            assert forall|j: int| 0 <= j < t.len() implies t[j] != c by {
                if j < p.0.len() {
                    assert(t[j] == p.0[j]);
                } else if j == p.0.len() {
                    assert(t[j] == '=');
                } else {
                    assert(t[j] == v[j - p.0.len() - 1]);
                }
            }
        },
        None => {},
    }
}

proof fn lemma_param_roundtrip(p: (Seq<char>, Option<Seq<char>>))
    requires
        good_param(p),
    ensures
        param_of(param_text(p)) == p,
{
    match p.1 {
        Some(v) => {
            let t = p.0 + seq!['='] + v;
            assert(t =~= p.0 + (seq!['='] + v));
            lemma_find_concat(p.0, seq!['='] + v, '=');
            assert(find_char(seq!['='] + v, '=') == 0);
            assert(t.subrange(0, p.0.len() as int) =~= p.0);
            assert(t.subrange(p.0.len() as int + 1, t.len() as int) =~= v);
        },
        None => {
            lemma_find_absent(p.0, '=');
        },
    }
}

proof fn lemma_join_split(ps: Seq<(Seq<char>, Option<Seq<char>>)>)
    requires
        ps.len() > 0,
        forall|i: int| 0 <= i < ps.len() ==> good_param(#[trigger] ps[i]),
    ensures
        split(join_params(ps), '&') == ps.map_values(|p: (Seq<char>, Option<Seq<char>>)| param_text(p)),
    decreases ps.len(),
{
    let init = ps.drop_last();
    lemma_text_lacks(ps.last(), '&');
    if ps.len() == 1 {
        lemma_split_single(param_text(ps[0]), '&');
        assert(seq![param_text(ps[0])] =~= ps.map_values(|p: (Seq<char>, Option<Seq<char>>)| param_text(p)));
    } else {
        assert forall|i: int| 0 <= i < init.len() implies good_param(#[trigger] init[i]) by {
            assert(init[i] == ps[i]);
        }
        lemma_join_split(init);
        lemma_split_sep_then(join_params(init), param_text(ps.last()), '&');
        assert(init.map_values(|p: (Seq<char>, Option<Seq<char>>)| param_text(p)).push(param_text(ps.last()))
            =~= ps.map_values(|p: (Seq<char>, Option<Seq<char>>)| param_text(p)));
    }
}

proof fn lemma_params_roundtrip(ps: Seq<(Seq<char>, Option<Seq<char>>)>)
    requires
        keys_distinct(ps),
        forall|i: int| 0 <= i < ps.len() ==> good_param(#[trigger] ps[i]),
    ensures
        params_of(ps.map_values(|p: (Seq<char>, Option<Seq<char>>)| param_text(p))) == ps,
    decreases ps.len(),
{
    let texts = ps.map_values(|p: (Seq<char>, Option<Seq<char>>)| param_text(p));
    if ps.len() == 0 {
        assert(texts.len() == 0);
    } else {
        let init = ps.drop_last();
        assert forall|i: int| 0 <= i < init.len() implies good_param(#[trigger] init[i]) by {
            assert(init[i] == ps[i]);
        }
        assert(keys_distinct(init)) by {
            assert forall|a: int, b: int| 0 <= a < init.len() && 0 <= b < init.len() && a != b implies (#[trigger] init[a]).0
                != (#[trigger] init[b]).0 by {
                assert(init[a] == ps[a] && init[b] == ps[b]);
            }
        }
        lemma_params_roundtrip(init);
        assert(texts.drop_last() =~= init.map_values(|p: (Seq<char>, Option<Seq<char>>)| param_text(p)));
        lemma_param_roundtrip(ps.last());
        assert(!exists|i: int| 0 <= i < init.len() && (#[trigger] init[i]).0 == ps.last().0) by {
            assert forall|i: int| 0 <= i < init.len() implies (#[trigger] init[i]).0 != ps.last().0 by {
                assert(init[i] == ps[i]);
            }
        }
        assert(init.push(ps.last()) =~= ps);
    }
}

} // verus!

verus! {

proof fn lemma_render_lacks(st: Seq<Seq<char>>, c: char)
    requires
        forall|i: int| 0 <= i < st.len() ==> all_url(#[trigger] st[i]),
        !url_char(c),
        c != '/',
    ensures
        lacks(render_path(st), c),
    decreases st.len(),
{
    if st.len() > 0 {
        let init = st.drop_last();
        assert forall|i: int| 0 <= i < init.len() implies all_url(#[trigger] init[i]) by {
            assert(init[i] == st[i]);
        }
        lemma_render_lacks(init, c);
        let r = render_path(init);
        let e = st.last();
        assert(all_url(e));
        let t = r + seq!['/'] + e;
        assert forall|j: int| 0 <= j < t.len() implies t[j] != c by {
            if j < r.len() {
                assert(t[j] == r[j]);
            } else if j == r.len() {
                assert(t[j] == '/');
            } else {
                assert(t[j] == e[j - r.len() - 1]);
                assert(url_char(e[j - r.len() - 1]));
            }
        }
    }
}

proof fn lemma_join_lacks(ps: Seq<(Seq<char>, Option<Seq<char>>)>)
    requires
        forall|i: int| 0 <= i < ps.len() ==> good_param(#[trigger] ps[i]),
    ensures
        lacks(join_params(ps), '#'),
    decreases ps.len(),
{
    if ps.len() > 0 {
        let init = ps.drop_last();
        assert forall|i: int| 0 <= i < init.len() implies good_param(#[trigger] init[i]) by {
            assert(init[i] == ps[i]);
        }
        lemma_join_lacks(init);
        lemma_text_lacks(ps.last(), '#');
        if ps.len() == 1 {
            lemma_text_lacks(ps[0], '#');
        } else {
            let a = join_params(init);
            let b = param_text(ps.last());
            let t = a + seq!['&'] + b;
            assert forall|j: int| 0 <= j < t.len() implies t[j] != '#' by {
                if j < a.len() {
                    assert(t[j] == a[j]);
                } else if j == a.len() {
                    assert(t[j] == '&');
                } else {
                    assert(t[j] == b[j - a.len() - 1]);
                }
            }
        }
    }
}

proof fn lemma_params_nonempty(pieces: Seq<Seq<char>>)
    requires
        pieces.len() > 0,
    ensures
        params_of(pieces).len() > 0,
    decreases pieces.len(),
{
    if pieces.len() > 1 {
        lemma_params_nonempty(pieces.drop_last());
    }
}

/// Normalising a URI twice gives the same as normalising it once.
pub proof fn lemma_normalize_idempotent(s: Seq<char>)
    ensures
        normalized_uri(normalized_uri(s)) == normalized_uri(s),
{
    let st = collapse(path_segments(s));
    let p = render_path(st);
    lemma_collapse_kept(path_segments(s));
    assert forall|i: int| 0 <= i < st.len() implies all_url(#[trigger] st[i]) && lacks(st[i], '/') by {
        assert(kept_segment(st[i]));
        assert forall|j: int| 0 <= j < st[i].len() implies st[i][j] != '/' by {
            assert(url_char(st[i][j]));
        }
    }
    lemma_render_lacks(st, '?');
    lemma_render_lacks(st, '#');
    // the query as written
    let qe = find_char(s, '#');
    lemma_find_char_props(s, '#');
    let q_text = match uri_query(s) {
        Some(q) => seq!['?'] + join_params(params_of(split(q, '&'))),
        None => Seq::<char>::empty(),
    };
    match uri_query(s) {
        Some(q) => {
            let pe = path_end(s);
            lemma_find_char_props(s.subrange(0, qe as int), '?');
            assert(lacks(q, '#')) by {
                assert forall|j: int| 0 <= j < q.len() implies q[j] != '#' by {
                    assert(q[j] == s[pe + 1 + j]);
                }
            }
            lemma_split_pieces(q, '&', '#');
            let pieces = split(q, '&');
            lemma_params_good(pieces);
            crate::text::lemma_split_len(q, '&');
            lemma_params_nonempty(pieces);
            let ps = params_of(pieces);
            lemma_join_lacks(ps);
            lemma_join_split(ps);
            lemma_params_roundtrip(ps);
            assert(lacks(q_text, '#')) by {
                assert forall|j: int| 0 <= j < q_text.len() implies q_text[j] != '#' by {
                    if j > 0 {
                        assert(q_text[j] == join_params(ps)[j - 1]);
                    }
                }
            }
        },
        None => {},
    }
    let frag = uri_fragment(s);
    let f_text = if frag.len() > 0 { seq!['#'] + frag } else { Seq::<char>::empty() };
    let o = p + q_text + f_text;
    assert(o == normalized_uri(s));
    // where the fragment starts in the output
    let pq = p + q_text;
    assert(lacks(pq, '#')) by {
        assert forall|j: int| 0 <= j < pq.len() implies pq[j] != '#' by {
            if j < p.len() {
                assert(pq[j] == p[j]);
            } else {
                assert(pq[j] == q_text[j - p.len()]);
            }
        }
    }
    lemma_find_concat(pq, f_text, '#');
    if f_text.len() > 0 {
        assert(find_char(f_text, '#') == 0);
    } else {
        lemma_find_absent(f_text, '#');
    }
    let qe_o = find_char(o, '#');
    assert(qe_o == pq.len());
    assert(o.subrange(0, qe_o as int) =~= pq);
    // where the path ends in the output
    lemma_find_concat(p, q_text, '?');
    if q_text.len() > 0 {
        assert(find_char(q_text, '?') == 0);
    } else {
        lemma_find_absent(q_text, '?');
    }
    assert(path_end(o) == p.len());
    // the path reads back
    if p.len() == 0 {
        if st.len() > 0 {
            lemma_render_split(st);
        }
        assert(st.len() == 0);
        assert(collapse(path_segments(o)) == st);
    } else {
        if st.len() == 0 {
            assert(render_path(st).len() == 0);
        }
        lemma_render_split(st);
        assert(o.subrange(1, p.len() as int) =~= p.drop_first());
        lemma_collapse_fixed(st);
        assert(collapse(path_segments(o)) == st);
    }
    // the query reads back
    match uri_query(s) {
        Some(q) => {
            let ps = params_of(split(q, '&'));
            assert(o.subrange(p.len() as int + 1, qe_o as int) =~= join_params(ps));
            assert(uri_query(o) == Some(join_params(ps)));
        },
        None => {
            assert(uri_query(o) is None);
        },
    }
    // the fragment reads back
    if f_text.len() > 0 {
        assert(o.subrange(qe_o as int + 1, o.len() as int) =~= frag);
    } else {
        assert(qe_o == o.len());
    }
    assert(uri_fragment(o) == frag);
}

} // verus!

//! HTTP/1.x heads: lines decoded from bytes, the request and response
//! lines, header lines, and the head written back out.
use vstd::prelude::*;
use vstd::string::*;
use crate::nocase::{HeaderMap, NoCaseStr, headers_insert};
use crate::text::{chars_of, push_char, push_str, split, split_str, str_eq, string_of, strs};
use crate::uri::{normalized, normalized_uri};

verus! {

/// The characters that `str::trim` removes from ASCII text.
pub open spec fn is_space(c: char) -> bool {
    c == ' ' || c == '\t' || c == '\n' || c == '\r' || c == '\x0B' || c == '\x0C'
}

pub open spec fn trim_start(s: Seq<char>) -> Seq<char>
    decreases s.len(),
{
    if s.len() > 0 && is_space(s[0]) {
        trim_start(s.drop_first())
    } else {
        s
    }
}

pub open spec fn trim_end(s: Seq<char>) -> Seq<char>
    decreases s.len(),
{
    if s.len() > 0 && is_space(s.last()) {
        trim_end(s.drop_last())
    } else {
        s
    }
}

/// `s` without leading and trailing white space.
pub open spec fn trim(s: Seq<char>) -> Seq<char> {
    trim_end(trim_start(s))
}

proof fn lemma_trim_start(s: Seq<char>, lo: int)
    requires
        0 <= lo <= s.len(),
        forall|j: int| 0 <= j < lo ==> is_space(s[j]),
        lo == s.len() || !is_space(s[lo]),
    ensures
        trim_start(s) == s.subrange(lo, s.len() as int),
    decreases lo,
{
    if lo > 0 {
        assert forall|j: int| 0 <= j < lo - 1 implies is_space(s.drop_first()[j]) by {
            assert(s.drop_first()[j] == s[j + 1]);
        }
        lemma_trim_start(s.drop_first(), lo - 1);
        assert(s.drop_first().subrange(lo - 1, s.len() - 1) =~= s.subrange(lo, s.len() as int));
    } else {
        assert(s.subrange(0, s.len() as int) =~= s);
    }
}

proof fn lemma_trim_end(s: Seq<char>, hi: int)
    requires
        0 <= hi <= s.len(),
        forall|j: int| hi <= j < s.len() ==> is_space(s[j]),
        hi == 0 || !is_space(s[hi - 1]),
    ensures
        trim_end(s) == s.subrange(0, hi),
    decreases s.len() - hi,
{
    if hi < s.len() {
        lemma_trim_end(s.drop_last(), hi);
        assert(s.drop_last().subrange(0, hi) =~= s.subrange(0, hi));
    } else {
        assert(s.subrange(0, hi) =~= s);
    }
}

/// Trims white space from both ends of `s`.
pub fn trim_str(s: &str) -> (r: String)
    ensures
        r@ == trim(s@),
{
    let cs = chars_of(s);
    let n = cs.len();
    let mut lo: usize = 0;
    while lo < n && (cs[lo] == ' ' || cs[lo] == '\t' || cs[lo] == '\n' || cs[lo] == '\r' || cs[lo] == '\x0B'
        || cs[lo] == '\x0C')
        invariant
            lo <= n,
            n == cs@.len(),
            forall|j: int| 0 <= j < lo ==> is_space(cs@[j]),
        decreases n - lo,
    {
        lo = lo + 1;
    }
    let mut hi: usize = n;
    while hi > lo && (cs[hi - 1] == ' ' || cs[hi - 1] == '\t' || cs[hi - 1] == '\n' || cs[hi - 1] == '\r'
        || cs[hi - 1] == '\x0B' || cs[hi - 1] == '\x0C')
        invariant
            lo <= hi <= n,
            n == cs@.len(),
            forall|j: int| hi <= j < n ==> is_space(cs@[j]),
        decreases hi - lo,
    {
        hi = hi - 1;
    }
    proof {
        lemma_trim_start(cs@, lo as int);
        let t = cs@.subrange(lo as int, n as int);
        assert forall|j: int| hi - lo <= j < t.len() implies is_space(t[j]) by {
            assert(t[j] == cs@[lo + j]);
        }
        if hi > lo {
            assert(t[hi - lo - 1] == cs@[hi - 1]);
        }
        lemma_trim_end(t, hi - lo);
        assert(t.subrange(0, hi - lo) =~= cs@.subrange(lo as int, hi as int));
    }
    string_of(&cs, lo, hi)
}

/// The text of some bytes: ASCII bytes as characters; other bytes, the
/// pieces of multi-byte sequences, are dropped.
pub open spec fn ascii_text(b: Seq<u8>) -> Seq<char>
    decreases b.len(),
{
    if b.len() == 0 {
        Seq::empty()
    } else {
        let p = ascii_text(b.drop_last());
        if b.last() < 128 {
            p.push(b.last() as char)
        } else {
            p
        }
    }
}

/// The position of the first `x` in `b`, or the length of `b`.
pub open spec fn find_byte(b: Seq<u8>, x: u8) -> nat
    decreases b.len(),
{
    if b.len() == 0 {
        0
    } else if b[0] == x {
        0
    } else {
        1 + find_byte(b.drop_first(), x)
    }
}

proof fn lemma_find_byte(b: Seq<u8>, x: u8, k: int)
    requires
        0 <= k <= b.len(),
        forall|j: int| 0 <= j < k ==> b[j] != x,
        k == b.len() || b[k] == x,
    ensures
        find_byte(b, x) == k,
    decreases k,
{
    if k > 0 {
        lemma_find_byte(b.drop_first(), x, k - 1);
    }
}

/// The line that starts at `pos`, up to the next line feed, and the
/// position after that line feed; `None` while no line feed has arrived.
pub open spec fn line_at(b: Seq<u8>, pos: int) -> Option<(Seq<char>, int)> {
    if pos < 0 || pos > b.len() {
        None
    } else {
        let rest = b.subrange(pos, b.len() as int);
        let e = find_byte(rest, 10);
        if e < rest.len() {
            Some((ascii_text(rest.subrange(0, e as int)), pos + e + 1))
        } else {
            None
        }
    }
}

/// Reads the line that starts at `pos`; see [`line_at`].
pub fn read_line(buf: &[u8], pos: usize) -> (r: Option<(String, usize)>)
    requires
        pos <= buf@.len(),
    ensures
        match line_at(buf@, pos as int) {
            Some((l, next)) => r matches Some((s, n)) && s@ == l && n == next,
            None => r is None,
        },
{
    let ghost rest = buf@.subrange(pos as int, buf@.len() as int);
    let mut line = String::new();
    let mut i: usize = pos;
    assert(rest.subrange(0, 0) =~= Seq::<u8>::empty());
    while i < buf.len() && buf[i] != 10
        invariant
            pos <= i <= buf@.len(),
            rest == buf@.subrange(pos as int, buf@.len() as int),
            forall|j: int| pos <= j < i ==> buf@[j] != 10,
            line@ == ascii_text(rest.subrange(0, i - pos)),
        decreases buf@.len() - i,
    {
        assert(rest.subrange(0, i + 1 - pos).drop_last() =~= rest.subrange(0, i - pos));
        assert(rest[i - pos] == buf@[i as int]);
        if buf[i] < 128 {
            push_char(&mut line, buf[i] as char);
        }
        i = i + 1;
    }
    proof {
        lemma_find_byte(rest, 10, i - pos);
    }
    if i < buf.len() {
        Some((line, i + 1))
    } else {
        None
    }
}

/// Whether `": "` starts at `j`.
pub open spec fn colon_sp_at(t: Seq<char>, j: int) -> bool {
    0 <= j && j + 1 < t.len() && t[j] == ':' && t[j + 1] == ' '
}

/// Where a header line splits: the first `": "`, or the length.
pub open spec fn colon_at(t: Seq<char>) -> nat
    decreases t.len(),
{
    if t.len() < 2 {
        t.len()
    } else if t[0] == ':' && t[1] == ' ' {
        0
    } else {
        1 + colon_at(t.drop_first())
    }
}

proof fn lemma_colon_at(t: Seq<char>, k: int)
    requires
        0 <= k <= t.len(),
        forall|j: int| 0 <= j < k ==> !#[trigger] colon_sp_at(t, j),
        k == t.len() || colon_sp_at(t, k),
    ensures
        colon_at(t) == k || (k == t.len() && colon_at(t) == t.len()),
    decreases k,
{
    if t.len() < 2 {
        if k < t.len() {
            assert(false);
        }
    } else if k > 0 {
        assert(!colon_sp_at(t, 0));
        assert forall|j: int| 0 <= j < k - 1 implies !#[trigger] colon_sp_at(t.drop_first(), j) by {
            assert(!colon_sp_at(t, j + 1));
        }
        if k < t.len() {
            assert(t.drop_first()[k - 1] == t[k]);
        }
        lemma_colon_at(t.drop_first(), k - 1);
    }
}

/// A header line split at its first `": "`; `None` when it has none.
pub open spec fn header_of(t: Seq<char>) -> Option<(Seq<char>, Seq<char>)> {
    let i = colon_at(t);
    if i < t.len() {
        Some((t.subrange(0, i as int), t.subrange(i as int + 2, t.len() as int)))
    } else {
        None
    }
}

fn header_split(t: &str) -> (r: Option<(String, String)>)
    ensures
        match header_of(t@) {
            Some((k, v)) => r matches Some((a, b)) && a@ == k && b@ == v,
            None => r is None,
        },
{
    let cs = chars_of(t);
    let n = cs.len();
    let mut i: usize = 0;
    while n >= 2 && i < n - 1 && !(cs[i] == ':' && cs[i + 1] == ' ')
        invariant
            i <= n,
            n == cs@.len(),
            forall|j: int| 0 <= j < i ==> !#[trigger] colon_sp_at(cs@, j),
        decreases n - i,
    {
        i = i + 1;
    }
    if n >= 2 && i < n - 1 {
        proof {
            lemma_colon_at(cs@, i as int);
        }
        Some((string_of(&cs, 0, i), string_of(&cs, i + 2, n)))
    } else {
        proof {
            assert forall|j: int| 0 <= j < n implies !#[trigger] colon_sp_at(cs@, j) by {
                if j >= i {
                    assert(j + 1 >= n);
                }
            }
            lemma_colon_at(cs@, n as int);
        }
        None
    }
}

/// Header lines from `pos` on, added to `hs`, up to the first blank line;
/// with the position after it.  `None` while the blank line has not
/// arrived.  A line without `": "` is skipped.
pub open spec fn parse_headers(
    b: Seq<u8>,
    pos: int,
    hs: Seq<(Seq<char>, Seq<char>)>,
) -> Option<(Seq<(Seq<char>, Seq<char>)>, int)>
    decreases b.len() - pos,
{
    match line_at(b, pos) {
        None => None,
        Some((l, next)) => {
            let t = trim(l);
            if t.len() == 0 {
                Some((hs, next))
            } else if next <= pos {
                None
            } else {
                let hs2 = match header_of(t) {
                    Some((k, v)) => headers_insert(hs, k, v),
                    None => hs,
                };
                parse_headers(b, next, hs2)
            }
        },
    }
}

fn read_header_lines(buf: &[u8], pos: usize, headers: &mut HeaderMap) -> (r: Option<usize>)
    requires
        pos <= buf@.len(),
        old(headers).wf(),
    ensures
        final(headers).wf(),
        match parse_headers(buf@, pos as int, old(headers)@) {
            Some((hs, end)) => r == Some(end as usize) && final(headers)@ == hs,
            None => r is None,
        },
    decreases buf@.len() - pos,
{
    match read_line(buf, pos) {
        None => None,
        Some((l, next)) => {
            let t = trim_str(l.as_str());
            if t.unicode_len() == 0 {
                return Some(next);
            }
            match header_split(t.as_str()) {
                Some((k, v)) => headers.insert(k.as_str(), v.as_str()),
                None => {},
            }
            read_header_lines(buf, next, headers)
        },
    }
}

pub open spec fn http_word() -> Seq<char> {
    seq!['H', 'T', 'T', 'P']
}

pub open spec fn version_ok(v: Seq<char>) -> bool {
    v == seq!['1', '.', '0'] || v == seq!['1', '.', '1']
}

/// The method, raw URI and version of a request line: three words
/// separated by single spaces, the last `HTTP/1.0` or `HTTP/1.1`.
pub open spec fn request_line(l: Seq<char>) -> Option<(Seq<char>, Seq<char>, Seq<char>)> {
    let p = split(trim(l), ' ');
    if p.len() != 3 {
        None
    } else {
        let pv = split(p[2], '/');
        if pv.len() == 2 && pv[0] == http_word() && version_ok(pv[1]) {
            Some((p[0], p[1], pv[1]))
        } else {
            None
        }
    }
}

/// The value of a string of decimal digits.
pub open spec fn digits_value(s: Seq<char>) -> Option<nat>
    decreases s.len(),
{
    if s.len() == 0 {
        None
    } else if !(48 <= s.last() as u32 <= 57) {
        None
    } else {
        let d = (s.last() as u32 - 48) as nat;
        if s.len() == 1 {
            Some(d)
        } else {
            match digits_value(s.drop_last()) {
                Some(v) => Some(v * 10 + d),
                None => None,
            }
        }
    }
}

/// The version and status code of a response line: a `HTTP/<version>`
/// word, a decimal code, and any reason after them.
pub open spec fn response_line(l: Seq<char>) -> Option<(Seq<char>, u16)> {
    let p = split(trim(l), ' ');
    if p.len() < 2 {
        None
    } else {
        let pv = split(p[0], '/');
        if pv.len() >= 2 && pv[0] == http_word() {
            match digits_value(p[1]) {
                Some(c) => if c <= 65535 {
                    Some((pv[1], c as u16))
                } else {
                    None
                },
                None => None,
            }
        } else {
            None
        }
    }
}

/// The outcome of reading a head from the bytes received so far.
pub enum HeadParse<H> {
    /// More bytes are needed.
    Incomplete,
    /// The first line is not a head this proxy accepts.
    Invalid,
    /// The head, and the number of bytes it took; what follows is body.
    Complete(H, usize),
}

/// A parsed request head.
pub struct RequestHead {
    pub method: NoCaseStr,
    pub uri: String,
    pub version: String,
    pub headers: HeaderMap,
}

/// A parsed response head.
pub struct ResponseHead {
    pub status_line: String,
    pub version: String,
    pub code: u16,
    pub headers: HeaderMap,
}

/// What a request head parses to: the method, the normalised URI, the
/// version, the headers and the length of the head.
pub open spec fn request_spec(b: Seq<u8>) -> HeadParse<(Seq<char>, Seq<char>, Seq<char>, Seq<(Seq<char>, Seq<char>)>)> {
    match line_at(b, 0) {
        None => HeadParse::Incomplete,
        Some((l, next)) => match request_line(l) {
            None => HeadParse::Invalid,
            Some((m, u, v)) => match parse_headers(b, next, Seq::empty()) {
                None => HeadParse::Incomplete,
                Some((hs, end)) => HeadParse::Complete((m, normalized_uri(u), v, hs), end as usize),
            },
        },
    }
}

/// What a response head parses to: the trimmed status line, the version,
/// the code, the headers and the length of the head.
pub open spec fn response_spec(b: Seq<u8>) -> HeadParse<(Seq<char>, Seq<char>, u16, Seq<(Seq<char>, Seq<char>)>)> {
    match line_at(b, 0) {
        None => HeadParse::Incomplete,
        Some((l, next)) => match response_line(l) {
            None => HeadParse::Invalid,
            Some((v, c)) => match parse_headers(b, next, Seq::empty()) {
                None => HeadParse::Incomplete,
                Some((hs, end)) => HeadParse::Complete((trim(l), v, c, hs), end as usize),
            },
        },
    }
}

proof fn lemma_ascii_text_len(b: Seq<u8>)
    ensures
        ascii_text(b).len() <= b.len(),
    decreases b.len(),
{
    if b.len() > 0 {
        lemma_ascii_text_len(b.drop_last());
    }
}

proof fn lemma_split_piece_len(s: Seq<char>, sep: char, k: int)
    requires
        0 <= k < split(s, sep).len(),
    ensures
        split(s, sep)[k].len() <= s.len(),
    decreases s.len(),
{
    if s.len() > 0 {
        let prev = split(s.drop_last(), sep);
        crate::text::lemma_split_len(s.drop_last(), sep);
        if k < prev.len() {
            lemma_split_piece_len(s.drop_last(), sep, k);
        }
        if s.last() != sep && k == prev.len() - 1 {
            lemma_split_piece_len(s.drop_last(), sep, k);
        }
    }
}

proof fn lemma_trim_len(s: Seq<char>)
    ensures
        trim(s).len() <= s.len(),
{
    lemma_trim_start_len(s);
    lemma_trim_end_len(trim_start(s));
}

proof fn lemma_trim_start_len(s: Seq<char>)
    ensures
        trim_start(s).len() <= s.len(),
    decreases s.len(),
{
    if s.len() > 0 && is_space(s[0]) {
        lemma_trim_start_len(s.drop_first());
    }
}

proof fn lemma_trim_end_len(s: Seq<char>)
    ensures
        trim_end(s).len() <= s.len(),
    decreases s.len(),
{
    if s.len() > 0 && is_space(s.last()) {
        lemma_trim_end_len(s.drop_last());
    }
}

fn parse_code(s: &str) -> (r: Option<u16>)
    ensures
        match digits_value(s@) {
            Some(c) => if c <= 65535 { r == Some(c as u16) } else { r is None },
            None => r is None,
        },
{
    let cs = chars_of(s);
    let n = cs.len();
    if n == 0 {
        return None;
    }
    let mut v: u32 = 0;
    let mut i: usize = 0;
    assert(cs@.subrange(0, 0) =~= Seq::<char>::empty());
    while i < n
        invariant
            i <= n,
            n == cs@.len(),
            n > 0,
            i > 0 ==> digits_value(cs@.subrange(0, i as int)) == Some(v as nat),
            i == 0 ==> v == 0,
            cs@ == s@,
            v <= 65535,
        decreases n - i,
    {
        let c = cs[i] as u32;
        assert(cs@.subrange(0, i + 1).drop_last() =~= cs@.subrange(0, i as int));
        assert(cs@.subrange(0, i + 1).last() == cs@[i as int]);
        if c < 48 || c > 57 {
            proof {
                assert(digits_value(cs@.subrange(0, i + 1)) is None);
                lemma_digits_prefix_none(cs@, i as int + 1);
            }
            return None;
        }
        let next = v * 10 + (c - 48);
        if next > 65535 {
            proof {
                assert(i > 0);
                assert(digits_value(cs@.subrange(0, i + 1)) == Some(next as nat));
                lemma_digits_prefix_big(cs@, i as int + 1);
            }
            return None;
        }
        assert(i > 0 ==> digits_value(cs@.subrange(0, i + 1)) == Some(next as nat));
        assert(i == 0 ==> digits_value(cs@.subrange(0, i + 1)) == Some(next as nat));
        v = next;
        i = i + 1;
    }
    assert(cs@.subrange(0, n as int) =~= cs@);
    Some(v as u16)
}

proof fn lemma_digits_prefix_none(s: Seq<char>, k: int)
    requires
        1 <= k <= s.len(),
        digits_value(s.subrange(0, k)) is None,
    ensures
        digits_value(s) is None,
    decreases s.len() - k,
{
    if k < s.len() {
        assert(s.subrange(0, k + 1).drop_last() =~= s.subrange(0, k));
        lemma_digits_prefix_none(s, k + 1);
    } else {
        assert(s.subrange(0, k) =~= s);
    }
}

proof fn lemma_digits_prefix_big(s: Seq<char>, k: int)
    requires
        1 <= k <= s.len(),
        digits_value(s.subrange(0, k)) matches Some(v) && v > 65535,
    ensures
        match digits_value(s) {
            Some(c) => c > 65535,
            None => true,
        },
    decreases s.len() - k,
{
    if k < s.len() {
        assert(s.subrange(0, k + 1).drop_last() =~= s.subrange(0, k));
        if digits_value(s.subrange(0, k + 1)) is None {
            lemma_digits_prefix_none(s, k + 1);
        } else {
            lemma_digits_prefix_big(s, k + 1);
        }
    } else {
        assert(s.subrange(0, k) =~= s);
    }
}

/// Parses a request head from the start of `buf`.
pub fn parse_request_head(buf: &[u8]) -> (r: HeadParse<RequestHead>)
    requires
        buf@.len() < usize::MAX - 3,
    ensures
        match request_spec(buf@) {
            HeadParse::Incomplete => r is Incomplete,
            HeadParse::Invalid => r is Invalid,
            HeadParse::Complete((m, u, v, hs), end) => r matches HeadParse::Complete(h, e) && h.method@ == m
                && h.uri@ == u && h.version@ == v && h.headers@ == hs && h.headers.wf() && e == end,
        },
{
    let (line, next) = match read_line(buf, 0) {
        None => return HeadParse::Incomplete,
        Some(x) => x,
    };
    let t = trim_str(line.as_str());
    let words = split_str(t.as_str(), ' ');
    if words.len() != 3 {
        return HeadParse::Invalid;
    }
    let pv = split_str(words[2].as_str(), '/');
    assert(strs(words@)[2] == words@[2]@);
    proof {
        reveal_strlit("HTTP");
        reveal_strlit("1.0");
        reveal_strlit("1.1");
    }
    if pv.len() != 2 || !str_eq(pv[0].as_str(), "HTTP") || !(str_eq(pv[1].as_str(), "1.0") || str_eq(
        pv[1].as_str(),
        "1.1",
    )) {
        proof {
            crate::text::lemma_split_len(words@[2]@, '/');
        }
        assert(strs(pv@).len() == pv@.len());
        assert(strs(pv@)[0] == pv@[0]@);
        assert("HTTP"@ =~= http_word());
        assert("1.0"@ =~= seq!['1', '.', '0']);
        assert("1.1"@ =~= seq!['1', '.', '1']);
        return HeadParse::Invalid;
    }
    assert(strs(pv@)[0] == pv@[0]@ && strs(pv@)[1] == pv@[1]@);
    assert("HTTP"@ =~= http_word());
    assert("1.0"@ =~= seq!['1', '.', '0']);
    assert("1.1"@ =~= seq!['1', '.', '1']);
    assert(strs(words@)[0] == words@[0]@ && strs(words@)[1] == words@[1]@);
    let mut headers = HeaderMap::new();
    let end = match read_header_lines(buf, next, &mut headers) {
        None => return HeadParse::Incomplete,
        Some(e) => e,
    };
    proof {
        let rest = buf@.subrange(0, buf@.len() as int);
        lemma_ascii_text_len(rest.subrange(0, find_byte(rest, 10) as int));
        lemma_trim_len(line@);
        lemma_split_piece_len(t@, ' ', 1);
    }
    let uri = normalized(words[1].clone());
    HeadParse::Complete(
        RequestHead {
            method: NoCaseStr::new(words[0].as_str()),
            uri,
            version: pv[1].clone(),
            headers,
        },
        end,
    )
}

/// Parses a response head from the start of `buf`.
pub fn parse_response_head(buf: &[u8]) -> (r: HeadParse<ResponseHead>)
    ensures
        match response_spec(buf@) {
            HeadParse::Incomplete => r is Incomplete,
            HeadParse::Invalid => r is Invalid,
            HeadParse::Complete((l, v, c, hs), end) => r matches HeadParse::Complete(h, e) && h.status_line@ == l
                && h.version@ == v && h.code == c && h.headers@ == hs && h.headers.wf() && e == end,
        },
{
    let (line, next) = match read_line(buf, 0) {
        None => return HeadParse::Incomplete,
        Some(x) => x,
    };
    let t = trim_str(line.as_str());
    let words = split_str(t.as_str(), ' ');
    if words.len() < 2 {
        return HeadParse::Invalid;
    }
    let pv = split_str(words[0].as_str(), '/');
    assert(strs(words@)[0] == words@[0]@ && strs(words@)[1] == words@[1]@);
    proof {
        reveal_strlit("HTTP");
    }
    if pv.len() < 2 || !str_eq(pv[0].as_str(), "HTTP") {
        proof {
            crate::text::lemma_split_len(words@[0]@, '/');
        }
        assert(strs(pv@).len() == pv@.len());
        assert(strs(pv@)[0] == pv@[0]@);
        assert("HTTP"@ =~= http_word());
        return HeadParse::Invalid;
    }
    assert(strs(pv@)[0] == pv@[0]@ && strs(pv@)[1] == pv@[1]@);
    assert("HTTP"@ =~= http_word());
    let code = match parse_code(words[1].as_str()) {
        None => return HeadParse::Invalid,
        Some(c) => c,
    };
    let mut headers = HeaderMap::new();
    let end = match read_header_lines(buf, next, &mut headers) {
        None => return HeadParse::Incomplete,
        Some(e) => e,
    };
    HeadParse::Complete(ResponseHead { status_line: t, version: pv[1].clone(), code, headers }, end)
}

} // verus!

verus! {

/// Header lines as written: `name: value` and CRLF for each.
pub open spec fn headers_text(hs: Seq<(Seq<char>, Seq<char>)>) -> Seq<char>
    decreases hs.len(),
{
    if hs.len() == 0 {
        Seq::empty()
    } else {
        headers_text(hs.drop_last()) + hs.last().0 + seq![':', ' '] + hs.last().1 + seq!['\r', '\n']
    }
}

/// A request head as forwarded: the request line with the normalised URI,
/// the headers in order, and a blank line.
pub open spec fn request_head_text(
    method: Seq<char>,
    uri: Seq<char>,
    version: Seq<char>,
    hs: Seq<(Seq<char>, Seq<char>)>,
) -> Seq<char> {
    method + seq![' '] + uri + seq![' '] + http_word() + seq!['/'] + version + seq!['\r', '\n'] + headers_text(hs)
        + seq!['\r', '\n']
}

fn push_crlf(s: &mut String)
    ensures
        final(s)@ == old(s)@ + seq!['\r', '\n'],
{
    push_char(s, '\r');
    push_char(s, '\n');
    assert(final(s)@ =~= old(s)@ + seq!['\r', '\n']);
}

fn push_headers(s: &mut String, headers: &HeaderMap)
    ensures
        final(s)@ == old(s)@ + headers_text(headers@),
{
    let ghost start = s@;
    let mut i: usize = 0;
    assert(headers@.subrange(0, 0) =~= Seq::<(Seq<char>, Seq<char>)>::empty());
    while i < headers.len()
        invariant
            i <= headers@.len(),
            s@ =~= start + headers_text(headers@.subrange(0, i as int)),
        decreases headers@.len() - i,
    {
        let (k, v) = headers.entry(i);
        let ghost before = s@;
        push_str(s, k);
        push_char(s, ':');
        push_char(s, ' ');
        push_str(s, v);
        push_crlf(s);
        let ghost next = headers@.subrange(0, i + 1);
        assert(next.drop_last() =~= headers@.subrange(0, i as int));
        assert(s@ =~= before + next.last().0 + seq![':', ' '] + next.last().1 + seq!['\r', '\n']);
        i = i + 1;
    }
    assert(headers@.subrange(0, headers@.len() as int) =~= headers@);
}

/// Writes a request head back out; see [`request_head_text`].
pub fn serialize_request_head(h: &RequestHead) -> (r: String)
    ensures
        r@ == request_head_text(h.method@, h.uri@, h.version@, h.headers@),
{
    let mut s = String::new();
    push_str(&mut s, h.method.inner_value());
    push_char(&mut s, ' ');
    push_str(&mut s, h.uri.as_str());
    push_char(&mut s, ' ');
    push_char(&mut s, 'H');
    push_char(&mut s, 'T');
    push_char(&mut s, 'T');
    push_char(&mut s, 'P');
    push_char(&mut s, '/');
    push_str(&mut s, h.version.as_str());
    push_crlf(&mut s);
    push_headers(&mut s, &h.headers);
    push_crlf(&mut s);
    assert(s@ =~= request_head_text(h.method@, h.uri@, h.version@, h.headers@));
    s
}

/// Writes a response head back out: the status line, the headers in order,
/// and a blank line.
pub fn serialize_response_head(h: &ResponseHead) -> (r: String)
    ensures
        r@ == h.status_line@ + seq!['\r', '\n'] + headers_text(h.headers@) + seq!['\r', '\n'],
{
    let mut s = String::new();
    push_str(&mut s, h.status_line.as_str());
    push_crlf(&mut s);
    push_headers(&mut s, &h.headers);
    push_crlf(&mut s);
    assert(s@ =~= h.status_line@ + seq!['\r', '\n'] + headers_text(h.headers@) + seq!['\r', '\n']);
    s
}

pub open spec fn digit_char(d: nat) -> char {
    (48 + d) as u8 as char
}

/// The decimal digits of `n`.
pub open spec fn decimal(n: nat) -> Seq<char>
    decreases n,
{
    if n < 10 {
        seq![digit_char(n)]
    } else {
        decimal(n / 10).push(digit_char(n % 10))
    }
}

fn push_decimal(s: &mut String, n: usize)
    ensures
        final(s)@ == old(s)@ + decimal(n as nat),
    decreases n,
{
    if n >= 10 {
        push_decimal(s, n / 10);
    }
    push_char(s, ((n % 10) as u8 + 48) as char);
    assert(final(s)@ =~= old(s)@ + decimal(n as nat));
}

/// Why the proxy answers a client itself instead of forwarding.
#[derive(Clone, Copy, Debug, PartialEq, Eq, Structural)]
pub enum Refusal {
    RouteNotFound,
    ClusterNotFound,
    NoAvailableBackends,
    OutOfMemory,
}

/// The status code and body of a refusal.
pub open spec fn refusal_parts(r: Refusal) -> (Seq<char>, Seq<char>) {
    match r {
        Refusal::RouteNotFound => ("404"@, "Route not found"@),
        Refusal::ClusterNotFound => ("404"@, "Cluster not found"@),
        Refusal::NoAvailableBackends => ("503"@, "No available backends"@),
        Refusal::OutOfMemory => ("503"@, "Out of memory"@),
    }
}

/// A minimal HTTP/1.0 answer: status line, `Connection: close`, the length
/// of the body, a blank line and the body.
pub open spec fn error_text(code: Seq<char>, msg: Seq<char>) -> Seq<char> {
    "HTTP/1.0 "@ + code + "\r\nConnection: close\r\nContent-length: "@ + decimal(msg.len()) + "\r\n\r\n"@ + msg
}

/// The answer sent for a refusal; see [`error_text`].
pub fn refusal_response(r: Refusal) -> (s: String)
    ensures
        s@ == error_text(refusal_parts(r).0, refusal_parts(r).1),
{
    let (code, msg): (&str, &str) = match r {
        Refusal::RouteNotFound => ("404", "Route not found"),
        Refusal::ClusterNotFound => ("404", "Cluster not found"),
        Refusal::NoAvailableBackends => ("503", "No available backends"),
        Refusal::OutOfMemory => ("503", "Out of memory"),
    };
    let mut s = String::new();
    push_str(&mut s, "HTTP/1.0 ");
    push_str(&mut s, code);
    push_str(&mut s, "\r\nConnection: close\r\nContent-length: ");
    push_decimal(&mut s, msg.unicode_len());
    push_str(&mut s, "\r\n\r\n");
    push_str(&mut s, msg);
    assert(s@ =~= error_text(code@, msg@));
    s
}

} // verus!

//! HTTP/1.x messages: the data model and the parse and render rules.
//!
//! A message is a start line (request or response), a sequence of
//! named headers, and an optional body. Parsing turns one received
//! byte buffer into a message; rendering turns a message back into
//! wire text. Both directions are specified over sequences of
//! characters, and rendering a request and parsing it back yields the
//! original message.

use vstd::prelude::*;

verus! {

/// Codec failures: a malformed start line or unknown method, and a
/// status text that does not begin with three digits in range.
#[derive(Debug, PartialEq, Eq, Structural)]
pub enum HttpError {
    ParsingError,
    InvalidStatusCode,
}

/// The two supported protocol versions.
#[derive(Debug, Clone, PartialEq, Copy, Eq, Structural)]
pub enum HttpVersion {
    V10,
    V11,
}

/// The wire spelling of a protocol version.
pub open spec fn version_chars(v: HttpVersion) -> Seq<char> {
    match v {
        HttpVersion::V10 => seq!['H', 'T', 'T', 'P', '/', '1', '.', '0'],
        HttpVersion::V11 => seq!['H', 'T', 'T', 'P', '/', '1', '.', '1'],
    }
}

/// The version named by the first eight characters of a token, if
/// they spell one.
pub open spec fn spec_parse_version(t: Seq<char>) -> Option<HttpVersion> {
    if t.len() >= 8 && t.subrange(0, 8) == version_chars(HttpVersion::V10) {
        Some(HttpVersion::V10)
    } else if t.len() >= 8 && t.subrange(0, 8) == version_chars(HttpVersion::V11) {
        Some(HttpVersion::V11)
    } else {
        None
    }
}

/// Character-for-character equality of two string slices.
pub fn str_eq(a: &str, b: &str) -> (r: bool)
    ensures
        r == (a@ == b@),
{
    let n = a.unicode_len();
    let m = b.unicode_len();
    if n != m {
        return false;
    }
    let mut i: usize = 0;
    while i < n
        invariant
            i <= n,
            n as nat == a@.len(),
            n as nat == b@.len(),
            forall|j: int| 0 <= j < i ==> a@[j] == b@[j],
        decreases n - i,
    {
        if a.get_char(i) != b.get_char(i) {
            return false;
        }
        i = i + 1;
    }
    proof {
        assert(a@ =~= b@);
    }
    true
}

/// Recognize a version token, `None` when it spells neither version.
pub fn parse_version(s: &str) -> (r: Option<HttpVersion>)
    ensures
        r == spec_parse_version(s@),
{
    let n = s.unicode_len();
    if n < 8 {
        return None;
    }
    let c0 = s.get_char(0);
    let c1 = s.get_char(1);
    let c2 = s.get_char(2);
    let c3 = s.get_char(3);
    let c4 = s.get_char(4);
    let c5 = s.get_char(5);
    let c6 = s.get_char(6);
    let c7 = s.get_char(7);
    if c0 == 'H' && c1 == 'T' && c2 == 'T' && c3 == 'P' && c4 == '/' && c5 == '1' && c6 == '.' {
        if c7 == '0' {
            proof {
                assert(s@.subrange(0, 8) =~= version_chars(HttpVersion::V10));
            }
            Some(HttpVersion::V10)
        } else if c7 == '1' {
            proof {
                assert(s@.subrange(0, 8) =~= version_chars(HttpVersion::V11));
                assert(s@.subrange(0, 8) != version_chars(HttpVersion::V10));
            }
            Some(HttpVersion::V11)
        } else {
            proof {
                assert(s@.subrange(0, 8)[7] == c7);
            }
            None
        }
    } else {
        proof {
            if s@.subrange(0, 8) == version_chars(HttpVersion::V10) {
                assert(s@[0] == 'H' && s@[1] == 'T' && s@[2] == 'T' && s@[3] == 'P' && s@[4]
                    == '/' && s@[5] == '1' && s@[6] == '.');
            }
            if s@.subrange(0, 8) == version_chars(HttpVersion::V11) {
                assert(s@[0] == 'H' && s@[1] == 'T' && s@[2] == 'T' && s@[3] == 'P' && s@[4]
                    == '/' && s@[5] == '1' && s@[6] == '.');
            }
        }
        None
    }
}

impl HttpVersion {
    /// Read a version from the start of a token that is known to
    /// spell one.
    pub fn from_str(s: &str) -> (r: HttpVersion)
        requires
            spec_parse_version(s@) is Some,
        ensures
            Some(r) == spec_parse_version(s@),
    {
        match parse_version(s) {
            Some(v) => v,
            None => {
                proof {
                    assert(false);
                }
                HttpVersion::V11
            },
        }
    }
}

/// A response status code, an integer told apart from the status text.
#[derive(Debug, PartialEq, Eq, Structural)]
pub struct StatusCode(pub u16);

/// The code value spelled by the first three characters of a status
/// text, when they are digits and the value lies in 100..=599.
pub open spec fn spec_status_value(s: Seq<char>) -> Option<int> {
    if s.len() >= 3 {
        let a = s[0] as int - 48;
        let b = s[1] as int - 48;
        let c = s[2] as int - 48;
        if 1 <= a <= 5 && 0 <= b <= 9 && 0 <= c <= 9 {
            Some(a * 100 + b * 10 + c)
        } else {
            None
        }
    } else {
        None
    }
}

impl StatusCode {
    pub fn new(code: u16) -> (r: StatusCode)
        ensures
            r == StatusCode(code),
    {
        StatusCode(code)
    }

    /// Parse a status code from the first three characters of the
    /// status text; texts shorter than three characters or with a
    /// value outside 100..=599 are invalid.
    pub fn from_str(s: &String) -> (r: Result<StatusCode, HttpError>)
        ensures
            r == match spec_status_value(s@) {
                Some(v) => Ok::<StatusCode, HttpError>(StatusCode(v as u16)),
                None => Err::<StatusCode, HttpError>(HttpError::InvalidStatusCode),
            },
    {
        let t = s.as_str();
        if t.unicode_len() < 3 {
            return Err(HttpError::InvalidStatusCode);
        }
        let a = t.get_char(0) as u32;
        let b = t.get_char(1) as u32;
        let c = t.get_char(2) as u32;
        if a < 49 || a > 53 || b < 48 || b > 57 || c < 48 || c > 57 {
            return Err(HttpError::InvalidStatusCode);
        }
        let value = (a - 48) * 100 + (b - 48) * 10 + (c - 48);
        Ok(StatusCode(value as u16))
    }
}

/// A request method together with its route, where the method takes
/// one.
#[derive(Debug, Clone, PartialEq, Hash)]
pub enum HttpMethod {
    Get(String),
    Post(String),
    Put(String),
    Delete(String),
    Connect(String),
    Head,
}

/// The spec-level shape of a method: the route as a character
/// sequence.
pub enum MethodModel {
    Get(Seq<char>),
    Post(Seq<char>),
    Put(Seq<char>),
    Delete(Seq<char>),
    Connect(Seq<char>),
    Head,
}

impl View for HttpMethod {
    type V = MethodModel;

    open spec fn view(&self) -> MethodModel {
        match self {
            HttpMethod::Get(r) => MethodModel::Get(r@),
            HttpMethod::Post(r) => MethodModel::Post(r@),
            HttpMethod::Put(r) => MethodModel::Put(r@),
            HttpMethod::Delete(r) => MethodModel::Delete(r@),
            HttpMethod::Connect(r) => MethodModel::Connect(r@),
            HttpMethod::Head => MethodModel::Head,
        }
    }
}

/// The wire spelling of a method name.
pub open spec fn method_token(m: MethodModel) -> Seq<char> {
    match m {
        MethodModel::Get(_) => seq!['G', 'E', 'T'],
        MethodModel::Post(_) => seq!['P', 'O', 'S', 'T'],
        MethodModel::Put(_) => seq!['P', 'U', 'T'],
        MethodModel::Delete(_) => seq!['D', 'E', 'L', 'E', 'T', 'E'],
        MethodModel::Connect(_) => seq!['C', 'O', 'N', 'N', 'E', 'C', 'T'],
        MethodModel::Head => seq!['H', 'E', 'A', 'D'],
    }
}

/// The route carried by a method, `None` for methods without one.
pub open spec fn method_route(m: MethodModel) -> Option<Seq<char>> {
    match m {
        MethodModel::Get(r) => Some(r),
        MethodModel::Post(r) => Some(r),
        MethodModel::Put(r) => Some(r),
        MethodModel::Delete(r) => Some(r),
        MethodModel::Connect(r) => Some(r),
        MethodModel::Head => None,
    }
}

/// A start line: a request's version and method, or a response's
/// version and status text.
#[derive(Debug, Clone, PartialEq)]
pub enum HttpHeader {
    Method(HttpVersion, HttpMethod),
    Status(HttpVersion, String),
}

/// The spec-level shape of a start line.
pub enum StartModel {
    Request(HttpVersion, MethodModel),
    Response(HttpVersion, Seq<char>),
}

impl View for HttpHeader {
    type V = StartModel;

    open spec fn view(&self) -> StartModel {
        match self {
            HttpHeader::Method(v, m) => StartModel::Request(*v, m@),
            HttpHeader::Status(v, s) => StartModel::Response(*v, s@),
        }
    }
}

/// The value bound to `key`: the first entry with that name, as a
/// header lookup sees it.
pub open spec fn lookup(hs: Seq<(Seq<char>, Seq<char>)>, key: Seq<char>) -> Option<Seq<char>>
    decreases hs.len(),
{
    if hs.len() == 0 {
        None
    } else if hs[0].0 == key {
        Some(hs[0].1)
    } else {
        lookup(hs.drop_first(), key)
    }
}

/// The entries after binding `key` to `value`: the first entry with
/// that name is replaced, or a new entry is appended.
pub open spec fn upsert(
    hs: Seq<(Seq<char>, Seq<char>)>,
    key: Seq<char>,
    value: Seq<char>,
) -> Seq<(Seq<char>, Seq<char>)>
    decreases hs.len(),
{
    if hs.len() == 0 {
        seq![(key, value)]
    } else if hs[0].0 == key {
        hs.update(0, (key, value))
    } else {
        seq![hs[0]] + upsert(hs.drop_first(), key, value)
    }
}

/// Looking a key up after binding it finds the new value.
pub proof fn lemma_lookup_upsert(hs: Seq<(Seq<char>, Seq<char>)>, key: Seq<char>, value: Seq<char>)
    ensures
        lookup(upsert(hs, key, value), key) == Some(value),
    decreases hs.len(),
{
    if hs.len() > 0 && hs[0].0 != key {
        lemma_lookup_upsert(hs.drop_first(), key, value);
        assert((seq![hs[0]] + upsert(hs.drop_first(), key, value)).drop_first() =~= upsert(
            hs.drop_first(),
            key,
            value,
        ));
    }
}

/// If the first `i` entries miss the key and entry `i` has it, the
/// lookup finds entry `i`.
proof fn lemma_lookup_at(hs: Seq<(Seq<char>, Seq<char>)>, key: Seq<char>, i: int)
    requires
        0 <= i < hs.len(),
        hs[i].0 == key,
        forall|j: int| 0 <= j < i ==> (#[trigger] hs[j]).0 != key,
    ensures
        lookup(hs, key) == Some(hs[i].1),
    decreases i,
{
    if i > 0 {
        lemma_lookup_at(hs.drop_first(), key, i - 1);
    }
}

/// If no entry has the key, the lookup misses.
proof fn lemma_lookup_none(hs: Seq<(Seq<char>, Seq<char>)>, key: Seq<char>)
    requires
        forall|j: int| 0 <= j < hs.len() ==> (#[trigger] hs[j]).0 != key,
    ensures
        lookup(hs, key) is None,
    decreases hs.len(),
{
    if hs.len() > 0 {
        lemma_lookup_none(hs.drop_first(), key);
    }
}

/// If the first `i` entries miss the key and entry `i` has it, the
/// upsert replaces entry `i` in place.
proof fn lemma_upsert_at(hs: Seq<(Seq<char>, Seq<char>)>, key: Seq<char>, value: Seq<char>, i: int)
    requires
        0 <= i < hs.len(),
        hs[i].0 == key,
        forall|j: int| 0 <= j < i ==> (#[trigger] hs[j]).0 != key,
    ensures
        upsert(hs, key, value) == hs.update(i, (key, value)),
    decreases i,
{
    if i == 0 {
    } else {
        lemma_upsert_at(hs.drop_first(), key, value, i - 1);
        assert(seq![hs[0]] + hs.drop_first().update(i - 1, (key, value)) =~= hs.update(
            i,
            (key, value),
        ));
    }
}

/// If no entry has the key, the upsert appends.
proof fn lemma_upsert_none(hs: Seq<(Seq<char>, Seq<char>)>, key: Seq<char>, value: Seq<char>)
    requires
        forall|j: int| 0 <= j < hs.len() ==> (#[trigger] hs[j]).0 != key,
    ensures
        upsert(hs, key, value) == hs.push((key, value)),
    decreases hs.len(),
{
    if hs.len() == 0 {
        assert(upsert(hs, key, value) =~= hs.push((key, value)));
    } else {
        lemma_upsert_none(hs.drop_first(), key, value);
        assert(seq![hs[0]] + hs.drop_first().push((key, value)) =~= hs.push((key, value)));
    }
}

/// The named headers of a message, in the order they appeared; lookup
/// finds the first entry with the asked-for name.
#[derive(Debug, Clone, PartialEq)]
pub struct HeaderMap {
    entries: Vec<(String, String)>,
}

impl View for HeaderMap {
    type V = Seq<(Seq<char>, Seq<char>)>;

    closed spec fn view(&self) -> Seq<(Seq<char>, Seq<char>)> {
        self.entries@.map_values(|p: (String, String)| (p.0@, p.1@))
    }
}

impl HeaderMap {
    /// An empty header map.
    pub fn new() -> (r: HeaderMap)
        ensures
            r@ =~= Seq::<(Seq<char>, Seq<char>)>::empty(),
    {
        HeaderMap { entries: Vec::new() }
    }

    pub fn len(&self) -> (r: usize)
        ensures
            r == self@.len(),
    {
        self.entries.len()
    }

    /// The name and value of the entry at `i`.
    pub fn entry_at(&self, i: usize) -> (r: (&String, &String))
        requires
            i < self@.len(),
        ensures
            (r.0@, r.1@) == self@[i as int],
    {
        let pair = &self.entries[i];
        (&pair.0, &pair.1)
    }

    /// The value bound to `name`, taking the first entry with that
    /// name.
    pub fn get(&self, name: &str) -> (r: Option<&String>)
        ensures
            match r {
                Some(v) => lookup(self@, name@) == Some(v@),
                None => lookup(self@, name@) is None,
            },
    {
        let mut i: usize = 0;
        let n = self.entries.len();
        while i < n
            invariant
                i <= n,
                n == self@.len(),
                n == self.entries@.len(),
                forall|j: int| 0 <= j < i ==> (#[trigger] self@[j]).0 != name@,
            decreases n - i,
        {
            if str_eq(self.entries[i].0.as_str(), name) {
                proof {
                    assert(self@[i as int].0 == name@);
                    lemma_lookup_at(self@, name@, i as int);
                }
                return Some(&self.entries[i].1);
            }
            proof {
                assert(self@[i as int].0 != name@);
            }
            i = i + 1;
        }
        proof {
            lemma_lookup_none(self@, name@);
        }
        None
    }

    /// True when some entry has the given name.
    pub fn contains_key(&self, name: &str) -> (r: bool)
        ensures
            r == (lookup(self@, name@) is Some),
    {
        match self.get(name) {
            Some(_) => true,
            None => false,
        }
    }

    /// Bind `name` to `value`: replace the first entry with that name,
    /// or append a new one.
    pub fn insert(&mut self, name: String, value: String)
        ensures
            final(self)@ == upsert(old(self)@, name@, value@),
    {
        let mut i: usize = 0;
        let n = self.entries.len();
        while i < n
            invariant
                i <= n,
                n == self@.len(),
                n == self.entries@.len(),
                self@ == old(self)@,
                forall|j: int| 0 <= j < i ==> (#[trigger] self@[j]).0 != name@,
            decreases n - i,
        {
            if str_eq(self.entries[i].0.as_str(), name.as_str()) {
                proof {
                    assert(self@[i as int].0 == name@);
                    lemma_upsert_at(old(self)@, name@, value@, i as int);
                }
                self.entries.set(i, (name, value));
                proof {
                    assert(self@ =~= old(self)@.update(i as int, (name@, value@)));
                }
                return ;
            }
            proof {
                assert(self@[i as int].0 != name@);
            }
            i = i + 1;
        }
        proof {
            lemma_upsert_none(old(self)@, name@, value@);
        }
        self.entries.push((name, value));
        proof {
            assert(self@ =~= old(self)@.push((name@, value@)));
        }
    }

    /// Append an entry without looking for an existing name; the
    /// parser adds entries in wire order with this.
    pub fn push_entry(&mut self, name: String, value: String)
        ensures
            final(self)@ == old(self)@.push((name@, value@)),
    {
        self.entries.push((name, value));
        proof {
            assert(self@ =~= old(self)@.push((name@, value@)));
        }
    }
}

/// The CR LF line terminator.
pub open spec fn crlf() -> Seq<char> {
    seq!['\r', '\n']
}

/// The first position where CR LF occurs.
pub open spec fn find_crlf(s: Seq<char>) -> Option<int>
    decreases s.len(),
{
    if s.len() < 2 {
        None
    } else if s[0] == '\r' && s[1] == '\n' {
        Some(0)
    } else {
        match find_crlf(s.drop_first()) {
            None => None,
            Some(i) => Some(i + 1),
        }
    }
}

/// A CR LF pair stands at position `j`.
pub open spec fn crlf_at(s: Seq<char>, j: int) -> bool {
    s[j] == '\r' && s[j + 1] == '\n'
}

/// `find_crlf` finds the first CR LF pair, and misses only when there
/// is none.
pub proof fn lemma_find_crlf(s: Seq<char>)
    ensures
        match find_crlf(s) {
            Some(i) => 0 <= i && i + 2 <= s.len() && crlf_at(s, i) && forall|j: int|
                0 <= j < i ==> !#[trigger] crlf_at(s, j),
            None => forall|j: int| 0 <= j && j + 2 <= s.len() ==> !#[trigger] crlf_at(s, j),
        },
    decreases s.len(),
{
    if s.len() < 2 {
    } else if s[0] == '\r' && s[1] == '\n' {
    } else {
        let t = s.drop_first();
        lemma_find_crlf(t);
        match find_crlf(t) {
            None => {
                assert forall|j: int| 0 <= j && j + 2 <= s.len() implies !crlf_at(s, j) by {
                    if j > 0 {
                        assert(!crlf_at(t, j - 1));
                        assert(t[j - 1] == s[j] && t[j] == s[j + 1]);
                    }
                }
            },
            Some(i) => {
                assert(t[i] == s[i + 1] && t[i + 1] == s[i + 2]);
                assert(crlf_at(s, i + 1));
                assert forall|j: int| 0 <= j < i + 1 implies !crlf_at(s, j) by {
                    if j > 0 {
                        assert(!crlf_at(t, j - 1));
                        assert(t[j - 1] == s[j] && t[j] == s[j + 1]);
                    }
                }
            },
        }
    }
}

/// The first position of `c`.
pub open spec fn find_char(s: Seq<char>, c: char) -> Option<int>
    decreases s.len(),
{
    if s.len() == 0 {
        None
    } else if s[0] == c {
        Some(0)
    } else {
        match find_char(s.drop_first(), c) {
            None => None,
            Some(i) => Some(i + 1),
        }
    }
}

/// `find_char` finds the first occurrence, and misses only when there
/// is none.
pub proof fn lemma_find_char(s: Seq<char>, c: char)
    ensures
        match find_char(s, c) {
            Some(i) => 0 <= i < s.len() && s[i] == c && forall|j: int|
                0 <= j < i ==> #[trigger] s[j] != c,
            None => forall|j: int| 0 <= j < s.len() ==> #[trigger] s[j] != c,
        },
    decreases s.len(),
{
    if s.len() == 0 {
    } else if s[0] == c {
    } else {
        let t = s.drop_first();
        lemma_find_char(t, c);
        match find_char(t, c) {
            None => {
                assert forall|j: int| 0 <= j < s.len() implies s[j] != c by {
                    if j > 0 {
                        assert(t[j - 1] != c);
                    }
                }
            },
            Some(i) => {
                assert(t[i] == s[i + 1]);
                assert forall|j: int| 0 <= j < i + 1 implies s[j] != c by {
                    if j > 0 {
                        assert(t[j - 1] != c);
                    }
                }
            },
        }
    }
}

/// The header lines before the first empty line, and what follows it.
/// `None` when the header block is unterminated.
pub open spec fn split_lines(s: Seq<char>) -> Option<(Seq<Seq<char>>, Seq<char>)>
    decreases s.len(),
{
    match find_crlf(s) {
        None => None,
        Some(i) => {
            if i < 0 || i + 2 > s.len() {
                None
            } else {
                let line = s.subrange(0, i);
                let rest = s.subrange(i + 2, s.len() as int);
                if i == 0 {
                    Some((Seq::empty(), rest))
                } else {
                    match split_lines(rest) {
                        None => None,
                        Some((ls, b)) => Some((seq![line] + ls, b)),
                    }
                }
            }
        },
    }
}

/// The space-separated tokens of a line, in order, with empty tokens
/// dropped.
pub open spec fn split_tokens(s: Seq<char>) -> Seq<Seq<char>>
    decreases s.len(),
{
    if s.len() == 0 {
        Seq::empty()
    } else if s[0] == ' ' {
        split_tokens(s.drop_first())
    } else {
        match find_char(s, ' ') {
            None => seq![s],
            Some(i) => {
                if i < 1 || i + 1 > s.len() {
                    seq![s]
                } else {
                    seq![s.subrange(0, i)] + split_tokens(s.subrange(i + 1, s.len() as int))
                }
            },
        }
    }
}

/// Space or horizontal tab.
pub open spec fn is_ws(c: char) -> bool {
    c == ' ' || c == '\t'
}

/// Drop leading whitespace.
pub open spec fn trim_start(s: Seq<char>) -> Seq<char>
    decreases s.len(),
{
    if s.len() > 0 && is_ws(s[0]) {
        trim_start(s.drop_first())
    } else {
        s
    }
}

/// Drop trailing whitespace.
pub open spec fn trim_end(s: Seq<char>) -> Seq<char>
    decreases s.len(),
{
    if s.len() > 0 && is_ws(s.last()) {
        trim_end(s.drop_last())
    } else {
        s
    }
}

/// Drop leading and trailing whitespace.
pub open spec fn trim(s: Seq<char>) -> Seq<char> {
    trim_end(trim_start(s))
}

/// Drop the trailing NUL padding a fixed read buffer leaves behind.
pub open spec fn trim_nuls(s: Seq<char>) -> Seq<char>
    decreases s.len(),
{
    if s.len() > 0 && s.last() == '\0' {
        trim_nuls(s.drop_last())
    } else {
        s
    }
}

/// A header line split at its first colon, the value trimmed; a line
/// without a colon becomes a name with an empty value.
pub open spec fn spec_parse_header_line(line: Seq<char>) -> (Seq<char>, Seq<char>) {
    match find_char(line, ':') {
        None => (line, Seq::empty()),
        Some(i) => (line.subrange(0, i), trim(line.subrange(i + 1, line.len() as int))),
    }
}

/// The wire spelling that starts every response line.
pub open spec fn http_prefix() -> Seq<char> {
    seq!['H', 'T', 'T', 'P', '/']
}

/// `s` begins with `p`.
pub open spec fn starts_with(s: Seq<char>, p: Seq<char>) -> bool {
    s.len() >= p.len() && s.subrange(0, p.len() as int) == p
}

/// The method named by a token, carrying `route` where the method
/// takes one; `None` for an unknown token.
pub open spec fn spec_parse_method(token: Seq<char>, route: Seq<char>) -> Option<MethodModel> {
    if token == seq!['G', 'E', 'T'] {
        Some(MethodModel::Get(route))
    } else if token == seq!['P', 'O', 'S', 'T'] {
        Some(MethodModel::Post(route))
    } else if token == seq!['P', 'U', 'T'] {
        Some(MethodModel::Put(route))
    } else if token == seq!['D', 'E', 'L', 'E', 'T', 'E'] {
        Some(MethodModel::Delete(route))
    } else if token == seq!['C', 'O', 'N', 'N', 'E', 'C', 'T'] {
        Some(MethodModel::Connect(route))
    } else if token == seq!['H', 'E', 'A', 'D'] {
        Some(MethodModel::Head)
    } else {
        None
    }
}

/// The start line's meaning. A line beginning with `HTTP/` is a
/// response: its version is read from the line's head and the status
/// text is everything after the first space. Any other line is a
/// request: method, route and version tokens, where the route falls
/// back to `/` when only two tokens are present.
pub open spec fn spec_parse_start(line: Seq<char>) -> Option<StartModel> {
    if starts_with(line, http_prefix()) {
        match spec_parse_version(line) {
            None => None,
            Some(v) => {
                let status = match find_char(line, ' ') {
                    None => Seq::<char>::empty(),
                    Some(i) => line.subrange(i + 1, line.len() as int),
                };
                Some(StartModel::Response(v, status))
            },
        }
    } else {
        let toks = split_tokens(line);
        if toks.len() >= 3 {
            match spec_parse_version(toks[2]) {
                None => None,
                Some(v) => match spec_parse_method(toks[0], toks[1]) {
                    None => None,
                    Some(m) => Some(StartModel::Request(v, m)),
                },
            }
        } else if toks.len() == 2 {
            match spec_parse_version(toks[1]) {
                None => None,
                Some(v) => match spec_parse_method(toks[0], seq!['/']) {
                    None => None,
                    Some(m) => Some(StartModel::Request(v, m)),
                },
            }
        } else {
            None
        }
    }
}

/// The whole message's meaning: start line, one header per further
/// line, and the bytes after the empty line as the body, with the
/// read buffer's NUL padding dropped. A leftover bare CR LF is the
/// serializer's trailer, not a body.
pub open spec fn spec_parse_msg(s: Seq<char>) -> Option<MessageModel> {
    match split_lines(s) {
        None => None,
        Some((lines, rest)) => {
            if lines.len() == 0 {
                None
            } else {
                match spec_parse_start(lines[0]) {
                    None => None,
                    Some(start) => {
                        let headers = lines.drop_first().map_values(
                            |l: Seq<char>| spec_parse_header_line(l),
                        );
                        let raw = trim_nuls(rest);
                        let body = if raw.len() == 0 || raw == crlf() {
                            None
                        } else {
                            Some(raw)
                        };
                        Some(MessageModel { start, headers, body })
                    },
                }
            }
        },
    }
}

/// The wire text of a start line.
pub open spec fn render_start(st: StartModel) -> Seq<char> {
    match st {
        StartModel::Request(v, m) => match method_route(m) {
            Some(r) => method_token(m) + seq![' '] + r + seq![' '] + version_chars(v),
            None => method_token(m) + seq![' '] + version_chars(v),
        },
        StartModel::Response(v, s) => version_chars(v) + seq![' '] + s,
    }
}

/// The wire text of one header entry.
pub open spec fn header_line(e: (Seq<char>, Seq<char>)) -> Seq<char> {
    e.0 + seq![':', ' '] + e.1 + crlf()
}

/// The wire text of the header entries, in order.
pub open spec fn render_headers(hs: Seq<(Seq<char>, Seq<char>)>) -> Seq<char>
    decreases hs.len(),
{
    if hs.len() == 0 {
        Seq::empty()
    } else {
        header_line(hs[0]) + render_headers(hs.drop_first())
    }
}

/// The wire text of a whole message: start line, header lines, body
/// if any, and the closing double CR LF.
pub open spec fn render_msg(m: MessageModel) -> Seq<char> {
    render_start(m.start) + crlf() + render_headers(m.headers) + (match m.body {
        Some(b) => b,
        None => Seq::<char>::empty(),
    }) + crlf() + crlf()
}

/// Whitespace test on one character.
fn ws_char(c: char) -> (r: bool)
    ensures
        r == is_ws(c),
{
    c == ' ' || c == '\t'
}

/// Find the first CR LF pair in a slice.
fn find_crlf_str(s: &str) -> (r: Option<usize>)
    ensures
        match r {
            Some(i) => find_crlf(s@) == Some(i as int),
            None => find_crlf(s@) is None,
        },
{
    proof {
        lemma_find_crlf(s@);
    }
    let n = s.unicode_len();
    if n < 2 {
        return None;
    }
    let mut i: usize = 0;
    while i + 1 < n
        invariant
            n as nat == s@.len(),
            n >= 2,
            i <= n - 1,
            forall|j: int| 0 <= j < i ==> !#[trigger] crlf_at(s@, j),
        decreases n - i,
    {
        if s.get_char(i) == '\r' && s.get_char(i + 1) == '\n' {
            proof {
                lemma_find_crlf(s@);
                assert(crlf_at(s@, i as int));
                if find_crlf(s@) is Some {
                    let k = find_crlf(s@)->0;
                    if k > i {
                        assert(!crlf_at(s@, i as int));
                    }
                    if k < i {
                        assert(crlf_at(s@, k));
                    }
                }
            }
            return Some(i);
        }
        proof {
            assert(!crlf_at(s@, i as int));
        }
        i = i + 1;
    }
    None
}

/// Find the first occurrence of one character in a slice.
fn find_char_str(s: &str, c: char) -> (r: Option<usize>)
    ensures
        match r {
            Some(i) => find_char(s@, c) == Some(i as int),
            None => find_char(s@, c) is None,
        },
{
    proof {
        lemma_find_char(s@, c);
    }
    let n = s.unicode_len();
    let mut i: usize = 0;
    while i < n
        invariant
            n as nat == s@.len(),
            i <= n,
            forall|j: int| 0 <= j < i ==> #[trigger] s@[j] != c,
        decreases n - i,
    {
        if s.get_char(i) == c {
            proof {
                lemma_find_char(s@, c);
                assert(s@[i as int] == c);
                if find_char(s@, c) is Some {
                    let k = find_char(s@, c)->0;
                    if k > i {
                        assert(s@[i as int] != c);
                    }
                    if k < i {
                        assert(s@[k] == c);
                    }
                }
            }
            return Some(i);
        }
        i = i + 1;
    }
    None
}

/// Leading whitespace adds up to a `skip`.
proof fn lemma_trim_start_skip(s: Seq<char>, i: int)
    requires
        0 <= i <= s.len(),
        forall|j: int| 0 <= j < i ==> is_ws(#[trigger] s[j]),
        i == s.len() || !is_ws(s[i]),
    ensures
        trim_start(s) == s.skip(i),
    decreases i,
{
    if i == 0 {
        assert(s.skip(0) =~= s);
    } else {
        let t = s.drop_first();
        assert(forall|j: int| 0 <= j < t.len() ==> t[j] == s[j + 1]);
        lemma_trim_start_skip(t, i - 1);
        assert(t.skip(i - 1) =~= s.skip(i));
    }
}

/// Trailing whitespace adds up to a `take`.
proof fn lemma_trim_end_take(s: Seq<char>, e: int)
    requires
        0 <= e <= s.len(),
        forall|j: int| e <= j < s.len() ==> is_ws(#[trigger] s[j]),
        e == 0 || !is_ws(s[e - 1]),
    ensures
        trim_end(s) == s.take(e),
    decreases s.len(),
{
    if e == s.len() {
        assert(s.take(e) =~= s);
    } else {
        assert(is_ws(s.last()));
        let t = s.drop_last();
        assert(forall|j: int| 0 <= j < t.len() ==> t[j] == s[j]);
        lemma_trim_end_take(t, e);
        assert(t.take(e) =~= s.take(e));
    }
}

/// Trailing NULs add up to a `take`.
proof fn lemma_trim_nuls_take(s: Seq<char>, e: int)
    requires
        0 <= e <= s.len(),
        forall|j: int| e <= j < s.len() ==> #[trigger] s[j] == '\0',
        e == 0 || s[e - 1] != '\0',
    ensures
        trim_nuls(s) == s.take(e),
    decreases s.len(),
{
    if e == s.len() {
        assert(s.take(e) =~= s);
    } else {
        assert(s.last() == '\0');
        let t = s.drop_last();
        assert(forall|j: int| 0 <= j < t.len() ==> t[j] == s[j]);
        lemma_trim_nuls_take(t, e);
        assert(t.take(e) =~= s.take(e));
    }
}

/// Copy a slice with leading and trailing whitespace removed.
fn trim_str(s: &str) -> (r: String)
    ensures
        r@ == trim(s@),
{
    let n = s.unicode_len();
    let mut i: usize = 0;
    while i < n && ws_char(s.get_char(i))
        invariant
            n as nat == s@.len(),
            i <= n,
            forall|j: int| 0 <= j < i ==> is_ws(#[trigger] s@[j]),
        decreases n - i,
    {
        i = i + 1;
    }
    let mut e: usize = n;
    while e > i && ws_char(s.get_char(e - 1))
        invariant
            n as nat == s@.len(),
            i <= e <= n,
            forall|j: int| e <= j < n ==> is_ws(#[trigger] s@[j]),
        decreases e,
    {
        e = e - 1;
    }
    proof {
        lemma_trim_start_skip(s@, i as int);
        let t = s@.skip(i as int);
        assert(forall|k: int| 0 <= k < t.len() ==> t[k] == s@[i + k]);
        assert forall|k: int| e - i <= k < t.len() implies is_ws(#[trigger] t[k]) by {
            assert(t[k] == s@[i + k]);
        }
        if e > i {
            assert(t[e - i - 1] == s@[e - 1]);
        }
        lemma_trim_end_take(t, e - i);
        assert(t.take(e - i) =~= s@.subrange(i as int, e as int));
    }
    s.substring_char(i, e).to_owned()
}

/// Copy a slice with the trailing NUL padding removed.
fn trim_nuls_str(s: &str) -> (r: String)
    ensures
        r@ == trim_nuls(s@),
{
    let n = s.unicode_len();
    let mut e: usize = n;
    while e > 0 && s.get_char(e - 1) == '\0'
        invariant
            n as nat == s@.len(),
            e <= n,
            forall|j: int| e <= j < n ==> #[trigger] s@[j] == '\0',
        decreases e,
    {
        e = e - 1;
    }
    proof {
        lemma_trim_nuls_take(s@, e as int);
        assert(s@.take(e as int) =~= s@.subrange(0, e as int));
    }
    s.substring_char(0, e).to_owned()
}

/// Split one header line at its first colon and trim the value.
fn parse_header_line_str(line: &str) -> (r: (String, String))
    ensures
        (r.0@, r.1@) == spec_parse_header_line(line@),
{
    proof {
        lemma_find_char(line@, ':');
    }
    match find_char_str(line, ':') {
        None => (line.to_owned(), String::new()),
        Some(i) => {
            let nl = line.unicode_len();
            let name = line.substring_char(0, i).to_owned();
            let value = trim_str(line.substring_char(i + 1, nl));
            (name, value)
        },
    }
}

/// Split a buffer into its header lines and the text after the first
/// empty line.
fn split_lines_str(s: &str) -> (r: Option<(Vec<String>, String)>)
    ensures
        match split_lines(s@) {
            None => r is None,
            Some((ls, b)) => r matches Some(p) && p.0.deep_view() == ls && p.1@ == b,
        },
    decreases s@.len(),
{
    proof {
        lemma_find_crlf(s@);
    }
    match find_crlf_str(s) {
        None => None,
        Some(i) => {
            let n = s.unicode_len();
            let rest = s.substring_char(i + 2, n);
            if i == 0 {
                let v: Vec<String> = Vec::new();
                proof {
                    assert(v.deep_view() =~= Seq::<Seq<char>>::empty());
                }
                Some((v, rest.to_owned()))
            } else {
                let line = s.substring_char(0, i).to_owned();
                match split_lines_str(rest) {
                    None => None,
                    Some((ls, b)) => {
                        let mut ls = ls;
                        let ghost pre = ls.deep_view();
                        let ghost prev = ls@;
                        ls.insert(0, line);
                        proof {
                            assert forall|k: int|
                                0 <= k < ls.deep_view().len() implies ls.deep_view()[k] == (seq![
                                line@,
                            ] + pre)[k] by {
                                assert(ls.deep_view()[k] == ls@[k]@);
                                if k > 0 {
                                    assert(ls@[k] == prev[k - 1]);
                                    assert(pre[k - 1] == prev[k - 1]@);
                                }
                            }
                            assert(ls.deep_view() =~= seq![line@] + pre);
                        }
                        Some((ls, b))
                    },
                }
            }
        },
    }
}

/// Split a line into its space-separated tokens.
fn split_tokens_str(s: &str) -> (r: Vec<String>)
    ensures
        r.deep_view() == split_tokens(s@),
    decreases s@.len(),
{
    proof {
        lemma_find_char(s@, ' ');
    }
    let n = s.unicode_len();
    if n == 0 {
        let v: Vec<String> = Vec::new();
        proof {
            assert(v.deep_view() =~= split_tokens(s@));
        }
        v
    } else if s.get_char(0) == ' ' {
        let rest = s.substring_char(1, n);
        let r = split_tokens_str(rest);
        proof {
            assert(rest@ =~= s@.drop_first());
        }
        r
    } else {
        match find_char_str(s, ' ') {
            None => {
                let mut v: Vec<String> = Vec::new();
                v.push(s.to_owned());
                proof {
                    assert(v.deep_view() =~= seq![s@]);
                }
                v
            },
            Some(i) => {
                let tok = s.substring_char(0, i).to_owned();
                let rest = s.substring_char(i + 1, n);
                let mut v = split_tokens_str(rest);
                let ghost pre = v.deep_view();
                let ghost prev = v@;
                v.insert(0, tok);
                proof {
                    assert forall|k: int|
                        0 <= k < v.deep_view().len() implies v.deep_view()[k] == (seq![tok@]
                        + pre)[k] by {
                        assert(v.deep_view()[k] == v@[k]@);
                        if k > 0 {
                            assert(v@[k] == prev[k - 1]);
                            assert(pre[k - 1] == prev[k - 1]@);
                        }
                    }
                    assert(v.deep_view() =~= seq![tok@] + pre);
                }
                v
            },
        }
    }
}

/// Turn a method token into the method value carrying `route`.
fn method_from_token(token: &str, route: String) -> (r: Option<HttpMethod>)
    ensures
        match r {
            Some(m) => spec_parse_method(token@, route@) == Some(m@),
            None => spec_parse_method(token@, route@) is None,
        },
{
    proof {
        reveal_strlit("GET");
        reveal_strlit("POST");
        reveal_strlit("PUT");
        reveal_strlit("DELETE");
        reveal_strlit("CONNECT");
        reveal_strlit("HEAD");
        assert("GET"@ =~= seq!['G', 'E', 'T']);
        assert("POST"@ =~= seq!['P', 'O', 'S', 'T']);
        assert("PUT"@ =~= seq!['P', 'U', 'T']);
        assert("DELETE"@ =~= seq!['D', 'E', 'L', 'E', 'T', 'E']);
        assert("CONNECT"@ =~= seq!['C', 'O', 'N', 'N', 'E', 'C', 'T']);
        assert("HEAD"@ =~= seq!['H', 'E', 'A', 'D']);
    }
    if str_eq(token, "GET") {
        Some(HttpMethod::Get(route))
    } else if str_eq(token, "POST") {
        Some(HttpMethod::Post(route))
    } else if str_eq(token, "PUT") {
        Some(HttpMethod::Put(route))
    } else if str_eq(token, "DELETE") {
        Some(HttpMethod::Delete(route))
    } else if str_eq(token, "CONNECT") {
        Some(HttpMethod::Connect(route))
    } else if str_eq(token, "HEAD") {
        Some(HttpMethod::Head)
    } else {
        None
    }
}

/// Read the start line: a response when it begins with `HTTP/`, a
/// request otherwise.
fn parse_start_line(line: &str) -> (r: Option<HttpHeader>)
    ensures
        match r {
            Some(h) => spec_parse_start(line@) == Some(h@),
            None => spec_parse_start(line@) is None,
        },
{
    let n = line.unicode_len();
    let is_response = n >= 5 && line.get_char(0) == 'H' && line.get_char(1) == 'T'
        && line.get_char(2) == 'T' && line.get_char(3) == 'P' && line.get_char(4) == '/';
    proof {
        if is_response {
            assert(line@.subrange(0, 5) =~= http_prefix());
        } else {
            if n >= 5 && line@.subrange(0, 5) == http_prefix() {
                assert(line@[0] == 'H' && line@[1] == 'T' && line@[2] == 'T' && line@[3] == 'P'
                    && line@[4] == '/');
            }
        }
    }
    if is_response {
        match parse_version(line) {
            None => None,
            Some(v) => {
                let status = match find_char_str(line, ' ') {
                    None => String::new(),
                    Some(i) => {
                        proof {
                            lemma_find_char(line@, ' ');
                        }
                        line.substring_char(i + 1, n).to_owned()
                    },
                };
                Some(HttpHeader::Status(v, status))
            },
        }
    } else {
        let toks = split_tokens_str(line);
        let nt = toks.len();
        proof {
            assert(toks.deep_view().len() == toks@.len());
        }
        if nt >= 3 {
            let v = match parse_version(toks[2].as_str()) {
                None => {
                    return None;
                },
                Some(v) => v,
            };
            let route = toks[1].clone();
            proof {
                assert(toks.deep_view()[1] == toks@[1]@);
                assert(toks.deep_view()[0] == toks@[0]@);
                assert(toks.deep_view()[2] == toks@[2]@);
            }
            match method_from_token(toks[0].as_str(), route) {
                None => None,
                Some(m) => Some(HttpHeader::Method(v, m)),
            }
        } else if nt == 2 {
            let v = match parse_version(toks[1].as_str()) {
                None => {
                    return None;
                },
                Some(v) => v,
            };
            let route = String::from_str("/");
            proof {
                reveal_strlit("/");
                assert("/"@ =~= seq!['/']);
                assert(toks.deep_view()[0] == toks@[0]@);
                assert(toks.deep_view()[1] == toks@[1]@);
            }
            match method_from_token(toks[0].as_str(), route) {
                None => None,
                Some(m) => Some(HttpHeader::Method(v, m)),
            }
        } else {
            None
        }
    }
}

/// Parse one decoded buffer as an HTTP message.
///
/// The text splits at its header lines; the first is the start line,
/// each further one a `name: value` header, and what follows the
/// first empty line is the body, with the read buffer's NUL padding
/// dropped and the serializer's bare CR LF trailer counting as no
/// body. A missing header terminator, an empty or malformed start
/// line and an unknown method token all fail with `ParsingError`.
pub fn parse_text(s: &str) -> (r: Result<HttpMessage, HttpError>)
    ensures
        match spec_parse_msg(s@) {
            Some(m) => r matches Ok(msg) && msg@ == m,
            None => r == Err::<HttpMessage, HttpError>(HttpError::ParsingError),
        },
{
    let parts = match split_lines_str(s) {
        None => {
            return Err(HttpError::ParsingError);
        },
        Some(p) => p,
    };
    let (lines, rest) = parts;
    let nl = lines.len();
    if nl == 0 {
        return Err(HttpError::ParsingError);
    }
    let ghost ls = lines.deep_view();
    proof {
        assert(ls.len() == lines@.len());
        assert(ls[0] == lines@[0]@);
    }
    let start = match parse_start_line(lines[0].as_str()) {
        None => {
            return Err(HttpError::ParsingError);
        },
        Some(h) => h,
    };
    let mut headers = HeaderMap::new();
    let mut k: usize = 1;
    while k < nl
        invariant
            1 <= k <= nl,
            nl == lines@.len(),
            ls == lines.deep_view(),
            ls.len() == lines@.len(),
            headers@ == ls.subrange(1, k as int).map_values(
                |l: Seq<char>| spec_parse_header_line(l),
            ),
        decreases nl - k,
    {
        proof {
            assert(ls[k as int] == lines@[k as int]@);
        }
        let entry = parse_header_line_str(lines[k].as_str());
        headers.push_entry(entry.0, entry.1);
        proof {
            assert(ls.subrange(1, k + 1) =~= ls.subrange(1, k as int).push(ls[k as int]));
            assert(headers@ =~= ls.subrange(1, k + 1).map_values(
                |l: Seq<char>| spec_parse_header_line(l),
            ));
        }
        k = k + 1;
    }
    proof {
        assert(ls.subrange(1, nl as int) =~= ls.drop_first());
    }
    let raw = trim_nuls_str(rest.as_str());
    let body: Option<String> = if raw.as_str().unicode_len() == 0 {
        None
    } else if raw.as_str().unicode_len() == 2 && raw.as_str().get_char(0) == '\r'
        && raw.as_str().get_char(1) == '\n' {
        proof {
            assert(raw@ =~= crlf());
        }
        None
    } else {
        proof {
            if raw@ == crlf() {
                assert(raw@.len() == 2 && raw@[0] == '\r' && raw@[1] == '\n');
            }
        }
        Some(raw)
    };
    Ok(HttpMessage { header: start, headers, body })
}

/// The characters that a received byte buffer stands for, by UTF-8
/// decoding with replacement.
pub uninterp spec fn decoded(bytes: Seq<u8>) -> Seq<char>;

/// Relies on String::from_utf8_lossy: the decoding is a function of
/// the bytes alone, and a buffer of ASCII bytes decodes to exactly
/// those characters.
#[verifier::external_body]
fn decode_buffer(buffer: &[u8]) -> (r: String)
    ensures
        r@ == decoded(buffer@),
        (forall|i: int| 0 <= i < buffer@.len() ==> buffer@[i] < 128) ==> r@ == buffer@.map_values(
            |b: u8| b as char,
        ),
{
    String::from_utf8_lossy(buffer).into_owned()
}

/// Parse one received buffer as an HTTP message. The bytes are
/// decoded as UTF-8 first — ASCII bytes stand for themselves — and
/// the message is what `spec_parse_msg` reads in the decoded text.
pub fn parse_message(buffer: &[u8]) -> (r: Result<HttpMessage, HttpError>)
    ensures
        match spec_parse_msg(decoded(buffer@)) {
            Some(m) => r matches Ok(msg) && msg@ == m,
            None => r == Err::<HttpMessage, HttpError>(HttpError::ParsingError),
        },
        (forall|i: int| 0 <= i < buffer@.len() ==> buffer@[i] < 128) ==> decoded(buffer@)
            == buffer@.map_values(|b: u8| b as char),
{
    let text = decode_buffer(buffer);
    parse_text(text.as_str())
}

/// Rendering `a + b` renders `a` then `b`.
pub proof fn lemma_render_headers_concat(a: Seq<(Seq<char>, Seq<char>)>, b: Seq<(Seq<char>, Seq<char>)>)
    ensures
        render_headers(a + b) == render_headers(a) + render_headers(b),
    decreases a.len(),
{
    if a.len() == 0 {
        assert(a + b =~= b);
        assert(render_headers(a) + render_headers(b) =~= render_headers(b));
    } else {
        assert((a + b).drop_first() =~= a.drop_first() + b);
        lemma_render_headers_concat(a.drop_first(), b);
        assert((a + b)[0] == a[0]);
        assert(header_line(a[0]) + (render_headers(a.drop_first()) + render_headers(b)) =~= (
        header_line(a[0]) + render_headers(a.drop_first())) + render_headers(b));
    }
}

/// The version's wire spelling.
fn version_str(v: &HttpVersion) -> (r: &'static str)
    ensures
        r@ == version_chars(*v),
{
    proof {
        reveal_strlit("HTTP/1.0");
        reveal_strlit("HTTP/1.1");
        assert("HTTP/1.0"@ =~= version_chars(HttpVersion::V10));
        assert("HTTP/1.1"@ =~= version_chars(HttpVersion::V11));
    }
    match v {
        HttpVersion::V10 => "HTTP/1.0",
        HttpVersion::V11 => "HTTP/1.1",
    }
}

/// Render a start line as wire text.
fn render_start_string(h: &HttpHeader) -> (r: String)
    ensures
        r@ == render_start(h@),
{
    proof {
        reveal_strlit("GET ");
        reveal_strlit("POST ");
        reveal_strlit("PUT ");
        reveal_strlit("DELETE ");
        reveal_strlit("CONNECT ");
        reveal_strlit("HEAD ");
        reveal_strlit(" ");
        assert("GET "@ =~= seq!['G', 'E', 'T'] + seq![' ']);
        assert("POST "@ =~= seq!['P', 'O', 'S', 'T'] + seq![' ']);
        assert("PUT "@ =~= seq!['P', 'U', 'T'] + seq![' ']);
        assert("DELETE "@ =~= seq!['D', 'E', 'L', 'E', 'T', 'E'] + seq![' ']);
        assert("CONNECT "@ =~= seq!['C', 'O', 'N', 'N', 'E', 'C', 'T'] + seq![' ']);
        assert("HEAD "@ =~= seq!['H', 'E', 'A', 'D'] + seq![' ']);
        assert(" "@ =~= seq![' ']);
    }
    match h {
        HttpHeader::Method(v, m) => {
            let mut out: String;
            match m {
                HttpMethod::Get(route) => {
                    out = String::from_str("GET ");
                    out.append(route.as_str());
                    out.append(" ");
                },
                HttpMethod::Post(route) => {
                    out = String::from_str("POST ");
                    out.append(route.as_str());
                    out.append(" ");
                },
                HttpMethod::Put(route) => {
                    out = String::from_str("PUT ");
                    out.append(route.as_str());
                    out.append(" ");
                },
                HttpMethod::Delete(route) => {
                    out = String::from_str("DELETE ");
                    out.append(route.as_str());
                    out.append(" ");
                },
                HttpMethod::Connect(route) => {
                    out = String::from_str("CONNECT ");
                    out.append(route.as_str());
                    out.append(" ");
                },
                HttpMethod::Head => {
                    out = String::from_str("HEAD ");
                },
            }
            out.append(version_str(v));
            proof {
                assert(out@ =~= render_start(h@));
            }
            out
        },
        HttpHeader::Status(v, s) => {
            let mut out = String::from_str(version_str(v));
            out.append(" ");
            out.append(s.as_str());
            proof {
                assert(out@ =~= render_start(h@));
            }
            out
        },
    }
}

/// One HTTP message: start line, headers, optional body.
#[derive(Debug, Clone, PartialEq)]
pub struct HttpMessage {
    pub header: HttpHeader,
    pub headers: HeaderMap,
    pub body: Option<String>,
}

/// The spec-level shape of a message.
pub struct MessageModel {
    pub start: StartModel,
    pub headers: Seq<(Seq<char>, Seq<char>)>,
    pub body: Option<Seq<char>>,
}

impl View for HttpMessage {
    type V = MessageModel;

    open spec fn view(&self) -> MessageModel {
        MessageModel {
            start: self.header@,
            headers: self.headers@,
            body: match self.body {
                Some(b) => Some(b@),
                None => None,
            },
        }
    }
}

impl HttpMessage {
    /// A fresh request on protocol version 1.1.
    pub fn new(method: HttpMethod, headers: HeaderMap) -> (r: HttpMessage)
        ensures
            r.header == HttpHeader::Method(HttpVersion::V11, method),
            r.headers == headers,
            r.body is None,
    {
        HttpMessage { header: HttpHeader::Method(HttpVersion::V11, method), headers, body: None }
    }

    /// The request's method, `None` for a response.
    pub fn method(&self) -> (r: Option<&HttpMethod>)
        ensures
            match r {
                Some(m) => self.header matches HttpHeader::Method(_, mm) && *m == mm,
                None => self.header is Status,
            },
    {
        match &self.header {
            HttpHeader::Method(_, m) => Some(m),
            HttpHeader::Status(_, _) => None,
        }
    }

    /// The message's protocol version.
    pub fn http_version(&self) -> (r: Option<&HttpVersion>)
        ensures
            match r {
                Some(v) => (self.header matches HttpHeader::Method(vv, _) && *v == vv)
                    || (self.header matches HttpHeader::Status(vv, _) && *v == vv),
                None => false,
            },
    {
        match &self.header {
            HttpHeader::Method(v, _) => Some(v),
            HttpHeader::Status(v, _) => Some(v),
        }
    }

    /// The `Transfer-Encoding` header value, when present.
    pub fn transfer_encoding(&self) -> (r: Option<&String>)
        ensures
            match r {
                Some(v) => lookup(self@.headers, "Transfer-Encoding"@) == Some(v@),
                None => lookup(self@.headers, "Transfer-Encoding"@) is None,
            },
    {
        self.headers.get("Transfer-Encoding")
    }

    /// The request's route, `None` for a response or a method without
    /// one.
    pub fn route(&self) -> (r: Option<&String>)
        ensures
            match r {
                Some(s) => self.header matches HttpHeader::Method(_, m) && method_route(m@)
                    == Some(s@),
                None => self.header is Status || (self.header matches HttpHeader::Method(_, m)
                    && method_route(m@) is None),
            },
    {
        match &self.header {
            HttpHeader::Method(_, method) => match method {
                HttpMethod::Get(route) => Some(route),
                HttpMethod::Post(route) => Some(route),
                HttpMethod::Put(route) => Some(route),
                HttpMethod::Connect(route) => Some(route),
                HttpMethod::Delete(route) => Some(route),
                HttpMethod::Head => None,
            },
            HttpHeader::Status(_, _) => None,
        }
    }

    /// Render the message as wire text: start line, header lines,
    /// body if any, and the closing double CR LF.
    pub fn to_string(&self) -> (r: String)
        ensures
            r@ == render_msg(self@),
    {
        let mut out = render_start_string(&self.header);
        out.append("\r\n");
        proof {
            reveal_strlit("\r\n");
            assert("\r\n"@ =~= crlf());
            assert(self.headers@.subrange(0, 0) =~= Seq::<(Seq<char>, Seq<char>)>::empty());
            assert(out@ =~= render_start(self.header@) + crlf() + render_headers(
                self.headers@.subrange(0, 0),
            ));
        }
        let n = self.headers.len();
        let mut i: usize = 0;
        while i < n
            invariant
                n == self.headers@.len(),
                i <= n,
                out@ == render_start(self.header@) + crlf() + render_headers(
                    self.headers@.subrange(0, i as int),
                ),
        decreases n - i,
        {
            let entry = self.headers.entry_at(i);
            out.append(entry.0.as_str());
            out.append(": ");
            out.append(entry.1.as_str());
            out.append("\r\n");
            proof {
                reveal_strlit(": ");
                reveal_strlit("\r\n");
                assert(": "@ =~= seq![':', ' ']);
                assert("\r\n"@ =~= crlf());
                let hs = self.headers@;
                let e = hs[i as int];
                lemma_render_headers_concat(hs.subrange(0, i as int), seq![e]);
                assert(hs.subrange(0, i + 1) =~= hs.subrange(0, i as int) + seq![e]);
                assert(seq![e].drop_first() =~= Seq::<(Seq<char>, Seq<char>)>::empty());
                assert(render_headers(seq![e]) == header_line(seq![e][0]) + render_headers(
                    seq![e].drop_first(),
                ));
                assert(seq![e][0] == e);
                assert(header_line(e) + Seq::<char>::empty() =~= header_line(e));
                assert(render_headers(seq![e]) == header_line(e));
                assert(out@ =~= render_start(self.header@) + crlf() + render_headers(
                    hs.subrange(0, i + 1),
                ));
            }
            i = i + 1;
        }
        proof {
            assert(self.headers@.subrange(0, n as int) =~= self.headers@);
        }
        match &self.body {
            Some(b) => {
                out.append(b.as_str());
            },
            None => {},
        }
        out.append("\r\n\r\n");
        proof {
            reveal_strlit("\r\n\r\n");
            assert("\r\n\r\n"@ =~= crlf() + crlf());
            assert(out@ =~= render_msg(self@));
        }
        out
    }

    /// The response's status code, `None` for a request or an invalid
    /// status text.
    pub fn status_code(&self) -> (r: Option<StatusCode>)
        ensures
            match r {
                Some(c) => self.header matches HttpHeader::Status(_, s) && spec_status_value(s@)
                    == Some(c.0 as int),
                None => self.header is Method || (self.header matches HttpHeader::Status(_, s)
                    && spec_status_value(s@) is None),
            },
    {
        match &self.header {
            HttpHeader::Status(_, s) => match StatusCode::from_str(s) {
                Ok(code) => Some(code),
                Err(_) => None,
            },
            HttpHeader::Method(_, _) => None,
        }
    }
}

} // verus!

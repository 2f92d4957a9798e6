//! Laws of the HTTP codec: rendering a well-formed message and
//! parsing the text back yields the original message.

use vstd::prelude::*;

verus! {

use crate::http::{
    crlf, crlf_at, find_char, find_crlf, header_line, is_ws, lookup, method_route, method_token,
    render_headers, render_msg, render_start, spec_parse_header_line, spec_parse_method,
    spec_parse_msg, spec_parse_start, spec_parse_version, split_lines, split_tokens, starts_with,
    trim, trim_end, trim_nuls, trim_start, version_chars, HttpVersion, MessageModel, MethodModel,
    StartModel, lemma_find_char, lemma_find_crlf, lemma_render_headers_concat, http_prefix, upsert,
};

/// Free of carriage returns, line feeds and NULs: text that survives
/// the line splitter and the buffer-padding trim unchanged.
pub open spec fn text_ok(s: Seq<char>) -> bool {
    forall|j: int| 0 <= j < s.len() ==> #[trigger] s[j] != '\r' && s[j] != '\n' && s[j] != '\0'
}

/// A start-line token: nonempty, free of spaces and of line breaks.
pub open spec fn token_ok(s: Seq<char>) -> bool {
    s.len() > 0 && text_ok(s) && forall|j: int| 0 <= j < s.len() ==> #[trigger] s[j] != ' '
}

/// A header entry that renders and parses back to itself: a nonempty
/// colon-free name, and a value without surrounding whitespace.
pub open spec fn header_ok(e: (Seq<char>, Seq<char>)) -> bool {
    &&& e.0.len() > 0
    &&& text_ok(e.0)
    &&& (forall|j: int| 0 <= j < e.0.len() ==> #[trigger] e.0[j] != ':')
    &&& text_ok(e.1)
    &&& (e.1.len() == 0 || (!is_ws(e.1[0]) && !is_ws(e.1[e.1.len() - 1])))
}

/// A message whose rendering parses back to it: a request (or a
/// response with line-break-free status text), well-formed headers,
/// and no body — a body follows the headers with no separator on the
/// wire, so it cannot be told from them again.
pub open spec fn message_wf(m: MessageModel) -> bool {
    &&& (match m.start {
        StartModel::Request(_, mm) => match method_route(mm) {
            Some(r) => token_ok(r),
            None => true,
        },
        StartModel::Response(_, st) => text_ok(st),
    })
    &&& (forall|j: int| 0 <= j < m.headers.len() ==> header_ok(#[trigger] m.headers[j]))
    &&& m.body is None
}

/// `find_char` at a known first occurrence.
proof fn lemma_find_char_at(s: Seq<char>, c: char, i: int)
    requires
        0 <= i < s.len(),
        s[i] == c,
        forall|j: int| 0 <= j < i ==> #[trigger] s[j] != c,
    ensures
        find_char(s, c) == Some(i),
{
    lemma_find_char(s, c);
    match find_char(s, c) {
        None => {
            assert(s[i] != c);
        },
        Some(k) => {
            if k < i {
                assert(s[k] != c);
            }
            if k > i {
                assert(s[i] != c);
            }
        },
    }
}

/// `find_char` when the character never occurs.
proof fn lemma_find_char_none(s: Seq<char>, c: char)
    requires
        forall|j: int| 0 <= j < s.len() ==> #[trigger] s[j] != c,
    ensures
        find_char(s, c) is None,
{
    lemma_find_char(s, c);
    match find_char(s, c) {
        None => {},
        Some(k) => {
            assert(s[k] != c);
        },
    }
}

/// `find_crlf` at a known first CR LF.
proof fn lemma_find_crlf_at(s: Seq<char>, i: int)
    requires
        0 <= i,
        i + 2 <= s.len(),
        crlf_at(s, i),
        forall|j: int| 0 <= j < i ==> !#[trigger] crlf_at(s, j),
    ensures
        find_crlf(s) == Some(i),
{
    lemma_find_crlf(s);
    match find_crlf(s) {
        None => {
            assert(!crlf_at(s, i));
        },
        Some(k) => {
            if k < i {
                assert(crlf_at(s, k));
            }
            if k > i {
                assert(!crlf_at(s, i));
            }
        },
    }
}

/// A lone token splits to itself.
proof fn lemma_tokens_single(a: Seq<char>)
    requires
        token_ok(a),
    ensures
        split_tokens(a) == seq![a],
{
    lemma_find_char_none(a, ' ');
}

/// A token, a space and a remainder split to the token and the
/// remainder's tokens.
proof fn lemma_tokens_cons(a: Seq<char>, rest: Seq<char>)
    requires
        token_ok(a),
    ensures
        split_tokens(a + seq![' '] + rest) == seq![a] + split_tokens(rest),
{
    let s = a + seq![' '] + rest;
    let al = a.len() as int;
    assert(s[al] == ' ');
    assert forall|j: int| 0 <= j < al implies #[trigger] s[j] != ' ' by {
        assert(s[j] == a[j]);
    }
    lemma_find_char_at(s, ' ', al);
    assert(s[0] == a[0]);
    assert(s.subrange(0, al) =~= a);
    assert(s.subrange(al + 1, s.len() as int) =~= rest);
    assert(split_tokens(s) == seq![a] + split_tokens(rest));
}

/// The header lines of a block joined with CR LF, followed by an
/// empty line and a remainder, split back into those lines and that
/// remainder.
pub open spec fn lines_block(ls: Seq<Seq<char>>) -> Seq<char>
    decreases ls.len(),
{
    if ls.len() == 0 {
        Seq::empty()
    } else {
        ls[0] + crlf() + lines_block(ls.drop_first())
    }
}

/// A line the splitter hands back whole: nonempty and break-free.
pub open spec fn line_ok(l: Seq<char>) -> bool {
    l.len() > 0 && forall|j: int| 0 <= j < l.len() ==> #[trigger] l[j] != '\r' && l[j] != '\n'
}

/// Splitting a joined block recovers the lines and the remainder.
proof fn lemma_split_lines_block(ls: Seq<Seq<char>>, rest: Seq<char>)
    requires
        forall|k: int| 0 <= k < ls.len() ==> line_ok(#[trigger] ls[k]),
    ensures
        split_lines(lines_block(ls) + crlf() + rest) == Some((ls, rest)),
    decreases ls.len(),
{
    let s = lines_block(ls) + crlf() + rest;
    if ls.len() == 0 {
        assert(lines_block(ls) =~= Seq::<char>::empty());
        assert(s =~= crlf() + rest);
        assert(crlf_at(s, 0));
        lemma_find_crlf_at(s, 0);
        assert(s.subrange(2, s.len() as int) =~= rest);
        assert(split_lines(s) == Some((Seq::<Seq<char>>::empty(), rest)));
        assert(ls =~= Seq::<Seq<char>>::empty());
    } else {
        let l0 = ls[0];
        let tail = lines_block(ls.drop_first()) + crlf() + rest;
        assert(lines_block(ls) == l0 + crlf() + lines_block(ls.drop_first()));
        assert(s =~= l0 + crlf() + tail);
        let ll = l0.len() as int;
        assert(line_ok(l0));
        assert forall|j: int| 0 <= j < ll implies !#[trigger] crlf_at(s, j) by {
            assert(s[j] == l0[j]);
        }
        assert(s[ll] == '\r' && s[ll + 1] == '\n');
        assert(crlf_at(s, ll));
        lemma_find_crlf_at(s, ll);
        assert(ll > 0);
        assert(s.subrange(0, ll) =~= l0);
        assert(s.subrange(ll + 2, s.len() as int) =~= tail);
        assert(forall|k: int|
            0 <= k < ls.drop_first().len() ==> line_ok(#[trigger] ls.drop_first()[k]));
        lemma_split_lines_block(ls.drop_first(), rest);
        assert(split_lines(s) == Some((seq![l0] + ls.drop_first(), rest)));
        assert(seq![l0] + ls.drop_first() =~= ls);
    }
}

/// A rendered header entry parses back to itself.
proof fn lemma_header_line_roundtrip(e: (Seq<char>, Seq<char>))
    requires
        header_ok(e),
    ensures
        spec_parse_header_line(e.0 + seq![':', ' '] + e.1) == e,
{
    let line = e.0 + seq![':', ' '] + e.1;
    let nl = e.0.len() as int;
    assert(line[nl] == ':');
    assert forall|j: int| 0 <= j < nl implies #[trigger] line[j] != ':' by {
        assert(line[j] == e.0[j]);
    }
    lemma_find_char_at(line, ':', nl);
    assert(line.subrange(0, nl) =~= e.0);
    let raw = line.subrange(nl + 1, line.len() as int);
    assert(raw =~= seq![' '] + e.1);
    assert(raw[0] == ' ');
    assert(raw.drop_first() =~= e.1);
    assert(trim_start(raw) == trim_start(e.1));
    if e.1.len() > 0 {
        assert(!is_ws(e.1[0]));
    }
    assert(trim_start(e.1) == e.1);
    if e.1.len() > 0 {
        assert(!is_ws(e.1.last()));
    }
    assert(trim_end(e.1) == e.1);
    assert(trim(raw) == e.1);
}

/// Every method token and version spelling is itself a well-formed
/// token.
proof fn lemma_wire_words_token_ok(mm: MethodModel, v: HttpVersion)
    ensures
        token_ok(method_token(mm)),
        token_ok(version_chars(v)),
{
    let t = method_token(mm);
    assert forall|j: int| 0 <= j < t.len() implies #[trigger] t[j] != '\r' && t[j] != '\n' && t[j]
        != '\0' && t[j] != ' ' by {
        match mm {
            MethodModel::Get(_) => assert(t =~= seq!['G', 'E', 'T']),
            MethodModel::Post(_) => assert(t =~= seq!['P', 'O', 'S', 'T']),
            MethodModel::Put(_) => assert(t =~= seq!['P', 'U', 'T']),
            MethodModel::Delete(_) => assert(t =~= seq!['D', 'E', 'L', 'E', 'T', 'E']),
            MethodModel::Connect(_) => assert(t =~= seq!['C', 'O', 'N', 'N', 'E', 'C', 'T']),
            MethodModel::Head => assert(t =~= seq!['H', 'E', 'A', 'D']),
        }
    }
    let w = version_chars(v);
    assert forall|j: int| 0 <= j < w.len() implies #[trigger] w[j] != '\r' && w[j] != '\n' && w[j]
        != '\0' && w[j] != ' ' by {
        match v {
            HttpVersion::V10 => assert(w =~= seq!['H', 'T', 'T', 'P', '/', '1', '.', '0']),
            HttpVersion::V11 => assert(w =~= seq!['H', 'T', 'T', 'P', '/', '1', '.', '1']),
        }
    }
}

/// A version spelling names exactly its version.
proof fn lemma_version_chars_parse(v: HttpVersion)
    ensures
        spec_parse_version(version_chars(v)) == Some(v),
{
    let w = version_chars(v);
    assert(w.subrange(0, 8) =~= w);
    if v is V11 {
        assert(version_chars(HttpVersion::V10)[7] == '0');
        assert(w[7] == '1');
    }
}

/// A rendered start line parses back to itself.
proof fn lemma_start_line_roundtrip(st: StartModel)
    requires
        match st {
            StartModel::Request(_, mm) => match method_route(mm) {
                Some(r) => token_ok(r),
                None => true,
            },
            StartModel::Response(_, s2) => text_ok(s2),
        },
    ensures
        spec_parse_start(render_start(st)) == Some(st),
{
    let line = render_start(st);
    match st {
        StartModel::Request(v, mm) => {
            let tok = method_token(mm);
            let vc = version_chars(v);
            lemma_wire_words_token_ok(mm, v);
            lemma_version_chars_parse(v);
            match method_route(mm) {
                Some(r) => {
                    assert(line == tok + seq![' '] + r + seq![' '] + vc);
                    assert(line.len() >= 5);
                    assert(line[0] == tok[0]);
                    assert(line[1] == tok[1]);
                    if starts_with(line, http_prefix()) {
                        assert(line.subrange(0, 5)[0] == line[0]);
                        assert(line.subrange(0, 5)[1] == line[1]);
                        assert(line[0] == 'H' && line[1] == 'T');
                        match mm {
                            MethodModel::Get(_) => assert(tok[0] == 'G'),
                            MethodModel::Post(_) => assert(tok[0] == 'P'),
                            MethodModel::Put(_) => assert(tok[0] == 'P'),
                            MethodModel::Delete(_) => assert(tok[0] == 'D'),
                            MethodModel::Connect(_) => assert(tok[0] == 'C'),
                            MethodModel::Head => assert(tok[1] == 'E'),
                        }
                        assert(false);
                    }
                    assert(tok + seq![' '] + r + seq![' '] + vc =~= tok + seq![' '] + (r + seq![
                        ' ',
                    ] + vc));
                    lemma_tokens_cons(tok, r + seq![' '] + vc);
                    assert(r + seq![' '] + vc =~= r + seq![' '] + vc);
                    lemma_tokens_cons(r, vc);
                    lemma_tokens_single(vc);
                    let toks = split_tokens(line);
                    assert(toks == seq![tok] + (seq![r] + seq![vc]));
                    assert(toks =~= seq![tok, r, vc]);
                    assert(toks.len() == 3);
                    assert(toks[2] == vc);
                    assert(spec_parse_version(toks[2]) == Some(v));
                    assert(toks[0] == tok && toks[1] == r);
                    assert(spec_parse_method(tok, r) == Some(mm));
                },
                None => {
                    assert(mm is Head);
                    assert(line == tok + seq![' '] + vc);
                    assert(line.len() >= 5);
                    assert(line[1] == tok[1]);
                    if starts_with(line, http_prefix()) {
                        assert(line.subrange(0, 5)[1] == line[1]);
                        assert(line[1] == 'T');
                        assert(tok[1] == 'E');
                        assert(false);
                    }
                    lemma_tokens_cons(tok, vc);
                    lemma_tokens_single(vc);
                    let toks = split_tokens(line);
                    assert(toks == seq![tok] + seq![vc]);
                    assert(toks =~= seq![tok, vc]);
                    assert(toks.len() == 2);
                    assert(toks[1] == vc);
                    assert(spec_parse_version(toks[1]) == Some(v));
                    assert(toks[0] == tok);
                    assert(spec_parse_method(tok, seq!['/']) == Some(mm));
                },
            }
        },
        StartModel::Response(v, st2) => {
            let vc = version_chars(v);
            lemma_wire_words_token_ok(MethodModel::Head, v);
            lemma_version_chars_parse(v);
            assert(line == vc + seq![' '] + st2);
            assert(line.len() >= 9);
            assert(line.subrange(0, 5) =~= http_prefix());
            assert(starts_with(line, http_prefix()));
            assert(line.subrange(0, 8) =~= vc);
            assert(spec_parse_version(line) == Some(v));
            assert(line[8] == ' ');
            assert forall|j: int| 0 <= j < 8 implies #[trigger] line[j] != ' ' by {
                assert(line[j] == vc[j]);
            }
            lemma_find_char_at(line, ' ', 8);
            assert(line.subrange(9, line.len() as int) =~= st2);
        },
    }
}

/// The line text of a header entry, without its terminator.
pub open spec fn header_line_text(e: (Seq<char>, Seq<char>)) -> Seq<char> {
    e.0 + seq![':', ' '] + e.1
}

/// Rendered headers are their line texts joined with CR LF.
proof fn lemma_render_headers_block(hs: Seq<(Seq<char>, Seq<char>)>)
    ensures
        render_headers(hs) == lines_block(hs.map_values(|e: (Seq<char>, Seq<char>)| header_line_text(e))),
    decreases hs.len(),
{
    let f = |e: (Seq<char>, Seq<char>)| header_line_text(e);
    if hs.len() == 0 {
        assert(hs.map_values(f) =~= Seq::<Seq<char>>::empty());
        assert(render_headers(hs) =~= lines_block(hs.map_values(f)));
    } else {
        lemma_render_headers_block(hs.drop_first());
        let m = hs.map_values(f);
        assert(m.drop_first() =~= hs.drop_first().map_values(f));
        assert(m[0] == header_line_text(hs[0]));
        assert(lines_block(m) == m[0] + crlf() + lines_block(m.drop_first()));
        assert(header_line(hs[0]) =~= header_line_text(hs[0]) + crlf());
        assert(header_line(hs[0]) + render_headers(hs.drop_first()) =~= header_line_text(hs[0])
            + crlf() + lines_block(m.drop_first()));
    }
}

/// Rendering a well-formed message and parsing the text back yields
/// the original message, headers in the same order. The one message
/// shape left out is a nonempty body: the wire format writes the body
/// flush against the header block, so no parser could find its start
/// again.
pub proof fn lemma_render_parse_roundtrip(m: MessageModel)
    requires
        message_wf(m),
    ensures
        spec_parse_msg(render_msg(m)) == Some(m),
{
    let f = |e: (Seq<char>, Seq<char>)| header_line_text(e);
    let sl = render_start(m.start);
    let hs = m.headers;
    let hlines = hs.map_values(f);
    let lines = seq![sl] + hlines;
    lemma_render_headers_block(hs);
    assert(lines[0] == sl);
    assert(lines.drop_first() =~= hlines);
    assert(lines_block(lines) == sl + crlf() + lines_block(hlines));
    assert(render_msg(m) =~= lines_block(lines) + crlf() + crlf());

    // every joined line is nonempty and free of line breaks
    assert forall|k: int| 0 <= k < lines.len() implies line_ok(#[trigger] lines[k]) by {
        if k == 0 {
            lemma_start_line_ok(m.start);
        } else {
            let e = hs[k - 1];
            assert(header_ok(e));
            assert(lines[k] == header_line_text(e));
            let l = header_line_text(e);
            assert(l.len() > 0);
            assert forall|j: int| 0 <= j < l.len() implies #[trigger] l[j] != '\r' && l[j]
                != '\n' by {
                if j < e.0.len() {
                    assert(l[j] == e.0[j]);
                } else if j == e.0.len() {
                    assert(l[j] == ':');
                } else if j == e.0.len() + 1 {
                    assert(l[j] == ' ');
                } else {
                    assert(l[j] == e.1[j - e.0.len() - 2]);
                }
            }
        }
    }
    lemma_split_lines_block(lines, crlf());
    assert(split_lines(render_msg(m)) == Some((lines, crlf())));
    lemma_start_line_roundtrip(m.start);

    let parsed = lines.drop_first().map_values(|l: Seq<char>| spec_parse_header_line(l));
    assert forall|k: int| 0 <= k < hs.len() implies parsed[k] == hs[k] by {
        assert(lines.drop_first()[k] == hlines[k]);
        assert(hlines[k] == header_line_text(hs[k]));
        lemma_header_line_roundtrip(hs[k]);
    }
    assert(parsed =~= hs);

    assert(crlf().last() == '\n');
    assert(trim_nuls(crlf()) == crlf());
    assert(spec_parse_msg(render_msg(m)) == Some(
        MessageModel { start: m.start, headers: parsed, body: None },
    ));
    assert(MessageModel { start: m.start, headers: parsed, body: None } == m);
}

/// A successful lookup names an actual entry.
proof fn lemma_lookup_witness(hs: Seq<(Seq<char>, Seq<char>)>, key: Seq<char>, value: Seq<char>)
    requires
        lookup(hs, key) == Some(value),
    ensures
        exists|k: int| 0 <= k < hs.len() && #[trigger] hs[k] == (key, value),
    decreases hs.len(),
{
    if hs.len() > 0 {
        if hs[0].0 == key {
            assert(hs[0] == (key, value));
        } else {
            lemma_lookup_witness(hs.drop_first(), key, value);
            let k = choose|k: int|
                0 <= k < hs.drop_first().len() && #[trigger] hs.drop_first()[k] == (key, value);
            assert(hs[k + 1] == (key, value));
        }
    }
}

/// A header the lookup finds stands somewhere in the rendered text as
/// its own complete line.
pub proof fn lemma_rendered_header_line(m: MessageModel, key: Seq<char>, value: Seq<char>)
    requires
        lookup(m.headers, key) == Some(value),
    ensures
        exists|off: int|
            0 <= off && off + header_line((key, value)).len() <= render_msg(m).len()
                && #[trigger] render_msg(m).subrange(
                off,
                off + header_line((key, value)).len() as int,
            ) == header_line((key, value)),
{
    let hs = m.headers;
    lemma_lookup_witness(hs, key, value);
    let k = choose|k: int| 0 <= k < hs.len() && #[trigger] hs[k] == (key, value);
    let x = header_line(hs[k]);
    assert(hs =~= hs.subrange(0, k) + (seq![hs[k]] + hs.subrange(k + 1, hs.len() as int)));
    lemma_render_headers_concat(
        hs.subrange(0, k),
        seq![hs[k]] + hs.subrange(k + 1, hs.len() as int),
    );
    lemma_render_headers_concat(seq![hs[k]], hs.subrange(k + 1, hs.len() as int));
    assert(seq![hs[k]].drop_first() =~= Seq::<(Seq<char>, Seq<char>)>::empty());
    assert(render_headers(seq![hs[k]]) == header_line(seq![hs[k]][0]) + render_headers(
        seq![hs[k]].drop_first(),
    ));
    assert(seq![hs[k]][0] == hs[k]);
    assert(x + Seq::<char>::empty() =~= x);
    assert(render_headers(seq![hs[k]]) == x);
    let before = render_start(m.start) + crlf() + render_headers(hs.subrange(0, k));
    let after = render_headers(hs.subrange(k + 1, hs.len() as int)) + (match m.body {
        Some(b) => b,
        None => Seq::<char>::empty(),
    }) + crlf() + crlf();
    assert(render_msg(m) =~= before + x + after);
    let off = before.len() as int;
    assert forall|j: int| 0 <= j < x.len() implies (before + x + after)[off + j] == x[j] by {}
    assert(render_msg(m).subrange(off, off + x.len() as int) =~= x);
    assert(hs[k] == (key, value));
}

/// Host rewrite: after a forwarded request's `Host` header is bound
/// to the chosen backend's address, the rendered upstream text
/// contains a complete header line carrying exactly that address.
pub proof fn lemma_forwarded_host(m: MessageModel, key: Seq<char>, addr: Seq<char>)
    ensures
        exists|off: int|
            0 <= off && off + header_line((key, addr)).len() <= render_msg(
                MessageModel { start: m.start, headers: upsert(m.headers, key, addr), body: m.body },
            ).len() && #[trigger] render_msg(
                MessageModel { start: m.start, headers: upsert(m.headers, key, addr), body: m.body },
            ).subrange(off, off + header_line((key, addr)).len() as int) == header_line((key, addr)),
{
    let m2 = MessageModel { start: m.start, headers: upsert(m.headers, key, addr), body: m.body };
    crate::http::lemma_lookup_upsert(m.headers, key, addr);
    lemma_rendered_header_line(m2, key, addr);
}

/// A rendered start line is nonempty and free of line breaks.
proof fn lemma_start_line_ok(st: StartModel)
    requires
        match st {
            StartModel::Request(_, mm) => match method_route(mm) {
                Some(r) => token_ok(r),
                None => true,
            },
            StartModel::Response(_, s2) => text_ok(s2),
        },
    ensures
        line_ok(render_start(st)),
{
    let line = render_start(st);
    match st {
        StartModel::Request(v, mm) => {
            let tok = method_token(mm);
            let vc = version_chars(v);
            lemma_wire_words_token_ok(mm, v);
            match method_route(mm) {
                Some(r) => {
                    assert forall|j: int| 0 <= j < line.len() implies #[trigger] line[j] != '\r'
                        && line[j] != '\n' by {
                        let tl = tok.len() as int;
                        let rl = r.len() as int;
                        if j < tl {
                            assert(line[j] == tok[j]);
                        } else if j == tl {
                            assert(line[j] == ' ');
                        } else if j < tl + 1 + rl {
                            assert(line[j] == r[j - tl - 1]);
                        } else if j == tl + 1 + rl {
                            assert(line[j] == ' ');
                        } else {
                            assert(line[j] == vc[j - tl - 2 - rl]);
                        }
                    }
                },
                None => {
                    assert forall|j: int| 0 <= j < line.len() implies #[trigger] line[j] != '\r'
                        && line[j] != '\n' by {
                        let tl = tok.len() as int;
                        if j < tl {
                            assert(line[j] == tok[j]);
                        } else if j == tl {
                            assert(line[j] == ' ');
                        } else {
                            assert(line[j] == vc[j - tl - 1]);
                        }
                    }
                },
            }
        },
        StartModel::Response(v, st2) => {
            let vc = version_chars(v);
            lemma_wire_words_token_ok(MethodModel::Head, v);
            assert forall|j: int| 0 <= j < line.len() implies #[trigger] line[j] != '\r' && line[j]
                != '\n' by {
                if j < 8 {
                    assert(line[j] == vc[j]);
                } else if j == 8 {
                    assert(line[j] == ' ');
                } else {
                    assert(line[j] == st2[j - 9]);
                }
            }
        },
    }
}

} // verus!

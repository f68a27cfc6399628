use vstd::prelude::*;
use crate::text::{
    push_char, utf8_len, byte_len, chars_of, split_on, split_at_char, lines, lines_of, strip_cr,
    join_lines, lemma_lines_of_join, lemma_lines_no_newline, str_eq, lemma_split_on_single,
    lemma_split_on_at_sep,
};

verus! {

/// The request methods that are understood.
#[derive(Debug, PartialEq, Eq, Structural)]
pub enum HttpTypes {
    Post,
    Get,
}

/// The method and the requested path of a request.
#[derive(Debug)]
pub struct RequestType {
    pub http_type: HttpTypes,
    pub request: String,
}

/// The header fields of a request, as a map from name to value; a later field of the same
/// name replaces an earlier one.
#[derive(Debug)]
pub struct Headers {
    entries: Vec<(String, String)>,
}

/// The map that inserting the pairs one after the other into an empty map gives.
pub open spec fn headers_map(pairs: Seq<(Seq<char>, Seq<char>)>) -> Map<Seq<char>, Seq<char>>
    decreases pairs.len(),
{
    if pairs.len() == 0 {
        Map::empty()
    } else {
        headers_map(pairs.drop_last()).insert(pairs.last().0, pairs.last().1)
    }
}

/// The texts of a list of pairs of strings.
pub open spec fn pairs_view(v: Seq<(String, String)>) -> Seq<(Seq<char>, Seq<char>)> {
    v.map_values(|e: (String, String)| (e.0@, e.1@))
}

impl View for Headers {
    type V = Map<Seq<char>, Seq<char>>;

    closed spec fn view(&self) -> Map<Seq<char>, Seq<char>> {
        headers_map(pairs_view(self.entries@))
    }
}

proof fn lemma_headers_map_suffix_free(s: Seq<(Seq<char>, Seq<char>)>, i: int, k: Seq<char>)
    requires
        0 <= i <= s.len(),
        forall|t: int| i <= t < s.len() ==> (#[trigger] s[t]).0 != k,
    ensures
        headers_map(s).dom().contains(k) == headers_map(s.take(i)).dom().contains(k),
        headers_map(s).dom().contains(k) ==> headers_map(s)[k] == headers_map(s.take(i))[k],
    decreases s.len(),
{
    if i == s.len() {
        assert(s.take(i) =~= s);
    } else {
        lemma_headers_map_suffix_free(s.drop_last(), i, k);
        assert(s.drop_last().take(i) =~= s.take(i));
    }
}

impl Headers {
    /// No header field.
    pub fn new() -> (h: Headers)
        ensures
            h@ == Map::<Seq<char>, Seq<char>>::empty(),
    {
        let h = Headers { entries: Vec::new() };
        assert(pairs_view(h.entries@) =~= seq![]);
        h
    }

    /// Sets the field `key` to `value`.
    pub fn insert(&mut self, key: String, value: String)
        ensures
            final(self)@ == old(self)@.insert(key@, value@),
    {
        let ghost before = pairs_view(self.entries@);
        let ghost kv = (key@, value@);
        self.entries.push((key, value));
        assert(pairs_view(self.entries@) =~= before.push(kv));
        assert(pairs_view(self.entries@).drop_last() =~= before);
    }

    /// The value of the field `key`, if there is one.
    pub fn get(&self, key: &str) -> (r: Option<&String>)
        ensures
            r is Some <==> self@.dom().contains(key@),
            r matches Some(v) ==> v@ == self@[key@],
    {
        let ghost pv = pairs_view(self.entries@);
        let mut i = self.entries.len();
        while i > 0
            invariant
                i <= self.entries@.len(),
                pv == pairs_view(self.entries@),
                forall|t: int| i <= t < pv.len() ==> (#[trigger] pv[t]).0 != key@,
            decreases i,
        {
            if str_eq(self.entries[i - 1].0.as_str(), key) {
                proof {
                    lemma_headers_map_suffix_free(pv, i as int, key@);
                    assert(pv.take(i as int).drop_last() =~= pv.take(i - 1));
                }
                return Some(&self.entries[i - 1].1);
            }
            assert(pv[i - 1].0 != key@);
            i = i - 1;
        }
        proof { lemma_headers_map_suffix_free(pv, 0, key@); }
        None
    }

    /// The fields as pairs of name and value; inserting them in order into an empty map
    /// gives the same map.
    pub fn pairs(&self) -> (v: Vec<(String, String)>)
        ensures
            headers_map(pairs_view(v@)) == self@,
    {
        let n = self.entries.len();
        let mut v: Vec<(String, String)> = Vec::new();
        for i in 0..n
            invariant
                n == self.entries@.len(),
                pairs_view(v@) == pairs_view(self.entries@).take(i as int),
        {
            let ghost before = pairs_view(v@);
            let k = self.entries[i].0.clone();
            let val = self.entries[i].1.clone();
            assert(k@ == self.entries@[i as int].0@ && val@ == self.entries@[i as int].1@);
            v.push((k, val));
            assert(pairs_view(v@) =~= before.push((k@, val@)));
            assert(pairs_view(v@) =~= pairs_view(self.entries@).take(i + 1));
        }
        assert(pairs_view(self.entries@).take(n as int) =~= pairs_view(self.entries@));
        v
    }
}

/// A parsed request: method and path, body, header fields.
#[derive(Debug)]
pub struct Request {
    pub request: RequestType,
    pub body: String,
    pub headers: Headers,
}

/// The word `GET`.
pub open spec fn get_word() -> Seq<char> {
    seq!['G', 'E', 'T']
}

/// The word `POST`.
pub open spec fn post_word() -> Seq<char> {
    seq!['P', 'O', 'S', 'T']
}

/// A line shorter than three bytes ends the head of a request.
pub open spec fn is_short_line(l: Seq<char>) -> bool {
    utf8_len(l) < 3
}

/// The index of the first short line at or after `i`, if any.
pub open spec fn first_short_line(ls: Seq<Seq<char>>, i: int) -> Option<int>
    decreases ls.len() - i,
{
    if i < 0 || i >= ls.len() {
        None
    } else if is_short_line(ls[i]) {
        Some(i)
    } else {
        first_short_line(ls, i + 1)
    }
}

/// The name and value that a header line gives: its first two space-separated fields, the
/// name without its last character (the colon); `None` when either is empty.
pub open spec fn header_pair(line: Seq<char>) -> Option<(Seq<char>, Seq<char>)> {
    let f = split_on(line, ' ');
    let x = f[0];
    let y = if f.len() > 1 { f[1] } else { seq![] };
    if x.len() > 0 && y.len() > 0 {
        Some((x.drop_last(), y))
    } else {
        None
    }
}

/// The header map of the header lines, each applied in order.
pub open spec fn headers_from(ls: Seq<Seq<char>>) -> Map<Seq<char>, Seq<char>>
    decreases ls.len(),
{
    if ls.len() == 0 {
        Map::empty()
    } else {
        let m = headers_from(ls.drop_last());
        match header_pair(ls.last()) {
            Some(kv) => m.insert(kv.0, kv.1),
            None => m,
        }
    }
}

/// A header line gives its field whatever earlier lines gave it: the last line with a
/// name sets its value.
pub proof fn later_header_line_wins(ls: Seq<Seq<char>>, line: Seq<char>)
    requires
        header_pair(line) is Some,
    ensures
        headers_from(ls.push(line)).dom().contains(header_pair(line).unwrap().0),
        headers_from(ls.push(line))[header_pair(line).unwrap().0] == header_pair(line).unwrap().1,
{
    assert(ls.push(line).drop_last() =~= ls);
}

/// A header line `name value ...` gives the name without its last character (the colon)
/// and the value: the second space-separated field, whatever fields follow it.
pub proof fn header_line_gives_second_field(x: Seq<char>, y: Seq<char>, rest: Seq<char>)
    requires
        x.len() > 0,
        y.len() > 0,
        !x.contains(' '),
        !y.contains(' '),
        rest.len() == 0 || rest[0] == ' ',
    ensures
        header_pair(x.push(' ') + y + rest) == Some((x.drop_last(), y)),
{
    lemma_split_on_single(x, ' ');
    lemma_split_on_single(y, ' ');
    let line = x.push(' ') + y + rest;
    if rest.len() == 0 {
        assert(line =~= x.push(' ') + y);
        lemma_split_on_at_sep(x, y, ' ');
    } else {
        let r2 = rest.drop_first();
        assert(line =~= x.push(' ') + (y.push(' ') + r2));
        lemma_split_on_at_sep(x, y.push(' ') + r2, ' ');
        lemma_split_on_at_sep(y, r2, ' ');
        crate::text::lemma_split_on_nonempty(r2, ' ');
    }
}

/// A request `GET path`, one header line `name value ...` and an empty line, with CRLF line
/// ends, is a `GET` of `path` with an empty body whose one header field is the name
/// without its last character, set to the value (the second space-separated field). (The
/// text is taken to fit in memory.)
pub proof fn get_request_with_one_header(path: Seq<char>, x: Seq<char>, y: Seq<char>, rest: Seq<char>)
    requires
        path.len() > 0,
        x.len() > 0,
        y.len() > 0,
        !path.contains(' '),
        !x.contains(' '),
        !y.contains(' '),
        rest.len() == 0 || rest[0] == ' ',
        !path.contains('\n') && !x.contains('\n') && !y.contains('\n') && !rest.contains('\n'),
        !path.contains('\r') && !x.contains('\r') && !y.contains('\r') && !rest.contains('\r'),
        4 * (path.len() + x.len() + y.len() + rest.len()) + 64 <= usize::MAX,
    ensures
        parse_request_spec(
            seq!['G', 'E', 'T', ' '] + path + seq!['\r', '\n'] + x + seq![' '] + y + rest + seq!['\r', '\n', '\r', '\n'],
        ) == Some((HttpTypes::Get, path, Seq::<char>::empty(), Map::<Seq<char>, Seq<char>>::empty().insert(x.drop_last(), y))),
{
    let req = seq!['G', 'E', 'T', ' '] + path;
    let h = x.push(' ') + y + rest;
    let ls = seq![req.push('\r'), h.push('\r'), seq!['\r']];
    let text = seq!['G', 'E', 'T', ' '] + path + seq!['\r', '\n'] + x + seq![' '] + y + rest + seq!['\r', '\n', '\r', '\n'];
    let l2 = seq![req.push('\r'), h.push('\r')];
    let l1 = seq![req.push('\r')];
    assert(ls.drop_last() =~= l2);
    assert(l2.drop_last() =~= l1);
    assert(l1.drop_last() =~= Seq::<Seq<char>>::empty());
    assert(join_lines(l1.drop_last()) =~= Seq::<char>::empty());
    assert(l1.last() == req.push('\r'));
    assert(join_lines(l1) =~= req.push('\r').push('\n'));
    assert(l2.last() == h.push('\r'));
    assert(ls.last() == seq!['\r']);
    assert(join_lines(l2) =~= req.push('\r').push('\n') + h.push('\r').push('\n'));
    assert(join_lines(ls) =~= text);
    assert forall|k: int| 0 <= k < ls.len() implies !(#[trigger] ls[k]).contains('\n') by {
        if k == 0 {
            if ls[0].contains('\n') {
                let t = choose|t: int| 0 <= t < ls[0].len() && ls[0][t] == '\n';
                assert(path[t - 4] == '\n');
            }
        } else if k == 1 {
            if ls[1].contains('\n') {
                let t = choose|t: int| 0 <= t < ls[1].len() && ls[1][t] == '\n';
                if t < x.len() {
                    assert(x[t] == '\n');
                } else if x.len() < t < x.len() + 1 + y.len() {
                    assert(y[t - x.len() - 1] == '\n');
                } else if x.len() + 1 + y.len() <= t < h.len() {
                    assert(rest[t - x.len() - 1 - y.len()] == '\n');
                }
            }
        }
    }
    lemma_lines_of_join(ls);
    let lns = lines_of(text);
    assert(req.push('\r').drop_last() =~= req);
    assert(h.push('\r').drop_last() =~= h);
    assert(lns[0] == req);
    assert(lns[1] == h);
    assert(lns[2] =~= Seq::<char>::empty());
    crate::text::lemma_utf8_len_bounds(req);
    crate::text::lemma_utf8_len_bounds(h);
    crate::text::lemma_utf8_len_bounds(lns[2]);
    assert(!is_short_line(lns[0]));
    assert(!is_short_line(lns[1]));
    assert(is_short_line(lns[2]));
    lemma_first_short_line_found(lns, 0, 2);
    assert(req.last() == path.last());
    assert(h.last() != '\r') by {
        if rest.len() > 0 {
            assert(h.last() == rest[rest.len() - 1]);
        } else {
            assert(h.last() == y[y.len() - 1]);
        }
    }
    let head = lns.take(2).map_values(|l: Seq<char>| strip_cr(l));
    assert(head[0] == req);
    assert(head[1] == h);
    assert(lns.skip(3) =~= Seq::<Seq<char>>::empty());
    assert(lns.skip(3).flatten() =~= Seq::<char>::empty());
    lemma_split_on_single(path, ' ');
    assert(req =~= seq!['G', 'E', 'T'].push(' ') + path);
    lemma_split_on_at_sep(seq!['G', 'E', 'T'], path, ' ');
    lemma_split_on_single(seq!['G', 'E', 'T'], ' ');
    assert(split_on(req, ' ') =~= seq![seq!['G', 'E', 'T'], path]);
    assert(seq!['G', 'E', 'T'] =~= get_word());
    header_line_gives_second_field(x, y, rest);
    assert(head.skip(1) =~= seq![h]);
    assert(seq![h].drop_last() =~= Seq::<Seq<char>>::empty());
    assert(headers_from(Seq::<Seq<char>>::empty()) =~= Map::<Seq<char>, Seq<char>>::empty());
    assert(seq![h].last() == h);
    assert(header_pair(h) == Some((x.drop_last(), y)));
    assert(headers_from(seq![h]) =~= Map::<Seq<char>, Seq<char>>::empty().insert(x.drop_last(), y));
    assert(headers_from(head.skip(1)) =~= Map::<Seq<char>, Seq<char>>::empty().insert(x.drop_last(), y));
}

/// The method that the first field of the request line names.
pub open spec fn method_of(word: Seq<char>) -> Option<HttpTypes> {
    if word == get_word() {
        Some(HttpTypes::Get)
    } else if word == post_word() {
        Some(HttpTypes::Post)
    } else {
        None
    }
}

/// A request read from its text: method, path, body and header map. The head is the lines
/// before the first line shorter than three bytes (each without a trailing `\r`); the
/// body is the lines after that one, joined with nothing between them. The first head line
/// gives the method (`GET` or `POST`) and the path, the others the header fields. A head
/// without lines gives a `GET` of the empty path.
pub open spec fn parse_request_spec(text: Seq<char>) -> Option<(HttpTypes, Seq<char>, Seq<char>, Map<Seq<char>, Seq<char>>)> {
    let ls = lines_of(text);
    match first_short_line(ls, 0) {
        None => None,
        Some(h) => {
            let head = ls.take(h).map_values(|l: Seq<char>| strip_cr(l));
            let body = ls.skip(h + 1).flatten();
            if head.len() == 0 {
                Some((HttpTypes::Get, seq![], body, Map::empty()))
            } else {
                let f = split_on(head[0], ' ');
                match method_of(f[0]) {
                    None => None,
                    Some(m) => if f.len() < 2 {
                        None
                    } else {
                        Some((m, f[1], body, headers_from(head.skip(1))))
                    },
                }
            }
        }
    }
}

/// Whether `req` is the parsed request `p`.
pub open spec fn request_is(req: Request, p: (HttpTypes, Seq<char>, Seq<char>, Map<Seq<char>, Seq<char>>)) -> bool {
    &&& req.request.http_type == p.0
    &&& req.request.request@ == p.1
    &&& req.body@ == p.2
    &&& req.headers@ == p.3
}

proof fn lemma_first_short_line_found(ls: Seq<Seq<char>>, i: int, h: int)
    requires
        0 <= i <= h < ls.len(),
        is_short_line(ls[h]),
        forall|k: int| i <= k < h ==> !is_short_line(#[trigger] ls[k]),
    ensures
        first_short_line(ls, i) == Some(h),
    decreases h - i,
{
    if i < h {
        lemma_first_short_line_found(ls, i + 1, h);
    }
}

proof fn lemma_first_short_line_none(ls: Seq<Seq<char>>, i: int)
    requires
        0 <= i <= ls.len(),
        forall|k: int| i <= k < ls.len() ==> !is_short_line(#[trigger] ls[k]),
    ensures
        first_short_line(ls, i) == None::<int>,
    decreases ls.len() - i,
{
    if i < ls.len() {
        lemma_first_short_line_none(ls, i + 1);
    }
}

/// Reads a request from its text.
pub fn parse_request(whole_request: &str) -> (r: Option<Request>)
    ensures
        match parse_request_spec(whole_request@) {
            None => r is None,
            Some(p) => r matches Some(req) && request_is(req, p),
        },
{
    let ls = lines(whole_request);
    let ghost lv = ls@.map_values(|l: String| l@);
    let n = ls.len();
    let mut h: usize = 0;
    while h < n && byte_len(&ls[h]) >= 3
        invariant
            n == ls@.len(),
            h <= n,
            lv == ls@.map_values(|l: String| l@),
            forall|k: int| 0 <= k < h ==> !is_short_line(#[trigger] lv[k]),
        decreases n - h,
    {
        assert(lv[h as int] == ls@[h as int]@);
        h = h + 1;
    }
    if h == n {
        proof { lemma_first_short_line_none(lv, 0); }
        return None;
    }
    proof {
        assert(lv[h as int] == ls@[h as int]@);
        lemma_first_short_line_found(lv, 0, h as int);
    }
    // The head lines, each followed by a line break, and cut into lines again.
    let mut header_str = String::new();
    for k in 0..h
        invariant
            h < n == ls@.len(),
            lv == ls@.map_values(|l: String| l@),
            header_str@ == join_lines(lv.take(k as int)),
    {
        assert(lv.take(k + 1).drop_last() =~= lv.take(k as int));
        assert(lv[k as int] == ls@[k as int]@);
        header_str.append(ls[k].as_str());
        push_char(&mut header_str, '\n');
        assert(header_str@ =~= join_lines(lv.take(k as int)) + lv[k as int].push('\n'));
    }
    let head = lines(header_str.as_str());
    let ghost hv = head@.map_values(|l: String| l@);
    proof {
        lemma_lines_no_newline(whole_request@);
        assert forall|k: int| 0 <= k < lv.take(h as int).len() implies !(#[trigger] lv.take(h as int)[k]).contains('\n') by {
            assert(lv.take(h as int)[k] == lv[k]);
        }
        lemma_lines_of_join(lv.take(h as int));
    }
    // The body: the lines after the short one.
    let mut body = String::new();
    let ghost rest = lv.skip(h + 1);
    for k in h + 1..n
        invariant
            h < n == ls@.len(),
            lv == ls@.map_values(|l: String| l@),
            rest == lv.skip(h + 1),
            body@ == rest.take(k - h - 1).flatten(),
    {
        proof {
            rest.take(k - h - 1).lemma_flatten_push(rest[k - h - 1]);
            assert(rest.take(k - h) =~= rest.take(k - h - 1).push(rest[k - h - 1]));
            assert(rest[k - h - 1] == ls@[k as int]@);
        }
        body.append(ls[k].as_str());
    }
    assert(rest.take(n - h - 1) =~= rest);
    if head.len() == 0 {
        let req = Request {
            request: RequestType { http_type: HttpTypes::Get, request: String::new() },
            body,
            headers: Headers::new(),
        };
        return Some(req);
    }
    let fields = split_at_char(head[0].as_str(), ' ');
    let ghost fv = fields@.map_values(|p: String| p@);
    proof {
        crate::text::lemma_split_on_nonempty(hv[0], ' ');
        assert(hv[0] == head@[0]@);
        reveal_strlit("GET");
        reveal_strlit("POST");
        assert("GET"@ =~= get_word());
        assert("POST"@ =~= post_word());
        assert(fv[0] == fields@[0]@);
    }
    let http_type = if str_eq(fields[0].as_str(), "GET") {
        HttpTypes::Get
    } else if str_eq(fields[0].as_str(), "POST") {
        HttpTypes::Post
    } else {
        return None;
    };
    if fields.len() < 2 {
        return None;
    }
    assert(fv[1] == fields@[1]@);
    let path = fields[1].clone();
    let mut headers = Headers::new();
    let hn = head.len();
    for k in 1..hn
        invariant
            hn == head@.len(),
            hn > 0,
            hv == head@.map_values(|l: String| l@),
            headers@ == headers_from(hv.skip(1).take(k - 1)),
    {
        let f = split_at_char(head[k].as_str(), ' ');
        let ghost fk = f@.map_values(|p: String| p@);
        proof {
            assert(hv[k as int] == head@[k as int]@);
            crate::text::lemma_split_on_nonempty(hv[k as int], ' ');
            assert(fk[0] == f@[0]@);
            assert(hv.skip(1).take(k as int).drop_last() =~= hv.skip(1).take(k - 1));
            assert(hv.skip(1).take(k as int).last() == hv[k as int]);
        }
        let x = f[0].clone();
        let y = if f.len() > 1 {
            assert(fk[1] == f@[1]@);
            f[1].clone()
        } else {
            String::new()
        };
        if !x.as_str().is_empty() && !y.as_str().is_empty() {
            let xc = chars_of(x.as_str());
            let name = crate::text::string_from_chars(&xc.as_slice()[0..xc.len() - 1]);
            assert(name@ =~= x@.drop_last());
            headers.insert(name, y);
        }
    }
    assert(hv.skip(1).take(hn - 1) =~= hv.skip(1));
    let req = Request { request: RequestType { http_type, request: path }, body, headers };
    Some(req)
}

/// `String::from_utf8`: the text of `bytes` when they are valid UTF-8, as the
/// documentation says; `None` otherwise.
#[verifier::external_body]
fn decode_utf8(bytes: &[u8]) -> (r: Option<String>)
    ensures
        r is Some <==> vstd::utf8::valid_utf8(bytes@),
        r matches Some(s) ==> s@ == vstd::utf8::decode_utf8(bytes@),
{
    String::from_utf8(bytes.to_vec()).ok()
}

/// Reads a request from the bytes received: `None` unless they are UTF-8 and the text
/// parses.
pub fn parse_request_bytes(buf: &[u8]) -> (r: Option<Request>)
    ensures
        !vstd::utf8::valid_utf8(buf@) ==> r is None,
        vstd::utf8::valid_utf8(buf@) ==> match parse_request_spec(vstd::utf8::decode_utf8(buf@)) {
            None => r is None,
            Some(p) => r matches Some(req) && request_is(req, p),
        },
{
    match decode_utf8(buf) {
        Some(text) => parse_request(text.as_str()),
        None => None,
    }
}

/// What the server does with a request.
#[derive(Debug)]
pub enum Route {
    /// Hand the connection to the websocket experiment.
    Websocket,
    /// Answer with the file at this path.
    Serve(String),
    /// Do nothing.
    Ignore,
}

/// Whether the request asks for an upgrade to a websocket.
pub open spec fn wants_websocket(req: Request) -> bool {
    req.headers@.dom().contains("Upgrade"@) && req.headers@["Upgrade"@] == "websocket"@
}

/// How a request is answered: a websocket upgrade of `/` goes to the websocket experiment;
/// otherwise `/style.css` and `/favicon.ico` are served from the experiments directory, and
/// a `GET` of `/` gets the page of the base experiment; anything else is ignored.
pub open spec fn route_is(req: Request, r: Route) -> bool {
    let link = req.request.request@;
    if wants_websocket(req) {
        if link == "/"@ { r is Websocket } else { r is Ignore }
    } else if link == "/style.css"@ {
        r matches Route::Serve(p) && p@ == "src/experiments/style.css"@
    } else if link == "/favicon.ico"@ {
        r matches Route::Serve(p) && p@ == "src/experiments/favicon.ico"@
    } else if link == "/"@ && req.request.http_type == HttpTypes::Get {
        r matches Route::Serve(p) && p@ == "src/experiments/base/website.html"@
    } else {
        r is Ignore
    }
}

/// Whether the request asks for an upgrade to a websocket (its `Upgrade` field is
/// `websocket`).
pub fn is_websocket_upgrade(request: &Request) -> (b: bool)
    ensures
        b == wants_websocket(*request),
{
    match request.headers.get("Upgrade") {
        Some(v) => str_eq(v.as_str(), "websocket"),
        None => false,
    }
}

/// Decides how a request is answered.
pub fn route_request(request: &Request) -> (r: Route)
    ensures
        route_is(*request, r),
{
    let websocket = is_websocket_upgrade(request);
    let link = request.request.request.as_str();
    if websocket {
        if str_eq(link, "/") { Route::Websocket } else { Route::Ignore }
    } else if str_eq(link, "/style.css") {
        Route::Serve(String::from_str("src/experiments/style.css"))
    } else if str_eq(link, "/favicon.ico") {
        Route::Serve(String::from_str("src/experiments/favicon.ico"))
    } else if str_eq(link, "/") && request.request.http_type == HttpTypes::Get {
        Route::Serve(String::from_str("src/experiments/base/website.html"))
    } else {
        Route::Ignore
    }
}

/// The digit for `d` below ten.
pub open spec fn digit(d: nat) -> char {
    ((d + 48) as u32) as char
}

/// The decimal numeral of `n`.
pub open spec fn decimal(n: nat) -> Seq<char>
    decreases n,
{
    if n < 10 {
        seq![digit(n)]
    } else {
        decimal(n / 10).push(digit(n % 10))
    }
}

/// The decimal numeral of `n`.
pub fn decimal_string(n: usize) -> (s: String)
    ensures
        s@ == decimal(n as nat),
{
    let mut digits: Vec<char> = Vec::new();
    let mut m = n;
    // digits holds the numeral of the part of n already divided off, last digit first.
    while m >= 10
        invariant
            decimal(n as nat) == decimal(m as nat) + digits@.reverse(),
        decreases m,
    {
        let d = m % 10;
        let c = char_of_digit(d);
        let ghost before = digits@;
        digits.push(c);
        assert(digits@.reverse() =~= seq![c] + before.reverse());
        assert(decimal(m as nat) == decimal((m / 10) as nat).push(digit((m % 10) as nat)));
        assert(decimal((m / 10) as nat).push(c) + before.reverse() =~= decimal((m / 10) as nat) + (seq![c] + before.reverse()));
        m = m / 10;
    }
    let ghost before = digits@;
    let c = char_of_digit(m);
    digits.push(c);
    assert(digits@.reverse() =~= seq![c] + before.reverse());
    assert(decimal(n as nat) =~= digits@.reverse());
    let k = digits.len();
    let mut out: Vec<char> = Vec::new();
    for i in 0..k
        invariant
            k == digits@.len(),
            out@.len() == i,
            forall|j: int| 0 <= j < i ==> out@[j] == digits@[k - 1 - j],
    {
        out.push(digits[k - 1 - i]);
    }
    assert(out@ =~= digits@.reverse());
    crate::text::string_from_chars(out.as_slice())
}

fn char_of_digit(d: usize) -> (c: char)
    requires
        d < 10,
    ensures
        c == digit(d as nat),
{
    if d == 0 { '0' } else if d == 1 { '1' } else if d == 2 { '2' } else if d == 3 { '3' }
    else if d == 4 { '4' } else if d == 5 { '5' } else if d == 6 { '6' } else if d == 7 { '7' }
    else if d == 8 { '8' } else { '9' }
}

/// The last `.`-separated piece of a path (the whole path when it has no `.`).
pub open spec fn extension(path: Seq<char>) -> Seq<char> {
    split_on(path, '.').last()
}

/// The head of the answer that serves the file at `linker` of `length` bytes: the status
/// line, the length, and for a `png` file the content type, then an empty line.
pub open spec fn response_head_text(linker: Seq<char>, length: nat) -> Seq<char> {
    "HTTP/1.1 200 OK\r\nContent-Length: "@ + decimal(length) + "\r\n"@
        + (if extension(linker) == "png"@ { "Content-Type: image/png\r\n"@ } else { seq![] })
        + "\r\n"@
}

/// The head of the answer that serves the file at `linker` of `length` bytes.
pub fn response_head(linker: &str, length: usize) -> (head: String)
    ensures
        head@ == response_head_text(linker@, length as nat),
{
    let pieces = split_at_char(linker, '.');
    proof { crate::text::lemma_split_on_nonempty(linker@, '.'); }
    let ext = &pieces[pieces.len() - 1];
    assert(ext@ == extension(linker@));
    let mut head = String::from_str("HTTP/1.1 200 OK\r\nContent-Length: ");
    let num = decimal_string(length);
    head.append(num.as_str());
    head.append("\r\n");
    let png = str_eq(ext.as_str(), "png");
    if png {
        head.append("Content-Type: image/png\r\n");
    }
    head.append("\r\n");
    let ghost empty: Seq<char> = seq![];
    assert(png ==> head@ =~= response_head_text(linker@, length as nat));
    assert(!png ==> head@ =~= "HTTP/1.1 200 OK\r\nContent-Length: "@ + decimal(length as nat) + "\r\n"@ + empty + "\r\n"@);
    head
}

} // verus!

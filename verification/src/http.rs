//! The dashboard's HTTP decisions: which page a request line asks for, and
//! the exact bytes of each response. Only the request line matters; every
//! response closes the connection.
use vstd::prelude::*;
use vstd::string::StringExecFns;
use vstd::utf8::encode_utf8;

use crate::text::{chars_of, decimal, equals_text, find_char, first_index_of, push_decimal};

verus! {

/// The page served at `/`: polls `/api/counters` every two seconds.
pub const INDEX_HTML: &'static str = "<!doctype html>
<html>
<head>
<meta charset=\"utf-8\">
<title>vlan-rs dashboard</title>
<style>
body { font-family: sans-serif; margin: 2em; }
table { border-collapse: collapse; margin-bottom: 2em; }
td, th { border: 1px solid #ccc; padding: 0.3em 0.8em; text-align: right; }
.blocked { background: #fdd; }
</style>
</head>
<body>
<h1>vlan-rs dashboard</h1>
<h2>Ports</h2>
<table id=\"ports\"></table>
<h2>VLANs</h2>
<table id=\"vlans\"></table>
<script>
function mode(m) {
  if (!m) return \"\";
  if (m.kind === \"access\") return \"access \" + m.vlan;
  return \"trunk native \" + (m.native === null ? \"-\" : m.native) + \" allowed \" + m.allowed.join(\",\");
}
function row(cells, cls) {
  const tr = document.createElement(\"tr\");
  if (cls) tr.className = cls;
  for (const c of cells) {
    const td = document.createElement(\"td\");
    td.textContent = c;
    tr.appendChild(td);
  }
  return tr;
}
async function refresh() {
  try {
    const r = await fetch(\"/api/counters\");
    const d = await r.json();
    const ports = document.getElementById(\"ports\");
    ports.replaceChildren(row([\"port\", \"mode\", \"blocked\", \"frames in\", \"bytes in\", \"frames out\", \"bytes out\", \"drops\"]));
    for (const p of d.ports) {
      ports.appendChild(row([p.port, mode(p.mode), p.blocked, p.frames_in, p.bytes_in, p.frames_out, p.bytes_out, p.drops], p.blocked ? \"blocked\" : \"\"));
    }
    const vlans = document.getElementById(\"vlans\");
    vlans.replaceChildren(row([\"vlan\", \"frames in\", \"bytes in\", \"frames out\", \"bytes out\"]));
    for (const v of d.vlans) {
      vlans.appendChild(row([v.vlan, v.frames_in, v.bytes_in, v.frames_out, v.bytes_out]));
    }
  } catch (e) {}
}
refresh();
setInterval(refresh, 2000);
</script>
</body>
</html>
";

/// What a dashboard request asks for.
#[derive(Debug, Clone, Copy, PartialEq, Eq)]
pub enum Route {
    /// `GET /`: the page.
    Index,
    /// `GET /api/counters`: the counters as JSON.
    Counters,
    /// A `GET` of any other path.
    NotFound,
    /// Anything but a `GET`.
    MethodNotAllowed,
}

/// Unicode `White_Space`, the property `char::is_whitespace` tests.
pub open spec fn is_whitespace_spec(c: char) -> bool {
    ||| '\t' <= c <= '\r'
    ||| c == ' '
    ||| c == '\u{85}'
    ||| c == '\u{a0}'
    ||| c == '\u{1680}'
    ||| '\u{2000}' <= c <= '\u{200a}'
    ||| c == '\u{2028}'
    ||| c == '\u{2029}'
    ||| c == '\u{202f}'
    ||| c == '\u{205f}'
    ||| c == '\u{3000}'
}

/// Whether `c` is Unicode white space.
pub fn is_whitespace(c: char) -> (b: bool)
    ensures
        b == is_whitespace_spec(c),
{
    ('\t' <= c && c <= '\r') || c == ' ' || c == '\u{85}' || c == '\u{a0}' || c == '\u{1680}' || (
    '\u{2000}' <= c && c <= '\u{200a}') || c == '\u{2028}' || c == '\u{2029}' || c == '\u{202f}'
        || c == '\u{205f}' || c == '\u{3000}'
}

/// `s` up to (not including) its first line feed.
pub open spec fn first_line(s: Seq<char>) -> Seq<char> {
    match first_index_of(s, '\n', 0) {
        Some(k) => s.take(k),
        None => s,
    }
}

/// The maximal runs of non-white-space characters of `s`, in order, as
/// `str::split_whitespace` yields them.
pub open spec fn words(s: Seq<char>) -> Seq<Seq<char>>
    decreases s.len(),
{
    if s.len() == 0 {
        Seq::empty()
    } else {
        let w = words(s.drop_last());
        let c = s.last();
        if is_whitespace_spec(c) {
            w
        } else if s.len() >= 2 && !is_whitespace_spec(s[s.len() - 2]) {
            w.update(w.len() - 1, w.last().push(c))
        } else {
            w.push(seq![c])
        }
    }
}

/// Word `i` of `w`, empty when there are fewer words.
pub open spec fn word_or_empty(w: Seq<Seq<char>>, i: int) -> Seq<char> {
    if 0 <= i < w.len() {
        w[i]
    } else {
        Seq::empty()
    }
}

/// The route of a request whose head (request line first) is `head`: its
/// first word is the method and its second the path.
pub open spec fn route_spec(head: Seq<char>) -> Route {
    let w = words(first_line(head));
    let method = word_or_empty(w, 0);
    let path = word_or_empty(w, 1);
    if method == "GET"@ {
        if path == "/"@ {
            Route::Index
        } else if path == "/api/counters"@ {
            Route::Counters
        } else {
            Route::NotFound
        }
    } else {
        Route::MethodNotAllowed
    }
}

proof fn lemma_words_nonempty(s: Seq<char>)
    requires
        s.len() > 0,
        !is_whitespace_spec(s.last()),
    ensures
        words(s).len() >= 1,
    decreases s.len(),
{
    if s.len() >= 2 && !is_whitespace_spec(s[s.len() - 2]) {
        let t = s.drop_last();
        assert(t.last() == s[s.len() - 2]);
        lemma_words_nonempty(t);
    }
}

/// Decides which page the request whose head is `head` asks for.
pub fn route_request(head: &str) -> (r: Route)
    ensures
        r == route_spec(head@),
{
    let cs = chars_of(head);
    let n = cs.len();
    let end = match find_char(&cs, '\n', 0, n) {
        Some(k) => k,
        None => n,
    };
    let ghost line = first_line(head@);
    proof {
        assert(cs@.subrange(0, n as int) =~= cs@);
        assert(line =~= cs@.take(end as int));
    }
    let mut method: Vec<char> = Vec::new();
    let mut path: Vec<char> = Vec::new();
    let mut count: usize = 0;
    let mut in_word = false;
    let mut i: usize = 0;
    while i < end
        invariant
            end <= cs@.len(),
            line == cs@.take(end as int),
            i <= end,
            count <= 3,
            count == (if words(line.take(i as int)).len() < 3 {
                words(line.take(i as int)).len()
            } else {
                3
            }),
            in_word == (i > 0 && !is_whitespace_spec(line[i - 1])),
            method@ == word_or_empty(words(line.take(i as int)), 0),
            path@ == word_or_empty(words(line.take(i as int)), 1),
        decreases end - i,
    {
        let c = cs[i];
        let ghost t = line.take(i + 1);
        let ghost w = words(line.take(i as int));
        proof {
            assert(t.drop_last() =~= line.take(i as int));
            assert(t.last() == c);
        }
        if is_whitespace(c) {
            in_word = false;
        } else if in_word {
            proof {
                assert(t[t.len() - 2] == line[i - 1]);
                assert(line.take(i as int).last() == line[i - 1]);
                lemma_words_nonempty(line.take(i as int));
            }
            if count == 1 {
                method.push(c);
            } else if count == 2 {
                path.push(c);
            }
            proof {
                let w2 = words(t);
                assert(w2 == w.update(w.len() - 1, w.last().push(c)));
                assert(method@ =~= word_or_empty(w2, 0));
                assert(path@ =~= word_or_empty(w2, 1));
            }
        } else {
            if count < 3 {
                count = count + 1;
            }
            if count == 1 {
                method.push(c);
            } else if count == 2 {
                path.push(c);
            }
            proof {
                let w2 = words(t);
                assert(w2 == w.push(seq![c]));
                assert(method@ =~= word_or_empty(w2, 0));
                assert(path@ =~= word_or_empty(w2, 1));
            }
            in_word = true;
        }
        i = i + 1;
    }
    assert(line.take(end as int) =~= line);
    if equals_text(&method, "GET") {
        if equals_text(&path, "/") {
            Route::Index
        } else if equals_text(&path, "/api/counters") {
            Route::Counters
        } else {
            Route::NotFound
        }
    } else {
        Route::MethodNotAllowed
    }
}

/// A response with this status, content type and body: `Content-Length` is
/// the body's length in UTF-8 bytes.
pub open spec fn response_spec(status: Seq<char>, content_type: Seq<char>, body: Seq<char>) -> Seq<char> {
    "HTTP/1.1 "@ + status + "\r\nContent-Type: "@ + content_type + "\r\nContent-Length: "@ + decimal(
        encode_utf8(body).len(),
    ) + "\r\nConnection: close\r\n\r\n"@ + body
}

/// The response to a request on `route`; `counters` is the counters JSON
/// when the daemon could supply it.
pub open spec fn reply_spec(route: Route, counters: Option<Seq<char>>) -> Seq<char> {
    match route {
        Route::Index => response_spec("200 OK"@, "text/html; charset=utf-8"@, INDEX_HTML@),
        Route::Counters => match counters {
            Some(json) => response_spec("200 OK"@, "application/json"@, json),
            None => response_spec(
                "500 Internal Server Error"@,
                "text/plain"@,
                "daemon unavailable"@,
            ),
        },
        Route::NotFound => response_spec("404 Not Found"@, "text/plain"@, "not found"@),
        Route::MethodNotAllowed => response_spec(
            "405 Method Not Allowed"@,
            "text/plain"@,
            "GET only"@,
        ),
    }
}

fn push_response(out: &mut String, status: &str, content_type: &str, body: &str)
    ensures
        final(out)@ == old(out)@ + response_spec(status@, content_type@, body@),
{
    let ghost start = out@;
    out.append("HTTP/1.1 ");
    out.append(status);
    out.append("\r\nContent-Type: ");
    out.append(content_type);
    out.append("\r\nContent-Length: ");
    let bytes = body.as_bytes();
    let n = bytes.len();
    proof {
        vstd::slice::axiom_spec_len(bytes);
    }
    push_decimal(out, n as u64);
    out.append("\r\nConnection: close\r\n\r\n");
    out.append(body);
    assert(final(out)@ =~= start + response_spec(status@, content_type@, body@));
}

/// The full text of the response to a request on `route`, given the
/// counters JSON if the daemon supplied it.
pub fn reply(route: Route, counters: Option<String>) -> (text: String)
    ensures
        text@ == reply_spec(
            route,
            match counters {
                Some(json) => Some(json@),
                None => None,
            },
        ),
{
    let mut out = String::new();
    match route {
        Route::Index => push_response(&mut out, "200 OK", "text/html; charset=utf-8", INDEX_HTML),
        Route::Counters => match &counters {
            Some(json) => push_response(&mut out, "200 OK", "application/json", json.as_str()),
            None => push_response(
                &mut out,
                "500 Internal Server Error",
                "text/plain",
                "daemon unavailable",
            ),
        },
        Route::NotFound => push_response(&mut out, "404 Not Found", "text/plain", "not found"),
        Route::MethodNotAllowed => push_response(
            &mut out,
            "405 Method Not Allowed",
            "text/plain",
            "GET only",
        ),
    }
    assert(out@ =~= reply_spec(
        route,
        match counters {
            Some(json) => Some(json@),
            None => None,
        },
    ));
    out
}

} // verus!

//! What every peer shares.

use async_nats::ServerAddr;
use vstd::prelude::*;

verus! {

/// Where the broker is, unless told otherwise. Both ends reach each other through
/// it, so this is the only address either needs.
pub const DEFAULT_NATS: &'static str = "nats://127.0.0.1:4222";

/// Where an edge listens for games, and where games look.
pub const DEFAULT_EDGE: &'static str = "127.0.0.1:7777";

/// Largest payload a client asks a region to build.
///
/// Not umwelt's default, which is 1200 and does not fit: a packet reaches a
/// client on a QUIC datagram with a five-byte header in front of it, which offers
/// about 1162 bytes at the usual path MTU.
pub const PAYLOAD_BYTES: u16 = 1_100;

/// What a client declares.
#[derive(Clone, Copy, Debug, PartialEq, Eq, Structural)]
pub struct ClientLimits {
    /// Largest payload the client receives, in bytes.
    pub payload_bytes: u16,
    /// Ticks between payloads.
    pub send_period: u8,
}

/// `umwelt::ClientLimits::default`: payloads of 1200 bytes, every tick.
#[verifier::external_body]
fn default_limits() -> (limits: ClientLimits)
    ensures
        limits == (ClientLimits { payload_bytes: 1200, send_period: 1 }),
{
    let d = umwelt::ClientLimits::default();
    ClientLimits { payload_bytes: d.payload_bytes, send_period: d.send_period }
}

/// What every client declares. See [`PAYLOAD_BYTES`].
pub fn limits() -> (limits: ClientLimits)
    ensures
        limits == (ClientLimits { payload_bytes: PAYLOAD_BYTES, send_period: 1 }),
{
    let d: ClientLimits = default_limits();
    ClientLimits { payload_bytes: PAYLOAD_BYTES, send_period: d.send_period }
}

/// Whether a character is white space, as Unicode has it.
pub open spec fn is_space(c: char) -> bool {
    let n = c as u32;
    ||| 0x09 <= n <= 0x0d
    ||| n == 0x20
    ||| n == 0x85
    ||| n == 0xa0
    ||| n == 0x1680
    ||| 0x2000 <= n <= 0x200a
    ||| n == 0x2028
    ||| n == 0x2029
    ||| n == 0x202f
    ||| n == 0x205f
    ||| n == 0x3000
}

/// Without the white space in front.
pub open spec fn trim_start(s: Seq<char>) -> Seq<char>
    decreases s.len(),
{
    if s.len() > 0 && is_space(s[0]) {
        trim_start(s.skip(1))
    } else {
        s
    }
}

/// Without the white space behind.
pub open spec fn trim_end(s: Seq<char>) -> Seq<char>
    decreases s.len(),
{
    if s.len() > 0 && is_space(s.last()) {
        trim_end(s.drop_last())
    } else {
        s
    }
}

/// What stands between commas. A text without one is one piece.
pub open spec fn pieces(s: Seq<char>) -> Seq<Seq<char>>
    decreases s.len(),
{
    if s.len() == 0 {
        seq![Seq::empty()]
    } else {
        let front = pieces(s.drop_last());
        if s.last() == ',' {
            front.push(Seq::empty())
        } else {
            front.update(front.len() - 1, front.last().push(s.last()))
        }
    }
}

/// The servers that a comma-separated list names, as they are written.
pub open spec fn server_names(url: Seq<char>) -> Seq<Seq<char>> {
    pieces(url).map_values(|one: Seq<char>| trim_end(trim_start(one)))
}

/// Whether a character is white space.
fn space(c: char) -> (yes: bool)
    ensures
        yes == is_space(c),
{
    let n: u32 = c as u32;
    (0x09 <= n && n <= 0x0d) || n == 0x20 || n == 0x85 || n == 0xa0 || n == 0x1680 || (0x2000 <= n
        && n <= 0x200a) || n == 0x2028 || n == 0x2029 || n == 0x202f || n == 0x205f || n == 0x3000
}

/// Part of a text, without the white space round it.
fn trimmed(s: &str, from: usize, to: usize) -> (t: String)
    requires
        from <= to <= s@.len(),
    ensures
        t@ == trim_end(trim_start(s@.subrange(from as int, to as int))),
{
    let ghost part = s@.subrange(from as int, to as int);
    let mut a: usize = from;
    while a < to && space(s.get_char(a))
        invariant
            from <= a <= to <= s@.len(),
            part == s@.subrange(from as int, to as int),
            trim_start(part) == trim_start(s@.subrange(a as int, to as int)),
        ensures
            a == to || !is_space(s@[a as int]),
        decreases to - a,
    {
        assert(s@.subrange(a as int, to as int).skip(1) =~= s@.subrange(a + 1, to as int));
        a = a + 1;
    }
    let ghost rest = s@.subrange(a as int, to as int);
    assert(trim_start(part) == rest);
    let mut b: usize = to;
    while a < b && space(s.get_char((b - 1) as usize))
        invariant
            a <= b <= to <= s@.len(),
            rest == s@.subrange(a as int, to as int),
            trim_end(rest) == trim_end(s@.subrange(a as int, b as int)),
        ensures
            a == b || !is_space(s@[b - 1]),
        decreases b,
    {
        assert(s@.subrange(a as int, b as int).drop_last() =~= s@.subrange(a as int, b - 1));
        b = b - 1;
    }
    s.substring_char(a, b).to_owned()
}

/// The servers that a comma-separated list names, as they are written.
pub fn names_in(url: &str) -> (names: Vec<String>)
    ensures
        names@.map_values(|n: String| n@) == server_names(url@),
{
    let ghost text = url@;
    let mut names: Vec<String> = Vec::new();
    let len: usize = url.unicode_len();
    let mut from: usize = 0;
    assert(text.take(0) =~= Seq::empty());
    for k in 0..len
        invariant
            text == url@,
            len == text.len(),
            from <= k,
            pieces(text.take(k as int)).len() == names@.len() + 1,
            pieces(text.take(k as int)).last() == text.subrange(from as int, k as int),
            forall|i: int|
                0 <= i < names@.len() ==> (#[trigger] names@[i])@ == trim_end(
                    trim_start(pieces(text.take(k as int))[i]),
                ),
    {
        let ghost before = pieces(text.take(k as int));
        let ghost after = pieces(text.take(k + 1));
        assert(text.take(k + 1).drop_last() =~= text.take(k as int));
        assert(text.take(k + 1).last() == text[k as int]);
        if url.get_char(k) == ',' {
            names.push(trimmed(url, from, k));
            from = k + 1;
            assert(after == before.push(Seq::empty()));
            assert(text.subrange(from as int, k + 1) =~= Seq::empty());
        } else {
            assert(text.subrange(from as int, k as int).push(text[k as int]) =~= text.subrange(
                from as int,
                k + 1,
            ));
        }
    }
    assert(text.take(len as int) =~= text);
    names.push(trimmed(url, from, len));
    assert(names@.map_values(|n: String| n@) =~= server_names(text));
    names
}

/// The address of a NATS server that a text stands for, as a URL, or nothing if
/// it stands for none. What `async_nats::ServerAddr` makes of it: a scheme is
/// supplied where the text has none, and only those of NATS are taken.
pub uninterp spec fn server_url(text: Seq<char>) -> Option<Seq<char>>;

/// Reads the address of a NATS server: `ServerAddr::from_str`, and what
/// `as_url_str` says of the result.
#[verifier::external_body]
fn read_server(text: &str) -> (url: Option<String>)
    ensures
        match url {
            Some(u) => server_url(text@) == Some(u@),
            None => server_url(text@) is None,
        },
{
    match text.parse::<ServerAddr>() {
        Ok(addr) => Some(addr.as_url_str().to_owned()),
        Err(_) => None,
    }
}

/// A server whose address cannot be read.
#[derive(Debug, PartialEq, Eq)]
pub struct BadServer {
    /// How it was written.
    pub name: String,
}

/// Whether a server is the first of several that has no address.
pub open spec fn first_bad(urls: Seq<Option<Seq<char>>>, i: int) -> bool {
    &&& 0 <= i < urls.len()
    &&& urls[i] is None
    &&& forall|j: int| 0 <= j < i ==> #[trigger] urls[j] is Some
}

/// Whether a list of addresses is complete, or names the first server that has
/// none.
pub open spec fn gathers(
    names: Seq<Seq<char>>,
    urls: Seq<Option<Seq<char>>>,
    r: Result<Vec<String>, BadServer>,
) -> bool {
    match r {
        Ok(list) => {
            &&& list@.len() == urls.len()
            &&& forall|i: int| 0 <= i < urls.len() ==> #[trigger] urls[i] == Some(list@[i]@)
        },
        Err(bad) => exists|i: int| #[trigger] first_bad(urls, i) && names[i] == bad.name@,
    }
}

/// What a text that may be missing holds.
pub open spec fn text_of(s: Option<String>) -> Option<Seq<char>> {
    match s {
        Some(t) => Some(t@),
        None => None,
    }
}

/// Gathers the addresses of named servers. Fails at the first that has none.
pub fn gather(names: &Vec<String>, urls: Vec<Option<String>>) -> (r: Result<Vec<String>, BadServer>)
    requires
        names@.len() == urls@.len(),
    ensures
        gathers(
            names@.map_values(|n: String| n@),
            urls@.map_values(|u: Option<String>| text_of(u)),
            r,
        ),
{
    let ghost known = urls@.map_values(|u: Option<String>| text_of(u));
    let mut list: Vec<String> = Vec::new();
    for k in 0..urls.len()
        invariant
            names@.len() == urls@.len(),
            known == urls@.map_values(|u: Option<String>| text_of(u)),
            list@.len() == k,
            forall|i: int| 0 <= i < k ==> #[trigger] known[i] == Some(list@[i]@),
    {
        match &urls[k] {
            Some(u) => list.push(u.clone()),
            None => {
                assert(first_bad(known, k as int));
                return Err(BadServer { name: names[k].clone() });
            },
        }
    }
    Ok(list)
}

/// The addresses of the servers that a comma-separated list names.
pub fn servers(url: &str) -> (r: Result<Vec<String>, BadServer>)
    ensures
        gathers(
            server_names(url@),
            server_names(url@).map_values(|n: Seq<char>| server_url(n)),
            r,
        ),
{
    let names: Vec<String> = names_in(url);
    let ghost named = server_names(url@);
    let mut urls: Vec<Option<String>> = Vec::new();
    for k in 0..names.len()
        invariant
            named == names@.map_values(|n: String| n@),
            urls@.len() == k,
            forall|i: int| 0 <= i < k ==> text_of(#[trigger] urls@[i]) == server_url(named[i]),
    {
        assert(named[k as int] == names@[k as int]@);
        urls.push(read_server(names[k].as_str()));
    }
    assert(urls@.map_values(|u: Option<String>| text_of(u)) =~= named.map_values(
        |n: Seq<char>| server_url(n),
    ));
    gather(&names, urls)
}

/// Texts with a comma between each two.
pub open spec fn joined(parts: Seq<Seq<char>>) -> Seq<char>
    decreases parts.len(),
{
    if parts.len() == 0 {
        Seq::empty()
    } else if parts.len() == 1 {
        parts[0]
    } else {
        joined(parts.drop_last()) + seq![','] + parts.last()
    }
}

/// The pieces of a list hold no comma, and make up the list again with a comma
/// between each two: nothing is lost, and nothing is added.
pub proof fn pieces_make_up_the_list(s: Seq<char>)
    ensures
        joined(pieces(s)) == s,
        pieces(s).len() >= 1,
        forall|k: int|
            0 <= k < pieces(s).len() ==> !(#[trigger] pieces(s)[k]).contains(','),
    decreases s.len(),
{
    if s.len() > 0 {
        let front = s.drop_last();
        let c = s.last();
        pieces_make_up_the_list(front);
        let p = pieces(front);
        let q = pieces(s);
        let n = p.len() as int;
        if c == ',' {
            assert(q.drop_last() =~= p);
            assert(joined(q) =~= joined(p) + seq![',']);
            assert(s =~= front + seq![',']);
        } else {
            assert(q.drop_last() =~= p.drop_last());
            assert(q.last() == p.last().push(c));
            assert(joined(q) =~= joined(p).push(c)) by {
                assert(p.last() == p[n - 1]);
                assert(q.last() == q[n - 1]);
                assert(joined(p.drop_last()) + seq![','] + p.last().push(c) =~= (joined(
                    p.drop_last(),
                ) + seq![','] + p.last()).push(c));
            }
            assert(s =~= front.push(c));
            assert forall|k: int| 0 <= k < q.len() implies !(#[trigger] q[k]).contains(',') by {
                assert(!p[k].contains(','));
                if k == n - 1 && q[k].contains(',') {
                    let i = choose|i: int| 0 <= i < q[k].len() && q[k][i] == ',';
                    assert(i < p[k].len());
                    assert(p[k][i] == ',');
                }
            }
        }
    }
}

/// What is cut off in front is all white space, and what is left does not start with
/// any.
proof fn only_space_goes_in_front(s: Seq<char>) -> (a: int)
    ensures
        0 <= a <= s.len(),
        trim_start(s) == s.skip(a),
        forall|i: int| 0 <= i < a ==> is_space(#[trigger] s[i]),
        a < s.len() ==> !is_space(s[a]),
    decreases s.len(),
{
    if s.len() > 0 && is_space(s[0]) {
        let b = only_space_goes_in_front(s.skip(1));
        assert(s.skip(1).skip(b) =~= s.skip(b + 1));
        assert forall|i: int| 0 <= i < b + 1 implies is_space(#[trigger] s[i]) by {
            if i > 0 {
                assert(s.skip(1)[i - 1] == s[i]);
            }
        }
        b + 1
    } else {
        assert(s.skip(0) =~= s);
        0
    }
}

/// What is cut off behind is all white space, and what is left does not end with
/// any.
proof fn only_space_goes_behind(s: Seq<char>) -> (b: int)
    ensures
        0 <= b <= s.len(),
        trim_end(s) == s.take(b),
        forall|i: int| b <= i < s.len() ==> is_space(#[trigger] s[i]),
        b > 0 ==> !is_space(s[b - 1]),
    decreases s.len(),
{
    if s.len() > 0 && is_space(s.last()) {
        let front = s.drop_last();
        let b = only_space_goes_behind(front);
        assert(front.take(b) =~= s.take(b));
        assert forall|i: int| b <= i < s.len() implies is_space(#[trigger] s[i]) by {
            if i < front.len() {
                assert(front[i] == s[i]);
            }
        }
        b
    } else {
        assert(s.take(s.len() as int) =~= s);
        s.len() as int
    }
}

/// A list names a server for each of its pieces, in order: the piece without the
/// white space round it, and with all that is inside.
pub proof fn a_server_is_named_without_the_space_round_it(url: Seq<char>, k: int) -> (r: (int, int))
    requires
        0 <= k < pieces(url).len(),
    ensures
        ({
            let (a, b) = r;
            let piece = pieces(url)[k];
            let name = server_names(url)[k];
            &&& server_names(url).len() == pieces(url).len()
            &&& 0 <= a <= b <= piece.len()
            &&& name == piece.subrange(a, b)
            &&& forall|i: int| 0 <= i < a ==> is_space(#[trigger] piece[i])
            &&& forall|i: int| b <= i < piece.len() ==> is_space(#[trigger] piece[i])
            &&& name.len() > 0 ==> !is_space(name[0]) && !is_space(name.last())
        }),
{
    let piece = pieces(url)[k];
    let a = only_space_goes_in_front(piece);
    let rest = piece.skip(a);
    let c = only_space_goes_behind(rest);
    assert(rest.take(c) =~= piece.subrange(a, a + c));
    assert forall|i: int| a + c <= i < piece.len() implies is_space(#[trigger] piece[i]) by {
        assert(rest[i - a] == piece[i]);
    }
    if c > 0 {
        assert(rest[0] == piece[a]);
        assert(rest[c - 1] == piece[a + c - 1]);
    }
    (a, a + c)
}

/// The addresses of a list are all there, in order, or the first server without one
/// is named: all those before it have one.
pub proof fn the_first_without_an_address_is_named(
    names: Seq<Seq<char>>,
    urls: Seq<Option<Seq<char>>>,
    r: Result<Vec<String>, BadServer>,
    i: int,
)
    requires
        gathers(names, urls, r),
        0 <= i < urls.len(),
        forall|j: int| 0 <= j < i ==> #[trigger] urls[j] is Some,
    ensures
        urls[i] is None ==> r is Err && r->Err_0.name@ == names[i],
        r is Ok ==> urls[i] == Some(r->Ok_0@[i]@) && r->Ok_0@.len() == urls.len(),
{
    if let Err(bad) = r {
        let k = choose|k: int| #[trigger] first_bad(urls, k) && names[k] == bad.name@;
        if urls[i] is None {
            if k < i {
                assert(urls[k] is Some);
            }
            if i < k {
                assert(urls[i] is Some);
            }
        }
    }
}

/// White space is these characters: the controls from tab to carriage return, the
/// space, the next line, the no-break spaces, the spaces of typography, the line and
/// the paragraph separator, and the ideographic space. A letter, a digit or a mark is
/// none.
pub proof fn white_space_is_these_characters(c: char)
    ensures
        is_space(c) <==> {
            let n = c as int;
            ||| n == 9 || n == 10 || n == 11 || n == 12 || n == 13 || n == 32
            ||| n == 133 || n == 160 || n == 5760
            ||| n == 8192 || n == 8193 || n == 8194 || n == 8195 || n == 8196 || n == 8197
            ||| n == 8198 || n == 8199 || n == 8200 || n == 8201 || n == 8202
            ||| n == 8232 || n == 8233 || n == 8239 || n == 8287 || n == 12288
        },
        33 <= c as int <= 126 ==> !is_space(c),
{
}

} // verus!

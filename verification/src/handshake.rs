//! The HTTP upgrade handshake: header parsing and validation, and the
//! Sec-WebSocket-Accept computation over SHA-1 and Base64.

use vstd::prelude::*;
use crate::bytesutil::{bytes_eq, contains_seq, find_byte, spec_contains, spec_find_byte};
use sha1::Digest;
use base64ct::Encoding;

verus! {

broadcast use vstd::seq_lib::group_seq_properties;

/// A required upgrade-request header that is missing or malformed; the
/// upgrade is aborted before any connection exists.
#[derive(Clone, Copy, PartialEq, Eq, Structural, Debug)]
pub enum HandshakeError {
    /// No Connection header, or its first value lacks the Upgrade token.
    BadConnectionHeader,
    /// No Upgrade header, or its first value lacks the WebSocket token.
    BadUpgradeHeader,
    /// No Sec-WebSocket-Key header.
    BadKeyHeader,
}

/// The lower-cased name of the Connection header. (The bytes spell "connection".)
pub open spec fn connection_name() -> Seq<u8> {
    seq![99u8, 111u8, 110u8, 110u8, 101u8, 99u8, 116u8, 105u8, 111u8, 110u8]
}

/// The same bytes as an executable value.
pub fn connection_name_bytes() -> (r: Vec<u8>)
    ensures
        r@ == connection_name(),
{
    let mut v: Vec<u8> = Vec::new();
    v.push(99);
    v.push(111);
    v.push(110);
    v.push(110);
    v.push(101);
    v.push(99);
    v.push(116);
    v.push(105);
    v.push(111);
    v.push(110);
    proof {
        assert(v@ =~= connection_name());
    }
    v
}

/// The lower-cased name of the Upgrade header. (The bytes spell "upgrade".)
pub open spec fn upgrade_name() -> Seq<u8> {
    seq![117u8, 112u8, 103u8, 114u8, 97u8, 100u8, 101u8]
}

/// The same bytes as an executable value.
pub fn upgrade_name_bytes() -> (r: Vec<u8>)
    ensures
        r@ == upgrade_name(),
{
    let mut v: Vec<u8> = Vec::new();
    v.push(117);
    v.push(112);
    v.push(103);
    v.push(114);
    v.push(97);
    v.push(100);
    v.push(101);
    proof {
        assert(v@ =~= upgrade_name());
    }
    v
}

/// The lower-cased name of the Sec-WebSocket-Key header. (The bytes spell "sec-websocket-key".)
pub open spec fn key_name() -> Seq<u8> {
    seq![115u8, 101u8, 99u8, 45u8, 119u8, 101u8, 98u8, 115u8, 111u8, 99u8, 107u8, 101u8, 116u8, 45u8, 107u8, 101u8, 121u8]
}

/// The same bytes as an executable value.
pub fn key_name_bytes() -> (r: Vec<u8>)
    ensures
        r@ == key_name(),
{
    let mut v: Vec<u8> = Vec::new();
    v.push(115);
    v.push(101);
    v.push(99);
    v.push(45);
    v.push(119);
    v.push(101);
    v.push(98);
    v.push(115);
    v.push(111);
    v.push(99);
    v.push(107);
    v.push(101);
    v.push(116);
    v.push(45);
    v.push(107);
    v.push(101);
    v.push(121);
    proof {
        assert(v@ =~= key_name());
    }
    v
}

/// The token the Connection header must contain. (The bytes spell "Upgrade".)
pub open spec fn upgrade_token() -> Seq<u8> {
    seq![85u8, 112u8, 103u8, 114u8, 97u8, 100u8, 101u8]
}

/// The same bytes as an executable value.
pub fn upgrade_token_bytes() -> (r: Vec<u8>)
    ensures
        r@ == upgrade_token(),
{
    let mut v: Vec<u8> = Vec::new();
    v.push(85);
    v.push(112);
    v.push(103);
    v.push(114);
    v.push(97);
    v.push(100);
    v.push(101);
    proof {
        assert(v@ =~= upgrade_token());
    }
    v
}

/// The token the Upgrade header must contain. (The bytes spell "WebSocket".)
pub open spec fn websocket_token() -> Seq<u8> {
    seq![87u8, 101u8, 98u8, 83u8, 111u8, 99u8, 107u8, 101u8, 116u8]
}

/// The same bytes as an executable value.
pub fn websocket_token_bytes() -> (r: Vec<u8>)
    ensures
        r@ == websocket_token(),
{
    let mut v: Vec<u8> = Vec::new();
    v.push(87);
    v.push(101);
    v.push(98);
    v.push(83);
    v.push(111);
    v.push(99);
    v.push(107);
    v.push(101);
    v.push(116);
    proof {
        assert(v@ =~= websocket_token());
    }
    v
}

/// The fixed GUID appended to the client key before hashing. (The bytes spell "258EAFA5-E914-47DA-95CA-C5AB0DC85B11".)
pub open spec fn guid() -> Seq<u8> {
    seq![50u8, 53u8, 56u8, 69u8, 65u8, 70u8, 65u8, 53u8, 45u8, 69u8, 57u8, 49u8, 52u8, 45u8, 52u8, 55u8, 68u8, 65u8, 45u8, 57u8, 53u8, 67u8, 65u8, 45u8, 67u8, 53u8, 65u8, 66u8, 48u8, 68u8, 67u8, 56u8, 53u8, 66u8, 49u8, 49u8]
}

/// The same bytes as an executable value.
pub fn guid_bytes() -> (r: Vec<u8>)
    ensures
        r@ == guid(),
{
    let mut v: Vec<u8> = Vec::new();
    v.push(50);
    v.push(53);
    v.push(56);
    v.push(69);
    v.push(65);
    v.push(70);
    v.push(65);
    v.push(53);
    v.push(45);
    v.push(69);
    v.push(57);
    v.push(49);
    v.push(52);
    v.push(45);
    v.push(52);
    v.push(55);
    v.push(68);
    v.push(65);
    v.push(45);
    v.push(57);
    v.push(53);
    v.push(67);
    v.push(65);
    v.push(45);
    v.push(67);
    v.push(53);
    v.push(65);
    v.push(66);
    v.push(48);
    v.push(68);
    v.push(67);
    v.push(56);
    v.push(53);
    v.push(66);
    v.push(49);
    v.push(49);
    proof {
        assert(v@ =~= guid());
    }
    v
}

/// A byte mapped to its ASCII lower-case form.
pub open spec fn spec_lower_byte(c: u8) -> u8 {
    if 65 <= c <= 90 {
        (c + 32) as u8
    } else {
        c
    }
}

/// A byte string mapped to ASCII lower case.
pub open spec fn lower_seq(s: Seq<u8>) -> Seq<u8> {
    s.map_values(|c: u8| spec_lower_byte(c))
}

/// ASCII lower-casing, byte by byte.
pub fn to_lower(s: &[u8]) -> (r: Vec<u8>)
    ensures
        r@ == lower_seq(s@),
{
    let mut out: Vec<u8> = Vec::new();
    let n = s.len();
    let mut i: usize = 0;
    while i < n
        invariant
            i <= n,
            n == s@.len(),
            out@.len() == i,
            forall|j: int| 0 <= j < i ==> out@[j] == spec_lower_byte(s@[j]),
        decreases n - i,
    {
        let c = s[i];
        if 65 <= c && c <= 90 {
            out.push(c + 32);
        } else {
            out.push(c);
        }
        i = i + 1;
    }
    proof {
        assert(out@ =~= lower_seq(s@));
    }
    out
}

/// ASCII whitespace, as header values are trimmed of it.
pub open spec fn is_ws(c: u8) -> bool {
    c == 32 || c == 9 || c == 13 || c == 10
}

/// Leading whitespace dropped, then trailing whitespace dropped.
pub open spec fn spec_trim(s: Seq<u8>) -> Seq<u8>
    decreases s.len(),
{
    if s.len() > 0 && is_ws(s[0]) {
        spec_trim(s.skip(1))
    } else {
        spec_trim_end(s)
    }
}

/// Trailing whitespace dropped.
pub open spec fn spec_trim_end(s: Seq<u8>) -> Seq<u8>
    decreases s.len(),
{
    if s.len() > 0 && is_ws(s[s.len() - 1]) {
        spec_trim_end(s.drop_last())
    } else {
        s
    }
}

/// Whether a byte is ASCII whitespace.
pub fn is_ws_byte(c: u8) -> (r: bool)
    ensures
        r == is_ws(c),
{
    c == 32 || c == 9 || c == 13 || c == 10
}

/// Both ends trimmed of ASCII whitespace.
pub fn trim_bytes(s: &[u8]) -> (r: Vec<u8>)
    ensures
        r@ == spec_trim(s@),
{
    let n = s.len();
    let mut start: usize = 0;
    while start < n && is_ws_byte(s[start])
        invariant
            start <= n,
            n == s@.len(),
            spec_trim(s@) == spec_trim(s@.skip(start as int)),
        decreases n - start,
    {
        proof {
            assert(s@.skip(start as int).skip(1) =~= s@.skip(start + 1));
        }
        start = start + 1;
    }
    let mut end: usize = n;
    while end > start && is_ws_byte(s[end - 1])
        invariant
            start <= end <= n,
            n == s@.len(),
            spec_trim(s@) == spec_trim(s@.skip(start as int)),
            start < n ==> !is_ws(s@[start as int]),
            spec_trim(s@.skip(start as int)) == spec_trim_end(
                s@.subrange(start as int, end as int),
            ),
        decreases end,
    {
        proof {
            let cur = s@.subrange(start as int, end as int);
            assert(cur.drop_last() =~= s@.subrange(start as int, end - 1));
        }
        end = end - 1;
    }
    let r = vstd::slice::slice_to_vec(vstd::slice::slice_subrange(s, start, end));
    proof {
        let cur = s@.subrange(start as int, end as int);
        assert(spec_trim_end(cur) == cur);
        assert(r@ == spec_trim(s@));
    }
    r
}

/// A header line split at its first colon: the name lower-cased, the value
/// trimmed. A line without a colon parses to nothing.
pub open spec fn spec_parse_header_line(line: Seq<u8>) -> Option<(Seq<u8>, Seq<u8>)> {
    match spec_find_byte(line, 58) {
        None => None,
        Some(i) => Some((lower_seq(line.take(i)), spec_trim(line.skip(i + 1)))),
    }
}

/// Splits one raw header line into its lower-cased name and trimmed value.
pub fn parse_header_line(line: &[u8]) -> (r: Option<(Vec<u8>, Vec<u8>)>)
    ensures
        match spec_parse_header_line(line@) {
            None => r is None,
            Some(p) => r matches Some(q) && q.0@ == p.0 && q.1@ == p.1,
        },
{
    proof {
        crate::bytesutil::lemma_find_byte(line@, 58);
    }
    let n = line.len();
    match find_byte(line, 58) {
        None => None,
        Some(i) => {
            let name = to_lower(vstd::slice::slice_subrange(line, 0, i));
            let value = trim_bytes(vstd::slice::slice_subrange(line, i + 1, n));
            Some((name, value))
        },
    }
}

/// One parsed header: its lower-cased name and every value it arrived
/// with, in arrival order.
pub struct HeaderEntry {
    pub name: Vec<u8>,
    pub values: Vec<Vec<u8>>,
}

/// The model of one header entry.
pub open spec fn entry_model(e: &HeaderEntry) -> (Seq<u8>, Seq<Seq<u8>>) {
    (e.name@, Seq::new(e.values@.len(), |i: int| e.values@[i]@))
}

/// The parsed headers of one upgrade request, in arrival order.
pub struct Headers {
    entries: Vec<HeaderEntry>,
}

impl View for Headers {
    type V = Seq<(Seq<u8>, Seq<Seq<u8>>)>;

    closed spec fn view(&self) -> Seq<(Seq<u8>, Seq<Seq<u8>>)> {
        Seq::new(self.entries@.len(), |i: int| entry_model(&self.entries@[i]))
    }
}

/// The first entry carrying `name`, if any.
pub open spec fn spec_find_header(h: Seq<(Seq<u8>, Seq<Seq<u8>>)>, name: Seq<u8>) -> Option<int>
    decreases h.len(),
{
    if h.len() == 0 {
        None
    } else if h[0].0 == name {
        Some(0)
    } else {
        match spec_find_header(h.skip(1), name) {
            Some(i) => Some(i + 1),
            None => None,
        }
    }
}

/// The first value of the first entry carrying `name`: the one value that
/// is consulted, however many times the header arrived.
pub open spec fn spec_first_value(h: Seq<(Seq<u8>, Seq<Seq<u8>>)>, name: Seq<u8>) -> Option<
    Seq<u8>,
> {
    match spec_find_header(h, name) {
        Some(i) => Some(h[i].1[0]),
        None => None,
    }
}

/// What the first matching entry means positionally.
pub proof fn lemma_find_header(h: Seq<(Seq<u8>, Seq<Seq<u8>>)>, name: Seq<u8>)
    ensures
        match spec_find_header(h, name) {
            Some(i) => 0 <= i < h.len() && h[i].0 == name && (forall|j: int|
                0 <= j < i ==> h[j].0 != name),
            None => forall|j: int| 0 <= j < h.len() ==> h[j].0 != name,
        },
    decreases h.len(),
{
    if h.len() > 0 && h[0].0 != name {
        lemma_find_header(h.skip(1), name);
        if spec_find_header(h.skip(1), name) is Some {
            let i = spec_find_header(h.skip(1), name)->Some_0;
            assert forall|j: int| 0 <= j < i + 1 implies h[j].0 != name by {
                if j > 0 {
                    assert(h.skip(1)[j - 1].0 != name);
                }
            }
        } else {
            assert forall|j: int| 0 <= j < h.len() implies h[j].0 != name by {
                if j > 0 {
                    assert(h.skip(1)[j - 1].0 != name);
                }
            }
        }
    }
}

impl Headers {
    /// Every entry holds at least one value.
    pub open spec fn wf(&self) -> bool {
        forall|i: int| 0 <= i < self@.len() ==> #[trigger] self@[i].1.len() >= 1
    }

    /// No headers yet.
    pub fn new() -> (r: Headers)
        ensures
            r@ == Seq::<(Seq<u8>, Seq<Seq<u8>>)>::empty(),
            r.wf(),
    {
        let r = Headers { entries: Vec::new() };
        proof {
            assert(r@ =~= Seq::<(Seq<u8>, Seq<Seq<u8>>)>::empty());
        }
        r
    }

    /// Records one `name: value` pair: appended to the entry already
    /// carrying the name, or opening a new entry at the end.
    pub fn insert(&mut self, name: Vec<u8>, value: Vec<u8>)
        requires
            old(self).wf(),
        ensures
            final(self).wf(),
            match spec_find_header(old(self)@, name@) {
                Some(i) => final(self)@ == old(self)@.update(
                    i,
                    (old(self)@[i].0, old(self)@[i].1.push(value@)),
                ),
                None => final(self)@ == old(self)@.push((name@, seq![value@])),
            },
    {
        proof {
            lemma_find_header(self@, name@);
        }
        let n = self.entries.len();
        let mut i: usize = 0;
        while i < n
            invariant
                old(self).wf(),
                self@ == old(self)@,
                i <= n,
                n == self.entries@.len(),
                self@.len() == n,
                forall|j: int| 0 <= j < i ==> self@[j].0 != name@,
            decreases n - i,
        {
            if bytes_eq(self.entries[i].name.as_slice(), name.as_slice()) {
                proof {
                    assert(self@[i as int].0 == name@);
                    lemma_find_header(self@, name@);
                    if spec_find_header(self@, name@) is None {
                        assert(false);
                    }
                    assert(spec_find_header(self@, name@) == Some(i as int));
                }
                let ghost before = self@;
                let mut e = self.entries.remove(i);
                e.values.push(value);
                self.entries.insert(i, e);
                proof {
                    let target = before.update(
                        i as int,
                        (before[i as int].0, before[i as int].1.push(value@)),
                    );
                    assert(self@ =~~= target);
                    assert forall|j: int| 0 <= j < self@.len() implies #[trigger] self@[j].1.len()
                        >= 1 by {
                        if j != i {
                            assert(self@[j] == before[j]);
                            assert(before[j].1.len() >= 1);
                        }
                    }
                }
                return ;
            }
            i = i + 1;
        }
        proof {
            if spec_find_header(self@, name@) is Some {
                lemma_find_header(self@, name@);
                let k = spec_find_header(self@, name@)->Some_0;
                assert(self@[k].0 == name@);
                assert(false);
            }
        }
        let ghost before = self@;
        let mut values: Vec<Vec<u8>> = Vec::new();
        values.push(value);
        self.entries.push(HeaderEntry { name, values });
        proof {
            assert(self@ =~~= before.push((name@, seq![value@])));
            assert forall|j: int| 0 <= j < self@.len() implies #[trigger] self@[j].1.len()
                >= 1 by {
                if j < before.len() {
                    assert(self@[j] == before[j]);
                    assert(before[j].1.len() >= 1);
                }
            }
        }
    }

    /// The first value the named header arrived with, if it arrived at all.
    pub fn get_first(&self, name: &[u8]) -> (r: Option<Vec<u8>>)
        requires
            self.wf(),
        ensures
            match spec_first_value(self@, name@) {
                Some(v) => r matches Some(rv) && rv@ == v,
                None => r is None,
            },
    {
        proof {
            lemma_find_header(self@, name@);
        }
        let n = self.entries.len();
        let mut i: usize = 0;
        while i < n
            invariant
                self.wf(),
                i <= n,
                n == self.entries@.len(),
                self@.len() == n,
                forall|j: int| 0 <= j < i ==> self@[j].0 != name@,
                match spec_find_header(self@, name@) {
                    Some(k) => 0 <= k < self@.len() && self@[k].0 == name@ && (forall|j: int|
                        0 <= j < k ==> self@[j].0 != name@),
                    None => forall|j: int| 0 <= j < self@.len() ==> self@[j].0 != name@,
                },
            decreases n - i,
        {
            if bytes_eq(self.entries[i].name.as_slice(), name) {
                proof {
                    assert(self@[i as int].0 == name@);
                    assert(spec_find_header(self@, name@) == Some(i as int));
                }
                proof {
                    assert(self@[i as int].1.len() >= 1);
                }
                let v = vstd::slice::slice_to_vec(self.entries[i].values[0].as_slice());
                proof {
                    assert(v@ =~= self@[i as int].1[0]);
                }
                return Some(v);
            }
            i = i + 1;
        }
        proof {
            if spec_find_header(self@, name@) is Some {
                let k = spec_find_header(self@, name@)->Some_0;
                assert(self@[k].0 == name@);
                assert(false);
            }
        }
        None
    }
}

// WRAPPERS

/// The SHA-1 digest of a byte string: named, not spelled out, and fixed by
/// the input bytes alone.
pub uninterp spec fn sha1_of(data: Seq<u8>) -> Seq<u8>;

/// Relies on the sha1 crate's one-shot digest (`Sha1::digest` via the
/// `Digest` trait): the 20-byte SHA-1 digest of the input, a function of
/// the input bytes alone.
#[verifier::external_body]
fn sha1_digest(data: &Vec<u8>) -> (r: Vec<u8>)
    ensures
        r@ == sha1_of(data@),
        r@.len() == 20,
{
    sha1::Sha1::digest(data.as_slice()).to_vec()
}

/// The standard padded Base64 encoding of a byte string, named; fixed by
/// the input bytes alone.
pub uninterp spec fn base64_of(data: Seq<u8>) -> Seq<u8>;

/// Relies on base64ct::Base64::encode_string: standard padded Base64 of
/// the input, four output bytes for every three input bytes rounded up; it
/// panics on inputs longer than a quarter of the address space, which the
/// precondition rules out.
#[verifier::external_body]
fn base64_encode(data: &Vec<u8>) -> (r: Vec<u8>)
    requires
        data@.len() <= usize::MAX / 4,
    ensures
        r@ == base64_of(data@),
        r@.len() == ((data@.len() + 2) / 3) * 4,
{
    base64ct::Base64::encode_string(data.as_slice()).into_bytes()
}

/// The accept value owed for a client key: Base64 of the SHA-1 digest of
/// the key with the fixed GUID appended.
pub open spec fn spec_accept_value(key: Seq<u8>) -> Seq<u8> {
    base64_of(sha1_of(key + guid()))
}

/// Computes the Sec-WebSocket-Accept value for a client key.
pub fn compute_accept(key: &[u8]) -> (r: Vec<u8>)
    ensures
        r@ == spec_accept_value(key@),
        r@.len() == 28,
{
    let mut buf = vstd::slice::slice_to_vec(key);
    let mut g = guid_bytes();
    buf.append(&mut g);
    proof {
        assert(buf@ =~= key@ + guid());
    }
    let digest = sha1_digest(&buf);
    base64_encode(&digest)
}

// VALIDATION

/// The Connection header arrived and its first value contains "Upgrade".
pub open spec fn connection_valid(h: Seq<(Seq<u8>, Seq<Seq<u8>>)>) -> bool {
    match spec_first_value(h, connection_name()) {
        Some(v) => spec_contains(v, upgrade_token()),
        None => false,
    }
}

/// The Upgrade header arrived and its first value contains "WebSocket".
pub open spec fn upgrade_valid(h: Seq<(Seq<u8>, Seq<Seq<u8>>)>) -> bool {
    match spec_first_value(h, upgrade_name()) {
        Some(v) => spec_contains(v, websocket_token()),
        None => false,
    }
}

/// The client key, if the Sec-WebSocket-Key header arrived.
pub open spec fn key_of(h: Seq<(Seq<u8>, Seq<Seq<u8>>)>) -> Option<Seq<u8>> {
    spec_first_value(h, key_name())
}

/// Validates an upgrade request's headers and, when they pass, computes
/// the accept value owed in the response. Exactly the first failing check,
/// in the order Connection, Upgrade, key, is reported.
pub fn handshake(headers: &Headers) -> (r: Result<Vec<u8>, HandshakeError>)
    requires
        headers.wf(),
    ensures
        match r {
            Ok(acc) => connection_valid(headers@) && upgrade_valid(headers@) && key_of(headers@)
                is Some && acc@ == spec_accept_value(key_of(headers@)->Some_0),
            Err(e) => match e {
                HandshakeError::BadConnectionHeader => !connection_valid(headers@),
                HandshakeError::BadUpgradeHeader => connection_valid(headers@) && !upgrade_valid(
                    headers@,
                ),
                HandshakeError::BadKeyHeader => connection_valid(headers@) && upgrade_valid(
                    headers@,
                ) && key_of(headers@) is None,
            },
        },
{
    let conn_name = connection_name_bytes();
    match headers.get_first(conn_name.as_slice()) {
        None => {
            return Err(HandshakeError::BadConnectionHeader);
        },
        Some(v) => {
            let token = upgrade_token_bytes();
            if !contains_seq(v.as_slice(), token.as_slice()) {
                return Err(HandshakeError::BadConnectionHeader);
            }
        },
    }
    let up_name = upgrade_name_bytes();
    match headers.get_first(up_name.as_slice()) {
        None => {
            return Err(HandshakeError::BadUpgradeHeader);
        },
        Some(v) => {
            let token = websocket_token_bytes();
            if !contains_seq(v.as_slice(), token.as_slice()) {
                return Err(HandshakeError::BadUpgradeHeader);
            }
        },
    }
    let k_name = key_name_bytes();
    match headers.get_first(k_name.as_slice()) {
        None => Err(HandshakeError::BadKeyHeader),
        Some(k) => Ok(compute_accept(k.as_slice())),
    }
}

/// The second space-delimited token of the request line: the path, when
/// the line has a second token at all.
pub open spec fn spec_request_path(line: Seq<u8>) -> Option<Seq<u8>> {
    match spec_find_byte(line, 32) {
        None => None,
        Some(i) => {
            let rest = line.skip(i + 1);
            match spec_find_byte(rest, 32) {
                None => Some(rest),
                Some(j) => Some(rest.take(j)),
            }
        },
    }
}

/// Picks the negotiated path out of the request line.
pub fn request_path(line: &[u8]) -> (r: Option<Vec<u8>>)
    ensures
        match spec_request_path(line@) {
            Some(p) => r matches Some(rp) && rp@ == p,
            None => r is None,
        },
{
    proof {
        crate::bytesutil::lemma_find_byte(line@, 32);
    }
    let n = line.len();
    match find_byte(line, 32) {
        None => None,
        Some(i) => {
            let rest = vstd::slice::slice_subrange(line, i + 1, n);
            proof {
                crate::bytesutil::lemma_find_byte(rest@, 32);
            }
            match find_byte(rest, 32) {
                None => Some(vstd::slice::slice_to_vec(rest)),
                Some(j) => Some(vstd::slice::slice_to_vec(vstd::slice::slice_subrange(rest, 0, j))),
            }
        },
    }
}

} // verus!

//! An exact byte codec for the persistent part of the state: the three
//! queue partitions, the cached access credential, and the idempotency
//! counter. Saving and loading round-trip exactly, so a process restart
//! reconstructs the persisted state bit for bit.
use vstd::prelude::*;

use crate::commands::{
    CommandHttpArgumentsView, CommandStatus, CommandStatusView, DeviceCommand, DeviceCommandView,
    HttpHeader, HttpHeaderView, HttpMethod,
};
use crate::queue::{map_sorted, CommandMap, Entries};
use crate::rdf::GenericError;
use crate::state::{State, StateView};

verus! {

/// Whether `p` is a prefix of `b`.
pub open spec fn starts_with(b: Seq<u8>, p: Seq<u8>) -> bool {
    p.len() <= b.len() && b.subrange(0, p.len() as int) == p
}

/// A prefix of a concatenation splits: the first part is a prefix, and the
/// second is a prefix of what remains.
pub proof fn lemma_starts_with_concat(b: Seq<u8>, p: Seq<u8>, q: Seq<u8>)
    requires
        starts_with(b, p + q),
    ensures
        starts_with(b, p),
        starts_with(b.skip(p.len() as int), q),
{
    assert((p + q).len() == p.len() + q.len());
    assert(b.subrange(0, p.len() as int) =~= p) by {
        assert forall|i: int| 0 <= i < p.len() implies b[i] == p[i] by {
            assert(b.subrange(0, (p + q).len() as int)[i] == (p + q)[i]);
        }
    }
    assert(b.skip(p.len() as int).subrange(0, q.len() as int) =~= q) by {
        assert forall|i: int| 0 <= i < q.len() implies b.skip(p.len() as int)[i] == q[i] by {
            assert(b.subrange(0, (p + q).len() as int)[p.len() + i] == (p + q)[p.len() + i]);
        }
    }
}

/// The little-endian eight-byte encoding of a 64-bit number.
pub open spec fn enc_u64(v: u64) -> Seq<u8> {
    seq![
        v as u8,
        (v >> 8) as u8,
        (v >> 16) as u8,
        (v >> 24) as u8,
        (v >> 32) as u8,
        (v >> 40) as u8,
        (v >> 48) as u8,
        (v >> 56) as u8,
    ]
}

/// Appends the encoding of a 64-bit number.
pub fn write_u64(out: &mut Vec<u8>, v: u64)
    ensures
        final(out)@ == old(out)@ + enc_u64(v),
{
    out.push(v as u8);
    out.push((v >> 8) as u8);
    out.push((v >> 16) as u8);
    out.push((v >> 24) as u8);
    out.push((v >> 32) as u8);
    out.push((v >> 40) as u8);
    out.push((v >> 48) as u8);
    out.push((v >> 56) as u8);
    proof {
        assert(final(out)@ =~= old(out)@ + enc_u64(v));
    }
}

/// Reads back the number an eight-byte encoding holds.
fn read_u64(b: &Vec<u8>, pos: usize) -> (r: Option<(u64, usize)>)
    requires
        pos <= b@.len(),
    ensures
        match r {
            Some(vp) => {
                &&& pos + 8 <= b@.len()
                &&& vp.1 == pos + 8
                &&& b@.subrange(pos as int, vp.1 as int) == enc_u64(vp.0)
            },
            None => true,
        },
        forall|x: u64|
            #[trigger] starts_with(b@.skip(pos as int), enc_u64(x)) ==> (r matches Some(vp)
                && vp.0 == x && vp.1 == pos + 8),
{
    if pos >= b.len() || b.len() - pos < 8 {
        proof {
            assert forall|x: u64| !starts_with(b@.skip(pos as int), enc_u64(x)) by {
                assert(enc_u64(x).len() == 8);
                assert(b@.skip(pos as int).len() == b@.len() - pos);
            }
        }
        return None;
    }
    let b0 = b[pos];
    let b1 = b[pos + 1];
    let b2 = b[pos + 2];
    let b3 = b[pos + 3];
    let b4 = b[pos + 4];
    let b5 = b[pos + 5];
    let b6 = b[pos + 6];
    let b7 = b[pos + 7];
    let v = (b0 as u64) | (b1 as u64) << 8 | (b2 as u64) << 16 | (b3 as u64) << 24 | (
    b4 as u64) << 32 | (b5 as u64) << 40 | (b6 as u64) << 48 | (b7 as u64) << 56;
    proof {
        assert(b0 == v as u8 && b1 == (v >> 8) as u8 && b2 == (v >> 16) as u8 && b3 == (v
            >> 24) as u8 && b4 == (v >> 32) as u8 && b5 == (v >> 40) as u8 && b6 == (v
            >> 48) as u8 && b7 == (v >> 56) as u8) by (bit_vector)
            requires
                v == (b0 as u64) | (b1 as u64) << 8 | (b2 as u64) << 16 | (b3 as u64) << 24 | (
                b4 as u64) << 32 | (b5 as u64) << 40 | (b6 as u64) << 48 | (b7 as u64) << 56,
        ;
        assert(b@.subrange(pos as int, pos + 8 as int) =~= enc_u64(v));
        assert forall|x: u64| starts_with(b@.skip(pos as int), enc_u64(x)) implies v == x by {
            let rem = b@.skip(pos as int);
            assert(rem.subrange(0, 8) == enc_u64(x));
            assert(rem.subrange(0, 8)[0] == b0 && enc_u64(x)[0] == x as u8);
            assert(b0 == x as u8 && b1 == (x >> 8) as u8 && b2 == (x >> 16) as u8 && b3 == (x
                >> 24) as u8 && b4 == (x >> 32) as u8 && b5 == (x >> 40) as u8 && b6 == (x
                >> 48) as u8 && b7 == (x >> 56) as u8);
            assert(x == (x as u8 as u64) | ((x >> 8) as u8 as u64) << 8 | ((x >> 16) as u8
                as u64) << 16 | ((x >> 24) as u8 as u64) << 24 | ((x >> 32) as u8 as u64) << 32 | (
            (x >> 40) as u8 as u64) << 40 | ((x >> 48) as u8 as u64) << 48 | ((x >> 56) as u8
                as u64) << 56) by (bit_vector);
        }
    }
    Some((v, pos + 8))
}

/// The one-byte encoding of a tag.
pub open spec fn enc_u8(v: u8) -> Seq<u8> {
    seq![v]
}

/// Appends one tag byte.
pub fn write_u8(out: &mut Vec<u8>, v: u8)
    ensures
        final(out)@ == old(out)@ + enc_u8(v),
{
    out.push(v);
    proof {
        assert(final(out)@ =~= old(out)@ + enc_u8(v));
    }
}

/// Reads back one tag byte.
fn read_u8(b: &Vec<u8>, pos: usize) -> (r: Option<(u8, usize)>)
    requires
        pos <= b@.len(),
    ensures
        match r {
            Some(vp) => {
                &&& pos + 1 <= b@.len()
                &&& vp.1 == pos + 1
                &&& b@.subrange(pos as int, vp.1 as int) == enc_u8(vp.0)
            },
            None => true,
        },
        forall|x: u8|
            #[trigger] starts_with(b@.skip(pos as int), enc_u8(x)) ==> (r matches Some(vp)
                && vp.0 == x && vp.1 == pos + 1),
{
    if pos >= b.len() {
        proof {
            assert forall|x: u8| !starts_with(b@.skip(pos as int), enc_u8(x)) by {
                assert(b@.skip(pos as int).len() == b@.len() - pos);
            }
        }
        return None;
    }
    let v = b[pos];
    proof {
        assert(b@.subrange(pos as int, pos + 1 as int) =~= enc_u8(v));
        assert forall|x: u8| starts_with(b@.skip(pos as int), enc_u8(x)) implies v == x by {
            let rem = b@.skip(pos as int);
            assert(rem.subrange(0, 1)[0] == v);
        }
    }
    Some((v, pos + 1))
}

/// The length-prefixed encoding of a byte string.
pub open spec fn enc_bytes(s: Seq<u8>) -> Seq<u8> {
    enc_u64(s.len() as u64) + s
}

/// Appends a length-prefixed byte string.
pub fn write_bytes(out: &mut Vec<u8>, v: &Vec<u8>)
    ensures
        final(out)@ == old(out)@ + enc_bytes(v@),
{
    write_u64(out, v.len() as u64);
    let mut i: usize = 0;
    let ghost mid = out@;
    while i < v.len()
        invariant
            i <= v@.len(),
            out@ == mid + v@.take(i as int),
        decreases v.len() - i,
    {
        out.push(v[i]);
        proof {
            assert(out@ =~= mid + v@.take(i + 1 as int));
        }
        i = i + 1;
    }
    proof {
        assert(v@.take(v@.len() as int) =~= v@);
        assert(final(out)@ =~= old(out)@ + enc_bytes(v@));
    }
}

/// A copy of the byte range `[from, to)`.
fn copy_range(b: &Vec<u8>, from: usize, to: usize) -> (r: Vec<u8>)
    requires
        from <= to <= b@.len(),
    ensures
        r@ == b@.subrange(from as int, to as int),
{
    let mut r: Vec<u8> = Vec::new();
    let mut i: usize = from;
    while i < to
        invariant
            from <= i <= to <= b@.len(),
            r@ == b@.subrange(from as int, i as int),
        decreases to - i,
    {
        r.push(b[i]);
        proof {
            assert(r@ =~= b@.subrange(from as int, i + 1 as int));
        }
        i = i + 1;
    }
    r
}

/// Reads back a length-prefixed byte string.
fn read_bytes(b: &Vec<u8>, pos: usize) -> (r: Option<(Vec<u8>, usize)>)
    requires
        pos <= b@.len(),
    ensures
        match r {
            Some(vp) => {
                &&& pos <= vp.1 <= b@.len()
                &&& b@.subrange(pos as int, vp.1 as int) == enc_bytes(vp.0@)
            },
            None => true,
        },
        forall|x: Seq<u8>|
            #[trigger] starts_with(b@.skip(pos as int), enc_bytes(x)) ==> (r matches Some(vp)
                && vp.0@ == x && vp.1 == pos + enc_bytes(x).len()),
{
    let len_prefix = match read_u64(b, pos) {
        Some(vp) => vp,
        None => {
            proof {
                assert forall|x: Seq<u8>| !starts_with(b@.skip(pos as int), enc_bytes(x)) by {
                    if starts_with(b@.skip(pos as int), enc_bytes(x)) {
                        lemma_starts_with_concat(
                            b@.skip(pos as int),
                            enc_u64(x.len() as u64),
                            x,
                        );
                    }
                }
            }
            return None;
        },
    };
    let blen = len_prefix.0;
    let p1 = len_prefix.1;
    if blen > (b.len() - p1) as u64 {
        proof {
            assert forall|x: Seq<u8>| !starts_with(b@.skip(pos as int), enc_bytes(x)) by {
                if starts_with(b@.skip(pos as int), enc_bytes(x)) {
                    lemma_starts_with_concat(b@.skip(pos as int), enc_u64(x.len() as u64), x);
                    assert(x.len() + 8 <= b@.len() - pos);
                    assert(x.len() as u64 == blen);
                }
            }
        }
        return None;
    }
    let count = blen as usize;
    let p2 = p1 + count;
    let v = copy_range(b, p1, p2);
    proof {
        assert(b@.subrange(pos as int, p2 as int) =~= enc_u64(blen) + b@.subrange(
            p1 as int,
            p2 as int,
        ));
        assert(v@.len() as u64 == blen);
        assert forall|x: Seq<u8>| starts_with(b@.skip(pos as int), enc_bytes(x)) implies (v@ == x
            && p2 == pos + enc_bytes(x).len()) by {
            lemma_starts_with_concat(b@.skip(pos as int), enc_u64(x.len() as u64), x);
            assert(x.len() as u64 == blen);
            assert(x.len() + 8 <= b@.skip(pos as int).len());
            assert(x.len() == blen as int);
            let rem2 = b@.skip(pos as int).skip(8);
            assert(rem2.subrange(0, x.len() as int) == x);
            assert(v@ =~= x) by {
                assert forall|j: int| 0 <= j < x.len() implies v@[j] == x[j] by {
                    assert(rem2[j] == b@[pos + 8 + j]);
                    assert(rem2.subrange(0, x.len() as int)[j] == x[j]);
                }
            }
        }
    }
    Some((v, p2))
}

/// The encoding of a character string: its UTF-8 bytes, length-prefixed.
pub open spec fn enc_string(s: Seq<char>) -> Seq<u8> {
    enc_bytes(vstd::utf8::encode_utf8(s))
}

/// Appends an encoded character string.
pub fn write_string(out: &mut Vec<u8>, v: &String)
    ensures
        final(out)@ == old(out)@ + enc_string(v@),
{
    let bytes = v.as_str().as_bytes_vec();
    write_bytes(out, &bytes);
}

/// Relies on std's String::from_utf8: it accepts exactly the valid UTF-8
/// byte strings and preserves the bytes of those it accepts.
#[verifier::external_body]
fn string_from_utf8(bytes: Vec<u8>) -> (r: Option<String>)
    ensures
        r is Some <==> vstd::utf8::valid_utf8(bytes@),
        r matches Some(s) ==> vstd::utf8::encode_utf8(s@) == bytes@,
{
    String::from_utf8(bytes).ok()
}

/// Reads back an encoded character string.
fn read_string(b: &Vec<u8>, pos: usize) -> (r: Option<(String, usize)>)
    requires
        pos <= b@.len(),
    ensures
        match r {
            Some(vp) => {
                &&& pos <= vp.1 <= b@.len()
                &&& b@.subrange(pos as int, vp.1 as int) == enc_string(vp.0@)
            },
            None => true,
        },
        forall|x: Seq<char>|
            #[trigger] starts_with(b@.skip(pos as int), enc_string(x)) ==> (r matches Some(vp)
                && vp.0@ == x && vp.1 == pos + enc_string(x).len()),
{
    let bytes = match read_bytes(b, pos) {
        Some(vp) => vp,
        None => {
            return None;
        },
    };
    let p2 = bytes.1;
    let ghost consumed = bytes.0@;
    match string_from_utf8(bytes.0) {
        Some(s) => {
            proof {
                assert forall|x: Seq<char>| starts_with(
                    b@.skip(pos as int),
                    enc_string(x),
                ) implies (s@ == x && p2 == pos + enc_string(x).len()) by {
                    assert(consumed == vstd::utf8::encode_utf8(x));
                    vstd::utf8::encode_utf8_decode_utf8(x);
                    vstd::utf8::encode_utf8_valid_utf8(s@);
                    vstd::utf8::encode_utf8_decode_utf8(s@);
                    assert(vstd::utf8::decode_utf8(vstd::utf8::encode_utf8(s@)) == s@);
                    assert(vstd::utf8::decode_utf8(vstd::utf8::encode_utf8(x)) == x);
                }
            }
            Some((s, p2))
        },
        None => {
            proof {
                assert forall|x: Seq<char>| !starts_with(b@.skip(pos as int), enc_string(x)) by {
                    if starts_with(b@.skip(pos as int), enc_string(x)) {
                        assert(consumed == vstd::utf8::encode_utf8(x));
                        vstd::utf8::encode_utf8_valid_utf8(x);
                    }
                }
            }
            None
        },
    }
}

/// The encoding of an optional character string: an absence/presence tag,
/// then the string when present.
pub open spec fn enc_opt_string(o: Option<Seq<char>>) -> Seq<u8> {
    match o {
        None => enc_u8(0),
        Some(s) => enc_u8(1) + enc_string(s),
    }
}

/// Appends an encoded optional character string.
pub fn write_opt_string(out: &mut Vec<u8>, v: &Option<String>)
    ensures
        final(out)@ == old(out)@ + enc_opt_string(match v {
            Some(s) => Some(s@),
            None => None,
        }),
{
    match v {
        None => write_u8(out, 0),
        Some(s) => {
            write_u8(out, 1);
            write_string(out, s);
        },
    }
}

/// The encoding of an optional byte string.
pub open spec fn enc_opt_bytes(o: Option<Seq<u8>>) -> Seq<u8> {
    match o {
        None => enc_u8(0),
        Some(s) => enc_u8(1) + enc_bytes(s),
    }
}

/// Appends an encoded optional byte string.
pub fn write_opt_bytes(out: &mut Vec<u8>, v: &Option<Vec<u8>>)
    ensures
        final(out)@ == old(out)@ + enc_opt_bytes(match v {
            Some(s) => Some(s@),
            None => None,
        }),
{
    match v {
        None => write_u8(out, 0),
        Some(s) => {
            write_u8(out, 1);
            write_bytes(out, s);
        },
    }
}

/// The tag of an HTTP method.
pub open spec fn method_tag(m: HttpMethod) -> u8 {
    match m {
        HttpMethod::Get => 0,
        HttpMethod::Post => 1,
        HttpMethod::Head => 2,
    }
}

/// The one-byte encoding of an HTTP method.
pub open spec fn enc_method(m: HttpMethod) -> Seq<u8> {
    enc_u8(method_tag(m))
}

/// Appends an encoded HTTP method.
pub fn write_method(out: &mut Vec<u8>, m: HttpMethod)
    ensures
        final(out)@ == old(out)@ + enc_method(m),
{
    match m {
        HttpMethod::Get => write_u8(out, 0),
        HttpMethod::Post => write_u8(out, 1),
        HttpMethod::Head => write_u8(out, 2),
    }
}

/// The encoding of a command status: a tag, then the failure reason for a
/// failed command.
pub open spec fn enc_status(st: CommandStatusView) -> Seq<u8> {
    match st {
        CommandStatusView::Scheduled => enc_u8(0),
        CommandStatusView::Running => enc_u8(1),
        CommandStatusView::Completed => enc_u8(2),
        CommandStatusView::Failed(reason) => enc_u8(3) + enc_string(reason),
    }
}

/// Appends an encoded command status.
pub fn write_status(out: &mut Vec<u8>, st: &CommandStatus)
    ensures
        final(out)@ == old(out)@ + enc_status(st@),
{
    match st {
        CommandStatus::Scheduled => write_u8(out, 0),
        CommandStatus::Running => write_u8(out, 1),
        CommandStatus::Completed => write_u8(out, 2),
        CommandStatus::Failed(reason) => {
            write_u8(out, 3);
            write_string(out, reason);
        },
    }
}

/// The encoding of one header: its name, then its value.
pub open spec fn enc_header(h: HttpHeaderView) -> Seq<u8> {
    enc_string(h.name) + enc_string(h.value)
}

/// Appends an encoded header.
pub fn write_header(out: &mut Vec<u8>, h: &HttpHeader)
    ensures
        final(out)@ == old(out)@ + enc_header(h@),
{
    write_string(out, &h.name);
    write_string(out, &h.value);
}

/// The encodings of a list of headers, one after the other.
pub open spec fn enc_headers_rec(hs: Seq<HttpHeaderView>) -> Seq<u8>
    decreases hs.len(),
{
    if hs.len() == 0 {
        Seq::empty()
    } else {
        enc_header(hs[0]) + enc_headers_rec(hs.drop_first())
    }
}

/// Extending a header list extends its encoding at the end.
proof fn lemma_enc_headers_rec_snoc(hs: Seq<HttpHeaderView>, i: int)
    requires
        0 <= i < hs.len(),
    ensures
        enc_headers_rec(hs.take(i + 1)) =~= enc_headers_rec(hs.take(i)) + enc_header(hs[i]),
    decreases i,
{
    let s = hs.take(i + 1);
    if i == 0 {
        assert(s.drop_first() =~= Seq::<HttpHeaderView>::empty());
        assert(enc_headers_rec(Seq::<HttpHeaderView>::empty()) =~= Seq::<u8>::empty());
        assert(hs.take(0) =~= Seq::<HttpHeaderView>::empty());
        assert(s[0] == hs[0]);
    } else {
        assert(s[0] == hs[0]);
        assert(s.drop_first() =~= hs.drop_first().take(i));
        assert(hs.take(i)[0] == hs[0]);
        assert(hs.take(i).drop_first() =~= hs.drop_first().take(i - 1));
        assert(hs.drop_first()[i - 1] == hs[i]);
        lemma_enc_headers_rec_snoc(hs.drop_first(), i - 1);
        assert(enc_headers_rec(s) =~= enc_header(hs[0]) + enc_headers_rec(
            hs.drop_first().take(i),
        ));
        assert(enc_headers_rec(hs.take(i)) =~= enc_header(hs[0]) + enc_headers_rec(
            hs.drop_first().take(i - 1),
        ));
        assert(enc_headers_rec(hs.drop_first().take(i)) =~= enc_headers_rec(
            hs.drop_first().take(i - 1),
        ) + enc_header(hs[i]));
    }
}

/// The encoding of a header list: its length, then each header.
pub open spec fn enc_headers(hs: Seq<HttpHeaderView>) -> Seq<u8> {
    enc_u64(hs.len() as u64) + enc_headers_rec(hs)
}

/// Appends an encoded header list.
pub fn write_headers(out: &mut Vec<u8>, hs: &Vec<HttpHeader>)
    ensures
        final(out)@ == old(out)@ + enc_headers(crate::commands::headers_view(hs@)),
{
    let ghost hv = crate::commands::headers_view(hs@);
    write_u64(out, hs.len() as u64);
    let ghost mid = out@;
    let mut i: usize = 0;
    while i < hs.len()
        invariant
            i <= hs@.len(),
            hv == crate::commands::headers_view(hs@),
            hv.len() == hs@.len(),
            forall|j: int| 0 <= j < hs@.len() ==> hv[j] == (#[trigger] hs@[j])@,
            out@ == mid + enc_headers_rec(hv.take(i as int)),
        decreases hs.len() - i,
    {
        write_header(out, &hs[i]);
        proof {
            lemma_enc_headers_rec_snoc(hv, i as int);
        }
        i = i + 1;
    }
    proof {
        assert(hv.take(hv.len() as int) =~= hv);
        assert(final(out)@ =~= old(out)@ + enc_headers(hv));
    }
}

/// The encoding of a command's request arguments: URL, method, headers,
/// optional body.
#[verifier::opaque]
pub open spec fn enc_args(a: CommandHttpArgumentsView) -> Seq<u8> {
    enc_string(a.url) + enc_method(a.method) + enc_headers(a.headers) + enc_opt_bytes(a.body)
}

/// The encoding of an optional metadata record.
pub open spec fn enc_opt_metadata(m: Option<crate::commands::CommandMetadataView>) -> Seq<u8> {
    match m {
        None => enc_u8(0),
        Some(md) => enc_u8(1) + enc_string(md.light_color),
    }
}

/// The encoding of one command: every field in order.
#[verifier::opaque]
pub open spec fn enc_command(c: DeviceCommandView) -> Seq<u8> {
    enc_string(c.device_url) + enc_args(c.http_arguments) + enc_u64(c.schedule_timestamp)
        + enc_bytes(c.sender) + enc_opt_metadata(c.metadata) + enc_status(c.status)
}

/// Appends an encoded command.
pub fn write_command(out: &mut Vec<u8>, c: &DeviceCommand)
    ensures
        final(out)@ == old(out)@ + enc_command(c@),
{
    write_string(out, &c.device_url);
    write_string(out, &c.http_arguments.url);
    write_method(out, c.http_arguments.method);
    write_headers(out, &c.http_arguments.headers);
    write_opt_bytes(out, &c.http_arguments.body);
    write_u64(out, c.schedule_timestamp);
    write_bytes(out, &c.sender.bytes);
    match &c.metadata {
        None => write_u8(out, 0),
        Some(md) => {
            write_u8(out, 1);
            write_string(out, &md.light_color);
        },
    }
    write_status(out, &c.status);
    proof {
        reveal(enc_command);
        reveal(enc_args);
        assert(final(out)@ =~= old(out)@ + enc_command(c@));
    }
}

/// The encoding of one queue entry: its key, then its command.
pub open spec fn enc_entry(e: (u64, DeviceCommandView)) -> Seq<u8> {
    enc_u64(e.0) + enc_command(e.1)
}

/// The encodings of a partition's entries, one after the other.
pub open spec fn enc_entries_rec(es: Entries) -> Seq<u8>
    decreases es.len(),
{
    if es.len() == 0 {
        Seq::empty()
    } else {
        enc_entry(es[0]) + enc_entries_rec(es.drop_first())
    }
}

/// Extending an entry list extends its encoding at the end.
proof fn lemma_enc_entries_rec_snoc(es: Entries, i: int)
    requires
        0 <= i < es.len(),
    ensures
        enc_entries_rec(es.take(i + 1)) =~= enc_entries_rec(es.take(i)) + enc_entry(es[i]),
    decreases i,
{
    let s = es.take(i + 1);
    if i == 0 {
        assert(s.drop_first() =~= Seq::<(u64, DeviceCommandView)>::empty());
        assert(enc_entries_rec(Seq::<(u64, DeviceCommandView)>::empty()) =~= Seq::<u8>::empty());
        assert(es.take(0) =~= Seq::<(u64, DeviceCommandView)>::empty());
        assert(s[0] == es[0]);
    } else {
        assert(s[0] == es[0]);
        assert(s.drop_first() =~= es.drop_first().take(i));
        assert(es.take(i)[0] == es[0]);
        assert(es.take(i).drop_first() =~= es.drop_first().take(i - 1));
        assert(es.drop_first()[i - 1] == es[i]);
        lemma_enc_entries_rec_snoc(es.drop_first(), i - 1);
        assert(enc_entries_rec(s) =~= enc_entry(es[0]) + enc_entries_rec(
            es.drop_first().take(i),
        ));
        assert(enc_entries_rec(es.take(i)) =~= enc_entry(es[0]) + enc_entries_rec(
            es.drop_first().take(i - 1),
        ));
        assert(enc_entries_rec(es.drop_first().take(i)) =~= enc_entries_rec(
            es.drop_first().take(i - 1),
        ) + enc_entry(es[i]));
    }
}

/// The encoding of one partition: its size, then each entry in ascending
/// key order.
pub open spec fn enc_map(es: Entries) -> Seq<u8> {
    enc_u64(es.len() as u64) + enc_entries_rec(es)
}

/// Appends an encoded partition.
pub fn write_map(out: &mut Vec<u8>, m: &CommandMap)
    ensures
        final(out)@ == old(out)@ + enc_map(m@),
{
    write_u64(out, m.len() as u64);
    let ghost mid = out@;
    let mut i: usize = 0;
    let n = m.len();
    while i < n
        invariant
            i <= n,
            n == m@.len(),
            out@ == mid + enc_entries_rec(m@.take(i as int)),
        decreases n - i,
    {
        let e = m.entry_at(i);
        write_u64(out, e.0);
        write_command(out, &e.1);
        proof {
            lemma_enc_entries_rec_snoc(m@, i as int);
            assert(enc_entry(m@[i as int]) == enc_u64(m@[i as int].0) + enc_command(
                m@[i as int].1,
            ));
            assert(out@ =~= mid + enc_entries_rec(m@.take(i + 1 as int)));
        }
        i = i + 1;
    }
    proof {
        assert(m@.take(m@.len() as int) =~= m@);
        assert(final(out)@ =~= old(out)@ + enc_map(m@));
    }
}

/// The encoding of the persistent state: the three partitions, the cached
/// credential, and the idempotency counter.
#[verifier::opaque]
pub open spec fn spec_save_state(sv: StateView) -> Seq<u8> {
    enc_map(sv.device_commands.scheduled) + enc_map(sv.device_commands.running) + enc_map(
        sv.device_commands.finished,
    ) + enc_opt_string(sv.last_valid_access_key) + enc_u64(sv.next_idempotency_token)
}

/// Reads back an encoded optional character string.
fn read_opt_string(b: &Vec<u8>, pos: usize) -> (r: Option<(Option<String>, usize)>)
    requires
        pos <= b@.len(),
    ensures
        match r {
            Some(vp) => {
                &&& pos <= vp.1 <= b@.len()
                &&& b@.subrange(pos as int, vp.1 as int) == enc_opt_string(
                    match vp.0 {
                        Some(s) => Some(s@),
                        None => None,
                    },
                )
            },
            None => true,
        },
        forall|x: Option<Seq<char>>|
            #[trigger] starts_with(b@.skip(pos as int), enc_opt_string(x)) ==> (r matches Some(vp)
                && (match (x, vp.0) {
                (None, None) => true,
                (Some(xs), Some(s)) => s@ == xs,
                _ => false,
            }) && vp.1 == pos + enc_opt_string(x).len()),
{
    let tag = match read_u8(b, pos) {
        Some(vp) => vp,
        None => {
            proof {
                assert forall|x: Option<Seq<char>>| !starts_with(
                    b@.skip(pos as int),
                    enc_opt_string(x),
                ) by {
                    if starts_with(b@.skip(pos as int), enc_opt_string(x)) {
                        match x {
                            None => {
                                assert(starts_with(b@.skip(pos as int), enc_u8(0)));
                            },
                            Some(xs) => {
                                lemma_starts_with_concat(
                                    b@.skip(pos as int),
                                    enc_u8(1),
                                    enc_string(xs),
                                );
                            },
                        }
                    }
                }
            }
            return None;
        },
    };
    proof {
        assert(b@.skip(pos as int).skip(1) =~= b@.skip(pos + 1 as int));
    }
    if tag.0 == 0 {
        proof {
            assert forall|x: Option<Seq<char>>| starts_with(
                b@.skip(pos as int),
                enc_opt_string(x),
            ) implies x is None by {
                match x {
                    Some(xs) => {
                        lemma_starts_with_concat(b@.skip(pos as int), enc_u8(1), enc_string(xs));
                    },
                    None => {},
                }
            }
        }
        Some((None, tag.1))
    } else if tag.0 == 1 {
        match read_string(b, tag.1) {
            Some(vp) => {
                proof {
                    assert forall|x: Option<Seq<char>>| starts_with(
                        b@.skip(pos as int),
                        enc_opt_string(x),
                    ) implies (x matches Some(xs) && vp.0@ == xs && vp.1 == pos + enc_opt_string(
                        x,
                    ).len()) by {
                        match x {
                            Some(xs) => {
                                lemma_starts_with_concat(
                                    b@.skip(pos as int),
                                    enc_u8(1),
                                    enc_string(xs),
                                );
                            },
                            None => {
                                assert(starts_with(b@.skip(pos as int), enc_u8(0)));
                            },
                        }
                    }
                    assert(b@.subrange(pos as int, vp.1 as int) =~= enc_u8(1) + b@.subrange(
                        pos + 1 as int,
                        vp.1 as int,
                    ));
                }
                Some((Some(vp.0), vp.1))
            },
            None => {
                proof {
                    assert forall|x: Option<Seq<char>>| !starts_with(
                        b@.skip(pos as int),
                        enc_opt_string(x),
                    ) by {
                        if starts_with(b@.skip(pos as int), enc_opt_string(x)) {
                            match x {
                                None => {
                                    assert(starts_with(b@.skip(pos as int), enc_u8(0)));
                                },
                                Some(xs) => {
                                    lemma_starts_with_concat(
                                        b@.skip(pos as int),
                                        enc_u8(1),
                                        enc_string(xs),
                                    );
                                },
                            }
                        }
                    }
                }
                None
            },
        }
    } else {
        proof {
            assert forall|x: Option<Seq<char>>| !starts_with(
                b@.skip(pos as int),
                enc_opt_string(x),
            ) by {
                if starts_with(b@.skip(pos as int), enc_opt_string(x)) {
                    match x {
                        None => {
                            assert(starts_with(b@.skip(pos as int), enc_u8(0)));
                        },
                        Some(xs) => {
                            lemma_starts_with_concat(
                                b@.skip(pos as int),
                                enc_u8(1),
                                enc_string(xs),
                            );
                        },
                    }
                }
            }
        }
        None
    }
}

/// Reads back an encoded optional byte string.
fn read_opt_bytes(b: &Vec<u8>, pos: usize) -> (r: Option<(Option<Vec<u8>>, usize)>)
    requires
        pos <= b@.len(),
    ensures
        match r {
            Some(vp) => {
                &&& pos <= vp.1 <= b@.len()
                &&& b@.subrange(pos as int, vp.1 as int) == enc_opt_bytes(
                    match vp.0 {
                        Some(s) => Some(s@),
                        None => None,
                    },
                )
            },
            None => true,
        },
        forall|x: Option<Seq<u8>>|
            #[trigger] starts_with(b@.skip(pos as int), enc_opt_bytes(x)) ==> (r matches Some(vp)
                && (match (x, vp.0) {
                (None, None) => true,
                (Some(xs), Some(s)) => s@ == xs,
                _ => false,
            }) && vp.1 == pos + enc_opt_bytes(x).len()),
{
    let tag = match read_u8(b, pos) {
        Some(vp) => vp,
        None => {
            proof {
                assert forall|x: Option<Seq<u8>>| !starts_with(
                    b@.skip(pos as int),
                    enc_opt_bytes(x),
                ) by {
                    if starts_with(b@.skip(pos as int), enc_opt_bytes(x)) {
                        match x {
                            None => {
                                assert(starts_with(b@.skip(pos as int), enc_u8(0)));
                            },
                            Some(xs) => {
                                lemma_starts_with_concat(
                                    b@.skip(pos as int),
                                    enc_u8(1),
                                    enc_bytes(xs),
                                );
                            },
                        }
                    }
                }
            }
            return None;
        },
    };
    proof {
        assert(b@.skip(pos as int).skip(1) =~= b@.skip(pos + 1 as int));
    }
    if tag.0 == 0 {
        proof {
            assert forall|x: Option<Seq<u8>>| starts_with(
                b@.skip(pos as int),
                enc_opt_bytes(x),
            ) implies x is None by {
                match x {
                    Some(xs) => {
                        lemma_starts_with_concat(b@.skip(pos as int), enc_u8(1), enc_bytes(xs));
                    },
                    None => {},
                }
            }
        }
        Some((None, tag.1))
    } else if tag.0 == 1 {
        match read_bytes(b, tag.1) {
            Some(vp) => {
                proof {
                    assert forall|x: Option<Seq<u8>>| starts_with(
                        b@.skip(pos as int),
                        enc_opt_bytes(x),
                    ) implies (x matches Some(xs) && vp.0@ == xs && vp.1 == pos + enc_opt_bytes(
                        x,
                    ).len()) by {
                        match x {
                            Some(xs) => {
                                lemma_starts_with_concat(
                                    b@.skip(pos as int),
                                    enc_u8(1),
                                    enc_bytes(xs),
                                );
                            },
                            None => {
                                assert(starts_with(b@.skip(pos as int), enc_u8(0)));
                            },
                        }
                    }
                    assert(b@.subrange(pos as int, vp.1 as int) =~= enc_u8(1) + b@.subrange(
                        pos + 1 as int,
                        vp.1 as int,
                    ));
                }
                Some((Some(vp.0), vp.1))
            },
            None => {
                proof {
                    assert forall|x: Option<Seq<u8>>| !starts_with(
                        b@.skip(pos as int),
                        enc_opt_bytes(x),
                    ) by {
                        if starts_with(b@.skip(pos as int), enc_opt_bytes(x)) {
                            match x {
                                None => {
                                    assert(starts_with(b@.skip(pos as int), enc_u8(0)));
                                },
                                Some(xs) => {
                                    lemma_starts_with_concat(
                                        b@.skip(pos as int),
                                        enc_u8(1),
                                        enc_bytes(xs),
                                    );
                                },
                            }
                        }
                    }
                }
                None
            },
        }
    } else {
        proof {
            assert forall|x: Option<Seq<u8>>| !starts_with(
                b@.skip(pos as int),
                enc_opt_bytes(x),
            ) by {
                if starts_with(b@.skip(pos as int), enc_opt_bytes(x)) {
                    match x {
                        None => {
                            assert(starts_with(b@.skip(pos as int), enc_u8(0)));
                        },
                        Some(xs) => {
                            lemma_starts_with_concat(
                                b@.skip(pos as int),
                                enc_u8(1),
                                enc_bytes(xs),
                            );
                        },
                    }
                }
            }
        }
        None
    }
}

/// Reads back an encoded HTTP method.
fn read_method(b: &Vec<u8>, pos: usize) -> (r: Option<(HttpMethod, usize)>)
    requires
        pos <= b@.len(),
    ensures
        match r {
            Some(vp) => {
                &&& pos <= vp.1 <= b@.len()
                &&& b@.subrange(pos as int, vp.1 as int) == enc_method(vp.0)
            },
            None => true,
        },
        forall|x: HttpMethod|
            #[trigger] starts_with(b@.skip(pos as int), enc_method(x)) ==> (r matches Some(vp)
                && vp.0 == x && vp.1 == pos + 1),
{
    let tag = match read_u8(b, pos) {
        Some(vp) => vp,
        None => {
            return None;
        },
    };
    if tag.0 == 0 {
        Some((HttpMethod::Get, tag.1))
    } else if tag.0 == 1 {
        Some((HttpMethod::Post, tag.1))
    } else if tag.0 == 2 {
        Some((HttpMethod::Head, tag.1))
    } else {
        proof {
            assert forall|x: HttpMethod| !starts_with(b@.skip(pos as int), enc_method(x)) by {
                if starts_with(b@.skip(pos as int), enc_method(x)) {
                    assert(starts_with(b@.skip(pos as int), enc_u8(method_tag(x))));
                }
            }
        }
        None
    }
}

/// Reads back an encoded command status.
fn read_status(b: &Vec<u8>, pos: usize) -> (r: Option<(CommandStatus, usize)>)
    requires
        pos <= b@.len(),
    ensures
        match r {
            Some(vp) => {
                &&& pos <= vp.1 <= b@.len()
                &&& b@.subrange(pos as int, vp.1 as int) == enc_status(vp.0@)
            },
            None => true,
        },
        forall|x: CommandStatusView|
            #[trigger] starts_with(b@.skip(pos as int), enc_status(x)) ==> (r matches Some(vp)
                && vp.0@ == x && vp.1 == pos + enc_status(x).len()),
{
    let tag = match read_u8(b, pos) {
        Some(vp) => vp,
        None => {
            proof {
                assert forall|x: CommandStatusView| !starts_with(
                    b@.skip(pos as int),
                    enc_status(x),
                ) by {
                    if starts_with(b@.skip(pos as int), enc_status(x)) {
                        match x {
                            CommandStatusView::Failed(reason) => {
                                lemma_starts_with_concat(
                                    b@.skip(pos as int),
                                    enc_u8(3),
                                    enc_string(reason),
                                );
                            },
                            _ => {
                                assert(starts_with(b@.skip(pos as int), enc_status(x)));
                            },
                        }
                    }
                }
            }
            return None;
        },
    };
    proof {
        assert(b@.skip(pos as int).skip(1) =~= b@.skip(pos + 1 as int));
        assert forall|x: CommandStatusView| starts_with(
            b@.skip(pos as int),
            enc_status(x),
        ) implies (match x {
            CommandStatusView::Scheduled => tag.0 == 0,
            CommandStatusView::Running => tag.0 == 1,
            CommandStatusView::Completed => tag.0 == 2,
            CommandStatusView::Failed(reason) => tag.0 == 3 && starts_with(
                b@.skip(pos + 1 as int),
                enc_string(reason),
            ),
        }) by {
            match x {
                CommandStatusView::Failed(reason) => {
                    lemma_starts_with_concat(b@.skip(pos as int), enc_u8(3), enc_string(reason));
                },
                _ => {
                },
            }
        }
    }
    if tag.0 == 0 {
        Some((CommandStatus::Scheduled, tag.1))
    } else if tag.0 == 1 {
        Some((CommandStatus::Running, tag.1))
    } else if tag.0 == 2 {
        Some((CommandStatus::Completed, tag.1))
    } else if tag.0 == 3 {
        match read_string(b, tag.1) {
            Some(vp) => {
                proof {
                    assert(b@.subrange(pos as int, vp.1 as int) =~= enc_u8(3) + b@.subrange(
                        pos + 1 as int,
                        vp.1 as int,
                    ));
                }
                Some((CommandStatus::Failed(vp.0), vp.1))
            },
            None => None,
        }
    } else {
        None
    }
}

/// Reads back an encoded header.
fn read_header(b: &Vec<u8>, pos: usize) -> (r: Option<(HttpHeader, usize)>)
    requires
        pos <= b@.len(),
    ensures
        match r {
            Some(vp) => {
                &&& pos <= vp.1 <= b@.len()
                &&& b@.subrange(pos as int, vp.1 as int) == enc_header(vp.0@)
            },
            None => true,
        },
        forall|x: HttpHeaderView|
            #[trigger] starts_with(b@.skip(pos as int), enc_header(x)) ==> (r matches Some(vp)
                && vp.0@ == x && vp.1 == pos + enc_header(x).len()),
{
    proof {
        assert forall|x: HttpHeaderView| starts_with(
            b@.skip(pos as int),
            enc_header(x),
        ) implies starts_with(b@.skip(pos as int), enc_string(x.name)) by {
            lemma_starts_with_concat(b@.skip(pos as int), enc_string(x.name), enc_string(x.value));
        }
    }
    let name = match read_string(b, pos) {
        Some(vp) => vp,
        None => {
            return None;
        },
    };
    let value = match read_string(b, name.1) {
        Some(vp) => vp,
        None => {
            proof {
                assert forall|x: HttpHeaderView| !starts_with(
                    b@.skip(pos as int),
                    enc_header(x),
                ) by {
                    if starts_with(b@.skip(pos as int), enc_header(x)) {
                        lemma_starts_with_concat(
                            b@.skip(pos as int),
                            enc_string(x.name),
                            enc_string(x.value),
                        );
                        assert(b@.skip(pos as int).skip(enc_string(x.name).len() as int)
                            =~= b@.skip(name.1 as int));
                    }
                }
            }
            return None;
        },
    };
    let h = HttpHeader { name: name.0, value: value.0 };
    proof {
        assert(b@.subrange(pos as int, value.1 as int) =~= b@.subrange(pos as int, name.1 as int)
            + b@.subrange(name.1 as int, value.1 as int));
        assert forall|x: HttpHeaderView| starts_with(
            b@.skip(pos as int),
            enc_header(x),
        ) implies (h@ == x && value.1 == pos + enc_header(x).len()) by {
            lemma_starts_with_concat(
                b@.skip(pos as int),
                enc_string(x.name),
                enc_string(x.value),
            );
            assert(b@.skip(pos as int).skip(enc_string(x.name).len() as int) =~= b@.skip(
                name.1 as int,
            ));
            assert(h@ =~= x);
        }
    }
    Some((h, value.1))
}

/// An encoded header list is at least as long as the list.
proof fn lemma_enc_headers_rec_len(hs: Seq<HttpHeaderView>)
    ensures
        enc_headers_rec(hs).len() >= hs.len(),
    decreases hs.len(),
{
    if hs.len() > 0 {
        lemma_enc_headers_rec_len(hs.drop_first());
        assert(enc_header(hs[0]).len() >= 1);
    }
}

/// Reads back `count` encoded headers.
fn read_headers_rec(b: &Vec<u8>, pos: usize, count: u64) -> (r: Option<(Vec<HttpHeader>, usize)>)
    requires
        pos <= b@.len(),
    ensures
        match r {
            Some(vp) => {
                &&& pos <= vp.1 <= b@.len()
                &&& crate::commands::headers_view(vp.0@).len() == count
                &&& b@.subrange(pos as int, vp.1 as int) == enc_headers_rec(
                    crate::commands::headers_view(vp.0@),
                )
            },
            None => true,
        },
        forall|x: Seq<HttpHeaderView>|
            x.len() == count && #[trigger] starts_with(b@.skip(pos as int), enc_headers_rec(x))
                ==> (r matches Some(vp) && crate::commands::headers_view(vp.0@) == x && vp.1 == pos
                + enc_headers_rec(x).len()),
    decreases count,
{
    if count == 0 {
        let v: Vec<HttpHeader> = Vec::new();
        proof {
            assert(crate::commands::headers_view(v@) =~= Seq::<HttpHeaderView>::empty());
            assert(b@.subrange(pos as int, pos as int) =~= Seq::<u8>::empty());
            assert forall|x: Seq<HttpHeaderView>|
                x.len() == count && starts_with(
                    b@.skip(pos as int),
                    enc_headers_rec(x),
                ) implies (crate::commands::headers_view(v@) == x) by {
                assert(x =~= Seq::<HttpHeaderView>::empty());
            }
        }
        return Some((v, pos));
    }
    proof {
        assert forall|x: Seq<HttpHeaderView>|
            x.len() == count && starts_with(
                b@.skip(pos as int),
                enc_headers_rec(x),
            ) implies starts_with(b@.skip(pos as int), enc_header(x[0])) by {
            lemma_starts_with_concat(
                b@.skip(pos as int),
                enc_header(x[0]),
                enc_headers_rec(x.drop_first()),
            );
        }
    }
    let first = match read_header(b, pos) {
        Some(vp) => vp,
        None => {
            return None;
        },
    };
    let rest = match read_headers_rec(b, first.1, count - 1) {
        Some(vp) => vp,
        None => {
            proof {
                assert forall|x: Seq<HttpHeaderView>|
                    !(x.len() == count && starts_with(
                        b@.skip(pos as int),
                        enc_headers_rec(x),
                    )) by {
                    if x.len() == count && starts_with(b@.skip(pos as int), enc_headers_rec(x)) {
                        lemma_starts_with_concat(
                            b@.skip(pos as int),
                            enc_header(x[0]),
                            enc_headers_rec(x.drop_first()),
                        );
                        assert(first.0@ == x[0]);
                        assert(b@.skip(pos as int).skip(enc_header(x[0]).len() as int) =~= b@.skip(
                            first.1 as int,
                        ));
                        assert(x.drop_first().len() == count - 1);
                    }
                }
            }
            return None;
        },
    };
    let mut v: Vec<HttpHeader> = Vec::new();
    v.push(first.0);
    let mut rest_vec = rest.0;
    v.append(&mut rest_vec);
    proof {
        let hv = crate::commands::headers_view(v@);
        assert(hv =~= seq![v@[0]@] + crate::commands::headers_view(v@.drop_first()));
        assert(v@.drop_first() =~= rest.0@);
        assert(hv.drop_first() =~= crate::commands::headers_view(rest.0@));
        assert(hv[0] == v@[0]@);
        assert(enc_headers_rec(hv) == enc_header(hv[0]) + enc_headers_rec(hv.drop_first()));
        assert(b@.subrange(pos as int, rest.1 as int) =~= b@.subrange(pos as int, first.1 as int)
            + b@.subrange(first.1 as int, rest.1 as int));
        assert forall|x: Seq<HttpHeaderView>|
            x.len() == count && starts_with(b@.skip(pos as int), enc_headers_rec(x)) implies (
        crate::commands::headers_view(v@) == x && rest.1 == pos + enc_headers_rec(x).len()) by {
            lemma_starts_with_concat(
                b@.skip(pos as int),
                enc_header(x[0]),
                enc_headers_rec(x.drop_first()),
            );
            assert(first.0@ == x[0]);
            assert(b@.skip(pos as int).skip(enc_header(x[0]).len() as int) =~= b@.skip(
                first.1 as int,
            ));
            assert(x.drop_first().len() == count - 1);
            assert(crate::commands::headers_view(rest.0@) == x.drop_first());
            assert(hv =~= x);
        }
    }
    Some((v, rest.1))
}

/// Reads back an encoded header list.
fn read_headers(b: &Vec<u8>, pos: usize) -> (r: Option<(Vec<HttpHeader>, usize)>)
    requires
        pos <= b@.len(),
    ensures
        match r {
            Some(vp) => {
                &&& pos <= vp.1 <= b@.len()
                &&& b@.subrange(pos as int, vp.1 as int) == enc_headers(
                    crate::commands::headers_view(vp.0@),
                )
            },
            None => true,
        },
        forall|x: Seq<HttpHeaderView>|
            #[trigger] starts_with(b@.skip(pos as int), enc_headers(x)) ==> (r matches Some(vp)
                && crate::commands::headers_view(vp.0@) == x && vp.1 == pos + enc_headers(
                x,
            ).len()),
{
    proof {
        assert forall|x: Seq<HttpHeaderView>| starts_with(
            b@.skip(pos as int),
            enc_headers(x),
        ) implies (starts_with(b@.skip(pos as int), enc_u64(x.len() as u64)) && x.len()
            < 0x1_0000_0000_0000_0000 && starts_with(
            b@.skip(pos as int).skip(8),
            enc_headers_rec(x),
        )) by {
            lemma_starts_with_concat(
                b@.skip(pos as int),
                enc_u64(x.len() as u64),
                enc_headers_rec(x),
            );
            lemma_enc_headers_rec_len(x);
            broadcast use vstd::std_specs::vec::axiom_spec_len;

            assert(b@.len() == vstd::std_specs::vec::spec_vec_len(b));
            assert(x.len() <= enc_headers_rec(x).len());
            assert(enc_headers_rec(x).len() <= b@.skip(pos as int).len());
        }
    }
    let count = match read_u64(b, pos) {
        Some(vp) => vp,
        None => {
            return None;
        },
    };
    proof {
        assert(b@.skip(pos as int).skip(8) =~= b@.skip(count.1 as int));
    }
    let body = match read_headers_rec(b, count.1, count.0) {
        Some(vp) => vp,
        None => {
            proof {
                assert forall|x: Seq<HttpHeaderView>| !starts_with(
                    b@.skip(pos as int),
                    enc_headers(x),
                ) by {
                    if starts_with(b@.skip(pos as int), enc_headers(x)) {
                        assert(x.len() as u64 == count.0);
                        assert(x.len() == count.0 as int);
                    }
                }
            }
            return None;
        },
    };
    proof {
        assert(b@.subrange(pos as int, body.1 as int) =~= b@.subrange(pos as int, count.1 as int)
            + b@.subrange(count.1 as int, body.1 as int));
        assert(crate::commands::headers_view(body.0@).len() as u64 == count.0);
        assert forall|x: Seq<HttpHeaderView>| starts_with(
            b@.skip(pos as int),
            enc_headers(x),
        ) implies (crate::commands::headers_view(body.0@) == x && body.1 == pos + enc_headers(
            x,
        ).len()) by {
            assert(x.len() as u64 == count.0);
            assert(x.len() == count.0 as int);
        }
    }
    Some((body.0, body.1))
}

/// Every field boundary of a request-arguments encoding, as offsets from
/// where the encoding starts.
#[verifier::rlimit(60)]
proof fn lemma_args_field_prefixes(bseq: Seq<u8>, pos: int, a: CommandHttpArgumentsView)
    requires
        0 <= pos <= bseq.len(),
        starts_with(bseq.skip(pos), enc_args(a)),
    ensures
        ({
            let l1 = enc_string(a.url).len() as int;
            let l2 = enc_method(a.method).len() as int;
            let l3 = enc_headers(a.headers).len() as int;
            let l4 = enc_opt_bytes(a.body).len() as int;
            &&& starts_with(bseq.skip(pos), enc_string(a.url))
            &&& starts_with(bseq.skip(pos + l1), enc_method(a.method))
            &&& starts_with(bseq.skip(pos + l1 + l2), enc_headers(a.headers))
            &&& starts_with(bseq.skip(pos + l1 + l2 + l3), enc_opt_bytes(a.body))
            &&& enc_args(a).len() == l1 + l2 + l3 + l4
        }),
{
    let e1 = enc_string(a.url);
    let e2 = enc_method(a.method);
    let e3 = enc_headers(a.headers);
    let e4 = enc_opt_bytes(a.body);
    let rem = bseq.skip(pos);
    reveal(enc_args);
    assert(enc_args(a) =~= e1 + (e2 + (e3 + e4)));
    lemma_starts_with_concat(rem, e1, e2 + (e3 + e4));
    assert(rem.skip(e1.len() as int) =~= bseq.skip(pos + e1.len()));
    let r1 = bseq.skip(pos + e1.len());
    lemma_starts_with_concat(r1, e2, e3 + e4);
    assert(r1.skip(e2.len() as int) =~= bseq.skip(pos + e1.len() + e2.len()));
    let r2 = bseq.skip(pos + e1.len() + e2.len());
    lemma_starts_with_concat(r2, e3, e4);
    assert(r2.skip(e3.len() as int) =~= bseq.skip(pos + e1.len() + e2.len() + e3.len()));
}

/// Reads back an encoded request-arguments record.
#[verifier::rlimit(80)]
#[verifier::spinoff_prover]
fn read_args(b: &Vec<u8>, pos: usize) -> (r: Option<(crate::commands::CommandHttpArguments, usize)>)
    requires
        pos <= b@.len(),
    ensures
        match r {
            Some(vp) => {
                &&& pos <= vp.1 <= b@.len()
                &&& b@.subrange(pos as int, vp.1 as int) == enc_args(vp.0@)
            },
            None => true,
        },
        forall|x: CommandHttpArgumentsView|
            #[trigger] starts_with(b@.skip(pos as int), enc_args(x)) ==> (r matches Some(vp)
                && vp.0@ == x && vp.1 == pos + enc_args(x).len()),
{
    proof {
        assert forall|x: CommandHttpArgumentsView| starts_with(
            b@.skip(pos as int),
            enc_args(x),
        ) implies starts_with(b@.skip(pos as int), enc_string(x.url)) by {
            lemma_args_field_prefixes(b@, pos as int, x);
        }
    }
    let url = match read_string(b, pos) {
        Some(vp) => vp,
        None => {
            return None;
        },
    };
    let method = match read_method(b, url.1) {
        Some(vp) => vp,
        None => {
            proof {
                assert forall|x: CommandHttpArgumentsView| !starts_with(
                    b@.skip(pos as int),
                    enc_args(x),
                ) by {
                    if starts_with(b@.skip(pos as int), enc_args(x)) {
                        lemma_args_field_prefixes(b@, pos as int, x);
                    }
                }
            }
            return None;
        },
    };
    let headers = match read_headers(b, method.1) {
        Some(vp) => vp,
        None => {
            proof {
                assert forall|x: CommandHttpArgumentsView| !starts_with(
                    b@.skip(pos as int),
                    enc_args(x),
                ) by {
                    if starts_with(b@.skip(pos as int), enc_args(x)) {
                        lemma_args_field_prefixes(b@, pos as int, x);
                    }
                }
            }
            return None;
        },
    };
    let body = match read_opt_bytes(b, headers.1) {
        Some(vp) => vp,
        None => {
            proof {
                assert forall|x: CommandHttpArgumentsView| !starts_with(
                    b@.skip(pos as int),
                    enc_args(x),
                ) by {
                    if starts_with(b@.skip(pos as int), enc_args(x)) {
                        lemma_args_field_prefixes(b@, pos as int, x);
                    }
                }
            }
            return None;
        },
    };
    let args = crate::commands::CommandHttpArguments {
        url: url.0,
        method: method.0,
        headers: headers.0,
        body: body.0,
    };
    proof {
        assert(b@.subrange(pos as int, body.1 as int) =~= enc_args(args@)) by {
            reveal(enc_args);
            assert(b@.subrange(pos as int, method.1 as int) =~= b@.subrange(
                pos as int,
                url.1 as int,
            ) + b@.subrange(url.1 as int, method.1 as int));
            assert(b@.subrange(pos as int, headers.1 as int) =~= b@.subrange(
                pos as int,
                method.1 as int,
            ) + b@.subrange(method.1 as int, headers.1 as int));
            assert(b@.subrange(pos as int, body.1 as int) =~= b@.subrange(
                pos as int,
                headers.1 as int,
            ) + b@.subrange(headers.1 as int, body.1 as int));
        }
        assert forall|x: CommandHttpArgumentsView| starts_with(
            b@.skip(pos as int),
            enc_args(x),
        ) implies (args@ == x && body.1 == pos + enc_args(x).len()) by {
            lemma_args_field_prefixes(b@, pos as int, x);
            assert(url.0@ == x.url);
            assert(method.0 == x.method);
            assert(crate::commands::headers_view(headers.0@) == x.headers);
            assert(args@ =~= x);
        }
    }
    Some((args, body.1))
}

/// Reads back an encoded optional metadata record.
fn read_opt_metadata(b: &Vec<u8>, pos: usize) -> (r: Option<
    (Option<crate::commands::CommandMetadata>, usize),
>)
    requires
        pos <= b@.len(),
    ensures
        match r {
            Some(vp) => {
                &&& pos <= vp.1 <= b@.len()
                &&& b@.subrange(pos as int, vp.1 as int) == enc_opt_metadata(
                    match vp.0 {
                        Some(md) => Some(md@),
                        None => None,
                    },
                )
            },
            None => true,
        },
        forall|x: Option<crate::commands::CommandMetadataView>|
            #[trigger] starts_with(b@.skip(pos as int), enc_opt_metadata(x)) ==> (r matches Some(
                vp,
            ) && (match (x, vp.0) {
                (None, None) => true,
                (Some(xm), Some(md)) => md@ == xm,
                _ => false,
            }) && vp.1 == pos + enc_opt_metadata(x).len()),
{
    match read_opt_string(b, pos) {
        Some(vp) => {
            let md = match vp.0 {
                Some(color) => Some(crate::commands::CommandMetadata { light_color: color }),
                None => None,
            };
            proof {
                assert forall|x: Option<crate::commands::CommandMetadataView>| starts_with(
                    b@.skip(pos as int),
                    enc_opt_metadata(x),
                ) implies ((match (x, md) {
                    (None, None) => true,
                    (Some(xm), Some(m)) => m@ == xm,
                    _ => false,
                }) && vp.1 == pos + enc_opt_metadata(x).len()) by {
                    let xo: Option<Seq<char>> = match x {
                        Some(xm) => Some(xm.light_color),
                        None => None,
                    };
                    assert(enc_opt_metadata(x) == enc_opt_string(xo));
                    assert(starts_with(b@.skip(pos as int), enc_opt_string(xo)));
                }
                assert(b@.subrange(pos as int, vp.1 as int) == enc_opt_metadata(
                    match md {
                        Some(m) => Some(m@),
                        None => None,
                    },
                ));
            }
            Some((md, vp.1))
        },
        None => {
            proof {
                assert forall|x: Option<crate::commands::CommandMetadataView>| !starts_with(
                    b@.skip(pos as int),
                    enc_opt_metadata(x),
                ) by {
                    if starts_with(b@.skip(pos as int), enc_opt_metadata(x)) {
                        let xo: Option<Seq<char>> = match x {
                            Some(xm) => Some(xm.light_color),
                            None => None,
                        };
                        assert(enc_opt_metadata(x) == enc_opt_string(xo));
                        assert(starts_with(b@.skip(pos as int), enc_opt_string(xo)));
                    }
                }
            }
            None
        },
    }
}

/// The first half of a command encoding: target, request, timestamp.
pub open spec fn enc_command_head(
    device_url: Seq<char>,
    args: CommandHttpArgumentsView,
    ts: u64,
) -> Seq<u8> {
    enc_string(device_url) + enc_args(args) + enc_u64(ts)
}

/// Reads back the first half of an encoded command.
#[verifier::rlimit(100)]
#[verifier::spinoff_prover]
fn read_command_head(b: &Vec<u8>, pos: usize) -> (r: Option<
    ((String, crate::commands::CommandHttpArguments, u64), usize),
>)
    requires
        pos <= b@.len(),
    ensures
        match r {
            Some(vp) => {
                &&& pos <= vp.1 <= b@.len()
                &&& b@.subrange(pos as int, vp.1 as int) == enc_command_head(
                    vp.0.0@,
                    vp.0.1@,
                    vp.0.2,
                )
            },
            None => true,
        },
        forall|du: Seq<char>, a: CommandHttpArgumentsView, t: u64|
            #[trigger] starts_with(b@.skip(pos as int), enc_command_head(du, a, t)) ==> (r matches
                Some(vp) && vp.0.0@ == du && vp.0.1@ == a && vp.0.2 == t && vp.1 == pos
                + enc_command_head(du, a, t).len()),
{
    proof {
        assert forall|du: Seq<char>, a: CommandHttpArgumentsView, t: u64| starts_with(
            b@.skip(pos as int),
            enc_command_head(du, a, t),
        ) implies (starts_with(b@.skip(pos as int), enc_string(du)) && starts_with(
            b@.skip(pos + enc_string(du).len()),
            enc_args(a),
        ) && starts_with(
            b@.skip(pos + enc_string(du).len() + enc_args(a).len()),
            enc_u64(t),
        )) by {
            let rem = b@.skip(pos as int);
            assert(enc_command_head(du, a, t) =~= enc_string(du) + (enc_args(a) + enc_u64(t)));
            lemma_starts_with_concat(rem, enc_string(du), enc_args(a) + enc_u64(t));
            assert(rem.skip(enc_string(du).len() as int) =~= b@.skip(pos + enc_string(du).len()));
            lemma_starts_with_concat(
                b@.skip(pos + enc_string(du).len()),
                enc_args(a),
                enc_u64(t),
            );
            assert(b@.skip(pos + enc_string(du).len()).skip(enc_args(a).len() as int) =~= b@.skip(
                pos + enc_string(du).len() + enc_args(a).len(),
            ));
        }
    }
    let device_url = match read_string(b, pos) {
        Some(vp) => vp,
        None => {
            return None;
        },
    };
    let args = match read_args(b, device_url.1) {
        Some(vp) => vp,
        None => {
            return None;
        },
    };
    let ts = match read_u64(b, args.1) {
        Some(vp) => vp,
        None => {
            return None;
        },
    };
    proof {
        assert(b@.subrange(pos as int, ts.1 as int) =~= enc_command_head(
            device_url.0@,
            args.0@,
            ts.0,
        )) by {
            assert(b@.subrange(pos as int, args.1 as int) =~= b@.subrange(
                pos as int,
                device_url.1 as int,
            ) + b@.subrange(device_url.1 as int, args.1 as int));
            assert(b@.subrange(pos as int, ts.1 as int) =~= b@.subrange(pos as int, args.1 as int)
                + b@.subrange(args.1 as int, ts.1 as int));
        }
    }
    Some(((device_url.0, args.0, ts.0), ts.1))
}

/// The second half of a command encoding: sender, metadata, status.
pub open spec fn enc_command_tail(
    sender: Seq<u8>,
    metadata: Option<crate::commands::CommandMetadataView>,
    status: CommandStatusView,
) -> Seq<u8> {
    enc_bytes(sender) + enc_opt_metadata(metadata) + enc_status(status)
}

/// A command encoding is its head followed by its tail.
proof fn lemma_enc_command_parts(x: DeviceCommandView)
    ensures
        enc_command(x) =~= enc_command_head(x.device_url, x.http_arguments, x.schedule_timestamp)
            + enc_command_tail(x.sender, x.metadata, x.status),
{
    reveal(enc_command);
}

/// Reads back the second half of an encoded command.
#[verifier::rlimit(100)]
#[verifier::spinoff_prover]
fn read_command_tail(b: &Vec<u8>, pos: usize) -> (r: Option<
    ((Vec<u8>, Option<crate::commands::CommandMetadata>, CommandStatus), usize),
>)
    requires
        pos <= b@.len(),
    ensures
        match r {
            Some(vp) => {
                &&& pos <= vp.1 <= b@.len()
                &&& b@.subrange(pos as int, vp.1 as int) == enc_command_tail(
                    vp.0.0@,
                    match vp.0.1 {
                        Some(md) => Some(md@),
                        None => None,
                    },
                    vp.0.2@,
                )
            },
            None => true,
        },
        forall|sn: Seq<u8>, md: Option<crate::commands::CommandMetadataView>, st: CommandStatusView|
            #[trigger] starts_with(b@.skip(pos as int), enc_command_tail(sn, md, st)) ==> (r
                matches Some(vp) && vp.0.0@ == sn && (match (md, vp.0.1) {
                (None, None) => true,
                (Some(xm), Some(m)) => m@ == xm,
                _ => false,
            }) && vp.0.2@ == st && vp.1 == pos + enc_command_tail(sn, md, st).len()),
{
    proof {
        assert forall|
            sn: Seq<u8>,
            md: Option<crate::commands::CommandMetadataView>,
            st: CommandStatusView,
        |
            starts_with(b@.skip(pos as int), enc_command_tail(sn, md, st)) implies (starts_with(
            b@.skip(pos as int),
            enc_bytes(sn),
        ) && starts_with(b@.skip(pos + enc_bytes(sn).len()), enc_opt_metadata(md)) && starts_with(
            b@.skip(pos + enc_bytes(sn).len() + enc_opt_metadata(md).len()),
            enc_status(st),
        )) by {
            let rem = b@.skip(pos as int);
            assert(enc_command_tail(sn, md, st) =~= enc_bytes(sn) + (enc_opt_metadata(md)
                + enc_status(st)));
            lemma_starts_with_concat(rem, enc_bytes(sn), enc_opt_metadata(md) + enc_status(st));
            assert(rem.skip(enc_bytes(sn).len() as int) =~= b@.skip(pos + enc_bytes(sn).len()));
            lemma_starts_with_concat(
                b@.skip(pos + enc_bytes(sn).len()),
                enc_opt_metadata(md),
                enc_status(st),
            );
            assert(b@.skip(pos + enc_bytes(sn).len()).skip(enc_opt_metadata(md).len() as int)
                =~= b@.skip(pos + enc_bytes(sn).len() + enc_opt_metadata(md).len()));
        }
    }
    let sender = match read_bytes(b, pos) {
        Some(vp) => vp,
        None => {
            return None;
        },
    };
    let metadata = match read_opt_metadata(b, sender.1) {
        Some(vp) => vp,
        None => {
            return None;
        },
    };
    let status = match read_status(b, metadata.1) {
        Some(vp) => vp,
        None => {
            return None;
        },
    };
    proof {
        assert(b@.subrange(pos as int, status.1 as int) =~= enc_command_tail(
            sender.0@,
            match metadata.0 {
                Some(md) => Some(md@),
                None => None,
            },
            status.0@,
        )) by {
            assert(b@.subrange(pos as int, metadata.1 as int) =~= b@.subrange(
                pos as int,
                sender.1 as int,
            ) + b@.subrange(sender.1 as int, metadata.1 as int));
            assert(b@.subrange(pos as int, status.1 as int) =~= b@.subrange(
                pos as int,
                metadata.1 as int,
            ) + b@.subrange(metadata.1 as int, status.1 as int));
        }
    }
    Some(((sender.0, metadata.0, status.0), status.1))
}

/// Reads back an encoded command.
#[verifier::rlimit(100)]
#[verifier::spinoff_prover]
fn read_command(b: &Vec<u8>, pos: usize) -> (r: Option<(DeviceCommand, usize)>)
    requires
        pos <= b@.len(),
    ensures
        match r {
            Some(vp) => {
                &&& pos <= vp.1 <= b@.len()
                &&& b@.subrange(pos as int, vp.1 as int) == enc_command(vp.0@)
            },
            None => true,
        },
        forall|x: DeviceCommandView|
            #[trigger] starts_with(b@.skip(pos as int), enc_command(x)) ==> (r matches Some(vp)
                && vp.0@ == x && vp.1 == pos + enc_command(x).len()),
{
    proof {
        assert forall|x: DeviceCommandView| starts_with(
            b@.skip(pos as int),
            enc_command(x),
        ) implies (starts_with(
            b@.skip(pos as int),
            enc_command_head(x.device_url, x.http_arguments, x.schedule_timestamp),
        ) && starts_with(
            b@.skip(
                pos + enc_command_head(
                    x.device_url,
                    x.http_arguments,
                    x.schedule_timestamp,
                ).len(),
            ),
            enc_command_tail(x.sender, x.metadata, x.status),
        ) && enc_command(x).len() == enc_command_head(
            x.device_url,
            x.http_arguments,
            x.schedule_timestamp,
        ).len() + enc_command_tail(x.sender, x.metadata, x.status).len()) by {
            let rem = b@.skip(pos as int);
            let h = enc_command_head(x.device_url, x.http_arguments, x.schedule_timestamp);
            lemma_enc_command_parts(x);
            lemma_starts_with_concat(rem, h, enc_command_tail(x.sender, x.metadata, x.status));
            assert(rem.skip(h.len() as int) =~= b@.skip(pos + h.len()));
        }
    }
    let head = match read_command_head(b, pos) {
        Some(vp) => vp,
        None => {
            return None;
        },
    };
    let tail = match read_command_tail(b, head.1) {
        Some(vp) => vp,
        None => {
            return None;
        },
    };
    let (h_url, h_args, h_ts) = head.0;
    let (t_sender, t_metadata, t_status) = tail.0;
    let cmd = DeviceCommand {
        device_url: h_url,
        http_arguments: h_args,
        schedule_timestamp: h_ts,
        sender: crate::commands::Principal { bytes: t_sender },
        metadata: t_metadata,
        status: t_status,
    };
    proof {
        assert(b@.subrange(pos as int, tail.1 as int) =~= enc_command(cmd@)) by {
            lemma_enc_command_parts(cmd@);
            assert(b@.subrange(pos as int, tail.1 as int) =~= b@.subrange(
                pos as int,
                head.1 as int,
            ) + b@.subrange(head.1 as int, tail.1 as int));
        }
        assert forall|x: DeviceCommandView| starts_with(
            b@.skip(pos as int),
            enc_command(x),
        ) implies (cmd@ == x && tail.1 == pos + enc_command(x).len()) by {
            assert(cmd@.metadata == x.metadata);
            assert(cmd@ =~= x);
        }
    }
    Some((cmd, tail.1))
}

/// An encoded entry list is at least as long as the list.
proof fn lemma_enc_entries_rec_len(es: Entries)
    ensures
        enc_entries_rec(es).len() >= es.len(),
    decreases es.len(),
{
    if es.len() > 0 {
        lemma_enc_entries_rec_len(es.drop_first());
        assert(enc_entry(es[0]).len() >= 1);
    }
}

/// A non-empty entry-list encoding splits into its first key, its first
/// command, and the remaining entries.
#[verifier::rlimit(100)]
#[verifier::spinoff_prover]
proof fn lemma_entries_cons_split(bseq: Seq<u8>, pos: int, x: Entries)
    requires
        0 <= pos <= bseq.len(),
        x.len() > 0,
        starts_with(bseq.skip(pos), enc_entries_rec(x)),
    ensures
        starts_with(bseq.skip(pos), enc_u64(x[0].0)),
        starts_with(bseq.skip(pos + 8), enc_command(x[0].1)),
        starts_with(
            bseq.skip(pos + 8 + enc_command(x[0].1).len()),
            enc_entries_rec(x.drop_first()),
        ),
        enc_entries_rec(x).len() == 8 + enc_command(x[0].1).len() + enc_entries_rec(
            x.drop_first(),
        ).len(),
{
    assert(enc_entries_rec(x) == enc_entry(x[0]) + enc_entries_rec(x.drop_first()));
    assert(enc_entry(x[0]) =~= enc_u64(x[0].0) + enc_command(x[0].1));
    assert(enc_entries_rec(x) =~= enc_u64(x[0].0) + (enc_command(x[0].1) + enc_entries_rec(
        x.drop_first(),
    )));
    lemma_starts_with_concat(
        bseq.skip(pos),
        enc_u64(x[0].0),
        enc_command(x[0].1) + enc_entries_rec(x.drop_first()),
    );
    assert(bseq.skip(pos).skip(8) =~= bseq.skip(pos + 8));
    lemma_starts_with_concat(
        bseq.skip(pos + 8),
        enc_command(x[0].1),
        enc_entries_rec(x.drop_first()),
    );
    assert(bseq.skip(pos + 8).skip(enc_command(x[0].1).len() as int) =~= bseq.skip(
        pos + 8 + enc_command(x[0].1).len(),
    ));
}

/// Reads back `count` encoded queue entries.
#[verifier::rlimit(100)]
#[verifier::spinoff_prover]
fn read_entries_rec(b: &Vec<u8>, pos: usize, count: u64) -> (r: Option<
    (Vec<(u64, DeviceCommand)>, usize),
>)
    requires
        pos <= b@.len(),
    ensures
        match r {
            Some(vp) => {
                &&& pos <= vp.1 <= b@.len()
                &&& crate::queue::entries_view(vp.0@).len() == count
                &&& b@.subrange(pos as int, vp.1 as int) == enc_entries_rec(
                    crate::queue::entries_view(vp.0@),
                )
            },
            None => true,
        },
        forall|x: Entries|
            x.len() == count && #[trigger] starts_with(b@.skip(pos as int), enc_entries_rec(x))
                ==> (r matches Some(vp) && crate::queue::entries_view(vp.0@) == x && vp.1 == pos
                + enc_entries_rec(x).len()),
    decreases count,
{
    if count == 0 {
        let v: Vec<(u64, DeviceCommand)> = Vec::new();
        proof {
            assert(crate::queue::entries_view(v@) =~= Seq::<(u64, DeviceCommandView)>::empty());
            assert(b@.subrange(pos as int, pos as int) =~= Seq::<u8>::empty());
            assert forall|x: Entries|
                x.len() == count && starts_with(
                    b@.skip(pos as int),
                    enc_entries_rec(x),
                ) implies (crate::queue::entries_view(v@) == x) by {
                assert(x =~= Seq::<(u64, DeviceCommandView)>::empty());
            }
        }
        return Some((v, pos));
    }
    proof {
        assert forall|x: Entries|
            x.len() == count && starts_with(
                b@.skip(pos as int),
                enc_entries_rec(x),
            ) implies starts_with(b@.skip(pos as int), enc_u64(x[0].0)) by {
            lemma_entries_cons_split(b@, pos as int, x);
        }
    }
    let key = match read_u64(b, pos) {
        Some(vp) => vp,
        None => {
            return None;
        },
    };
    let cmd = match read_command(b, key.1) {
        Some(vp) => vp,
        None => {
            proof {
                assert forall|x: Entries|
                    !(x.len() == count && starts_with(
                        b@.skip(pos as int),
                        enc_entries_rec(x),
                    )) by {
                    if x.len() == count && starts_with(b@.skip(pos as int), enc_entries_rec(x)) {
                        lemma_entries_cons_split(b@, pos as int, x);
                    }
                }
            }
            return None;
        },
    };
    let rest = match read_entries_rec(b, cmd.1, count - 1) {
        Some(vp) => vp,
        None => {
            proof {
                assert forall|x: Entries|
                    !(x.len() == count && starts_with(
                        b@.skip(pos as int),
                        enc_entries_rec(x),
                    )) by {
                    if x.len() == count && starts_with(b@.skip(pos as int), enc_entries_rec(x)) {
                        lemma_entries_cons_split(b@, pos as int, x);
                        assert(cmd.0@ == x[0].1);
                        assert(cmd.1 == pos + 8 + enc_command(x[0].1).len());
                        assert(x.drop_first().len() == count - 1);
                    }
                }
            }
            return None;
        },
    };
    let mut v: Vec<(u64, DeviceCommand)> = Vec::new();
    v.push((key.0, cmd.0));
    let mut rest_vec = rest.0;
    v.append(&mut rest_vec);
    proof {
        let ev = crate::queue::entries_view(v@);
        assert(v@.drop_first() =~= rest.0@);
        assert(ev.drop_first() =~= crate::queue::entries_view(rest.0@));
        assert(ev[0] == (key.0, cmd.0@));
        assert(enc_entries_rec(ev) == enc_entry(ev[0]) + enc_entries_rec(ev.drop_first()));
        assert(enc_entry(ev[0]) =~= enc_u64(key.0) + enc_command(cmd.0@));
        assert(b@.subrange(pos as int, cmd.1 as int) =~= b@.subrange(pos as int, key.1 as int)
            + b@.subrange(key.1 as int, cmd.1 as int));
        assert(b@.subrange(pos as int, rest.1 as int) =~= b@.subrange(pos as int, cmd.1 as int)
            + b@.subrange(cmd.1 as int, rest.1 as int));
        assert(b@.subrange(pos as int, rest.1 as int) =~= enc_entries_rec(ev));
        assert forall|x: Entries|
            x.len() == count && starts_with(b@.skip(pos as int), enc_entries_rec(x)) implies (
        crate::queue::entries_view(v@) == x && rest.1 == pos + enc_entries_rec(x).len()) by {
            lemma_entries_cons_split(b@, pos as int, x);
            assert(key.0 == x[0].0);
            assert(cmd.0@ == x[0].1);
            assert(cmd.1 == pos + 8 + enc_command(x[0].1).len());
            assert(x.drop_first().len() == count - 1);
            assert(crate::queue::entries_view(rest.0@) == x.drop_first());
            assert forall|i: int| 0 <= i < ev.len() implies ev[i] == x[i] by {
                if i == 0 {
                } else {
                    assert(ev[i] == ev.drop_first()[i - 1]);
                    assert(x[i] == x.drop_first()[i - 1]);
                }
            }
            assert(ev =~= x);
        }
    }
    Some((v, rest.1))
}

/// Reads back an encoded partition.
#[verifier::rlimit(100)]
#[verifier::spinoff_prover]
fn read_map(b: &Vec<u8>, pos: usize) -> (r: Option<(CommandMap, usize)>)
    requires
        pos <= b@.len(),
    ensures
        match r {
            Some(vp) => {
                &&& pos <= vp.1 <= b@.len()
                &&& b@.subrange(pos as int, vp.1 as int) == enc_map(vp.0@)
            },
            None => true,
        },
        forall|x: Entries|
            #[trigger] starts_with(b@.skip(pos as int), enc_map(x)) ==> (r matches Some(vp)
                && vp.0@ == x && vp.1 == pos + enc_map(x).len()),
{
    proof {
        assert forall|x: Entries| starts_with(b@.skip(pos as int), enc_map(x)) implies (
        starts_with(b@.skip(pos as int), enc_u64(x.len() as u64)) && x.len()
            < 0x1_0000_0000_0000_0000 && starts_with(b@.skip(pos + 8), enc_entries_rec(x))) by {
            lemma_starts_with_concat(
                b@.skip(pos as int),
                enc_u64(x.len() as u64),
                enc_entries_rec(x),
            );
            lemma_enc_entries_rec_len(x);
            broadcast use vstd::std_specs::vec::axiom_spec_len;

            assert(b@.len() == vstd::std_specs::vec::spec_vec_len(b));
            assert(b@.skip(pos as int).skip(8) =~= b@.skip(pos + 8));
        }
    }
    let count = match read_u64(b, pos) {
        Some(vp) => vp,
        None => {
            return None;
        },
    };
    let body = match read_entries_rec(b, count.1, count.0) {
        Some(vp) => vp,
        None => {
            proof {
                assert forall|x: Entries| !starts_with(b@.skip(pos as int), enc_map(x)) by {
                    if starts_with(b@.skip(pos as int), enc_map(x)) {
                        assert(x.len() as u64 == count.0);
                        assert(x.len() == count.0 as int);
                    }
                }
            }
            return None;
        },
    };
    let m = CommandMap::from_entries(body.0);
    proof {
        assert(b@.subrange(pos as int, body.1 as int) =~= b@.subrange(pos as int, count.1 as int)
            + b@.subrange(count.1 as int, body.1 as int));
        assert(m@.len() as u64 == count.0);
        assert(b@.subrange(pos as int, body.1 as int) =~= enc_map(m@));
        assert forall|x: Entries| starts_with(b@.skip(pos as int), enc_map(x)) implies (m@ == x
            && body.1 == pos + enc_map(x).len()) by {
            assert(x.len() as u64 == count.0);
            assert(x.len() == count.0 as int);
        }
    }
    Some((m, body.1))
}

/// Every part boundary of a saved state, as offsets from the start.
#[verifier::rlimit(100)]
#[verifier::spinoff_prover]
proof fn lemma_state_split(bytes: Seq<u8>, sv: StateView)
    requires
        bytes == spec_save_state(sv),
    ensures
        ({
            let l1 = enc_map(sv.device_commands.scheduled).len() as int;
            let l2 = enc_map(sv.device_commands.running).len() as int;
            let l3 = enc_map(sv.device_commands.finished).len() as int;
            let l4 = enc_opt_string(sv.last_valid_access_key).len() as int;
            &&& starts_with(bytes.skip(0), enc_map(sv.device_commands.scheduled))
            &&& starts_with(bytes.skip(l1), enc_map(sv.device_commands.running))
            &&& starts_with(bytes.skip(l1 + l2), enc_map(sv.device_commands.finished))
            &&& starts_with(bytes.skip(l1 + l2 + l3), enc_opt_string(sv.last_valid_access_key))
            &&& starts_with(bytes.skip(l1 + l2 + l3 + l4), enc_u64(sv.next_idempotency_token))
            &&& bytes.len() == l1 + l2 + l3 + l4 + 8
        }),
{
    let e1 = enc_map(sv.device_commands.scheduled);
    let e2 = enc_map(sv.device_commands.running);
    let e3 = enc_map(sv.device_commands.finished);
    let e4 = enc_opt_string(sv.last_valid_access_key);
    let e5 = enc_u64(sv.next_idempotency_token);
    reveal(spec_save_state);
    assert(bytes.skip(0) =~= bytes);
    assert(spec_save_state(sv) =~= e1 + (e2 + (e3 + (e4 + e5))));
    assert(starts_with(bytes.skip(0), e1 + (e2 + (e3 + (e4 + e5)))));
    lemma_starts_with_concat(bytes.skip(0), e1, e2 + (e3 + (e4 + e5)));
    assert(bytes.skip(0).skip(e1.len() as int) =~= bytes.skip(e1.len() as int));
    lemma_starts_with_concat(bytes.skip(e1.len() as int), e2, e3 + (e4 + e5));
    assert(bytes.skip(e1.len() as int).skip(e2.len() as int) =~= bytes.skip(
        e1.len() + e2.len() as int,
    ));
    lemma_starts_with_concat(bytes.skip(e1.len() + e2.len() as int), e3, e4 + e5);
    assert(bytes.skip(e1.len() + e2.len() as int).skip(e3.len() as int) =~= bytes.skip(
        e1.len() + e2.len() + e3.len() as int,
    ));
    lemma_starts_with_concat(bytes.skip(e1.len() + e2.len() + e3.len() as int), e4, e5);
    assert(bytes.skip(e1.len() + e2.len() + e3.len() as int).skip(e4.len() as int) =~= bytes.skip(
        e1.len() + e2.len() + e3.len() + e4.len() as int,
    ));
}

/// Adjacent segments that each hold one part's encoding assemble into the
/// whole saved state.
#[verifier::rlimit(100)]
#[verifier::spinoff_prover]
proof fn lemma_state_assemble(
    bytes: Seq<u8>,
    p1: int,
    p2: int,
    p3: int,
    p4: int,
    sv: StateView,
)
    requires
        0 <= p1 <= p2 <= p3 <= p4 <= bytes.len(),
        bytes.subrange(0, p1) == enc_map(sv.device_commands.scheduled),
        bytes.subrange(p1, p2) == enc_map(sv.device_commands.running),
        bytes.subrange(p2, p3) == enc_map(sv.device_commands.finished),
        bytes.subrange(p3, p4) == enc_opt_string(sv.last_valid_access_key),
        bytes.subrange(p4, bytes.len() as int) == enc_u64(sv.next_idempotency_token),
    ensures
        bytes == spec_save_state(sv),
{
    reveal(spec_save_state);
    assert(bytes.subrange(0, p2) =~= bytes.subrange(0, p1) + bytes.subrange(p1, p2));
    assert(bytes.subrange(0, p3) =~= bytes.subrange(0, p2) + bytes.subrange(p2, p3));
    assert(bytes.subrange(0, p4) =~= bytes.subrange(0, p3) + bytes.subrange(p3, p4));
    assert(bytes =~= bytes.subrange(0, p4) + bytes.subrange(p4, bytes.len() as int));
    assert(bytes =~= spec_save_state(sv));
}

/// Restores a state from the bytes `save_state` produced: the queue
/// partitions, the cached credential, and the idempotency counter come
/// back exactly; the volatile fields start empty, to be rebuilt lazily.
/// Loading fails exactly on bytes that no state saves to, so
/// `load_state(save_state(s))` always succeeds and round-trips the
/// persisted fields of `s`.
#[verifier::rlimit(100)]
#[verifier::spinoff_prover]
pub fn load_state(bytes: &Vec<u8>) -> (r: Result<State, GenericError>)
    ensures
        match r {
            Ok(s) => {
                &&& bytes@ == spec_save_state(s@)
                &&& s@.wot_devices =~= Seq::<(Seq<char>, Seq<(Seq<char>, Seq<char>)>)>::empty()
                &&& s@.omnia_backend_canister_principal is None
                &&& s@.rdf_database_connection is None
            },
            Err(_) => true,
        },
        forall|sv: StateView|
            bytes@ == #[trigger] spec_save_state(sv) ==> (r matches Ok(s)
                && s@.device_commands == sv.device_commands && s@.last_valid_access_key
                == sv.last_valid_access_key && s@.next_idempotency_token
                == sv.next_idempotency_token),
{
    proof {
        assert forall|sv: StateView| bytes@ == spec_save_state(sv) implies starts_with(
            bytes@.skip(0),
            enc_map(sv.device_commands.scheduled),
        ) by {
            lemma_state_split(bytes@, sv);
        }
    }
    let scheduled = match read_map(bytes, 0) {
        Some(vp) => vp,
        None => {
            return Err(String::from_str("truncated or malformed saved state"));
        },
    };
    let running = match read_map(bytes, scheduled.1) {
        Some(vp) => vp,
        None => {
            proof {
                assert forall|sv: StateView| bytes@ != spec_save_state(sv) by {
                    if bytes@ == spec_save_state(sv) {
                        lemma_state_split(bytes@, sv);
                    }
                }
            }
            return Err(String::from_str("truncated or malformed saved state"));
        },
    };
    let finished = match read_map(bytes, running.1) {
        Some(vp) => vp,
        None => {
            proof {
                assert forall|sv: StateView| bytes@ != spec_save_state(sv) by {
                    if bytes@ == spec_save_state(sv) {
                        lemma_state_split(bytes@, sv);
                    }
                }
            }
            return Err(String::from_str("truncated or malformed saved state"));
        },
    };
    let key = match read_opt_string(bytes, finished.1) {
        Some(vp) => vp,
        None => {
            proof {
                assert forall|sv: StateView| bytes@ != spec_save_state(sv) by {
                    if bytes@ == spec_save_state(sv) {
                        lemma_state_split(bytes@, sv);
                    }
                }
            }
            return Err(String::from_str("truncated or malformed saved state"));
        },
    };
    let token = match read_u64(bytes, key.1) {
        Some(vp) => vp,
        None => {
            proof {
                assert forall|sv: StateView| bytes@ != spec_save_state(sv) by {
                    if bytes@ == spec_save_state(sv) {
                        lemma_state_split(bytes@, sv);
                    }
                }
            }
            return Err(String::from_str("truncated or malformed saved state"));
        },
    };
    if token.1 != bytes.len() {
        proof {
            assert forall|sv: StateView| bytes@ != spec_save_state(sv) by {
                if bytes@ == spec_save_state(sv) {
                    lemma_state_split(bytes@, sv);
                    assert(token.1 as int == bytes@.len());
                }
            }
        }
        return Err(String::from_str("trailing bytes after saved state"));
    }
    let state = State {
        omnia_backend_canister_principal: None,
        wot_devices: crate::wot::WotDevices::new(),
        device_commands: crate::commands::DeviceCommands {
            scheduled_commands: scheduled.0,
            running_commands: running.0,
            finished_commands: finished.0,
        },
        last_valid_access_key: key.0,
        rdf_database_connection: None,
        next_idempotency_token: token.0,
    };
    proof {
        assert(bytes@ == spec_save_state(state@)) by {
            assert(state@.device_commands.scheduled == scheduled.0@);
            lemma_state_assemble(
                bytes@,
                scheduled.1 as int,
                running.1 as int,
                finished.1 as int,
                key.1 as int,
                state@,
            );
        }
        assert forall|sv: StateView| bytes@ == spec_save_state(sv) implies (
        state@.device_commands == sv.device_commands && state@.last_valid_access_key
            == sv.last_valid_access_key && state@.next_idempotency_token
            == sv.next_idempotency_token) by {
            lemma_state_split(bytes@, sv);
            assert(scheduled.0@ == sv.device_commands.scheduled);
            assert(running.0@ == sv.device_commands.running);
            assert(finished.0@ == sv.device_commands.finished);
            assert(state@.device_commands =~= sv.device_commands);
            assert((match (sv.last_valid_access_key, key.0) {
                (None, None) => true,
                (Some(xs), Some(s)) => s@ == xs,
                _ => false,
            }));
            assert(token.0 == sv.next_idempotency_token);
        }
    }
    Ok(state)
}

/// Serializes the persistent part of the state: the queue partitions, the
/// cached credential, and the idempotency counter. The volatile device
/// directory and connection settings are deliberately left out; they are
/// rebuilt lazily after a restart.
pub fn save_state(state: &State) -> (r: Vec<u8>)
    ensures
        r@ == spec_save_state(state@),
{
    let mut out: Vec<u8> = Vec::new();
    write_map(&mut out, &state.device_commands.scheduled_commands);
    write_map(&mut out, &state.device_commands.running_commands);
    write_map(&mut out, &state.device_commands.finished_commands);
    write_opt_string(&mut out, &state.last_valid_access_key);
    write_u64(&mut out, state.next_idempotency_token);
    proof {
        reveal(spec_save_state);
        assert(out@ =~= spec_save_state(state@));
    }
    out
}

} // verus!

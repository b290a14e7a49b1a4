//! The byte layouts in which requests and responses cross the boundary to
//! the host.
use vstd::prelude::*;
use vstd::string::*;
use vstd::utf8::*;

verus! {

/// The two low bytes of a number, the low byte first.
pub open spec fn u16_le(n: int) -> Seq<u8> {
    seq![(n % 256) as u8, ((n / 256) % 256) as u8]
}

/// The four low bytes of a number, the low byte first.
pub open spec fn u32_le(n: int) -> Seq<u8> {
    seq![
        (n % 256) as u8,
        ((n / 256) % 256) as u8,
        ((n / 65536) % 256) as u8,
        ((n / 16777216) % 256) as u8,
    ]
}

/// A byte string behind its length in two bytes. A length that does not fit
/// is cut to its two low bytes.
pub open spec fn sized(bytes: Seq<u8>) -> Seq<u8> {
    u16_le(bytes.len() as int) + bytes
}

/// The first `width` bytes of a byte string, filled up with zero bytes where
/// it is shorter.
pub open spec fn padded(bytes: Seq<u8>, width: nat) -> Seq<u8> {
    Seq::new(
        width,
        |i: int|
            if i < bytes.len() {
                bytes[i]
            } else {
                0u8
            },
    )
}

/// Headers one behind the other, each as its sized name and its sized
/// value.
pub open spec fn headers_bytes(headers: Seq<(Seq<u8>, Seq<u8>)>) -> Seq<u8>
    decreases headers.len(),
{
    if headers.len() == 0 {
        Seq::empty()
    } else {
        headers_bytes(headers.drop_last()) + sized(headers.last().0) + sized(headers.last().1)
    }
}

/// A response in bytes: the status code and the number of headers in two
/// bytes each, the headers, the length of the body in four bytes, and the
/// body.
pub open spec fn response_bytes(
    status_code: int,
    headers: Seq<(Seq<u8>, Seq<u8>)>,
    body: Seq<u8>,
) -> Seq<u8> {
    u16_le(status_code) + u16_le(headers.len() as int) + headers_bytes(headers) + u32_le(
        body.len() as int,
    ) + body
}

/// A request in bytes: the method in six bytes, the sized path, the number
/// of headers in two bytes, and the headers.
pub open spec fn request_bytes(
    method: Seq<u8>,
    path: Seq<u8>,
    headers: Seq<(Seq<u8>, Seq<u8>)>,
) -> Seq<u8> {
    padded(method, 6) + sized(path) + u16_le(headers.len() as int) + headers_bytes(headers)
}

/// The bytes of the names and values of headers that are given as text.
pub open spec fn text_headers(headers: Seq<(String, String)>) -> Seq<(Seq<u8>, Seq<u8>)> {
    headers.map_values(|h: (String, String)| (encode_utf8(h.0@), encode_utf8(h.1@)))
}

/// The bytes of the names of headers, beside their values.
pub open spec fn byte_headers(headers: Seq<(String, Vec<u8>)>) -> Seq<(Seq<u8>, Seq<u8>)> {
    headers.map_values(|h: (String, Vec<u8>)| (encode_utf8(h.0@), h.1@))
}

/// Appends bytes to a buffer.
fn put_bytes(buf: &mut Vec<u8>, bytes: &[u8])
    ensures
        final(buf)@ == old(buf)@ + bytes@,
{
    let ghost start = buf@;
    let mut i: usize = 0;
    while i < bytes.len()
        invariant
            i <= bytes.len(),
            buf@ == start + bytes@.take(i as int),
        decreases bytes.len() - i,
    {
        buf.push(bytes[i]);
        proof {
            assert(bytes@.take(i + 1) =~= bytes@.take(i as int).push(bytes@[i as int]));
        }
        i += 1;
    }
    proof {
        assert(bytes@.take(bytes.len() as int) =~= bytes@);
    }
}

/// Appends the two low bytes of a number to a buffer.
fn put_u16(buf: &mut Vec<u8>, n: usize)
    ensures
        final(buf)@ == old(buf)@ + u16_le(n as int),
{
    buf.push((n % 256) as u8);
    buf.push(((n / 256) % 256) as u8);
    proof {
        assert(buf@ =~= old(buf)@ + u16_le(n as int));
    }
}

/// Appends the four low bytes of a number to a buffer.
fn put_u32(buf: &mut Vec<u8>, n: usize)
    ensures
        final(buf)@ == old(buf)@ + u32_le(n as int),
{
    buf.push((n % 256) as u8);
    buf.push(((n / 256) % 256) as u8);
    buf.push(((n / 65536) % 256) as u8);
    buf.push(((n / 16777216) % 256) as u8);
    proof {
        assert(buf@ =~= old(buf)@ + u32_le(n as int));
    }
}

/// Appends a byte string behind its length to a buffer.
fn put_sized(buf: &mut Vec<u8>, bytes: &[u8])
    ensures
        final(buf)@ == old(buf)@ + sized(bytes@),
{
    put_u16(buf, bytes.len());
    put_bytes(buf, bytes);
    proof {
        assert(buf@ =~= old(buf)@ + sized(bytes@));
    }
}

/// The bytes in which a response goes to the host. A status code above
/// 65535 is cut to its two low bytes, as the lengths are.
pub fn response_to_bytes(status_code: u32, headers: &Vec<(String, String)>, body: &str) -> (buf:
    Vec<u8>)
    ensures
        buf@ == response_bytes(status_code as int, text_headers(headers@), encode_utf8(body@)),
{
    let mut buf: Vec<u8> = Vec::new();
    put_u16(&mut buf, status_code as usize);
    put_u16(&mut buf, headers.len());
    let ghost head = buf@;
    let ghost all = text_headers(headers@);
    let mut i: usize = 0;
    while i < headers.len()
        invariant
            i <= headers.len(),
            all == text_headers(headers@),
            buf@ == head + headers_bytes(all.take(i as int)),
        decreases headers.len() - i,
    {
        put_sized(&mut buf, headers[i].0.as_str().as_bytes());
        put_sized(&mut buf, headers[i].1.as_str().as_bytes());
        proof {
            assert(all.take(i + 1).drop_last() =~= all.take(i as int));
            assert(buf@ =~= head + headers_bytes(all.take(i + 1)));
        }
        i += 1;
    }
    proof {
        assert(all.take(headers.len() as int) =~= all);
    }
    let body_bytes = body.as_bytes();
    put_u32(&mut buf, body_bytes.len());
    put_bytes(&mut buf, body_bytes);
    buf
}

/// The bytes in which a request goes to the guest. A method of more than
/// six bytes is cut to six, and the lengths to their two low bytes.
pub fn pack_request_data(method: &str, path: &str, headers: &Vec<(String, Vec<u8>)>) -> (data:
    Vec<u8>)
    ensures
        data@ == request_bytes(encode_utf8(method@), encode_utf8(path@), byte_headers(headers@)),
{
    let mut data: Vec<u8> = Vec::new();
    let method_bytes = method.as_bytes();
    let mut k: usize = 0;
    while k < 6
        invariant
            k <= 6,
            data@ == padded(method_bytes@, k as nat),
        decreases 6 - k,
    {
        if k < method_bytes.len() {
            data.push(method_bytes[k]);
        } else {
            data.push(0);
        }
        proof {
            assert(data@ =~= padded(method_bytes@, (k + 1) as nat));
        }
        k += 1;
    }
    put_sized(&mut data, path.as_bytes());
    put_u16(&mut data, headers.len());
    let ghost head = data@;
    let ghost all = byte_headers(headers@);
    let mut i: usize = 0;
    while i < headers.len()
        invariant
            i <= headers.len(),
            all == byte_headers(headers@),
            data@ == head + headers_bytes(all.take(i as int)),
        decreases headers.len() - i,
    {
        put_sized(&mut data, headers[i].0.as_str().as_bytes());
        put_sized(&mut data, headers[i].1.as_slice());
        proof {
            assert(all.take(i + 1).drop_last() =~= all.take(i as int));
            assert(data@ =~= head + headers_bytes(all.take(i + 1)));
        }
        i += 1;
    }
    proof {
        assert(all.take(headers.len() as int) =~= all);
    }
    data
}

} // verus!

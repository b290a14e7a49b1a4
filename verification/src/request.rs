//! The request as the host hands it over in a byte buffer.
//!
//! The buffer holds four bytes of method, the length of the path in two
//! bytes (little endian), the path, the length of the header block in two
//! bytes, and the header block: names and values in turn, each ended by a
//! zero byte.
use crate::string_map::StringMap;
use crate::text::{
    from_utf8_lossy, index_of, latin1_string, latin1_text, lemma_index_of, lemma_index_of_unique,
    utf8_lossy,
};
use vstd::prelude::*;
use vstd::slice::slice_subrange;
use vstd::utf8::*;

verus! {

/// A request of the host.
pub struct Request {
    pub method: String,
    pub path: String,
    pub headers: StringMap,
}

/// The number that two bytes hold, the low byte first.
pub open spec fn le16(low: u8, high: u8) -> int {
    low as int + 256 * (high as int)
}

/// The length of the path that a buffer announces.
pub open spec fn path_len(buf: Seq<u8>) -> int {
    le16(buf[4], buf[5])
}

/// The length of the header block that a buffer announces.
pub open spec fn headers_len(buf: Seq<u8>) -> int {
    le16(buf[6 + path_len(buf)], buf[7 + path_len(buf)])
}

/// Whether a buffer is long enough for what it announces.
pub open spec fn well_framed(buf: Seq<u8>) -> bool {
    &&& buf.len() >= 6
    &&& buf.len() >= 8 + path_len(buf)
    &&& buf.len() >= 8 + path_len(buf) + headers_len(buf)
}

/// The bytes of the method.
pub open spec fn method_bytes(buf: Seq<u8>) -> Seq<u8> {
    buf.subrange(0, 4)
}

/// The bytes of the path.
pub open spec fn path_bytes(buf: Seq<u8>) -> Seq<u8> {
    buf.subrange(6, 6 + path_len(buf))
}

/// The header block.
pub open spec fn header_block(buf: Seq<u8>) -> Seq<u8> {
    buf.subrange(8 + path_len(buf), 8 + path_len(buf) + headers_len(buf))
}

/// The headers of a header block, in the order in which they stand: each
/// name runs to the next zero byte, its value from there to the zero byte
/// after it or to the end. A name at the end with nothing behind its zero
/// byte is no header.
pub open spec fn header_fields(block: Seq<u8>) -> Seq<(Seq<u8>, Seq<u8>)>
    decreases block.len(),
{
    let name_end = index_of(block, 0u8);
    if name_end + 1 >= block.len() {
        Seq::empty()
    } else {
        let behind = block.skip(name_end + 1);
        let value_end = index_of(behind, 0u8);
        proof {
            lemma_index_of(block, 0u8);
            lemma_index_of(behind, 0u8);
        }
        let field = (block.take(name_end), behind.take(value_end));
        if value_end + 1 >= behind.len() {
            seq![field]
        } else {
            seq![field] + header_fields(behind.skip(value_end + 1))
        }
    }
}

/// The map of the given headers, names and values as text. A later header
/// replaces an earlier one of the same name.
pub open spec fn header_map(fields: Seq<(Seq<u8>, Seq<u8>)>) -> Map<Seq<char>, Seq<char>>
    decreases fields.len(),
{
    if fields.len() == 0 {
        Map::empty()
    } else {
        header_map(fields.drop_last()).insert(
            utf8_lossy(fields.last().0),
            utf8_lossy(fields.last().1),
        )
    }
}

/// Whether the names and values of the given headers are valid UTF-8.
pub open spec fn valid_fields(fields: Seq<(Seq<u8>, Seq<u8>)>) -> bool {
    forall|i: int|
        0 <= i < fields.len() ==> valid_utf8((#[trigger] fields[i]).0) && valid_utf8(fields[i].1)
}

/// The map of the given headers, each name and value as the text that its
/// bytes encode. A later header replaces an earlier one of the same name.
pub open spec fn text_header_map(fields: Seq<(Seq<u8>, Seq<u8>)>) -> Map<Seq<char>, Seq<char>>
    decreases fields.len(),
{
    if fields.len() == 0 {
        Map::empty()
    } else {
        text_header_map(fields.drop_last()).insert(
            decode_utf8(fields.last().0),
            decode_utf8(fields.last().1),
        )
    }
}

/// The position of the first zero byte of `block` at or behind `from`, or
/// the length of `block`.
fn find_zero(block: &[u8], from: usize) -> (end: usize)
    requires
        from <= block.len(),
    ensures
        from <= end <= block.len(),
        end - from == index_of(block@.skip(from as int), 0u8),
{
    let mut end: usize = from;
    while end < block.len() && block[end] != 0
        invariant
            from <= end <= block.len(),
            forall|j: int| from <= j < end ==> block@[j] != 0,
        decreases block.len() - end,
    {
        end += 1;
    }
    proof {
        let rest = block@.skip(from as int);
        assert forall|j: int| 0 <= j < end - from implies rest[j] != 0u8 by {
            assert(rest[j] == block@[from + j]);
        }
        lemma_index_of_unique(rest, 0u8, end - from);
    }
    end
}

/// The headers of a header block. Names and values are read as UTF-8, with
/// bytes that are none replaced as `String::from_utf8_lossy` replaces them.
pub fn parse_headers(block: &[u8]) -> (headers: StringMap)
    ensures
        headers@ == header_map(header_fields(block@)),
        valid_fields(header_fields(block@)) ==> headers@ == text_header_map(
            header_fields(block@),
        ),
{
    let mut headers = StringMap::new();
    let mut pos: usize = 0;
    let ghost mut done: Seq<(Seq<u8>, Seq<u8>)> = Seq::empty();
    proof {
        assert(block@.skip(0) =~= block@);
        assert(done + header_fields(block@) =~= header_fields(block@));
    }
    while pos < block.len()
        invariant
            pos <= block.len(),
            headers@ == header_map(done),
            valid_fields(done) ==> headers@ == text_header_map(done),
            header_fields(block@) == done + header_fields(block@.skip(pos as int)),
        decreases block.len() - pos,
    {
        let ghost rest = block@.skip(pos as int);
        let name_end = find_zero(block, pos);
        if name_end >= block.len() - 1 {
            proof {
                assert(done + Seq::<(Seq<u8>, Seq<u8>)>::empty() =~= done);
            }
            return headers;
        }
        let value_start = name_end + 1;
        let value_end = find_zero(block, value_start);
        let name = from_utf8_lossy(slice_subrange(block, pos, name_end));
        let value = from_utf8_lossy(slice_subrange(block, value_start, value_end));
        proof {
            let behind = rest.skip(name_end - pos + 1);
            assert(behind =~= block@.skip(value_start as int));
            assert(rest.take(name_end - pos) =~= block@.subrange(pos as int, name_end as int));
            assert(behind.take(value_end - value_start) =~= block@.subrange(
                value_start as int,
                value_end as int,
            ));
            let field = (rest.take(name_end - pos), behind.take(value_end - value_start));
            assert(done.push(field).drop_last() =~= done);
            if valid_fields(done.push(field)) {
                assert(done.push(field)[done.len() as int] == field);
                assert forall|i: int| 0 <= i < done.len() implies valid_utf8(
                    (#[trigger] done[i]).0,
                ) && valid_utf8(done[i].1) by {
                    assert(done.push(field)[i] == done[i]);
                }
            }
            if value_end + 1 < block.len() {
                assert(behind.skip(value_end - value_start + 1) =~= block@.skip(value_end + 1));
                assert(done + (seq![field] + header_fields(block@.skip(value_end + 1)))
                    =~= done.push(field) + header_fields(block@.skip(value_end + 1)));
            } else {
                assert(done + seq![field] =~= done.push(field));
            }
            done = done.push(field);
        }
        headers.insert(name, value);
        if value_end >= block.len() - 1 {
            proof {
                assert(done + Seq::<(Seq<u8>, Seq<u8>)>::empty() =~= done);
            }
            return headers;
        }
        pos = value_end + 1;
    }
    proof {
        lemma_index_of(block@.skip(pos as int), 0u8);
        assert(done + Seq::<(Seq<u8>, Seq<u8>)>::empty() =~= done);
    }
    headers
}

/// The number that two bytes hold, the low byte first.
fn read_le16(low: u8, high: u8) -> (n: usize)
    ensures
        n == le16(low, high),
        n <= 0xffff,
{
    let low: usize = low as usize;
    let high: usize = high as usize;
    low + 256 * high
}

/// Whether a buffer is long enough for what it announces.
pub fn is_well_framed(buf: &[u8]) -> (ok: bool)
    ensures
        ok == well_framed(buf@),
{
    if buf.len() < 6 {
        return false;
    }
    let path_size = read_le16(buf[4], buf[5]);
    if buf.len() < 8 || buf.len() - 8 < path_size {
        return false;
    }
    let headers_size = read_le16(buf[6 + path_size], buf[7 + path_size]);
    buf.len() - 8 - path_size >= headers_size
}

impl Request {
    /// The request that a buffer holds. Each byte of the method and of the
    /// path is one character; the names and values of the headers are read
    /// as UTF-8, with bytes that are none replaced.
    pub fn new_from_buffer(buf: &[u8]) -> (request: Self)
        requires
            well_framed(buf@),
        ensures
            request.method@ == latin1_text(method_bytes(buf@)),
            request.path@ == latin1_text(path_bytes(buf@)),
            request.headers@ == header_map(header_fields(header_block(buf@))),
            valid_fields(header_fields(header_block(buf@))) ==> request.headers@
                == text_header_map(header_fields(header_block(buf@))),
    {
        let method = latin1_string(slice_subrange(buf, 0, 4));
        let path_size = read_le16(buf[4], buf[5]);
        let path = latin1_string(slice_subrange(buf, 6, 6 + path_size));
        let start = 8 + path_size;
        let headers_size = read_le16(buf[start - 2], buf[start - 1]);
        let headers = parse_headers(slice_subrange(buf, start, start + headers_size));
        Request { method, path, headers }
    }
}

} // verus!

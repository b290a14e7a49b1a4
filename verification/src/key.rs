//! Routing keys: the byte strings under which one table level stores its
//! entries, and the keys with which a request path is probed.
//!
//! A key is made of the raw bytes of the static segments of a pattern, joined
//! by `/`. The first parameter or wildcard segment is replaced by a marker
//! byte and ends the key. A key of static segments alone loses a trailing
//! `/`, so that `/users/` and `/users` share a key.
use crate::text::{
    index_of, join, join_strs, lemma_ascii_front, lemma_ascii_single, lemma_encoding_bytes,
    lemma_encoding_concat,
    lemma_encoding_not_empty, lemma_index_of, lemma_join_concat, lemma_join_ends,
    lemma_join_front, lemma_join_split, lemma_split_pieces, split, split_str, strip_prefix,
    views,
};
use vstd::prelude::*;
use vstd::string::*;
use vstd::utf8::*;

verus! {

/// Marker byte that stands for a named parameter segment in a routing key.
pub const PARAM_MARKER: u8 = 0xff;

/// Marker byte that stands for a trailing wildcard segment in a routing key.
pub const WILDCARD_MARKER: u8 = 0xfe;

/// The byte of the segment separator `/`.
pub const SLASH: u8 = 0x2f;

/// The byte of `:`, which starts a parameter segment.
pub const COLON: u8 = 0x3a;

/// The byte of `*`, the wildcard segment.
pub const STAR: u8 = 0x2a;

/// The segments of a pattern or of a request path.
pub open spec fn segments(path: Seq<char>) -> Seq<Seq<char>> {
    split(path, '/')
}

/// A segment that is exactly `*`.
pub open spec fn is_wildcard_segment(segment: Seq<char>) -> bool {
    segment == seq!['*']
}

/// A segment that starts with `:`.
pub open spec fn is_param_segment(segment: Seq<char>) -> bool {
    segment.len() > 0 && segment[0] == ':'
}

/// Index of the first wildcard or parameter segment, or the number of
/// segments when all are static.
pub open spec fn marker_index(segs: Seq<Seq<char>>) -> int
    decreases segs.len(),
{
    if segs.len() == 0 || is_wildcard_segment(segs[0]) || is_param_segment(segs[0]) {
        0
    } else {
        1 + marker_index(segs.drop_first())
    }
}

/// The raw bytes of each segment.
pub open spec fn raw_bytes(segs: Seq<Seq<char>>) -> Seq<Seq<u8>> {
    segs.map_values(|segment: Seq<char>| encode_utf8(segment))
}

/// A joined key in its stored form: a trailing `/` is dropped where more
/// than that one byte stands, and an empty key becomes the single byte `/`.
pub open spec fn without_trailing_slash(key: Seq<u8>) -> Seq<u8> {
    if key.len() == 0 {
        seq![SLASH]
    } else if key.len() > 1 && key.last() == SLASH {
        key.drop_last()
    } else {
        key
    }
}

/// The key of static segments alone: their bytes joined by `/`, without a
/// trailing `/`.
pub open spec fn static_key(segs: Seq<Seq<char>>) -> Seq<u8> {
    without_trailing_slash(join(raw_bytes(segs), SLASH))
}

/// The text that the key of a static pattern holds: the pattern without a
/// trailing `/`, and `/` for the empty pattern and for `/` itself.
pub open spec fn trimmed(pattern: Seq<char>) -> Seq<char> {
    if pattern.len() == 0 {
        seq!['/']
    } else if pattern.len() > 1 && pattern.last() == '/' {
        pattern.drop_last()
    } else {
        pattern
    }
}

/// The key of static segments followed by a marker byte.
pub open spec fn marked_key(segs: Seq<Seq<char>>, marker: u8) -> Seq<u8> {
    join(raw_bytes(segs).push(seq![marker]), SLASH)
}

/// What a pattern encodes to at one table level.
pub struct PatternKey {
    /// The key under which this level stores the entry.
    pub key: Seq<u8>,
    /// The name of the capture, where the pattern has a marker segment.
    pub param_name: Option<Seq<char>>,
    /// The pattern that is left for the nested table; empty unless the
    /// marker segment is a parameter.
    pub remainder: Seq<char>,
    /// Whether the marker segment is the wildcard.
    pub is_wildcard: bool,
}

/// The encoding of a pattern: the segments before the first marker segment
/// make the key; a wildcard ends the pattern; what follows a parameter is the
/// remainder, which always begins with `/`.
pub open spec fn encode_pattern(pattern: Seq<char>) -> PatternKey {
    let segs = segments(pattern);
    let m = marker_index(segs);
    if m >= segs.len() {
        PatternKey {
            key: static_key(segs),
            param_name: None,
            remainder: Seq::empty(),
            is_wildcard: false,
        }
    } else if is_wildcard_segment(segs[m]) {
        PatternKey {
            key: marked_key(segs.take(m), WILDCARD_MARKER),
            param_name: Some(segs[m]),
            remainder: Seq::empty(),
            is_wildcard: true,
        }
    } else {
        PatternKey {
            key: marked_key(segs.take(m), PARAM_MARKER),
            param_name: Some(segs[m].drop_first()),
            remainder: seq!['/'] + join(segs.skip(m + 1), '/'),
            is_wildcard: false,
        }
    }
}

/// The key with which a table is probed for an entry that captures segment
/// `idx` of a path: the segments before `idx` and the marker, each preceded
/// by `/` unless it is an empty first segment.
pub open spec fn probe_key(segs: Seq<Seq<char>>, idx: int, marker: u8) -> Seq<u8> {
    let lead = if segs.len() > 0 && segs[0].len() > 0 {
        seq![SLASH]
    } else {
        Seq::empty()
    };
    lead + marked_key(segs.take(idx), marker)
}

/// `marker_index` stays within the segments, points at a marker segment when
/// there is one, and everything before it is static.
pub proof fn lemma_marker_index(segs: Seq<Seq<char>>)
    ensures
        0 <= marker_index(segs) <= segs.len(),
        marker_index(segs) < segs.len() ==> is_wildcard_segment(segs[marker_index(segs)])
            || is_param_segment(segs[marker_index(segs)]),
        forall|j: int|
            0 <= j < marker_index(segs) ==> !is_wildcard_segment(#[trigger] segs[j])
                && !is_param_segment(segs[j]),
    decreases segs.len(),
{
    if segs.len() == 0 || is_wildcard_segment(segs[0]) || is_param_segment(segs[0]) {
    } else {
        let rest = segs.drop_first();
        lemma_marker_index(rest);
        let m = marker_index(rest);
        if m < rest.len() {
            assert(segs[m + 1] == rest[m]);
        }
        assert forall|j: int| 0 <= j < marker_index(segs) implies !is_wildcard_segment(
            #[trigger] segs[j],
        ) && !is_param_segment(segs[j]) by {
            if j > 0 {
                assert(segs[j] == rest[j - 1]);
            }
        }
    }
}

/// An index with only static segments before it, which is a marker segment
/// or the end, is the one that `marker_index` gives.
pub proof fn lemma_marker_index_unique(segs: Seq<Seq<char>>, i: int)
    requires
        0 <= i <= segs.len(),
        i < segs.len() ==> is_wildcard_segment(segs[i]) || is_param_segment(segs[i]),
        forall|j: int|
            0 <= j < i ==> !is_wildcard_segment(#[trigger] segs[j]) && !is_param_segment(segs[j]),
    ensures
        marker_index(segs) == i,
{
    lemma_marker_index(segs);
    let m = marker_index(segs);
    if m < i {
        assert(!is_wildcard_segment(segs[m]) && !is_param_segment(segs[m]));
    }
}

/// A key that ends in a marker byte holds that byte.
pub proof fn lemma_marked_key_ends(segs: Seq<Seq<char>>, marker: u8)
    ensures
        marked_key(segs, marker).len() >= 1,
        marked_key(segs, marker).last() == marker,
        marked_key(segs, marker).contains(marker),
{
    let pieces = raw_bytes(segs).push(seq![marker]);
    lemma_join_ends(pieces, SLASH);
    assert(pieces.last() == seq![marker]);
    assert(pieces.last()[0] == marker);
}

/// The remainder of a parameter pattern begins with `/` and is shorter than
/// the pattern, but for the pattern `:`, whose remainder `/` is as long.
pub proof fn lemma_remainder(pattern: Seq<char>)
    requires
        encode_pattern(pattern).remainder.len() > 0,
    ensures
        encode_pattern(pattern).remainder[0] == '/',
        !is_param_segment(encode_pattern(pattern).remainder),
        encode_pattern(pattern).param_name is Some,
        !encode_pattern(pattern).is_wildcard,
        encode_pattern(pattern).remainder.len() < pattern.len() || (
        encode_pattern(pattern).remainder.len() == pattern.len() && is_param_segment(pattern)),
{
    let segs = segments(pattern);
    let m = marker_index(segs);
    lemma_marker_index(segs);
    lemma_split_pieces(pattern, '/');
    lemma_join_split(pattern, '/');
    let front = segs.take(m + 1);
    let back = segs.skip(m + 1);
    assert(front.last() == segs[m]);
    lemma_join_ends(front, '/');
    if back.len() > 0 {
        assert(front + back =~= segs);
        lemma_join_concat(front, back, '/');
    } else {
        assert(front =~= segs);
        assert(join(back, '/') =~= Seq::<char>::empty());
        if m == 0 {
            assert(join(front, '/') == segs[0]);
        } else {
            assert(join(front, '/') == join(front.drop_last(), '/') + seq!['/'] + front.last());
        }
    }
}

/// Whether no segment of a pattern is a parameter or the wildcard.
pub open spec fn is_static(pattern: Seq<char>) -> bool {
    marker_index(segments(pattern)) >= segments(pattern).len()
}

/// The bytes of the segments of a string, joined by `/`, are the bytes of
/// the string.
pub proof fn lemma_joined_bytes(path: Seq<char>)
    ensures
        join(raw_bytes(segments(path)), SLASH) == encode_utf8(path),
    decreases path.len(),
{
    lemma_index_of(path, '/');
    let i = index_of(path, '/');
    if 0 <= i < path.len() {
        let head = path.subrange(0, i);
        let tail = path.subrange(i + 1, path.len() as int);
        lemma_joined_bytes(tail);
        lemma_split_pieces(tail, '/');
        assert(raw_bytes(segments(path)) =~= seq![encode_utf8(head)] + raw_bytes(segments(tail)));
        lemma_join_front(encode_utf8(head), raw_bytes(segments(tail)), SLASH);
        let behind = seq!['/'] + tail;
        assert(path =~= head + behind);
        lemma_encoding_concat(head, behind);
        lemma_ascii_front(behind, SLASH);
        assert(behind.drop_first() =~= tail);
    } else {
        assert(raw_bytes(segments(path)) =~= seq![encode_utf8(path)]);
    }
}

/// The encoding of a text ends in the byte of `/` exactly where the text
/// ends in `/`, and then the bytes before it encode the text before it.
pub proof fn lemma_trailing_slash(text: Seq<char>)
    requires
        text.len() > 0,
    ensures
        encode_utf8(text).len() > 0,
        encode_utf8(text).last() == SLASH <==> text.last() == '/',
        text.last() == '/' ==> encode_utf8(text).drop_last() == encode_utf8(text.drop_last()),
{
    let bytes = encode_utf8(text);
    lemma_encoding_not_empty(text);
    lemma_ascii_single(SLASH);
    if text.last() == '/' {
        assert(text =~= text.drop_last() + seq!['/']);
        lemma_encoding_concat(text.drop_last(), seq!['/']);
        assert(bytes.drop_last() =~= encode_utf8(text.drop_last()));
    } else if bytes.last() == SLASH {
        let cut = bytes.len() - 1;
        encode_utf8_valid_utf8(text);
        encode_utf8_decode_utf8(text);
        is_char_boundary_iff_not_is_continuation_byte(bytes, cut);
        valid_utf8_split(bytes, cut);
        decode_utf8_split(bytes, cut);
        assert(bytes.subrange(cut, bytes.len() as int) =~= seq![SLASH]);
        let front = decode_utf8(bytes.subrange(0, cut));
        assert(text == front + seq!['/']);
        assert(text.last() == '/');
    }
}

/// The key of a static pattern is the text of the pattern without a
/// trailing `/`. It holds no marker byte.
pub proof fn lemma_static_pattern_key(pattern: Seq<char>)
    requires
        is_static(pattern),
    ensures
        encode_pattern(pattern).key == encode_utf8(trimmed(pattern)),
        encode_pattern(pattern).remainder.len() == 0,
        !encode_pattern(pattern).is_wildcard,
        !encode_pattern(pattern).key.contains(PARAM_MARKER),
        !encode_pattern(pattern).key.contains(WILDCARD_MARKER),
{
    lemma_joined_bytes(pattern);
    lemma_encoding_bytes(trimmed(pattern));
    lemma_ascii_single(SLASH);
    if pattern.len() > 0 {
        lemma_trailing_slash(pattern);
        if pattern.last() == '/' {
            if pattern.len() > 1 {
                lemma_encoding_not_empty(pattern.drop_last());
            } else {
                assert(pattern =~= seq!['/']);
            }
        }
    } else {
        assert(encode_utf8(pattern) =~= Seq::<u8>::empty());
    }
}

/// Appends one piece to a key under construction, after a `/` unless the
/// piece is the first.
fn push_piece(key: &mut Vec<u8>, piece: &[u8], first: bool)
    ensures
        final(key)@ == if first {
            old(key)@ + piece@
        } else {
            old(key)@ + seq![SLASH] + piece@
        },
{
    if !first {
        key.push(SLASH);
    }
    let ghost start = key@;
    let mut i: usize = 0;
    while i < piece.len()
        invariant
            i <= piece.len(),
            key@ == start + piece@.take(i as int),
        decreases piece.len() - i,
    {
        key.push(piece[i]);
        proof {
            assert(piece@.take(i + 1) =~= piece@.take(i as int).push(piece@[i as int]));
        }
        i += 1;
    }
    proof {
        assert(piece@.take(piece.len() as int) =~= piece@);
    }
}

/// Joining with one more piece at the end.
pub proof fn lemma_join_push<A>(parts: Seq<Seq<A>>, piece: Seq<A>, sep: A)
    ensures
        join(parts.push(piece), sep) == if parts.len() == 0 {
            piece
        } else {
            join(parts, sep) + seq![sep] + piece
        },
{
    let all = parts.push(piece);
    assert(all.drop_last() =~= parts);
    assert(all.last() == piece);
}

/// The string `*`.
pub fn star() -> (s: &'static str)
    ensures
        s@ == seq!['*'],
{
    let s = "*";
    proof {
        reveal_strlit("*");
        assert(s@ =~= seq!['*']);
    }
    s
}

/// The string `/`.
pub fn slash() -> (s: &'static str)
    ensures
        s@ == seq!['/'],
{
    let s = "/";
    proof {
        reveal_strlit("/");
        assert(s@ =~= seq!['/']);
    }
    s
}

/// The joined raw bytes of the first `count` segments.
fn static_prefix(segs: &Vec<&str>, count: usize) -> (key: Vec<u8>)
    requires
        count <= segs.len(),
    ensures
        key@ == join(raw_bytes(views(segs@).take(count as int)), SLASH),
{
    let mut key: Vec<u8> = Vec::new();
    let mut i: usize = 0;
    let ghost all = views(segs@);
    while i < count
        invariant
            i <= count <= segs.len(),
            all == views(segs@),
            key@ == join(raw_bytes(all.take(i as int)), SLASH),
        decreases count - i,
    {
        push_piece(&mut key, segs[i].as_bytes(), i == 0);
        proof {
            let done = raw_bytes(all.take(i as int));
            assert(raw_bytes(all.take(i + 1)) =~= done.push(encode_utf8(all[i as int])));
            lemma_join_push(done, encode_utf8(all[i as int]), SLASH);
            assert(key@ =~= join(raw_bytes(all.take(i + 1)), SLASH));
        }
        i += 1;
    }
    key
}

/// The key of the first `count` segments followed by `marker`.
pub fn build_marked_key(segs: &Vec<&str>, count: usize, marker: u8) -> (key: Vec<u8>)
    requires
        count <= segs.len(),
    ensures
        key@ == marked_key(views(segs@).take(count as int), marker),
{
    let mut key = static_prefix(segs, count);
    let piece: [u8; 1] = [marker];
    push_piece(&mut key, piece.as_slice(), count == 0);
    proof {
        let done = raw_bytes(views(segs@).take(count as int));
        lemma_join_push(done, seq![marker], SLASH);
        assert(piece@ =~= seq![marker]);
    }
    key
}

/// The key with which a table is probed for an entry that captures segment
/// `idx` of the path with the segments `segs`.
pub fn build_probe_key(segs: &Vec<&str>, idx: usize, marker: u8) -> (key: Vec<u8>)
    requires
        idx < segs.len(),
    ensures
        key@ == probe_key(views(segs@), idx as int, marker),
{
    let marked = build_marked_key(segs, idx, marker);
    let mut key: Vec<u8> = Vec::new();
    if segs[0].as_bytes().len() > 0 {
        key.push(SLASH);
    }
    proof {
        let first = views(segs@)[0];
        if first.len() > 0 {
            lemma_encoding_not_empty(first);
        }
        assert(encode_utf8(Seq::<char>::empty()) =~= Seq::<u8>::empty());
    }
    push_piece(&mut key, marked.as_slice(), true);
    key
}

/// Encodes a pattern: the key, the name of the capture, the remainder for the
/// nested table, and whether the pattern ends in the wildcard.
pub fn encode(pattern: &str) -> (r: (Vec<u8>, Option<String>, String, bool))
    ensures
        r.0@ == encode_pattern(pattern@).key,
        match (r.1, encode_pattern(pattern@).param_name) {
            (Some(name), Some(spec_name)) => name@ == spec_name,
            (None, None) => true,
            _ => false,
        },
        r.2@ == encode_pattern(pattern@).remainder,
        r.3 == encode_pattern(pattern@).is_wildcard,
{
    let segs = split_str(pattern, SLASH);
    let ghost all = views(segs@);
    proof {
        lemma_split_pieces(pattern@, '/');
    }
    let mut i: usize = 0;
    while i < segs.len()
        invariant
            i <= segs.len(),
            all == views(segs@),
            all == segments(pattern@),
            forall|j: int|
                0 <= j < i ==> !is_wildcard_segment(#[trigger] all[j]) && !is_param_segment(all[j]),
        decreases segs.len() - i,
    {
        let segment = segs[i];
        assert(segment@ == all[i as int]);
        match strip_prefix(segment, STAR) {
            Some(rest) => {
                if rest.as_bytes().len() == 0 {
                    proof {
                        if rest@.len() > 0 {
                            lemma_encoding_not_empty(rest@);
                        }
                        assert(segment@ =~= seq!['*']);
                        lemma_marker_index_unique(all, i as int);
                    }
                    let key = build_marked_key(&segs, i, WILDCARD_MARKER);
                    return (key, Some(segment.to_owned()), String::new(), true);
                }
                proof {
                    assert(encode_utf8(Seq::<char>::empty()) =~= Seq::<u8>::empty());
                    assert(segment@.len() == 1 + rest@.len());
                }
            },
            None => {},
        }
        match strip_prefix(segment, COLON) {
            Some(name) => {
                proof {
                    assert(segment@[0] == ':');
                    assert(segment@.drop_first() =~= name@);
                    lemma_marker_index_unique(all, i as int);
                }
                let key = build_marked_key(&segs, i, PARAM_MARKER);
                let mut remainder = slash().to_owned();
                let tail = join_strs(&segs, i + 1, slash());
                remainder.append(tail.as_str());
                return (key, Some(name.to_owned()), remainder, false);
            },
            None => {},
        }
        i += 1;
    }
    proof {
        lemma_marker_index_unique(all, segs.len() as int);
        assert(all.take(segs.len() as int) =~= all);
    }
    let mut key = static_prefix(&segs, segs.len());
    let len = key.len();
    if len == 0 {
        key.push(SLASH);
    } else if len > 1 && key[len - 1] == SLASH {
        let ghost joined = key@;
        key.pop();
        proof {
            assert(key@ =~= joined.drop_last());
        }
    }
    (key, None, String::new(), false)
}

} // verus!

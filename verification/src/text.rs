//! Splitting and joining of strings on a one-byte separator.
//!
//! The specifications speak of strings as sequences of characters. The
//! executable functions scan the UTF-8 bytes of a `&str` and cut it at
//! character boundaries, so the proofs in this module relate the two.
use vstd::prelude::*;
use vstd::string::*;
use vstd::utf8::*;

verus! {

/// Position of the first occurrence of `x` in `s`, or `s.len()` when `x` does
/// not occur.
pub open spec fn index_of<A>(s: Seq<A>, x: A) -> int
    decreases s.len(),
{
    if s.len() == 0 || s[0] == x {
        0
    } else {
        1 + index_of(s.drop_first(), x)
    }
}

/// The pieces of `s` between the occurrences of `sep`. There is always at
/// least one piece, and an empty piece stands between two neighbouring
/// separators as well as before a leading and after a trailing one.
pub open spec fn split(s: Seq<char>, sep: char) -> Seq<Seq<char>>
    decreases s.len(),
{
    let i = index_of(s, sep);
    if 0 <= i < s.len() {
        seq![s.subrange(0, i)] + split(s.subrange(i + 1, s.len() as int), sep)
    } else {
        seq![s]
    }
}

/// The concatenation of `parts` with one `sep` between each two neighbours.
pub open spec fn join<A>(parts: Seq<Seq<A>>, sep: A) -> Seq<A>
    decreases parts.len(),
{
    if parts.len() == 0 {
        Seq::empty()
    } else if parts.len() == 1 {
        parts[0]
    } else {
        join(parts.drop_last(), sep) + seq![sep] + parts.last()
    }
}

/// The character sequences of a list of string slices.
pub open spec fn views(parts: Seq<&str>) -> Seq<Seq<char>> {
    parts.map_values(|p: &str| p@)
}

/// `index_of` stays within the sequence, points at an occurrence when there
/// is one, and nothing before it is an occurrence.
pub proof fn lemma_index_of<A>(s: Seq<A>, x: A)
    ensures
        0 <= index_of(s, x) <= s.len(),
        index_of(s, x) < s.len() ==> s[index_of(s, x)] == x,
        forall|j: int| 0 <= j < index_of(s, x) ==> s[j] != x,
        index_of(s, x) < s.len() <==> s.contains(x),
    decreases s.len(),
{
    if s.len() == 0 || s[0] == x {
    } else {
        let t = s.drop_first();
        lemma_index_of(t, x);
        assert forall|j: int| 0 <= j < index_of(s, x) implies s[j] != x by {
            if j > 0 {
                assert(s[j] == t[j - 1]);
            }
        }
        if index_of(t, x) < t.len() {
            assert(s[index_of(t, x) + 1] == t[index_of(t, x)]);
        }
        if s.contains(x) {
            let k = choose|k: int| 0 <= k < s.len() && s[k] == x;
            assert(t[k - 1] == x);
        }
    }
}

/// An index with no occurrence before it, which is an occurrence or the end,
/// is the one that `index_of` gives.
pub proof fn lemma_index_of_unique<A>(s: Seq<A>, x: A, i: int)
    requires
        0 <= i <= s.len(),
        i < s.len() ==> s[i] == x,
        forall|j: int| 0 <= j < i ==> s[j] != x,
    ensures
        index_of(s, x) == i,
{
    lemma_index_of(s, x);
}

/// Cutting at the first separator: a string without separator is its own
/// single piece; otherwise the head is the first piece and the pieces of the
/// tail follow.
pub proof fn lemma_split_cut(s: Seq<char>, sep: char, head: Seq<char>, tail: Seq<char>)
    requires
        s == head + seq![sep] + tail,
        !head.contains(sep),
    ensures
        split(s, sep) == seq![head] + split(tail, sep),
{
    let i = head.len() as int;
    assert(s[i] == sep);
    assert forall|j: int| 0 <= j < i implies s[j] != sep by {
        assert(s[j] == head[j]);
    }
    lemma_index_of_unique(s, sep, i);
    assert(s.subrange(0, i) =~= head);
    assert(s.subrange(i + 1, s.len() as int) =~= tail);
}

/// A string without separator has exactly one piece.
pub proof fn lemma_split_whole(s: Seq<char>, sep: char)
    requires
        !s.contains(sep),
    ensures
        split(s, sep) == seq![s],
{
    lemma_index_of(s, sep);
}

/// Every string has at least one piece, and no piece holds the separator.
pub proof fn lemma_split_pieces(s: Seq<char>, sep: char)
    ensures
        split(s, sep).len() >= 1,
        forall|k: int| 0 <= k < split(s, sep).len() ==> !(#[trigger] split(s, sep)[k]).contains(sep),
    decreases s.len(),
{
    lemma_index_of(s, sep);
    let i = index_of(s, sep);
    if 0 <= i < s.len() {
        let head = s.subrange(0, i);
        let tail = s.subrange(i + 1, s.len() as int);
        lemma_split_pieces(tail, sep);
        assert forall|k: int| 0 <= k < split(s, sep).len() implies !(#[trigger] split(
            s,
            sep,
        )[k]).contains(sep) by {
            if k == 0 {
                if head.contains(sep) {
                    let j = choose|j: int| 0 <= j < head.len() && head[j] == sep;
                    assert(s[j] == sep);
                }
            } else {
                assert(split(s, sep)[k] == split(tail, sep)[k - 1]);
            }
        }
    }
}

/// Joining with a piece put in front.
pub proof fn lemma_join_front<A>(first: Seq<A>, rest: Seq<Seq<A>>, sep: A)
    requires
        rest.len() >= 1,
    ensures
        join(seq![first] + rest, sep) == first + seq![sep] + join(rest, sep),
    decreases rest.len(),
{
    let all = seq![first] + rest;
    if rest.len() == 1 {
        assert(all.drop_last() =~= seq![first]);
        assert(all.last() == rest[0]);
        assert(join(seq![first], sep) == first);
        assert(join(rest, sep) == rest[0]);
    } else {
        assert(all.drop_last() =~= seq![first] + rest.drop_last());
        assert(all.last() == rest.last());
        lemma_join_front(first, rest.drop_last(), sep);
        assert(join(rest, sep) == join(rest.drop_last(), sep) + seq![sep] + rest.last());
        assert(first + seq![sep] + join(rest.drop_last(), sep) + seq![sep] + rest.last() =~= first
            + seq![sep] + (join(rest.drop_last(), sep) + seq![sep] + rest.last()));
    }
}

/// Joining the pieces of a string gives the string back.
pub proof fn lemma_join_split(s: Seq<char>, sep: char)
    ensures
        join(split(s, sep), sep) == s,
    decreases s.len(),
{
    lemma_index_of(s, sep);
    let i = index_of(s, sep);
    if 0 <= i < s.len() {
        let head = s.subrange(0, i);
        let tail = s.subrange(i + 1, s.len() as int);
        lemma_join_split(tail, sep);
        lemma_split_pieces(tail, sep);
        lemma_join_front(head, split(tail, sep), sep);
        assert(head + seq![sep] + tail =~= s);
    }
}

/// Joining two lists of pieces, one behind the other.
pub proof fn lemma_join_concat<A>(front: Seq<Seq<A>>, back: Seq<Seq<A>>, sep: A)
    requires
        front.len() >= 1,
        back.len() >= 1,
    ensures
        join(front + back, sep) == join(front, sep) + seq![sep] + join(back, sep),
    decreases back.len(),
{
    let all = front + back;
    assert(all.last() == back.last());
    if back.len() == 1 {
        assert(all.drop_last() =~= front);
        assert(join(back, sep) == back[0]);
    } else {
        assert(all.drop_last() =~= front + back.drop_last());
        lemma_join_concat(front, back.drop_last(), sep);
        assert(join(back, sep) == join(back.drop_last(), sep) + seq![sep] + back.last());
        assert(join(front, sep) + seq![sep] + join(back.drop_last(), sep) + seq![sep] + back.last()
            =~= join(front, sep) + seq![sep] + (join(back.drop_last(), sep) + seq![sep]
            + back.last()));
    }
}

/// A joined string ends with its last piece.
pub proof fn lemma_join_ends<A>(parts: Seq<Seq<A>>, sep: A)
    requires
        parts.len() >= 1,
    ensures
        join(parts, sep).len() >= parts.last().len(),
        forall|i: int|
            0 <= i < parts.last().len() ==> join(parts, sep)[join(parts, sep).len()
                - parts.last().len() + i] == #[trigger] parts.last()[i],
{
}

/// The character that a byte below 0x80 encodes.
pub open spec fn ascii(b: u8) -> char {
    b as char
}

/// An ASCII character at the front of a string is the first byte of its
/// encoding, and the rest of the string follows it.
pub proof fn lemma_ascii_front(chars: Seq<char>, b: u8)
    requires
        b < 0x80,
        chars.len() > 0,
        chars[0] == ascii(b),
    ensures
        encode_utf8(chars) == seq![b] + encode_utf8(chars.drop_first()),
{
    let c = chars[0] as u32;
    assert(c == b as u32);
    assert(has_width_1_encoding(c));
    assert(leading_byte_width_1(c) == b) by (bit_vector)
        requires
            c == b as u32,
            b < 0x80,
    ;
}

/// A one-byte encoding is the encoding of the ASCII character of that byte.
pub proof fn lemma_ascii_single(b: u8)
    requires
        b < 0x80,
    ensures
        encode_utf8(seq![ascii(b)]) == seq![b],
        decode_utf8(seq![b]) == seq![ascii(b)],
{
    let chars = seq![ascii(b)];
    lemma_ascii_front(chars, b);
    assert(chars.drop_first() =~= Seq::<char>::empty());
    assert(encode_utf8(chars.drop_first()) =~= Seq::<u8>::empty());
    assert(encode_utf8(chars) =~= seq![b]);
    encode_utf8_decode_utf8(chars);
}

/// The encoding of two strings, one behind the other.
pub proof fn lemma_encoding_concat(front: Seq<char>, back: Seq<char>)
    ensures
        encode_utf8(front + back) == encode_utf8(front) + encode_utf8(back),
    decreases front.len(),
{
    if front.len() == 0 {
        assert(front + back =~= back);
        assert(encode_utf8(front) + encode_utf8(back) =~= encode_utf8(back));
    } else {
        let all = front + back;
        assert(all[0] == front[0]);
        assert(all.drop_first() =~= front.drop_first() + back);
        lemma_encoding_concat(front.drop_first(), back);
        assert(encode_utf8(all) =~= encode_utf8(front) + encode_utf8(back));
    }
}

/// The encoding of a string that holds an ASCII character holds its byte.
pub proof fn lemma_ascii_occurs(chars: Seq<char>, b: u8)
    requires
        b < 0x80,
        chars.contains(ascii(b)),
    ensures
        encode_utf8(chars).contains(b),
    decreases chars.len(),
{
    let k = choose|k: int| 0 <= k < chars.len() && chars[k] == ascii(b);
    if chars[0] == ascii(b) {
        lemma_ascii_front(chars, b);
        assert(encode_utf8(chars)[0] == b);
    } else {
        let rest = chars.drop_first();
        assert(rest[k - 1] == ascii(b));
        lemma_ascii_occurs(rest, b);
        let head = encode_scalar(chars[0] as u32);
        let tail = encode_utf8(rest);
        let j = choose|j: int| 0 <= j < tail.len() && tail[j] == b;
        assert(encode_utf8(chars)[head.len() + j] == b);
    }
}

/// The encoding of a non-empty string is not empty.
pub proof fn lemma_encoding_not_empty(chars: Seq<char>)
    requires
        chars.len() > 0,
    ensures
        encode_utf8(chars).len() > 0,
{
    assert(encode_scalar(chars[0] as u32).len() > 0);
}

/// In a valid encoding the position behind an ASCII byte that starts a
/// character is the start of the next character or the end.
pub proof fn lemma_boundary_after_ascii(bytes: Seq<u8>)
    requires
        valid_utf8(bytes),
        bytes.len() > 0,
        bytes[0] < 0x80,
    ensures
        is_char_boundary(bytes, 1),
{
    reveal_with_fuel(is_char_boundary, 2);
    assert(length_of_first_scalar(bytes) == 1);
}

/// No byte of a UTF-8 encoding is above 0xf7.
pub proof fn lemma_encoding_bytes(chars: Seq<char>)
    ensures
        forall|i: int| 0 <= i < encode_utf8(chars).len() ==> #[trigger] encode_utf8(chars)[i] <= 0xf7,
{
    let bytes = encode_utf8(chars);
    encode_utf8_valid_utf8(chars);
    assert forall|i: int| 0 <= i < bytes.len() implies #[trigger] bytes[i] <= 0xf7 by {
        is_char_boundary_iff_not_is_continuation_byte(bytes, i);
        is_char_boundary_iff_is_leading_byte(bytes, i);
    }
}

/// Cuts `s` at the first occurrence of one of the two ASCII characters with
/// the codes `first` and `second`: the part before it, the code that was
/// found, and the part behind it. `None` when neither occurs.
pub fn split_at_first_of<'a>(s: &'a str, first: u8, second: u8) -> (r: Option<
    (&'a str, u8, &'a str),
>)
    requires
        first < 0x80,
        second < 0x80,
    ensures
        match r {
            Some((head, found, tail)) => {
                &&& s@ == head@ + seq![ascii(found)] + tail@
                &&& found == first || found == second
                &&& !head@.contains(ascii(first))
                &&& !head@.contains(ascii(second))
            },
            None => !s@.contains(ascii(first)) && !s@.contains(ascii(second)),
        },
{
    let bytes = s.as_bytes();
    let mut i: usize = 0;
    while i < bytes.len() && bytes[i] != first && bytes[i] != second
        invariant
            i <= bytes.len(),
            forall|j: int| 0 <= j < i ==> bytes@[j] != first && bytes@[j] != second,
        decreases bytes.len() - i,
    {
        i += 1;
    }
    proof {
        encode_utf8_valid_utf8(s@);
        encode_utf8_decode_utf8(s@);
    }
    if i == bytes.len() {
        proof {
            if s@.contains(ascii(first)) {
                lemma_ascii_occurs(s@, first);
            }
            if s@.contains(ascii(second)) {
                lemma_ascii_occurs(s@, second);
            }
        }
        return None;
    }
    let found = bytes[i];
    proof {
        is_char_boundary_iff_not_is_continuation_byte(bytes@, i as int);
    }
    let (head, rest) = s.split_at(i);
    proof {
        valid_utf8_split(bytes@, i as int);
        decode_utf8_split(bytes@, i as int);
        encode_utf8_decode_utf8(head@);
        encode_utf8_decode_utf8(rest@);
        assert(s@ == head@ + rest@);
        lemma_boundary_after_ascii(rest.spec_bytes());
        if head@.contains(ascii(first)) {
            lemma_ascii_occurs(head@, first);
            let j = choose|j: int|
                0 <= j < head.spec_bytes().len() && head.spec_bytes()[j] == first;
            assert(bytes@[j] == first);
        }
        if head@.contains(ascii(second)) {
            lemma_ascii_occurs(head@, second);
            let j = choose|j: int|
                0 <= j < head.spec_bytes().len() && head.spec_bytes()[j] == second;
            assert(bytes@[j] == second);
        }
    }
    let (front, tail) = rest.split_at(1);
    proof {
        let rb = rest.spec_bytes();
        valid_utf8_split(rb, 1);
        decode_utf8_split(rb, 1);
        encode_utf8_decode_utf8(front@);
        encode_utf8_decode_utf8(tail@);
        assert(rb.subrange(0, 1) =~= seq![found]);
        lemma_ascii_single(found);
        assert(rest@ == seq![ascii(found)] + tail@);
        assert(s@ =~= head@ + seq![ascii(found)] + tail@);
    }
    Some((head, found, tail))
}

/// Cuts `s` at the first occurrence of the ASCII character with code `sep`:
/// the part before it and the part behind it. `None` when it does not occur.
pub fn split_once<'a>(s: &'a str, sep: u8) -> (r: Option<(&'a str, &'a str)>)
    requires
        sep < 0x80,
    ensures
        match r {
            Some((head, tail)) => s@ == head@ + seq![ascii(sep)] + tail@ && !head@.contains(
                ascii(sep),
            ),
            None => !s@.contains(ascii(sep)),
        },
{
    match split_at_first_of(s, sep, sep) {
        Some((head, _, tail)) => Some((head, tail)),
        None => None,
    }
}

/// Cuts the first character off `s`: the one-character string and the rest.
/// `None` when `s` is empty.
pub fn split_first_char<'a>(s: &'a str) -> (r: Option<(&'a str, &'a str)>)
    ensures
        match r {
            Some((first, rest)) => first@.len() == 1 && s@ == first@ + rest@,
            None => s@.len() == 0,
        },
{
    let bytes = s.as_bytes();
    proof {
        encode_utf8_valid_utf8(s@);
        encode_utf8_decode_utf8(s@);
        if s@.len() > 0 {
            lemma_encoding_not_empty(s@);
        } else {
            assert(encode_utf8(s@) =~= Seq::<u8>::empty());
        }
    }
    if bytes.len() == 0 {
        return None;
    }
    let lead = bytes[0];
    let width: usize = if lead < 0x80 {
        1
    } else if lead < 0xe0 {
        2
    } else if lead < 0xf0 {
        3
    } else {
        4
    };
    proof {
        reveal_with_fuel(is_char_boundary, 2);
        reveal_with_fuel(valid_utf8, 2);
        reveal_with_fuel(decode_utf8, 2);
        assert(width == length_of_first_scalar(bytes@));
        assert(is_char_boundary(bytes@, width as int));
    }
    let (first, rest) = s.split_at(width);
    proof {
        valid_utf8_split(bytes@, width as int);
        decode_utf8_split(bytes@, width as int);
        encode_utf8_decode_utf8(first@);
        encode_utf8_decode_utf8(rest@);
        let fb = bytes@.subrange(0, width as int);
        assert(length_of_first_scalar(fb) == width);
        assert(pop_first_scalar(fb) =~= Seq::<u8>::empty());
        assert(decode_utf8(fb).len() == 1);
    }
    Some((first, rest))
}

/// The code of the character of a one-character string, where it is an
/// ASCII character.
pub fn ascii_code(s: &str) -> (code: Option<u8>)
    requires
        s@.len() == 1,
    ensures
        match code {
            Some(b) => b < 0x80 && s@[0] == ascii(b),
            None => s@[0] as u32 >= 0x80,
        },
{
    let bytes = s.as_bytes();
    proof {
        encode_utf8_valid_utf8(s@);
        encode_utf8_decode_utf8(s@);
        lemma_encoding_not_empty(s@);
        assert(s@.drop_first() =~= Seq::<char>::empty());
        assert(encode_utf8(s@.drop_first()) =~= Seq::<u8>::empty());
    }
    if bytes.len() == 1 && bytes[0] < 0x80 {
        proof {
            lemma_ascii_single(bytes@[0]);
            assert(bytes@ =~= seq![bytes@[0]]);
        }
        Some(bytes[0])
    } else {
        proof {
            let c = s@[0] as u32;
            if c < 0x80 {
                let b = c as u8;
                assert(s@[0] == ascii(b));
                lemma_ascii_front(s@, b);
                assert(bytes@ =~= seq![b]);
            }
        }
        None
    }
}

/// Removes the ASCII character with code `c` from the front of `s`. `None`
/// when `s` does not start with it.
pub fn strip_prefix<'a>(s: &'a str, c: u8) -> (r: Option<&'a str>)
    requires
        c < 0x80,
    ensures
        match r {
            Some(rest) => s@ == seq![ascii(c)] + rest@,
            None => s@.len() == 0 || s@[0] != ascii(c),
        },
{
    let bytes = s.as_bytes();
    proof {
        encode_utf8_valid_utf8(s@);
        encode_utf8_decode_utf8(s@);
    }
    if bytes.len() == 0 || bytes[0] != c {
        proof {
            if s@.len() > 0 && s@[0] == ascii(c) {
                lemma_ascii_front(s@, c);
            }
        }
        return None;
    }
    proof {
        lemma_boundary_after_ascii(bytes@);
    }
    let (first, rest) = s.split_at(1);
    proof {
        valid_utf8_split(bytes@, 1);
        decode_utf8_split(bytes@, 1);
        encode_utf8_decode_utf8(first@);
        encode_utf8_decode_utf8(rest@);
        assert(bytes@.subrange(0, 1) =~= seq![c]);
        lemma_ascii_single(c);
    }
    Some(rest)
}

/// The pieces of `s` between the occurrences of the ASCII character with
/// code `sep`.
pub fn split_str<'a>(s: &'a str, sep: u8) -> (parts: Vec<&'a str>)
    requires
        sep < 0x80,
    ensures
        views(parts@) == split(s@, ascii(sep)),
{
    let mut parts: Vec<&'a str> = Vec::new();
    let mut rest: &'a str = s;
    loop
        invariant_except_break
            split(s@, ascii(sep)) == views(parts@) + split(rest@, ascii(sep)),
        invariant
            sep < 0x80,
        ensures
            views(parts@) == split(s@, ascii(sep)),
        decreases rest@.len(),
    {
        let ghost before = parts@;
        match split_once(rest, sep) {
            Some((head, tail)) => {
                proof {
                    lemma_split_cut(rest@, ascii(sep), head@, tail@);
                }
                parts.push(head);
                proof {
                    assert(views(parts@) =~= views(before) + seq![head@]);
                }
                rest = tail;
            },
            None => {
                proof {
                    lemma_split_whole(rest@, ascii(sep));
                }
                parts.push(rest);
                proof {
                    assert(views(parts@) =~= views(before) + seq![rest@]);
                }
                break ;
            },
        }
    }
    parts
}

/// Joins the pieces `parts[from..]` with the one-character string `sep`
/// between each two neighbours.
pub fn join_strs(parts: &Vec<&str>, from: usize, sep: &str) -> (joined: String)
    requires
        from <= parts.len(),
        sep@.len() == 1,
    ensures
        joined@ == join(views(parts@).skip(from as int), sep@[0]),
{
    let mut joined = String::new();
    let mut i: usize = from;
    let ghost all = views(parts@).skip(from as int);
    while i < parts.len()
        invariant
            from <= i <= parts.len(),
            sep@.len() == 1,
            all == views(parts@).skip(from as int),
            joined@ == join(all.take(i - from), sep@[0]),
        decreases parts.len() - i,
    {
        if i > from {
            joined.append(sep);
        }
        joined.append(parts[i]);
        proof {
            let done = all.take(i - from + 1);
            assert(done.drop_last() =~= all.take(i - from));
            assert(done.last() == parts@[i as int]@);
            assert(sep@ =~= seq![sep@[0]]);
            if i == from {
                assert(join(all.take(0), sep@[0]) =~= Seq::<char>::empty());
            }
        }
        i += 1;
    }
    proof {
        assert(all.take(parts.len() - from) =~= all);
    }
    joined
}

/// Whether two byte strings are equal.
pub fn same_bytes(a: &[u8], b: &[u8]) -> (same: bool)
    ensures
        same == (a@ == b@),
{
    if a.len() != b.len() {
        return false;
    }
    let mut i: usize = 0;
    while i < a.len()
        invariant
            i <= a.len(),
            a.len() == b.len(),
            forall|j: int| 0 <= j < i ==> a@[j] == b@[j],
        decreases a.len() - i,
    {
        if a[i] != b[i] {
            return false;
        }
        i += 1;
    }
    proof {
        assert(a@ =~= b@);
    }
    true
}

/// Whether a byte string holds the byte `b`.
pub fn has_byte(bytes: &[u8], b: u8) -> (found: bool)
    ensures
        found == bytes@.contains(b),
{
    let mut i: usize = 0;
    while i < bytes.len()
        invariant
            i <= bytes.len(),
            forall|j: int| 0 <= j < i ==> bytes@[j] != b,
        decreases bytes.len() - i,
    {
        if bytes[i] == b {
            return true;
        }
        i += 1;
    }
    false
}

/// Whether two strings are equal.
pub fn same_text(a: &str, b: &str) -> (same: bool)
    ensures
        same == (a@ == b@),
{
    proof {
        encode_utf8_decode_utf8(a@);
        encode_utf8_decode_utf8(b@);
    }
    same_bytes(a.as_bytes(), b.as_bytes())
}

/// The character whose code is the byte `b`.
pub open spec fn latin1(b: u8) -> char {
    b as char
}

/// The string whose characters have the bytes `bytes` as their codes.
pub open spec fn latin1_text(bytes: Seq<u8>) -> Seq<char> {
    bytes.map_values(|b: u8| latin1(b))
}

/// `String::push` of the standard library: appends one character to the end
/// of the string. Verus is told so without proof.
pub assume_specification[ String::push ](s: &mut String, ch: char)
    ensures
        final(s)@ == old(s)@.push(ch),
;

/// The string whose characters have the bytes `bytes` as their codes.
pub fn latin1_string(bytes: &[u8]) -> (text: String)
    ensures
        text@ == latin1_text(bytes@),
{
    let mut text = String::new();
    let mut i: usize = 0;
    while i < bytes.len()
        invariant
            i <= bytes.len(),
            text@ == latin1_text(bytes@.take(i as int)),
        decreases bytes.len() - i,
    {
        text.push(bytes[i] as char);
        proof {
            assert(latin1_text(bytes@.take(i + 1)) =~= latin1_text(bytes@.take(i as int)).push(
                latin1(bytes@[i as int]),
            ));
        }
        i += 1;
    }
    proof {
        assert(bytes@.take(bytes.len() as int) =~= bytes@);
    }
    text
}

/// The text that `String::from_utf8_lossy` of the standard library makes of
/// `bytes`: the text that the bytes encode, with U+FFFD in place of each
/// sequence that is no valid UTF-8.
pub uninterp spec fn utf8_lossy(bytes: Seq<u8>) -> Seq<char>;

/// Calls `String::from_utf8_lossy` of the standard library. The contract,
/// which Verus is told without proof, names the result, and says that bytes
/// which are valid UTF-8 give the text that they encode.
#[verifier::external_body]
pub(crate) fn from_utf8_lossy(bytes: &[u8]) -> (text: String)
    ensures
        text@ == utf8_lossy(bytes@),
        valid_utf8(bytes@) ==> text@ == decode_utf8(bytes@),
{
    String::from_utf8_lossy(bytes).into_owned()
}

} // verus!

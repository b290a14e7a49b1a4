//! Decoding of `application/x-www-form-urlencoded` data.
use crate::string_map::StringMap;
use crate::text::{
    ascii, ascii_code, from_utf8_lossy, index_of, latin1, lemma_index_of, lemma_index_of_unique,
    split, split_at_first_of, split_first_char, split_once, split_str, utf8_lossy, views,
};
use vstd::prelude::*;
use vstd::string::*;
use vstd::utf8::*;

verus! {

/// The value of a hexadecimal digit.
pub open spec fn hex_digit(c: char) -> Option<int> {
    let code = c as int;
    if 0x30 <= code <= 0x39 {
        Some(code - 0x30)
    } else if 0x41 <= code <= 0x46 {
        Some(code - 0x41 + 10)
    } else if 0x61 <= code <= 0x66 {
        Some(code - 0x61 + 10)
    } else {
        None
    }
}

/// The byte that two characters behind a `%` stand for: two hexadecimal
/// digits, or a `+` sign and one hexadecimal digit.
pub open spec fn hex_pair(high: char, low: char) -> Option<int> {
    match (hex_digit(high), hex_digit(low)) {
        (Some(h), Some(l)) => Some(16 * h + l),
        (None, Some(l)) => if high == '+' {
            Some(l)
        } else {
            None
        },
        _ => None,
    }
}

/// The decoded form of a URL-encoded string. A `+` stands for a space. A `%`
/// takes the two characters behind it with it: where they stand for a byte,
/// the three make the character with that code, and else they stay as they
/// are. A `%` with fewer than two characters behind it stays with them as
/// it is.
pub open spec fn url_decoded(input: Seq<char>) -> Seq<char>
    decreases input.len(),
{
    if input.len() == 0 {
        input
    } else if input[0] == '+' {
        seq![' '] + url_decoded(input.skip(1))
    } else if input[0] == '%' {
        if input.len() < 3 {
            input
        } else {
            match hex_pair(input[1], input[2]) {
                Some(byte) => seq![latin1(byte as u8)] + url_decoded(input.skip(3)),
                None => input.take(3) + url_decoded(input.skip(3)),
            }
        }
    } else {
        seq![input[0]] + url_decoded(input.skip(1))
    }
}

/// The fields of form data: the pieces between `&`, each cut at its first
/// `=` into a key and a value, both decoded. A piece without `=` is a key
/// with an empty value, and an empty piece is no field. A later field
/// replaces an earlier one of the same key.
pub open spec fn form_fields(text: Seq<char>) -> Map<Seq<char>, Seq<char>> {
    fields_of(split(text, '&'))
}

/// The fields of the given pieces of form data.
pub open spec fn fields_of(pieces: Seq<Seq<char>>) -> Map<Seq<char>, Seq<char>>
    decreases pieces.len(),
{
    if pieces.len() == 0 {
        Map::empty()
    } else {
        let before = fields_of(pieces.drop_last());
        let piece = pieces.last();
        let cut = index_of(piece, '=');
        if piece.len() == 0 {
            before
        } else if cut < piece.len() {
            before.insert(
                url_decoded(piece.subrange(0, cut)),
                url_decoded(piece.subrange(cut + 1, piece.len() as int)),
            )
        } else {
            before.insert(url_decoded(piece), Seq::empty())
        }
    }
}

/// A string without `+` and `%` in front of another decodes to itself in
/// front of what the other decodes to.
pub proof fn lemma_decoded_plain(plain: Seq<char>, rest: Seq<char>)
    requires
        !plain.contains('+'),
        !plain.contains('%'),
    ensures
        url_decoded(plain + rest) == plain + url_decoded(rest),
    decreases plain.len(),
{
    if plain.len() == 0 {
        assert(plain + rest =~= rest);
        assert(plain + url_decoded(rest) =~= url_decoded(rest));
    } else {
        let all = plain + rest;
        let tail = plain.drop_first();
        assert(all[0] == plain[0]);
        assert(plain.contains(plain[0]));
        assert(all.skip(1) =~= tail + rest);
        assert(!tail.contains('+')) by {
            if tail.contains('+') {
                let j = choose|j: int| 0 <= j < tail.len() && tail[j] == '+';
                assert(plain[j + 1] == '+');
            }
        }
        assert(!tail.contains('%')) by {
            if tail.contains('%') {
                let j = choose|j: int| 0 <= j < tail.len() && tail[j] == '%';
                assert(plain[j + 1] == '%');
            }
        }
        lemma_decoded_plain(tail, rest);
        assert(seq![all[0]] + (tail + url_decoded(rest)) =~= plain + url_decoded(rest));
    }
}

/// The value of the hexadecimal digit in a one-character string.
fn hex_value(digit: &str) -> (value: Option<u8>)
    requires
        digit@.len() == 1,
    ensures
        match value {
            Some(v) => hex_digit(digit@[0]) == Some(v as int),
            None => hex_digit(digit@[0]) is None,
        },
{
    match ascii_code(digit) {
        Some(code) => {
            if 0x30 <= code && code <= 0x39 {
                Some(code - 0x30)
            } else if 0x41 <= code && code <= 0x46 {
                Some(code - 0x41 + 10)
            } else if 0x61 <= code && code <= 0x66 {
                Some(code - 0x61 + 10)
            } else {
                None
            }
        },
        None => None,
    }
}

/// The byte that two one-character strings behind a `%` stand for.
fn hex_pair_value(high: &str, low: &str) -> (value: Option<u8>)
    requires
        high@.len() == 1,
        low@.len() == 1,
    ensures
        match value {
            Some(v) => hex_pair(high@[0], low@[0]) == Some(v as int),
            None => hex_pair(high@[0], low@[0]) is None,
        },
{
    match hex_value(low) {
        Some(l) => match hex_value(high) {
            Some(h) => Some(16 * h + l),
            None => match ascii_code(high) {
                Some(code) => if code == 0x2b {
                    Some(l)
                } else {
                    None
                },
                None => None,
            },
        },
        None => None,
    }
}

/// Decodes a URL-encoded string.
pub fn url_decode(input: &str) -> (output: String)
    ensures
        output@ == url_decoded(input@),
{
    let mut output = String::new();
    let mut rest: &str = input;
    loop
        invariant_except_break
            url_decoded(input@) == output@ + url_decoded(rest@),
        ensures
            output@ == url_decoded(input@),
        decreases rest@.len(),
    {
        match split_at_first_of(rest, 0x2b, 0x25) {
            None => {
                proof {
                    lemma_decoded_plain(rest@, Seq::empty());
                    assert(rest@ + Seq::<char>::empty() =~= rest@);
                    assert(url_decoded(Seq::<char>::empty()) =~= Seq::<char>::empty());
                }
                output.append(rest);
                break ;
            },
            Some((plain, found, tail)) => {
                let ghost special = seq![ascii(found)] + tail@;
                proof {
                    assert(rest@ =~= plain@ + special);
                    lemma_decoded_plain(plain@, special);
                    assert(special.skip(1) =~= tail@);
                }
                output.append(plain);
                if found == 0x2b {
                    output.push(' ');
                    rest = tail;
                } else {
                    match split_first_char(tail) {
                        None => {
                            proof {
                                assert(special =~= seq!['%']);
                            }
                            output.push('%');
                            break ;
                        },
                        Some((high, behind)) => match split_first_char(behind) {
                            None => {
                                proof {
                                    assert(special =~= seq!['%'] + high@);
                                }
                                output.push('%');
                                output.append(high);
                                break ;
                            },
                            Some((low, after)) => {
                                proof {
                                    assert(special =~= seq!['%'] + high@ + low@ + after@);
                                    assert(special.skip(3) =~= after@);
                                    assert(special.take(3) =~= seq!['%'] + high@ + low@);
                                    assert(special[1] == high@[0] && special[2] == low@[0]);
                                }
                                match hex_pair_value(high, low) {
                                    Some(byte) => {
                                        output.push(byte as char);
                                    },
                                    None => {
                                        output.push('%');
                                        output.append(high);
                                        output.append(low);
                                    },
                                }
                                rest = after;
                            },
                        },
                    }
                }
            },
        }
    }
    output
}

/// The fields of form data that is given as text.
pub fn parse_form(text: &str) -> (fields: StringMap)
    ensures
        fields@ == form_fields(text@),
{
    let pieces = split_str(text, 0x26);
    let ghost all = views(pieces@);
    let mut fields = StringMap::new();
    let mut i: usize = 0;
    while i < pieces.len()
        invariant
            i <= pieces.len(),
            all == views(pieces@),
            fields@ == fields_of(all.take(i as int)),
        decreases pieces.len() - i,
    {
        let piece = pieces[i];
        proof {
            assert(all.take(i + 1).drop_last() =~= all.take(i as int));
            assert(all.take(i + 1).last() == piece@);
            lemma_index_of(piece@, '=');
        }
        if !piece.is_empty() {
            match split_once(piece, 0x3d) {
                Some((key, value)) => {
                    proof {
                        let cut = key@.len() as int;
                        assert(piece@[cut] == '=');
                        assert forall|j: int| 0 <= j < cut implies piece@[j] != '=' by {
                            assert(piece@[j] == key@[j]);
                        }
                        lemma_index_of_unique(piece@, '=', cut);
                        assert(piece@.subrange(0, cut) =~= key@);
                        assert(piece@.subrange(cut + 1, piece@.len() as int) =~= value@);
                    }
                    fields.insert(url_decode(key), url_decode(value));
                },
                None => {
                    fields.insert(url_decode(piece), String::new());
                },
            }
        }
        i += 1;
    }
    proof {
        assert(all.take(pieces.len() as int) =~= all);
    }
    fields
}

/// The fields of form data that is given as bytes: the fields of the text
/// that the bytes encode. Bytes that are no valid UTF-8 are replaced as
/// `String::from_utf8_lossy` replaces them, before the data is cut into
/// fields.
pub fn parse_x_www_form_urlencoded(data: &[u8]) -> (fields: StringMap)
    ensures
        fields@ == if data@.len() == 0 {
            Map::<Seq<char>, Seq<char>>::empty()
        } else {
            form_fields(utf8_lossy(data@))
        },
        valid_utf8(data@) ==> fields@ == form_fields(decode_utf8(data@)),
{
    if data.len() == 0 {
        proof {
            let text = decode_utf8(data@);
            assert(text =~= Seq::<char>::empty());
            lemma_index_of(text, '&');
            let pieces = split(text, '&');
            assert(pieces =~= seq![text]);
            assert(fields_of(pieces.drop_last()) =~= Map::<Seq<char>, Seq<char>>::empty());
            assert(form_fields(text) =~= Map::<Seq<char>, Seq<char>>::empty());
        }
        return StringMap::new();
    }
    let text = from_utf8_lossy(data);
    parse_form(text.as_str())
}

} // verus!

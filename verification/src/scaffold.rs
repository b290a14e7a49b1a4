//! Filling in the templates of a new project.
use crate::text::{ascii, split_first_char, strip_prefix};
use vstd::prelude::*;
use vstd::string::*;
use vstd::utf8::*;

verus! {

/// Whether `prefix` stands at the front of `text`.
pub open spec fn starts_with(text: Seq<char>, prefix: Seq<char>) -> bool {
    prefix.len() <= text.len() && text.take(prefix.len() as int) == prefix
}

/// `text` with each occurrence of `pattern` replaced by `with`, from the
/// left, an occurrence starting only behind the one before it.
pub open spec fn replaced(text: Seq<char>, pattern: Seq<char>, with: Seq<char>) -> Seq<char>
    decreases text.len(),
{
    if text.len() == 0 || pattern.len() == 0 {
        text
    } else if starts_with(text, pattern) {
        with + replaced(text.skip(pattern.len() as int), pattern, with)
    } else {
        seq![text[0]] + replaced(text.skip(1), pattern, with)
    }
}

/// The text of a template with the name of the project filled in: the name
/// as it is for `$$PROJECT_NAME$$`, and with `_` for each `-` for
/// `$$PROJECT_NAME_UNDERSCORE$$`.
pub open spec fn substituted(content: Seq<char>, project_name: Seq<char>) -> Seq<char> {
    replaced(
        replaced(content, "$$PROJECT_NAME$$"@, project_name),
        "$$PROJECT_NAME_UNDERSCORE$$"@,
        replaced(project_name, "-"@, "_"@),
    )
}

/// Removes `pattern` from the front of `text`. `None` when `text` does not
/// start with it.
pub fn strip_prefix_str<'a>(text: &'a str, pattern: &str) -> (r: Option<&'a str>)
    requires
        is_ascii_chars(pattern@),
    ensures
        match r {
            Some(rest) => text@ == pattern@ + rest@,
            None => !starts_with(text@, pattern@),
        },
{
    let bytes = pattern.as_bytes();
    proof {
        is_ascii_chars_encode_utf8(pattern@);
    }
    let mut rest: &'a str = text;
    let mut i: usize = 0;
    while i < bytes.len()
        invariant
            i <= bytes.len(),
            bytes@ == encode_utf8(pattern@),
            is_ascii_chars(pattern@),
            bytes@.len() == pattern@.len(),
            forall|j: int| 0 <= j < pattern@.len() ==> pattern@[j] as u8 == bytes@[j],
            text@ == pattern@.take(i as int) + rest@,
        decreases bytes.len() - i,
    {
        let b = bytes[i];
        proof {
            let c = pattern@[i as int];
            assert('\0' <= c <= '\u{7f}');
            assert(c as u8 == b);
            assert(b < 0x80 && ascii(b) == c);
        }
        match strip_prefix(rest, b) {
            Some(tail) => {
                proof {
                    assert(pattern@.take(i + 1) =~= pattern@.take(i as int).push(
                        pattern@[i as int],
                    ));
                    assert(text@ =~= pattern@.take(i + 1) + tail@);
                }
                rest = tail;
            },
            None => {
                proof {
                    if starts_with(text@, pattern@) {
                        assert(text@.take(pattern@.len() as int)[i as int] == pattern@[i as int]);
                        assert(text@[i as int] == rest@[0]);
                    }
                }
                return None;
            },
        }
        i += 1;
    }
    proof {
        assert(pattern@.take(bytes.len() as int) =~= pattern@);
    }
    Some(rest)
}

/// `text` with each occurrence of `pattern` replaced by `with`.
pub fn replace_all(text: &str, pattern: &str, with: &str) -> (out: String)
    requires
        is_ascii_chars(pattern@),
        pattern@.len() > 0,
    ensures
        out@ == replaced(text@, pattern@, with@),
{
    let mut out = String::new();
    let mut rest: &str = text;
    loop
        invariant_except_break
            replaced(text@, pattern@, with@) == out@ + replaced(rest@, pattern@, with@),
        invariant
            is_ascii_chars(pattern@),
            pattern@.len() > 0,
        ensures
            out@ == replaced(text@, pattern@, with@),
        decreases rest@.len(),
    {
        match strip_prefix_str(rest, pattern) {
            Some(tail) => {
                proof {
                    assert(rest@.take(pattern@.len() as int) =~= pattern@);
                    assert(rest@.skip(pattern@.len() as int) =~= tail@);
                }
                out.append(with);
                rest = tail;
            },
            None => match split_first_char(rest) {
                Some((first, tail)) => {
                    proof {
                        assert(first@ =~= seq![rest@[0]]);
                        assert(rest@.skip(1) =~= tail@);
                    }
                    out.append(first);
                    rest = tail;
                },
                None => {
                    proof {
                        assert(out@ + rest@ =~= out@);
                    }
                    break ;
                },
            },
        }
    }
    out
}

/// The text of a template with the name of the project filled in.
pub fn substitute_project_name(content: &str, project_name: &str) -> (text: String)
    ensures
        text@ == substituted(content@, project_name@),
{
    proof {
        reveal_strlit("$$PROJECT_NAME$$");
        reveal_strlit("$$PROJECT_NAME_UNDERSCORE$$");
        reveal_strlit("-");
    }
    let underscored = replace_all(project_name, "-", "_");
    let named = replace_all(content, "$$PROJECT_NAME$$", project_name);
    replace_all(named.as_str(), "$$PROJECT_NAME_UNDERSCORE$$", underscored.as_str())
}

} // verus!

//! Text: how integers are written, what the escape sequences of a string
//! stand for, the marker of a rest parameter, and where a module is looked
//! for.

use crate::error::{Error, SpecError};
use vstd::prelude::*;

verus! {

/// The decimal digit for a number below ten.
pub open spec fn digit(d: int) -> char {
    if d == 0 {
        '0'
    } else if d == 1 {
        '1'
    } else if d == 2 {
        '2'
    } else if d == 3 {
        '3'
    } else if d == 4 {
        '4'
    } else if d == 5 {
        '5'
    } else if d == 6 {
        '6'
    } else if d == 7 {
        '7'
    } else if d == 8 {
        '8'
    } else {
        '9'
    }
}

/// The decimal digits of a natural number, without leading zeros.
pub open spec fn digits(n: nat) -> Seq<char>
    decreases n,
{
    if n < 10 {
        seq![digit(n as int)]
    } else {
        digits(n / 10).push(digit((n % 10) as int))
    }
}

/// An integer in decimal, with a minus sign before a negative one.
pub open spec fn decimal(n: int) -> Seq<char> {
    if n < 0 {
        seq!['-'] + digits((-n) as nat)
    } else {
        digits(n as nat)
    }
}

/// What stands for the character after a backslash, if that character starts
/// an escape sequence.
pub open spec fn escape_of(c: char) -> Option<char> {
    if c == '\\' {
        Some('\\')
    } else if c == 'n' {
        Some('\n')
    } else if c == 't' {
        Some('\t')
    } else {
        None
    }
}

/// `head`, followed by `tail` unless `tail` is a failure.
pub open spec fn glue(head: Seq<char>, tail: Result<Seq<char>, SpecError>) -> Result<
    Seq<char>,
    SpecError,
> {
    match tail {
        Ok(rest) => Ok(head + rest),
        Err(e) => Err(e),
    }
}

/// The text that a string stands for when it is printed: each escape
/// sequence is replaced by its character, and every other character stands
/// for itself. The first malformed escape sequence from the left is the
/// failure.
pub open spec fn unescaped(text: Seq<char>) -> Result<Seq<char>, SpecError>
    decreases text.len(), 1int,
{
    if text.len() == 0 {
        Ok(Seq::empty())
    } else if text[0] == '\\' {
        escaped(text.drop_first())
    } else {
        glue(seq![text[0]], unescaped(text.drop_first()))
    }
}

/// What the text after a backslash stands for.
pub open spec fn escaped(text: Seq<char>) -> Result<Seq<char>, SpecError>
    decreases text.len(), 0int,
{
    if text.len() == 0 {
        Err(SpecError::OpenEscape)
    } else {
        match escape_of(text[0]) {
            Some(c) => glue(seq![c], unescaped(text.drop_first())),
            None => Err(SpecError::BadEscape(text[0])),
        }
    }
}

/// The model of a text or a failure.
pub open spec fn text_result(r: Result<String, Error>) -> Result<Seq<char>, SpecError> {
    match r {
        Ok(text) => Ok(text@),
        Err(e) => Err(e@),
    }
}

/// Whether a parameter's name ends in the three dots that mark a rest
/// parameter.
pub open spec fn is_rest(name: Seq<char>) -> bool {
    &&& name.len() >= 3
    &&& name[name.len() - 1] == '.'
    &&& name[name.len() - 2] == '.'
    &&& name[name.len() - 3] == '.'
}

/// A rest parameter's name without its marker.
pub open spec fn stem(name: Seq<char>) -> Seq<char> {
    name.take(name.len() - 3)
}

/// The index of the last `c` in `text`, or -1 if there is none.
pub open spec fn last_index_of(text: Seq<char>, c: char) -> int
    decreases text.len(),
{
    if text.len() == 0 {
        -1
    } else if text.last() == c {
        text.len() - 1
    } else {
        last_index_of(text.drop_last(), c)
    }
}

/// Whether a module path is relative to the importing file: it starts with
/// `./` or `../`.
pub open spec fn is_relative(path: Seq<char>) -> bool {
    ||| path.len() >= 2 && path[0] == '.' && path[1] == '/'
    ||| path.len() >= 3 && path[0] == '.' && path[1] == '.' && path[2] == '/'
}

/// The extension of the language's source files, with its dot.
pub open spec fn extension() -> Seq<char> {
    seq!['.', 'i', 'r', 'l']
}

/// Whether a path ends in the language's extension.
pub open spec fn has_extension(path: Seq<char>) -> bool {
    path.len() >= 4 && path.skip(path.len() - 4) == extension()
}

/// `path` as seen from the directory that holds `file`: what `file` has up to
/// and with its last slash, then `path`.
pub open spec fn beside(file: Seq<char>, path: Seq<char>) -> Seq<char> {
    file.take(last_index_of(file, '/') + 1) + path
}

/// A path with the language's extension: unchanged if it has it already;
/// otherwise with the extension in place of the one that its last component
/// has, or added if that component has none. A dot that starts the component
/// starts no extension.
pub open spec fn with_extension(path: Seq<char>) -> Seq<char> {
    if has_extension(path) {
        path
    } else if last_index_of(path, '.') > last_index_of(path, '/') + 1 {
        path.take(last_index_of(path, '.')) + extension()
    } else {
        path + extension()
    }
}

/// The file that an imported module is read from.
pub open spec fn module_file(file: Seq<char>, path: Seq<char>) -> Seq<char> {
    with_extension(beside(file, path))
}

/// std's `String::push`: the character is added at the end of the text.
#[verifier::external_body]
fn push_char(text: &mut String, c: char)
    ensures
        final(text)@ == old(text)@.push(c),
{
    text.push(c)
}

fn digit_char(d: u64) -> (c: char)
    requires
        d < 10,
    ensures
        c == digit(d as int),
{
    if d == 0 {
        '0'
    } else if d == 1 {
        '1'
    } else if d == 2 {
        '2'
    } else if d == 3 {
        '3'
    } else if d == 4 {
        '4'
    } else if d == 5 {
        '5'
    } else if d == 6 {
        '6'
    } else if d == 7 {
        '7'
    } else if d == 8 {
        '8'
    } else {
        '9'
    }
}

fn push_digits(out: &mut String, n: u64)
    ensures
        final(out)@ == old(out)@ + digits(n as nat),
    decreases n,
{
    if n >= 10 {
        push_digits(out, n / 10);
    }
    push_char(out, digit_char(n % 10));
    proof {
        if n >= 10 {
            assert(final(out)@ =~= old(out)@ + digits(n as nat));
        } else {
            assert(final(out)@ =~= old(out)@ + digits(n as nat));
        }
    }
}

/// Writes an integer in decimal.
pub fn decimal_text(n: i64) -> (r: String)
    ensures
        r@ == decimal(n as int),
{
    let mut out = String::new();
    if n < 0 {
        push_char(&mut out, '-');
        let m: u64 = (-(n as i128)) as u64;
        push_digits(&mut out, m);
        assert(out@ =~= decimal(n as int));
    } else {
        push_digits(&mut out, n as u64);
        assert(out@ =~= decimal(n as int));
    }
    out
}

fn bad_escape(c: char) -> (e: Error)
    ensures
        e@ == SpecError::BadEscape(c),
{
    Error::BadEscape(c)
}

/// Replaces the escape sequences of a string by what they stand for.
pub fn unescape(text: &str) -> (r: Result<String, Error>)
    ensures
        text_result(r) == unescaped(text@),
{
    let mut out = String::new();
    let mut pending = false;
    assert(text@.skip(0) =~= text@);
    assert(Seq::<char>::empty() + text@ =~= text@);
    for c in it: text.chars()
        invariant
            it.seq() == text@,
            unescaped(text@) == glue(
                out@,
                if pending {
                    escaped(text@.skip(it.index() as int))
                } else {
                    unescaped(text@.skip(it.index() as int))
                },
            ),
    {
        let ghost rest = text@.skip(it.index() as int);
        let ghost before = out@;
        proof {
            assert(rest.len() > 0);
            assert(rest[0] == c);
            assert(rest.drop_first() =~= text@.skip(it.index() + 1));
        }
        if pending {
            if c == '\\' {
                push_char(&mut out, '\\');
            } else if c == 'n' {
                push_char(&mut out, '\n');
            } else if c == 't' {
                push_char(&mut out, '\t');
            } else {
                assert(escaped(rest) == Err::<Seq<char>, SpecError>(SpecError::BadEscape(c)));
                return Err(bad_escape(c));
            }
            pending = false;
            proof {
                lemma_glue_push(before, escape_of(c)->0, unescaped(rest.drop_first()));
            }
        } else if c == '\\' {
            pending = true;
        } else {
            push_char(&mut out, c);
            proof {
                lemma_glue_push(before, c, unescaped(rest.drop_first()));
            }
        }
    }
    proof {
        assert(text@.skip(text@.len() as int) =~= Seq::<char>::empty());
        assert(out@ + Seq::<char>::empty() =~= out@);
    }
    if pending {
        Err(Error::OpenEscape)
    } else {
        Ok(out)
    }
}

proof fn lemma_glue_push(head: Seq<char>, c: char, tail: Result<Seq<char>, SpecError>)
    ensures
        glue(head, glue(seq![c], tail)) == glue(head.push(c), tail),
{
    if let Ok(rest) = tail {
        assert(head + (seq![c] + rest) =~= head.push(c) + rest);
    }
}

/// The name that a rest parameter binds, if `name` has the marker of one.
pub fn rest_stem(name: &str) -> (r: Option<String>)
    ensures
        r is Some == is_rest(name@),
        r matches Some(s) ==> s@ == stem(name@),
{
    let n: usize = name.unicode_len();
    if n >= 3 && name.get_char(n - 1) == '.' && name.get_char(n - 2) == '.' && name.get_char(n - 3)
        == '.' {
        Some(String::from_str(name.substring_char(0, n - 3)))
    } else {
        None
    }
}

/// The index after the last `c` in `text`: 0 if there is none.
fn after_last(text: &str, c: char) -> (r: usize)
    ensures
        r == last_index_of(text@, c) + 1,
        r <= text@.len(),
{
    let n: usize = text.unicode_len();
    let mut r: usize = 0;
    let mut i: usize = 0;
    assert(text@.take(0) =~= Seq::<char>::empty());
    for x in it: text.chars()
        invariant
            it.seq() == text@,
            i == it.index(),
            i <= text@.len(),
            text@.len() == n,
            r <= i,
            r == last_index_of(text@.take(i as int), c) + 1,
    {
        proof {
            assert(text@.take(i + 1).drop_last() =~= text@.take(i as int));
            assert(text@.take(i + 1).last() == x);
        }
        i += 1;
        if x == c {
            r = i;
        }
    }
    assert(text@.take(text@.len() as int) =~= text@);
    r
}

/// Whether a module path starts with `./` or `../`.
pub fn relative(path: &str) -> (r: bool)
    ensures
        r == is_relative(path@),
{
    let n: usize = path.unicode_len();
    if n >= 2 && path.get_char(0) == '.' {
        path.get_char(1) == '/' || (n >= 3 && path.get_char(1) == '.' && path.get_char(2) == '/')
    } else {
        false
    }
}

/// Whether a path ends in the language's extension.
fn ends_in_extension(path: &str) -> (r: bool)
    ensures
        r == has_extension(path@),
{
    let n: usize = path.unicode_len();
    if n >= 4 {
        let r = path.get_char(n - 4) == '.' && path.get_char(n - 3) == 'i' && path.get_char(n - 2)
            == 'r' && path.get_char(n - 1) == 'l';
        proof {
            let tail = path@.skip(n - 4);
            assert(tail.len() == 4);
            assert(tail[0] == path@[n - 4]);
            assert(tail[1] == path@[n - 3]);
            assert(tail[2] == path@[n - 2]);
            assert(tail[3] == path@[n - 1]);
            if r {
                assert(tail =~= extension());
            }
        }
        r
    } else {
        false
    }
}

/// The file that the module named by `path` is read from when the importing
/// file is `file`, or `None` if `path` is not relative.
pub fn resolve(file: &str, path: &str) -> (r: Option<String>)
    ensures
        r is Some == is_relative(path@),
        r matches Some(p) ==> p@ == module_file(file@, path@),
{
    if !relative(path) {
        return None;
    }
    let cut: usize = after_last(file, '/');
    let mut joined = String::from_str(file.substring_char(0, cut));
    joined.append(path);
    assert(joined@ == beside(file@, path@));
    proof {
        reveal_strlit(".irl");
        assert(".irl"@ =~= extension());
    }
    if ends_in_extension(joined.as_str()) {
        return Some(joined);
    }
    let dot: usize = after_last(joined.as_str(), '.');
    let slash: usize = after_last(joined.as_str(), '/');
    if dot >= 2 && dot - 1 > slash {
        let mut out = String::from_str(joined.as_str().substring_char(0, dot - 1));
        out.append(".irl");
        Some(out)
    } else {
        joined.append(".irl");
        Some(joined)
    }
}

/// Whether a text is exactly the given one.
pub fn is_text(text: &String, expected: &str) -> (r: bool)
    ensures
        r == (text@ == expected@),
{
    let other = String::from_str(expected);
    *text == other
}

} // verus!

//! The PDF that the program was asked to open when it was started.

use vstd::prelude::*;
use vstd::string::StringExecFns;
use crate::text::{chars_of, starts_with, string_of};
use crate::textbooks::{ends_in_pdf, has_pdf_ending};

verus! {

/// The names and values that a text holds in the
/// `application/x-www-form-urlencoded` syntax, in order: the text is cut at
/// every `&`, empty pieces are dropped, each piece is cut at its first `=`,
/// and in both halves `+` becomes a space and percent escapes are decoded.
///
/// Stands for the pairs that `url::form_urlencoded::parse` yields for the
/// bytes of the text.
pub uninterp spec fn form_pairs(text: Seq<char>) -> Seq<(Seq<char>, Seq<char>)>;

/// The pairs that a vector of pairs of strings stands for.
pub open spec fn pair_rows(pairs: Seq<(String, String)>) -> Seq<(Seq<char>, Seq<char>)> {
    Seq::new(pairs.len(), |i: int| (pairs[i].0@, pairs[i].1@))
}

/// Collects the pairs that `url::form_urlencoded::parse` yields for the
/// bytes of `text`. The contract only gives them their name.
#[verifier::external_body]
fn form_pairs_of(text: &str) -> (pairs: Vec<(String, String)>)
    ensures
        pair_rows(pairs@) == form_pairs(text@),
{
    url::form_urlencoded::parse(text.as_bytes()).into_owned().collect()
}

/// A pair written out again: the name alone if the value is empty, else
/// name, `=` and value.
pub open spec fn pair_text(pair: (Seq<char>, Seq<char>)) -> Seq<char> {
    if pair.1.len() == 0 {
        pair.0
    } else {
        pair.0 + seq!['='] + pair.1
    }
}

/// The pairs written out one after the other.
pub open spec fn pairs_text(pairs: Seq<(Seq<char>, Seq<char>)>) -> Seq<char>
    decreases pairs.len(),
{
    if pairs.len() == 0 {
        Seq::empty()
    } else {
        pairs_text(pairs.drop_last()) + pair_text(pairs.last())
    }
}

/// The path that the rest of a `file://` URL names: its escapes decoded.
pub open spec fn decoded_path(rest: Seq<char>) -> Seq<char> {
    pairs_text(form_pairs(rest))
}

/// The PDF that one argument names, if it names one. An argument that
/// begins with `-` is a flag and names nothing. Of a `file://` URL the
/// decoded rest counts if it ends in `.pdf`; failing that, and for any
/// other argument, the argument itself counts if it ends in `.pdf`.
pub open spec fn pdf_of_argument(arg: Seq<char>) -> Option<Seq<char>> {
    let rest = arg.skip("file://"@.len() as int);
    if arg.len() > 0 && arg[0] == '-' {
        None
    } else if "file://"@.is_prefix_of(arg) && ends_in_pdf(decoded_path(rest)) {
        Some(decoded_path(rest))
    } else if ends_in_pdf(arg) {
        Some(arg)
    } else {
        None
    }
}

/// The PDF that the first of `args` to name one names.
pub open spec fn first_pdf(args: Seq<Seq<char>>) -> Option<Seq<char>>
    decreases args.len(),
{
    if args.len() == 0 {
        None
    } else {
        match pdf_of_argument(args[0]) {
            Some(path) => Some(path),
            None => first_pdf(args.drop_first()),
        }
    }
}

/// The PDF that a command line names: that of the first argument to name
/// one, the program's own name at the front left aside.
pub open spec fn pdf_in_arguments(args: Seq<Seq<char>>) -> Option<Seq<char>> {
    if args.len() == 0 {
        None
    } else {
        first_pdf(args.drop_first())
    }
}

/// The arguments that a vector of strings stands for.
pub open spec fn argument_rows(args: Seq<String>) -> Seq<Seq<char>> {
    Seq::new(args.len(), |i: int| args[i]@)
}

/// The pairs written out one after the other: of each the name alone if the
/// value is empty, else name, `=` and value.
pub fn write_pairs(pairs: &Vec<(String, String)>) -> (path: String)
    ensures
        path@ == pairs_text(pair_rows(pairs@)),
{
    let ghost rows = pair_rows(pairs@);
    let mut path = String::new();
    let mut i: usize = 0;
    assert(rows.take(0) =~= Seq::empty());
    while i < pairs.len()
        invariant
            i <= pairs.len(),
            rows == pair_rows(pairs@),
            path@ == pairs_text(rows.take(i as int)),
        decreases pairs.len() - i,
    {
        assert(rows.take(i + 1).drop_last() =~= rows.take(i as int));
        assert(rows.take(i + 1).last() == rows[i as int]);
        let ghost before = path@;
        path.append(pairs[i].0.as_str());
        if !pairs[i].1.as_str().is_empty() {
            path.push('=');
            path.append(pairs[i].1.as_str());
        }
        assert(path@ =~= before + pair_text(rows[i as int]));
        i += 1;
    }
    assert(rows.take(i as int) =~= rows);
    path
}

/// The path that the rest of a `file://` URL names.
pub fn decode_path(rest: &str) -> (path: String)
    ensures
        path@ == decoded_path(rest@),
{
    write_pairs(&form_pairs_of(rest))
}

/// The PDF that `arg` names, if it names one.
pub fn pdf_argument(arg: &String) -> (r: Option<String>)
    ensures
        match r {
            Some(path) => pdf_of_argument(arg@) == Some(path@),
            None => pdf_of_argument(arg@).is_none(),
        },
{
    let chars = chars_of(arg.as_str());
    if chars.len() > 0 && chars[0] == '-' {
        return None;
    }
    if starts_with(arg.as_str(), "file://") {
        let skip: usize = "file://".unicode_len();
        let rest = string_of(&chars, skip, chars.len());
        assert(chars@.subrange(skip as int, chars.len() as int) =~= arg@.skip(
            "file://"@.len() as int,
        ));
        let path = decode_path(rest.as_str());
        if has_pdf_ending(path.as_str()) {
            return Some(path);
        }
    }
    if has_pdf_ending(arg.as_str()) {
        Some(arg.clone())
    } else {
        None
    }
}

/// The path of the PDF that the command line `args` asks to open, if it
/// asks for one. The first argument is the program's own name and is
/// passed over.
pub fn find_pdf_in_args(args: &[String]) -> (r: Option<String>)
    ensures
        match r {
            Some(path) => pdf_in_arguments(argument_rows(args@)) == Some(path@),
            None => pdf_in_arguments(argument_rows(args@)).is_none(),
        },
{
    let ghost rows = argument_rows(args@);
    if args.len() == 0 {
        return None;
    }
    let mut i: usize = 1;
    assert(rows.skip(1) =~= rows.drop_first());
    while i < args.len()
        invariant
            1 <= i <= args.len(),
            rows == argument_rows(args@),
            first_pdf(rows.drop_first()) == first_pdf(rows.skip(i as int)),
        decreases args.len() - i,
    {
        assert(rows.skip(i as int)[0] == rows[i as int]);
        assert(rows.skip(i as int).drop_first() =~= rows.skip(i + 1));
        match pdf_argument(&args[i]) {
            Some(path) => {
                return Some(path);
            },
            None => {},
        }
        i += 1;
    }
    None
}

} // verus!

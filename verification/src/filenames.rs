//! Choosing an output file name that does not overwrite an existing file.

use std::path::Path;
use vstd::prelude::*;

use crate::decimal::{decimal_text, push_decimal};
use crate::text::string_push;

verus! {

/// Name for `Path::file_stem` of `path` (as text).
pub uninterp spec fn path_file_stem(path: Seq<char>) -> Option<Seq<char>>;

/// Name for `Path::extension` of `path` (as text).
pub uninterp spec fn path_extension(path: Seq<char>) -> Option<Seq<char>>;

/// Name for `Path::parent` of `path` (as text).
pub uninterp spec fn path_parent(path: Seq<char>) -> Option<Seq<char>>;

/// Name for `Path::join` of `dir` and `name` (as text).
pub uninterp spec fn path_join(dir: Seq<char>, name: Seq<char>) -> Seq<char>;

/// `std::path::Path::file_stem`, read back as text (the path is text, so the
/// lossy conversion loses nothing).  The contract only names the result.
#[verifier::external_body]
fn file_stem(path: &str) -> (res: Option<String>)
    ensures
        match res {
            Some(s) => path_file_stem(path@) == Some(s@),
            None => path_file_stem(path@) is None,
        },
{
    match Path::new(path).file_stem() {
        Some(s) => Some(s.to_string_lossy().into_owned()),
        None => None,
    }
}

/// `std::path::Path::extension`, read back as text.  The contract only names
/// the result.
#[verifier::external_body]
fn extension(path: &str) -> (res: Option<String>)
    ensures
        match res {
            Some(s) => path_extension(path@) == Some(s@),
            None => path_extension(path@) is None,
        },
{
    match Path::new(path).extension() {
        Some(s) => Some(s.to_string_lossy().into_owned()),
        None => None,
    }
}

/// `std::path::Path::parent`, read back as text.  The contract only names the
/// result.
#[verifier::external_body]
fn parent(path: &str) -> (res: Option<String>)
    ensures
        match res {
            Some(s) => path_parent(path@) == Some(s@),
            None => path_parent(path@) is None,
        },
{
    match Path::new(path).parent() {
        Some(s) => Some(s.to_string_lossy().into_owned()),
        None => None,
    }
}

/// `std::path::Path::join`, read back as text.  The contract only names the
/// result.
#[verifier::external_body]
fn join(dir: &str, name: &str) -> (res: String)
    ensures
        res@ == path_join(dir@, name@),
{
    Path::new(dir).join(name).to_string_lossy().into_owned()
}

/// The file name `counter` gives: the stem, `_`, the counter and, when there
/// is one, `.` and the extension.
pub open spec fn numbered_name(stem: Seq<char>, counter: nat, ext: Option<Seq<char>>) -> Seq<char> {
    let base = stem + seq!['_'] + decimal_text(counter);
    match ext {
        Some(e) => base + seq!['.'] + e,
        None => base,
    }
}

/// The path tried for `original` with `counter`: the numbered name, in the
/// directory of `original` when it has one.  The stem falls back to the whole
/// of `original`.
pub open spec fn numbered_path(original: Seq<char>, counter: nat) -> Seq<char> {
    let stem = match path_file_stem(original) {
        Some(s) => s,
        None => original,
    };
    let name = numbered_name(stem, counter, path_extension(original));
    match path_parent(original) {
        Some(dir) => path_join(dir, name),
        None => name,
    }
}

/// The check `is_taken` reported `path` taken.
pub open spec fn reported_taken<F: Fn(&String) -> bool>(is_taken: F, path: Seq<char>) -> bool {
    exists|s: String| s@ == path && call_ensures(is_taken, (&s,), true)
}

/// The check reported `original` and every numbered path below `counter` taken.
pub open spec fn taken_below<F: Fn(&String) -> bool>(is_taken: F, original: Seq<char>, counter: nat) -> bool {
    &&& reported_taken(is_taken, original)
    &&& forall|k: nat| 1 <= k < counter ==> #[trigger] reported_taken(is_taken, numbered_path(original, k))
}

/// The file name to write to instead of `original`: `original` itself when the
/// check `is_taken` says it is free, otherwise the first free numbered path
/// (`name_1.ext`, `name_2.ext`, ...).  Should every numbered path up to
/// `u32::MAX` be taken, `original` is returned.
pub fn next_available_filename<F: Fn(&String) -> bool>(original: &str, is_taken: F) -> (res: String)
    requires
        forall|s: &String| #[trigger] call_requires(is_taken, (s,)),
    ensures
        ({
            ||| res@ == original@ && call_ensures(is_taken, (&res,), false)
            ||| exists|c: nat|
                1 <= c <= u32::MAX && res@ == numbered_path(original@, c) && call_ensures(
                    is_taken,
                    (&res,),
                    false,
                ) && taken_below(is_taken, original@, c)
            ||| res@ == original@ && taken_below(is_taken, original@, u32::MAX as nat + 1)
        }),
{
    let path = String::from_str(original);
    if !is_taken(&path) {
        return path;
    }
    let stem = match file_stem(original) {
        Some(s) => s,
        None => String::from_str(original),
    };
    let ext = extension(original);
    let dir = parent(original);
    let mut counter: u32 = 1;
    loop
        invariant
            1 <= counter,
            forall|s: &String| #[trigger] call_requires(is_taken, (s,)),
            path@ == original@,
            stem@ == match path_file_stem(original@) {
                Some(s) => s,
                None => original@,
            },
            match ext {
                Some(e) => path_extension(original@) == Some(e@),
                None => path_extension(original@) is None,
            },
            match dir {
                Some(d) => path_parent(original@) == Some(d@),
                None => path_parent(original@) is None,
            },
            taken_below(is_taken, original@, counter as nat),
        decreases u32::MAX - counter,
    {
        let mut name = stem.clone();
        string_push(&mut name, '_');
        push_decimal(&mut name, counter as u64);
        match &ext {
            Some(e) => {
                string_push(&mut name, '.');
                name.append(e.as_str());
            },
            None => {},
        }
        let candidate = match &dir {
            Some(d) => join(d.as_str(), name.as_str()),
            None => name,
        };
        proof {
            assert(name@ =~= numbered_name(stem@, counter as nat, path_extension(original@)));
            assert(candidate@ == numbered_path(original@, counter as nat));
        }
        let taken = is_taken(&candidate);
        if !taken {
            return candidate;
        }
        proof {
            assert(reported_taken(is_taken, numbered_path(original@, counter as nat)));
            assert forall|k: nat| 1 <= k < counter + 1 implies #[trigger] reported_taken(
                is_taken,
                numbered_path(original@, k),
            ) by {
                if k < counter {
                } else {
                }
            }
        }
        if counter == u32::MAX {
            return path;
        }
        counter = counter + 1;
    }
}

} // verus!

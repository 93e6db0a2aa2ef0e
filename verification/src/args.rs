//! Command lines.
//!
//! An option is `--name value`, anywhere in the arguments. A list of arguments
//! leaves out what the program was called.

use vstd::prelude::*;

use crate::text::{a_number_is_not_negative, decimal, digits_of, is_number, parse_number};

verus! {

/// The text of each argument.
pub open spec fn words(args: Seq<String>) -> Seq<Seq<char>> {
    args.map_values(|a: String| a@)
}

/// How an option is written.
pub open spec fn flag(name: Seq<char>) -> Seq<char> {
    "--"@ + name
}

/// Where a word first stands, from a place on. The end, if it does not.
pub open spec fn find(words: Seq<Seq<char>>, word: Seq<char>, from: int) -> int
    decreases words.len() - from,
{
    if from >= words.len() || words[from] == word {
        from
    } else {
        find(words, word, from + 1)
    }
}

/// The word after the first that gives an option, if there is one.
pub open spec fn value_of(words: Seq<Seq<char>>, name: Seq<char>) -> Option<Seq<char>> {
    let i = find(words, flag(name), 0);
    if i + 1 < words.len() {
        Some(words[i + 1])
    } else {
        None
    }
}

/// `--name value`, anywhere in the arguments.
pub fn arg(args: &Vec<String>, name: &str) -> (value: Option<String>)
    ensures
        match value {
            Some(v) => value_of(words(args@), name@) == Some(v@),
            None => value_of(words(args@), name@) is None,
        },
{
    let ghost w = words(args@);
    let wanted: String = "--".to_owned().concat(name);
    assert(wanted@ == flag(name@));
    let mut k: usize = 0;
    while k < args.len()
        invariant
            w == words(args@),
            wanted@ == flag(name@),
            0 <= k <= args@.len(),
            find(w, flag(name@), 0) == find(w, flag(name@), k as int),
        decreases args.len() - k,
    {
        assert(w[k as int] == args@[k as int]@);
        if args[k] == wanted {
            if k + 1 < args.len() {
                assert(w[k + 1] == args@[k + 1]@);
                return Some(args[k + 1].clone());
            }
            return None;
        }
        k = k + 1;
    }
    None
}

/// What an option can hold.
pub trait Value: Sized {
    /// Whether a text reads as a value.
    spec fn reads(s: Seq<char>, v: Self) -> bool;

    /// Reads a text, if it can be read.
    fn parse(s: &str) -> (v: Option<Self>)
        ensures
            match v {
                Some(x) => Self::reads(s@, x),
                None => forall|x: Self| !#[trigger] Self::reads(s@, x),
            },
    ;
}

impl Value for u32 {
    open spec fn reads(s: Seq<char>, v: u32) -> bool {
        is_number(s, u32::MAX as int) && v == decimal(digits_of(s))
    }

    fn parse(s: &str) -> (v: Option<u32>) {
        match parse_number(s, u32::MAX as u64) {
            Some(n) => Some(n as u32),
            None => None,
        }
    }
}

impl Value for u64 {
    open spec fn reads(s: Seq<char>, v: u64) -> bool {
        is_number(s, u64::MAX as int) && v == decimal(digits_of(s))
    }

    fn parse(s: &str) -> (v: Option<u64>) {
        parse_number(s, u64::MAX)
    }
}

impl Value for usize {
    open spec fn reads(s: Seq<char>, v: usize) -> bool {
        is_number(s, usize::MAX as int) && v == decimal(digits_of(s))
    }

    fn parse(s: &str) -> (v: Option<usize>) {
        match parse_number(s, usize::MAX as u64) {
            Some(n) => Some(n as usize),
            None => None,
        }
    }
}

impl Value for String {
    open spec fn reads(s: Seq<char>, v: String) -> bool {
        v@ == s
    }

    fn parse(s: &str) -> (v: Option<String>) {
        let v: String = s.to_owned();
        Some(v)
    }
}

/// An option whose value cannot be read.
#[derive(Debug, PartialEq, Eq)]
pub struct Unreadable {
    /// Which option.
    pub name: String,
    /// What stood there.
    pub raw: String,
}

/// Whether an option's value, or what stands for it where it is not given, is
/// `v`.
pub open spec fn takes<T: Value>(words: Seq<Seq<char>>, name: Seq<char>, fallback: T, v: T) -> bool {
    match value_of(words, name) {
        Some(raw) => T::reads(raw, v),
        None => v == fallback,
    }
}

/// Whether an option is given with a value that cannot be read.
pub open spec fn refuses<T: Value>(words: Seq<Seq<char>>, name: Seq<char>) -> bool {
    &&& value_of(words, name) is Some
    &&& forall|v: T| !#[trigger] T::reads(value_of(words, name)->0, v)
}

/// An option's value as text, or what stands for it where it is not given.
pub open spec fn text_or(words: Seq<Seq<char>>, name: Seq<char>, fallback: Seq<char>) -> Seq<char> {
    match value_of(words, name) {
        Some(raw) => raw,
        None => fallback,
    }
}

/// Whether an error is about an option as it stands in the arguments.
pub open spec fn is_about(e: Unreadable, words: Seq<Seq<char>>, name: Seq<char>) -> bool {
    &&& e.name@ == name
    &&& value_of(words, name) == Some(e.raw@)
}

/// The value of an option, or a fallback where it is not given.
pub fn arg_or<T: Value>(args: &Vec<String>, name: &str, fallback: T) -> (r: Result<T, Unreadable>)
    ensures
        r matches Ok(v) ==> takes(words(args@), name@, fallback, v),
        r is Err <==> refuses::<T>(words(args@), name@),
        r matches Err(e) ==> is_about(e, words(args@), name@),
{
    match arg(args, name) {
        Some(raw) => {
            let ghost text = value_of(words(args@), name@)->0;
            assert(text == raw@);
            match T::parse(raw.as_str()) {
                Some(v) => {
                    assert(T::reads(text, v));
                    Ok(v)
                },
                None => {
                    assert(forall|v: T| !#[trigger] T::reads(text, v));
                    Err(Unreadable { name: name.to_owned(), raw })
                },
            }
        },
        None => Ok(fallback),
    }
}

/// The value of an option that holds any text, or a fallback where it is not
/// given.
pub fn text_arg_or(args: &Vec<String>, name: &str, fallback: &str) -> (v: String)
    ensures
        v@ == text_or(words(args@), name@, fallback@),
{
    match arg_or(args, name, fallback.to_owned()) {
        Ok(v) => v,
        Err(e) => {
            assert(<String as Value>::reads(value_of(words(args@), name@)->0, e.raw));
            e.raw
        },
    }
}

/// An option is two dashes and its name. The word after the first mention of it is
/// its value, whatever that word is; without a mention, or with nothing after the
/// first, it has none.
pub proof fn the_first_mention_counts(words: Seq<Seq<char>>, name: Seq<char>, i: int)
    requires
        0 <= i <= words.len(),
        i < words.len() ==> words[i] == seq!['-', '-'] + name,
        forall|j: int| 0 <= j < i ==> #[trigger] words[j] != seq!['-', '-'] + name,
    ensures
        i + 1 < words.len() ==> value_of(words, name) == Some(words[i + 1]),
        i + 1 >= words.len() ==> value_of(words, name) is None,
{
    reveal_strlit("--");
    assert("--"@ =~= seq!['-', '-']);
    assert(flag(name) == seq!['-', '-'] + name);
    the_first_is_found(words, flag(name), 0, i);
}

/// A word is found where it first stands.
proof fn the_first_is_found(words: Seq<Seq<char>>, word: Seq<char>, from: int, i: int)
    requires
        0 <= from <= i <= words.len(),
        i < words.len() ==> words[i] == word,
        forall|j: int| from <= j < i ==> #[trigger] words[j] != word,
    ensures
        find(words, word, from) == i,
    decreases i - from,
{
    if from < i {
        the_first_is_found(words, word, from + 1, i);
    }
}

/// An option that is given is taken at its word where that reads as a value, and
/// refused otherwise; one that is not given is what stands for it. A number reads as
/// itself up to the most its kind holds.
pub proof fn an_option_is_read_or_refused(words: Seq<Seq<char>>, name: Seq<char>, n: u64, m: u32)
    ensures
        value_of(words, name) is None ==> {
            &&& !refuses::<u64>(words, name)
            &&& !refuses::<u32>(words, name)
            &&& takes(words, name, n, n)
            &&& takes(words, name, m, m)
        },
        value_of(words, name) matches Some(raw) ==> {
            &&& refuses::<u64>(words, name) <==> !is_number(raw, 18_446_744_073_709_551_615)
            &&& refuses::<u32>(words, name) <==> !is_number(raw, 4_294_967_295)
            &&& takes(words, name, 0u64, n) <==> is_number(raw, 18_446_744_073_709_551_615) && n
                == decimal(digits_of(raw))
            &&& takes(words, name, 0u32, m) <==> is_number(raw, 4_294_967_295) && m == decimal(
                digits_of(raw),
            )
        },
{
    if let Some(raw) = value_of(words, name) {
        if is_number(raw, u64::MAX as int) {
            a_number_is_not_negative(raw, u64::MAX as int);
            assert(<u64 as Value>::reads(raw, decimal(digits_of(raw)) as u64));
        }
        if is_number(raw, u32::MAX as int) {
            a_number_is_not_negative(raw, u32::MAX as int);
            assert(<u32 as Value>::reads(raw, decimal(digits_of(raw)) as u32));
        }
    }
}

} // verus!

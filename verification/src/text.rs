//! Reading the tokens that name an item in an option: `name` for an item
//! without a color, `name:color` for one with a color.
use vstd::prelude::*;
use vstd::string::StrSliceExecFns;
use vstd::std_specs::iter::IteratorSpec;

verus! {

/// The position of the first colon of `token` at or after `from`, if any.
pub open spec fn colon_from(token: Seq<char>, from: int) -> Option<int>
    decreases token.len() - from,
{
    if from >= token.len() {
        None
    } else if token[from] == ':' {
        Some(from)
    } else {
        colon_from(token, from + 1)
    }
}

/// The position of the first colon of `token`, if any.
pub open spec fn first_colon(token: Seq<char>) -> Option<int> {
    colon_from(token, 0)
}

/// The name of the item that `token` stands for: what comes before the first
/// colon, or the whole token where it has no colon.
pub open spec fn token_name(token: Seq<char>) -> Seq<char> {
    match first_colon(token) {
        Some(k) => token.subrange(0, k),
        None => token,
    }
}

/// The name of the color that `token` gives its item: what comes after the
/// first colon, if there is a colon.
pub open spec fn token_color(token: Seq<char>) -> Option<Seq<char>> {
    match first_colon(token) {
        Some(k) => Some(token.subrange(k + 1, token.len() as int)),
        None => None,
    }
}

/// Finds the first colon of `token`.
pub fn find_colon(token: &str) -> (r: Option<usize>)
    ensures
        first_colon(token@) == match r {
            Some(k) => Some(k as int),
            None => None,
        },
        r matches Some(k) ==> k < token@.len(),
{
    let len = token.unicode_len();
    let mut chars = token.chars();
    let mut k: usize = 0;
    loop
        invariant
            k <= len == token@.len(),
            chars.remaining() == token@.skip(k as int),
            chars.obeys_prophetic_iter_laws(),
            colon_from(token@, k as int) == first_colon(token@),
        decreases len - k,
    {
        match chars.next() {
            None => {
                assert(k == len);
                return None;
            },
            Some(c) => {
                assert(k < len);
                assert(c == token@[k as int]);
                assert(token@.skip(k as int).drop_first() =~= token@.skip(k + 1));
                if c == ':' {
                    return Some(k);
                }
                k += 1;
            },
        }
    }
}

/// Splits `token` into the name of its item and the name of its color.
pub fn split_token(token: &str) -> (r: (String, Option<String>))
    ensures
        r.0@ == token_name(token@),
        match r.1 {
            Some(c) => token_color(token@) == Some(c@),
            None => token_color(token@) is None,
        },
{
    match find_colon(token) {
        None => (token.to_owned(), None),
        Some(k) => {
            let len = token.unicode_len();
            let name = token.substring_char(0, k).to_owned();
            let color = token.substring_char(k + 1, len).to_owned();
            (name, Some(color))
        },
    }
}

} // verus!

//! Building a matrix from the names of its items.
use crate::bits::{is_set, lemma_count_set_zero};
use crate::matrix::{colors_of, entries_of, lemma_colors_of_keys, row_of, Entry, Matrix};
use crate::model::{Problem, Row};
use crate::search::{all_solutions, live_column, option_count, SearchState};
use crate::solver::{payloads, Solver};
use crate::text::{split_token, token_color, token_name};
use crate::types::{Color, ColoredItem, ItemId};
use vstd::prelude::*;
use vstd::string::StringExecFns;

verus! {

/// Why a matrix could not be built.
#[derive(Debug, Clone, PartialEq, Eq)]
pub enum BuildError {
    /// An option uses an item that is neither primary nor secondary.
    ItemNotDeclared(String),
    /// An item is declared as both primary and secondary.
    ItemDeclaredTwice(String),
    /// No primary item is declared.
    NoPrimaryItems,
    /// No option uses this primary item, so there can be no solution.
    PrimaryItemNotUsed(String),
    /// No option is declared.
    NoOptions,
}

/// A `BuildError` with its text as a sequence of characters.
pub enum Fault {
    ItemNotDeclared(Seq<char>),
    ItemDeclaredTwice(Seq<char>),
    NoPrimaryItems,
    PrimaryItemNotUsed(Seq<char>),
    NoOptions,
}

impl View for BuildError {
    type V = Fault;

    open spec fn view(&self) -> Fault {
        match *self {
            BuildError::ItemNotDeclared(name) => Fault::ItemNotDeclared(name@),
            BuildError::ItemDeclaredTwice(name) => Fault::ItemDeclaredTwice(name@),
            BuildError::NoPrimaryItems => Fault::NoPrimaryItems,
            BuildError::PrimaryItemNotUsed(name) => Fault::PrimaryItemNotUsed(name@),
            BuildError::NoOptions => Fault::NoOptions,
        }
    }
}

impl Fault {
    /// What the fault says in words.
    pub open spec fn message(self) -> Seq<char> {
        match self {
            Fault::ItemNotDeclared(name) => "Item "@ + name
                + " is used in an option, but not declared"@,
            Fault::ItemDeclaredTwice(name) => "Item "@ + name
                + " is declared as both primary and secondary"@,
            Fault::NoPrimaryItems => "No primary items declared"@,
            Fault::PrimaryItemNotUsed(name) => "Primary item "@ + name
                + " is not used in any option, so no solutions are possible."@,
            Fault::NoOptions => "No options declared"@,
        }
    }
}

impl BuildError {
    /// Says in words what is wrong.
    pub fn message(&self) -> (text: String)
        ensures
            text@ == self@.message(),
    {
        match self {
            BuildError::ItemNotDeclared(name) => {
                let mut text = String::from_str("Item ");
                text.append(name.as_str());
                text.append(" is used in an option, but not declared");
                text
            },
            BuildError::ItemDeclaredTwice(name) => {
                let mut text = String::from_str("Item ");
                text.append(name.as_str());
                text.append(" is declared as both primary and secondary");
                text
            },
            BuildError::NoPrimaryItems => String::from_str("No primary items declared"),
            BuildError::PrimaryItemNotUsed(name) => {
                let mut text = String::from_str("Primary item ");
                text.append(name.as_str());
                text.append(" is not used in any option, so no solutions are possible.");
                text
            },
            BuildError::NoOptions => String::from_str("No options declared"),
        }
    }
}

/// The characters of each string of `list`.
pub open spec fn texts(list: Seq<String>) -> Seq<Seq<char>> {
    list.map_values(|s: String| s@)
}

/// The characters of each string slice of `list`.
pub open spec fn str_texts(list: Seq<&str>) -> Seq<Seq<char>> {
    list.map_values(|s: &str| s@)
}

/// The last position of `name` in `names`, if it occurs there.
pub open spec fn last_index(names: Seq<Seq<char>>, name: Seq<char>) -> Option<int>
    decreases names.len(),
{
    if names.len() == 0 {
        None
    } else if names.last() == name {
        Some(names.len() - 1)
    } else {
        last_index(names.drop_last(), name)
    }
}

/// `palette` with the color of `token` added, if it has one that is new.
pub open spec fn with_color_of(palette: Seq<Seq<char>>, token: Seq<char>) -> Seq<Seq<char>> {
    match token_color(token) {
        Some(c) => if last_index(palette, c) is Some {
            palette
        } else {
            palette.push(c)
        },
        None => palette,
    }
}

/// `palette` with the new colors of the first `k` of `tokens` added, in the
/// order in which they first occur.
pub open spec fn with_colors_of(
    palette: Seq<Seq<char>>,
    tokens: Seq<Seq<char>>,
    k: nat,
) -> Seq<Seq<char>>
    decreases k,
{
    if k == 0 {
        palette
    } else {
        with_color_of(with_colors_of(palette, tokens, (k - 1) as nat), tokens[k - 1])
    }
}

/// The first `k` of `words` with a space between each two.
pub open spec fn joined(words: Seq<Seq<char>>, k: nat) -> Seq<char>
    decreases k,
{
    if k == 0 {
        Seq::empty()
    } else if k == 1 {
        words[0]
    } else {
        joined(words, (k - 1) as nat) + seq![' '] + words[k - 1]
    }
}

/// One line for each of the first `n` of `options`: its tokens with a space
/// between each two, and a line feed.
pub open spec fn option_lines(options: Seq<Seq<Seq<char>>>, n: nat) -> Seq<char>
    decreases n,
{
    if n == 0 {
        Seq::empty()
    } else {
        option_lines(options, (n - 1) as nat) + joined(options[n - 1], options[n - 1].len())
            + seq!['\n']
    }
}

/// What a builder was told: the names of the primary items, the names of the
/// secondary items, and the tokens of each option.
#[verifier::ext_equal]
pub struct Declaration {
    pub primary: Seq<Seq<char>>,
    pub secondary: Seq<Seq<char>>,
    pub options: Seq<Seq<Seq<char>>>,
}

impl Declaration {
    /// The number of items declared.
    pub open spec fn num_items(self) -> nat {
        self.primary.len() + self.secondary.len()
    }

    /// The index of the item called `name`. Primary items come first, each
    /// kind in the order of declaration. Where a name was declared more than
    /// once, it means the item of the highest index.
    pub open spec fn item_of(self, name: Seq<char>) -> Option<int> {
        match last_index(self.secondary, name) {
            Some(k) => Some(self.primary.len() + k),
            None => last_index(self.primary, name),
        }
    }

    /// The color names of the first `n` options, each once, in the order in
    /// which they first occur.
    pub open spec fn palette_upto(self, n: nat) -> Seq<Seq<char>>
        decreases n,
    {
        if n == 0 {
            Seq::empty()
        } else {
            with_colors_of(
                self.palette_upto((n - 1) as nat),
                self.options[n - 1],
                self.options[n - 1].len(),
            )
        }
    }

    /// The color names of all options, each once, in the order in which they
    /// first occur. The position of a name in it is the number of the color.
    pub open spec fn palette(self) -> Seq<Seq<char>> {
        self.palette_upto(self.options.len())
    }

    /// The item that `token` names and the color that it gives it.
    pub open spec fn entry_of(self, token: Seq<char>) -> Entry {
        (
            self.item_of(token_name(token))->0,
            match token_color(token) {
                Some(c) => Some(Color(last_index(self.palette(), c)->0 as usize)),
                None => None,
            },
        )
    }

    /// What each of `tokens` says.
    pub open spec fn entries(self, tokens: Seq<Seq<char>>) -> Seq<Entry> {
        tokens.map_values(|t: Seq<char>| self.entry_of(t))
    }

    /// The problem that the declaration describes.
    pub open spec fn compiled(self) -> Problem {
        Problem {
            num_items: self.num_items(),
            num_primary: self.primary.len(),
            options: self.options.map_values(
                |tokens: Seq<Seq<char>>| row_of(self.entries(tokens), self.num_items()),
            ),
        }
    }

    /// The first primary item at or after `k` that is also declared as
    /// secondary, if any.
    pub open spec fn twice_from(self, k: int) -> Option<int>
        decreases self.primary.len() - k,
    {
        if k >= self.primary.len() {
            None
        } else if last_index(self.secondary, self.primary[k]) is Some {
            Some(k)
        } else {
            self.twice_from(k + 1)
        }
    }

    /// The first of `tokens` at or after `b` that names no declared item, if
    /// any.
    pub open spec fn undeclared_from(self, tokens: Seq<Seq<char>>, b: int) -> Option<int>
        decreases tokens.len() - b,
    {
        if b >= tokens.len() {
            None
        } else if self.item_of(token_name(tokens[b])) is None {
            Some(b)
        } else {
            self.undeclared_from(tokens, b + 1)
        }
    }

    /// The first option at or after `a` with a token that names no declared
    /// item, if any.
    pub open spec fn bad_option_from(self, a: int) -> Option<int>
        decreases self.options.len() - a,
    {
        if a >= self.options.len() {
            None
        } else if self.undeclared_from(self.options[a], 0) is Some {
            Some(a)
        } else {
            self.bad_option_from(a + 1)
        }
    }

    /// Whether no option touches item `i`.
    pub open spec fn unused(self, i: int) -> bool {
        forall|o: int| !self.compiled().touches(o, i)
    }

    /// The first primary item at or after `i` that no option touches, if
    /// any.
    pub open spec fn unused_from(self, i: int) -> Option<int>
        decreases self.primary.len() - i,
    {
        if i >= self.primary.len() {
            None
        } else if self.unused(i) {
            Some(i)
        } else {
            self.unused_from(i + 1)
        }
    }

    /// What is wrong with the declaration, if anything. Faults are looked
    /// for in this order, and the first one found is the answer: no primary
    /// item; no option; a primary item that is also secondary; a token that
    /// names no declared item; a primary item that no option touches.
    pub open spec fn fault(self) -> Option<Fault> {
        if self.primary.len() == 0 {
            Some(Fault::NoPrimaryItems)
        } else if self.options.len() == 0 {
            Some(Fault::NoOptions)
        } else if let Some(k) = self.twice_from(0) {
            Some(Fault::ItemDeclaredTwice(self.primary[k]))
        } else if let Some(a) = self.bad_option_from(0) {
            let b = self.undeclared_from(self.options[a], 0)->0;
            Some(Fault::ItemNotDeclared(token_name(self.options[a][b])))
        } else if let Some(i) = self.unused_from(0) {
            Some(Fault::PrimaryItemNotUsed(self.primary[i]))
        } else {
            None
        }
    }

    /// The declaration as text: a line with the primary items and, after
    /// `" | "`, the secondary items if there are any; then a line for each
    /// option.
    pub open spec fn listing(self) -> Seq<char> {
        joined(self.primary, self.primary.len()) + (if self.secondary.len() > 0 {
            seq![' ', '|', ' '] + joined(self.secondary, self.secondary.len())
        } else {
            Seq::empty()
        }) + seq!['\n'] + option_lines(self.options, self.options.len())
    }

    /// Whether an option made of `tokens` may be added: none of them gives a
    /// color to an item that is declared as primary.
    pub open spec fn allows(self, tokens: Seq<Seq<char>>) -> bool {
        forall|k: int|
            0 <= k < tokens.len() && token_color(#[trigger] tokens[k]) is Some ==> last_index(
                self.primary,
                token_name(tokens[k]),
            ) is None
    }

    /// Whether the declaration allows each of its options: no token of any
    /// option gives a color to an item that is declared as primary, whether
    /// the item was declared before the option or after it.
    pub open spec fn all_allowed(self) -> bool {
        forall|o: int| 0 <= o < self.options.len() ==> self.allows(#[trigger] self.options[o])
    }
}

/// A name that a list holds is still there after a push, and so is the
/// name pushed.
pub proof fn lemma_last_index_push(names: Seq<Seq<char>>, added: Seq<char>, name: Seq<char>)
    ensures
        last_index(names, name) is Some ==> last_index(names.push(added), name) is Some,
        last_index(names.push(name), name) is Some,
{
    assert(names.push(added).drop_last() =~= names);
    assert(names.push(name).drop_last() =~= names);
}

/// Adding the colors of tokens to a palette loses no color.
pub proof fn lemma_with_colors_keeps(
    palette: Seq<Seq<char>>,
    tokens: Seq<Seq<char>>,
    k: nat,
    name: Seq<char>,
)
    requires
        last_index(palette, name) is Some,
    ensures
        last_index(with_colors_of(palette, tokens, k), name) is Some,
    decreases k,
{
    if k > 0 {
        lemma_with_colors_keeps(palette, tokens, (k - 1) as nat, name);
        let before = with_colors_of(palette, tokens, (k - 1) as nat);
        match token_color(tokens[k - 1]) {
            Some(c) => {
                lemma_last_index_push(before, c, name);
            },
            None => {},
        }
    }
}

/// A palette with the colors of the first `k` tokens added holds the color
/// of each of them.
pub proof fn lemma_with_colors_has(
    palette: Seq<Seq<char>>,
    tokens: Seq<Seq<char>>,
    k: nat,
    b: int,
)
    requires
        0 <= b < k,
        token_color(tokens[b]) is Some,
    ensures
        last_index(with_colors_of(palette, tokens, k), token_color(tokens[b])->0) is Some,
    decreases k,
{
    let name = token_color(tokens[b])->0;
    let before = with_colors_of(palette, tokens, (k - 1) as nat);
    if b == k - 1 {
        lemma_last_index_push(before, name, name);
    } else {
        lemma_with_colors_has(palette, tokens, (k - 1) as nat, b);
        match token_color(tokens[k - 1]) {
            Some(c) => {
                lemma_last_index_push(before, c, name);
            },
            None => {},
        }
    }
}

/// Where `last_index` finds a name.
pub proof fn lemma_last_index(names: Seq<Seq<char>>, name: Seq<char>)
    ensures
        last_index(names, name) matches Some(k) ==> 0 <= k < names.len() && names[k] == name,
    decreases names.len(),
{
    if names.len() > 0 && names.last() != name {
        lemma_last_index(names.drop_last(), name);
    }
}

impl Declaration {
    /// The palette of the first `n` options holds the color of every token
    /// of each of them.
    pub proof fn lemma_palette_upto_has(self, n: nat, a: int, b: int)
        requires
            0 <= a < n <= self.options.len(),
            0 <= b < self.options[a].len(),
            token_color(self.options[a][b]) is Some,
        ensures
            last_index(self.palette_upto(n), token_color(self.options[a][b])->0) is Some,
        decreases n,
    {
        let before = self.palette_upto((n - 1) as nat);
        let tokens = self.options[n - 1];
        if a == n - 1 {
            lemma_with_colors_has(before, tokens, tokens.len(), b);
        } else {
            self.lemma_palette_upto_has((n - 1) as nat, a, b);
            lemma_with_colors_keeps(before, tokens, tokens.len(), token_color(self.options[a][b])->0);
        }
    }

    /// The index of an item is an index into the items declared.
    pub proof fn lemma_item_of_bound(self, name: Seq<char>)
        ensures
            self.item_of(name) matches Some(i) ==> 0 <= i < self.num_items(),
    {
        lemma_last_index(self.secondary, name);
        lemma_last_index(self.primary, name);
    }

    /// Where `undeclared_from` finds nothing, every token from `b` on names
    /// a declared item.
    pub proof fn lemma_all_declared(self, tokens: Seq<Seq<char>>, b: int, k: int)
        requires
            0 <= b <= k < tokens.len(),
            self.undeclared_from(tokens, b) is None,
        ensures
            self.item_of(token_name(tokens[k])) is Some,
        decreases tokens.len() - b,
    {
        if b < k {
            self.lemma_all_declared(tokens, b + 1, k);
        }
    }

    /// Where `bad_option_from` finds nothing, every option from `a` on has
    /// declared items only.
    pub proof fn lemma_no_bad_option(self, a: int, o: int)
        requires
            0 <= a <= o < self.options.len(),
            self.bad_option_from(a) is None,
        ensures
            self.undeclared_from(self.options[o], 0) is None,
        decreases self.options.len() - a,
    {
        if a < o {
            self.lemma_no_bad_option(a + 1, o);
        }
    }

    /// If the declaration has no fault and allows each of its options, the
    /// problem that it describes gives no primary item a color.
    pub proof fn lemma_allowed_is_uncolored(self)
        requires
            self.fault() is None,
            self.all_allowed(),
        ensures
            self.compiled().primary_uncolored(),
    {
        let p = self.compiled();
        assert forall|o: int, i: int| p.is_option(o) && p.is_primary(i) implies (#[trigger] p.color(
            o,
            i,
        )) is None by {
            let tokens = self.options[o];
            let entries = self.entries(tokens);
            assert(p.options[o] == row_of(entries, self.num_items()));
            if colors_of(entries).contains_key(i) {
                lemma_colors_of_keys(entries, i);
                let k = choose|k: int|
                    0 <= k < entries.len() && (#[trigger] entries[k]).0 == i && entries[k].1 is Some;
                assert(entries[k] == self.entry_of(tokens[k]));
                let name = token_name(tokens[k]);
                assert(self.allows(tokens));
                assert(token_color(tokens[k]) is Some);
                assert(last_index(self.primary, name) is None);
                self.lemma_no_bad_option(0, o);
                self.lemma_all_declared(tokens, 0, k);
                lemma_last_index(self.secondary, name);
            }
        }
    }
}

/// Finds the last position of `name` in `names`.
pub fn find_last(names: &Vec<String>, name: &String) -> (r: Option<usize>)
    ensures
        last_index(texts(names@), name@) == match r {
            Some(k) => Some(k as int),
            None => None,
        },
        r matches Some(k) ==> k < names@.len() && names@[k as int]@ == name@,
{
    let mut k: usize = names.len();
    assert(texts(names@).take(k as int) =~= texts(names@));
    while k > 0
        invariant
            k <= names@.len(),
            last_index(texts(names@), name@) == last_index(texts(names@).take(k as int), name@),
        decreases k,
    {
        k -= 1;
        assert(texts(names@).take(k + 1).drop_last() =~= texts(names@).take(k as int));
        if names[k] == *name {
            return Some(k);
        }
    }
    None
}

/// The row that each list of `parsed` describes, in a problem of `num_items` items.
pub open spec fn rows_of(parsed: Seq<Vec<ColoredItem>>, num_items: nat) -> Seq<Row> {
    parsed.map_values(|items: Vec<ColoredItem>| row_of(entries_of(items@), num_items))
}

/// Makes a matrix of the given size with one option for each entry of
/// `options`, touching the items that `parsed` lists for it.
fn assemble<T>(
    options: Vec<(T, Vec<String>)>,
    parsed: &Vec<Vec<ColoredItem>>,
    num_primary: usize,
    num_secondary: usize,
) -> (m: Matrix<T>)
    requires
        parsed@.len() == options@.len(),
        num_primary + num_secondary <= usize::MAX,
        forall|a: int, k: int|
            0 <= a < parsed@.len() && 0 <= k < parsed@[a]@.len() ==> (#[trigger] parsed@[a]@[k]).item().0
                < num_primary + num_secondary,
    ensures
        m.wf(),
        m@ == (Problem {
            num_items: (num_primary + num_secondary) as nat,
            num_primary: num_primary as nat,
            options: rows_of(parsed@, (num_primary + num_secondary) as nat),
        }),
        m.meanings() == options@.map_values(|o: (T, Vec<String>)| o.0),
{
    let ghost n = (num_primary + num_secondary) as nat;
    let ghost all = options@;
    let mut matrix = Matrix::new(num_primary, num_secondary);
    let mut a: usize = 0;
    assert(rows_of(parsed@, n).take(0) =~= Seq::empty());
    assert(all.map_values(|o: (T, Vec<String>)| o.0).take(0) =~= Seq::empty());
    for entry in it: options
        invariant
            a == it.index(),
            it.seq() == all,
            parsed@.len() == all.len(),
            n == num_primary + num_secondary,
            forall|a: int, k: int|
                0 <= a < parsed@.len() && 0 <= k < parsed@[a]@.len() ==> (#[trigger] parsed@[a]@[k]).item().0
                    < n,
            matrix.wf(),
            matrix@ == (Problem {
                num_items: n,
                num_primary: num_primary as nat,
                options: rows_of(parsed@, n).take(a as int),
            }),
            matrix.meanings() == all.map_values(|o: (T, Vec<String>)| o.0).take(a as int),
    {
        let (meaning, _tokens) = entry;
        matrix.add_option(meaning, parsed[a].as_slice());
        proof {
            assert(matrix@.options =~= rows_of(parsed@, n).take(a + 1));
            assert(matrix.meanings() =~= all.map_values(|o: (T, Vec<String>)| o.0).take(a + 1));
        }
        a += 1;
    }
    assert(rows_of(parsed@, n).take(a as int) =~= rows_of(parsed@, n));
    assert(all.map_values(|o: (T, Vec<String>)| o.0).take(a as int) =~= all.map_values(
        |o: (T, Vec<String>)| o.0,
    ));
    matrix
}

/// Appends `words` to `buf`, with a space between each two.
fn push_joined(buf: &mut String, words: &Vec<String>)
    ensures
        final(buf)@ == old(buf)@ + joined(texts(words@), words@.len()),
{
    let ghost list = texts(words@);
    let mut k: usize = 0;
    assert(buf@ + Seq::<char>::empty() =~= buf@);
    while k < words.len()
        invariant
            k <= words@.len(),
            list == texts(words@),
            buf@ == old(buf)@ + joined(list, k as nat),
        decreases words@.len() - k,
    {
        let ghost before = buf@;
        if k > 0 {
            proof {
                reveal_strlit(" ");
            }
            buf.append(" ");
            assert(buf@ =~= before + seq![' ']);
        }
        buf.append(words[k].as_str());
        assert(list[k as int] == words@[k as int]@);
        assert(buf@ =~= old(buf)@ + joined(list, (k + 1) as nat));
        k += 1;
    }
}

/// A builder for a matrix.
///
/// Declare the primary and the secondary items by name, add the options, and
/// call `build()`. An option is a list of tokens: `name` for an item without
/// a color, `name:color` for a secondary item with a color. Every option comes
/// with a meaning of type `T`, which the solver hands back in its solutions and
/// never looks at.
#[derive(Debug, Clone)]
pub struct Builder<T> {
    primary_items: Vec<String>,
    secondary_items: Vec<String>,
    options: Vec<(T, Vec<String>)>,
}

impl<T> View for Builder<T> {
    type V = Declaration;

    closed spec fn view(&self) -> Declaration {
        Declaration {
            primary: texts(self.primary_items@),
            secondary: texts(self.secondary_items@),
            options: self.options@.map_values(|o: (T, Vec<String>)| texts(o.1@)),
        }
    }
}

impl<T> Default for Builder<T> {
    fn default() -> (r: Self)
        ensures
            r@ == (Declaration {
                primary: Seq::empty(),
                secondary: Seq::empty(),
                options: Seq::empty(),
            }),
            r.meanings() == Seq::<T>::empty(),
    {
        let r = Self { primary_items: Vec::new(), secondary_items: Vec::new(), options: Vec::new() };
        assert(r@ =~= (Declaration {
            primary: Seq::empty(),
            secondary: Seq::empty(),
            options: Seq::empty(),
        }));
        assert(r.meanings() =~= Seq::<T>::empty());
        r
    }
}

impl<T> Builder<T> {
    /// The meaning of each option, in the order in which they were added.
    pub closed spec fn meanings(&self) -> Seq<T> {
        self.options@.map_values(|o: (T, Vec<String>)| o.0)
    }

    /// Creates a new Builder, with nothing declared.
    #[must_use]
    pub fn new() -> (r: Self)
        ensures
            r@ == (Declaration {
                primary: Seq::empty(),
                secondary: Seq::empty(),
                options: Seq::empty(),
            }),
            r.meanings() == Seq::<T>::empty(),
    {
        Self::default()
    }

    /// Adds primary items to the matrix.
    pub fn add_primary_items(&mut self, items: &[&str])
        ensures
            final(self)@ == (Declaration {
                primary: old(self)@.primary + str_texts(items@),
                ..old(self)@
            }),
            final(self).meanings() == old(self).meanings(),
    {
        let mut k: usize = 0;
        assert(str_texts(items@).take(0) =~= Seq::empty());
        assert(old(self)@.primary + Seq::<Seq<char>>::empty() =~= old(self)@.primary);
        while k < items.len()
            invariant
                k <= items@.len(),
                self@ == (Declaration {
                    primary: old(self)@.primary + str_texts(items@).take(k as int),
                    ..old(self)@
                }),
                self.meanings() == old(self).meanings(),
            decreases items@.len() - k,
        {
            self.add_primary_item(items[k]);
            assert(self@.primary =~= old(self)@.primary + str_texts(items@).take(k + 1));
            k += 1;
        }
        assert(str_texts(items@).take(items@.len() as int) =~= str_texts(items@));
    }

    /// Adds secondary items to the matrix.
    pub fn add_secondary_items(&mut self, items: &[&str])
        ensures
            final(self)@ == (Declaration {
                secondary: old(self)@.secondary + str_texts(items@),
                ..old(self)@
            }),
            final(self).meanings() == old(self).meanings(),
    {
        let mut k: usize = 0;
        assert(str_texts(items@).take(0) =~= Seq::empty());
        assert(old(self)@.secondary + Seq::<Seq<char>>::empty() =~= old(self)@.secondary);
        while k < items.len()
            invariant
                k <= items@.len(),
                self@ == (Declaration {
                    secondary: old(self)@.secondary + str_texts(items@).take(k as int),
                    ..old(self)@
                }),
                self.meanings() == old(self).meanings(),
            decreases items@.len() - k,
        {
            self.add_secondary_item(items[k]);
            assert(self@.secondary =~= old(self)@.secondary + str_texts(items@).take(k + 1));
            k += 1;
        }
        assert(str_texts(items@).take(items@.len() as int) =~= str_texts(items@));
    }

    /// Adds a single primary item to the matrix.
    pub fn add_primary_item(&mut self, item: &str)
        ensures
            final(self)@ == (Declaration {
                primary: old(self)@.primary.push(item@),
                ..old(self)@
            }),
            final(self).meanings() == old(self).meanings(),
    {
        self.primary_items.push(item.to_owned());
        assert(self@.primary =~= old(self)@.primary.push(item@));
    }

    /// Adds a single secondary item to the matrix.
    pub fn add_secondary_item(&mut self, item: &str)
        ensures
            final(self)@ == (Declaration {
                secondary: old(self)@.secondary.push(item@),
                ..old(self)@
            }),
            final(self).meanings() == old(self).meanings(),
    {
        self.secondary_items.push(item.to_owned());
        assert(self@.secondary =~= old(self)@.secondary.push(item@));
    }

    /// The first primary item that is also declared as secondary, if any.
    fn first_twice(&self) -> (r: Option<usize>)
        ensures
            self@.twice_from(0) == match r {
                Some(k) => Some(k as int),
                None => None,
            },
            r matches Some(k) ==> k < self.primary_items@.len(),
    {
        let mut k: usize = 0;
        while k < self.primary_items.len()
            invariant
                k <= self.primary_items@.len(),
                self@.twice_from(k as int) == self@.twice_from(0),
            decreases self.primary_items@.len() - k,
        {
            assert(self@.primary[k as int] == self.primary_items@[k as int]@);
            if find_last(&self.secondary_items, &self.primary_items[k]).is_some() {
                return Some(k);
            }
            k += 1;
        }
        None
    }

    /// The color names of all options, each once, in the order in which they
    /// first occur.
    fn palette(&self) -> (colors: Vec<String>)
        ensures
            texts(colors@) == self@.palette(),
    {
        let mut colors: Vec<String> = Vec::new();
        assert(texts(colors@) =~= self@.palette_upto(0));
        let mut a: usize = 0;
        while a < self.options.len()
            invariant
                a <= self.options@.len(),
                texts(colors@) == self@.palette_upto(a as nat),
            decreases self.options@.len() - a,
        {
            let tokens = &self.options[a].1;
            let ghost start = texts(colors@);
            let ghost words = texts(tokens@);
            assert(words == self@.options[a as int]);
            let mut b: usize = 0;
            while b < tokens.len()
                invariant
                    b <= tokens@.len(),
                    words == texts(tokens@),
                    texts(colors@) == with_colors_of(start, words, b as nat),
                decreases tokens@.len() - b,
            {
                let (_name, color) = split_token(tokens[b].as_str());
                assert(words[b as int] == tokens@[b as int]@);
                if let Some(c) = color {
                    if find_last(&colors, &c).is_none() {
                        let ghost before = colors@;
                        colors.push(c);
                        assert(texts(colors@) =~= texts(before).push(c@));
                    }
                }
                b += 1;
            }
            a += 1;
        }
        colors
    }

    /// Reads the tokens of option `a`: finds the item that each one names,
    /// and the number of its color in `colors`. Fails with the name of the
    /// first item that is not declared.
    fn parse_option(&self, a: usize, colors: &Vec<String>) -> (r: Result<Vec<ColoredItem>, String>)
        requires
            a < self@.options.len(),
            texts(colors@) == self@.palette(),
            self@.num_items() <= usize::MAX,
        ensures
            match r {
                Ok(items) => {
                    &&& self@.undeclared_from(self@.options[a as int], 0) is None
                    &&& entries_of(items@) == self@.entries(self@.options[a as int])
                    &&& forall|k: int|
                        0 <= k < items@.len() ==> (#[trigger] items@[k]).item().0
                            < self@.num_items()
                },
                Err(name) => {
                    &&& self@.undeclared_from(self@.options[a as int], 0) matches Some(b)
                    &&& name@ == token_name(self@.options[a as int][b])
                },
            },
    {
        let ghost d = self@;
        let tokens = &self.options[a].1;
        let ghost words = texts(tokens@);
        assert(words == d.options[a as int]);
        let mut items: Vec<ColoredItem> = Vec::new();
        assert(entries_of(items@) =~= d.entries(words).take(0));
        let mut b: usize = 0;
        while b < tokens.len()
            invariant
                b <= tokens@.len(),
                d == self@,
                a < d.options.len(),
                words == texts(tokens@),
                words == d.options[a as int],
                texts(colors@) == d.palette(),
                d.num_items() <= usize::MAX,
                d.undeclared_from(words, b as int) == d.undeclared_from(words, 0),
                items@.len() == b,
                entries_of(items@) == d.entries(words).take(b as int),
                forall|k: int| 0 <= k < items@.len() ==> (#[trigger] items@[k]).item().0 < d.num_items(),
            decreases tokens@.len() - b,
        {
            let (name, color) = split_token(tokens[b].as_str());
            let ghost word = words[b as int];
            assert(word == tokens@[b as int]@);
            proof {
                d.lemma_item_of_bound(name@);
            }
            let item = match find_last(&self.secondary_items, &name) {
                Some(k) => self.primary_items.len() + k,
                None => match find_last(&self.primary_items, &name) {
                    Some(k) => k,
                    None => {
                        return Err(name);
                    },
                },
            };
            assert(d.item_of(token_name(word)) == Some(item as int));
            let parsed = match color {
                None => ColoredItem::new(ItemId::new(item)),
                Some(c) => {
                    proof {
                        d.lemma_palette_upto_has(d.options.len(), a as int, b as int);
                        lemma_last_index(d.palette(), c@);
                    }
                    match find_last(colors, &c) {
                        Some(id) => ColoredItem::with_color(ItemId::new(item), Color::new(id)),
                        None => {
                            assert(false);
                            ColoredItem::new(ItemId::new(item))
                        },
                    }
                },
            };
            let ghost before = items@;
            items.push(parsed);
            proof {
                assert(entries_of(items@)[b as int] == d.entry_of(word));
                assert forall|k: int| 0 <= k < b + 1 implies entries_of(items@)[k] == d.entries(
                    words,
                )[k] by {
                    if k < b {
                        assert(entries_of(before)[k] == d.entries(words).take(b as int)[k]);
                    }
                }
                assert(entries_of(items@) =~= d.entries(words).take(b + 1));
            }
            b += 1;
        }
        assert(d.entries(words).take(b as int) =~= d.entries(words));
        Ok(items)
    }

    /// Reads the tokens of every option. Fails with the name of the first
    /// item that is not declared.
    fn parse_options(&self) -> (r: Result<Vec<Vec<ColoredItem>>, String>)
        requires
            self@.num_items() <= usize::MAX,
        ensures
            match r {
                Ok(parsed) => {
                    &&& self@.bad_option_from(0) is None
                    &&& rows_of(parsed@, self@.num_items()) == self@.compiled().options
                    &&& parsed@.len() == self@.options.len()
                    &&& forall|a: int, k: int|
                        0 <= a < parsed@.len() && 0 <= k < parsed@[a]@.len() ==> (
                        #[trigger] parsed@[a]@[k]).item().0 < self@.num_items()
                },
                Err(name) => {
                    &&& self@.bad_option_from(0) matches Some(a)
                    &&& name@ == token_name(
                        self@.options[a][self@.undeclared_from(self@.options[a], 0)->0],
                    )
                },
            },
    {
        let ghost d = self@;
        let colors = self.palette();
        let mut parsed: Vec<Vec<ColoredItem>> = Vec::new();
        let mut a: usize = 0;
        while a < self.options.len()
            invariant
                a <= self.options@.len(),
                d == self@,
                d.options.len() == self.options@.len(),
                texts(colors@) == d.palette(),
                d.num_items() <= usize::MAX,
                d.bad_option_from(a as int) == d.bad_option_from(0),
                parsed@.len() == a,
                forall|j: int|
                    0 <= j < a ==> entries_of((#[trigger] parsed@[j])@) == d.entries(d.options[j]),
                forall|j: int, k: int|
                    0 <= j < parsed@.len() && 0 <= k < parsed@[j]@.len() ==> (
                    #[trigger] parsed@[j]@[k]).item().0 < d.num_items(),
            decreases self.options@.len() - a,
        {
            match self.parse_option(a, &colors) {
                Ok(items) => {
                    parsed.push(items);
                },
                Err(name) => {
                    return Err(name);
                },
            }
            a += 1;
        }
        assert(rows_of(parsed@, d.num_items()) =~= d.compiled().options);
        Ok(parsed)
    }

    /// Builds the matrix, or says what is wrong with the declaration. No
    /// option may give a color to an item that is declared as primary,
    /// whichever of the two was declared first: `allows_its_options` says
    /// whether that is so. The matrix built gives no primary item a color.
    ///
    /// # Errors
    ///
    /// Faults are looked for in this order, and the first one found is returned:
    /// * `NoPrimaryItems`: no primary item is declared.
    /// * `NoOptions`: no option is declared.
    /// * `ItemDeclaredTwice`: an item is declared as both primary and
    ///   secondary; the error names the first such primary item.
    /// * `ItemNotDeclared`: an option uses an item that is not declared; the
    ///   error names the first such item, in the order of the options.
    /// * `PrimaryItemNotUsed`: no option uses a primary item; the error names
    ///   the first such item.
    pub fn build(self) -> (r: Result<Matrix<T>, BuildError>)
        requires
            self@.num_items() <= usize::MAX,
            self@.all_allowed(),
        ensures
            match r {
                Ok(m) => {
                    &&& self@.fault() is None
                    &&& m.wf()
                    &&& m@ == self@.compiled()
                    &&& m.meanings() == self.meanings()
                    &&& m@.primary_uncolored()
                },
                Err(e) => self@.fault() == Some(e@),
            },
    {
        let ghost d = self@;
        if self.primary_items.len() == 0 {
            return Err(BuildError::NoPrimaryItems);
        }
        if self.options.len() == 0 {
            return Err(BuildError::NoOptions);
        }
        if let Some(k) = self.first_twice() {
            return Err(BuildError::ItemDeclaredTwice(self.primary_items[k].clone()));
        }
        let parsed = match self.parse_options() {
            Ok(parsed) => parsed,
            Err(name) => {
                return Err(BuildError::ItemNotDeclared(name));
            },
        };
        let Builder { primary_items, secondary_items, options } = self;
        let matrix = assemble(options, &parsed, primary_items.len(), secondary_items.len());
        assert(matrix@ =~= d.compiled());
        let counts = Solver::new(&matrix).count_items();
        let ghost p = matrix@;
        assert(d.twice_from(0) is None);
        assert(d.bad_option_from(0) is None);
        assert(d.primary.len() > 0 && d.options.len() > 0);
        let mut i: usize = 0;
        while i < primary_items.len()
            invariant
                i <= primary_items@.len(),
                d == self@,
                d.primary == texts(primary_items@),
                p == d.compiled(),
                counts@.len() == p.num_items,
                p.num_primary <= p.num_items,
                forall|j: int|
                    0 <= j < counts@.len() ==> #[trigger] counts@[j] == option_count(
                        p,
                        SearchState::initial(p),
                        j,
                    ),
                d.unused_from(i as int) == d.unused_from(0),
                d.twice_from(0) is None,
                d.bad_option_from(0) is None,
                d.primary.len() > 0 && d.options.len() > 0,
            decreases primary_items@.len() - i,
        {
            proof {
                let column = live_column(p, SearchState::initial(p), i as int);
                lemma_count_set_zero(column, p.options.len());
                assert(counts@[i as int] == option_count(p, SearchState::initial(p), i as int));
                if d.unused(i as int) {
                    assert forall|o: int| 0 <= o < p.options.len() implies !is_set(column, o) by {
                        assert(!p.touches(o, i as int));
                    }
                } else {
                    let o = choose|o: int| p.touches(o, i as int);
                    assert(is_set(column, o));
                }
            }
            if counts[i] == 0 {
                let name = primary_items[i].clone();
                assert(name@ == d.primary[i as int]);
                assert(d.unused_from(0) == Some(i as int));
                return Err(BuildError::PrimaryItemNotUsed(name));
            }
            i += 1;
        }
        proof {
            d.lemma_allowed_is_uncolored();
        }
        Ok(matrix)
    }

    /// Says whether `token` gives a color to an item that is declared as
    /// primary.
    fn colors_primary(&self, token: &str) -> (r: bool)
        ensures
            r == (token_color(token@) is Some && last_index(self@.primary, token_name(token@))
                is Some),
    {
        let (name, color) = split_token(token);
        color.is_some() && find_last(&self.primary_items, &name).is_some()
    }

    /// Says whether `add_option` accepts an option made of `items`: it does
    /// unless one of them gives a color to an item that is declared as
    /// primary.
    pub fn allows(&self, items: &[&str]) -> (ok: bool)
        ensures
            ok == self@.allows(str_texts(items@)),
    {
        let ghost tokens = str_texts(items@);
        let mut k: usize = 0;
        while k < items.len()
            invariant
                k <= items@.len(),
                tokens == str_texts(items@),
                forall|j: int|
                    0 <= j < k && token_color(#[trigger] tokens[j]) is Some ==> last_index(
                        self@.primary,
                        token_name(tokens[j]),
                    ) is None,
            decreases items@.len() - k,
        {
            assert(tokens[k as int] == items@[k as int]@);
            if self.colors_primary(items[k]) {
                return false;
            }
            k += 1;
        }
        true
    }

    /// Says whether the builder allows option `o` as the declaration now
    /// stands.
    fn allows_option(&self, o: usize) -> (ok: bool)
        requires
            o < self@.options.len(),
        ensures
            ok == self@.allows(self@.options[o as int]),
    {
        let stored = &self.options[o].1;
        let ghost tokens = texts(stored@);
        assert(tokens == self@.options[o as int]);
        let mut k: usize = 0;
        while k < stored.len()
            invariant
                k <= stored@.len(),
                o < self@.options.len(),
                tokens == texts(stored@),
                tokens == self@.options[o as int],
                forall|j: int|
                    0 <= j < k && token_color(#[trigger] tokens[j]) is Some ==> last_index(
                        self@.primary,
                        token_name(tokens[j]),
                    ) is None,
            decreases stored@.len() - k,
        {
            assert(tokens[k as int] == stored@[k as int]@);
            if self.colors_primary(stored[k].as_str()) {
                return false;
            }
            k += 1;
        }
        true
    }

    /// Says whether `build` may be called: whether no option gives a color
    /// to an item that is declared as primary. `add_option` turns away an
    /// option that colors an item declared before it; this also finds the
    /// items that were declared primary after an option gave them a color.
    pub fn allows_its_options(&self) -> (ok: bool)
        ensures
            ok == self@.all_allowed(),
    {
        let mut o: usize = 0;
        while o < self.options.len()
            invariant
                o <= self.options@.len(),
                self@.options.len() == self.options@.len(),
                forall|j: int| 0 <= j < o ==> self@.allows(#[trigger] self@.options[j]),
            decreases self.options@.len() - o,
        {
            if !self.allows_option(o) {
                return false;
            }
            o += 1;
        }
        true
    }

    /// Adds an option to the matrix. No item of it may give a color to an
    /// item that is declared as primary.
    pub fn add_option(&mut self, meaning: T, items: &[&str])
        requires
            old(self)@.allows(str_texts(items@)),
        ensures
            final(self)@ == (Declaration {
                options: old(self)@.options.push(str_texts(items@)),
                ..old(self)@
            }),
            final(self).meanings() == old(self).meanings().push(meaning),
    {
        let mut tokens: Vec<String> = Vec::new();
        let mut k: usize = 0;
        while k < items.len()
            invariant
                k <= items@.len(),
                tokens@.len() == k,
                texts(tokens@) == str_texts(items@).take(k as int),
            decreases items@.len() - k,
        {
            let ghost before = tokens@;
            let token = items[k].to_owned();
            tokens.push(token);
            assert(tokens@ == before.push(token));
            assert(str_texts(items@)[k as int] == token@);
            assert forall|j: int| 0 <= j < k + 1 implies texts(tokens@)[j] == str_texts(items@)[j] by {
                if j < k {
                    assert(texts(before)[j] == str_texts(items@).take(k as int)[j]);
                }
            }
            assert(texts(tokens@) =~= str_texts(items@).take(k + 1));
            k += 1;
        }
        assert(str_texts(items@).take(items@.len() as int) =~= str_texts(items@));
        self.options.push((meaning, tokens));
        assert(self@.options =~= old(self)@.options.push(str_texts(items@)));
        assert(self.meanings() =~= old(self).meanings().push(meaning));
    }
}

/// What a builder makes depends only on what it was told. Two builders that
/// were told the same, with the same meanings, make matrices with the same
/// solutions, in the same order, and the options of each solution have the
/// same meanings.
pub proof fn lemma_same_declaration_same_solutions<T>(
    b1: Builder<T>,
    b2: Builder<T>,
    m1: Matrix<T>,
    m2: Matrix<T>,
)
    requires
        b1@ == b2@,
        b1.meanings() == b2.meanings(),
        m1@ == b1@.compiled(),
        m1.meanings() == b1.meanings(),
        m2@ == b2@.compiled(),
        m2.meanings() == b2.meanings(),
    ensures
        all_solutions(m1@) == all_solutions(m2@),
        forall|k: int|
            0 <= k < all_solutions(m1@).len() ==> payloads(
                m1.meanings(),
                #[trigger] all_solutions(m1@)[k],
            ) == payloads(m2.meanings(), all_solutions(m2@)[k]),
{
}

impl<T: std::fmt::Debug> Builder<T> {
    /// Returns the declaration in the format that Knuth's `dlx2` program
    /// reads.
    #[must_use]
    pub fn dump_knuth_format(&self) -> (text: String)
        ensures
            text@ == self@.listing(),
    {
        let ghost d = self@;
        let mut buf = String::new();
        push_joined(&mut buf, &self.primary_items);
        assert(buf@ =~= joined(d.primary, d.primary.len()));
        if self.secondary_items.len() > 0 {
            proof {
                reveal_strlit(" | ");
            }
            let ghost before = buf@;
            buf.append(" | ");
            assert(buf@ =~= before + seq![' ', '|', ' ']);
            push_joined(&mut buf, &self.secondary_items);
        }
        proof {
            reveal_strlit("\n");
        }
        buf.append("\n");
        let ghost top = buf@;
        assert(top =~= joined(d.primary, d.primary.len()) + (if d.secondary.len() > 0 {
            seq![' ', '|', ' '] + joined(d.secondary, d.secondary.len())
        } else {
            Seq::empty()
        }) + seq!['\n']);
        assert(top + option_lines(d.options, 0) =~= top);
        let mut a: usize = 0;
        while a < self.options.len()
            invariant
                a <= self.options@.len(),
                d == self@,
                buf@ == top + option_lines(d.options, a as nat),
            decreases self.options@.len() - a,
        {
            push_joined(&mut buf, &self.options[a].1);
            proof {
                reveal_strlit("\n");
            }
            buf.append("\n");
            assert(d.options[a as int] == texts(self.options@[a as int].1@));
            assert(buf@ =~= top + option_lines(d.options, (a + 1) as nat));
            a += 1;
        }
        buf
    }
}

} // verus!

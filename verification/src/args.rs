//! The arguments of a command: the tokens of its text, and a cursor over them.
use crate::error::Error;
use crate::iter::{Iter, IterQuoted};
use crate::lexer::{end_at, lemma_end_at, lemma_token_at, tokens, tokens_from, Lexer};
use crate::parse::{result_view, FromText};
use crate::search::{
    chars_of, last_index_of, lemma_last_index_of, occurs, occurs_in, rfind_char, starts_with_char,
};
use crate::text::{
    byte_len, byte_offset, char_index, lemma_boundary_is_offset, lemma_index_of_offset,
    lemma_offset_ends, lemma_offset_is_boundary, lemma_offset_step, lemma_slice, slice_between,
};
use crate::token::{quotes_extract, Token, TokenKind, TokenView};
use vstd::prelude::*;
use vstd::utf8::*;

verus! {

/// The texts of a list of strings.
pub open spec fn texts(strings: Seq<String>) -> Seq<Seq<char>> {
    strings.map_values(|s: String| s@)
}

/// Whether `c` separates the arguments of `text`: it is a character of a candidate that
/// stands somewhere in `text`.
pub open spec fn is_active(c: char, text: Seq<char>, candidates: Seq<Seq<char>>) -> bool {
    exists|k: int|
        0 <= k < candidates.len() && occurs_in(candidates[k], text)
            && #[trigger] candidates[k].contains(c)
}

/// The characters that separate the arguments of `text`: every character of every candidate
/// that stands somewhere in `text`. A candidate of several characters stands for each of
/// them, never for their sequence.
pub open spec fn active_delimiters(text: Seq<char>, candidates: Seq<Seq<char>>) -> Set<char> {
    Set::new(|c: char| is_active(c, text, candidates))
}

/// What tells an argument from a delimiter.
pub open spec fn is_argument() -> spec_fn(TokenView) -> bool {
    |token: TokenView| token.kind != TokenKind::Delimiter
}

/// The arguments of `text`: its tokens without the delimiters.
pub open spec fn arguments(text: Seq<char>, delims: Set<char>) -> Seq<TokenView> {
    tokens(text, delims).filter(is_argument())
}

/// The model of an argument that is held for `text`.
pub open spec fn held_in(token: TokenView, text: Seq<char>) -> bool {
    &&& token.kind != TokenKind::Delimiter
    &&& token.well_quoted()
    &&& token.lies_in(text)
}

/// The tokens stand in their text one after the other: each ends before the next starts.
pub open spec fn in_order(tokens: Seq<TokenView>) -> bool {
    forall|i: int, j: int|
        0 <= i < j < tokens.len() ==> (#[trigger] tokens[i]).end() <= (#[trigger] tokens[j]).pos
}

/// A conversion's result as the result of an operation on the arguments.
pub open spec fn lift<V, E>(r: Result<V, E>) -> Result<V, Error<E>> {
    match r {
        Ok(v) => Ok(v),
        Err(e) => Err(Error::Parse(e)),
    }
}

/// The values `first` and then the values `rest`, or the error in their place.
pub open spec fn joined<V, E>(first: Seq<V>, rest: Result<Seq<V>, E>) -> Result<Seq<V>, E> {
    match rest {
        Ok(values) => Ok(first + values),
        Err(e) => Err(e),
    }
}

/// The views of `items`.
pub open spec fn views<T: View>(items: Seq<T>) -> Seq<T::V> {
    items.map_values(|item: T| item@)
}

/// The mathematical model of [`Args`].
pub struct ArgsView {
    /// The text that the arguments were made from.
    pub text: Seq<char>,
    /// The arguments that are held, in the order of the text.
    pub tokens: Seq<TokenView>,
    /// Index of the next argument to read.
    pub cursor: nat,
}

impl ArgsView {
    /// The cursor is within the arguments or just behind them, every argument is a part of
    /// the text that is no delimiter, and the arguments are in the order of the text.
    pub open spec fn wf(self) -> bool {
        &&& self.cursor <= self.tokens.len()
        &&& forall|i: int|
            0 <= i < self.tokens.len() ==> held_in(#[trigger] self.tokens[i], self.text)
        &&& in_order(self.tokens)
    }

    /// The state in which the arguments of `text` are made: all its arguments, and the cursor
    /// at the first.
    pub open spec fn initial(text: Seq<char>, delims: Set<char>) -> ArgsView {
        ArgsView { text, tokens: arguments(text, delims), cursor: 0 }
    }

    /// Whether no argument is left to read.
    pub open spec fn is_empty(self) -> bool {
        self.cursor >= self.tokens.len()
    }

    /// The number of arguments that are left to read.
    pub open spec fn remaining(self) -> nat {
        if self.is_empty() {
            0
        } else {
            (self.tokens.len() - self.cursor) as nat
        }
    }

    /// The argument under the cursor.
    pub open spec fn current(self) -> TokenView
        recommends
            !self.is_empty(),
    {
        self.tokens[self.cursor as int]
    }

    /// The same arguments with the cursor at `cursor`.
    pub open spec fn at(self, cursor: nat) -> ArgsView {
        ArgsView { cursor, ..self }
    }

    /// The state after a step forward.
    pub open spec fn advance(self) -> ArgsView {
        self.at(self.cursor + 1)
    }

    /// The state after a step back, which stops at the first argument.
    pub open spec fn rewind(self) -> ArgsView {
        if self.cursor == 0 {
            self
        } else {
            self.at((self.cursor - 1) as nat)
        }
    }

    /// The state with the cursor at the first argument.
    pub open spec fn restore(self) -> ArgsView {
        self.at(0)
    }

    /// What reading the argument under the cursor as a `T` gives: the end of the string if
    /// there is none, else what the conversion makes of the argument's text.
    pub open spec fn read<T: FromText>(self, quoted: bool) -> Result<
        T::V,
        Error<<T::Err as View>::V>,
    > {
        if self.is_empty() {
            Err(Error::Eos)
        } else {
            lift(T::parse_spec(self.current().text(quoted)))
        }
    }

    /// The state after reading the argument under the cursor as a `T`: a step forward if that
    /// gave a value, no change if not.
    pub open spec fn after_read<T: FromText>(self, quoted: bool) -> ArgsView {
        if self.read::<T>(quoted) is Ok {
            self.advance()
        } else {
            self
        }
    }

    /// Index of the first argument at or after `from` whose text without quotes is a `T`, or
    /// the number of arguments if there is none.
    pub open spec fn first_accepted<T: FromText>(self, from: int) -> int
        decreases self.tokens.len() - from,
    {
        if from >= self.tokens.len() {
            self.tokens.len() as int
        } else if T::parse_spec(self.tokens[from].unquoted()) is Ok {
            from
        } else {
            self.first_accepted::<T>(from + 1)
        }
    }

    /// What a search for a `T` gives: the value of the first argument, whatever the cursor,
    /// whose text without quotes is a `T`, or the end of the string if there is none.
    pub open spec fn find<T: FromText>(self) -> Result<T::V, Error<<T::Err as View>::V>> {
        let i = self.first_accepted::<T>(0);
        if i < self.tokens.len() {
            lift(T::parse_spec(self.tokens[i].unquoted()))
        } else {
            Err(Error::Eos)
        }
    }

    /// The state after a search for a `T` that takes out what it finds: without the argument
    /// found and with the cursor at the first argument, or unchanged if none is found.
    pub open spec fn after_find<T: FromText>(self) -> ArgsView {
        let i = self.first_accepted::<T>(0);
        if i < self.tokens.len() {
            ArgsView { text: self.text, tokens: self.tokens.remove(i), cursor: 0 }
        } else {
            self
        }
    }

    /// The values of the arguments from index `from` on, or the error of the first of them
    /// that is no `T`.
    pub open spec fn read_from<T: FromText>(self, from: int, quoted: bool) -> Result<
        Seq<T::V>,
        <T::Err as View>::V,
    >
        decreases self.tokens.len() - from,
    {
        if from >= self.tokens.len() {
            Ok(Seq::empty())
        } else {
            match T::parse_spec(self.tokens[from].text(quoted)) {
                Err(e) => Err(e),
                Ok(v) => joined(seq![v], self.read_from::<T>(from + 1, quoted)),
            }
        }
    }

    /// What reading all the arguments that are left as `T`s gives: the end of the string if
    /// none is left, else their values, or the error of the first that is no `T`.
    pub open spec fn read_all<T: FromText>(self, quoted: bool) -> Result<
        Seq<T::V>,
        Error<<T::Err as View>::V>,
    > {
        if self.is_empty() {
            Err(Error::Eos)
        } else {
            lift(self.read_from::<T>(self.cursor as int, quoted))
        }
    }

    /// The text from the argument under the cursor to the end; empty if there is none.
    pub open spec fn rest(self) -> Seq<char> {
        if self.is_empty() {
            Seq::empty()
        } else {
            self.text.skip(char_index(self.text, self.current().pos as int))
        }
    }

    /// The text between its first character and its last double quote, if the first character
    /// is a double quote and is not itself the last one; else the whole text.
    pub open spec fn full_quoted(self) -> Seq<char> {
        let last = last_index_of(self.text, '"', self.text.len() as int);
        if self.text.len() > 0 && self.text[0] == '"' && last > 0 {
            self.text.subrange(1, last)
        } else {
            self.text
        }
    }
}

/// The characters of those of `possible_delimiters` that stand somewhere in `message`.
pub fn delimiters_of(message: &str, possible_delimiters: &[String]) -> (delims: Vec<char>)
    ensures
        delims@.to_set() == active_delimiters(message@, texts(possible_delimiters@)),
{
    let ghost candidates = texts(possible_delimiters@);
    let mut delims: Vec<char> = Vec::new();
    let mut k: usize = 0;
    while k < possible_delimiters.len()
        invariant
            k <= possible_delimiters@.len(),
            candidates == texts(possible_delimiters@),
            forall|c: char|
                delims@.contains(c) <==> is_active(c, message@, candidates.take(k as int)),
        decreases possible_delimiters@.len() - k,
    {
        let candidate = possible_delimiters[k].as_str();
        let ghost before = delims@;
        let found = occurs(candidate, message);
        if found {
            let mut chars = chars_of(candidate);
            delims.append(&mut chars);
        }
        proof {
            let seen = candidates.take(k as int);
            let now = candidates.take(k + 1);
            assert forall|c: char| delims@.contains(c) <==> is_active(c, message@, now) by {
                if delims@.contains(c) {
                    let i = choose|i: int| 0 <= i < delims@.len() && delims@[i] == c;
                    if i < before.len() {
                        assert(before.contains(c));
                    } else {
                        assert(now[k as int].contains(c));
                    }
                }
                if is_active(c, message@, now) {
                    let j = choose|j: int|
                        0 <= j < now.len() && occurs_in(now[j], message@)
                            && #[trigger] now[j].contains(c);
                    if j < k {
                        assert(before.contains(c));
                        let i = choose|i: int| 0 <= i < before.len() && before[i] == c;
                        assert(delims@[i] == c);
                    } else {
                        let i = choose|i: int| 0 <= i < candidate@.len() && candidate@[i] == c;
                        assert(delims@[before.len() + i] == c);
                    }
                }
            }
        }
        k += 1;
    }
    proof {
        assert(candidates.take(k as int) =~= candidates);
    }
    delims
}

/// The arguments of a command: the parts of its text between delimiters, read through a
/// cursor that moves forward and back.
#[derive(Debug)]
pub struct Args {
    message: String,
    args: Vec<Token>,
    offset: usize,
}

impl View for Args {
    type V = ArgsView;

    closed spec fn view(&self) -> ArgsView {
        ArgsView {
            text: self.message@,
            tokens: views(self.args@),
            cursor: self.offset as nat,
        }
    }
}

impl Clone for Args {
    fn clone(&self) -> (args: Args)
        ensures
            args@ == self@,
    {
        let mut tokens: Vec<Token> = Vec::with_capacity(self.args.len());
        let mut i: usize = 0;
        while i < self.args.len()
            invariant
                i <= self.args@.len(),
                tokens@ == self.args@.take(i as int),
            decreases self.args@.len() - i,
        {
            tokens.push(self.args[i].clone());
            i += 1;
        }
        proof {
            use_type_invariant(&*self);
            assert(self.args@.take(i as int) =~= self.args@);
        }
        Args { message: self.message.clone(), args: tokens, offset: self.offset }
    }
}

impl Args {
    /// What holds of every `Args`: see [`ArgsView::wf`].
    #[verifier::type_invariant]
    spec fn valid(self) -> bool {
        self@.wf()
    }

    /// Reads the arguments of `message`. Of `possible_delimiters`, those that stand in
    /// `message` count, and each of their characters separates arguments by itself.
    pub fn new(message: &str, possible_delimiters: &[String]) -> (args: Self)
        ensures
            args@.wf(),
            args@ == ArgsView::initial(
                message@,
                active_delimiters(message@, texts(possible_delimiters@)),
            ),
    {
        let delims = delimiters_of(message, possible_delimiters);
        let ghost set = delims@.to_set();
        let ghost text = message@;

        let mut lex = Lexer::new(message, delims.as_slice());

        let mut args: Vec<Token> = Vec::new();

        proof {
            assert(views(args@) + tokens_from(text, set, 0).filter(is_argument()) =~= arguments(
                text,
                set,
            ));
        }
        loop
            invariant_except_break
                lex.wf(),
                lex.text() == text,
                lex.delimiters() == set,
                views(args@) + tokens_from(text, set, lex.index()).filter(is_argument())
                    == arguments(text, set),
                forall|i: int|
                    0 <= i < args@.len() ==> (#[trigger] args@[i])@.end() <= byte_offset(
                        text,
                        lex.index(),
                    ),
            invariant
                forall|i: int| 0 <= i < args@.len() ==> held_in(#[trigger] args@[i]@, text),
                in_order(views(args@)),
            ensures
                views(args@) == arguments(text, set),
            decreases text.len() - lex.index(),
        {
            let ghost at = lex.index();
            let ghost before = views(args@);
            match lex.commit() {
                None => {
                    break;
                },
                Some(token) => {
                    proof {
                        let rest = tokens_from(text, set, end_at(text, set, at));
                        let one = seq![token@];
                        lemma_end_at(text, set, at);
                        lemma_token_at(text, set, at);
                        reveal_with_fuel(Seq::filter, 2);
                        if token.kind == TokenKind::Delimiter {
                            assert(before + (one.filter(is_argument()) + rest.filter(
                                is_argument(),
                            )) =~= before + rest.filter(is_argument()));
                        } else {
                            assert(before + (one + rest.filter(is_argument())) =~= before.push(
                                token@,
                            ) + rest.filter(is_argument()));
                        }
                    }
                    if token.kind == TokenKind::Delimiter {
                        continue;
                    }
                    args.push(token);
                    proof {
                        assert(views(args@) =~= before.push(token@));
                    }
                },
            }
        }

        Args { args, message: message.to_owned(), offset: 0 }
    }

    /// The number of arguments that are held. It changes only when [`Args::find`] takes one
    /// out.
    pub fn len(&self) -> (n: usize)
        ensures
            n == self@.tokens.len(),
            self@.wf(),
    {
        proof {
            use_type_invariant(&*self);
        }
        self.args.len()
    }

    /// Whether no argument is left to read.
    pub fn is_empty(&self) -> (b: bool)
        ensures
            b == self@.is_empty(),
            self@.wf(),
    {
        proof {
            use_type_invariant(&*self);
        }
        self.offset >= self.args.len()
    }

    /// The number of arguments that are left to read.
    pub fn remaining(&self) -> (n: usize)
        ensures
            n == self@.remaining(),
            self@.wf(),
    {
        if self.is_empty() {
            return 0;
        }
        self.len() - self.offset
    }

    /// Goes one step back; stays at the first argument.
    pub fn rewind(&mut self)
        ensures
            final(self)@ == old(self)@.rewind(),
            old(self)@.cursor == 0 ==> final(self)@ == old(self)@,
            final(self)@.wf(),
    {
        proof {
            use_type_invariant(&*self);
        }
        if self.offset == 0 {
            return;
        }
        self.offset -= 1;
    }

    /// Goes back to the first argument.
    pub fn restore(&mut self)
        ensures
            final(self)@ == old(self)@.restore(),
            final(self)@.wf(),
    {
        proof {
            use_type_invariant(&*self);
        }
        self.offset = 0;
    }

    /// Reads the argument under the cursor as a `T`, quotes and all, and steps forward if
    /// that gave a value.
    pub fn single<T: FromText>(&mut self) -> (r: Result<T, Error<T::Err>>)
        ensures
            final(self)@.wf(),
            result_view(r) == old(self)@.read::<T>(false),
            final(self)@ == old(self)@.after_read::<T>(false),
    {
        if self.is_empty() {
            return Err(Error::Eos);
        }
        let cur = &self.args[self.offset];

        match T::from_text(cur.lit.as_str()) {
            Ok(parsed) => {
                assert(self.offset < self.args.len());
                self.offset += 1;
                Ok(parsed)
            },
            Err(e) => Err(Error::from(e)),
        }
    }

    /// Like [`Args::single`], but stays where it is.
    pub fn single_n<T: FromText>(&self) -> (r: Result<T, Error<T::Err>>)
        ensures
            result_view(r) == self@.read::<T>(false),
    {
        if self.is_empty() {
            return Err(Error::Eos);
        }
        let cur = &self.args[self.offset];

        match T::from_text(cur.lit.as_str()) {
            Ok(parsed) => Ok(parsed),
            Err(e) => Err(Error::from(e)),
        }
    }

    /// Like [`Args::single`], but a quoted argument is read without its quotes.
    pub fn single_quoted<T: FromText>(&mut self) -> (r: Result<T, Error<T::Err>>)
        ensures
            final(self)@.wf(),
            result_view(r) == old(self)@.read::<T>(true),
            final(self)@ == old(self)@.after_read::<T>(true),
    {
        if self.is_empty() {
            return Err(Error::Eos);
        }
        let current = &self.args[self.offset];

        // Discard quotations if present
        let lit = quotes_extract(current);

        match T::from_text(lit) {
            Ok(parsed) => {
                assert(self.offset < self.args.len());
                self.offset += 1;
                Ok(parsed)
            },
            Err(e) => Err(Error::from(e)),
        }
    }

    /// Like [`Args::single_quoted`], but stays where it is.
    pub fn single_quoted_n<T: FromText>(&self) -> (r: Result<T, Error<T::Err>>)
        ensures
            result_view(r) == self@.read::<T>(true),
    {
        if self.is_empty() {
            return Err(Error::Eos);
        }
        let current = &self.args[self.offset];

        let lit = quotes_extract(current);

        match T::from_text(lit) {
            Ok(parsed) => Ok(parsed),
            Err(e) => Err(Error::from(e)),
        }
    }

    /// Steps over the argument under the cursor and hands out its text; nothing if no
    /// argument is left.
    pub fn skip(&mut self) -> (r: Option<String>)
        ensures
            final(self)@.wf(),
            match r {
                Some(s) => {
                    &&& !old(self)@.is_empty()
                    &&& s@ == old(self)@.current().lit
                    &&& final(self)@ == old(self)@.advance()
                },
                None => old(self)@.is_empty() && final(self)@ == old(self)@,
            },
    {
        if self.is_empty() {
            return None;
        }
        self.single::<String>().ok()
    }

    /// Steps over `i` arguments, one after the other, and hands out their texts. If fewer are
    /// left, it steps over those and hands out nothing.
    pub fn skip_for(&mut self, i: u32) -> (r: Option<Vec<String>>)
        ensures
            final(self)@.wf(),
            match r {
                Some(skipped) => {
                    &&& i <= old(self)@.remaining()
                    &&& final(self)@ == old(self)@.at(old(self)@.cursor + i as nat)
                    &&& skipped@.len() == i
                    &&& forall|k: int|
                        0 <= k < i ==> (#[trigger] skipped@[k])@ == old(self)@.tokens[old(
                            self,
                        )@.cursor + k].lit
                },
                None => {
                    &&& i > old(self)@.remaining()
                    &&& final(self)@ == old(self)@.at(old(self)@.tokens.len())
                },
            },
    {
        proof {
            use_type_invariant(&*self);
        }
        let ghost before = self@;
        let mut vec: Vec<String> = Vec::with_capacity(i as usize);

        let mut done: u32 = 0;
        while done < i
            invariant
                self@.wf(),
                before == old(self)@,
                before.wf(),
                done <= i,
                done <= before.remaining(),
                self@ == before.at(before.cursor + done as nat),
                vec@.len() == done,
                forall|k: int|
                    0 <= k < done ==> (#[trigger] vec@[k])@ == before.tokens[before.cursor + k].lit,
            decreases i - done,
        {
            match self.skip() {
                None => {
                    return None;
                },
                Some(s) => {
                    vec.push(s);
                },
            }
            done += 1;
        }
        Some(vec)
    }

    /// A reader of all the arguments that are left: see [`Iter`].
    pub fn iter<T: FromText>(&mut self) -> (iter: Iter<'_, T>)
        ensures
            *iter.args() == *old(self),
            *final(iter.args()) == *final(self),
    {
        Iter::new(self)
    }

    /// Like [`Args::iter`], but a quoted argument is read without its quotes.
    pub fn iter_quoted<T: FromText>(&mut self) -> (iter: IterQuoted<'_, T>)
        ensures
            *iter.args() == *old(self),
            *final(iter.args()) == *final(self),
    {
        IterQuoted::new(self)
    }

    /// Reads all the arguments that are left as `T`s, quotes and all. It fails at once if none
    /// is left, and at the first argument that is no `T`.
    pub fn multiple<T: FromText>(self) -> (r: Result<Vec<T>, Error<T::Err>>)
        ensures
            self@.is_empty() ==> r matches Err(Error::Eos),
            match r {
                Ok(values) => self@.read_all::<T>(false) == Ok::<
                    Seq<T::V>,
                    Error<<T::Err as View>::V>,
                >(views(values@)),
                Err(e) => self@.read_all::<T>(false) == Err::<
                    Seq<T::V>,
                    Error<<T::Err as View>::V>,
                >(e@),
            },
    {
        if self.is_empty() {
            return Err(Error::Eos);
        }
        let ghost before = self@;
        let ghost mut at = before.cursor as int;
        let mut args = self;
        let mut iter = args.iter::<T>();
        let mut values: Vec<T> = Vec::new();
        loop
            invariant
                before == self@,
                before.wf(),
                !before.is_empty(),
                iter.args()@.wf(),
                before.cursor <= at <= before.tokens.len(),
                iter.args()@ == before.at(at as nat),
                before.read_from::<T>(before.cursor as int, false) == joined(
                    views(values@),
                    before.read_from::<T>(at, false),
                ),
            decreases before.tokens.len() - at,
        {
            let ghost so_far = views(values@);
            match iter.next() {
                None => {
                    return Ok(values);
                },
                Some(Ok(value)) => {
                    values.push(value);
                    proof {
                        assert(views(values@) =~= so_far.push(value@));
                        let rest = before.read_from::<T>(at + 1, false);
                        if let Ok(others) = rest {
                            assert(so_far + (seq![value@] + others) =~= so_far.push(value@)
                                + others);
                        }
                        at = at + 1;
                    }
                },
                Some(Err(e)) => {
                    return Err(e);
                },
            }
        }
    }

    /// Like [`Args::multiple`], but a quoted argument is read without its quotes.
    pub fn multiple_quoted<T: FromText>(self) -> (r: Result<Vec<T>, Error<T::Err>>)
        ensures
            self@.is_empty() ==> r matches Err(Error::Eos),
            match r {
                Ok(values) => self@.read_all::<T>(true) == Ok::<
                    Seq<T::V>,
                    Error<<T::Err as View>::V>,
                >(views(values@)),
                Err(e) => self@.read_all::<T>(true) == Err::<
                    Seq<T::V>,
                    Error<<T::Err as View>::V>,
                >(e@),
            },
    {
        if self.is_empty() {
            return Err(Error::Eos);
        }
        let ghost before = self@;
        let ghost mut at = before.cursor as int;
        let mut args = self;
        let mut iter = args.iter_quoted::<T>();
        let mut values: Vec<T> = Vec::new();
        loop
            invariant
                before == self@,
                before.wf(),
                !before.is_empty(),
                iter.args()@.wf(),
                before.cursor <= at <= before.tokens.len(),
                iter.args()@ == before.at(at as nat),
                before.read_from::<T>(before.cursor as int, true) == joined(
                    views(values@),
                    before.read_from::<T>(at, true),
                ),
            decreases before.tokens.len() - at,
        {
            let ghost so_far = views(values@);
            match iter.next() {
                None => {
                    return Ok(values);
                },
                Some(Ok(value)) => {
                    values.push(value);
                    proof {
                        assert(views(values@) =~= so_far.push(value@));
                        let rest = before.read_from::<T>(at + 1, true);
                        if let Ok(others) = rest {
                            assert(so_far + (seq![value@] + others) =~= so_far.push(value@)
                                + others);
                        }
                        at = at + 1;
                    }
                },
                Some(Err(e)) => {
                    return Err(e);
                },
            }
        }
    }

    /// Searches all the arguments, from the first and whatever the cursor, for one whose text
    /// without quotes is a `T`. The first such argument is taken out for good, its value is
    /// handed out and the cursor goes back to the first argument. If there is none, nothing
    /// changes.
    pub fn find<T: FromText>(&mut self) -> (r: Result<T, Error<T::Err>>)
        ensures
            final(self)@.wf(),
            result_view(r) == old(self)@.find::<T>(),
            final(self)@ == old(self)@.after_find::<T>(),
    {
        proof {
            use_type_invariant(&*self);
        }
        let ghost before = self@;
        let mut pos: usize = 0;
        while pos < self.args.len()
            invariant
                self@.wf(),
                before == old(self)@,
                self@ == before,
                pos <= before.tokens.len(),
                before.first_accepted::<T>(0) == before.first_accepted::<T>(pos as int),
            decreases before.tokens.len() - pos,
        {
            match T::from_text(quotes_extract(&self.args[pos])) {
                Ok(parsed) => {
                    self.offset = 0;
                    let mut tokens: Vec<Token> = Vec::new();
                    std::mem::swap(&mut tokens, &mut self.args);
                    tokens.remove(pos);
                    proof {
                        assert(views(tokens@) =~= before.tokens.remove(pos as int));
                    }
                    self.args = tokens;
                    return Ok(parsed);
                },
                Err(_) => {},
            }
            pos += 1;
        }
        Err(Error::Eos)
    }

    /// Like [`Args::find`], but takes nothing out and leaves the cursor where it is.
    pub fn find_n<T: FromText>(&mut self) -> (r: Result<T, Error<T::Err>>)
        ensures
            final(self)@ == old(self)@,
            result_view(r) == old(self)@.find::<T>(),
    {
        proof {
            use_type_invariant(&*self);
        }
        let ghost before = self@;
        let mut pos: usize = 0;
        while pos < self.args.len()
            invariant
                self@.wf(),
                before == old(self)@,
                self@ == before,
                pos <= before.tokens.len(),
                before.first_accepted::<T>(0) == before.first_accepted::<T>(pos as int),
            decreases before.tokens.len() - pos,
        {
            match T::from_text(quotes_extract(&self.args[pos])) {
                Ok(parsed) => {
                    return Ok(parsed);
                },
                Err(_) => {},
            }
            pos += 1;
        }
        Err(Error::Eos)
    }

    /// The whole text that the arguments were made from.
    pub fn full(&self) -> (s: &str)
        ensures
            s@ == self@.text,
    {
        self.message.as_str()
    }

    /// The text from the argument under the cursor to its end, as it was written; empty when
    /// no argument is left.
    pub fn rest(&self) -> (s: &str)
        ensures
            s@ == self@.rest(),
            !self@.is_empty() ==> encode_utf8(s@) == encode_utf8(self@.text).skip(
                self@.current().pos as int,
            ),
    {
        if self.is_empty() {
            proof {
                reveal_strlit("");
            }
            return "";
        }
        let token = &self.args[self.offset];
        let message = self.message.as_str();
        proof {
            let text = self.message@;
            assert(held_in(self@.tokens[self.offset as int], text));
            lemma_boundary_is_offset(text, token.pos as int);
            lemma_index_of_offset(text, text.len() as int);
            lemma_offset_ends(text);
            encode_utf8_valid_utf8(text);
            is_char_boundary_start_end_of_seq(encode_utf8(text));
        }
        slice_between(message, token.pos, byte_len(message))
    }

    /// The text without a pair of quotes around it: what stands between the first character
    /// and the last double quote, if the text starts with a double quote and another one
    /// follows; else the whole text.
    pub fn full_quoted(&self) -> (s: &str)
        ensures
            s@ == self@.full_quoted(),
    {
        let s = self.message.as_str();

        if !starts_with_char(s, '"') {
            return s;
        }
        let end = match rfind_char(s, '"') {
            None => {
                return s;
            },
            Some(end) => end,
        };
        proof {
            let text = s@;
            let last = last_index_of(text, '"', text.len() as int);
            lemma_last_index_of(text, '"', text.len() as int);
            lemma_offset_step(text, 0);
            if last > 0 {
                lemma_offset_is_boundary(text, 1);
                lemma_offset_is_boundary(text, last);
                lemma_index_of_offset(text, 1);
                lemma_index_of_offset(text, last);
                lemma_slice(text, 1, last);
            }
        }
        // The quote that was found is the one at the start: none closes it.
        if end == 0 {
            return s;
        }
        slice_between(s, 1, end)
    }
}

} // verus!

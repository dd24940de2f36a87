//! PGN: tag pairs, movetext, fold.
//!
//! A PGN is a game written down — so importing one is the fold the crate
//! is built on: parse the movetext into SAN tokens, then fold them over
//! `Game::apply`. Comments (`{...}`, `;` to end of line), move numbers,
//! and NAGs (`$n`) are skipped. Variations (`(...)`) are rejected by the
//! flat path — a `Game` is a line — and read by [`import_study`], which
//! parses their nesting into a [`Study`]. The result marker, when
//! present, is checked against what the board actually says.

use vstd::prelude::*;
use vstd::string::StrSliceExecFns;

use crate::game::{apply_game_spec, game_result, new_game_spec, score_spec, Game, GameModel};
use crate::action::spec_text_action;
use crate::piece::Color;
use crate::position::start_model;
use crate::reduce::{Ending, Mode, Rejected, Rejection};
use crate::action::Action;
use crate::study::{graft_lines, Study, StudyModel};
use crate::text::{
    chars_equal, chars_of, find_char, index_of, is_space, is_space_exec, lines_of, push_all, push_str,
    slice_chars, spells, split_words, string_of, text_lines, trim, trim_chars, words,
};

verus! {

/// A tag's key and value, as text.
pub type TagModel = (Seq<char>, Seq<char>);

/// Whether `a` sorts strictly before `b`, character by character — the
/// order `String` keys have.
pub open spec fn key_before(a: Seq<char>, b: Seq<char>) -> bool
    decreases a.len(),
{
    if a.len() == 0 {
        b.len() > 0
    } else if b.len() == 0 {
        false
    } else if a[0] != b[0] {
        a[0] < b[0]
    } else {
        key_before(a.drop_first(), b.drop_first())
    }
}

/// How many leading entries of `tags` have keys sorting before `key`.
pub open spec fn insert_point(tags: Seq<TagModel>, key: Seq<char>) -> int
    decreases tags.len(),
{
    if tags.len() > 0 && key_before(tags[0].0, key) {
        1 + insert_point(tags.drop_first(), key)
    } else {
        0
    }
}

/// `tags` with `key` set to `value`: replaced where the key stands,
/// otherwise inserted where its order puts it.
pub open spec fn tags_insert(tags: Seq<TagModel>, key: Seq<char>, value: Seq<char>) -> Seq<TagModel> {
    let i = insert_point(tags, key);
    if i < tags.len() && tags[i].0 == key {
        tags.update(i, (key, value))
    } else {
        tags.insert(i, (key, value))
    }
}

/// The value of the first entry of `tags` whose key is `key`.
pub open spec fn tags_get(tags: Seq<TagModel>, key: Seq<char>) -> Option<Seq<char>>
    decreases tags.len(),
{
    if tags.len() == 0 {
        None
    } else if tags[0].0 == key {
        Some(tags[0].1)
    } else {
        tags_get(tags.drop_first(), key)
    }
}

/// Whether the keys of `tags` strictly increase: each key once, in order.
pub open spec fn keys_ordered(tags: Seq<TagModel>) -> bool {
    forall|i: int, j: int| 0 <= i < j < tags.len() ==> key_before(#[trigger] tags[i].0, #[trigger] tags[j].0)
}

/// No key sorts before itself.
pub(crate) proof fn lemma_key_irreflexive(a: Seq<char>)
    ensures
        !key_before(a, a),
    decreases a.len(),
{
    if a.len() > 0 {
        lemma_key_irreflexive(a.drop_first());
    }
}

/// Key order is transitive.
pub(crate) proof fn lemma_key_transitive(a: Seq<char>, b: Seq<char>, c: Seq<char>)
    requires
        key_before(a, b),
        key_before(b, c),
    ensures
        key_before(a, c),
    decreases a.len(),
{
    if a.len() > 0 && a[0] == b[0] && b[0] == c[0] {
        lemma_key_transitive(a.drop_first(), b.drop_first(), c.drop_first());
    }
}

/// Two different keys are ordered one way or the other.
pub(crate) proof fn lemma_key_total(a: Seq<char>, b: Seq<char>)
    requires
        a != b,
    ensures
        key_before(a, b) || key_before(b, a),
    decreases a.len(),
{
    if a.len() > 0 && b.len() > 0 && a[0] == b[0] {
        assert(a =~= seq![a[0]] + a.drop_first());
        assert(b =~= seq![b[0]] + b.drop_first());
        lemma_key_total(a.drop_first(), b.drop_first());
    } else if a.len() == 0 && b.len() == 0 {
        assert(a =~= b);
    }
}

/// In ordered tags, the insert point splits the keys before `key` from
/// the rest.
proof fn lemma_insert_point(tags: Seq<TagModel>, key: Seq<char>)
    requires
        keys_ordered(tags),
    ensures
        0 <= insert_point(tags, key) <= tags.len(),
        forall|j: int| 0 <= j < insert_point(tags, key) ==> key_before(#[trigger] tags[j].0, key),
        forall|j: int| insert_point(tags, key) <= j < tags.len() ==> !key_before(#[trigger] tags[j].0, key),
    decreases tags.len(),
{
    if tags.len() > 0 {
        let rest = tags.drop_first();
        assert(keys_ordered(rest)) by {
            assert forall|i: int, j: int| 0 <= i < j < rest.len() implies key_before(#[trigger] rest[i].0, #[trigger] rest[j].0) by {
                assert(rest[i] == tags[i + 1] && rest[j] == tags[j + 1]);
            }
        }
        lemma_insert_point(rest, key);
        if key_before(tags[0].0, key) {
            assert forall|j: int| 0 <= j < insert_point(tags, key) implies key_before(#[trigger] tags[j].0, key) by {
                if j > 0 {
                    assert(tags[j] == rest[j - 1]);
                }
            }
            assert forall|j: int| insert_point(tags, key) <= j < tags.len() implies !key_before(#[trigger] tags[j].0, key) by {
                assert(tags[j] == rest[j - 1]);
            }
        } else {
            assert forall|j: int| 0 <= j < tags.len() implies !key_before(#[trigger] tags[j].0, key) by {
                if j > 0 && key_before(tags[j].0, key) {
                    assert(key_before(tags[0].0, tags[j].0));
                    lemma_key_transitive(tags[0].0, tags[j].0, key);
                }
            }
        }
    }
}

/// The first entry with `key` is the one found.
proof fn lemma_get_at(tags: Seq<TagModel>, key: Seq<char>, i: int)
    requires
        0 <= i < tags.len(),
        tags[i].0 == key,
        forall|j: int| 0 <= j < i ==> (#[trigger] tags[j]).0 != key,
    ensures
        tags_get(tags, key) == Some(tags[i].1),
    decreases i,
{
    if i > 0 {
        let rest = tags.drop_first();
        assert(tags[0].0 != key);
        assert forall|j: int| 0 <= j < i - 1 implies (#[trigger] rest[j]).0 != key by {
            assert(rest[j] == tags[j + 1]);
        }
        lemma_get_at(rest, key, i - 1);
    }
}

/// An entry whose key is not `other` does not change what `other` finds,
/// inserted or put in place of another such entry.
proof fn lemma_get_other(tags: Seq<TagModel>, entry: TagModel, i: int, other: Seq<char>, replace: bool)
    requires
        entry.0 != other,
        0 <= i <= tags.len(),
        replace ==> i < tags.len() && tags[i].0 != other,
    ensures
        tags_get(if replace { tags.update(i, entry) } else { tags.insert(i, entry) }, other)
            == tags_get(tags, other),
    decreases i,
{
    let changed = if replace {
        tags.update(i, entry)
    } else {
        tags.insert(i, entry)
    };
    if i == 0 {
        if replace {
            assert(changed.drop_first() =~= tags.drop_first());
        } else {
            assert(changed.drop_first() =~= tags);
        }
    } else {
        let rest = tags.drop_first();
        assert(changed[0] == tags[0]);
        if tags[0].0 != other {
            lemma_get_other(rest, entry, i - 1, other, replace);
            if replace {
                assert(changed.drop_first() =~= rest.update(i - 1, entry));
            } else {
                assert(changed.drop_first() =~= rest.insert(i - 1, entry));
            }
        }
    }
}

/// Setting a tag keeps the keys in order, reads back as the value set,
/// and leaves every other key's value as it was.
pub proof fn lemma_tags_insert(tags: Seq<TagModel>, key: Seq<char>, value: Seq<char>)
    requires
        keys_ordered(tags),
    ensures
        keys_ordered(tags_insert(tags, key, value)),
        tags_get(tags_insert(tags, key, value), key) == Some(value),
        forall|other: Seq<char>|
            other != key ==> #[trigger] tags_get(tags_insert(tags, key, value), other) == tags_get(
                tags,
                other,
            ),
{
    lemma_insert_point(tags, key);
    let i = insert_point(tags, key);
    let out = tags_insert(tags, key, value);
    let replace = i < tags.len() && tags[i].0 == key;
    assert forall|j: int| 0 <= j < i implies (#[trigger] out[j]).0 != key by {
        assert(out[j] == tags[j]);
        lemma_key_irreflexive(key);
    }
    lemma_get_at(out, key, i);
    assert forall|other: Seq<char>| other != key implies #[trigger] tags_get(out, other) == tags_get(tags, other) by {
        lemma_get_other(tags, (key, value), i, other, replace);
    }
    if !replace {
        assert forall|a: int, b: int| 0 <= a < b < out.len() implies key_before(#[trigger] out[a].0, #[trigger] out[b].0) by {
            if a == i {
                let t = tags[b - 1].0;
                assert(out[b] == tags[b - 1]);
                if b - 1 > i {
                    assert(key_before(tags[i].0, t));
                    if t == key {
                        assert(key_before(tags[i].0, key));
                    }
                }
                assert(t != key);
                assert(!key_before(t, key));
                lemma_key_total(key, t);
            } else if b == i {
                assert(out[a] == tags[a]);
            } else if a < i && b > i {
                assert(out[a] == tags[a] && out[b] == tags[b - 1]);
            } else if a > i {
                assert(out[a] == tags[a - 1] && out[b] == tags[b - 1]);
            } else {
                assert(out[a] == tags[a] && out[b] == tags[b]);
            }
        }
    } else {
        assert forall|a: int, b: int| 0 <= a < b < out.len() implies key_before(#[trigger] out[a].0, #[trigger] out[b].0) by {
            assert(out[a].0 == tags[a].0 && out[b].0 == tags[b].0);
        }
    }
}

/// The tag pairs of a PGN header: each key once, iterated in key order.
#[derive(PartialEq, Eq, Debug)]
pub struct Tags {
    pairs: Vec<(String, String)>,
}

impl Tags {
    /// Each key once, in order.
    #[verifier::type_invariant]
    spec fn ordered(self) -> bool {
        keys_ordered(self@)
    }
}

impl Clone for Tags {
    fn clone(&self) -> (copy: Tags)
        ensures
            copy@ == self@,
    {
        proof {
            use_type_invariant(self);
        }
        let mut pairs: Vec<(String, String)> = Vec::new();
        let mut i: usize = 0;
        while i < self.pairs.len()
            invariant
                i <= self.pairs@.len(),
                pairs@.len() == i,
                forall|j: int| 0 <= j < i ==> pair_model(#[trigger] pairs@[j]) == pair_model(self.pairs@[j]),
            decreases self.pairs.len() - i,
        {
            let key = self.pairs[i].0.clone();
            let value = self.pairs[i].1.clone();
            pairs.push((key, value));
            i = i + 1;
        }
        assert(pairs@.map_values(|pair: (String, String)| pair_model(pair)) =~= self@);
        let copy = Tags { pairs };
        copy
    }
}

/// A tag pair's text.
pub open spec fn pair_model(pair: (String, String)) -> TagModel {
    (pair.0@, pair.1@)
}

impl View for Tags {
    type V = Seq<TagModel>;

    closed spec fn view(&self) -> Seq<TagModel> {
        self.pairs@.map_values(|pair: (String, String)| pair_model(pair))
    }
}

/// Whether `a` sorts strictly before `b`.
fn key_before_exec(a: &Vec<char>, b: &Vec<char>) -> (before: bool)
    ensures
        before == key_before(a@, b@),
{
    let mut i: usize = 0;
    assert(a@.subrange(0, a@.len() as int) =~= a@);
    assert(b@.subrange(0, b@.len() as int) =~= b@);
    while i < a.len() && i < b.len() && a[i] == b[i]
        invariant
            i <= a@.len(),
            i <= b@.len(),
            key_before(a@, b@) == key_before(
                a@.subrange(i as int, a@.len() as int),
                b@.subrange(i as int, b@.len() as int),
            ),
        decreases a.len() - i,
    {
        assert(a@.subrange(i as int, a@.len() as int).drop_first() =~= a@.subrange(
            i + 1,
            a@.len() as int,
        ));
        assert(b@.subrange(i as int, b@.len() as int).drop_first() =~= b@.subrange(
            i + 1,
            b@.len() as int,
        ));
        i = i + 1;
    }
    if i == a.len() {
        i < b.len()
    } else if i == b.len() {
        false
    } else {
        a[i] < b[i]
    }
}

impl Tags {
    /// No tags.
    pub fn new() -> (tags: Tags)
        ensures
            tags@ == Seq::<TagModel>::empty(),
    {
        let tags = Tags { pairs: Vec::new() };
        assert(tags@ =~= Seq::<TagModel>::empty());
        tags
    }

    /// Sets `key` to `value`, replacing a value the key already had.
    pub fn insert(&mut self, key: String, value: String)
        ensures
            final(self)@ == tags_insert(old(self)@, key@, value@),
            keys_ordered(final(self)@),
    {
        proof {
            use_type_invariant(&*self);
        }
        let ghost before = self@;
        let mut pairs: Vec<(String, String)> = Vec::new();
        std::mem::swap(&mut pairs, &mut self.pairs);
        assert(pairs@.map_values(|pair: (String, String)| pair_model(pair)) == before);
        let wanted = chars_of(key.as_str());
        let mut i: usize = 0;
        let mut found = false;
        assert(before.subrange(0, before.len() as int) =~= before);
        while i < pairs.len() && !found
            invariant
                i <= pairs@.len(),
                before == pairs@.map_values(|pair: (String, String)| pair_model(pair)),
                wanted@ == key@,
                found ==> i < before.len() && !key_before(before[i as int].0, key@),
                insert_point(before, key@) == i + insert_point(
                    before.subrange(i as int, before.len() as int),
                    key@,
                ),
            decreases pairs@.len() + 1 - i - (if found {
                1int
            } else {
                0int
            }),
        {
            let here = chars_of(pairs[i].0.as_str());
            assert(before[i as int] == pair_model(pairs@[i as int]));
            if key_before_exec(&here, &wanted) {
                assert(before.subrange(i as int, before.len() as int).drop_first() =~= before.subrange(
                    i + 1,
                    before.len() as int,
                ));
                i = i + 1;
            } else {
                found = true;
            }
        }
        proof {
            if i < before.len() {
                assert(before.subrange(i as int, before.len() as int)[0] == before[i as int]);
            }
        }
        assert(insert_point(before, key@) == i);
        let mut same = false;
        if i < pairs.len() {
            let here = chars_of(pairs[i].0.as_str());
            assert(before[i as int] == pair_model(pairs@[i as int]));
            same = chars_equal(&here, &wanted);
        }
        let ghost after = tags_insert(before, key@, value@);
        if same {
            pairs.set(i, (key, value));
            assert(pairs@.map_values(|pair: (String, String)| pair_model(pair)) =~= after);
        } else {
            pairs.insert(i, (key, value));
            assert(pairs@.map_values(|pair: (String, String)| pair_model(pair)) =~= after);
        }
        proof {
            lemma_tags_insert(before, key@, value@);
        }
        self.pairs = pairs;
    }

    /// The value of `key`, if it is set.
    pub fn get(&self, key: &str) -> (value: Option<&String>)
        ensures
            match value {
                Some(v) => tags_get(self@, key@) == Some(v@),
                None => tags_get(self@, key@) is None,
            },
    {
        let wanted = chars_of(key);
        let mut i: usize = 0;
        assert(self@.subrange(0, self@.len() as int) =~= self@);
        while i < self.pairs.len()
            invariant
                i <= self.pairs@.len(),
                wanted@ == key@,
                tags_get(self@, key@) == tags_get(self@.subrange(i as int, self@.len() as int), key@),
            decreases self.pairs.len() - i,
        {
            let here = chars_of(self.pairs[i].0.as_str());
            assert(self@.subrange(i as int, self@.len() as int)[0] == self@[i as int]);
            if chars_equal(&here, &wanted) {
                return Some(&self.pairs[i].1);
            }
            assert(self@.subrange(i as int, self@.len() as int).drop_first() =~= self@.subrange(
                i + 1,
                self@.len() as int,
            ));
            i = i + 1;
        }
        None
    }

    /// How many tags are set.
    pub fn len(&self) -> (count: usize)
        ensures
            count == self@.len(),
    {
        self.pairs.len()
    }

    /// The key and value of the `i`-th tag in key order.
    pub fn pair(&self, i: usize) -> (pair: (&String, &String))
        requires
            i < self@.len(),
        ensures
            (pair.0@, pair.1@) == self@[i as int],
    {
        (&self.pairs[i].0, &self.pairs[i].1)
    }
}


/// A tag line's key and value: `[Key "value"]`.
pub open spec fn tag_pair_spec(line: Seq<char>) -> Option<TagModel> {
    if line.len() >= 2 && line[0] == '[' && line.last() == ']' {
        let inner = line.subrange(1, line.len() - 1);
        match index_of(inner, ' ') {
            None => None,
            Some(space) => {
                let rest = trim(inner.subrange(space + 1, inner.len() as int));
                if rest.len() >= 2 && rest[0] == '"' && rest.last() == '"' {
                    Some((inner.subrange(0, space), rest.subrange(1, rest.len() - 1)))
                } else {
                    None
                }
            },
        }
    } else {
        None
    }
}

/// The header of the first `n` lines: tag lines lead (blank lines among
/// them skipped), and everything from the first other line on is movetext,
/// each line ending in `\n`. A malformed tag line is rejected.
pub open spec fn header_fold(lines: Seq<Seq<char>>, n: int) -> Result<(Seq<TagModel>, Seq<char>), Rejection>
    decreases n,
{
    if n <= 0 {
        Ok((Seq::<TagModel>::empty(), Seq::<char>::empty()))
    } else {
        match header_fold(lines, n - 1) {
            Err(e) => Err(e),
            Ok((tags, movetext)) => {
                let line = lines[n - 1];
                let t = trim(line);
                if movetext.len() == 0 && t.len() == 0 {
                    Ok((tags, movetext))
                } else if movetext.len() == 0 && t.len() > 0 && t[0] == '[' {
                    match tag_pair_spec(t) {
                        Some((key, value)) => Ok((tags_insert(tags, key, value), movetext)),
                        None => Err(Rejection::Unparseable(t)),
                    }
                } else {
                    Ok((tags, movetext + line.push('\n')))
                }
            },
        }
    }
}

/// The tag section and the movetext of a PGN text.
pub open spec fn split_tags_spec(text: Seq<char>) -> Result<(Seq<TagModel>, Seq<char>), Rejection> {
    header_fold(text_lines(text), text_lines(text).len() as int)
}

/// The text left of a PGN's movetext once comments are removed, with
/// whether the scan ends inside a `{...}` comment and inside a `;` comment.
/// Every newline becomes a space and ends a `;` comment; parentheses are
/// spaced so they read as words of their own.
pub open spec fn comment_scan(text: Seq<char>) -> (Seq<char>, bool, bool)
    decreases text.len(),
{
    if text.len() == 0 {
        (Seq::<char>::empty(), false, false)
    } else {
        let (out, brace, line) = comment_scan(text.drop_last());
        let c = text.last();
        if c == '\n' {
            (out.push(' '), brace, false)
        } else if line {
            (out, brace, line)
        } else if c == '{' && !brace {
            (out, true, line)
        } else if c == '}' && brace {
            (out, false, line)
        } else if brace {
            (out, brace, line)
        } else if c == ';' {
            (out, brace, true)
        } else if c == '(' || c == ')' {
            (out + seq![' ', c, ' '], brace, line)
        } else {
            (out.push(c), brace, line)
        }
    }
}

/// Movetext without its comments.
pub open spec fn strip_comments_spec(text: Seq<char>) -> Seq<char> {
    comment_scan(text).0
}

/// Whether `c` is an ASCII digit.
pub open spec fn is_digit(c: char) -> bool {
    '0' <= c <= '9'
}

/// How many leading characters of `text` are ASCII digits.
pub open spec fn leading_digits(text: Seq<char>) -> int
    decreases text.len(),
{
    if text.len() > 0 && is_digit(text[0]) {
        1 + leading_digits(text.drop_first())
    } else {
        0
    }
}

/// How many leading characters of `text` are dots.
pub open spec fn leading_dots(text: Seq<char>) -> int
    decreases text.len(),
{
    if text.len() > 0 && text[0] == '.' {
        1 + leading_dots(text.drop_first())
    } else {
        0
    }
}

/// A word without its move number: `1.e4` → `e4`, `1.` and `1...` → the
/// empty word. Digits without dots are notation (`0-0`), left whole.
pub open spec fn strip_move_number_spec(word: Seq<char>) -> Seq<char> {
    let digits = leading_digits(word);
    let rest = word.subrange(digits, word.len() as int);
    let dots = leading_dots(rest);
    if digits == 0 || dots == 0 {
        word
    } else {
        rest.subrange(dots, rest.len() as int)
    }
}

/// One token of movetext, as text.
pub enum TokenModel {
    San(Seq<char>),
    Open,
    Close,
    Marker(Seq<char>),
}

/// Whether `word` is a result marker: `1-0`, `0-1`, `1/2-1/2`, or `*`.
pub open spec fn is_marker(word: Seq<char>) -> bool {
    word == seq!['1', '-', '0'] || word == seq!['0', '-', '1'] || word == seq![
        '1',
        '/',
        '2',
        '-',
        '1',
        '/',
        '2',
    ] || word == seq!['*']
}

/// The token a word of movetext is, if any: parentheses, result markers,
/// NAGs (dropped), and move numbers (stripped; a bare number is dropped).
pub open spec fn token_of(word: Seq<char>) -> Option<TokenModel> {
    if word == seq!['('] {
        Some(TokenModel::Open)
    } else if word == seq![')'] {
        Some(TokenModel::Close)
    } else if is_marker(word) {
        Some(TokenModel::Marker(word))
    } else if word.len() > 0 && word[0] == '$' {
        None
    } else if strip_move_number_spec(word).len() == 0 {
        None
    } else {
        Some(TokenModel::San(strip_move_number_spec(word)))
    }
}

/// The tokens of the first `n` words.
pub open spec fn tokens_of(words: Seq<Seq<char>>, n: int) -> Seq<TokenModel>
    decreases n,
{
    if n <= 0 {
        Seq::<TokenModel>::empty()
    } else {
        match token_of(words[n - 1]) {
            Some(t) => tokens_of(words, n - 1).push(t),
            None => tokens_of(words, n - 1),
        }
    }
}

/// The lexer: movetext to tokens.
pub open spec fn lex_spec(movetext: Seq<char>) -> Seq<TokenModel> {
    let ws = words(strip_comments_spec(movetext));
    tokens_of(ws, ws.len() as int)
}

/// One token of movetext. Parentheses pass upward as structure for the
/// parser's one recursion.
enum Token {
    San(String),
    Open,
    Close,
    Marker(String),
}

impl View for Token {
    type V = TokenModel;

    closed spec fn view(&self) -> TokenModel {
        match self {
            Token::San(s) => TokenModel::San(s@),
            Token::Open => TokenModel::Open,
            Token::Close => TokenModel::Close,
            Token::Marker(s) => TokenModel::Marker(s@),
        }
    }
}

/// Tokens as text.
spec fn token_models(tokens: Seq<Token>) -> Seq<TokenModel> {
    tokens.map_values(|t: Token| t@)
}

/// A tag line's key and value.
fn tag_pair(line: &Vec<char>) -> (pair: Option<(String, String)>)
    ensures
        match pair {
            Some((key, value)) => tag_pair_spec(line@) == Some((key@, value@)),
            None => tag_pair_spec(line@) is None,
        },
{
    let n = line.len();
    if n < 2 || line[0] != '[' || line[n - 1] != ']' {
        return None;
    }
    let inner = slice_chars(line, 1, n - 1);
    match find_char(&inner, ' ') {
        None => None,
        Some(space) => {
            let after = slice_chars(&inner, space + 1, inner.len());
            let rest = trim_chars(&after);
            let m = rest.len();
            if m < 2 || rest[0] != '"' || rest[m - 1] != '"' {
                return None;
            }
            let key = slice_chars(&inner, 0, space);
            let value = slice_chars(&rest, 1, m - 1);
            Some((string_of(key), string_of(value)))
        },
    }
}

/// Once the header fails, it fails the same way on every longer prefix.
proof fn lemma_header_stuck(lines: Seq<Seq<char>>, n: int)
    requires
        0 <= n <= lines.len(),
        header_fold(lines, n) is Err,
    ensures
        header_fold(lines, lines.len() as int) == header_fold(lines, n),
    decreases lines.len() - n,
{
    if n < lines.len() {
        lemma_header_stuck(lines, n + 1);
    }
}

/// The tag section from the movetext: tag lines lead, everything after
/// the first non-tag line is movetext.
fn split_tags(text: &Vec<char>) -> (split: Result<(Tags, Vec<char>), Rejected>)
    ensures
        match split {
            Ok((tags, movetext)) => split_tags_spec(text@) == Ok::<
                (Seq<TagModel>, Seq<char>),
                Rejection,
            >((tags@, movetext@)),
            Err(e) => split_tags_spec(text@) == Err::<(Seq<TagModel>, Seq<char>), Rejection>(e@),
        },
{
    let lines = lines_of(text);
    let ghost ls = text_lines(text@);
    let mut tags = Tags::new();
    let mut movetext: Vec<char> = Vec::new();
    let mut i: usize = 0;
    while i < lines.len()
        invariant
            i <= lines@.len(),
            lines@.len() == ls.len(),
            ls == text_lines(text@),
            forall|j: int| 0 <= j < lines@.len() ==> #[trigger] lines@[j]@ == ls[j],
            header_fold(ls, i as int) == Ok::<(Seq<TagModel>, Seq<char>), Rejection>(
                (tags@, movetext@),
            ),
        decreases lines.len() - i,
    {
        let line = &lines[i];
        let trimmed = trim_chars(line);
        if movetext.len() == 0 && trimmed.len() == 0 {
        } else if movetext.len() == 0 && trimmed.len() > 0 && trimmed[0] == '[' {
            match tag_pair(&trimmed) {
                Some((key, value)) => tags.insert(key, value),
                None => {
                    proof {
                        lemma_header_stuck(ls, i as int + 1);
                    }
                    return Err(Rejected::Unparseable(string_of(trimmed)));
                },
            }
        } else {
            let ghost before = movetext@;
            push_all(&mut movetext, line);
            movetext.push('\n');
            assert(movetext@ =~= before + line@.push('\n'));
        }
        i = i + 1;
    }
    proof {
        assert(header_fold(ls, ls.len() as int) == header_fold(ls, i as int));
    }
    Ok((tags, movetext))
}


/// Movetext without its comments: `{...}` and `;` to the end of the line
/// dropped, newlines turned to spaces, parentheses spaced apart.
fn strip_comments(text: &Vec<char>) -> (out: Vec<char>)
    ensures
        out@ == strip_comments_spec(text@),
{
    let mut out: Vec<char> = Vec::new();
    let mut in_brace = false;
    let mut in_line = false;
    let mut i: usize = 0;
    while i < text.len()
        invariant
            i <= text@.len(),
            comment_scan(text@.take(i as int)) == (out@, in_brace, in_line),
        decreases text.len() - i,
    {
        assert(text@.take(i + 1).drop_last() =~= text@.take(i as int));
        let ghost before = out@;
        let c = text[i];
        if c == '\n' {
            in_line = false;
            out.push(' ');
        } else if in_line {
        } else if c == '{' && !in_brace {
            in_brace = true;
        } else if c == '}' && in_brace {
            in_brace = false;
        } else if in_brace {
        } else if c == ';' {
            in_line = true;
        } else if c == '(' || c == ')' {
            // Structural tokens for the parser, spaced so they lex
            // cleanly even glued to a move: "(3." or "Nf6)".
            out.push(' ');
            out.push(c);
            out.push(' ');
            assert(out@ =~= before + seq![' ', c, ' ']);
        } else {
            out.push(c);
        }
        i = i + 1;
    }
    assert(text@.take(text.len() as int) =~= text@);
    out
}

/// The word without its move number.
fn strip_move_number(word: &Vec<char>) -> (san: Vec<char>)
    ensures
        san@ == strip_move_number_spec(word@),
{
    let n = word.len();
    let mut digits: usize = 0;
    assert(word@.subrange(0, n as int) =~= word@);
    while digits < n && '0' <= word[digits] && word[digits] <= '9'
        invariant
            digits <= n,
            n == word@.len(),
            leading_digits(word@) == digits + leading_digits(word@.subrange(digits as int, n as int)),
        decreases n - digits,
    {
        assert(word@.subrange(digits as int, n as int).drop_first() =~= word@.subrange(
            digits + 1,
            n as int,
        ));
        digits = digits + 1;
    }
    let ghost rest = word@.subrange(digits as int, n as int);
    let mut dots: usize = digits;
    assert(rest.subrange(0, rest.len() as int) =~= rest);
    while dots < n && word[dots] == '.'
        invariant
            digits <= dots <= n,
            n == word@.len(),
            rest == word@.subrange(digits as int, n as int),
            leading_dots(rest) == (dots - digits) + leading_dots(
                rest.subrange(dots - digits, rest.len() as int),
            ),
        decreases n - dots,
    {
        assert(rest.subrange(dots - digits, rest.len() as int).drop_first() =~= rest.subrange(
            dots - digits + 1,
            rest.len() as int,
        ));
        dots = dots + 1;
    }
    if digits == 0 || dots == digits {
        slice_chars(word, 0, n)
    } else {
        assert(rest.subrange(dots - digits, rest.len() as int) =~= word@.subrange(
            dots as int,
            n as int,
        ));
        slice_chars(word, dots, n)
    }
}

/// Whether `word` is a result marker.
fn is_marker_exec(word: &Vec<char>) -> (marker: bool)
    ensures
        marker == is_marker(word@),
{
    let n = word.len();
    if n == 1 {
        if word[0] == '*' {
            assert(word@ =~= seq!['*']);
            return true;
        }
        return false;
    }
    if n == 3 {
        let win = word[0] == '1' && word[1] == '-' && word[2] == '0';
        let loss = word[0] == '0' && word[1] == '-' && word[2] == '1';
        if win {
            assert(word@ =~= seq!['1', '-', '0']);
        }
        if loss {
            assert(word@ =~= seq!['0', '-', '1']);
        }
        return win || loss;
    }
    if n == 7 {
        let draw = word[0] == '1' && word[1] == '/' && word[2] == '2' && word[3] == '-' && word[4]
            == '1' && word[5] == '/' && word[6] == '2';
        if draw {
            assert(word@ =~= seq!['1', '/', '2', '-', '1', '/', '2']);
        }
        return draw;
    }
    false
}

/// The token a word is, if any.
fn token_of_exec(word: &Vec<char>) -> (token: Option<Token>)
    ensures
        match token {
            Some(t) => token_of(word@) == Some(t@),
            None => token_of(word@) is None,
        },
{
    if word.len() == 1 && word[0] == '(' {
        assert(word@ =~= seq!['(']);
        return Some(Token::Open);
    }
    if word.len() == 1 && word[0] == ')' {
        assert(word@ =~= seq![')']);
        assert(word@ != seq!['(']);
        return Some(Token::Close);
    }
    assert(word@ != seq!['('] && word@ != seq![')']) by {
        if word@ == seq!['('] || word@ == seq![')'] {
            assert(word@.len() == 1);
        }
    }
    if is_marker_exec(word) {
        let marker = string_of(slice_chars(word, 0, word.len()));
        assert(word@.subrange(0, word@.len() as int) =~= word@);
        return Some(Token::Marker(marker));
    }
    if word.len() > 0 && word[0] == '$' {
        return None;
    }
    let san = strip_move_number(word);
    if san.len() == 0 {
        None
    } else {
        Some(Token::San(string_of(san)))
    }
}

/// The lexer: raw movetext to tokens.
fn lex(movetext: &Vec<char>) -> (tokens: Vec<Token>)
    ensures
        token_models(tokens@) == lex_spec(movetext@),
{
    let stripped = strip_comments(movetext);
    let ws = split_words(&stripped);
    let ghost all = words(stripped@);
    let mut tokens: Vec<Token> = Vec::new();
    let mut i: usize = 0;
    while i < ws.len()
        invariant
            i <= ws@.len(),
            all == words(stripped@),
            stripped@ == strip_comments_spec(movetext@),
            ws@.len() == all.len(),
            forall|j: int| 0 <= j < ws@.len() ==> #[trigger] ws@[j]@ == all[j],
            token_models(tokens@) == tokens_of(all, i as int),
        decreases ws.len() - i,
    {
        match token_of_exec(&ws[i]) {
            Some(t) => {
                tokens.push(t);
                assert(token_models(tokens@) =~= tokens_of(all, i as int + 1));
            },
            None => {},
        }
        i = i + 1;
    }
    tokens
}


/// A parsed PGN: its tag pairs, the SAN tokens of the movetext, and the
/// result marker if one was written.
#[derive(Clone, PartialEq, Eq, Debug)]
pub struct Pgn {
    pub tags: Tags,
    pub sans: Vec<String>,
    pub result: Option<String>,
}

/// A parsed PGN as text.
pub struct PgnModel {
    pub tags: Seq<TagModel>,
    pub sans: Seq<Seq<char>>,
    pub result: Option<Seq<char>>,
}

/// Optional text, viewed.
pub open spec fn opt_text(text: Option<String>) -> Option<Seq<char>> {
    match text {
        Some(s) => Some(s@),
        None => None,
    }
}

/// Strings, viewed.
pub open spec fn texts(strings: Seq<String>) -> Seq<Seq<char>> {
    strings.map_values(|s: String| s@)
}

impl View for Pgn {
    type V = PgnModel;

    open spec fn view(&self) -> PgnModel {
        PgnModel { tags: self.tags@, sans: texts(self.sans@), result: opt_text(self.result) }
    }
}

/// The flat reader's complaint about `(...)`.
pub open spec fn variations_text() -> Seq<char> {
    "variations (...) are not supported"@
}

/// Moves `prefix` in front of a parse's moves.
pub open spec fn prepend(
    prefix: Seq<Seq<char>>,
    parsed: Result<(Seq<Seq<char>>, Option<Seq<char>>), Rejection>,
) -> Result<(Seq<Seq<char>>, Option<Seq<char>>), Rejection> {
    match parsed {
        Ok((sans, marker)) => Ok((prefix + sans, marker)),
        Err(e) => Err(e),
    }
}

/// The flat reading of a token stream: SAN tokens up to the first result
/// marker; a parenthesis before it is rejected, since a game is a line.
pub open spec fn movetext_moves(tokens: Seq<TokenModel>) -> Result<(Seq<Seq<char>>, Option<Seq<char>>), Rejection>
    decreases tokens.len(),
{
    if tokens.len() == 0 {
        Ok((Seq::<Seq<char>>::empty(), None))
    } else {
        match tokens[0] {
            TokenModel::San(san) => prepend(seq![san], movetext_moves(tokens.drop_first())),
            TokenModel::Marker(marker) => Ok((Seq::<Seq<char>>::empty(), Some(marker))),
            _ => Err(Rejection::Unparseable(variations_text())),
        }
    }
}

/// What reading a PGN text yields: its tags, its SAN tokens, its result
/// marker — or why it cannot be read.
pub open spec fn parse_spec(text: Seq<char>) -> Result<PgnModel, Rejection> {
    match split_tags_spec(text) {
        Err(e) => Err(e),
        Ok((tags, movetext)) => match movetext_moves(lex_spec(movetext)) {
            Err(e) => Err(e),
            Ok((sans, result)) => Ok(PgnModel { tags, sans, result }),
        },
    }
}

/// A parse result, viewed.
pub open spec fn pgn_result(r: Result<Pgn, Rejected>) -> Result<PgnModel, Rejection> {
    match r {
        Ok(p) => Ok(p@),
        Err(e) => Err(e@),
    }
}

proof fn lemma_prepend_push(
    prefix: Seq<Seq<char>>,
    san: Seq<char>,
    rest: Result<(Seq<Seq<char>>, Option<Seq<char>>), Rejection>,
)
    ensures
        prepend(prefix, prepend(seq![san], rest)) == prepend(prefix.push(san), rest),
{
    match rest {
        Ok((sans, marker)) => {
            assert(prefix + (seq![san] + sans) =~= prefix.push(san) + sans);
        },
        Err(_) => {},
    }
}

/// Parse PGN text into tags and SAN tokens, without playing anything.
pub fn parse(text: &str) -> (pgn: Result<Pgn, Rejected>)
    ensures
        pgn_result(pgn) == parse_spec(text@),
{
    let chars = chars_of(text);
    let (tags, movetext) = match split_tags(&chars) {
        Ok(split) => split,
        Err(e) => {
            return Err(e);
        },
    };
    let tokens = lex(&movetext);
    let ghost toks = token_models(tokens@);
    let mut sans: Vec<String> = Vec::new();
    let mut i: usize = 0;
    assert(toks.subrange(0, toks.len() as int) =~= toks);
    assert(texts(sans@) =~= Seq::<Seq<char>>::empty());
    while i < tokens.len()
        invariant
            i <= tokens@.len(),
            toks == token_models(tokens@),
            toks == lex_spec(movetext@),
            split_tags_spec(text@) == Ok::<(Seq<TagModel>, Seq<char>), Rejection>(
                (tags@, movetext@),
            ),
            movetext_moves(toks) == prepend(
                texts(sans@),
                movetext_moves(toks.subrange(i as int, toks.len() as int)),
            ),
        decreases tokens.len() - i,
    {
        let ghost rest = toks.subrange(i as int, toks.len() as int);
        assert(rest[0] == toks[i as int]);
        assert(rest.drop_first() =~= toks.subrange(i + 1, toks.len() as int));
        match &tokens[i] {
            Token::San(san) => {
                proof {
                    lemma_prepend_push(texts(sans@), san@, movetext_moves(rest.drop_first()));
                }
                let ghost before = texts(sans@);
                sans.push(san.clone());
                assert(texts(sans@) =~= before.push(san@));
            },
            Token::Marker(marker) => {
                assert(texts(sans@) + Seq::<Seq<char>>::empty() =~= texts(sans@));
                return Ok(Pgn { tags, sans, result: Some(marker.clone()) });
            },
            _ => {
                // A Game is a line; the flat path cannot represent branches.
                return Err(Rejected::Unparseable("variations (...) are not supported".to_string()));
            },
        }
        i = i + 1;
    }
    assert(texts(sans@) + Seq::<Seq<char>>::empty() =~= texts(sans@));
    Ok(Pgn { tags, sans, result: None })
}


/// What the board attests the result to be, when it can: a mate for
/// either side, or a draw of any kind. A game still playing, or lost on
/// time, says nothing the board can see.
pub open spec fn board_result(mode: Mode) -> Option<Seq<char>> {
    match mode {
        Mode::Played(Ending::Checkmate { winner: Color::White }) => Some(seq!['1', '-', '0']),
        Mode::Played(Ending::Checkmate { winner: Color::Black }) => Some(seq!['0', '-', '1']),
        Mode::Played(Ending::Stalemate) => Some(seq!['1', '/', '2', '-', '1', '/', '2']),
        Mode::Played(Ending::Draw(_)) => Some(seq!['1', '/', '2', '-', '1', '/', '2']),
        _ => None,
    }
}

/// The complaint about a written result the board contradicts.
pub open spec fn contradiction(written: Seq<char>, expected: Seq<char>) -> Seq<char> {
    "result "@ + written + " contradicts the board, which says "@ + expected
}

/// A written result checked against the board: rejected exactly when the
/// board knows the result and it differs.
pub open spec fn verify_result_spec(mode: Mode, written: Seq<char>) -> Result<(), Rejection> {
    match board_result(mode) {
        Some(expected) => if written != expected {
            Err(Rejection::Unparseable(contradiction(written, expected)))
        } else {
            Ok(())
        },
        None => Ok(()),
    }
}

/// SAN texts folded over a game by `Game::apply`: the game after the last,
/// or the first rejection.
pub open spec fn fold_sans(game: GameModel, sans: Seq<Seq<char>>) -> Result<GameModel, Rejection>
    decreases sans.len(),
{
    if sans.len() == 0 {
        Ok(game)
    } else {
        match fold_sans(game, sans.drop_last()) {
            Err(e) => Err(e),
            Ok(before) => apply_game_spec(before, spec_text_action(sans.last(), before.history.last())),
        }
    }
}

/// Importing a PGN: its moves folded over a new game, and a written
/// result checked against the board.
pub open spec fn import_spec(text: Seq<char>) -> Result<GameModel, Rejection> {
    match parse_spec(text) {
        Err(e) => Err(e),
        Ok(pgn) => match fold_sans(new_game_spec(start_model()), pgn.sans) {
            Err(e) => Err(e),
            Ok(game) => match pgn.result {
                Some(written) => match verify_result_spec(game.mode, written) {
                    Err(e) => Err(e),
                    Ok(_) => Ok(game),
                },
                None => Ok(game),
            },
        },
    }
}

/// The board's result as characters, if it knows one.
fn board_result_exec(mode: Mode) -> (result: Option<Vec<char>>)
    ensures
        match result {
            Some(r) => board_result(mode) == Some(r@),
            None => board_result(mode) is None,
        },
{
    let text = match mode {
        Mode::Played(Ending::Checkmate { winner: Color::White }) => vec!['1', '-', '0'],
        Mode::Played(Ending::Checkmate { winner: Color::Black }) => vec!['0', '-', '1'],
        Mode::Played(Ending::Stalemate) | Mode::Played(Ending::Draw(_)) => vec![
            '1',
            '/',
            '2',
            '-',
            '1',
            '/',
            '2',
        ],
        _ => {
            return None;
        },
    };
    assert(board_result(mode) == Some(text@));
    Some(text)
}

/// The complaint about a contradicted result.
fn contradiction_exec(written: &Vec<char>, expected: &Vec<char>) -> (text: String)
    ensures
        text@ == contradiction(written@, expected@),
{
    let mut out: Vec<char> = Vec::new();
    push_str(&mut out, "result ");
    push_all(&mut out, written);
    push_str(&mut out, " contradicts the board, which says ");
    push_all(&mut out, expected);
    assert(out@ =~= contradiction(written@, expected@));
    string_of(out)
}

fn verify_result(mode: Mode, written: &Vec<char>) -> (checked: Result<(), Rejected>)
    ensures
        res_unit(checked) == verify_result_spec(mode, written@),
{
    match board_result_exec(mode) {
        Some(expected) => if !chars_equal(written, &expected) {
            Err(Rejected::Unparseable(contradiction_exec(written, &expected)))
        } else {
            Ok(())
        },
        None => Ok(()),
    }
}

/// A check's outcome, viewed.
pub open spec fn res_unit(r: Result<(), Rejected>) -> Result<(), Rejection> {
    match r {
        Ok(_) => Ok(()),
        Err(e) => Err(e@),
    }
}

/// Folds SAN texts over `game`.
fn play_sans(initial: Game, sans: &Vec<String>) -> (played: Result<Game, Rejected>)
    ensures
        game_result(played) == fold_sans(initial@, texts(sans@)),
{
    let ghost start = initial@;
    let mut game = initial;
    let mut i: usize = 0;
    assert(texts(sans@).take(0) =~= Seq::<Seq<char>>::empty());
    while i < sans.len()
        invariant
            i <= sans@.len(),
            start == initial@,
            fold_sans(start, texts(sans@).take(i as int)) == Ok::<GameModel, Rejection>(game@),
        decreases sans.len() - i,
    {
        assert(texts(sans@).take(i + 1).drop_last() =~= texts(sans@).take(i as int));
        assert(texts(sans@).take(i + 1).last() == sans@[i as int]@);
        match game.apply(sans[i].as_str()) {
            Ok(next) => {
                game = next;
            },
            Err(e) => {
                proof {
                    lemma_fold_stuck(start, texts(sans@), i as int + 1);
                }
                return Err(e);
            },
        }
        i = i + 1;
    }
    assert(texts(sans@).take(sans@.len() as int) =~= texts(sans@));
    Ok(game)
}

/// A fold that fails on a prefix fails the same way as a whole.
proof fn lemma_fold_stuck(start: GameModel, sans: Seq<Seq<char>>, n: int)
    requires
        0 <= n <= sans.len(),
        fold_sans(start, sans.take(n)) is Err,
    ensures
        fold_sans(start, sans) == fold_sans(start, sans.take(n)),
    decreases sans.len() - n,
{
    if n < sans.len() {
        assert(sans.take(n + 1).drop_last() =~= sans.take(n));
        lemma_fold_stuck(start, sans, n + 1);
    } else {
        assert(sans.take(n) =~= sans);
    }
}

/// Import a PGN as a played game: the movetext folded over `Game::apply`.
/// A result marker that contradicts what the board says is rejected;
/// markers the board cannot verify — resignations, agreed draws, flag
/// falls — are accepted as written. Of a multi-game file, only the first
/// game is read; use [`import_all`] or [`games`] for a whole database.
pub fn import(text: &str) -> (game: Result<Game, Rejected>)
    ensures
        game_result(game) == import_spec(text@),
{
    let pgn = match parse(text) {
        Ok(pgn) => pgn,
        Err(e) => {
            return Err(e);
        },
    };
    let game = match play_sans(Game::new(), &pgn.sans) {
        Ok(game) => game,
        Err(e) => {
            return Err(e);
        },
    };
    match &pgn.result {
        Some(written) => {
            let chars = chars_of(written.as_str());
            match verify_result(game.mode(), &chars) {
                Ok(_) => Ok(game),
                Err(e) => Err(e),
            }
        },
        None => Ok(game),
    }
}


/// Lines of SAN texts, viewed.
pub open spec fn line_texts(lines: Seq<Vec<String>>) -> Seq<Seq<Seq<char>>> {
    lines.map_values(|line: Vec<String>| texts(line@))
}

/// The parser's one recursion, from token `cursor` on, with the current
/// line so far and the variations read so far: at each `(`, read the
/// alternatives to the move just played (their prefix is the line
/// without that move), returning at `)`. A sequence yields its own
/// complete line first, then its variations' lines in textual order; with
/// them the cursor after it and, at the top level, the result marker.
pub open spec fn sequence_spec(
    tokens: Seq<TokenModel>,
    cursor: int,
    line: Seq<Seq<char>>,
    variations: Seq<Seq<Seq<char>>>,
    nested: bool,
) -> Result<(Seq<Seq<Seq<char>>>, int, Option<Seq<char>>), Rejection>
    decreases tokens.len() - cursor,
{
    if cursor >= tokens.len() || cursor < 0 {
        if nested {
            Err(Rejection::Unparseable("unclosed variation"@))
        } else {
            Ok((seq![line] + variations, cursor, None))
        }
    } else {
        match tokens[cursor] {
            TokenModel::San(san) => sequence_spec(tokens, cursor + 1, line.push(san), variations, nested),
            TokenModel::Open => if line.len() == 0 {
                Err(Rejection::Unparseable("a variation before any move"@))
            } else {
                match sequence_spec(tokens, cursor + 1, line.drop_last(), Seq::empty(), true) {
                    Err(e) => Err(e),
                    Ok((inner, after, _)) => if cursor < after <= tokens.len() {
                        sequence_spec(tokens, after, line, variations + inner, nested)
                    } else {
                        Err(Rejection::Unparseable("unclosed variation"@))
                    },
                }
            },
            TokenModel::Close => if !nested {
                Err(Rejection::Unparseable("unmatched )"@))
            } else {
                Ok((seq![line] + variations, cursor + 1, None))
            },
            TokenModel::Marker(marker) => if nested {
                Err(Rejection::Unparseable("a result inside a variation"@))
            } else {
                Ok((seq![line] + variations, cursor + 1, Some(marker)))
            },
        }
    }
}

/// A nested sequence that succeeds ends after its `)`; any sequence ends
/// within the tokens.
proof fn lemma_sequence_advances(
    tokens: Seq<TokenModel>,
    cursor: int,
    line: Seq<Seq<char>>,
    variations: Seq<Seq<Seq<char>>>,
    nested: bool,
)
    requires
        0 <= cursor <= tokens.len(),
    ensures
        sequence_spec(tokens, cursor, line, variations, nested) matches Ok((_, after, _)) ==> cursor
            <= after <= tokens.len() && (nested ==> cursor < after),
    decreases tokens.len() - cursor,
{
    if cursor < tokens.len() {
        match tokens[cursor] {
            TokenModel::San(san) => {
                lemma_sequence_advances(tokens, cursor + 1, line.push(san), variations, nested);
            },
            TokenModel::Open => {
                if line.len() > 0 {
                    lemma_sequence_advances(tokens, cursor + 1, line.drop_last(), Seq::empty(), true);
                    match sequence_spec(tokens, cursor + 1, line.drop_last(), Seq::empty(), true) {
                        Ok((inner, after, _)) => {
                            if cursor < after <= tokens.len() {
                                lemma_sequence_advances(tokens, after, line, variations + inner, nested);
                            }
                        },
                        Err(_) => {},
                    }
                }
            },
            _ => {},
        }
    }
}

/// A copy of `line` without its last entry.
fn without_last(line: &Vec<String>) -> (base: Vec<String>)
    requires
        line@.len() > 0,
    ensures
        texts(base@) == texts(line@).drop_last(),
{
    let mut base: Vec<String> = Vec::new();
    let mut i: usize = 0;
    let n = line.len() - 1;
    assert(texts(line@).take(0) =~= Seq::<Seq<char>>::empty());
    while i < n
        invariant
            i <= n,
            n + 1 == line@.len(),
            texts(base@) == texts(line@).take(i as int),
        decreases n - i,
    {
        let ghost before = texts(base@);
        let entry = line[i].clone();
        assert(entry@ == line@[i as int]@);
        base.push(entry);
        assert(texts(base@) =~= before.push(line@[i as int]@));
        assert(texts(base@) =~= texts(line@).take(i + 1));
        i = i + 1;
    }
    assert(texts(line@).take(i as int) =~= texts(line@).drop_last());
    base
}

/// The lines a sequence yields: its own line, then its variations'.
fn lines_with(line: Vec<String>, variations: Vec<Vec<String>>) -> (lines: Vec<Vec<String>>)
    ensures
        line_texts(lines@) == seq![texts(line@)] + line_texts(variations@),
{
    let mut lines = vec![line];
    let mut rest = variations;
    let ghost all = line_texts(rest@);
    proof {
        assert(line_texts(lines@) =~= seq![texts(line@)]);
    }
    let ghost head = line_texts(lines@);
    lines.append(&mut rest);
    assert(line_texts(lines@) =~= head + all);
    lines
}

/// The parser's one recursion (see [`sequence_spec`]).
fn sequence(tokens: &Vec<Token>, start: usize, prefix: Vec<String>, nested: bool) -> (read: Result<
    (Vec<Vec<String>>, usize, Option<String>),
    Rejected,
>)
    requires
        start <= tokens@.len(),
    ensures
        match read {
            Ok((lines, after, result)) => sequence_spec(
                token_models(tokens@),
                start as int,
                texts(prefix@),
                Seq::empty(),
                nested,
            ) == Ok::<(Seq<Seq<Seq<char>>>, int, Option<Seq<char>>), Rejection>(
                (line_texts(lines@), after as int, opt_text(result)),
            ),
            Err(e) => sequence_spec(
                token_models(tokens@),
                start as int,
                texts(prefix@),
                Seq::empty(),
                nested,
            ) == Err::<(Seq<Seq<Seq<char>>>, int, Option<Seq<char>>), Rejection>(e@),
        },
    decreases tokens@.len() - start,
{
    let ghost toks = token_models(tokens@);
    let ghost goal = sequence_spec(toks, start as int, texts(prefix@), Seq::empty(), nested);
    let mut line = prefix;
    let mut variations: Vec<Vec<String>> = Vec::new();
    let mut cursor = start;
    assert(line_texts(variations@) =~= Seq::<Seq<Seq<char>>>::empty());
    loop
        invariant
            start <= cursor <= tokens@.len(),
            toks == token_models(tokens@),
            goal == sequence_spec(toks, start as int, texts(prefix@), Seq::empty(), nested),
            goal == sequence_spec(toks, cursor as int, texts(line@), line_texts(variations@), nested),
        decreases tokens@.len() - cursor,
    {
        if cursor >= tokens.len() {
            if nested {
                return Err(Rejected::Unparseable("unclosed variation".to_string()));
            }
            return Ok((lines_with(line, variations), cursor, None));
        }
        assert(toks[cursor as int] == tokens@[cursor as int]@);
        match &tokens[cursor] {
            Token::San(san) => {
                let ghost before = texts(line@);
                line.push(san.clone());
                assert(texts(line@) =~= before.push(san@));
                cursor = cursor + 1;
            },
            Token::Open => {
                if line.len() == 0 {
                    return Err(Rejected::Unparseable("a variation before any move".to_string()));
                }
                let base = without_last(&line);
                proof {
                    lemma_sequence_advances(toks, cursor + 1, texts(base@), Seq::empty(), true);
                }
                match sequence(tokens, cursor + 1, base, true) {
                    Err(e) => {
                        return Err(e);
                    },
                    Ok((inner, after, _)) => {
                        let ghost before = line_texts(variations@);
                        let ghost read = line_texts(inner@);
                        let mut inner = inner;
                        variations.append(&mut inner);
                        assert(line_texts(variations@) =~= before + read);
                        cursor = after;
                    },
                }
            },
            Token::Close => {
                if !nested {
                    return Err(Rejected::Unparseable("unmatched )".to_string()));
                }
                return Ok((lines_with(line, variations), cursor + 1, None));
            },
            Token::Marker(marker) => {
                if nested {
                    return Err(Rejected::Unparseable("a result inside a variation".to_string()));
                }
                return Ok((lines_with(line, variations), cursor + 1, Some(marker.clone())));
            },
        }
    }
}


/// The study the first `n` lines fold into — each line played from the
/// standard start and grafted in order — with the mainline's mode.
pub open spec fn study_fold(lines: Seq<Seq<Seq<char>>>, n: int) -> Result<(StudyModel, Option<Mode>), Rejection>
    decreases n,
{
    if n <= 0 {
        Ok((StudyModel { start: start_model(), lines: seq![Seq::<Action>::empty()] }, None))
    } else {
        match study_fold(lines, n - 1) {
            Err(e) => Err(e),
            Ok((study, mainline)) => match fold_sans(new_game_spec(start_model()), lines[n - 1]) {
                Err(e) => Err(e),
                Ok(game) => Ok(
                    (
                        StudyModel { start: study.start, lines: graft_lines(study.lines, game.log) },
                        if mainline is None {
                            Some(game.mode)
                        } else {
                            mainline
                        },
                    ),
                ),
            },
        }
    }
}

/// Importing a PGN with variations: every line the movetext holds, played
/// from the standard start and grafted mainline first; a written result
/// is checked against the mainline's board.
pub open spec fn import_study_spec(text: Seq<char>) -> Result<StudyModel, Rejection> {
    match split_tags_spec(text) {
        Err(e) => Err(e),
        Ok((_, movetext)) => match sequence_spec(lex_spec(movetext), 0, Seq::empty(), Seq::empty(), false) {
            Err(e) => Err(e),
            Ok((lines, _, result)) => finish_study(study_fold(lines, lines.len() as int), result),
        },
    }
}

/// A folded study checked against the written result.
pub open spec fn finish_study(
    folded: Result<(StudyModel, Option<Mode>), Rejection>,
    result: Option<Seq<char>>,
) -> Result<StudyModel, Rejection> {
    match folded {
        Err(e) => Err(e),
        Ok((study, mainline)) => match (mainline, result) {
            (Some(mode), Some(written)) => match verify_result_spec(mode, written) {
                Err(e) => Err(e),
                Ok(_) => Ok(study),
            },
            _ => Ok(study),
        },
    }
}

/// A study result, viewed.
pub open spec fn study_result(r: Result<Study, Rejected>) -> Result<StudyModel, Rejection> {
    match r {
        Ok(s) => Ok(s@),
        Err(e) => Err(e@),
    }
}

/// Folding moves over a game keeps its start.
proof fn lemma_fold_keeps_start(game: GameModel, sans: Seq<Seq<char>>)
    ensures
        fold_sans(game, sans) matches Ok(g) ==> g.start == game.start,
    decreases sans.len(),
{
    if sans.len() > 0 {
        lemma_fold_keeps_start(game, sans.drop_last());
    }
}

/// Once the fold of lines fails, it fails the same way for all lines.
proof fn lemma_study_stuck(lines: Seq<Seq<Seq<char>>>, n: int)
    requires
        0 <= n <= lines.len(),
        study_fold(lines, n) is Err,
    ensures
        study_fold(lines, lines.len() as int) == study_fold(lines, n),
    decreases lines.len() - n,
{
    if n < lines.len() {
        lemma_study_stuck(lines, n + 1);
    }
}

/// Import a PGN *with variations* as a [`Study`]. A `(...)` follows a move
/// and holds alternatives to it, nested to any depth, so each variation's
/// line is the prefix before the varied move plus its own moves — every
/// line folded into a `Game` and grafted, mainline first. The result
/// marker, when present, is checked against the mainline's board.
pub fn import_study(text: &str) -> (study: Result<Study, Rejected>)
    ensures
        study_result(study) == import_study_spec(text@),
{
    let chars = chars_of(text);
    let movetext = match split_tags(&chars) {
        Ok((_, movetext)) => movetext,
        Err(e) => {
            return Err(e);
        },
    };
    let tokens = lex(&movetext);
    let empty: Vec<String> = Vec::new();
    assert(texts(empty@) =~= Seq::<Seq<char>>::empty());
    let (lines, _, result) = match sequence(&tokens, 0, empty, false) {
        Ok(read) => read,
        Err(e) => {
            return Err(e);
        },
    };
    let ghost all = line_texts(lines@);
    let mut study = Study::new();
    let mut mainline: Option<Mode> = None;
    let mut i: usize = 0;
    while i < lines.len()
        invariant
            i <= lines@.len(),
            all == line_texts(lines@),
            import_study_spec(text@) == finish_study(
                study_fold(all, all.len() as int),
                opt_text(result),
            ),
            study_fold(all, i as int) == Ok::<(StudyModel, Option<Mode>), Rejection>(
                (study@, mainline),
            ),
            study@.start == start_model(),
        decreases lines.len() - i,
    {
        assert(all[i as int] == texts(lines@[i as int]@));
        let game = match play_sans(Game::new(), &lines[i]) {
            Ok(game) => game,
            Err(e) => {
                proof {
                    lemma_study_stuck(all, i + 1);
                }
                return Err(e);
            },
        };
        proof {
            lemma_fold_keeps_start(new_game_spec(start_model()), all[i as int]);
        }
        if mainline.is_none() {
            mainline = Some(game.mode());
        }
        study = study.with(game);
        i = i + 1;
    }
    match (mainline, &result) {
        (Some(mode), Some(written)) => {
            let chars = chars_of(written.as_str());
            match verify_result(mode, &chars) {
                Ok(_) => Ok(study),
                Err(e) => Err(e),
            }
        },
        _ => Ok(study),
    }
}


/// One line of a database read: a tag line after movetext starts the
/// next game at the line's offset `at`; any other non-blank line is
/// movetext.
pub open spec fn line_step(starts: Seq<int>, seen: bool, at: int, trimmed: Seq<char>) -> (Seq<int>, bool) {
    let tag = trimmed.len() > 0 && trimmed[0] == '[';
    if tag && seen {
        (starts.push(at), false)
    } else if !tag && trimmed.len() > 0 {
        (starts, true)
    } else {
        (starts, seen)
    }
}

/// The scan of a database's first `n` characters: where games start, whether
/// movetext has been seen since the last start, and where the current
/// line begins. Lines end at (and include) each `\n`.
pub open spec fn db_scan(text: Seq<char>, n: int) -> (Seq<int>, bool, int)
    decreases n,
{
    if n <= 0 {
        (seq![0int], false, 0)
    } else {
        let (starts, seen, at) = db_scan(text, n - 1);
        if text[n - 1] == '\n' {
            let (starts2, seen2) = line_step(starts, seen, at, trim(text.subrange(at, n)));
            (starts2, seen2, n)
        } else {
            (starts, seen, at)
        }
    }
}

/// Where the games of a database begin: the start of the text, and every
/// tag line that follows movetext.
pub open spec fn game_starts(text: Seq<char>) -> Seq<int> {
    let (starts, seen, at) = db_scan(text, text.len() as int);
    if at < text.len() {
        line_step(starts, seen, at, trim(text.subrange(at, text.len() as int))).0
    } else {
        starts
    }
}

/// The `k`-th game's text: from its start to the next, trimmed.
pub open spec fn chunk(text: Seq<char>, starts: Seq<int>, k: int) -> Seq<char> {
    let end = if k + 1 < starts.len() {
        starts[k + 1]
    } else {
        text.len() as int
    };
    trim(text.subrange(starts[k], end))
}

/// The non-empty chunks among the first `n`.
pub open spec fn chunks_upto(text: Seq<char>, starts: Seq<int>, n: int) -> Seq<Seq<char>>
    decreases n,
{
    if n <= 0 {
        Seq::<Seq<char>>::empty()
    } else if chunk(text, starts, n - 1).len() > 0 {
        chunks_upto(text, starts, n - 1).push(chunk(text, starts, n - 1))
    } else {
        chunks_upto(text, starts, n - 1)
    }
}

/// The games of a database, as text: split where a tag line follows
/// movetext, each trimmed, empty ones dropped.
pub open spec fn games_spec(text: Seq<char>) -> Seq<Seq<char>> {
    let starts = game_starts(text);
    chunks_upto(text, starts, starts.len() as int)
}

/// Starts that begin at zero and increase, all at most `bound`.
pub open spec fn ordered_starts(starts: Seq<int>, bound: int) -> bool {
    &&& starts.len() >= 1
    &&& starts[0] == 0
    &&& forall|i: int, j: int| 0 <= i < j < starts.len() ==> starts[i] < starts[j]
    &&& forall|i: int| 0 <= i < starts.len() ==> 0 <= #[trigger] starts[i] <= bound
}

/// The range of `chars[start..end]` that trimming keeps.
fn trim_range(chars: &Vec<char>, start: usize, end: usize) -> (range: (usize, usize))
    requires
        start <= end <= chars@.len(),
    ensures
        start <= range.0 <= range.1 <= end,
        trim(chars@.subrange(start as int, end as int)) == chars@.subrange(
            range.0 as int,
            range.1 as int,
        ),
{
    let ghost part = chars@.subrange(start as int, end as int);
    // Trimming keeps a contiguous run; find it by scanning from each end.
    let mut a = start;
    assert(chars@.subrange(start as int, end as int) =~= part);
    while a < end && is_space_exec(chars[a])
        invariant
            start <= a <= end,
            end <= chars@.len(),
            part == chars@.subrange(start as int, end as int),
            crate::text::trim_start(part) == crate::text::trim_start(
                chars@.subrange(a as int, end as int),
            ),
        decreases end - a,
    {
        assert(chars@.subrange(a as int, end as int).drop_first() =~= chars@.subrange(
            a + 1,
            end as int,
        ));
        a = a + 1;
    }
    assert(crate::text::trim_start(chars@.subrange(a as int, end as int)) == chars@.subrange(
        a as int,
        end as int,
    ));
    let mut b = end;
    while b > a && is_space_exec(chars[b - 1])
        invariant
            start <= a <= b <= end,
            end <= chars@.len(),
            crate::text::trim_end(chars@.subrange(a as int, end as int)) == crate::text::trim_end(
                chars@.subrange(a as int, b as int),
            ),
        decreases b,
    {
        assert(chars@.subrange(a as int, b as int).drop_last() =~= chars@.subrange(
            a as int,
            b - 1,
        ));
        b = b - 1;
    }
    (a, b)
}


/// The line step, on the offsets found so far.
fn line_step_exec(starts: &mut Vec<usize>, seen: &mut bool, at: usize, trimmed: &Vec<char>)
    ensures
        (final(starts)@.map_values(|s: usize| s as int), *final(seen)) == line_step(
            old(starts)@.map_values(|s: usize| s as int),
            *old(seen),
            at as int,
            trimmed@,
        ),
{
    let tag = trimmed.len() > 0 && trimmed[0] == '[';
    if tag && *seen {
        let ghost before = starts@.map_values(|s: usize| s as int);
        starts.push(at);
        assert(starts@.map_values(|s: usize| s as int) =~= before.push(at as int));
        *seen = false;
    } else if !tag && trimmed.len() > 0 {
        *seen = true;
    }
}

/// A line step keeps the starts increasing.
proof fn lemma_step_ordered(starts: Seq<int>, seen: bool, at: int, trimmed: Seq<char>)
    requires
        ordered_starts(starts, at),
        seen ==> starts.last() < at,
    ensures
        ordered_starts(line_step(starts, seen, at, trimmed).0, at),
        line_step(starts, seen, at, trimmed).1 ==> line_step(starts, seen, at, trimmed).0.last()
            <= at,
{
    let now = line_step(starts, seen, at, trimmed).0;
    if now.len() > starts.len() {
        assert forall|p: int, q: int| 0 <= p < q < now.len() implies now[p] < now[q] by {
            if q == starts.len() {
                if p < starts.len() - 1 {
                    assert(starts[p] < starts[starts.len() - 1]);
                }
            }
        }
    }
}

/// Offsets, as integers.
pub open spec fn offsets(starts: Seq<usize>) -> Seq<int> {
    starts.map_values(|s: usize| s as int)
}

/// Split a PGN database into its games — contiguous slices, no copying.
/// A new game begins at a tag line that follows movetext, the standard
/// boundary. Pair it with [`import`] for the lenient path over a corpus.
pub fn games(text: &str) -> (found: Vec<&str>)
    ensures
        found@.len() == games_spec(text@).len(),
        forall|i: int| 0 <= i < found@.len() ==> #[trigger] found@[i]@ == games_spec(text@)[i],
{
    let chars = chars_of(text);
    let n = chars.len();
    let mut starts: Vec<usize> = vec![0];
    let mut seen = false;
    let mut at: usize = 0;
    let mut i: usize = 0;
    assert(offsets(starts@) =~= seq![0int]);
    while i < n
        invariant
            i <= n,
            n == chars@.len(),
            chars@ == text@,
            at <= i,
            db_scan(chars@, i as int) == (offsets(starts@), seen, at as int),
            ordered_starts(offsets(starts@), at as int),
            seen ==> offsets(starts@).last() < at,
        decreases n - i,
    {
        if chars[i] == '\n' {
            let line = slice_chars(&chars, at, i + 1);
            let trimmed = trim_chars(&line);
            proof {
                lemma_step_ordered(offsets(starts@), seen, at as int, trimmed@);
            }
            line_step_exec(&mut starts, &mut seen, at, &trimmed);
            at = i + 1;
        }
        i = i + 1;
    }
    if at < n {
        let line = slice_chars(&chars, at, n);
        let trimmed = trim_chars(&line);
        proof {
            lemma_step_ordered(offsets(starts@), seen, at as int, trimmed@);
        }
        line_step_exec(&mut starts, &mut seen, at, &trimmed);
    }
    let ghost all = offsets(starts@);
    assert(all == game_starts(chars@));
    let mut found: Vec<&str> = Vec::new();
    let mut k: usize = 0;
    while k < starts.len()
        invariant
            k <= starts@.len(),
            all == offsets(starts@),
            all == game_starts(text@),
            chars@ == text@,
            ordered_starts(all, n as int),
            n == chars@.len(),
            found@.len() == chunks_upto(text@, all, k as int).len(),
            forall|j: int| 0 <= j < found@.len() ==> #[trigger] found@[j]@ == chunks_upto(text@, all, k as int)[j],
        decreases starts.len() - k,
    {
        let start = starts[k];
        assert(all[k as int] == start as int);
        let end = if k + 1 < starts.len() {
            assert(all[k + 1] == starts@[k + 1] as int);
            starts[k + 1]
        } else {
            n
        };
        assert(start <= end);
        let (a, b) = trim_range(&chars, start, end);
        if a < b {
            found.push(text.substring_char(a, b));
        }
        k = k + 1;
    }
    found
}


/// Importing each of `texts`, in order, up to the first rejection.
pub open spec fn import_each(texts: Seq<Seq<char>>, n: int) -> Result<Seq<GameModel>, Rejection>
    decreases n,
{
    if n <= 0 {
        Ok(Seq::<GameModel>::empty())
    } else {
        match import_each(texts, n - 1) {
            Err(e) => Err(e),
            Ok(games) => match import_spec(texts[n - 1]) {
                Err(e) => Err(e),
                Ok(game) => Ok(games.push(game)),
            },
        }
    }
}

/// Games, viewed.
pub open spec fn games_result(r: Result<Vec<Game>, Rejected>) -> Result<Seq<GameModel>, Rejection> {
    match r {
        Ok(games) => Ok(games@.map_values(|g: Game| g@)),
        Err(e) => Err(e@),
    }
}

proof fn lemma_import_stuck(texts: Seq<Seq<char>>, n: int)
    requires
        0 <= n <= texts.len(),
        import_each(texts, n) is Err,
    ensures
        import_each(texts, texts.len() as int) == import_each(texts, n),
    decreases texts.len() - n,
{
    if n < texts.len() {
        lemma_import_stuck(texts, n + 1);
    }
}

/// Import every game in a database. Strict: the first unparseable game
/// fails the batch. For lenient loading, map [`import`] over [`games`] and
/// keep the per-game results.
pub fn import_all(text: &str) -> (all: Result<Vec<Game>, Rejected>)
    ensures
        games_result(all) == import_each(games_spec(text@), games_spec(text@).len() as int),
{
    let found = games(text);
    let ghost texts = games_spec(text@);
    let mut imported: Vec<Game> = Vec::new();
    let mut i: usize = 0;
    assert(imported@.map_values(|g: Game| g@) =~= Seq::<GameModel>::empty());
    while i < found.len()
        invariant
            i <= found@.len(),
            texts == games_spec(text@),
            found@.len() == texts.len(),
            forall|j: int| 0 <= j < found@.len() ==> #[trigger] found@[j]@ == texts[j],
            import_each(texts, i as int) == Ok::<Seq<GameModel>, Rejection>(
                imported@.map_values(|g: Game| g@),
            ),
        decreases found.len() - i,
    {
        assert(found@[i as int]@ == texts[i as int]);
        match import(found[i]) {
            Ok(game) => {
                let ghost before = imported@.map_values(|g: Game| g@);
                imported.push(game);
                assert(imported@.map_values(|g: Game| g@) =~= before.push(game@));
            },
            Err(e) => {
                proof {
                    lemma_import_stuck(texts, i + 1);
                }
                return Err(e);
            },
        }
        i = i + 1;
    }
    Ok(imported)
}


/// How many bytes UTF-8 spends on `c`.
pub open spec fn utf8_width(c: char) -> int {
    if c <= '\u{7f}' {
        1
    } else if c <= '\u{7ff}' {
        2
    } else if c <= '\u{ffff}' {
        3
    } else {
        4
    }
}

/// The length of `text` in UTF-8 bytes — what `str::len` counts.
pub open spec fn byte_len(text: Seq<char>) -> int
    decreases text.len(),
{
    if text.len() == 0 {
        0
    } else {
        byte_len(text.drop_last()) + utf8_width(text.last())
    }
}

/// `n`, saturated at the largest `usize`.
pub open spec fn capped(n: int) -> int {
    if n > usize::MAX {
        usize::MAX as int
    } else {
        n
    }
}

/// Greedy filling of the first `n` words into lines of at most `width`
/// bytes: the finished lines and the line being filled. A word that would
/// overflow a non-empty line starts a new one; a single word longer than
/// the width stands on a line of its own.
pub open spec fn wrap_scan(words: Seq<Seq<char>>, n: int, width: int) -> (Seq<Seq<char>>, Seq<char>)
    decreases n,
{
    if n <= 0 {
        (Seq::<Seq<char>>::empty(), Seq::<char>::empty())
    } else {
        let (lines, line) = wrap_scan(words, n - 1, width);
        let word = words[n - 1];
        let (lines2, line2) = if line.len() > 0 && byte_len(line) + 1 + byte_len(word) > width {
            (lines.push(line), Seq::<char>::empty())
        } else {
            (lines, line)
        };
        (lines2, if line2.len() > 0 {
            line2.push(' ') + word
        } else {
            word
        })
    }
}

/// The words of `text` filled into lines of at most `width` bytes.
pub open spec fn wrap_spec(text: Seq<char>, width: int) -> Seq<Seq<char>> {
    let ws = words(text);
    let (lines, line) = wrap_scan(ws, ws.len() as int, width);
    if line.len() > 0 {
        lines.push(line)
    } else {
        lines
    }
}

/// The UTF-8 width of `c`.
fn utf8_width_exec(c: char) -> (width: usize)
    ensures
        width == utf8_width(c),
{
    if c <= '\u{7f}' {
        1
    } else if c <= '\u{7ff}' {
        2
    } else if c <= '\u{ffff}' {
        3
    } else {
        4
    }
}

/// The byte length of `text`, saturated.
fn byte_len_exec(text: &Vec<char>) -> (len: usize)
    ensures
        len == capped(byte_len(text@)),
{
    let mut len: usize = 0;
    let mut i: usize = 0;
    while i < text.len()
        invariant
            i <= text@.len(),
            len == capped(byte_len(text@.take(i as int))),
        decreases text.len() - i,
    {
        assert(text@.take(i + 1).drop_last() =~= text@.take(i as int));
        len = len.saturating_add(utf8_width_exec(text[i]));
        i = i + 1;
    }
    assert(text@.take(text@.len() as int) =~= text@);
    len
}

/// The byte length of a line grows by the words added to it.
proof fn lemma_byte_len_append(a: Seq<char>, b: Seq<char>)
    ensures
        byte_len(a + b) == byte_len(a) + byte_len(b),
    decreases b.len(),
{
    if b.len() > 0 {
        lemma_byte_len_append(a, b.drop_last());
        assert((a + b).drop_last() =~= a + b.drop_last());
    } else {
        assert(a + b =~= a);
    }
}

proof fn lemma_byte_len_nonneg(a: Seq<char>)
    ensures
        byte_len(a) >= 0,
    decreases a.len(),
{
    if a.len() > 0 {
        lemma_byte_len_nonneg(a.drop_last());
    }
}

/// A wrapped line fits its width, or is a single word too long for any line.
pub open spec fn fits(line: Seq<char>, words: Seq<Seq<char>>, width: int) -> bool {
    byte_len(line) <= width || words.contains(line)
}

/// Every line greedy filling finishes, and the one it is filling, fits.
proof fn lemma_wrap_scan_fits(ws: Seq<Seq<char>>, n: int, width: int)
    requires
        0 <= n <= ws.len(),
    ensures
        forall|i: int|
            0 <= i < wrap_scan(ws, n, width).0.len() ==> fits(
                #[trigger] wrap_scan(ws, n, width).0[i],
                ws,
                width,
            ),
        wrap_scan(ws, n, width).1.len() > 0 ==> fits(wrap_scan(ws, n, width).1, ws, width),
    decreases n,
{
    if n > 0 {
        lemma_wrap_scan_fits(ws, n - 1, width);
        let (lines, line) = wrap_scan(ws, n - 1, width);
        let word = ws[n - 1];
        assert(ws.contains(word));
        if line.len() > 0 && byte_len(line) + 1 + byte_len(word) <= width {
            let space = seq![' '];
            assert(space.drop_last() =~= Seq::<char>::empty());
            assert(space.last() == ' ');
            assert(utf8_width(' ') == 1);
            assert(byte_len(Seq::<char>::empty()) == 0);
            assert(byte_len(space) == byte_len(space.drop_last()) + utf8_width(space.last()));
            assert(line.push(' ') =~= line + space);
            lemma_byte_len_append(line, space);
            lemma_byte_len_append(line.push(' '), word);
        }
    }
}

/// Wrapping at a width keeps every line within it: each line is at most
/// `width` bytes, but for a single word longer than that, which stands on
/// a line of its own.
pub proof fn lemma_wrap_fits(text: Seq<char>, width: int)
    ensures
        forall|i: int|
            0 <= i < wrap_spec(text, width).len() ==> fits(
                #[trigger] wrap_spec(text, width)[i],
                words(text),
                width,
            ),
{
    let ws = words(text);
    lemma_wrap_scan_fits(ws, ws.len() as int, width);
}

/// Fills the words of `text` into lines of at most `width` bytes.
fn wrap(text: &Vec<char>, width: usize) -> (lines: Vec<Vec<char>>)
    requires
        width < usize::MAX,
    ensures
        lines@.len() == wrap_spec(text@, width as int).len(),
        forall|i: int| 0 <= i < lines@.len() ==> #[trigger] lines@[i]@ == wrap_spec(text@, width as int)[i],
{
    let ws = split_words(text);
    let ghost all = words(text@);
    let mut lines: Vec<Vec<char>> = Vec::new();
    let mut line: Vec<char> = Vec::new();
    let mut line_bytes: usize = 0;
    let mut i: usize = 0;
    while i < ws.len()
        invariant
            i <= ws@.len(),
            width < usize::MAX,
            all == words(text@),
            ws@.len() == all.len(),
            forall|j: int| 0 <= j < ws@.len() ==> #[trigger] ws@[j]@ == all[j],
            line_bytes == capped(byte_len(line@)),
            ({
                let (ls, l) = wrap_scan(all, i as int, width as int);
                &&& l == line@
                &&& ls.len() == lines@.len()
                &&& forall|j: int| 0 <= j < lines@.len() ==> #[trigger] lines@[j]@ == ls[j]
            }),
        decreases ws.len() - i,
    {
        let word = &ws[i];
        let word_bytes = byte_len_exec(word);
        proof {
            lemma_byte_len_nonneg(line@);
            lemma_byte_len_nonneg(word@);
        }
        if line.len() > 0 && line_bytes.saturating_add(1).saturating_add(word_bytes) > width {
            lines.push(line);
            line = Vec::new();
            line_bytes = 0;
        }
        let ghost before = line@;
        if line.len() > 0 {
            line.push(' ');
            line_bytes = line_bytes.saturating_add(1);
            proof {
                lemma_byte_len_append(before, seq![' ']);
                assert(before + seq![' '] =~= before.push(' '));
                let space = seq![' '];
                assert(space.drop_last() =~= Seq::<char>::empty());
                assert(space.last() == ' ');
                assert(byte_len(Seq::<char>::empty()) == 0);
                assert(utf8_width(' ') == 1);
                assert(byte_len(space) == 1);
            }
        }
        let ghost middle = line@;
        push_all(&mut line, word);
        line_bytes = line_bytes.saturating_add(word_bytes);
        proof {
            lemma_byte_len_append(middle, word@);
            if before.len() == 0 {
                assert(line@ =~= word@);
            }
        }
        i = i + 1;
    }
    if line.len() > 0 {
        lines.push(line);
    }
    lines
}


/// The seven-tag roster, in canonical order.
pub open spec fn roster() -> Seq<Seq<char>> {
    seq!["Event"@, "Site"@, "Date"@, "Round"@, "White"@, "Black"@, "Result"@]
}

/// A tag line: `[Key "value"]` and a newline.
pub open spec fn tag_line(key: Seq<char>, value: Seq<char>) -> Seq<char> {
    seq!['['] + key + seq![' ', '"'] + value + seq!['"', ']', '\n']
}

/// The roster's tag lines, for its first `k` keys: the Result line always,
/// the others where the tag is set.
pub open spec fn roster_lines(tags: Seq<TagModel>, result: Seq<char>, k: int) -> Seq<char>
    decreases k,
{
    if k <= 0 {
        Seq::<char>::empty()
    } else {
        let key = roster()[k - 1];
        roster_lines(tags, result, k - 1) + if key == "Result"@ {
            tag_line(key, result)
        } else {
            match tags_get(tags, key) {
                Some(value) => tag_line(key, value),
                None => Seq::<char>::empty(),
            }
        }
    }
}

/// The tag lines of the first `n` tags outside the roster, in key order.
pub open spec fn other_lines(tags: Seq<TagModel>, n: int) -> Seq<char>
    decreases n,
{
    if n <= 0 {
        Seq::<char>::empty()
    } else {
        other_lines(tags, n - 1) + if roster().contains(tags[n - 1].0) {
            Seq::<char>::empty()
        } else {
            tag_line(tags[n - 1].0, tags[n - 1].1)
        }
    }
}

/// The last index of `c` in `text`, if any.
pub open spec fn last_index_of(text: Seq<char>, c: char) -> Option<int>
    decreases text.len(),
{
    if text.len() == 0 {
        None
    } else if text.last() == c {
        Some(text.len() - 1)
    } else {
        last_index_of(text.drop_last(), c)
    }
}

/// A score's moves: everything before its last space (the result marker
/// follows it).
pub open spec fn score_moves(score: Seq<char>) -> Seq<char> {
    match last_index_of(score, ' ') {
        Some(i) => score.subrange(0, i),
        None => Seq::<char>::empty(),
    }
}

/// Lines, each followed by a newline.
pub open spec fn joined(lines: Seq<Seq<char>>, n: int) -> Seq<char>
    decreases n,
{
    if n <= 0 {
        Seq::<char>::empty()
    } else {
        joined(lines, n - 1) + lines[n - 1].push('\n')
    }
}

/// The Result an export writes: the board's where it knows one (a
/// declared tag that differs is rejected), else the declared tag, else `*`.
pub open spec fn export_result(mode: Mode, tags: Seq<TagModel>) -> Result<Seq<char>, Rejection> {
    match (board_result(mode), tags_get(tags, "Result"@)) {
        (Some(board), Some(tag)) => if board != tag {
            Err(Rejection::Unparseable(contradiction(tag, board)))
        } else {
            Ok(board)
        },
        (Some(board), None) => Ok(board),
        (None, Some(tag)) => Ok(tag),
        (None, None) => Ok(seq!['*']),
    }
}

/// A game exported as PGN: the roster tags in canonical order, the other
/// tags in key order, a blank line, then the moves and the Result wrapped
/// at 80 columns.
pub open spec fn export_spec(game: GameModel, tags: Seq<TagModel>) -> Result<Seq<char>, Rejection> {
    match export_result(game.mode, tags) {
        Err(e) => Err(e),
        Ok(result) => {
            let movetext = score_moves(score_spec(game, false)) + seq![' '] + result;
            let lines = wrap_spec(movetext, 80);
            Ok(
                roster_lines(tags, result, 7) + other_lines(tags, tags.len() as int) + seq!['\n']
                    + joined(lines, lines.len() as int),
            )
        },
    }
}

/// Text, viewed.
pub open spec fn string_result(r: Result<String, Rejected>) -> Result<Seq<char>, Rejection> {
    match r {
        Ok(s) => Ok(s@),
        Err(e) => Err(e@),
    }
}

/// Appends a tag line.
fn push_tag_line(out: &mut Vec<char>, key: &Vec<char>, value: &Vec<char>)
    ensures
        final(out)@ == old(out)@ + tag_line(key@, value@),
{
    out.push('[');
    push_all(out, key);
    out.push(' ');
    out.push('"');
    push_all(out, value);
    out.push('"');
    out.push(']');
    out.push('\n');
    assert(out@ =~= old(out)@ + tag_line(key@, value@));
}

/// The roster keys, in order.
fn roster_keys() -> (keys: Vec<Vec<char>>)
    ensures
        keys@.len() == 7,
        forall|i: int| 0 <= i < 7 ==> #[trigger] keys@[i]@ == roster()[i],
{
    let keys = vec![
        chars_of("Event"),
        chars_of("Site"),
        chars_of("Date"),
        chars_of("Round"),
        chars_of("White"),
        chars_of("Black"),
        chars_of("Result"),
    ];
    keys
}

/// The last index of `c` in `chars`.
fn last_index_exec(chars: &Vec<char>, c: char) -> (index: Option<usize>)
    ensures
        match index {
            Some(i) => last_index_of(chars@, c) == Some(i as int) && i < chars@.len(),
            None => last_index_of(chars@, c) is None,
        },
{
    let mut n = chars.len();
    assert(chars@.take(n as int) =~= chars@);
    while n > 0
        invariant
            n <= chars@.len(),
            last_index_of(chars@, c) == last_index_of(chars@.take(n as int), c),
        decreases n,
    {
        assert(chars@.take(n as int).drop_last() =~= chars@.take(n - 1));
        if chars[n - 1] == c {
            return Some(n - 1);
        }
        n = n - 1;
    }
    None
}

/// Export a game as PGN: tag pairs (seven-tag-roster order first, the
/// rest in key order), a blank line, then movetext wrapped at 80 columns.
/// The Result comes from the board where it knows (mate, stalemate,
/// draws) and from the declared tag where it cannot (resignations,
/// agreements); a declared result that contradicts the board is rejected.
pub fn export(game: &Game, tags: &Tags) -> (text: Result<String, Rejected>)
    ensures
        string_result(text) == export_spec(game@, tags@),
{
    let declared = tags.get("Result");
    let result: Vec<char> = match (board_result_exec(game.mode()), declared) {
        (Some(board), Some(tag)) => {
            let tag = chars_of(tag.as_str());
            if !chars_equal(&board, &tag) {
                return Err(Rejected::Unparseable(contradiction_exec(&tag, &board)));
            }
            board
        },
        (Some(board), None) => board,
        (None, Some(tag)) => chars_of(tag.as_str()),
        (None, None) => {
            let star = vec!['*'];
            assert(star@ =~= seq!['*']);
            star
        },
    };
    assert(export_result(game@.mode, tags@) == Ok::<Seq<char>, Rejection>(result@));
    let keys = roster_keys();
    let mut out: Vec<char> = Vec::new();
    let mut k: usize = 0;
    while k < 7
        invariant
            k <= 7,
            keys@.len() == 7,
            forall|i: int| 0 <= i < 7 ==> #[trigger] keys@[i]@ == roster()[i],
            out@ == roster_lines(tags@, result@, k as int),
        decreases 7 - k,
    {
        let key = &keys[k];
        assert(key@ == roster()[k as int]);
        if spells(key, "Result") {
            push_tag_line(&mut out, key, &result);
        } else {
            let name = string_of(slice_chars(key, 0, key.len()));
            assert(key@.subrange(0, key@.len() as int) =~= key@);
            match tags.get(name.as_str()) {
                Some(value) => {
                    let value = chars_of(value.as_str());
                    push_tag_line(&mut out, key, &value);
                },
                None => {
                    assert(out@ =~= out@ + Seq::<char>::empty());
                },
            }
        }
        k = k + 1;
    }
    let mut i: usize = 0;
    while i < tags.len()
        invariant
            i <= tags@.len(),
            keys@.len() == 7,
            forall|j: int| 0 <= j < 7 ==> #[trigger] keys@[j]@ == roster()[j],
            out@ == roster_lines(tags@, result@, 7) + other_lines(tags@, i as int),
        decreases tags@.len() - i,
    {
        let (key, value) = tags.pair(i);
        let key = chars_of(key.as_str());
        let mut listed = false;
        let mut j: usize = 0;
        while j < 7
            invariant
                j <= 7,
                keys@.len() == 7,
                forall|m: int| 0 <= m < 7 ==> #[trigger] keys@[m]@ == roster()[m],
                listed == exists|m: int| 0 <= m < j && roster()[m] == key@,
            decreases 7 - j,
        {
            if chars_equal(&keys[j], &key) {
                listed = true;
            }
            j = j + 1;
        }
        proof {
            if listed {
                let m = choose|m: int| 0 <= m < 7 && roster()[m] == key@;
                assert(roster().contains(key@));
            } else {
                assert(!roster().contains(key@));
            }
        }
        let ghost before = out@;
        if !listed {
            let value = chars_of(value.as_str());
            push_tag_line(&mut out, &key, &value);
        }
        assert(out@ =~= roster_lines(tags@, result@, 7) + other_lines(tags@, i + 1));
        i = i + 1;
    }
    let ghost tag_section = out@;
    out.push('\n');
    assert(out@ =~= tag_section + seq!['\n']);
    // The score already ends with the board's marker; the movetext keeps
    // the moves and takes the negotiated result instead.
    let score = game.scored(false);
    let mut movetext = match last_index_exec(&score, ' ') {
        Some(cut) => slice_chars(&score, 0, cut),
        None => Vec::new(),
    };
    let ghost moves = movetext@;
    movetext.push(' ');
    push_all(&mut movetext, &result);
    assert(moves == score_moves(score_spec(game@, false)));
    assert(movetext@ =~= score_moves(score_spec(game@, false)) + seq![' '] + result@);
    let lines = wrap(&movetext, 80);
    let ghost head = out@;
    let mut n: usize = 0;
    while n < lines.len()
        invariant
            n <= lines@.len(),
            lines@.len() == wrap_spec(movetext@, 80).len(),
            forall|m: int| 0 <= m < lines@.len() ==> #[trigger] lines@[m]@ == wrap_spec(movetext@, 80)[m],
            out@ == head + joined(wrap_spec(movetext@, 80), n as int),
        decreases lines.len() - n,
    {
        let ghost before = out@;
        push_all(&mut out, &lines[n]);
        out.push('\n');
        assert(out@ =~= head + joined(wrap_spec(movetext@, 80), n + 1));
        n = n + 1;
    }
    Ok(string_of(out))
}

} // verus!

use vstd::prelude::*;

verus! {

/// The characters of `text`, in order.
pub fn chars_of(text: &str) -> (chars: Vec<char>)
    ensures
        chars@ == text@,
{
    broadcast use vstd::string::group_string_axioms;
    let mut chars: Vec<char> = Vec::new();
    for c in it: text.chars()
        invariant
            chars@ == it.seq().take(it.index() as int),
    {
        chars.push(c);
        assert(chars@ =~= it.seq().take(it.index() + 1));
    }
    assert(chars@ =~= text@);
    chars
}

/// The string made of `chars`, in order, built by std's
/// `String::from_iter` over characters; the contract claims what its
/// documentation says: the characters are appended one after another.
#[verifier::external_body]
pub(crate) fn string_of(chars: Vec<char>) -> (text: String)
    ensures
        text@ == chars@,
{
    String::from_iter(chars)
}

/// Appends the characters of `text` to `out`.
pub fn push_str(out: &mut Vec<char>, text: &str)
    ensures
        final(out)@ == old(out)@ + text@,
{
    let chars = chars_of(text);
    push_all(out, &chars);
}

/// Appends `more` to `out`.
pub fn push_all(out: &mut Vec<char>, more: &Vec<char>)
    ensures
        final(out)@ == old(out)@ + more@,
{
    let mut i: usize = 0;
    while i < more.len()
        invariant
            i <= more.len(),
            out@ == old(out)@ + more@.take(i as int),
        decreases more.len() - i,
    {
        out.push(more[i]);
        assert(out@ =~= old(out)@ + more@.take(i + 1));
        i = i + 1;
    }
    assert(more@.take(more.len() as int) =~= more@);
}

/// The decimal digits of `n`.
pub open spec fn decimal(n: nat) -> Seq<char>
    decreases n,
{
    if n < 10 {
        seq![digit_char(n as int)]
    } else {
        decimal(n / 10) + seq![digit_char((n % 10) as int)]
    }
}

/// The character of a decimal digit.
pub open spec fn digit_char(d: int) -> char {
    (d + 48) as char
}

/// A number's decimal form is a nonempty run of digits.
pub proof fn lemma_decimal_digits(n: nat)
    ensures
        decimal(n).len() > 0,
        forall|i: int| 0 <= i < decimal(n).len() ==> '0' <= #[trigger] decimal(n)[i] <= '9',
    decreases n,
{
    if n >= 10 {
        lemma_decimal_digits(n / 10);
        let head = decimal(n / 10);
        assert forall|i: int| 0 <= i < decimal(n).len() implies '0' <= #[trigger] decimal(n)[i] <= '9' by {
            if i < head.len() {
                assert(decimal(n)[i] == head[i]);
            }
        }
    }
}

/// Appends the decimal digits of `n` to `out`.
pub fn push_decimal(out: &mut Vec<char>, n: usize)
    ensures
        final(out)@ == old(out)@ + decimal(n as nat),
    decreases n,
{
    if n >= 10 {
        push_decimal(out, n / 10);
    }
    let d = (n % 10) as u32;
    let c = ((d + 48) as u8) as char;
    out.push(c);
    proof {
        if n < 10 {
            assert(decimal(n as nat) == seq![digit_char(n as int)]);
        }
    }
    assert(out@ =~= old(out)@ + decimal(n as nat));
}

/// `text` with every character of `set` removed from its end.
pub open spec fn trim_end_set(text: Seq<char>, set: Seq<char>) -> Seq<char>
    decreases text.len(),
{
    if text.len() > 0 && set.contains(text.last()) {
        trim_end_set(text.drop_last(), set)
    } else {
        text
    }
}

/// The first index of `c` in `text`, if it occurs.
pub open spec fn index_of(text: Seq<char>, c: char) -> Option<int>
    decreases text.len(),
{
    if text.len() == 0 {
        None
    } else {
        match index_of(text.drop_last(), c) {
            Some(i) => Some(i),
            None => if text.last() == c {
                Some(text.len() - 1)
            } else {
                None
            },
        }
    }
}

/// `text` without any occurrence of `c`.
pub open spec fn without_char(text: Seq<char>, c: char) -> Seq<char>
    decreases text.len(),
{
    if text.len() == 0 {
        text
    } else if text.last() == c {
        without_char(text.drop_last(), c)
    } else {
        without_char(text.drop_last(), c).push(text.last())
    }
}

/// The part of `chars` from `start` to `end`.
pub fn slice_chars(chars: &Vec<char>, start: usize, end: usize) -> (part: Vec<char>)
    requires
        start <= end <= chars.len(),
    ensures
        part@ == chars@.subrange(start as int, end as int),
{
    let mut part: Vec<char> = Vec::new();
    let mut i = start;
    while i < end
        invariant
            start <= i <= end,
            end <= chars.len(),
            part@ == chars@.subrange(start as int, i as int),
        decreases end - i,
    {
        part.push(chars[i]);
        assert(part@ =~= chars@.subrange(start as int, i + 1));
        i = i + 1;
    }
    part
}

/// `chars` with every character of `set` removed from its end.
pub fn trim_end_chars(chars: &Vec<char>, set: &Vec<char>) -> (trimmed: Vec<char>)
    ensures
        trimmed@ == trim_end_set(chars@, set@),
{
    let mut end = chars.len();
    assert(chars@.take(chars.len() as int) =~= chars@);
    while end > 0 && contains_char(set, chars[end - 1])
        invariant
            end <= chars.len(),
            trim_end_set(chars@, set@) == trim_end_set(chars@.take(end as int), set@),
        decreases end,
    {
        assert(chars@.take(end as int).drop_last() =~= chars@.take(end - 1));
        end = end - 1;
    }
    assert(chars@.subrange(0, end as int) =~= chars@.take(end as int));
    slice_chars(chars, 0, end)
}

/// Whether `c` is one of `set`.
pub fn contains_char(set: &Vec<char>, c: char) -> (found: bool)
    ensures
        found == set@.contains(c),
{
    let mut i: usize = 0;
    while i < set.len()
        invariant
            i <= set.len(),
            forall|j: int| 0 <= j < i ==> set@[j] != c,
        decreases set.len() - i,
    {
        if set[i] == c {
            return true;
        }
        i = i + 1;
    }
    false
}

/// The first index of `c` in `chars`, if it occurs.
pub fn find_char(chars: &Vec<char>, c: char) -> (index: Option<usize>)
    ensures
        match index {
            Some(i) => index_of(chars@, c) == Some(i as int) && i < chars@.len(),
            None => index_of(chars@, c) is None,
        },
{
    let mut i: usize = 0;
    while i < chars.len()
        invariant
            i <= chars.len(),
            index_of(chars@.take(i as int), c) is None,
        decreases chars.len() - i,
    {
        assert(chars@.take(i + 1).drop_last() =~= chars@.take(i as int));
        if chars[i] == c {
            assert(index_of(chars@.take(i + 1), c) == Some(i as int));
            proof {
                lemma_index_of_prefix(chars@, c, i + 1);
            }
            return Some(i);
        }
        i = i + 1;
    }
    assert(chars@.take(chars.len() as int) =~= chars@);
    None
}

/// A first occurrence found in a prefix is the first occurrence overall.
pub proof fn lemma_index_of_prefix(text: Seq<char>, c: char, n: int)
    requires
        0 <= n <= text.len(),
        index_of(text.take(n), c) is Some,
    ensures
        index_of(text, c) == index_of(text.take(n), c),
    decreases text.len() - n,
{
    if n < text.len() {
        assert(text.take(n + 1).drop_last() =~= text.take(n));
        lemma_index_of_prefix(text, c, n + 1);
    } else {
        assert(text.take(n) =~= text);
    }
}

/// `chars` without any occurrence of `c`.
pub fn remove_char(chars: &Vec<char>, c: char) -> (kept: Vec<char>)
    ensures
        kept@ == without_char(chars@, c),
{
    let mut kept: Vec<char> = Vec::new();
    let mut i: usize = 0;
    while i < chars.len()
        invariant
            i <= chars.len(),
            kept@ == without_char(chars@.take(i as int), c),
        decreases chars.len() - i,
    {
        assert(chars@.take(i + 1).drop_last() =~= chars@.take(i as int));
        if chars[i] != c {
            kept.push(chars[i]);
        }
        i = i + 1;
    }
    assert(chars@.take(chars.len() as int) =~= chars@);
    kept
}

/// Whether two character sequences are equal.
pub fn chars_equal(a: &Vec<char>, b: &Vec<char>) -> (same: bool)
    ensures
        same == (a@ == b@),
{
    if a.len() != b.len() {
        return false;
    }
    let mut i: usize = 0;
    while i < a.len()
        invariant
            i <= a.len(),
            a.len() == b.len(),
            forall|j: int| 0 <= j < i ==> a@[j] == b@[j],
        decreases a.len() - i,
    {
        if a[i] != b[i] {
            return false;
        }
        i = i + 1;
    }
    assert(a@ =~= b@);
    true
}

/// Whether `chars` spells `text`.
pub fn spells(chars: &Vec<char>, text: &str) -> (same: bool)
    ensures
        same == (chars@ == text@),
{
    let other = chars_of(text);
    chars_equal(chars, &other)
}


/// Unicode white space, as `char::is_whitespace` defines it.
pub open spec fn is_space(c: char) -> bool {
    ('\u{9}' <= c <= '\u{d}') || c == ' ' || c == '\u{85}' || c == '\u{a0}' || c == '\u{1680}'
        || ('\u{2000}' <= c <= '\u{200a}') || c == '\u{2028}' || c == '\u{2029}' || c == '\u{202f}'
        || c == '\u{205f}' || c == '\u{3000}'
}

pub fn is_space_exec(c: char) -> (space: bool)
    ensures
        space == is_space(c),
{
    ('\u{9}' <= c && c <= '\u{d}') || c == ' ' || c == '\u{85}' || c == '\u{a0}' || c == '\u{1680}'
        || ('\u{2000}' <= c && c <= '\u{200a}') || c == '\u{2028}' || c == '\u{2029}' || c
        == '\u{202f}' || c == '\u{205f}' || c == '\u{3000}'
}

/// The words of `text` (maximal runs of non-space characters), with
/// whether the text ends inside a word.
pub open spec fn word_scan(text: Seq<char>) -> (Seq<Seq<char>>, bool)
    decreases text.len(),
{
    if text.len() == 0 {
        (Seq::empty(), false)
    } else {
        let (words, inside) = word_scan(text.drop_last());
        let c = text.last();
        if is_space(c) {
            (words, false)
        } else if inside && words.len() > 0 {
            (words.update(words.len() - 1, words.last().push(c)), true)
        } else {
            (words.push(seq![c]), true)
        }
    }
}

/// The words of `text`, as `str::split_whitespace` yields them.
pub open spec fn words(text: Seq<char>) -> Seq<Seq<char>> {
    word_scan(text).0
}

/// Whether `text` holds no white space.
pub open spec fn no_space(text: Seq<char>) -> bool {
    forall|i: int| 0 <= i < text.len() ==> !is_space(#[trigger] text[i])
}

/// Whether every character of `text` satisfies `p`.
pub open spec fn all_chars(text: Seq<char>, p: spec_fn(char) -> bool) -> bool {
    forall|i: int| 0 <= i < text.len() ==> p(#[trigger] text[i])
}

/// Two texts whose characters all satisfy `p` join into one that does.
pub proof fn lemma_all_chars_join(a: Seq<char>, b: Seq<char>, p: spec_fn(char) -> bool)
    requires
        all_chars(a, p),
        all_chars(b, p),
    ensures
        all_chars(a + b, p),
{
    assert forall|i: int| 0 <= i < (a + b).len() implies p(#[trigger] (a + b)[i]) by {
        if i < a.len() {
            assert((a + b)[i] == a[i]);
        } else {
            assert((a + b)[i] == b[i - a.len()]);
        }
    }
}

/// A word written after a space (or at the start) is one more word.
pub proof fn lemma_scan_word(text: Seq<char>, word: Seq<char>)
    requires
        !word_scan(text).1,
        word.len() > 0,
        no_space(word),
    ensures
        word_scan(text + word) == (word_scan(text).0.push(word), true),
    decreases word.len(),
{
    let head = word.drop_last();
    assert((text + word).drop_last() =~= text + head);
    assert((text + word).last() == word[word.len() - 1]);
    if head.len() == 0 {
        assert(text + head =~= text);
        assert(seq![word.last()] =~= word);
    } else {
        lemma_scan_word(text, head);
        assert(head.push(word.last()) =~= word);
    }
}

/// A scan that ends inside a word has found a word.
pub proof fn lemma_scan_inside(text: Seq<char>)
    ensures
        word_scan(text).1 ==> word_scan(text).0.len() > 0,
    decreases text.len(),
{
    if text.len() > 0 {
        lemma_scan_inside(text.drop_last());
    }
}

/// Text after text that ends outside a word adds its own words.
pub proof fn lemma_scan_concat(text: Seq<char>, more: Seq<char>)
    requires
        !word_scan(text).1,
    ensures
        word_scan(text + more) == (word_scan(text).0 + word_scan(more).0, word_scan(more).1),
    decreases more.len(),
{
    if more.len() == 0 {
        assert(text + more =~= text);
        assert(word_scan(text).0 + Seq::<Seq<char>>::empty() =~= word_scan(text).0);
    } else {
        let head = more.drop_last();
        lemma_scan_concat(text, head);
        lemma_scan_inside(head);
        assert((text + more).drop_last() =~= text + head);
        assert((text + more).last() == more.last());
        let a = word_scan(text).0;
        let b = word_scan(head).0;
        let c = more.last();
        if !is_space(c) && word_scan(head).1 {
            assert((a + b).update((a + b).len() - 1, (a + b).last().push(c)) =~= a + b.update(
                b.len() - 1,
                b.last().push(c),
            ));
        } else if !is_space(c) {
            assert((a + b).push(seq![c]) =~= a + b.push(seq![c]));
        }
    }
}

/// Every word is nonempty and holds no white space.
pub proof fn lemma_words_shape(text: Seq<char>)
    ensures
        forall|i: int| 0 <= i < words(text).len() ==> (#[trigger] words(text)[i]).len() > 0 && no_space(words(text)[i]),
    decreases text.len(),
{
    if text.len() > 0 {
        let head = text.drop_last();
        lemma_words_shape(head);
        let ws = words(head);
        let inside = word_scan(head).1;
        let c = text.last();
        let out = words(text);
        if is_space(c) {
            assert(out == ws);
        } else if inside && ws.len() > 0 {
            let last = ws[ws.len() - 1];
            assert(last.len() > 0 && no_space(last));
            let w = last.push(c);
            assert(no_space(w)) by {
                assert forall|j: int| 0 <= j < w.len() implies !is_space(#[trigger] w[j]) by {
                    if j < last.len() {
                        assert(w[j] == last[j]);
                    }
                }
            }
            assert(out == ws.update(ws.len() - 1, w));
            assert forall|i: int| 0 <= i < out.len() implies (#[trigger] out[i]).len() > 0 && no_space(out[i]) by {
                if i < ws.len() - 1 {
                    assert(out[i] == ws[i]);
                }
            }
        } else {
            let w = seq![c];
            assert(no_space(w));
            assert(out == ws.push(w));
            assert forall|i: int| 0 <= i < out.len() implies (#[trigger] out[i]).len() > 0 && no_space(out[i]) by {
                if i < ws.len() {
                    assert(out[i] == ws[i]);
                }
            }
        }
    }
}

/// A space ends whatever word was open and adds none.
pub proof fn lemma_scan_space(text: Seq<char>, c: char)
    requires
        is_space(c),
    ensures
        word_scan(text.push(c)) == (word_scan(text).0, false),
{
    assert(text.push(c).drop_last() =~= text);
}

/// Splits `chars` into its words.
pub fn split_words(chars: &Vec<char>) -> (found: Vec<Vec<char>>)
    ensures
        found@.len() == words(chars@).len(),
        forall|i: int| 0 <= i < found@.len() ==> #[trigger] found@[i]@ == words(chars@)[i],
{
    let mut found: Vec<Vec<char>> = Vec::new();
    let mut current: Vec<char> = Vec::new();
    let mut inside = false;
    let mut i: usize = 0;
    while i < chars.len()
        invariant
            i <= chars.len(),
            ({
                let (ws, ins) = word_scan(chars@.take(i as int));
                &&& ins == inside
                &&& inside ==> ws.len() > 0 && ws.last() == current@
                &&& !inside ==> current@.len() == 0
                &&& ws.len() == found@.len() + if inside {
                    1int
                } else {
                    0int
                }
                &&& forall|j: int| 0 <= j < found@.len() ==> #[trigger] found@[j]@ == ws[j]
            }),
        decreases chars.len() - i,
    {
        assert(chars@.take(i + 1).drop_last() =~= chars@.take(i as int));
        let c = chars[i];
        assert(current@.len() == 0 ==> current@.push(c) =~= seq![c]);
        if is_space_exec(c) {
            if inside {
                found.push(current);
                current = Vec::new();
                inside = false;
            }
        } else {
            current.push(c);
            inside = true;
        }
        i = i + 1;
    }
    assert(chars@.take(chars.len() as int) =~= chars@);
    if inside {
        found.push(current);
    }
    found
}

/// The pieces of `text` between occurrences of `sep` (at least one).
pub open spec fn split_on(text: Seq<char>, sep: char) -> Seq<Seq<char>>
    decreases text.len(),
{
    if text.len() == 0 {
        seq![Seq::<char>::empty()]
    } else {
        let pieces = split_on(text.drop_last(), sep);
        if text.last() == sep {
            pieces.push(Seq::<char>::empty())
        } else {
            pieces.update(pieces.len() - 1, pieces.last().push(text.last()))
        }
    }
}

/// The split of any text has at least one piece.
pub proof fn lemma_split_nonempty(text: Seq<char>, sep: char)
    ensures
        split_on(text, sep).len() >= 1,
    decreases text.len(),
{
    if text.len() > 0 {
        lemma_split_nonempty(text.drop_last(), sep);
    }
}

/// Characters without `sep` extend the last piece.
pub proof fn lemma_split_piece(text: Seq<char>, piece: Seq<char>, sep: char)
    requires
        !piece.contains(sep),
    ensures
        split_on(text + piece, sep) == split_on(text, sep).update(
            split_on(text, sep).len() - 1,
            split_on(text, sep).last() + piece,
        ),
    decreases piece.len(),
{
    lemma_split_nonempty(text, sep);
    if piece.len() == 0 {
        assert(text + piece =~= text);
        assert(split_on(text, sep).last() + piece =~= split_on(text, sep).last());
        assert(split_on(text, sep).update(split_on(text, sep).len() - 1, split_on(text, sep).last())
            =~= split_on(text, sep));
    } else {
        let head = piece.drop_last();
        assert(!head.contains(sep)) by {
            if head.contains(sep) {
                let i = choose|i: int| 0 <= i < head.len() && head[i] == sep;
                assert(piece[i] == sep);
            }
        }
        assert(piece.last() != sep) by {
            assert(piece[piece.len() - 1] == piece.last());
        }
        lemma_split_piece(text, head, sep);
        assert((text + piece).drop_last() =~= text + head);
        assert((text + piece).last() == piece.last());
        lemma_split_nonempty(text + head, sep);
        let pieces = split_on(text, sep);
        let n = pieces.len() - 1;
        let mid = split_on(text + head, sep);
        assert(mid.len() == pieces.len());
        assert(mid.last() == mid[n]);
        assert(mid[n] == pieces.last() + head);
        assert((pieces.last() + head).push(piece.last()) =~= pieces.last() + piece);
        assert(split_on(text + piece, sep) == mid.update(n, mid.last().push(piece.last())));
        assert(split_on(text + piece, sep) =~= split_on(text, sep).update(
            split_on(text, sep).len() - 1,
            split_on(text, sep).last() + piece,
        ));
    }
}

/// Text, a separator, and more text split into the pieces of each.
pub proof fn lemma_split_join(text: Seq<char>, more: Seq<char>, sep: char)
    ensures
        split_on(text.push(sep) + more, sep) == split_on(text, sep) + split_on(more, sep),
    decreases more.len(),
{
    if more.len() == 0 {
        assert(text.push(sep) + more =~= text.push(sep));
        lemma_split_sep(text, sep);
        assert(split_on(text, sep).push(Seq::<char>::empty()) =~= split_on(text, sep) + split_on(more, sep));
    } else {
        let head = more.drop_last();
        lemma_split_join(text, head, sep);
        lemma_split_nonempty(head, sep);
        assert((text.push(sep) + more).drop_last() =~= text.push(sep) + head);
        assert((text.push(sep) + more).last() == more.last());
        let a = split_on(text, sep);
        let b = split_on(head, sep);
        if more.last() == sep {
            assert((a + b).push(Seq::<char>::empty()) =~= a + b.push(Seq::<char>::empty()));
        } else {
            assert((a + b).update((a + b).len() - 1, (a + b).last().push(more.last())) =~= a + b.update(
                b.len() - 1,
                b.last().push(more.last()),
            ));
        }
    }
}

/// A separator starts a new, empty piece.
pub proof fn lemma_split_sep(text: Seq<char>, sep: char)
    ensures
        split_on(text.push(sep), sep) == split_on(text, sep).push(Seq::<char>::empty()),
{
    assert(text.push(sep).drop_last() =~= text);
}

/// Splits `chars` at every `sep`.
pub fn split_chars(chars: &Vec<char>, sep: char) -> (pieces: Vec<Vec<char>>)
    ensures
        pieces@.len() == split_on(chars@, sep).len(),
        forall|i: int| 0 <= i < pieces@.len() ==> #[trigger] pieces@[i]@ == split_on(chars@, sep)[i],
{
    let mut pieces: Vec<Vec<char>> = Vec::new();
    let mut current: Vec<char> = Vec::new();
    let mut i: usize = 0;
    assert(chars@.take(0) =~= Seq::<char>::empty());
    while i < chars.len()
        invariant
            i <= chars.len(),
            ({
                let ps = split_on(chars@.take(i as int), sep);
                &&& ps.len() == pieces@.len() + 1
                &&& ps.last() == current@
                &&& forall|j: int| 0 <= j < pieces@.len() ==> #[trigger] pieces@[j]@ == ps[j]
            }),
        decreases chars.len() - i,
    {
        assert(chars@.take(i + 1).drop_last() =~= chars@.take(i as int));
        proof {
            lemma_split_nonempty(chars@.take(i as int), sep);
        }
        let c = chars[i];
        if c == sep {
            pieces.push(current);
            current = Vec::new();
        } else {
            current.push(c);
        }
        i = i + 1;
    }
    assert(chars@.take(chars.len() as int) =~= chars@);
    pieces.push(current);
    pieces
}


/// `text` without its leading white space.
pub open spec fn trim_start(text: Seq<char>) -> Seq<char>
    decreases text.len(),
{
    if text.len() > 0 && is_space(text[0]) {
        trim_start(text.drop_first())
    } else {
        text
    }
}

/// `text` without its trailing white space.
pub open spec fn trim_end(text: Seq<char>) -> Seq<char>
    decreases text.len(),
{
    if text.len() > 0 && is_space(text.last()) {
        trim_end(text.drop_last())
    } else {
        text
    }
}

/// `text` without white space at either end, as `str::trim` gives it.
pub open spec fn trim(text: Seq<char>) -> Seq<char> {
    trim_end(trim_start(text))
}

/// The index where `text`'s leading white space ends.
fn trim_start_at(chars: &Vec<char>) -> (start: usize)
    ensures
        start <= chars@.len(),
        trim_start(chars@) == chars@.subrange(start as int, chars@.len() as int),
{
    let mut i: usize = 0;
    assert(chars@.subrange(0, chars@.len() as int) =~= chars@);
    while i < chars.len() && is_space_exec(chars[i])
        invariant
            i <= chars@.len(),
            trim_start(chars@) == trim_start(chars@.subrange(i as int, chars@.len() as int)),
        decreases chars.len() - i,
    {
        assert(chars@.subrange(i as int, chars@.len() as int).drop_first() =~= chars@.subrange(
            i + 1,
            chars@.len() as int,
        ));
        i = i + 1;
    }
    i
}

/// The index where `text`'s trailing white space begins, at or after `start`.
fn trim_end_at(chars: &Vec<char>, start: usize) -> (end: usize)
    requires
        start <= chars@.len(),
    ensures
        start <= end <= chars@.len(),
        trim_end(chars@.subrange(start as int, chars@.len() as int)) == chars@.subrange(
            start as int,
            end as int,
        ),
{
    let mut j: usize = chars.len();
    while j > start && is_space_exec(chars[j - 1])
        invariant
            start <= j <= chars@.len(),
            trim_end(chars@.subrange(start as int, chars@.len() as int)) == trim_end(
                chars@.subrange(start as int, j as int),
            ),
        decreases j,
    {
        assert(chars@.subrange(start as int, j as int).drop_last() =~= chars@.subrange(
            start as int,
            j - 1,
        ));
        j = j - 1;
    }
    j
}

/// Trims white space from both ends of `chars`.
pub fn trim_chars(chars: &Vec<char>) -> (trimmed: Vec<char>)
    ensures
        trimmed@ == trim(chars@),
{
    let start = trim_start_at(chars);
    let end = trim_end_at(chars, start);
    slice_chars(chars, start, end)
}

/// The lines of `text` as `str::lines` yields them: split at each `\n`,
/// a `\r` before the `\n` dropped, and no empty line after a final `\n`.
pub open spec fn text_lines(text: Seq<char>) -> Seq<Seq<char>> {
    let pieces = split_on(text, '\n');
    let n = pieces.len() as int;
    let count = if pieces.last().len() == 0 {
        n - 1
    } else {
        n
    };
    Seq::new(
        count as nat,
        |i: int|
            if i < n - 1 {
                strip_cr(pieces[i])
            } else {
                pieces[i]
            },
    )
}

/// A line with one trailing `\r` removed.
pub open spec fn strip_cr(line: Seq<char>) -> Seq<char> {
    if line.len() > 0 && line.last() == '\r' {
        line.drop_last()
    } else {
        line
    }
}

/// Splits `chars` into its lines.
pub fn lines_of(chars: &Vec<char>) -> (lines: Vec<Vec<char>>)
    ensures
        lines@.len() == text_lines(chars@).len(),
        forall|i: int| 0 <= i < lines@.len() ==> #[trigger] lines@[i]@ == text_lines(chars@)[i],
{
    let pieces = split_chars(chars, '\n');
    proof {
        lemma_split_nonempty(chars@, '\n');
    }
    let ghost ps = split_on(chars@, '\n');
    let n = pieces.len();
    let count = if pieces[n - 1].len() == 0 {
        n - 1
    } else {
        n
    };
    let mut lines: Vec<Vec<char>> = Vec::new();
    let mut i: usize = 0;
    while i < count
        invariant
            i <= count,
            count <= n,
            n == pieces@.len(),
            n == ps.len(),
            count == text_lines(chars@).len(),
            ps == split_on(chars@, '\n'),
            forall|j: int| 0 <= j < n ==> #[trigger] pieces@[j]@ == ps[j],
            lines@.len() == i,
            forall|j: int| 0 <= j < i ==> #[trigger] lines@[j]@ == text_lines(chars@)[j],
        decreases count - i,
    {
        let piece = &pieces[i];
        let m = piece.len();
        if i + 1 < n && m > 0 && piece[m - 1] == '\r' {
            lines.push(slice_chars(piece, 0, m - 1));
            assert(piece@.subrange(0, m - 1) =~= piece@.drop_last());
        } else {
            lines.push(slice_chars(piece, 0, m));
            assert(piece@.subrange(0, m as int) =~= piece@);
        }
        i = i + 1;
    }
    lines
}

} // verus!

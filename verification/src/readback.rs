//! Written games read back: the text `Game::score` writes, imported again,
//! replays the same positions, and a PGN export reads back as the same
//! game, tags and result.

use vstd::prelude::*;

use crate::action::{spec_text_action, Action};
use crate::game::{
    apply_game_spec, auto_mode, mode_before, new_game_spec, quiet, quiet_run, result_text,
    score_spec, score_upto, valid_history, well_formed, GameModel,
};
use crate::inverse::{
    lemma_accepted_mover, lemma_san_chars, lemma_san_reads_back, passant_rival, san_char,
    san_lead,
};
use crate::pgn::{
    comment_scan, export_result, export_spec, fold_sans, header_fold, import_spec, is_marker,
    key_before, keys_ordered, lemma_key_irreflexive, lemma_key_transitive, lemma_tags_insert, joined, last_index_of,
    leading_digits, leading_dots, other_lines, roster, roster_lines, score_moves, tag_line,
    tag_pair_spec, tags_get,
    byte_len, lex_spec, movetext_moves, parse_spec, split_tags_spec, strip_comments_spec, wrap_scan,
    wrap_spec,
    strip_move_number_spec, token_of, tokens_of, verify_result_spec, PgnModel, TagModel,
    TokenModel,
};
use crate::piece::{spec_opponent, Color, Piece, Role};
use crate::position::start_model;
use crate::reduce::{Edit, Mode, Rejection};
use crate::rules::{
    abs, apply_edits, apply_spec, castle_wing, expand_spec, king_home, move_edits, pawn_dir,
    pawn_reaches, piece_on, promoted_role, reduce_spec, PositionModel,
};
use crate::san::spec_to_san;
use crate::square::{lemma_square_valid, square_at};
use crate::text::{
    all_chars, decimal, index_of, is_space, lemma_all_chars_join, lemma_decimal_digits, lemma_scan_space,
    lemma_scan_word, lemma_split_piece, lemma_split_sep, no_space, split_on, strip_cr, text_lines,
    trim, trim_end, trim_start, word_scan, words,
};

verus! {

/// The SAN a game's ply `i` is written in.
pub open spec fn san_word(g: GameModel, i: int) -> Seq<char> {
    spec_to_san(g.history[i], g.log[i], false)->Ok_0
}

/// The move number written before White's ply `i`: `12.`.
pub open spec fn number_word(i: int) -> Seq<char> {
    decimal((i / 2 + 1) as nat).push('.')
}

/// The words of the first `k` plies of a score: a move number before each
/// of White's moves, then the move.
pub open spec fn score_words(g: GameModel, k: int) -> Seq<Seq<char>>
    decreases k,
{
    if k <= 0 {
        Seq::<Seq<char>>::empty()
    } else {
        score_words(g, k - 1) + (if g.history[k - 1].turn == Color::White {
            seq![number_word(k - 1)]
        } else {
            Seq::<Seq<char>>::empty()
        }) + seq![san_word(g, k - 1)]
    }
}

/// The characters a score is written in.
pub open spec fn score_char(c: char) -> bool {
    san_char(c) || ('0' <= c <= '9') || c == '.' || c == ' ' || c == '*' || c == '/'
}

/// A move number is a word of digits and a dot.
proof fn lemma_number_word(i: int)
    requires
        0 <= i,
    ensures
        number_word(i).len() >= 2,
        no_space(number_word(i)),
        all_chars(number_word(i), |c: char| score_char(c)),
        '0' <= number_word(i)[0] <= '9',
        number_word(i).last() == '.',
{
    let d = decimal((i / 2 + 1) as nat);
    lemma_decimal_digits((i / 2 + 1) as nat);
    assert(number_word(i)[0] == d[0]);
    assert forall|j: int| 0 <= j < number_word(i).len() implies score_char(#[trigger] number_word(i)[j]) && !crate::text::is_space(number_word(i)[j]) by {
        if j < d.len() {
            assert(number_word(i)[j] == d[j]);
        }
    }
}

/// What every accepted ply's SAN is as a word.
proof fn lemma_san_word(g: GameModel, i: int)
    requires
        valid_history(g.start, g.log, g.history),
        0 <= i < g.log.len(),
    ensures
        san_word(g, i).len() > 0,
        no_space(san_word(g, i)),
        all_chars(san_word(g, i), |c: char| score_char(c)),
        san_lead(san_word(g, i)[0]),
{
    assert(reduce_spec(g.history[i], g.log[i]) is Ok);
    lemma_san_chars(g.history[i], g.log[i]);
    let w = san_word(g, i);
    assert forall|j: int| 0 <= j < w.len() implies score_char(#[trigger] w[j]) && !crate::text::is_space(w[j]) by {
        assert(san_char(w[j]));
    }
}

/// A word and a space after text that ends outside a word.
proof fn lemma_one_word(before: Seq<char>, word: Seq<char>, p: spec_fn(char) -> bool)
    requires
        !word_scan(before).1,
        word.len() > 0,
        no_space(word),
        all_chars(before, p),
        all_chars(word, p),
        p(' '),
    ensures
        word_scan((before + word).push(' ')) == (word_scan(before).0.push(word), false),
        all_chars((before + word).push(' '), p),
{
    lemma_scan_word(before, word);
    lemma_scan_space(before + word, ' ');
    lemma_all_chars_join(before, word, p);
    lemma_all_chars_join(before + word, seq![' '], p);
    assert(before + word + seq![' '] =~= (before + word).push(' '));
}

/// The first `k` plies of a score scan as their words, ending outside a
/// word, and are written in score characters.
proof fn lemma_score_scan(g: GameModel, k: int)
    requires
        valid_history(g.start, g.log, g.history),
        0 <= k <= g.log.len(),
    ensures
        word_scan(score_upto(g.history, g.log, k, false)) == (score_words(g, k), false),
        all_chars(score_upto(g.history, g.log, k, false), |c: char| score_char(c)),
    decreases k,
{
    let p = |c: char| score_char(c);
    if k > 0 {
        lemma_score_scan(g, k - 1);
        let before = score_upto(g.history, g.log, k - 1, false);
        let san = san_word(g, k - 1);
        lemma_san_word(g, k - 1);
        assert(p(' '));
        if g.history[k - 1].turn == Color::White {
            let num = number_word(k - 1);
            lemma_number_word(k - 1);
            let t1 = (before + num).push(' ');
            lemma_one_word(before, num, p);
            lemma_one_word(t1, san, p);
            assert(score_upto(g.history, g.log, k, false) =~= (t1 + san).push(' '));
            assert(score_words(g, k) =~= score_words(g, k - 1).push(num).push(san));
        } else {
            lemma_one_word(before, san, p);
            assert(score_upto(g.history, g.log, k, false) =~= (before + san).push(' '));
            assert(score_words(g, k) =~= score_words(g, k - 1).push(san));
        }
    } else {
        assert(all_chars(score_upto(g.history, g.log, 0, false), p));
    }
}

/// Digits at the front of a word are counted before whatever follows.
proof fn lemma_leading_digits(d: Seq<char>, r: Seq<char>)
    requires
        forall|i: int| 0 <= i < d.len() ==> '0' <= #[trigger] d[i] <= '9',
    ensures
        leading_digits(d + r) == d.len() + leading_digits(r),
    decreases d.len(),
{
    if d.len() > 0 {
        assert((d + r)[0] == d[0]);
        assert((d + r).drop_first() =~= d.drop_first() + r);
        lemma_leading_digits(d.drop_first(), r);
    } else {
        assert(d + r =~= r);
    }
}

/// A move number is no token: the reader drops it.
proof fn lemma_number_token(i: int)
    requires
        0 <= i,
    ensures
        token_of(number_word(i)) is None,
{
    let w = number_word(i);
    let d = decimal((i / 2 + 1) as nat);
    lemma_number_word(i);
    lemma_decimal_digits((i / 2 + 1) as nat);
    lemma_leading_digits(d, seq!['.']);
    assert(d + seq!['.'] =~= w);
    assert(leading_digits(seq!['.']) == 0);
    let rest = w.subrange(d.len() as int, w.len() as int);
    assert(rest =~= seq!['.']);
    assert(rest.drop_first() =~= Seq::<char>::empty());
    assert(rest[0] == '.');
    assert(leading_dots(Seq::<char>::empty()) == 0);
    assert(leading_dots(rest) == 1);
    assert(strip_move_number_spec(w) =~= Seq::<char>::empty());
    assert(!is_marker(w)) by {
        if is_marker(w) {
            assert(w.last() != '.');
        }
    }
    assert(w != seq!['(']) by {
        assert(w.len() >= 2);
    }
    assert(w != seq![')']) by {
        assert(w.len() >= 2);
    }
}

/// Each ply's SAN is read as itself.
proof fn lemma_san_token(g: GameModel, i: int)
    requires
        valid_history(g.start, g.log, g.history),
        0 <= i < g.log.len(),
    ensures
        token_of(san_word(g, i)) == Some(TokenModel::San(san_word(g, i))),
{
    let w = san_word(g, i);
    lemma_san_word(g, i);
    assert(leading_digits(w) == 0);
    assert(strip_move_number_spec(w) == w);
    assert(!is_marker(w)) by {
        if is_marker(w) {
            assert(w[0] == '1' || w[0] == '0' || w[0] == '*');
        }
    }
    assert(w != seq!['(']) by {
        if w == seq!['('] {
            assert(w[0] == '(');
        }
    }
    assert(w != seq![')']) by {
        if w == seq![')'] {
            assert(w[0] == ')');
        }
    }
}


/// Words after the first `k` leave the first `k` words' tokens alone.
proof fn lemma_tokens_prefix(ws: Seq<Seq<char>>, w: Seq<char>, k: int)
    requires
        0 <= k <= ws.len(),
    ensures
        tokens_of(ws.push(w), k) == tokens_of(ws, k),
    decreases k,
{
    if k > 0 {
        lemma_tokens_prefix(ws, w, k - 1);
        assert(ws.push(w)[k - 1] == ws[k - 1]);
    }
}

/// The tokens of a word list with one more word.
proof fn lemma_tokens_push(ws: Seq<Seq<char>>, w: Seq<char>)
    ensures
        tokens_of(ws.push(w), ws.len() + 1int) == match token_of(w) {
            Some(t) => tokens_of(ws, ws.len() as int).push(t),
            None => tokens_of(ws, ws.len() as int),
        },
{
    lemma_tokens_prefix(ws, w, ws.len() as int);
    assert(ws.push(w)[ws.len() as int] == w);
}

/// The SAN tokens of a game's first `k` plies.
pub open spec fn san_tokens(g: GameModel, k: int) -> Seq<TokenModel> {
    Seq::new(k as nat, |i: int| TokenModel::San(san_word(g, i)))
}

/// A score's words read as the plies' SAN, in order.
proof fn lemma_score_tokens(g: GameModel, k: int)
    requires
        valid_history(g.start, g.log, g.history),
        0 <= k <= g.log.len(),
    ensures
        tokens_of(score_words(g, k), score_words(g, k).len() as int) == san_tokens(g, k),
    decreases k,
{
    if k > 0 {
        lemma_score_tokens(g, k - 1);
        let before = score_words(g, k - 1);
        let san = san_word(g, k - 1);
        lemma_san_token(g, k - 1);
        if g.history[k - 1].turn == Color::White {
            let num = number_word(k - 1);
            lemma_number_token(k - 1);
            lemma_tokens_push(before, num);
            lemma_tokens_push(before.push(num), san);
            assert(score_words(g, k) =~= before.push(num).push(san));
        } else {
            lemma_tokens_push(before, san);
            assert(score_words(g, k) =~= before.push(san));
        }
        assert(san_tokens(g, k) =~= san_tokens(g, k - 1).push(TokenModel::San(san)));
    } else {
        assert(san_tokens(g, 0) =~= Seq::<TokenModel>::empty());
    }
}

/// SAN tokens ended by a result marker read as those moves and that result.
proof fn lemma_moves_read(sans: Seq<Seq<char>>, result: Seq<char>)
    ensures
        movetext_moves(
            Seq::new(sans.len(), |i: int| TokenModel::San(sans[i])).push(TokenModel::Marker(result)),
        ) == Ok::<(Seq<Seq<char>>, Option<Seq<char>>), Rejection>((sans, Some(result))),
    decreases sans.len(),
{
    let tokens = Seq::new(sans.len(), |i: int| TokenModel::San(sans[i])).push(
        TokenModel::Marker(result),
    );
    if sans.len() > 0 {
        let rest = sans.drop_first();
        lemma_moves_read(rest, result);
        assert(tokens.drop_first() =~= Seq::new(rest.len(), |i: int| TokenModel::San(rest[i])).push(
            TokenModel::Marker(result),
        ));
        assert(tokens[0] == TokenModel::San(sans[0]));
        assert(seq![sans[0]] + rest =~= sans);
        assert(movetext_moves(tokens) == crate::pgn::prepend(
            seq![sans[0]],
            movetext_moves(tokens.drop_first()),
        ));
    } else {
        assert(tokens[0] == TokenModel::Marker(result));
        assert(sans =~= Seq::<Seq<char>>::empty());
    }
}

/// Characters the comment scanner passes through untouched.
pub open spec fn plain(c: char) -> bool {
    c != '\n' && c != '{' && c != '}' && c != ';' && c != '(' && c != ')'
}

/// Text without newlines, braces, semicolons or parentheses has no
/// comments to strip.
proof fn lemma_plain_scan(text: Seq<char>)
    requires
        all_chars(text, |c: char| plain(c)),
    ensures
        comment_scan(text) == (text, false, false),
    decreases text.len(),
{
    if text.len() > 0 {
        let head = text.drop_last();
        assert(all_chars(head, |c: char| plain(c))) by {
            assert forall|i: int| 0 <= i < head.len() implies plain(#[trigger] head[i]) by {
                assert(head[i] == text[i]);
            }
        }
        lemma_plain_scan(head);
        assert(plain(text[text.len() - 1]));
        assert(head.push(text.last()) =~= text);
    }
}

/// A result marker is a word the reader takes as the result.
proof fn lemma_result_word(mode: Mode)
    ensures
        result_text(mode).len() > 0,
        no_space(result_text(mode)),
        all_chars(result_text(mode), |c: char| score_char(c)),
        token_of(result_text(mode)) == Some(TokenModel::Marker(result_text(mode))),
        result_text(mode)[0] != '[',
{
    let r = result_text(mode);
    assert(is_marker(r));
    assert(r != seq!['(']) by {
        if r == seq!['('] {
            assert(r[0] == '(');
        }
    }
    assert(r != seq![')']) by {
        if r == seq![')'] {
            assert(r[0] == ')');
        }
    }
}

/// A score's first character is no space and opens no tag.
proof fn lemma_score_head(g: GameModel, k: int)
    requires
        valid_history(g.start, g.log, g.history),
        1 <= k <= g.log.len(),
    ensures
        score_upto(g.history, g.log, k, false).len() > 0,
        !is_space(score_upto(g.history, g.log, k, false)[0]),
        score_upto(g.history, g.log, k, false)[0] != '[',
    decreases k,
{
    if k > 1 {
        lemma_score_head(g, k - 1);
        let before = score_upto(g.history, g.log, k - 1, false);
        assert(score_upto(g.history, g.log, k, false)[0] == before[0]);
    } else {
        lemma_san_word(g, 0);
        let san = san_word(g, 0);
        let first = score_upto(g.history, g.log, 1, false);
        assert(score_upto(g.history, g.log, 0, false) =~= Seq::<char>::empty());
        if g.history[0].turn == Color::White {
            lemma_number_word(0);
            assert(first =~= number_word(0).push(' ') + san + seq![' ']);
            assert(first[0] == number_word(0)[0]);
        } else {
            assert(first =~= san + seq![' ']);
            assert(first[0] == san[0]);
        }
    }
}

/// The moves a score's text is read as.
pub open spec fn score_sans(g: GameModel) -> Seq<Seq<char>> {
    Seq::new(g.log.len(), |i: int| san_word(g, i))
}

/// A score parses as PGN with no tags, its plies' SAN, and its result.
proof fn lemma_score_parses(g: GameModel)
    requires
        valid_history(g.start, g.log, g.history),
    ensures
        parse_spec(score_spec(g, false)) == Ok::<PgnModel, Rejection>(
            PgnModel {
                tags: Seq::<TagModel>::empty(),
                sans: score_sans(g),
                result: Some(result_text(g.mode)),
            },
        ),
{
    let n = g.log.len() as int;
    let body = score_upto(g.history, g.log, n, false);
    let r = result_text(g.mode);
    let text = score_spec(g, false);
    assert(text == body + r);
    lemma_score_scan(g, n);
    lemma_result_word(g.mode);
    let p = |c: char| score_char(c);
    lemma_all_chars_join(body, r, p);
    // One line, no tags.
    assert(all_chars(text, |c: char| plain(c))) by {
        assert forall|i: int| 0 <= i < text.len() implies plain(#[trigger] text[i]) by {
            assert(score_char(text[i]));
        }
    }
    assert(!text.contains('\n')) by {
        if text.contains('\n') {
            let i = choose|i: int| 0 <= i < text.len() && text[i] == '\n';
            assert(plain(text[i]));
        }
    }
    let empty = Seq::<char>::empty();
    lemma_split_piece(empty, text, '\n');
    assert(empty + text =~= text);
    assert(split_on(text, '\n') =~= seq![text]);
    assert(text_lines(text) =~= seq![text]);
    assert(text.len() > 0 && !is_space(text[0]) && text[0] != '[') by {
        if n > 0 {
            lemma_score_head(g, n);
            assert(text[0] == body[0]);
        } else {
            assert(body =~= Seq::<char>::empty());
            assert(text[0] == r[0]);
            assert(score_char(r[0]));
        }
    }
    assert(!is_space(text.last())) by {
        assert(text.last() == r[r.len() - 1]);
        assert(score_char(r[r.len() - 1]));
    }
    assert(trim_start(text) == text);
    assert(trim_end(text) == text);
    assert(trim(text) == text);
    let lines = text_lines(text);
    assert(lines[0] == text);
    assert(header_fold(lines, 0) == Ok::<(Seq<TagModel>, Seq<char>), Rejection>(
        (Seq::<TagModel>::empty(), Seq::<char>::empty()),
    ));
    let movetext = text.push('\n');
    assert(empty + movetext =~= movetext);
    assert(split_tags_spec(text) == Ok::<(Seq<TagModel>, Seq<char>), Rejection>(
        (Seq::<TagModel>::empty(), movetext),
    ));
    // Its words.
    lemma_plain_scan(text);
    assert(movetext.drop_last() =~= text);
    assert(strip_comments_spec(movetext) == text.push(' '));
    lemma_scan_word(body, r);
    lemma_scan_space(text, ' ');
    let ws = words(text.push(' '));
    assert(ws == score_words(g, n).push(r));
    // Its tokens and moves.
    lemma_score_tokens(g, n);
    lemma_tokens_push(score_words(g, n), r);
    assert(lex_spec(movetext) == san_tokens(g, n).push(TokenModel::Marker(r)));
    let sans = score_sans(g);
    lemma_moves_read(sans, r);
    assert(san_tokens(g, n) =~= Seq::new(sans.len(), |i: int| TokenModel::San(sans[i])));
}

/// What importing the first `k` moves of `g`'s score has rebuilt: the
/// first `k` plies' positions and actions, and the mode those plies reach.
pub open spec fn rebuilt(g: GameModel, h: GameModel, k: int) -> bool {
    &&& h.history == g.history.take(k + 1)
    &&& h.log == g.log.take(k)
    &&& h.mode == auto_mode(h.history, h.log)
}

/// One more move of a score, read back over what the earlier ones rebuilt,
/// rebuilds one more ply.
proof fn lemma_fold_step(g: GameModel, k: int, h: GameModel)
    requires
        well_formed(g),
        forall|i: int| 0 <= i < g.log.len() ==> !passant_rival(g.history[i], #[trigger] g.log[i]),
        1 <= k <= g.log.len(),
        rebuilt(g, h, k - 1),
    ensures
        apply_game_spec(h, spec_text_action(san_word(g, k - 1), g.history[k - 1])) matches Ok(h2)
            && rebuilt(g, h2, k),
{
    let before = g.history[k - 1];
    assert(h.history.last() == before);
    // The game was still playing.
    assert(mode_before(g.history, g.log, k - 1) == Mode::Playing);
    assert(h.mode == Mode::Playing);
    // The move reads back.
    assert(reduce_spec(before, g.log[k - 1]) == Ok::<PositionModel, Rejection>(g.history[k]));
    lemma_san_reads_back(before, g.log[k - 1]);
    let b = spec_text_action(san_word(g, k - 1), before)->Ok_0;
    let next = apply_game_spec(h, spec_text_action(san_word(g, k - 1), before));
    assert(next == Ok::<GameModel, Rejection>(
        GameModel {
            start: h.start,
            log: h.log.push(b),
            history: h.history.push(g.history[k]),
            mode: auto_mode(h.history.push(g.history[k]), h.log.push(b)),
        },
    ));
    let h2 = next->Ok_0;
    assert(h2.history =~= g.history.take(k + 1));
    assert(h2.log =~= g.log.take(k));
}

/// Folding the first `k` moves of a score over a new game rebuilds them.
proof fn lemma_fold_score(g: GameModel, k: int)
    requires
        well_formed(g),
        g.start == start_model(),
        forall|i: int| 0 <= i < g.log.len() ==> !passant_rival(g.history[i], #[trigger] g.log[i]),
        0 <= k <= g.log.len(),
    ensures
        fold_sans(new_game_spec(start_model()), score_sans(g).take(k)) matches Ok(h) && rebuilt(g, h, k),
    decreases k,
{
    let sans = score_sans(g);
    if k == 0 {
        let ng = new_game_spec(start_model());
        assert(sans.take(0) =~= Seq::<Seq<char>>::empty());
        crate::study::lemma_new_game_mode(start_model());
        assert(ng.history =~= g.history.take(1));
        assert(ng.log =~= g.log.take(0));
    } else {
        lemma_fold_score(g, k - 1);
        let h = fold_sans(new_game_spec(start_model()), sans.take(k - 1))->Ok_0;
        assert(sans.take(k).drop_last() =~= sans.take(k - 1));
        assert(sans.take(k).last() == san_word(g, k - 1));
        lemma_fold_step(g, k, h);
    }
}

/// The en-passant square, when there is one, has the pawn that skipped it
/// standing just beyond: on the next square away from the side to move,
/// a piece of the other side.
pub open spec fn passant_behind(m: PositionModel) -> bool {
    match m.passant {
        None => true,
        Some(s) => {
            let rank = s.rank_of() - pawn_dir(m.turn);
            0 <= rank < 8 && (m.board[rank * 8 + s.file_of()] matches Some(q) && q.color != m.turn)
        },
    }
}

/// Edits that skip no square leave the en-passant square as it was.
proof fn lemma_no_skip(m: PositionModel, edits: Seq<Edit>)
    requires
        forall|i: int| 0 <= i < edits.len() ==> !(#[trigger] edits[i] is Skip),
    ensures
        apply_edits(m, edits).passant == m.passant,
    decreases edits.len(),
{
    if edits.len() > 0 {
        assert forall|i: int| 0 <= i < edits.drop_last().len() implies !(#[trigger] edits.drop_last()[i] is Skip) by {
            assert(edits.drop_last()[i] == edits[i]);
        }
        lemma_no_skip(m, edits.drop_last());
        assert(edits.last() == edits[edits.len() - 1]);
    }
}

/// Edits keep the board's size.
proof fn lemma_edits_len(m: PositionModel, edits: Seq<Edit>)
    requires
        m.board.len() == 64,
    ensures
        apply_edits(m, edits).board.len() == 64,
    decreases edits.len(),
{
    if edits.len() > 0 {
        lemma_edits_len(m, edits.drop_last());
        match edits.last() {
            Edit::Lift(s) => lemma_square_valid(s),
            Edit::Place(s, _) => lemma_square_valid(s),
            Edit::Skip(_) => {},
        }
    }
}

/// Every position a move reaches keeps its en-passant square behind the
/// pawn that skipped it, and the board its size.
proof fn lemma_move_passant(m: PositionModel, a: Action)
    requires
        reduce_spec(m, a) is Ok,
        m.board.len() == 64,
    ensures
        passant_behind(reduce_spec(m, a)->Ok_0),
        reduce_spec(m, a)->Ok_0.board.len() == 64,
{
    lemma_edits_len(PositionModel { passant: None, ..m }, expand_spec(m, a)->Ok_0);
    let edits = expand_spec(m, a)->Ok_0;
    let m0 = PositionModel { passant: None, ..m };
    let next = reduce_spec(m, a)->Ok_0;
    assert(next == apply_spec(m, edits));
    let from = a.from_sq();
    let to = a.to_sq();
    let piece = piece_on(m, from)->0;
    lemma_square_valid(from);
    lemma_square_valid(to);
    if piece.role == Role::King && from == king_home(piece.color) && castle_wing(piece.color, to) is Some {
        lemma_no_skip(m0, edits);
    } else {
        let role = promoted_role(piece, from, to, match a {
            Action::Move { .. } => None,
            Action::Promote { into, .. } => Some(into),
        })->Ok_0;
        assert(edits == move_edits(m, piece, from, to, role));
        if piece.role == Role::Pawn && abs(from.rank_of() - to.rank_of()) == 2 {
            assert(pawn_reaches(m, piece.color, from, to));
            assert(from.file_of() == to.file_of());
            assert(piece_on(m, to) is None);
            let s = square_at(from.file_of(), (from.rank_of() + to.rank_of()) / 2);
            let p2 = Piece { color: piece.color, role };
            assert(edits =~= seq![Edit::Lift(from), Edit::Place(to, p2), Edit::Skip(s)]);
            let e1 = seq![Edit::Lift(from)];
            let e2 = e1.push(Edit::Place(to, p2));
            assert(edits.drop_last() =~= e2);
            assert(e2.drop_last() =~= e1);
            assert(e1.drop_last() =~= Seq::<Edit>::empty());
            let after = apply_edits(m0, edits);
            let lifted = apply_edits(m0, e1);
            let placed = apply_edits(m0, e2);
            lemma_edits_len(m0, e1);
            assert(placed.board == lifted.board.update(to.idx(), Some(p2)));
            assert(placed.board[to.idx()] == Some(p2));
            assert(after.board == placed.board);
            assert(after.passant == Some(s));
            assert(after.board[to.idx()] == Some(p2));
            crate::square::lemma_square_at(from.file_of(), (from.rank_of() + to.rank_of()) / 2);
            assert(next.turn == spec_opponent(m.turn));
            assert(piece.color == m.turn);
        } else {
            assert forall|i: int| 0 <= i < edits.len() implies !(#[trigger] edits[i] is Skip) by {
                let capture = if piece_on(m, to) is Some {
                    seq![Edit::Lift(to)]
                } else {
                    Seq::<Edit>::empty()
                };
                let en_passant = if piece.role == Role::Pawn && from.file_of() != to.file_of()
                    && m.passant == Some(to) {
                    seq![Edit::Lift(square_at(to.file_of(), from.rank_of()))]
                } else {
                    Seq::<Edit>::empty()
                };
                let core = seq![Edit::Lift(from), Edit::Place(to, Piece { color: piece.color, role })];
                assert(edits =~= capture + en_passant + core);
                if i < capture.len() {
                    assert(edits[i] == capture[i]);
                } else if i < capture.len() + en_passant.len() {
                    assert(edits[i] == en_passant[i - capture.len()]);
                } else {
                    assert(edits[i] == core[i - capture.len() - en_passant.len()]);
                }
            }
            lemma_no_skip(m0, edits);
        }
    }
}

/// A position where the en-passant square lies behind its pawn has no
/// en-passant spelling SAN cannot tell apart.
proof fn lemma_no_passant_rival(m: PositionModel, a: Action)
    requires
        passant_behind(m),
        reduce_spec(m, a) is Ok,
    ensures
        !passant_rival(m, a),
{
    if passant_rival(m, a) {
        let from = a.from_sq();
        let to = a.to_sq();
        lemma_square_valid(from);
        lemma_square_valid(to);
        lemma_accepted_mover(m, a);
        assert(pawn_reaches(m, m.turn, from, to));
        let dir = pawn_dir(m.turn);
        let behind = (to.rank_of() - dir) * 8 + to.file_of();
        assert(m.board[behind] is Some);
        if to.rank_of() - from.rank_of() == dir {
            assert(from.idx() == behind);
        } else {
            assert(from.idx() + 8 * dir == behind);
        }
    }
}

/// Every position of a game from the standard start keeps its en-passant
/// square behind its pawn.
proof fn lemma_history_passant(g: GameModel, i: int)
    requires
        valid_history(g.start, g.log, g.history),
        g.start == start_model(),
        0 <= i < g.history.len(),
    ensures
        passant_behind(g.history[i]),
        g.history[i].board.len() == 64,
    decreases i,
{
    if i > 0 {
        lemma_history_passant(g, i - 1);
        assert(reduce_spec(g.history[i - 1], g.log[i - 1]) == Ok::<PositionModel, Rejection>(g.history[i]));
        lemma_move_passant(g.history[i - 1], g.log[i - 1]);
    } else {
        assert(start_model().board.len() == 64);
    }
}

/// Emission is resolution's inverse: a game played from the standard start,
/// written out as a score and imported again, replays the same actions
/// through the same positions and reaches the mode it reached by itself.
pub proof fn lemma_score_reads_back(g: GameModel)
    requires
        well_formed(g),
        g.start == start_model(),
    ensures
        import_spec(score_spec(g, false)) matches Ok(h) && h.log == g.log && h.history
            == g.history && h.mode == auto_mode(g.history, g.log),
{
    let n = g.log.len() as int;
    assert forall|i: int| 0 <= i < g.log.len() implies !passant_rival(g.history[i], #[trigger] g.log[i]) by {
        lemma_history_passant(g, i);
        assert(reduce_spec(g.history[i], g.log[i]) is Ok);
        lemma_no_passant_rival(g.history[i], g.log[i]);
    }
    lemma_score_parses(g);
    lemma_fold_score(g, n);
    let sans = score_sans(g);
    assert(sans.take(n) =~= sans);
    let h = fold_sans(new_game_spec(start_model()), sans)->Ok_0;
    assert(h.history =~= g.history);
    assert(h.log =~= g.log);
    assert(verify_result_spec(h.mode, result_text(g.mode)) is Ok);
}


/// Lines joined one after another keep their order.
proof fn lemma_joined_append(a: Seq<Seq<char>>, b: Seq<Seq<char>>)
    ensures
        joined(a + b, (a + b).len() as int) == joined(a, a.len() as int) + joined(b, b.len() as int),
    decreases b.len(),
{
    if b.len() == 0 {
        assert(a + b =~= a);
        assert(joined(a, a.len() as int) + joined(b, 0) =~= joined(a, a.len() as int));
    } else {
        let head = b.drop_last();
        lemma_joined_append(a, head);
        assert((a + b).drop_last() =~= a + head);
        lemma_joined_prefix(a + b, (a + b).len() - 1);
        lemma_joined_prefix(b, b.len() - 1);
        assert(joined(a + b, (a + b).len() - 1) == joined(a + head, (a + head).len() as int));
        assert(joined(b, b.len() - 1) == joined(head, head.len() as int));
        assert((a + b)[(a + b).len() - 1] == b[b.len() - 1]);
    }
}

/// The first `n` lines joined depend only on those lines.
proof fn lemma_joined_prefix(lines: Seq<Seq<char>>, n: int)
    requires
        0 <= n <= lines.len(),
    ensures
        joined(lines, n) == joined(lines.take(n), n),
    decreases n,
{
    if n > 0 {
        lemma_joined_prefix(lines, n - 1);
        lemma_joined_prefix(lines.take(n), n - 1);
        assert(lines.take(n).take(n - 1) =~= lines.take(n - 1));
        assert(lines.take(n)[n - 1] == lines[n - 1]);
    }
}

/// Joined lines split back at their newlines, with an empty piece after
/// the last.
proof fn lemma_split_joined(lines: Seq<Seq<char>>)
    requires
        forall|i: int| 0 <= i < lines.len() ==> !(#[trigger] lines[i]).contains('\n'),
    ensures
        split_on(joined(lines, lines.len() as int), '\n') == lines.push(Seq::<char>::empty()),
    decreases lines.len(),
{
    if lines.len() == 0 {
        assert(split_on(Seq::<char>::empty(), '\n') =~= seq![Seq::<char>::empty()]);
    } else {
        let head = lines.drop_last();
        assert forall|i: int| 0 <= i < head.len() implies !(#[trigger] head[i]).contains('\n') by {
            assert(head[i] == lines[i]);
        }
        lemma_split_joined(head);
        let before = joined(head, head.len() as int);
        let last = lines[lines.len() - 1];
        lemma_joined_prefix(lines, lines.len() - 1);
        assert(lines.take(lines.len() - 1) =~= head);
        assert(joined(lines, lines.len() as int) == before + last.push('\n'));
        assert(before + last.push('\n') =~= (before + last).push('\n'));
        lemma_split_piece(before, last, '\n');
        lemma_split_sep(before + last, '\n');
        assert(Seq::<char>::empty() + last =~= last);
        assert(split_on(before + last, '\n') =~= head.push(last));
        assert(head.push(last) =~= lines);
    }
}

/// Joined lines are read back as those lines when none holds a newline
/// or ends in a carriage return.
proof fn lemma_lines_joined(lines: Seq<Seq<char>>)
    requires
        forall|i: int| 0 <= i < lines.len() ==> !(#[trigger] lines[i]).contains('\n'),
        forall|i: int| 0 <= i < lines.len() ==> strip_cr(#[trigger] lines[i]) == lines[i],
    ensures
        text_lines(joined(lines, lines.len() as int)) == lines,
{
    lemma_split_joined(lines);
    let pieces = lines.push(Seq::<char>::empty());
    assert(pieces.last().len() == 0);
    assert(text_lines(joined(lines, lines.len() as int)) =~= lines);
}

/// Text with newlines read as spaces.
pub open spec fn spaced(text: Seq<char>) -> Seq<char> {
    Seq::new(text.len(), |i: int| if text[i] == '\n' { ' ' } else { text[i] })
}

/// Text whose characters are plain or newlines has no comments: the
/// scanner only turns its newlines into spaces.
proof fn lemma_scan_lines(text: Seq<char>)
    requires
        forall|i: int| 0 <= i < text.len() ==> plain(#[trigger] text[i]) || text[i] == '\n',
    ensures
        comment_scan(text) == (spaced(text), false, false),
    decreases text.len(),
{
    if text.len() > 0 {
        let head = text.drop_last();
        assert forall|i: int| 0 <= i < head.len() implies plain(#[trigger] head[i]) || head[i] == '\n' by {
            assert(head[i] == text[i]);
        }
        lemma_scan_lines(head);
        assert(text.last() == text[text.len() - 1]);
        assert(spaced(text) =~= spaced(head).push(if text.last() == '\n' { ' ' } else { text.last() }));
    } else {
        assert(spaced(text) =~= Seq::<char>::empty());
    }
}

/// Lines, each followed by a space.
pub open spec fn spaced_lines(lines: Seq<Seq<char>>, n: int) -> Seq<char>
    decreases n,
{
    if n <= 0 {
        Seq::<char>::empty()
    } else {
        spaced_lines(lines, n - 1) + lines[n - 1].push(' ')
    }
}

/// Joined lines without newlines of their own read as lines each followed
/// by a space.
proof fn lemma_spaced_joined(lines: Seq<Seq<char>>, n: int)
    requires
        0 <= n <= lines.len(),
        forall|i: int| 0 <= i < lines.len() ==> !(#[trigger] lines[i]).contains('\n'),
    ensures
        spaced(joined(lines, n)) == spaced_lines(lines, n),
    decreases n,
{
    if n > 0 {
        lemma_spaced_joined(lines, n - 1);
        let a = joined(lines, n - 1);
        let l = lines[n - 1];
        assert(spaced(a + l.push('\n')) =~= spaced(a) + l.push(' ')) by {
            assert forall|i: int| 0 <= i < l.len() implies l[i] != '\n' by {
                if l[i] == '\n' {
                    assert(l.contains('\n'));
                }
            }
        }
    } else {
        assert(spaced(Seq::<char>::empty()) =~= Seq::<char>::empty());
    }
}


/// Lines after the first `k` leave those lines' spaced form alone.
proof fn lemma_spaced_prefix(lines: Seq<Seq<char>>, more: Seq<char>, k: int)
    requires
        0 <= k <= lines.len(),
    ensures
        spaced_lines(lines.push(more), k) == spaced_lines(lines, k),
    decreases k,
{
    if k > 0 {
        lemma_spaced_prefix(lines, more, k - 1);
        assert(lines.push(more)[k - 1] == lines[k - 1]);
    }
}

/// What every word of a score satisfies.
pub open spec fn good_word(w: Seq<char>) -> bool {
    w.len() > 0 && no_space(w) && all_chars(w, |c: char| score_char(c))
}

/// Greedy wrapping keeps the words, in order: the finished lines and the
/// line being filled, each followed by a space, scan as the words so far.
proof fn lemma_wrap_scan(ws: Seq<Seq<char>>, n: int, width: int)
    requires
        0 <= n <= ws.len(),
        forall|i: int| 0 <= i < ws.len() ==> good_word(#[trigger] ws[i]),
    ensures
        word_scan(
            spaced_lines(wrap_scan(ws, n, width).0, wrap_scan(ws, n, width).0.len() as int) + wrap_scan(
                ws,
                n,
                width,
            ).1,
        ) == (ws.take(n), n > 0),
        (wrap_scan(ws, n, width).1.len() > 0) == (n > 0),
        all_chars(wrap_scan(ws, n, width).1, |c: char| score_char(c)),
        forall|i: int|
            0 <= i < wrap_scan(ws, n, width).0.len() ==> (#[trigger] wrap_scan(ws, n, width).0[i]).len()
                > 0 && all_chars(wrap_scan(ws, n, width).0[i], |c: char| score_char(c)),
        n > 0 ==> (if wrap_scan(ws, n, width).0.len() > 0 {
            wrap_scan(ws, n, width).0[0][0]
        } else {
            wrap_scan(ws, n, width).1[0]
        }) == ws[0][0],
    decreases n,
{
    let p = |c: char| score_char(c);
    if n == 0 {
        assert(ws.take(0) =~= Seq::<Seq<char>>::empty());
        assert(spaced_lines(Seq::<Seq<char>>::empty(), 0) + Seq::<char>::empty() =~= Seq::<char>::empty());
    } else {
        lemma_wrap_scan(ws, n - 1, width);
        let (lines0, line0) = wrap_scan(ws, n - 1, width);
        let word = ws[n - 1];
        assert(good_word(word));
        let t0 = spaced_lines(lines0, lines0.len() as int) + line0;
        let brk = line0.len() > 0 && byte_len(line0) + 1 + byte_len(word) > width;
        let (lines, line) = wrap_scan(ws, n, width);
        assert(ws.take(n) =~= ws.take(n - 1).push(word));
        assert(p(' '));
        if line0.len() > 0 {
            lemma_scan_space(t0, ' ');
            lemma_scan_word(t0.push(' '), word);
            lemma_all_chars_join(line0, seq![' '], p);
            if brk {
                assert(lines == lines0.push(line0));
                assert(line == word);
                lemma_spaced_prefix(lines0, line0, lines0.len() as int);
                assert(spaced_lines(lines, lines.len() as int) + line =~= t0.push(' ') + word);
                assert forall|i: int| 0 <= i < lines.len() implies (#[trigger] lines[i]).len() > 0 && all_chars(lines[i], p) by {
                    if i < lines0.len() {
                        assert(lines[i] == lines0[i]);
                    }
                }
            } else {
                assert(lines == lines0);
                assert(line == line0.push(' ') + word);
                lemma_all_chars_join(line0.push(' '), word, p);
                assert(spaced_lines(lines, lines.len() as int) + line =~= t0.push(' ') + word);
            }
        } else {
            assert(n - 1 == 0);
            assert(lines0 =~= Seq::<Seq<char>>::empty());
            assert(lines == lines0 && line == word);
            let e = Seq::<char>::empty();
            lemma_scan_word(e, word);
            assert(e + word =~= word);
            assert(spaced_lines(lines, 0) + line =~= word);
            assert(ws.take(1) =~= seq![word]);
        }
    }
}

/// The words of wrapped lines, each followed by a space, are the words
/// wrapped; every line is a nonempty run of score characters, the first
/// beginning with the first word.
proof fn lemma_wrap_words(text: Seq<char>, width: int)
    requires
        forall|i: int| 0 <= i < words(text).len() ==> good_word(#[trigger] words(text)[i]),
    ensures
        words(spaced_lines(wrap_spec(text, width), wrap_spec(text, width).len() as int)) == words(text),
        forall|i: int|
            0 <= i < wrap_spec(text, width).len() ==> (#[trigger] wrap_spec(text, width)[i]).len() > 0
                && all_chars(wrap_spec(text, width)[i], |c: char| score_char(c)),
        wrap_spec(text, width).len() > 0 ==> wrap_spec(text, width)[0][0] == words(text)[0][0],
{
    let ws = words(text);
    let n = ws.len() as int;
    lemma_wrap_scan(ws, n, width);
    let (lines, line) = wrap_scan(ws, n, width);
    assert(ws.take(n) =~= ws);
    if line.len() > 0 {
        let out = lines.push(line);
        assert(wrap_spec(text, width) == out);
        lemma_spaced_prefix(lines, line, lines.len() as int);
        let t = spaced_lines(lines, lines.len() as int) + line;
        assert(spaced_lines(out, out.len() as int) =~= t.push(' '));
        lemma_scan_space(t, ' ');
        assert forall|i: int| 0 <= i < out.len() implies (#[trigger] out[i]).len() > 0 && all_chars(out[i], |c: char| score_char(c)) by {
            if i < lines.len() {
                assert(out[i] == lines[i]);
            }
        }
    } else {
        assert(n == 0);
        assert(wrap_spec(text, width) == lines);
        assert(lines =~= Seq::<Seq<char>>::empty());
        assert(spaced_lines(lines, 0) =~= Seq::<char>::empty());
        assert(words(Seq::<char>::empty()) =~= ws);
    }
}


/// A result marker is a word of score characters the reader takes as the
/// result.
proof fn lemma_marker_word(w: Seq<char>)
    requires
        is_marker(w),
    ensures
        good_word(w),
        token_of(w) == Some(TokenModel::Marker(w)),
        w[0] != '[',
{
    assert(w != seq!['(']) by {
        if w == seq!['('] {
            assert(w[0] == '(');
        }
    }
    assert(w != seq![')']) by {
        if w == seq![')'] {
            assert(w[0] == ')');
        }
    }
}

/// Every word of a score is a good word.
proof fn lemma_score_words_good(g: GameModel, k: int)
    requires
        valid_history(g.start, g.log, g.history),
        0 <= k <= g.log.len(),
    ensures
        forall|i: int| 0 <= i < score_words(g, k).len() ==> good_word(#[trigger] score_words(g, k)[i]),
    decreases k,
{
    if k > 0 {
        lemma_score_words_good(g, k - 1);
        lemma_san_word(g, k - 1);
        lemma_number_word(k - 1);
        let before = score_words(g, k - 1);
        let out = score_words(g, k);
        assert forall|i: int| 0 <= i < out.len() implies good_word(#[trigger] out[i]) by {
            if i < before.len() {
                assert(out[i] == before[i]);
            }
        }
    }
}

/// The last occurrence of `c` is not moved by text without it.
proof fn lemma_last_index_after(a: Seq<char>, b: Seq<char>, c: char)
    requires
        !b.contains(c),
    ensures
        last_index_of(a + b, c) == last_index_of(a, c),
    decreases b.len(),
{
    if b.len() == 0 {
        assert(a + b =~= a);
    } else {
        assert((a + b).drop_last() =~= a + b.drop_last());
        assert((a + b).last() == b[b.len() - 1]);
        assert(!b.drop_last().contains(c)) by {
            if b.drop_last().contains(c) {
                let i = choose|i: int| 0 <= i < b.drop_last().len() && b.drop_last()[i] == c;
                assert(b[i] == c);
            }
        }
        lemma_last_index_after(a, b.drop_last(), c);
    }
}

/// A score's text ends each ply with a space.
proof fn lemma_score_ends_spaced(g: GameModel, k: int)
    requires
        1 <= k <= g.log.len(),
    ensures
        score_upto(g.history, g.log, k, false).len() > 0,
        score_upto(g.history, g.log, k, false).last() == ' ',
{
}

/// The moves an export writes: the score with the export's result in
/// place of the game's own marker.
pub open spec fn export_moves(g: GameModel, result: Seq<char>) -> Seq<char> {
    score_moves(score_spec(g, false)) + seq![' '] + result
}

/// An export's moves are the score's words and then the result.
proof fn lemma_export_words(g: GameModel, result: Seq<char>)
    requires
        valid_history(g.start, g.log, g.history),
        is_marker(result),
    ensures
        words(export_moves(g, result)) == score_words(g, g.log.len() as int).push(result),
        forall|i: int|
            0 <= i < words(export_moves(g, result)).len() ==> good_word(
                #[trigger] words(export_moves(g, result))[i],
            ),
{
    let n = g.log.len() as int;
    let body = score_upto(g.history, g.log, n, false);
    let own = result_text(g.mode);
    lemma_result_word(g.mode);
    lemma_marker_word(result);
    lemma_score_scan(g, n);
    lemma_score_words_good(g, n);
    assert(!own.contains(' ')) by {
        if own.contains(' ') {
            let i = choose|i: int| 0 <= i < own.len() && own[i] == ' ';
        }
    }
    lemma_last_index_after(body, own, ' ');
    let text = export_moves(g, result);
    if n > 0 {
        lemma_score_ends_spaced(g, n);
        assert(last_index_of(body, ' ') == Some(body.len() - 1));
        assert(score_moves(score_spec(g, false)) =~= body.drop_last());
        assert(text =~= body + result);
        lemma_scan_word(body, result);
    } else {
        assert(body =~= Seq::<char>::empty());
        assert(last_index_of(body, ' ') is None);
        assert(text =~= seq![' '] + result);
        lemma_scan_space(Seq::<char>::empty(), ' ');
        assert(seq![' '] =~= Seq::<char>::empty().push(' '));
        lemma_scan_word(seq![' '], result);
        assert(score_words(g, 0) =~= Seq::<Seq<char>>::empty());
    }
    let ws = score_words(g, n).push(result);
    assert(words(text) == ws);
    assert forall|i: int| 0 <= i < ws.len() implies good_word(#[trigger] ws[i]) by {
        if i < ws.len() - 1 {
            assert(ws[i] == score_words(g, n)[i]);
        }
    }
}

/// Joined lines of plain characters hold nothing but plain characters and
/// newlines.
proof fn lemma_joined_plain(lines: Seq<Seq<char>>, n: int)
    requires
        0 <= n <= lines.len(),
        forall|i: int| 0 <= i < lines.len() ==> all_chars(#[trigger] lines[i], |c: char| plain(c)),
    ensures
        forall|i: int| 0 <= i < joined(lines, n).len() ==> plain(#[trigger] joined(lines, n)[i]) || joined(lines, n)[i] == '\n',
    decreases n,
{
    if n > 0 {
        lemma_joined_plain(lines, n - 1);
        let a = joined(lines, n - 1);
        let l = lines[n - 1];
        assert(all_chars(l, |c: char| plain(c)));
        assert forall|i: int| 0 <= i < joined(lines, n).len() implies plain(#[trigger] joined(lines, n)[i]) || joined(lines, n)[i] == '\n' by {
            if i < a.len() {
                assert(joined(lines, n)[i] == a[i]);
            } else if i < a.len() + l.len() {
                assert(joined(lines, n)[i] == l[i - a.len()]);
            }
        }
    }
}

/// The movetext an export writes lexes as the plies' SAN and the result.
proof fn lemma_export_lex(g: GameModel, result: Seq<char>)
    requires
        valid_history(g.start, g.log, g.history),
        is_marker(result),
    ensures
        lex_spec(joined(wrap_spec(export_moves(g, result), 80), wrap_spec(export_moves(g, result), 80).len() as int))
            == san_tokens(g, g.log.len() as int).push(TokenModel::Marker(result)),
{
    let n = g.log.len() as int;
    let text = export_moves(g, result);
    lemma_export_words(g, result);
    lemma_wrap_words(text, 80);
    let lines = wrap_spec(text, 80);
    let m = joined(lines, lines.len() as int);
    assert forall|i: int| 0 <= i < lines.len() implies all_chars(#[trigger] lines[i], |c: char| plain(c)) by {
        assert(all_chars(lines[i], |c: char| score_char(c)));
        assert forall|j: int| 0 <= j < lines[i].len() implies plain(#[trigger] lines[i][j]) by {
            assert(score_char(lines[i][j]));
        }
    }
    assert forall|i: int| 0 <= i < lines.len() implies !(#[trigger] lines[i]).contains('\n') by {
        if lines[i].contains('\n') {
            let j = choose|j: int| 0 <= j < lines[i].len() && lines[i][j] == '\n';
            assert(all_chars(lines[i], |c: char| plain(c)));
            assert(plain(lines[i][j]));
        }
    }
    lemma_joined_plain(lines, lines.len() as int);
    lemma_scan_lines(m);
    lemma_spaced_joined(lines, lines.len() as int);
    assert(strip_comments_spec(m) == spaced_lines(lines, lines.len() as int));
    let ws = score_words(g, n).push(result);
    assert(words(strip_comments_spec(m)) == ws);
    lemma_score_tokens(g, n);
    lemma_tokens_push(score_words(g, n), result);
    lemma_marker_word(result);
}


/// A tag line's text, without its newline: `[Key "value"]`.
pub open spec fn tag_text(key: Seq<char>, value: Seq<char>) -> Seq<char> {
    seq!['['] + key + seq![' ', '"'] + value + seq!['"', ']']
}

/// The texts of tag pairs.
pub open spec fn tag_texts(pairs: Seq<TagModel>) -> Seq<Seq<char>> {
    pairs.map_values(|pair: TagModel| tag_text(pair.0, pair.1))
}

/// The roster pairs an export writes for its first `k` keys.
pub open spec fn roster_pairs(tags: Seq<TagModel>, result: Seq<char>, k: int) -> Seq<TagModel>
    decreases k,
{
    if k <= 0 {
        Seq::<TagModel>::empty()
    } else {
        let key = roster()[k - 1];
        roster_pairs(tags, result, k - 1) + if key == "Result"@ {
            seq![(key, result)]
        } else {
            match tags_get(tags, key) {
                Some(value) => seq![(key, value)],
                None => Seq::<TagModel>::empty(),
            }
        }
    }
}

/// The pairs outside the roster an export writes, of the first `n` tags.
pub open spec fn other_pairs(tags: Seq<TagModel>, n: int) -> Seq<TagModel>
    decreases n,
{
    if n <= 0 {
        Seq::<TagModel>::empty()
    } else {
        other_pairs(tags, n - 1) + if roster().contains(tags[n - 1].0) {
            Seq::<TagModel>::empty()
        } else {
            seq![tags[n - 1]]
        }
    }
}

/// Whether a tag pair writes as a single line that reads back as itself:
/// a key without spaces or newlines, a value without newlines.
pub open spec fn tag_ok(pair: TagModel) -> bool {
    !pair.0.contains(' ') && !pair.0.contains('\n') && !pair.1.contains('\n')
}

/// A tag line's text reads back as its key and value.
proof fn lemma_tag_text_reads(key: Seq<char>, value: Seq<char>)
    requires
        !key.contains(' '),
    ensures
        trim(tag_text(key, value)) == tag_text(key, value),
        tag_pair_spec(tag_text(key, value)) == Some((key, value)),
        tag_text(key, value)[0] == '[',
        tag_text(key, value).last() == ']',
{
    let line = tag_text(key, value);
    assert(line[0] == '[');
    assert(line.last() == ']');
    assert(trim_start(line) == line);
    assert(trim_end(line) == line);
    let inner = line.subrange(1, line.len() - 1);
    assert(inner =~= key + (seq![' ', '"'] + value + seq!['"']));
    crate::inverse::lemma_index_after(key, seq![' ', '"'] + value + seq!['"'], ' ');
    assert(index_of(inner, ' ') == Some(key.len() as int));
    let rest = inner.subrange(key.len() + 1int, inner.len() as int);
    assert(rest =~= seq!['"'] + value + seq!['"']);
    assert(rest[0] == '"' && rest.last() == '"');
    assert(trim_start(rest) == rest);
    assert(trim_end(rest) == rest);
    assert(inner.subrange(0, key.len() as int) =~= key);
    assert(rest.subrange(1, rest.len() - 1) =~= value);
}

/// The texts of two runs of pairs, one after the other.
proof fn lemma_texts_append(a: Seq<TagModel>, b: Seq<TagModel>)
    ensures
        tag_texts(a + b) == tag_texts(a) + tag_texts(b),
{
    assert(tag_texts(a + b) =~= tag_texts(a) + tag_texts(b));
}

/// The roster's lines are its pairs' texts, joined.
proof fn lemma_roster_joined(tags: Seq<TagModel>, result: Seq<char>, k: int)
    requires
        0 <= k <= 7,
    ensures
        roster_lines(tags, result, k) == joined(
            tag_texts(roster_pairs(tags, result, k)),
            tag_texts(roster_pairs(tags, result, k)).len() as int,
        ),
    decreases k,
{
    if k > 0 {
        lemma_roster_joined(tags, result, k - 1);
        let key = roster()[k - 1];
        let before = roster_pairs(tags, result, k - 1);
        let more = if key == "Result"@ {
            seq![(key, result)]
        } else {
            match tags_get(tags, key) {
                Some(value) => seq![(key, value)],
                None => Seq::<TagModel>::empty(),
            }
        };
        lemma_texts_append(before, more);
        lemma_joined_append(tag_texts(before), tag_texts(more));
        if more.len() == 1 {
            let t = tag_texts(more);
            assert(t =~= seq![tag_text(more[0].0, more[0].1)]);
            assert(joined(t, 0) =~= Seq::<char>::empty());
            assert(tag_line(more[0].0, more[0].1) =~= Seq::<char>::empty() + t[0].push('\n'));
        } else {
            assert(tag_texts(more) =~= Seq::<Seq<char>>::empty());
        }
    }
}

/// The other tags' lines are their pairs' texts, joined.
proof fn lemma_other_joined(tags: Seq<TagModel>, n: int)
    requires
        0 <= n <= tags.len(),
    ensures
        other_lines(tags, n) == joined(tag_texts(other_pairs(tags, n)), tag_texts(other_pairs(tags, n)).len() as int),
    decreases n,
{
    if n > 0 {
        lemma_other_joined(tags, n - 1);
        let before = other_pairs(tags, n - 1);
        let more = if roster().contains(tags[n - 1].0) {
            Seq::<TagModel>::empty()
        } else {
            seq![tags[n - 1]]
        };
        lemma_texts_append(before, more);
        lemma_joined_append(tag_texts(before), tag_texts(more));
        if more.len() == 1 {
            let t = tag_texts(more);
            assert(t =~= seq![tag_text(more[0].0, more[0].1)]);
            assert(joined(t, 0) =~= Seq::<char>::empty());
            assert(tag_line(more[0].0, more[0].1) =~= Seq::<char>::empty() + t[0].push('\n'));
        } else {
            assert(tag_texts(more) =~= Seq::<Seq<char>>::empty());
        }
    }
}


/// What a tag lookup finds is an entry of the tags.
proof fn lemma_get_found(tags: Seq<TagModel>, key: Seq<char>)
    ensures
        tags_get(tags, key) matches Some(value) ==> exists|i: int| 0 <= i < tags.len() && #[trigger] tags[i] == (key, value),
    decreases tags.len(),
{
    if tags.len() > 0 && tags[0].0 != key {
        lemma_get_found(tags.drop_first(), key);
        if tags_get(tags, key) is Some {
            let value = tags_get(tags, key)->0;
            let i = choose|i: int| 0 <= i < tags.drop_first().len() && #[trigger] tags.drop_first()[i] == (key, value);
            assert(tags[i + 1] == (key, value));
        }
    } else if tags.len() > 0 {
        assert(tags[0] == (key, tags[0].1));
    }
}

/// The roster's keys are words without spaces or newlines.
proof fn lemma_roster_keys()
    ensures
        forall|i: int| 0 <= i < 7 ==> !(#[trigger] roster()[i]).contains(' ') && !roster()[i].contains('\n'),
{
    reveal_strlit("Event");
    reveal_strlit("Site");
    reveal_strlit("Date");
    reveal_strlit("Round");
    reveal_strlit("White");
    reveal_strlit("Black");
    reveal_strlit("Result");
    assert forall|i: int| 0 <= i < 7 implies !(#[trigger] roster()[i]).contains(' ') && !roster()[i].contains('\n') by {
        let k = roster()[i];
        if k.contains(' ') || k.contains('\n') {
            let j = choose|j: int| 0 <= j < k.len() && (k[j] == ' ' || k[j] == '\n');
        }
    }
}

/// The pairs an export writes all write as single lines that read back.
proof fn lemma_pairs_ok(tags: Seq<TagModel>, result: Seq<char>, k: int, n: int)
    requires
        0 <= k <= 7,
        0 <= n <= tags.len(),
        forall|i: int| 0 <= i < tags.len() ==> tag_ok(#[trigger] tags[i]),
        !result.contains('\n'),
    ensures
        forall|j: int| 0 <= j < roster_pairs(tags, result, k).len() ==> tag_ok(#[trigger] roster_pairs(tags, result, k)[j]),
        forall|j: int| 0 <= j < other_pairs(tags, n).len() ==> tag_ok(#[trigger] other_pairs(tags, n)[j]),
    decreases k + n,
{
    lemma_roster_keys();
    if k > 0 {
        lemma_pairs_ok(tags, result, k - 1, n);
        let key = roster()[k - 1];
        let before = roster_pairs(tags, result, k - 1);
        let out = roster_pairs(tags, result, k);
        lemma_get_found(tags, key);
        assert forall|j: int| 0 <= j < out.len() implies tag_ok(#[trigger] out[j]) by {
            if j < before.len() {
                assert(out[j] == before[j]);
            } else if key != "Result"@ {
                let value = tags_get(tags, key)->0;
                let i = choose|i: int| 0 <= i < tags.len() && #[trigger] tags[i] == (key, value);
                assert(tag_ok(tags[i]));
            }
        }
    }
    if n > 0 {
        lemma_pairs_ok(tags, result, 0, n - 1);
        let before = other_pairs(tags, n - 1);
        let out = other_pairs(tags, n);
        assert forall|j: int| 0 <= j < out.len() implies tag_ok(#[trigger] out[j]) by {
            if j < before.len() {
                assert(out[j] == before[j]);
            } else {
                assert(out[j] == tags[n - 1]);
            }
        }
    }
}

/// The tags parsed from pair lines: each pair set in turn.
pub open spec fn fold_insert(pairs: Seq<TagModel>, k: int) -> Seq<TagModel>
    decreases k,
{
    if k <= 0 {
        Seq::<TagModel>::empty()
    } else {
        crate::pgn::tags_insert(fold_insert(pairs, k - 1), pairs[k - 1].0, pairs[k - 1].1)
    }
}

/// Trailing white space leaves a line that begins with a non-space
/// character beginning with it.
proof fn lemma_trim_end_head(text: Seq<char>)
    requires
        text.len() > 0,
        !is_space(text[0]),
    ensures
        trim_end(text).len() > 0,
        trim_end(text)[0] == text[0],
    decreases text.len(),
{
    if is_space(text.last()) {
        assert(text.len() > 1);
        assert(text.drop_last()[0] == text[0]);
        lemma_trim_end_head(text.drop_last());
    }
}

/// The header of tag lines, a blank line and movetext lines: the tags are
/// the pairs set in turn, the movetext the lines joined.
proof fn lemma_header_reads(pairs: Seq<TagModel>, moves: Seq<Seq<char>>, k: int)
    requires
        forall|i: int| 0 <= i < pairs.len() ==> tag_ok(#[trigger] pairs[i]),
        forall|i: int| 0 <= i < moves.len() ==> (#[trigger] moves[i]).len() > 0 && all_chars(moves[i], |c: char| score_char(c)),
        moves.len() > 0 ==> !is_space(moves[0][0]) && moves[0][0] != '[',
        0 <= k <= pairs.len() + 1 + moves.len(),
    ensures
        header_fold(tag_texts(pairs) + seq![Seq::<char>::empty()] + moves, k) == Ok::<(Seq<TagModel>, Seq<char>), Rejection>(
            if k <= pairs.len() {
                (fold_insert(pairs, k), Seq::<char>::empty())
            } else if k == pairs.len() + 1 {
                (fold_insert(pairs, pairs.len() as int), Seq::<char>::empty())
            } else {
                (fold_insert(pairs, pairs.len() as int), joined(moves, k - pairs.len() - 1))
            },
        ),
    decreases k,
{
    let lines = tag_texts(pairs) + seq![Seq::<char>::empty()] + moves;
    let t = pairs.len() as int;
    if k > 0 {
        lemma_header_reads(pairs, moves, k - 1);
        let line = lines[k - 1];
        if k <= t {
            let pair = pairs[k - 1];
            assert(line == tag_text(pair.0, pair.1));
            assert(tag_ok(pair));
            lemma_tag_text_reads(pair.0, pair.1);
        } else if k == t + 1 {
            assert(line =~= Seq::<char>::empty());
            assert(trim_start(line) =~= Seq::<char>::empty());
        } else {
            let j = k - t - 1;
            assert(line == moves[j - 1]);
            if j == 1 {
                assert(line[0] == moves[0][0]);
                assert(trim_start(line) == line);
                lemma_trim_end_head(line);
                assert(joined(moves, 0) =~= Seq::<char>::empty());
                assert(Seq::<char>::empty() + line.push('\n') =~= line.push('\n'));
            } else {
                assert(joined(moves, j - 1).len() > 0) by {
                    assert(joined(moves, j - 1) == joined(moves, j - 2) + moves[j - 2].push('\n'));
                }
            }
        }
    }
}


/// The lines an export writes: its tag lines, a blank line, its wrapped
/// moves.
pub open spec fn export_lines(g: GameModel, tags: Seq<TagModel>, result: Seq<char>) -> Seq<Seq<char>> {
    tag_texts(roster_pairs(tags, result, 7) + other_pairs(tags, tags.len() as int)) + seq![
        Seq::<char>::empty(),
    ] + wrap_spec(export_moves(g, result), 80)
}

/// The text an export writes is its lines, joined.
proof fn lemma_export_text(g: GameModel, tags: Seq<TagModel>, result: Seq<char>)
    requires
        export_spec(g, tags) == Ok::<Seq<char>, Rejection>(
            roster_lines(tags, result, 7) + other_lines(tags, tags.len() as int) + seq!['\n'] + joined(
                wrap_spec(export_moves(g, result), 80),
                wrap_spec(export_moves(g, result), 80).len() as int,
            ),
        ),
    ensures
        export_spec(g, tags)->Ok_0 == joined(
            export_lines(g, tags, result),
            export_lines(g, tags, result).len() as int,
        ),
{
    let rp = roster_pairs(tags, result, 7);
    let op = other_pairs(tags, tags.len() as int);
    let w = wrap_spec(export_moves(g, result), 80);
    let blank = seq![Seq::<char>::empty()];
    lemma_roster_joined(tags, result, 7);
    lemma_other_joined(tags, tags.len() as int);
    lemma_texts_append(rp, op);
    let a = tag_texts(rp);
    let b = tag_texts(op);
    lemma_joined_append(a, b);
    lemma_joined_append(a + b, blank);
    lemma_joined_append(a + b + blank, w);
    assert(joined(blank, 1) =~= seq!['\n']) by {
        assert(joined(blank, 0) =~= Seq::<char>::empty());
    }
    assert(tag_texts(rp + op) + blank + w == a + b + blank + w);
}

/// A pair's line holds no newline and ends in `]`.
proof fn lemma_tag_text_line(pair: TagModel)
    requires
        tag_ok(pair),
    ensures
        !tag_text(pair.0, pair.1).contains('\n'),
        strip_cr(tag_text(pair.0, pair.1)) == tag_text(pair.0, pair.1),
{
    let t = tag_text(pair.0, pair.1);
    assert(t.last() == ']');
    if t.contains('\n') {
        let i = choose|i: int| 0 <= i < t.len() && t[i] == '\n';
        let k = pair.0;
        let v = pair.1;
        if 1 <= i < 1 + k.len() {
            assert(t[i] == k[i - 1]);
        } else if 3 + k.len() <= i < 3 + k.len() + v.len() {
            assert(t[i] == v[i - 3 - k.len()]);
        }
    }
}

/// The pairs an export writes, in the order it writes them.
pub open spec fn export_pairs(tags: Seq<TagModel>, result: Seq<char>) -> Seq<TagModel> {
    roster_pairs(tags, result, 7) + other_pairs(tags, tags.len() as int)
}

/// An export's header reads back as its pairs set in turn, and its
/// movetext as the wrapped moves joined.
proof fn lemma_export_header(g: GameModel, tags: Seq<TagModel>, result: Seq<char>)
    requires
        valid_history(g.start, g.log, g.history),
        export_spec(g, tags) is Ok,
        result == export_result(g.mode, tags)->Ok_0,
        is_marker(result),
        forall|i: int| 0 <= i < tags.len() ==> tag_ok(#[trigger] tags[i]),
    ensures
        split_tags_spec(export_spec(g, tags)->Ok_0) == Ok::<(Seq<TagModel>, Seq<char>), Rejection>(
            (
                fold_insert(export_pairs(tags, result), export_pairs(tags, result).len() as int),
                joined(wrap_spec(export_moves(g, result), 80), wrap_spec(export_moves(g, result), 80).len() as int),
            ),
        ),
{
    let r = result;
    lemma_marker_word(r);
    assert(!r.contains('\n')) by {
        if r.contains('\n') {
            let i = choose|i: int| 0 <= i < r.len() && r[i] == '\n';
            assert(all_chars(r, |c: char| score_char(c)));
            assert(score_char(r[i]));
        }
    }
    let x = export_moves(g, r);
    let w = wrap_spec(x, 80);
    lemma_export_words(g, r);
    lemma_wrap_words(x, 80);
    let rp = roster_pairs(tags, r, 7);
    let op = other_pairs(tags, tags.len() as int);
    let pairs = export_pairs(tags, r);
    lemma_pairs_ok(tags, r, 7, tags.len() as int);
    assert forall|i: int| 0 <= i < pairs.len() implies tag_ok(#[trigger] pairs[i]) by {
        if i < rp.len() {
            assert(pairs[i] == rp[i]);
        } else {
            assert(pairs[i] == op[i - rp.len()]);
        }
    }
    lemma_export_text(g, tags, r);
    let lines = export_lines(g, tags, r);
    let text = export_spec(g, tags)->Ok_0;
    assert(lines == tag_texts(pairs) + seq![Seq::<char>::empty()] + w);
    assert forall|i: int| 0 <= i < lines.len() implies !(#[trigger] lines[i]).contains('\n') && strip_cr(lines[i]) == lines[i] by {
        let t = pairs.len() as int;
        if i < t {
            assert(lines[i] == tag_text(pairs[i].0, pairs[i].1));
            lemma_tag_text_line(pairs[i]);
        } else if i == t {
            assert(lines[i] =~= Seq::<char>::empty());
        } else {
            let l = w[i - t - 1];
            assert(lines[i] == l);
            assert(all_chars(l, |c: char| score_char(c)));
            assert(score_char(l[l.len() - 1]));
            if l.contains('\n') {
                let j = choose|j: int| 0 <= j < l.len() && l[j] == '\n';
                assert(score_char(l[j]));
            }
        }
    }
    lemma_lines_joined(lines);
    if w.len() > 0 {
        assert(good_word(words(x)[0]));
        assert(score_char(words(x)[0][0]));
    }
    lemma_header_reads(pairs, w, lines.len() as int);
    if w.len() == 0 {
        assert(joined(w, 0) =~= Seq::<char>::empty());
    }
}

/// An export parses as its pairs set in turn, the plies' SAN and the
/// exported result.
proof fn lemma_export_parses(g: GameModel, tags: Seq<TagModel>, result: Seq<char>)
    requires
        valid_history(g.start, g.log, g.history),
        export_spec(g, tags) is Ok,
        result == export_result(g.mode, tags)->Ok_0,
        is_marker(result),
        forall|i: int| 0 <= i < tags.len() ==> tag_ok(#[trigger] tags[i]),
    ensures
        parse_spec(export_spec(g, tags)->Ok_0) == Ok::<PgnModel, Rejection>(
            PgnModel {
                tags: fold_insert(export_pairs(tags, result), export_pairs(tags, result).len() as int),
                sans: score_sans(g),
                result: Some(result),
            },
        ),
{
    let n = g.log.len() as int;
    lemma_export_header(g, tags, result);
    lemma_export_lex(g, result);
    let sans = score_sans(g);
    lemma_moves_read(sans, result);
    assert(san_tokens(g, n) =~= Seq::new(sans.len(), |i: int| TokenModel::San(sans[i])));
}

/// The result an export writes is a marker, and the board's own wherever
/// the board knows one.
proof fn lemma_export_result(g: GameModel, tags: Seq<TagModel>)
    requires
        well_formed(g),
        export_spec(g, tags) is Ok,
        tags_get(tags, "Result"@) matches Some(declared) ==> is_marker(declared),
    ensures
        export_result(g.mode, tags) is Ok,
        is_marker(export_result(g.mode, tags)->Ok_0),
        verify_result_spec(auto_mode(g.history, g.log), export_result(g.mode, tags)->Ok_0) is Ok,
{
    let auto = auto_mode(g.history, g.log);
    if crate::pgn::board_result(auto) is Some {
        assert(auto != Mode::Playing);
        assert(g.mode == auto);
    }
}

/// Export then import is the identity: a game played from the standard
/// start, exported with ordered tags that each write as a single line
/// reading back as itself and a Result, if declared, that is a result
/// marker, imports as the same actions through the same positions, and its
/// text parses as the same tags with their Result set to the result written.
/// The text is the roster's tag lines in roster order (Event, Site, Date,
/// Round, White, Black, those present, then Result), the other tags' lines
/// in key order, a blank line, and the movetext in lines of at most eighty
/// columns.
pub proof fn lemma_export_reads_back(g: GameModel, tags: Seq<TagModel>)
    requires
        well_formed(g),
        g.start == start_model(),
        g.log.len() <= usize::MAX,
        export_spec(g, tags) is Ok,
        keys_ordered(tags),
        forall|i: int| 0 <= i < tags.len() ==> tag_ok(#[trigger] tags[i]),
        tags_get(tags, "Result"@) matches Some(declared) ==> is_marker(declared),
    ensures
        import_spec(export_spec(g, tags)->Ok_0) matches Ok(h) && h.log == g.log && h.history
            == g.history,
        ({
            let r = export_result(g.mode, tags)->Ok_0;
            let lines = wrap_spec(export_moves(g, r), 80);
            &&& export_spec(g, tags)->Ok_0 == roster_lines(tags, r, 7) + other_lines(
                tags,
                tags.len() as int,
            ) + seq!['\n'] + joined(lines, lines.len() as int)
            &&& forall|i: int| 0 <= i < lines.len() ==> byte_len(#[trigger] lines[i]) <= 80
        }),
        parse_spec(export_spec(g, tags)->Ok_0) == Ok::<PgnModel, Rejection>(
            PgnModel {
                tags: crate::pgn::tags_insert(tags, "Result"@, export_result(g.mode, tags)->Ok_0),
                sans: score_sans(g),
                result: Some(export_result(g.mode, tags)->Ok_0),
            },
        ),
{
    let n = g.log.len() as int;
    lemma_export_result(g, tags);
    let r = export_result(g.mode, tags)->Ok_0;
    lemma_export_parses(g, tags, r);
    lemma_export_tags(tags, r);
    lemma_export_columns(g, r);
    assert forall|i: int| 0 <= i < g.log.len() implies !passant_rival(g.history[i], #[trigger] g.log[i]) by {
        lemma_history_passant(g, i);
        assert(reduce_spec(g.history[i], g.log[i]) is Ok);
        lemma_no_passant_rival(g.history[i], g.log[i]);
    }
    lemma_fold_score(g, n);
    let sans = score_sans(g);
    assert(sans.take(n) =~= sans);
    let h = fold_sans(new_game_spec(start_model()), sans)->Ok_0;
    assert(h.history =~= g.history);
    assert(h.log =~= g.log);
}


/// Whether no key occurs twice.
pub open spec fn distinct_keys(pairs: Seq<TagModel>) -> bool {
    forall|i: int, j: int| 0 <= i < j < pairs.len() ==> (#[trigger] pairs[i]).0 != (#[trigger] pairs[j]).0
}

/// Whether some pair has key `key`.
pub open spec fn has_key(pairs: Seq<TagModel>, key: Seq<char>) -> bool {
    exists|i: int| 0 <= i < pairs.len() && (#[trigger] pairs[i]).0 == key
}

/// Looking up in two runs of pairs: the first run first.
proof fn lemma_get_concat(a: Seq<TagModel>, b: Seq<TagModel>, key: Seq<char>)
    ensures
        tags_get(a + b, key) == if tags_get(a, key) is Some {
            tags_get(a, key)
        } else {
            tags_get(b, key)
        },
    decreases a.len(),
{
    if a.len() == 0 {
        assert(a + b =~= b);
    } else {
        assert((a + b)[0] == a[0]);
        assert((a + b).drop_first() =~= a.drop_first() + b);
        lemma_get_concat(a.drop_first(), b, key);
    }
}

/// A key no pair has is not found; one that is found is had.
proof fn lemma_get_has(pairs: Seq<TagModel>, key: Seq<char>)
    ensures
        (tags_get(pairs, key) is Some) == has_key(pairs, key),
    decreases pairs.len(),
{
    if pairs.len() > 0 {
        let rest = pairs.drop_first();
        lemma_get_has(rest, key);
        if pairs[0].0 != key {
            if has_key(pairs, key) {
                let i = choose|i: int| 0 <= i < pairs.len() && (#[trigger] pairs[i]).0 == key;
                assert(rest[i - 1] == pairs[i]);
            }
            if has_key(rest, key) {
                let i = choose|i: int| 0 <= i < rest.len() && (#[trigger] rest[i]).0 == key;
                assert(pairs[i + 1] == rest[i]);
            }
        }
    }
}

/// Setting pairs with distinct keys in turn gives ordered tags holding
/// exactly those pairs.
proof fn lemma_fold_insert(pairs: Seq<TagModel>, m: int)
    requires
        distinct_keys(pairs),
        0 <= m <= pairs.len(),
    ensures
        keys_ordered(fold_insert(pairs, m)),
        forall|key: Seq<char>| #[trigger] tags_get(fold_insert(pairs, m), key) == tags_get(pairs.take(m), key),
    decreases m,
{
    if m == 0 {
        assert forall|key: Seq<char>| #[trigger] tags_get(fold_insert(pairs, 0), key) == tags_get(pairs.take(0), key) by {
            assert(pairs.take(0) =~= Seq::<TagModel>::empty());
        }
    } else {
        lemma_fold_insert(pairs, m - 1);
        let before = fold_insert(pairs, m - 1);
        let p = pairs[m - 1];
        lemma_tags_insert(before, p.0, p.1);
        assert(pairs.take(m) =~= pairs.take(m - 1) + seq![p]);
        assert forall|key: Seq<char>| #[trigger] tags_get(fold_insert(pairs, m), key) == tags_get(pairs.take(m), key) by {
            lemma_get_concat(pairs.take(m - 1), seq![p], key);
            if key == p.0 {
                lemma_get_has(pairs.take(m - 1), key);
                if has_key(pairs.take(m - 1), key) {
                    let i = choose|i: int| 0 <= i < pairs.take(m - 1).len() && (#[trigger] pairs.take(m - 1)[i]).0 == key;
                    assert(pairs[i].0 == pairs[m - 1].0);
                }
            } else {
                assert(tags_get(seq![p], key) == tags_get(seq![p].drop_first(), key));
                assert(seq![p].drop_first() =~= Seq::<TagModel>::empty());
            }
        }
    }
}

/// Ordered tags that find the same value for every key are the same.
proof fn lemma_ordered_ext(a: Seq<TagModel>, b: Seq<TagModel>)
    requires
        keys_ordered(a),
        keys_ordered(b),
        forall|key: Seq<char>| #[trigger] tags_get(a, key) == tags_get(b, key),
    ensures
        a == b,
    decreases a.len() + b.len(),
{
    if a.len() == 0 && b.len() == 0 {
        assert(a =~= b);
    } else if a.len() == 0 {
        let k = b[0].0;
        assert(tags_get(b, k) == Some(b[0].1));
        assert(tags_get(a, k) == tags_get(b, k));
        assert(tags_get(a, k) is None);
    } else if b.len() == 0 {
        let k = a[0].0;
        assert(tags_get(a, k) == Some(a[0].1));
        assert(tags_get(a, k) == tags_get(b, k));
        assert(tags_get(b, k) is None);
    } else {
        let ka = a[0].0;
        let kb = b[0].0;
        lemma_get_has(b, ka);
        lemma_get_has(a, kb);
        assert(tags_get(b, ka) == Some(a[0].1));
        assert(tags_get(a, kb) == Some(b[0].1));
        if ka != kb {
            let j = choose|j: int| 0 <= j < b.len() && (#[trigger] b[j]).0 == ka;
            let i = choose|i: int| 0 <= i < a.len() && (#[trigger] a[i]).0 == kb;
            assert(j > 0 && i > 0);
            assert(key_before(kb, ka));
            assert(key_before(ka, kb));
            lemma_key_transitive(ka, kb, ka);
            lemma_key_irreflexive(ka);
        }
        let ra = a.drop_first();
        let rb = b.drop_first();
        assert(tags_get(a, ka) == Some(a[0].1));
        assert(a[0] == b[0]);
        assert(keys_ordered(ra)) by {
            assert forall|i: int, j: int| 0 <= i < j < ra.len() implies key_before(#[trigger] ra[i].0, #[trigger] ra[j].0) by {
                assert(ra[i] == a[i + 1] && ra[j] == a[j + 1]);
            }
        }
        assert(keys_ordered(rb)) by {
            assert forall|i: int, j: int| 0 <= i < j < rb.len() implies key_before(#[trigger] rb[i].0, #[trigger] rb[j].0) by {
                assert(rb[i] == b[i + 1] && rb[j] == b[j + 1]);
            }
        }
        assert forall|key: Seq<char>| #[trigger] tags_get(ra, key) == tags_get(rb, key) by {
            if key == ka {
                lemma_get_has(ra, key);
                lemma_get_has(rb, key);
                if has_key(ra, key) {
                    let i = choose|i: int| 0 <= i < ra.len() && (#[trigger] ra[i]).0 == key;
                    assert(a[i + 1] == ra[i]);
                    lemma_key_irreflexive(ka);
                }
                if has_key(rb, key) {
                    let i = choose|i: int| 0 <= i < rb.len() && (#[trigger] rb[i]).0 == key;
                    assert(b[i + 1] == rb[i]);
                    lemma_key_irreflexive(ka);
                }
            } else {
                assert(tags_get(a, key) == tags_get(ra, key));
                assert(tags_get(b, key) == tags_get(rb, key));
            }
        }
        lemma_ordered_ext(ra, rb);
        assert(a =~= seq![a[0]] + ra);
        assert(b =~= seq![b[0]] + rb);
        assert(seq![a[0]] + ra == seq![b[0]] + rb);
    }
}


/// The roster's seven keys are distinct; the last is `Result`.
proof fn lemma_roster_distinct()
    ensures
        forall|i: int, j: int| 0 <= i < j < 7 ==> #[trigger] roster()[i] != #[trigger] roster()[j],
        roster()[6] == "Result"@,
        roster().len() == 7,
{
    reveal_strlit("Event");
    reveal_strlit("Site");
    reveal_strlit("Date");
    reveal_strlit("Round");
    reveal_strlit("White");
    reveal_strlit("Black");
    reveal_strlit("Result");
    assert forall|i: int, j: int| 0 <= i < j < 7 implies #[trigger] roster()[i] != #[trigger] roster()[j] by {
        let a = roster()[i];
        let b = roster()[j];
        if a == b {
            assert(a[0] == b[0]);
            assert(a[1] == b[1]);
        }
    }
}

/// What the roster pairs find for a key: the result for `Result`, the
/// tag's own value for the other roster keys, nothing for the rest.
proof fn lemma_roster_get(tags: Seq<TagModel>, result: Seq<char>, k: int)
    requires
        0 <= k <= 7,
    ensures
        forall|key: Seq<char>| #[trigger] tags_get(roster_pairs(tags, result, k), key) == if roster().take(k).contains(key) {
            if key == "Result"@ {
                Some(result)
            } else {
                tags_get(tags, key)
            }
        } else {
            None
        },
        distinct_keys(roster_pairs(tags, result, k)),
        forall|j: int| 0 <= j < roster_pairs(tags, result, k).len() ==> roster().take(k).contains(#[trigger] roster_pairs(tags, result, k)[j].0),
    decreases k,
{
    lemma_roster_distinct();
    let rp = roster_pairs(tags, result, k);
    if k == 0 {
        assert(roster().take(0) =~= Seq::<Seq<char>>::empty());
        assert forall|key: Seq<char>| #[trigger] tags_get(rp, key) == if roster().take(0).contains(key) {
            if key == "Result"@ {
                Some(result)
            } else {
                tags_get(tags, key)
            }
        } else {
            None
        } by {}
    } else {
        lemma_roster_get(tags, result, k - 1);
        let before = roster_pairs(tags, result, k - 1);
        let name = roster()[k - 1];
        let more = if name == "Result"@ {
            seq![(name, result)]
        } else {
            match tags_get(tags, name) {
                Some(value) => seq![(name, value)],
                None => Seq::<TagModel>::empty(),
            }
        };
        assert(rp == before + more);
        assert(roster().take(k) =~= roster().take(k - 1).push(name));
        assert(!roster().take(k - 1).contains(name)) by {
            if roster().take(k - 1).contains(name) {
                let i = choose|i: int| 0 <= i < roster().take(k - 1).len() && #[trigger] roster().take(k - 1)[i] == name;
                assert(roster()[i] == roster()[k - 1]);
            }
        }
        assert forall|key: Seq<char>| #[trigger] tags_get(rp, key) == if roster().take(k).contains(key) {
            if key == "Result"@ {
                Some(result)
            } else {
                tags_get(tags, key)
            }
        } else {
            None
        } by {
            lemma_get_concat(before, more, key);
            let val = if key == "Result"@ {
                Some(result)
            } else {
                tags_get(tags, key)
            };
            let in_prev = roster().take(k - 1).contains(key);
            let more_get = tags_get(more, key);
            if more.len() == 1 {
                assert(more_get == if more[0].0 == key { Some(more[0].1) } else { tags_get(more.drop_first(), key) });
                assert(more.drop_first() =~= Seq::<TagModel>::empty());
                assert(more[0].0 == name);
            } else {
                assert(more =~= Seq::<TagModel>::empty());
            }
            assert(key != name ==> more_get is None);
            assert(key == name ==> more_get == val) by {
                if key == name && name != "Result"@ && tags_get(tags, name) is None {
                    assert(more =~= Seq::<TagModel>::empty());
                }
            }
            if in_prev {
                let i = choose|i: int| 0 <= i < roster().take(k - 1).len() && #[trigger] roster().take(k - 1)[i] == key;
                assert(roster().take(k)[i] == key);
                assert(roster().take(k).contains(key));
                assert(key != name);
                assert(tags_get(before, key) == val);
            } else if key == name {
                assert(roster().take(k)[k - 1] == key);
                assert(roster().take(k).contains(key));
                assert(tags_get(before, key) is None);
            } else {
                assert(tags_get(before, key) is None);
                assert(!roster().take(k).contains(key)) by {
                    if roster().take(k).contains(key) {
                        let i = choose|i: int| 0 <= i < roster().take(k).len() && #[trigger] roster().take(k)[i] == key;
                        assert(i < k - 1);
                        assert(roster().take(k - 1)[i] == key);
                    }
                }
            }
        }
        assert forall|j: int| 0 <= j < rp.len() implies roster().take(k).contains(#[trigger] rp[j].0) by {
            if j < before.len() {
                assert(rp[j] == before[j]);
                let i = choose|i: int| 0 <= i < roster().take(k - 1).len() && #[trigger] roster().take(k - 1)[i] == before[j].0;
                assert(roster().take(k)[i] == before[j].0);
            } else {
                assert(rp[j] == more[0]);
                assert(roster().take(k)[k - 1] == name);
            }
        }
        assert forall|i: int, j: int| 0 <= i < j < rp.len() implies (#[trigger] rp[i]).0 != (#[trigger] rp[j]).0 by {
            if j < before.len() {
                assert(rp[i] == before[i] && rp[j] == before[j]);
            } else {
                assert(rp[i] == before[i]);
                assert(rp[j].0 == name);
                assert(roster().take(k - 1).contains(before[i].0));
            }
        }
    }
}

/// What the pairs outside the roster find for a key: nothing for a roster
/// key, else what the first `n` tags find.
proof fn lemma_other_get(tags: Seq<TagModel>, n: int)
    requires
        keys_ordered(tags),
        0 <= n <= tags.len(),
    ensures
        forall|key: Seq<char>| #[trigger] tags_get(other_pairs(tags, n), key) == if roster().contains(key) {
            None
        } else {
            tags_get(tags.take(n), key)
        },
        distinct_keys(other_pairs(tags, n)),
        forall|j: int| 0 <= j < other_pairs(tags, n).len() ==> !roster().contains(#[trigger] other_pairs(tags, n)[j].0) && has_key(tags.take(n), other_pairs(tags, n)[j].0),
    decreases n,
{
    let op = other_pairs(tags, n);
    if n == 0 {
        assert(tags.take(0) =~= Seq::<TagModel>::empty());
    } else {
        lemma_other_get(tags, n - 1);
        let before = other_pairs(tags, n - 1);
        let t = tags[n - 1];
        let more = if roster().contains(t.0) {
            Seq::<TagModel>::empty()
        } else {
            seq![t]
        };
        assert(op == before + more);
        assert(tags.take(n) =~= tags.take(n - 1) + seq![t]);
        assert(!has_key(tags.take(n - 1), t.0)) by {
            if has_key(tags.take(n - 1), t.0) {
                let i = choose|i: int| 0 <= i < tags.take(n - 1).len() && (#[trigger] tags.take(n - 1)[i]).0 == t.0;
                assert(key_before(tags[i].0, tags[n - 1].0));
                lemma_key_irreflexive(t.0);
            }
        }
        assert forall|key: Seq<char>| #[trigger] tags_get(op, key) == if roster().contains(key) {
            None
        } else {
            tags_get(tags.take(n), key)
        } by {
            lemma_get_concat(before, more, key);
            lemma_get_concat(tags.take(n - 1), seq![t], key);
            assert(tags_get(seq![t], key) == if t.0 == key { Some(t.1) } else { tags_get(seq![t].drop_first(), key) });
            assert(seq![t].drop_first() =~= Seq::<TagModel>::empty());
            if more.len() == 1 {
                assert(more == seq![t]);
            } else {
                assert(more =~= Seq::<TagModel>::empty());
            }
            if !roster().contains(key) && key == t.0 {
                lemma_get_has(tags.take(n - 1), key);
            }
        }
        assert forall|j: int| 0 <= j < op.len() implies !roster().contains(#[trigger] op[j].0) && has_key(tags.take(n), op[j].0) by {
            if j < before.len() {
                assert(op[j] == before[j]);
                let i = choose|i: int| 0 <= i < tags.take(n - 1).len() && (#[trigger] tags.take(n - 1)[i]).0 == before[j].0;
                assert(tags.take(n)[i] == tags.take(n - 1)[i]);
            } else {
                assert(op[j] == t);
                assert(tags.take(n)[n - 1] == t);
            }
        }
        assert forall|i: int, j: int| 0 <= i < j < op.len() implies (#[trigger] op[i]).0 != (#[trigger] op[j]).0 by {
            if j < before.len() {
                assert(op[i] == before[i] && op[j] == before[j]);
            } else {
                assert(op[i] == before[i]);
                assert(op[j] == t);
                assert(has_key(tags.take(n - 1), before[i].0));
            }
        }
    }
}

/// The pairs an export writes hold each key once and find, for every key,
/// what the tags with the result set find.
proof fn lemma_export_pairs(tags: Seq<TagModel>, result: Seq<char>)
    requires
        keys_ordered(tags),
    ensures
        distinct_keys(export_pairs(tags, result)),
        forall|key: Seq<char>| #[trigger] tags_get(export_pairs(tags, result), key) == tags_get(
            crate::pgn::tags_insert(tags, "Result"@, result),
            key,
        ),
{
    let rp = roster_pairs(tags, result, 7);
    let op = other_pairs(tags, tags.len() as int);
    let pairs = export_pairs(tags, result);
    lemma_roster_get(tags, result, 7);
    lemma_other_get(tags, tags.len() as int);
    lemma_roster_distinct();
    lemma_tags_insert(tags, "Result"@, result);
    assert(roster().take(7) =~= roster());
    assert(tags.take(tags.len() as int) =~= tags);
    assert forall|key: Seq<char>| #[trigger] tags_get(pairs, key) == tags_get(
        crate::pgn::tags_insert(tags, "Result"@, result),
        key,
    ) by {
        lemma_get_concat(rp, op, key);
        if key == "Result"@ {
            assert(roster()[6] == key);
        }
    }
    assert forall|i: int, j: int| 0 <= i < j < pairs.len() implies (#[trigger] pairs[i]).0 != (#[trigger] pairs[j]).0 by {
        if j < rp.len() {
            assert(pairs[i] == rp[i] && pairs[j] == rp[j]);
        } else if i >= rp.len() {
            assert(pairs[i] == op[i - rp.len()] && pairs[j] == op[j - rp.len()]);
        } else {
            assert(pairs[i] == rp[i] && pairs[j] == op[j - rp.len()]);
            assert(roster().take(7).contains(rp[i].0));
            assert(!roster().contains(op[j - rp.len()].0));
        }
    }
}

/// An export's tags read back as the tags exported, their Result set to
/// the result written.
proof fn lemma_export_tags(tags: Seq<TagModel>, result: Seq<char>)
    requires
        keys_ordered(tags),
    ensures
        fold_insert(export_pairs(tags, result), export_pairs(tags, result).len() as int)
            == crate::pgn::tags_insert(tags, "Result"@, result),
{
    let pairs = export_pairs(tags, result);
    lemma_export_pairs(tags, result);
    lemma_fold_insert(pairs, pairs.len() as int);
    assert(pairs.take(pairs.len() as int) =~= pairs);
    lemma_tags_insert(tags, "Result"@, result);
    lemma_ordered_ext(fold_insert(pairs, pairs.len() as int), crate::pgn::tags_insert(tags, "Result"@, result));
}

} // verus!

verus! {

/// Score text is ASCII: one byte a character.
proof fn lemma_score_bytes(w: Seq<char>)
    requires
        all_chars(w, |c: char| score_char(c)),
    ensures
        byte_len(w) == w.len(),
    decreases w.len(),
{
    if w.len() > 0 {
        let rest = w.drop_last();
        assert forall|i: int| 0 <= i < rest.len() implies score_char(#[trigger] rest[i]) by {
            assert(rest[i] == w[i]);
        }
        lemma_score_bytes(rest);
        assert(score_char(w[w.len() - 1]));
        assert(crate::pgn::utf8_width(w.last()) == 1);
    }
}

/// Ten to the power `d`.
pub open spec fn pow10(d: nat) -> nat
    decreases d,
{
    if d == 0 {
        1
    } else {
        10 * pow10((d - 1) as nat)
    }
}

/// A number below ten to the `d` has at most `d` digits.
proof fn lemma_decimal_len(n: nat, d: nat)
    requires
        1 <= d,
        n < pow10(d),
    ensures
        decimal(n).len() <= d,
    decreases d,
{
    if n >= 10 {
        if d == 1 {
            assert(pow10(1) == 10) by {
                assert(pow10(0) == 1);
            }
        }
        lemma_decimal_len(n / 10, (d - 1) as nat);
    }
}

/// A SAN word is at most nine characters: a piece, two for disambiguation,
/// a capture, the square, a promotion and a mark at the very most.
proof fn lemma_san_word_len(g: GameModel, i: int)
    requires
        valid_history(g.start, g.log, g.history),
        0 <= i < g.log.len(),
    ensures
        san_word(g, i).len() <= 9,
{
    let m = g.history[i];
    let a = g.log[i];
    assert(reduce_spec(m, a) is Ok);
    let piece = piece_on(m, a.from_sq())->0;
    assert(crate::san::disambiguation(m, a.from_sq(), a.to_sq(), piece.role).len() <= 2);
    assert(crate::san::san_body(m, a, false).len() <= 8);
    assert(crate::san::check_mark(reduce_spec(m, a)->Ok_0).len() <= 1);
}

/// Every word of a score is a move number or a ply's SAN: the ply it
/// belongs to.
proof fn lemma_score_word_kinds(g: GameModel, k: int, j: int) -> (i: int)
    requires
        0 <= k <= g.log.len(),
        0 <= j < score_words(g, k).len(),
    ensures
        0 <= i < k,
        score_words(g, k)[j] == number_word(i) || score_words(g, k)[j] == san_word(g, i),
    decreases k,
{
    let before = score_words(g, k - 1);
    let number = if g.history[k - 1].turn == Color::White {
        seq![number_word(k - 1)]
    } else {
        Seq::<Seq<char>>::empty()
    };
    assert(score_words(g, k) == before + number + seq![san_word(g, k - 1)]);
    if j < before.len() {
        let i = lemma_score_word_kinds(g, k - 1, j);
        assert(score_words(g, k)[j] == before[j]);
        i
    } else if j < before.len() + number.len() {
        assert(score_words(g, k)[j] == number_word(k - 1));
        k - 1
    } else {
        assert(score_words(g, k)[j] == san_word(g, k - 1));
        k - 1
    }
}

/// Every line of an export's movetext fits eighty columns: no word is
/// longer than that — a SAN is at most nine characters, a move number
/// at most twenty digits and a dot, a result at most seven — so the
/// greedy filling never leaves one standing alone over the width.
proof fn lemma_export_columns(g: GameModel, result: Seq<char>)
    requires
        valid_history(g.start, g.log, g.history),
        is_marker(result),
        g.log.len() <= usize::MAX,
    ensures
        forall|i: int|
            0 <= i < wrap_spec(export_moves(g, result), 80).len() ==> byte_len(
                #[trigger] wrap_spec(export_moves(g, result), 80)[i],
            ) <= 80,
{
    let text = export_moves(g, result);
    let n = g.log.len() as int;
    let ws = words(text);
    lemma_export_words(g, result);
    crate::pgn::lemma_wrap_fits(text, 80);
    assert(pow10(20) == 100000000000000000000) by {
        reveal_with_fuel(pow10, 21);
    }
    assert forall|j: int| 0 <= j < ws.len() implies byte_len(#[trigger] ws[j]) <= 80 by {
        assert(good_word(ws[j]));
        lemma_score_bytes(ws[j]);
        if j < score_words(g, n).len() {
            assert(ws[j] == score_words(g, n)[j]);
            let i = lemma_score_word_kinds(g, n, j);
            if ws[j] == san_word(g, i) {
                lemma_san_word_len(g, i);
            } else {
                lemma_decimal_len((i / 2 + 1) as nat, 20);
            }
        } else {
            assert(ws[j] == result);
        }
    }
    let lines = wrap_spec(text, 80);
    assert forall|i: int| 0 <= i < lines.len() implies byte_len(#[trigger] lines[i]) <= 80 by {
        assert(crate::pgn::fits(lines[i], ws, 80));
        if ws.contains(lines[i]) {
            let j = choose|j: int| 0 <= j < ws.len() && ws[j] == lines[i];
        }
    }
}

} // verus!

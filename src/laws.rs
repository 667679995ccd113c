//! Facts about whole scans, over the model that `Lexer::next_token` is
//! specified against.
use crate::lexer::{
    digits_end, exhausted, is_digit, is_space, is_word_char, lemma_digits_end_bound,
    lemma_skip_spaces_bound, lemma_token_end_bound, lemma_word_end_bound, next_position,
    skip_spaces, token_at, token_end, word_end, is_word_start,
};
use crate::token::{keyword, Token, TokenType};
use vstd::prelude::*;

verus! {

/// `t` with its whitespace characters left out, the others kept in order.
pub open spec fn without_spaces(t: Seq<char>) -> Seq<char>
    decreases t.len(),
{
    if t.len() == 0 {
        Seq::empty()
    } else if is_space(t[0]) {
        without_spaces(t.drop_first())
    } else {
        seq![t[0]] + without_spaces(t.drop_first())
    }
}

/// The texts of the tokens that successive calls of `Lexer::next_token` read
/// from index `i` on, up to the end-of-input token (left out, as its text is
/// empty). The guard on `e` never holds: a token that begins before the end
/// is not empty and does not pass the end.
pub open spec fn lexemes_from(s: Seq<char>, i: nat) -> Seq<Seq<char>>
    decreases s.len() - i,
{
    let st = skip_spaces(s, i);
    let e = token_end(s, st);
    if st >= s.len() || e <= i || e > s.len() {
        Seq::empty()
    } else {
        seq![s.subrange(st as int, e as int)] + lexemes_from(s, e)
    }
}

proof fn lemma_spaces_dropped(s: Seq<char>, i: nat)
    requires
        i <= s.len(),
    ensures
        without_spaces(s.subrange(i as int, s.len() as int)) == without_spaces(
            s.subrange(skip_spaces(s, i) as int, s.len() as int),
        ),
    decreases s.len() - i,
{
    if i < s.len() && is_space(s[i as int]) {
        assert(s.subrange(i as int, s.len() as int).drop_first() =~= s.subrange(
            i + 1 as int,
            s.len() as int,
        ));
        lemma_spaces_dropped(s, i + 1);
    }
}

proof fn lemma_solid_prefix(s: Seq<char>, j: nat, e: nat)
    requires
        j <= e <= s.len(),
        forall|k: int| j <= k < e ==> !is_space(#[trigger] s[k]),
    ensures
        without_spaces(s.subrange(j as int, s.len() as int)) == s.subrange(j as int, e as int)
            + without_spaces(s.subrange(e as int, s.len() as int)),
    decreases e - j,
{
    if j == e {
        assert(s.subrange(j as int, e as int) =~= Seq::<char>::empty());
        assert(Seq::<char>::empty() + without_spaces(s.subrange(e as int, s.len() as int))
            =~= without_spaces(s.subrange(e as int, s.len() as int)));
    } else {
        lemma_solid_prefix(s, j + 1, e);
        let t = s.subrange(j as int, s.len() as int);
        assert(t.drop_first() =~= s.subrange(j + 1 as int, s.len() as int));
        assert(t[0] == s[j as int]);
        assert(s.subrange(j as int, e as int) =~= seq![s[j as int]] + s.subrange(
            j + 1 as int,
            e as int,
        ));
    }
}

proof fn lemma_token_is_solid(s: Seq<char>, st: nat)
    requires
        st < s.len(),
        !is_space(s[st as int]),
    ensures
        forall|k: int| st <= k < token_end(s, st) ==> !is_space(#[trigger] s[k]),
{
    lemma_digits_end_bound(s, st);
    lemma_word_end_bound(s, st);
    assert forall|k: int| st <= k < token_end(s, st) implies !is_space(#[trigger] s[k]) by {
        if k > st {
            if is_digit(s[st as int]) && s[st as int] != '=' && s[st as int] != '!' {
                assert(is_digit(s[k]));
            } else if s[st as int] != '=' && s[st as int] != '!' {
                assert(is_word_char(s[k]));
            }
        }
    }
}

proof fn lemma_lexemes_cover_rest(s: Seq<char>, i: nat)
    requires
        i <= s.len(),
    ensures
        lexemes_from(s, i).flatten() == without_spaces(s.subrange(i as int, s.len() as int)),
    decreases s.len() - i,
{
    let st = skip_spaces(s, i);
    lemma_skip_spaces_bound(s, i);
    lemma_token_end_bound(s, st);
    lemma_spaces_dropped(s, i);
    let e = token_end(s, st);
    if st >= s.len() {
        assert(s.subrange(st as int, s.len() as int) =~= Seq::<char>::empty());
    } else {
        lemma_lexemes_cover_rest(s, e);
        lemma_token_is_solid(s, st);
        lemma_solid_prefix(s, st, e);
        let lx = lexemes_from(s, i);
        assert(lx.drop_first() =~= lexemes_from(s, e));
    }
}

/// Reading order: the texts of all the tokens of a scan, joined in the order
/// in which they are read, are the whole input with its whitespace left out.
/// Nothing is lost, nothing is repeated, nothing is reordered.
pub proof fn lemma_lexemes_spell_input(s: Seq<char>)
    ensures
        lexemes_from(s, 0).flatten() == without_spaces(s),
{
    lemma_lexemes_cover_rest(s, 0);
    assert(s.subrange(0, s.len() as int) =~= s);
}

/// The end is final: once only whitespace is left, the next call of
/// `Lexer::next_token` moves the cursor to the end of the input (or leaves it
/// where it is, past the end), and from there every later call finds nothing
/// left and leaves the cursor in place.
pub proof fn lemma_end_of_input_repeats(s: Seq<char>, i: nat)
    requires
        exhausted(s, i),
    ensures
        next_position(s, i) >= s.len(),
        exhausted(s, next_position(s, i)),
        next_position(s, next_position(s, i)) == next_position(s, i),
{
    if i <= s.len() {
        lemma_skip_spaces_bound(s, i);
    }
}

/// `==` and `!=` are read whole: where `=` or `!` is followed by `=`, the
/// token is the two-character operator, never two one-character tokens; a
/// lone `=` or `!` is `Assign` or `Bang`.
pub proof fn lemma_two_char_operators_are_maximal(s: Seq<char>, st: nat, tok: Token)
    requires
        st < s.len(),
        s[st as int] == '=' || s[st as int] == '!',
        token_at(s, st, tok),
    ensures
        st + 1 < s.len() && s[st + 1 as int] == '=' ==> tok.literal@.len() == 2
            && tok.token_type == if s[st as int] == '=' {
            TokenType::Equals
        } else {
            TokenType::NotEquals
        },
        !(st + 1 < s.len() && s[st + 1 as int] == '=') ==> tok.literal@.len() == 1
            && tok.token_type == if s[st as int] == '=' {
            TokenType::Assign
        } else {
            TokenType::Bang
        },
{
    let lit = tok.literal@;
    if st + 1 < s.len() && s[st + 1 as int] == '=' {
        assert(lit =~= seq![s[st as int], '=']);
    } else {
        assert(lit =~= seq![s[st as int]]);
    }
}

/// Words: a token that begins with a letter or `_` is the whole run of
/// letters, digits and `_` from there, and it is a reserved word exactly when
/// that whole run spells one; otherwise it is an identifier named by the run.
pub proof fn lemma_words_are_classified_whole(s: Seq<char>, st: nat, tok: Token)
    requires
        st < s.len(),
        is_word_start(s[st as int]),
        token_at(s, st, tok),
    ensures
        tok.literal@ == s.subrange(st as int, word_end(s, st) as int),
        word_end(s, st) < s.len() ==> !is_word_char(s[word_end(s, st) as int]),
        keyword(tok.literal@) is Some ==> tok.token_type == keyword(tok.literal@)->0,
        keyword(tok.literal@) is None ==> tok.token_type is Identifier
            && tok.token_type->Identifier_0@ == tok.literal@,
{
    lemma_word_end_bound(s, st);
}

} // verus!

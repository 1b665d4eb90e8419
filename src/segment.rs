use crate::char_map::{index_of, CharToXi};
use crate::error::ChawuekError;
use vstd::prelude::*;

verus! {

/// Bit pattern of the `f32` value 0.5, the probability that a position
/// must exceed to start a new token.
pub const PRED_THRESHOLD_BITS: u32 = 0x3F00_0000;

/// Bit pattern of the `f32` value positive infinity.
pub const POS_INFINITY_BITS: u32 = 0x7F80_0000;

/// Whether the `f32` whose bit pattern is `p` compares greater than 0.5.
///
/// Among non-negative `f32` values the bit patterns order as the values
/// do, up to positive infinity; negative values and NaN have patterns
/// above that of positive infinity, and none of them exceeds 0.5.
pub open spec fn is_boundary(p: u32) -> bool {
    PRED_THRESHOLD_BITS < p && p <= POS_INFINITY_BITS
}

/// Whether a position with boundary probability `p`, given as the bit
/// pattern of an `f32`, starts a new token.
pub fn above_threshold(p: u32) -> (r: bool)
    ensures
        r == is_boundary(p),
{
    PRED_THRESHOLD_BITS < p && p <= POS_INFINITY_BITS
}

/// The tokens of `chars`: the first character opens the first token, and
/// each later position `i` closes the current token and opens a new one
/// exactly where `probs[i]` is above the threshold.
pub open spec fn tokens_of(chars: Seq<char>, probs: Seq<u32>) -> Seq<Seq<char>>
    decreases chars.len(),
{
    if chars.len() <= 1 {
        seq![chars]
    } else {
        let n = chars.len() - 1;
        let prev = tokens_of(chars.take(n), probs);
        if is_boundary(probs[n]) {
            prev.push(seq![chars[n]])
        } else {
            prev.update(prev.len() - 1, prev.last().push(chars[n]))
        }
    }
}

/// The number of positions from 1 up to `n` (excluded) whose probability
/// is above the threshold.
pub open spec fn boundary_count(probs: Seq<u32>, n: int) -> nat
    decreases n,
{
    if n <= 1 {
        0
    } else if is_boundary(probs[n - 1]) {
        boundary_count(probs, n - 1) + 1
    } else {
        boundary_count(probs, n - 1)
    }
}

/// Relies on `String::push`, which appends one character.
#[verifier::external_body]
fn push_char(s: &mut String, c: char)
    ensures
        final(s)@ == old(s)@.push(c),
{
    s.push(c)
}

/// The characters of a text, in order.
pub fn text_chars(text: &str) -> (r: Vec<char>)
    ensures
        r@ == text@,
{
    let n = text.unicode_len();
    let mut r: Vec<char> = Vec::new();
    let mut i: usize = 0;
    while i < n
        invariant
            i <= n,
            n == text@.len(),
            r@ == text@.take(i as int),
        decreases n - i,
    {
        let c = text.get_char(i);
        r.push(c);
        i = i + 1;
        assert(r@ =~= text@.take(i as int));
    }
    assert(text@.take(n as int) =~= text@);
    r
}

/// Splits a non-empty character sequence into tokens, given one boundary
/// probability per character as the bit pattern of an `f32`.
pub fn decode(chars: &Vec<char>, probs: &Vec<u32>) -> (toks: Vec<String>)
    requires
        chars.len() == probs.len(),
        chars.len() >= 1,
    ensures
        toks.deep_view() == tokens_of(chars@, probs@),
        toks.deep_view().flatten() == chars@,
        forall|k: int| 0 <= k < toks.len() ==> (#[trigger] toks[k])@.len() > 0,
        toks.len() == 1 + boundary_count(probs@, chars.len() as int),
{
    let mut buf = String::new();
    push_char(&mut buf, chars[0]);
    let mut toks: Vec<String> = Vec::new();
    assert(chars@.take(1) =~= seq![chars@[0]]);
    assert(toks.deep_view().push(buf@) =~= tokens_of(chars@.take(1), probs@));
    let mut i: usize = 1;
    while i < chars.len()
        invariant
            1 <= i <= chars.len(),
            chars.len() == probs.len(),
            toks.deep_view().push(buf@) == tokens_of(chars@.take(i as int), probs@),
        decreases chars.len() - i,
    {
        assert(chars@.take(i + 1).take(i as int) =~= chars@.take(i as int));
        assert(chars@.take(i + 1)[i as int] == chars@[i as int]);
        let ghost before = toks.deep_view();
        if above_threshold(probs[i]) {
            toks.push(buf);
            buf = String::new();
            assert(toks.deep_view() =~= before.push(tokens_of(chars@.take(i as int), probs@).last()));
        }
        push_char(&mut buf, chars[i]);
        i = i + 1;
        assert(toks.deep_view().push(buf@) =~= tokens_of(chars@.take(i as int), probs@));
    }
    let ghost before = toks.deep_view();
    toks.push(buf);
    assert(toks.deep_view() =~= before.push(buf@));
    assert(chars@.take(chars.len() as int) =~= chars@);
    proof {
        lemma_round_trip(chars@, probs@);
        lemma_token_count(chars@, probs@);
        assert forall|k: int| 0 <= k < toks.len() implies (#[trigger] toks[k])@.len() > 0 by {
            assert(toks.deep_view()[k] == toks[k]@);
        }
    }
    toks
}

/// Splits the characters of a text with the probabilities that the
/// classifier gave for it, if it gave one per character.
///
/// An empty text has no tokens.
pub fn segment(chars: &Vec<char>, output: Option<Vec<u32>>) -> (r: Result<Vec<String>, ChawuekError>)
    ensures
        match output {
            None => r == Err::<Vec<String>, ChawuekError>(ChawuekError::ModuleReturnedAnInvalidValue),
            Some(probs) => if probs.len() != chars.len() {
                r == Err::<Vec<String>, ChawuekError>(ChawuekError::ModuleReturnedAnInvalidValue)
            } else if chars.len() == 0 {
                r is Ok && r->Ok_0.len() == 0
            } else {
                r is Ok && r->Ok_0.deep_view() == tokens_of(chars@, probs@)
            },
        },
        r is Ok ==> r->Ok_0.deep_view().flatten() == chars@,
{
    match output {
        None => Err(ChawuekError::ModuleReturnedAnInvalidValue),
        Some(probs) => {
            if probs.len() != chars.len() {
                Err(ChawuekError::ModuleReturnedAnInvalidValue)
            } else if chars.len() == 0 {
                let toks: Vec<String> = Vec::new();
                assert(toks.deep_view().flatten() =~= chars@);
                Ok(toks)
            } else {
                Ok(decode(chars, &probs))
            }
        },
    }
}

/// Segmenting is deterministic: two tables with the same content encode a
/// text alike, and the same probabilities split it alike.
pub proof fn lemma_deterministic(
    t1: &CharToXi,
    t2: &CharToXi,
    chars: Seq<char>,
    p1: Seq<u32>,
    p2: Seq<u32>,
)
    requires
        t1@ == t2@,
        p1 == p2,
    ensures
        chars.map_values(|c: char| index_of(t1@, c)) == chars.map_values(|c: char| index_of(t2@, c)),
        tokens_of(chars, p1) == tokens_of(chars, p2),
{
}

/// Concatenating the tokens of a non-empty character sequence gives the
/// sequence back, and no token is empty.
pub proof fn lemma_round_trip(chars: Seq<char>, probs: Seq<u32>)
    requires
        chars.len() >= 1,
    ensures
        tokens_of(chars, probs).flatten() == chars,
        forall|k: int|
            0 <= k < tokens_of(chars, probs).len() ==> (#[trigger] tokens_of(chars, probs)[k]).len() > 0,
    decreases chars.len(),
{
    broadcast use Seq::lemma_flatten_push;

    let toks = tokens_of(chars, probs);
    if chars.len() <= 1 {
        assert(seq![chars].flatten() =~= chars) by {
            seq![chars].lemma_flatten_one_element();
        }
    } else {
        let n = chars.len() - 1;
        let prev = tokens_of(chars.take(n), probs);
        lemma_round_trip(chars.take(n), probs);
        assert(prev.len() >= 1) by {
            if prev.len() == 0 {
                assert(prev.flatten() =~= Seq::<char>::empty());
            }
        }
        assert(chars.take(n).push(chars[n]) =~= chars);
        if !is_boundary(probs[n]) {
            assert(prev =~= prev.drop_last().push(prev.last()));
            assert(toks =~= prev.drop_last().push(prev.last().push(chars[n])));
            assert(prev.drop_last().flatten() + prev.last().push(chars[n]) =~= prev.flatten().push(chars[n]));
        }
    }
}

/// There is one token more than there are positions after the first whose
/// probability is above the threshold.
pub proof fn lemma_token_count(chars: Seq<char>, probs: Seq<u32>)
    ensures
        tokens_of(chars, probs).len() == 1 + boundary_count(probs, chars.len() as int),
    decreases chars.len(),
{
    if chars.len() > 1 {
        lemma_token_count(chars.take(chars.len() - 1), probs);
    }
}

/// Two probability sequences that decide alike at every position after the
/// first give the same tokens.
pub proof fn lemma_same_decisions(chars: Seq<char>, p: Seq<u32>, q: Seq<u32>)
    requires
        forall|j: int| 1 <= j < chars.len() ==> is_boundary(#[trigger] p[j]) == is_boundary(q[j]),
    ensures
        tokens_of(chars, p) == tokens_of(chars, q),
    decreases chars.len(),
{
    if chars.len() > 1 {
        lemma_same_decisions(chars.take(chars.len() - 1), p, q);
    }
}

/// A position whose probability equals the threshold does not start a
/// token: the tokens are those obtained with probability zero there, and
/// the next `f32` above the threshold would add one token.
pub proof fn lemma_threshold_strict(chars: Seq<char>, probs: Seq<u32>, i: int)
    requires
        chars.len() == probs.len(),
        1 <= i < chars.len(),
        probs[i] == PRED_THRESHOLD_BITS,
    ensures
        tokens_of(chars, probs) == tokens_of(chars, probs.update(i, 0)),
        tokens_of(chars, probs.update(i, (PRED_THRESHOLD_BITS + 1) as u32)).len()
            == tokens_of(chars, probs).len() + 1,
{
    let q = probs.update(i, 0);
    let s = probs.update(i, (PRED_THRESHOLD_BITS + 1) as u32);
    lemma_same_decisions(chars, probs, q);
    lemma_token_count(chars, probs);
    lemma_token_count(chars, s);
    lemma_count_one_more(probs, s, i, chars.len() as int);
}

/// Raising one position after the first from below to above the threshold
/// adds one to the count of every range that holds it.
proof fn lemma_count_one_more(p: Seq<u32>, q: Seq<u32>, i: int, n: int)
    requires
        1 <= i < n <= p.len(),
        q.len() == p.len(),
        !is_boundary(p[i]),
        is_boundary(q[i]),
        forall|j: int| 0 <= j < p.len() && j != i ==> p[j] == q[j],
    ensures
        boundary_count(q, n) == boundary_count(p, n) + 1,
    decreases n,
{
    if n - 1 > i {
        lemma_count_one_more(p, q, i, n - 1);
    } else {
        lemma_count_equal_below(p, q, i, i);
    }
}

/// Counts up to a position at or before the only one where two sequences
/// differ are equal.
proof fn lemma_count_equal_below(p: Seq<u32>, q: Seq<u32>, i: int, n: int)
    requires
        n <= i,
        forall|j: int| 0 <= j < p.len() && j != i ==> p[j] == q[j],
        i < p.len() == q.len(),
    ensures
        boundary_count(q, n) == boundary_count(p, n),
    decreases n,
{
    if n > 1 {
        lemma_count_equal_below(p, q, i, n - 1);
    }
}

/// The first position never starts a token, whatever its probability, and
/// a single character is a single token.
pub proof fn lemma_first_position(chars: Seq<char>, probs: Seq<u32>, p0: u32)
    requires
        chars.len() == probs.len(),
        chars.len() >= 1,
    ensures
        tokens_of(chars, probs) == tokens_of(chars, probs.update(0, p0)),
        tokens_of(chars, probs)[0].len() >= 1,
        tokens_of(chars, probs)[0][0] == chars[0],
        chars.len() == 1 ==> tokens_of(chars, probs) == seq![chars],
{
    lemma_same_decisions(chars, probs, probs.update(0, p0));
    lemma_first_token(chars, probs);
}

/// The first token begins with the first character.
proof fn lemma_first_token(chars: Seq<char>, probs: Seq<u32>)
    requires
        chars.len() >= 1,
    ensures
        tokens_of(chars, probs).len() >= 1,
        tokens_of(chars, probs)[0].len() >= 1,
        tokens_of(chars, probs)[0][0] == chars[0],
    decreases chars.len(),
{
    if chars.len() > 1 {
        let n = chars.len() - 1;
        lemma_first_token(chars.take(n), probs);
        let prev = tokens_of(chars.take(n), probs);
        if !is_boundary(probs[n]) && prev.len() == 1 {
            assert(prev.last().push(chars[n])[0] == prev.last()[0]);
        }
    }
}

} // verus!

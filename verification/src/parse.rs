use vstd::prelude::*;
use vstd::string::StringSliceAdditionalSpecFns;

use crate::edge::Edge;
use crate::weighted_edge::WeightedEdge;

verus! {

/// A token separator in an edge line: a comma or a space.
pub open spec fn is_sep(b: u8) -> bool {
    b == 44 || b == 32
}

/// Splits `s` at maximal runs of separators, accumulating the current
/// token in `cur`. Leading and trailing runs yield empty tokens, as a
/// split on a separator pattern does; runs in the middle never do.
pub open spec fn split_from(s: Seq<u8>, cur: Seq<u8>) -> Seq<Seq<u8>>
    decreases s.len(),
{
    if s.len() == 0 {
        seq![cur]
    } else if is_sep(s[0]) {
        if s.len() > 1 && is_sep(s[1]) {
            split_from(s.drop_first(), cur)
        } else {
            seq![cur] + split_from(s.drop_first(), Seq::empty())
        }
    } else {
        split_from(s.drop_first(), cur.push(s[0]))
    }
}

/// The tokens of an edge line: the pieces between maximal runs of
/// commas and spaces.
pub open spec fn split_tokens(s: Seq<u8>) -> Seq<Seq<u8>> {
    split_from(s, Seq::empty())
}

/// An ASCII decimal digit.
pub open spec fn is_digit_byte(b: u8) -> bool {
    48 <= b <= 57
}

/// The number a sequence of digit bytes denotes, most significant first.
pub open spec fn token_val(s: Seq<u8>) -> int
    decreases s.len(),
{
    if s.len() == 0 {
        0
    } else {
        token_val(s.drop_last()) * 10 + (s.last() - 48)
    }
}

/// A token that denotes a `u32`: non-empty, all digits, and in range.
pub open spec fn valid_u32_token(s: Seq<u8>) -> bool {
    &&& s.len() > 0
    &&& forall|i: int| 0 <= i < s.len() ==> is_digit_byte(#[trigger] s[i])
    &&& token_val(s) <= u32::MAX
}

proof fn lemma_token_val_nonneg(s: Seq<u8>)
    requires
        forall|i: int| 0 <= i < s.len() ==> is_digit_byte(#[trigger] s[i]),
    ensures
        token_val(s) >= 0,
    decreases s.len(),
{
    if s.len() > 0 {
        let t = s.drop_last();
        assert forall|i: int| 0 <= i < t.len() implies is_digit_byte(#[trigger] t[i]) by {
            assert(t[i] == s[i]);
        }
        lemma_token_val_nonneg(t);
        assert(is_digit_byte(s[s.len() - 1]));
    }
}

/// A digit prefix never denotes more than the whole digit token.
proof fn lemma_token_val_prefix(s: Seq<u8>, i: int)
    requires
        0 <= i <= s.len(),
        forall|j: int| 0 <= j < s.len() ==> is_digit_byte(#[trigger] s[j]),
    ensures
        token_val(s.take(i)) <= token_val(s),
    decreases s.len() - i,
{
    if i == s.len() {
        assert(s.take(i) =~= s);
    } else {
        let p = s.take(i);
        let q = s.take(i + 1);
        assert(q.drop_last() =~= p);
        assert(q.last() == s[i]);
        assert forall|j: int| 0 <= j < p.len() implies is_digit_byte(#[trigger] p[j]) by {
            assert(p[j] == s[j]);
        }
        lemma_token_val_nonneg(p);
        assert(token_val(q) == token_val(p) * 10 + (s[i] - 48));
        assert(token_val(p) <= token_val(q));
        lemma_token_val_prefix(s, i + 1);
    }
}

/// Relies on regex::Regex::new and regex::Regex::split with the fixed
/// pattern of one-or-more commas or spaces: the pieces between maximal
/// separator runs, in order, as their bytes. A multi-byte character
/// never holds a byte under 128, so splitting at comma and space bytes
/// is splitting at those characters.
#[verifier::external_body]
fn split_line(line: &str) -> (r: Vec<Vec<u8>>)
    ensures
        r@.len() == split_tokens(line.spec_bytes()).len(),
        forall|i: int|
            0 <= i < r@.len() ==> (#[trigger] r@[i])@ == split_tokens(line.spec_bytes())[i],
{
    regex::Regex::new(r"[, ]+").unwrap().split(line).map(|t| t.as_bytes().to_vec()).collect()
}

/// Reads a token as an unsigned decimal number: accepted exactly when
/// the token is one or more digits denoting a value that fits in `u32`.
pub fn parse_u32(tok: &Vec<u8>) -> (r: Option<u32>)
    ensures
        r is Some <==> valid_u32_token(tok@),
        r is Some ==> r->0 == token_val(tok@),
{
    if tok.len() == 0 {
        return None;
    }
    let mut acc: u64 = 0;
    let mut i: usize = 0;
    while i < tok.len()
        invariant
            i <= tok@.len(),
            forall|j: int| 0 <= j < i ==> is_digit_byte(#[trigger] tok@[j]),
            acc == token_val(tok@.take(i as int)),
            acc <= u32::MAX,
        decreases tok@.len() - i,
    {
        let b = tok[i];
        if b < 48 || b > 57 {
            proof {
                assert(!is_digit_byte(tok@[i as int]));
            }
            return None;
        }
        let d = (b - 48) as u64;
        acc = acc * 10 + d;
        proof {
            assert(tok@.take(i + 1).drop_last() =~= tok@.take(i as int));
            assert(tok@.take(i + 1).last() == tok@[i as int]);
        }
        i += 1;
        if acc > u32::MAX as u64 {
            proof {
                if valid_u32_token(tok@) {
                    lemma_token_val_prefix(tok@, i as int);
                }
            }
            return None;
        }
    }
    proof {
        assert(tok@.take(i as int) =~= tok@);
    }
    Some(acc as u32)
}

/// Reads `<source>, <sink>` from a line whose tokens are separated by
/// commas or spaces; extra tokens are ignored, as the numbers are read
/// by position. Accepted exactly when the first two tokens are in-range
/// decimal numbers.
pub fn parse_edge_line(line: &str) -> (r: Option<Edge<u32>>)
    ensures
        r is Some <==> split_tokens(line.spec_bytes()).len() >= 2 && valid_u32_token(
            split_tokens(line.spec_bytes())[0],
        ) && valid_u32_token(split_tokens(line.spec_bytes())[1]),
        r is Some ==> (r->0).spec_source() == token_val(split_tokens(line.spec_bytes())[0])
            && (r->0).spec_sink() == token_val(split_tokens(line.spec_bytes())[1]),
{
    let toks = split_line(line);
    if toks.len() < 2 {
        return None;
    }
    let source = match parse_u32(&toks[0]) {
        Some(v) => v,
        None => {
            return None;
        },
    };
    let sink = match parse_u32(&toks[1]) {
        Some(v) => v,
        None => {
            return None;
        },
    };
    Some(Edge::new(source, sink))
}

/// Reads `<source>, <sink>, <weight>` from a line whose tokens are
/// separated by commas or spaces; extra tokens are ignored. Accepted
/// exactly when the first three tokens are in-range decimal numbers.
pub fn parse_weighted_edge_line(line: &str) -> (r: Option<WeightedEdge<u32>>)
    ensures
        r is Some <==> split_tokens(line.spec_bytes()).len() >= 3 && valid_u32_token(
            split_tokens(line.spec_bytes())[0],
        ) && valid_u32_token(split_tokens(line.spec_bytes())[1]) && valid_u32_token(
            split_tokens(line.spec_bytes())[2],
        ),
        r is Some ==> (r->0).spec_source() == token_val(split_tokens(line.spec_bytes())[0])
            && (r->0).spec_sink() == token_val(split_tokens(line.spec_bytes())[1])
            && (r->0).spec_weight() == token_val(split_tokens(line.spec_bytes())[2]),
{
    let toks = split_line(line);
    if toks.len() < 3 {
        return None;
    }
    let source = match parse_u32(&toks[0]) {
        Some(v) => v,
        None => {
            return None;
        },
    };
    let sink = match parse_u32(&toks[1]) {
        Some(v) => v,
        None => {
            return None;
        },
    };
    let weight = match parse_u32(&toks[2]) {
        Some(v) => v,
        None => {
            return None;
        },
    };
    Some(WeightedEdge::new(source, sink, weight))
}

} // verus!

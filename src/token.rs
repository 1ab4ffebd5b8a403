//! Decision tokens: the report and the proposed outcome that a prompt's
//! button carries, as text.
use vstd::prelude::*;

use crate::decimal::{int_text, lemma_int_text_round_trip, parse_i32, parse_i32_spec, push_int};
use crate::resolution::Outcome;

verus! {

/// A moderator's proposed decision on one report.
#[derive(Clone, Copy, Debug, PartialEq, Eq, Structural)]
pub struct DecisionToken {
    pub report_id: i32,
    pub outcome: Outcome,
}

/// A token text that names no decision.
#[derive(Clone, Copy, Debug, PartialEq, Eq, Structural)]
pub struct BadToken;

/// The letter that opens a token: `y` to ban, `n` to dismiss.
pub open spec fn outcome_letter(o: Outcome) -> char {
    match o {
        Outcome::Banned => 'y',
        Outcome::Dismissed => 'n',
    }
}

/// A token's text: the outcome's letter, then the report id.
pub open spec fn token_text(t: DecisionToken) -> Seq<char> {
    seq![outcome_letter(t.outcome)] + int_text(t.report_id as int)
}

/// The outcome that a token letter stands for.
pub open spec fn letter_outcome(c: char) -> Option<Outcome> {
    if c == 'y' {
        Some(Outcome::Banned)
    } else if c == 'n' {
        Some(Outcome::Dismissed)
    } else {
        None
    }
}

/// The token that a text denotes, if any.
pub open spec fn decode_spec(s: Seq<char>) -> Option<DecisionToken> {
    if s.len() == 0 {
        None
    } else {
        match (letter_outcome(s[0]), parse_i32_spec(s.drop_first())) {
            (Some(o), Some(v)) => Some(DecisionToken { report_id: v as i32, outcome: o }),
            _ => None,
        }
    }
}

impl DecisionToken {
    /// The token's text, as carried by a prompt's button.
    pub fn encode(&self) -> (r: String)
        ensures
            r@ == token_text(*self),
    {
        let mut out = String::new();
        match self.outcome {
            Outcome::Banned => {
                proof { reveal_strlit("y"); }
                out.append("y");
            },
            Outcome::Dismissed => {
                proof { reveal_strlit("n"); }
                out.append("n");
            },
        }
        push_int(&mut out, self.report_id as i64);
        assert(out@ =~= token_text(*self));
        out
    }

    /// Reads a token's text back.
    pub fn decode(s: &str) -> (r: Result<DecisionToken, BadToken>)
        ensures
            match r {
                Ok(t) => decode_spec(s@) == Some(t),
                Err(_) => decode_spec(s@) is None,
            },
    {
        let len = s.unicode_len();
        if len == 0 {
            return Err(BadToken);
        }
        let c = s.get_char(0);
        let outcome = if c == 'y' {
            Outcome::Banned
        } else if c == 'n' {
            Outcome::Dismissed
        } else {
            return Err(BadToken);
        };
        let rest = s.substring_char(1, len);
        assert(rest@ =~= s@.drop_first());
        match parse_i32(rest) {
            Some(v) => Ok(DecisionToken { report_id: v, outcome }),
            None => Err(BadToken),
        }
    }
}

/// Decoding a token's text gives the token back.
pub proof fn lemma_token_round_trip(t: DecisionToken)
    ensures
        decode_spec(token_text(t)) == Some(t),
{
    lemma_int_text_round_trip(t.report_id as int);
    let s = token_text(t);
    assert(s.drop_first() =~= int_text(t.report_id as int));
}

} // verus!

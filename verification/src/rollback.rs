//! The verifier: reflection trimming and contradiction rollback.
//!
//! Trimming cuts a prompt at the first occurrence of each reflection
//! indicator in a fixed priority order, each cut applied to the result of
//! the previous one, and trims whitespace from both ends. Rollback replaces
//! generated output with a notice carrying the contradiction score when the
//! score — supplied by an external oracle, absent when the oracle is
//! unavailable — exceeds the fixed threshold.

use vstd::prelude::*;
use crate::text::dec_digits;
use crate::text::digit_char;
use crate::text::digit_str;
use crate::text::find_from;
use crate::text::find_pattern;
use crate::text::to_chars;
use crate::text::trim_bounds;
use crate::text::u64_to_dec;
use crate::text::ws_trimmed;

verus! {

/// The contradiction threshold in hundredths: a score strictly above this
/// triggers rollback.
pub const THRESHOLD_CENTI: u32 = 70;

/// The reflection-indicator phrases, in priority order.
pub open spec fn indicators() -> Seq<Seq<char>> {
    seq![
        "Think about it."@,
        "Actually, think again."@,
        "Then, consider a different approach."@,
        "Reflect on this."@,
        "Reconsider your answer."@,
        "Go back and think."@,
        "Let me re-evaluate."@,
    ]
}

/// The text cut at the first occurrence of `p`, if it occurs.
pub open spec fn trim_once(s: Seq<char>, p: Seq<char>) -> Seq<char> {
    let f = find_from(s, p, 0);
    if f >= 0 {
        s.take(f)
    } else {
        s
    }
}

/// The text cut at each indicator in turn, each cut applied to the result
/// of the previous one.
pub open spec fn trim_all(s: Seq<char>, inds: Seq<Seq<char>>) -> Seq<char>
    decreases inds.len(),
{
    if inds.len() == 0 {
        s
    } else {
        trim_all(trim_once(s, inds[0]), inds.drop_first())
    }
}

/// What `trim_reflection` returns: every indicator applied in order, then
/// whitespace trimmed from both ends.
pub open spec fn trim_reflection_spec(s: Seq<char>) -> Seq<char> {
    ws_trimmed(trim_all(s, indicators()))
}

/// Trimming only ever keeps a prefix of the text.
pub proof fn lemma_trim_all_prefix(s: Seq<char>, inds: Seq<Seq<char>>)
    ensures
        trim_all(s, inds).len() <= s.len(),
        trim_all(s, inds) == s.take(trim_all(s, inds).len() as int),
    decreases inds.len(),
{
    if inds.len() == 0 {
        assert(s =~= s.take(s.len() as int));
    } else {
        let t1 = trim_once(s, inds[0]);
        crate::text::lemma_find_from(s, inds[0], 0);
        lemma_trim_all_prefix(t1, inds.drop_first());
        let r = trim_all(t1, inds.drop_first());
        assert(t1 == s.take(t1.len() as int)) by {
            if find_from(s, inds[0], 0) < 0 {
                assert(t1 =~= s.take(t1.len() as int));
            }
        }
        assert(r == t1.take(r.len() as int));
        assert(t1.take(r.len() as int) =~= s.take(r.len() as int));
    }
}

/// The oracle's score, or zero when the oracle was unavailable: rollback
/// fails open.
pub open spec fn score_or_default(score: Option<u32>) -> u32 {
    match score {
        Some(s) => s,
        None => 0,
    }
}

/// The score in hundredths rendered with two decimal places.
pub open spec fn centi_digits(s: int) -> Seq<char> {
    dec_digits(s / 100) + seq!['.'] + seq![digit_char((s % 100) / 10)] + seq![
        digit_char(s % 10),
    ]
}

/// The rollback notice carrying the contradiction score.
pub open spec fn rollback_notice_spec(s: int) -> Seq<char> {
    "Rollback triggered: The generated output contained a contradiction and was re-run. Here is a corrected response. Original contradiction score: "@
        + centi_digits(s)
}

/// What `verify_and_rollback` returns: the output unchanged when there is
/// no knowledge to check against or the score stays within the threshold,
/// the rollback notice otherwise.
pub open spec fn verify_outcome_spec(
    output: Seq<char>,
    knowledge_len: nat,
    score: Option<u32>,
) -> Seq<char> {
    if knowledge_len == 0 {
        output
    } else {
        let s = score_or_default(score);
        if s > THRESHOLD_CENTI {
            rollback_notice_spec(s as int)
        } else {
            output
        }
    }
}

/// The verifier: a fixed contradiction threshold and the fixed indicator
/// list.
pub struct Verifier {
    threshold_centi: u32,
}

impl Verifier {
    /// The rollback threshold in hundredths.
    pub closed spec fn threshold_spec(self) -> u32 {
        self.threshold_centi
    }

    /// A verifier with the fixed threshold of seventy hundredths.
    pub fn new() -> (r: Verifier)
        ensures
            r.threshold_spec() == THRESHOLD_CENTI,
    {
        Verifier { threshold_centi: THRESHOLD_CENTI }
    }

    /// Cut the prompt at the first occurrence of each reflection indicator
    /// in priority order — each indicator applied to the result of the
    /// previous cut — and trim surrounding whitespace.
    pub fn trim_reflection(&self, prompt: &str) -> (r: String)
        ensures
            r@ == trim_reflection_spec(prompt@),
    {
        let inds: Vec<&str> = vec![
            "Think about it.",
            "Actually, think again.",
            "Then, consider a different approach.",
            "Reflect on this.",
            "Reconsider your answer.",
            "Go back and think.",
            "Let me re-evaluate.",
        ];
        proof {
            assert(inds@[0]@ == indicators()[0]);
            assert(inds@[1]@ == indicators()[1]);
            assert(inds@[2]@ == indicators()[2]);
            assert(inds@[3]@ == indicators()[3]);
            assert(inds@[4]@ == indicators()[4]);
            assert(inds@[5]@ == indicators()[5]);
            assert(inds@[6]@ == indicators()[6]);
        }
        let mut v = to_chars(prompt);
        let mut i: usize = 0;
        proof {
            assert(indicators().skip(0) =~= indicators());
        }
        while i < inds.len()
            invariant
                0 <= i <= inds@.len(),
                inds@.len() == 7,
                forall|q: int| 0 <= q < 7 ==> (#[trigger] inds@[q])@ == indicators()[q],
                trim_all(prompt@, indicators()) == trim_all(v@, indicators().skip(i as int)),
            decreases inds@.len() - i,
        {
            let pat = to_chars(inds[i]);
            let ghost before = v@;
            match find_pattern(&v, &pat) {
                Some(f) => {
                    v.truncate(f);
                },
                None => {},
            }
            proof {
                let p = indicators()[i as int];
                crate::text::lemma_find_from(before, p, 0);
                if find_from(before, p, 0) >= 0 {
                    assert(v@ =~= before.take(find_from(before, p, 0)));
                }
                assert(v@ == trim_once(before, indicators()[i as int]));
                assert(indicators().skip(i as int).drop_first() =~= indicators().skip(i + 1));
                assert(indicators().skip(i as int)[0] == indicators()[i as int]);
            }
            i = i + 1;
        }
        proof {
            assert(indicators().skip(7) =~= Seq::<Seq<char>>::empty());
            assert(v@ == trim_all(prompt@, indicators()));
        }
        let (a, b) = trim_bounds(&v);
        proof {
            lemma_trim_all_prefix(prompt@, indicators());
            assert(v@ == prompt@.take(v@.len() as int));
            assert(v@.subrange(a as int, b as int) =~= prompt@.subrange(a as int, b as int));
        }
        let out = prompt.substring_char(a, b).to_owned();
        out
    }

    /// Check generated output against the retrieved knowledge. With no
    /// knowledge the output passes unchanged, whatever the oracle said;
    /// otherwise a score above the threshold — zero when the oracle was
    /// unavailable — replaces the output with the rollback notice carrying
    /// the score.
    pub fn verify_and_rollback(
        &self,
        output: &str,
        ekf_knowledge: &Vec<String>,
        contradiction_score_centi: Option<u32>,
    ) -> (r: String)
        requires
            self.threshold_spec() == THRESHOLD_CENTI,
        ensures
            r@ == verify_outcome_spec(
                output@,
                ekf_knowledge@.len() as nat,
                contradiction_score_centi,
            ),
    {
        if ekf_knowledge.len() == 0 {
            return output.to_owned();
        }
        let score = match contradiction_score_centi {
            Some(s) => s,
            None => 0,
        };
        if score > self.threshold_centi {
            let mut notice =
                "Rollback triggered: The generated output contained a contradiction and was re-run. Here is a corrected response. Original contradiction score: ".to_owned();
            let whole = u64_to_dec((score / 100) as u64);
            notice.append(whole.as_str());
            notice.append(".");
            let d1 = digit_str(((score % 100) / 10) as u64);
            notice.append(d1.as_str());
            let d2 = digit_str((score % 10) as u64);
            notice.append(d2.as_str());
            proof {
                reveal_strlit(".");
                assert("."@ =~= seq!['.']);
                assert(notice@ =~= rollback_notice_spec(score as int));
            }
            notice
        } else {
            output.to_owned()
        }
    }
}

} // verus!

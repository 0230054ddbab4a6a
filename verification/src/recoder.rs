//! The digit loop as a state machine, for residuals that are kept
//! elsewhere.
//!
//! The recoding rule compares the residual with the weight of a position
//! and then takes the weight off the residual, adds it, or leaves the
//! residual alone.  Where the residual is not an integer, the one who owns
//! it makes the comparison and the adjustment; everything else is decided
//! here: which character is written, where the decimal point goes, how the
//! budget of non-zero digits is spent, and when the string is complete.

use crate::builder::EncodingPolicy;
use crate::model::{count_nonzero, digit_value, is_digit, lemma_value_push};
use crate::validate::{all_allowed, has_two_points};
use vstd::prelude::*;

verus! {

/// How three halves of the residual compare with the weight of the position
/// that is about to be written.
#[derive(Debug, Clone, Copy, PartialEq, Eq)]
pub enum Comparison {
    /// They exceed the weight.
    Above,
    /// They are below the negated weight.
    Below,
    /// They lie between the two.
    Within,
}

/// What is to be done to the residual once a digit has been written.
#[derive(Debug, Clone, Copy, PartialEq, Eq)]
pub enum Adjust {
    /// Take the weight of the position off the residual.
    Subtract,
    /// Add the weight of the position to the residual.
    Add,
    /// Leave the residual as it is.
    Keep,
    /// Set the residual to zero: the budget of non-zero digits is spent.
    Clear,
}

/// The state of the digit loop.
#[derive(Debug, Clone, Copy, PartialEq, Eq)]
pub enum Phase {
    /// Digits are picked by comparison.
    Recoding,
    /// The budget is spent: every further digit is `0`.
    Flushing,
}

/// The phase that follows from the policy and the number of non-zero digits
/// written so far.
pub open spec fn phase_of(policy: EncodingPolicy, spent: nat) -> Phase {
    match policy {
        EncodingPolicy::MaxNonZeros(k) => if spent >= k {
            Phase::Flushing
        } else {
            Phase::Recoding
        },
        EncodingPolicy::FixedPlaces(_) => Phase::Recoding,
    }
}

/// The digit that is written in a phase for a comparison.
pub open spec fn digit_for(phase: Phase, outcome: Comparison) -> char {
    match phase {
        Phase::Flushing => '0',
        Phase::Recoding => match outcome {
            Comparison::Above => '+',
            Comparison::Below => '-',
            Comparison::Within => '0',
        },
    }
}

/// What is to be done to the residual after a digit that was written in the
/// phase `before` and has led to the phase `after`.
pub open spec fn adjust_for(before: Phase, outcome: Comparison, after: Phase) -> Adjust {
    if before == Phase::Flushing {
        Adjust::Clear
    } else if outcome == Comparison::Within {
        Adjust::Keep
    } else if after == Phase::Flushing {
        Adjust::Clear
    } else if outcome == Comparison::Above {
        Adjust::Subtract
    } else {
        Adjust::Add
    }
}

/// How many characters stand in front of the decimal point of a string
/// whose first digit has the weight `2^(start - 1)`: a lone `0` where
/// `start` is zero.
pub open spec fn integral_len(start: nat) -> nat {
    if start == 0 {
        1
    } else {
        start
    }
}

/// How many characters have been written when the next digit has the weight
/// `2^(exponent - 1)`.
pub open spec fn written_len(start: nat, exponent: int) -> int {
    if exponent >= 0 {
        integral_len(start) - exponent
    } else {
        integral_len(start) + 1 - exponent
    }
}

/// A signed digit string in the making.
pub struct Recoder {
    text: String,
    start: u32,
    exponent: i64,
    policy: EncodingPolicy,
    spent: u64,
}

impl Recoder {
    /// What has been written so far.
    pub closed spec fn text(&self) -> Seq<char> {
        self.text@
    }

    /// The exponent that the loop started with: the weight of the first
    /// digit is `2^(start - 1)`.
    pub closed spec fn start(&self) -> nat {
        self.start as nat
    }

    /// The exponent of the weight above the next digit: the next digit has
    /// the weight `2^(exponent - 1)`.
    pub closed spec fn exponent(&self) -> int {
        self.exponent as int
    }

    /// The policy that governs the loop.
    pub closed spec fn policy(&self) -> EncodingPolicy {
        self.policy
    }

    /// How many non-zero digits have been written.
    pub closed spec fn spent(&self) -> nat {
        self.spent as nat
    }

    /// The phase the loop is in.
    pub open spec fn phase(&self) -> Phase {
        phase_of(self.policy(), self.spent())
    }

    /// What holds of a digit string in the making: it is as long as the
    /// exponent says; it holds the decimal point behind the integral digits
    /// once a fractional digit has been written, and digits everywhere
    /// else; the count of non-zero digits is right and within the budget.
    pub open spec fn well_formed(&self) -> bool {
        &&& self.exponent() <= self.start()
        &&& self.text().len() == written_len(self.start(), self.exponent())
        &&& forall|i: int|
            0 <= i < self.text().len() ==> if i == integral_len(self.start()) {
                #[trigger] self.text()[i] == '.'
            } else {
                is_digit(self.text()[i])
            }
        &&& count_nonzero(self.text()) == self.spent()
        &&& self.spent() <= self.text().len()
        &&& self.policy() matches EncodingPolicy::MaxNonZeros(k) ==> self.spent() <= k
    }

    /// A string in the making is made of allowed characters and holds at
    /// most one decimal point.
    pub proof fn lemma_grammar(&self)
        requires
            self.well_formed(),
        ensures
            all_allowed(self.text(), true),
            !has_two_points(self.text()),
    {
        let s = self.text();
        assert forall|i: int| 0 <= i < s.len() implies crate::validate::is_allowed(
            #[trigger] s[i],
            true,
        ) by {
            if i == integral_len(self.start()) {
                assert(s[i] == '.');
            } else {
                assert(is_digit(s[i]));
            }
        }
        if has_two_points(s) {
            let (i, j) = choose|i: int, j: int|
                0 <= i < j < s.len() && #[trigger] s[i] == '.' && #[trigger] s[j] == '.';
            assert(is_digit(s[i]) || is_digit(s[j]));
        }
    }

    /// Starts a string whose first digit has the weight `2^(exponent - 1)`.
    /// With an exponent of zero there is no integral digit, and the string
    /// starts with `0`.
    pub fn new(exponent: u32, policy: EncodingPolicy) -> (made: Self)
        ensures
            made.well_formed(),
            made.start() == exponent,
            made.exponent() == exponent,
            made.policy() == policy,
            made.spent() == 0,
            made.text() == if exponent == 0 {
                seq!['0']
            } else {
                Seq::<char>::empty()
            },
    {
        proof {
            reveal_strlit("0");
            reveal_strlit("");
            assert("0"@ =~= seq!['0']);
            assert(""@ =~= Seq::<char>::empty());
            lemma_value_push(Seq::<char>::empty(), '0');
            assert(Seq::<char>::empty().push('0') =~= seq!['0']);
        }
        let text = if exponent == 0 {
            String::from_str("0")
        } else {
            String::from_str("")
        };
        Recoder { text, start: exponent, exponent: exponent as i64, policy, spent: 0 }
    }

    /// Whether another digit is to be written.
    ///
    /// With a fixed number of places, digits are written down to the last
    /// place.  With a budget, digits are written while integral positions
    /// remain, and behind them while some budget is left and the residual is
    /// still `residual_live`: above the noise floor.
    pub fn more(&self, residual_live: bool) -> (r: bool)
        requires
            self.well_formed(),
        ensures
            r == match self.policy() {
                EncodingPolicy::FixedPlaces(n) => self.exponent() > -n,
                EncodingPolicy::MaxNonZeros(k) => self.exponent() > 0 || (self.spent() < k
                    && residual_live && self.exponent() > i64::MIN),
            },
            r ==> self.exponent() > i64::MIN,
    {
        match self.policy {
            EncodingPolicy::FixedPlaces(n) => self.exponent > -(n as i64),
            EncodingPolicy::MaxNonZeros(k) => self.exponent > 0 || (self.spent < k as u64
                && residual_live && self.exponent > i64::MIN),
        }
    }

    /// Writes the next digit, with the decimal point in front of it where it
    /// is the first fractional digit, and says what is to be done to the
    /// residual.
    ///
    /// While recoding, the digit follows from the comparison; a non-zero
    /// digit uses up one unit of the budget.  While flushing, the digit is
    /// `0` whatever the comparison says.
    pub fn push(&mut self, outcome: Comparison) -> (adjust: Adjust)
        requires
            old(self).well_formed(),
            old(self).exponent() > i64::MIN,
        ensures
            final(self).well_formed(),
            final(self).start() == old(self).start(),
            final(self).policy() == old(self).policy(),
            final(self).exponent() == old(self).exponent() - 1,
            final(self).text() == old(self).text() + (if old(self).exponent() == 0 {
                seq!['.']
            } else {
                Seq::<char>::empty()
            }) + seq![digit_for(old(self).phase(), outcome)],
            final(self).spent() == old(self).spent() + if digit_value(
                digit_for(old(self).phase(), outcome),
            ) != 0 {
                1nat
            } else {
                0nat
            },
            adjust == adjust_for(old(self).phase(), outcome, final(self).phase()),
    {
        let ghost before = self.text@;
        let ghost d = digit_for(self.phase(), outcome);
        proof {
            reveal_strlit(".");
            reveal_strlit("+");
            reveal_strlit("-");
            reveal_strlit("0");
            assert("."@ =~= seq!['.']);
            assert("+"@ =~= seq!['+']);
            assert("-"@ =~= seq!['-']);
            assert("0"@ =~= seq!['0']);
        }
        let flushing = match self.policy {
            EncodingPolicy::MaxNonZeros(k) => self.spent >= k as u64,
            EncodingPolicy::FixedPlaces(_) => false,
        };
        if self.exponent == 0 {
            self.text.append(".");
            proof {
                lemma_value_push(before, '.');
                assert(self.text@ =~= before.push('.'));
            }
        }
        let ghost middle = self.text@;
        let mut nonzero = false;
        if flushing {
            self.text.append("0");
        } else {
            match outcome {
                Comparison::Above => {
                    self.text.append("+");
                    nonzero = true;
                },
                Comparison::Below => {
                    self.text.append("-");
                    nonzero = true;
                },
                Comparison::Within => {
                    self.text.append("0");
                },
            }
        }
        proof {
            lemma_value_push(middle, d);
            assert(self.text@ =~= middle.push(d));
            assert(self.text@ =~= before + (if self.exponent == 0 {
                seq!['.']
            } else {
                Seq::<char>::empty()
            }) + seq![d]);
        }
        if nonzero {
            self.spent = self.spent + 1;
        }
        self.exponent = self.exponent - 1;
        proof {
            let s = self.text@;
            assert forall|i: int| 0 <= i < s.len() implies if i == integral_len(self.start()) {
                #[trigger] s[i] == '.'
            } else {
                is_digit(s[i])
            } by {
                if i < before.len() {
                    assert(s[i] == before[i]);
                }
            }
        }
        let spent_now = match self.policy {
            EncodingPolicy::MaxNonZeros(k) => self.spent >= k as u64,
            EncodingPolicy::FixedPlaces(_) => false,
        };
        if flushing {
            Adjust::Clear
        } else if !nonzero {
            Adjust::Keep
        } else if spent_now {
            Adjust::Clear
        } else {
            match outcome {
                Comparison::Above => Adjust::Subtract,
                _ => Adjust::Add,
            }
        }
    }

    /// The finished string.  Under a fixed number of places it ends with the
    /// decimal point where no fractional digit was written, so that the
    /// point is there even with zero places.
    pub fn finish(self) -> (r: String)
        requires
            self.well_formed(),
        ensures
            r@ == self.text() + if self.policy() is FixedPlaces && self.exponent() == 0 {
                seq!['.']
            } else {
                Seq::<char>::empty()
            },
            all_allowed(r@, true),
            !has_two_points(r@),
            self.policy() matches EncodingPolicy::MaxNonZeros(k) ==> count_nonzero(r@) <= k,
    {
        proof {
            self.lemma_grammar();
        }
        let ghost before = self.text@;
        let fixed = match self.policy {
            EncodingPolicy::FixedPlaces(_) => true,
            EncodingPolicy::MaxNonZeros(_) => false,
        };
        let mut text = self.text;
        if fixed && self.exponent == 0 {
            proof {
                reveal_strlit(".");
                assert("."@ =~= seq!['.']);
            }
            text.append(".");
            proof {
                lemma_value_push(before, '.');
                assert(text@ =~= before.push('.'));
                assert forall|i: int| 0 <= i < text@.len() implies crate::validate::is_allowed(
                    #[trigger] text@[i],
                    true,
                ) by {
                    if i < before.len() {
                        assert(text@[i] == before[i]);
                    }
                }
                if has_two_points(text@) {
                    let (i, j) = choose|i: int, j: int|
                        0 <= i < j < text@.len() && #[trigger] text@[i] == '.'
                            && #[trigger] text@[j] == '.';
                    assert(text@[i] == before[i]);
                    assert(is_digit(before[i]));
                }
            }
        } else {
            proof {
                assert(text@ + Seq::<char>::empty() =~= text@);
            }
        }
        text
    }
}

/// The number a signed digit stands for, or nothing for any other character.
pub fn digit_sign(c: char) -> (r: Option<i8>)
    ensures
        r == if is_digit(c) {
            Some(digit_value(c) as i8)
        } else {
            None
        },
{
    if c == '+' {
        Some(1)
    } else if c == '-' {
        Some(-1)
    } else if c == '0' {
        Some(0)
    } else {
        None
    }
}

} // verus!

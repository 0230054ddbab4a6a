//! A constant multiplier written out as a Verilog module: the product of the
//! input with a constant is the sum of shifted copies of the input, one for
//! each non-zero digit of the constant's signed-digit string.

use crate::csd::to_decimal_i;
use crate::model::{all_digits, count_nonzero, digit_value, fits_i32, is_digit, value_of};
use crate::model::lemma_value_push;
use crate::text::{byte_len, chars_of, int_text, nat_text, push_int, push_nat};
use vstd::prelude::*;

verus! {

/// The text that refuses a string with a character other than a digit.
pub open spec fn text_foreign() -> Seq<char> {
    "CSD string can only contain '+', '-', or '0'"@
}

/// The text that refuses a string of `len` digits where `m + 1` are due.
pub open spec fn text_length(len: nat, m: nat) -> Seq<char> {
    "CSD length "@ + nat_text(len) + " doesn't match M="@ + nat_text(m) + " (should be M+1)"@
}

/// The declaration of the input shifted left by `power`, for an input of
/// `n` bits and a constant whose top digit has weight `2^m`.
pub open spec fn shift_line(n: nat, m: nat, power: nat) -> Seq<char> {
    "    wire signed ["@ + nat_text((n + m - 1) as nat) + ":0] x_shift"@ + nat_text(power)
        + " = $signed({ {"@ + nat_text((m - power) as nat) + "{x["@ + nat_text((n - 1) as nat)
        + "]}}, x}) << "@ + nat_text(power) + ";\n"@
}

/// The declarations for the non-zero digits among the first `k` digits of
/// `csd`, in the order of the digits.
pub open spec fn shift_lines(csd: Seq<char>, n: nat, m: nat, k: nat) -> Seq<char>
    decreases k,
{
    if k == 0 {
        Seq::empty()
    } else if digit_value(csd[k - 1]) != 0 {
        shift_lines(csd, n, m, (k - 1) as nat) + shift_line(n, m, (m - (k - 1)) as nat)
    } else {
        shift_lines(csd, n, m, (k - 1) as nat)
    }
}

/// What stands in front of a term of the sum: the first term carries a minus
/// sign or nothing, a later one is joined by ` - ` where it is taken off and
/// by ` + ` where it is added.
pub open spec fn joiner(c: char, first: bool) -> Seq<char> {
    if first {
        if c == '-' {
            "-"@
        } else {
            ""@
        }
    } else {
        if c == '-' {
            " - "@
        } else {
            " + "@
        }
    }
}

/// One term of the sum: the joiner and the name of the shifted input.
pub open spec fn term(c: char, power: nat, first: bool) -> Seq<char> {
    joiner(c, first) + "x_shift"@ + nat_text(power)
}

/// The terms for the non-zero digits among the first `k` digits of `csd`.
pub open spec fn terms(csd: Seq<char>, m: nat, k: nat) -> Seq<char>
    decreases k,
{
    if k == 0 {
        Seq::empty()
    } else if digit_value(csd[k - 1]) != 0 {
        terms(csd, m, (k - 1) as nat) + term(
            csd[k - 1],
            (m - (k - 1)) as nat,
            count_nonzero(csd.take(k - 1)) == 0,
        )
    } else {
        terms(csd, m, (k - 1) as nat)
    }
}

/// The lines that declare the shifted inputs, under their heading; nothing
/// where the constant is zero.
pub open spec fn shifts_text(csd: Seq<char>, n: nat, m: nat) -> Seq<char> {
    if count_nonzero(csd) > 0 {
        "\n    // Signed shifted versions (Verilog handles sign extension)\n"@ + shift_lines(
            csd,
            n,
            m,
            csd.len(),
        )
    } else {
        Seq::empty()
    }
}

/// The line that assigns the result.
pub open spec fn assign_text(csd: Seq<char>, m: nat) -> Seq<char> {
    if count_nonzero(csd) > 0 {
        "    assign result = "@ + terms(csd, m, csd.len()) + ";\n"@
    } else {
        "    assign result = 0;\n"@
    }
}

/// The whole module for the digit string `csd`, an input of `n` bits and a
/// top weight of `2^m`.
pub open spec fn verilog_text(csd: Seq<char>, n: nat, m: nat) -> Seq<char> {
    "// CSD Multiplier for pattern: "@ + csd + " (value: "@ + int_text(value_of(csd)) + ")\n"@
        + "module csd_multiplier (\n    input signed ["@ + nat_text((n - 1) as nat)
        + ":0] x,      // Input value (signed)\n    output signed ["@ + nat_text(
        (n + m - 1) as nat,
    ) + ":0] result // Result (signed)\n);\n"@ + shifts_text(csd, n, m)
        + "\n    // CSD implementation with signed arithmetic\n"@ + assign_text(csd, m)
        + "endmodule\n"@
}

/// Appends the declaration of the input shifted left by `power`.
fn push_shift_line(out: &mut String, n: usize, m: usize, power: usize)
    requires
        n >= 1,
        n + m <= usize::MAX,
        power <= m,
    ensures
        final(out)@ == old(out)@ + shift_line(n as nat, m as nat, power as nat),
{
    let mut line = String::from_str("    wire signed [");
    push_nat(&mut line, (n + m - 1) as u64);
    line.append(":0] x_shift");
    push_nat(&mut line, power as u64);
    line.append(" = $signed({ {");
    push_nat(&mut line, (m - power) as u64);
    line.append("{x[");
    push_nat(&mut line, (n - 1) as u64);
    line.append("]}}, x}) << ");
    push_nat(&mut line, power as u64);
    line.append(";\n");
    out.append(line.as_str());
}

/// Appends the term of the sum for the non-zero digit `c` of weight
/// `2^power`.
fn push_term(out: &mut String, c: char, power: usize, first: bool)
    ensures
        final(out)@ == old(out)@ + term(c, power as nat, first),
{
    let mut text = String::from_str(
        if first {
            if c == '-' {
                "-"
            } else {
                ""
            }
        } else {
            if c == '-' {
                " - "
            } else {
                " + "
            }
        },
    );
    text.append("x_shift");
    push_nat(&mut text, power as u64);
    out.append(text.as_str());
}

/// A constant, given by its signed-digit string, for which a multiplier is
/// to be written.
pub struct CsdMultiplier {
    csd: String,
    n: usize,
    m: usize,
}

impl CsdMultiplier {
    /// The digit string of the constant.
    pub closed spec fn pattern(&self) -> Seq<char> {
        self.csd@
    }

    /// The width of the input in bits.
    pub closed spec fn input_bits(&self) -> nat {
        self.n as nat
    }

    /// The exponent of the weight of the first digit.
    pub closed spec fn top_power(&self) -> nat {
        self.m as nat
    }

    /// The string is made of signed digits, one for each weight from
    /// `2^top_power` down to one.
    pub open spec fn well_formed(&self) -> bool {
        &&& all_digits(self.pattern())
        &&& self.pattern().len() == self.top_power() + 1
    }

    /// A multiplier for the constant `csd`, for an input of `n` bits; `m` is
    /// the exponent of the weight of the first digit.
    ///
    /// A string with a character other than `+`, `-` and `0` is refused, and
    /// after that a string that does not have `m + 1` digits.
    pub fn new(csd: &str, n: usize, m: usize) -> (r: Result<Self, String>)
        ensures
            match r {
                Ok(made) => {
                    &&& made.well_formed()
                    &&& made.pattern() == csd@
                    &&& made.input_bits() == n
                    &&& made.top_power() == m
                },
                Err(text) => if !all_digits(csd@) {
                    text@ == text_foreign()
                } else {
                    csd@.len() != m + 1 && text@ == text_length(csd@.len(), m as nat)
                },
            },
    {
        let limit = byte_len(csd);
        let mut len: usize = 0;
        for c in it: csd.chars()
            invariant
                it.seq() == csd@,
                len == it.index(),
                csd@.len() <= limit,
                forall|i: int| 0 <= i < len ==> is_digit(#[trigger] csd@[i]),
        {
            if !(c == '+' || c == '-' || c == '0') {
                assert(!is_digit(csd@[len as int]));
                return Err(String::from_str("CSD string can only contain '+', '-', or '0'"));
            }
            len = len + 1;
        }
        if m == usize::MAX || len != m + 1 {
            let mut text = String::from_str("CSD length ");
            push_nat(&mut text, len as u64);
            text.append(" doesn't match M=");
            push_nat(&mut text, m as u64);
            text.append(" (should be M+1)");
            return Err(text);
        }
        Ok(CsdMultiplier { csd: String::from_str(csd), n, m })
    }

    /// The constant itself: the integer that the digit string denotes.
    pub fn decimal_value(&self) -> (r: i32)
        requires
            self.well_formed(),
            fits_i32(value_of(self.pattern())),
        ensures
            r == value_of(self.pattern()),
    {
        to_decimal_i(self.csd.as_str())
    }

    /// The Verilog module that multiplies a signed input by the constant.
    ///
    /// The module starts with a comment that shows the digit string and the
    /// constant.  It declares one shifted copy of the input for each non-zero
    /// digit, from the most significant digit down, and assigns their signed
    /// sum to the result: the copy of a `+` digit is added, that of a `-`
    /// digit is subtracted.  For the constant zero it assigns zero.
    pub fn generate_verilog(&self) -> (r: String)
        requires
            self.well_formed(),
            fits_i32(value_of(self.pattern())),
            self.input_bits() >= 1,
            self.input_bits() + self.top_power() <= usize::MAX,
        ensures
            r@ == verilog_text(self.pattern(), self.input_bits(), self.top_power()),
    {
        let n = self.n;
        let m = self.m;
        let digits = chars_of(self.csd.as_str());
        let value = self.decimal_value();
        let ghost csd = self.csd@;
        let mut lines = String::new();
        let mut sum = String::new();
        let mut seen: bool = false;
        let mut i: usize = 0;
        proof {
            assert(csd.take(0) =~= Seq::<char>::empty());
        }
        while i < digits.len()
            invariant
                i <= digits.len(),
                digits@ == csd,
                csd.len() == m + 1,
                n >= 1,
                n + m <= usize::MAX,
                lines@ == shift_lines(csd, n as nat, m as nat, i as nat),
                sum@ == terms(csd, m as nat, i as nat),
                seen <==> count_nonzero(csd.take(i as int)) > 0,
            decreases digits.len() - i,
        {
            let c = digits[i];
            proof {
                assert(csd.take(i + 1) =~= csd.take(i as int).push(c));
                lemma_value_push(csd.take(i as int), c);
            }
            if c == '+' || c == '-' {
                push_shift_line(&mut lines, n, m, m - i);
                push_term(&mut sum, c, m - i, !seen);
                seen = true;
            }
            i = i + 1;
        }
        proof {
            assert(csd.take(csd.len() as int) =~= csd);
        }
        let mut out = String::from_str("// CSD Multiplier for pattern: ");
        out.append(self.csd.as_str());
        out.append(" (value: ");
        push_int(&mut out, value);
        out.append(")\n");
        out.append("module csd_multiplier (\n    input signed [");
        push_nat(&mut out, (n - 1) as u64);
        out.append(":0] x,      // Input value (signed)\n    output signed [");
        push_nat(&mut out, (n + m - 1) as u64);
        out.append(":0] result // Result (signed)\n);\n");
        let ghost head = out@;
        if seen {
            let mut shifts = String::from_str(
                "\n    // Signed shifted versions (Verilog handles sign extension)\n",
            );
            shifts.append(lines.as_str());
            out.append(shifts.as_str());
        }
        proof {
            assert(out@ =~= head + shifts_text(csd, n as nat, m as nat));
        }
        out.append("\n    // CSD implementation with signed arithmetic\n");
        if seen {
            let mut assign = String::from_str("    assign result = ");
            assign.append(sum.as_str());
            assign.append(";\n");
            out.append(assign.as_str());
        } else {
            out.append("    assign result = 0;\n");
        }
        out.append("endmodule\n");
        out
    }
}

} // verus!

//! Transpose-form Verilog generation from the CSD strings of the filter
//! coefficients.
//!
//! A CSD string holds the digits `'+'`, `'-'`, `'0'` and a binary point
//! `'.'`. The points are dropped and every string is aligned to the right,
//! with leading zeros, on the length of the longest string; the digit at
//! position `i` of an aligned string then carries the power
//! `longest - 1 - i`, and each non-zero digit becomes one shifted copy
//! `x_shift{power}` of the filter input, added or subtracted by its sign.

use vstd::prelude::*;
use vstd::string::StringExecFns;
use vstd::string::StringSliceAdditionalSpecFns;
use vstd::utf8::encode_utf8;

use crate::decimal::{
    decimal, lemma_decimal_nonempty, lemma_unsigned_decimal_injective, push_signed, push_usize,
    unsigned_decimal,
};

verus! {

/// The byte of the digit `'+'`.
pub open spec fn plus_digit() -> u8 {
    43u8
}

/// The byte of the digit `'-'`.
pub open spec fn minus_digit() -> u8 {
    45u8
}

/// A digit that contributes a term to the expression.
pub open spec fn is_nonzero_digit(b: u8) -> bool {
    b == plus_digit() || b == minus_digit()
}

/// Some digit in `[start, end)` is non-zero.
pub open spec fn has_term(digits: Seq<u8>, start: int, end: int) -> bool {
    exists|j: int| start <= j < end && is_nonzero_digit(#[trigger] digits[j])
}

/// The text that introduces a term: the sign, preceded by a separator unless
/// it is the first term of the expression.
pub open spec fn term_intro(plus: bool, first: bool) -> Seq<char> {
    if plus {
        if first {
            "x_shift"@
        } else {
            " + x_shift"@
        }
    } else {
        if first {
            "-x_shift"@
        } else {
            " - x_shift"@
        }
    }
}

/// The sum of shifted inputs for the digits at positions `[start, end)`,
/// where the digit at position `i` carries the power `max_power - i`.
pub open spec fn range_expr(digits: Seq<u8>, start: int, end: int, max_power: int) -> Seq<char>
    decreases end - start,
{
    if end <= start {
        Seq::empty()
    } else {
        let k: int = end - 1;
        let prev = range_expr(digits, start, k, max_power);
        let first = !has_term(digits, start, k);
        if digits[k] == plus_digit() {
            prev + term_intro(true, first) + decimal(max_power - k)
        } else if digits[k] == minus_digit() {
            prev + term_intro(false, first) + decimal(max_power - k)
        } else {
            prev
        }
    }
}

/// The expression of a range is empty exactly when the range holds no
/// non-zero digit.
pub proof fn lemma_range_expr_empty(digits: Seq<u8>, start: int, end: int, max_power: int)
    ensures
        (range_expr(digits, start, end, max_power).len() == 0) <==> !has_term(
            digits,
            start,
            end,
        ),
    decreases end - start,
{
    if end > start {
        let k: int = end - 1;
        lemma_range_expr_empty(digits, start, k, max_power);
        lemma_decimal_nonempty(max_power - k);
        if is_nonzero_digit(digits[k]) {
            assert(has_term(digits, start, end));
        } else {
            assert forall|j: int| start <= j < end && is_nonzero_digit(#[trigger] digits[j]) implies
                has_term(digits, start, k) by {
                assert(j != k);
            }
        }
    }
}

/// Zero digits at the end of a range add nothing to its expression.
pub proof fn lemma_range_expr_zero_tail(
    digits: Seq<u8>,
    start: int,
    mid: int,
    end: int,
    max_power: int,
)
    requires
        start <= mid <= end,
        !has_term(digits, mid, end),
    ensures
        range_expr(digits, start, end, max_power) == range_expr(digits, start, mid, max_power),
    decreases end - mid,
{
    if end > mid {
        let k: int = end - 1;
        assert(!is_nonzero_digit(digits[k]));
        assert(!has_term(digits, mid, k)) by {
            if has_term(digits, mid, k) {
                let j: int = choose|j: int| mid <= j < k && is_nonzero_digit(#[trigger] digits[j]);
                assert(has_term(digits, mid, end));
            }
        }
        lemma_range_expr_zero_tail(digits, start, mid, k, max_power);
    }
}

/// Zero digits at the start of a range add nothing to its expression: the
/// first non-zero digit opens it wherever the range starts.
pub proof fn lemma_range_expr_zero_head(
    digits: Seq<u8>,
    start: int,
    mid: int,
    end: int,
    max_power: int,
)
    requires
        start <= mid <= end,
        !has_term(digits, start, mid),
    ensures
        range_expr(digits, start, end, max_power) == range_expr(digits, mid, end, max_power),
    decreases end - mid,
{
    if end == mid {
        lemma_range_expr_empty(digits, start, mid, max_power);
        assert(range_expr(digits, start, mid, max_power) =~= Seq::<char>::empty());
    } else {
        let k: int = end - 1;
        lemma_range_expr_zero_head(digits, start, mid, k, max_power);
        assert(has_term(digits, start, k) == has_term(digits, mid, k)) by {
            if has_term(digits, start, k) {
                let j: int = choose|j: int|
                    start <= j < k && is_nonzero_digit(#[trigger] digits[j]);
                assert(!(j < mid)) by {
                    if j < mid {
                        assert(has_term(digits, start, mid));
                    }
                }
            }
            if has_term(digits, mid, k) {
                let j: int = choose|j: int| mid <= j < k && is_nonzero_digit(#[trigger] digits[j]);
                assert(start <= j < k);
            }
        }
    }
}

/// A range whose only non-zero digit is at position `i` renders as that one
/// term: `x_shift` with the digit's sign (none for `'+'`) and the power
/// `max_power - i`.
pub proof fn lemma_range_expr_single_term(
    digits: Seq<u8>,
    start: int,
    end: int,
    max_power: int,
    i: int,
)
    requires
        start <= i < end,
        digits[i] == 43u8 || digits[i] == 45u8,
        forall|j: int| start <= j < end && j != i ==> digits[j] != 43u8 && digits[j] != 45u8,
    ensures
        range_expr(digits, start, end, max_power) == (if digits[i] == 43u8 {
            "x_shift"@
        } else {
            "-x_shift"@
        }) + decimal(max_power - i),
{
    assert(!has_term(digits, i + 1, end)) by {
        if has_term(digits, i + 1, end) {
            let j: int = choose|j: int|
                i + 1 <= j < end && is_nonzero_digit(#[trigger] digits[j]);
            assert(j != i);
        }
    }
    lemma_range_expr_zero_tail(digits, start, i + 1, end, max_power);
    assert(!has_term(digits, start, i)) by {
        if has_term(digits, start, i) {
            let j: int = choose|j: int| start <= j < i && is_nonzero_digit(#[trigger] digits[j]);
            assert(j != i);
        }
    }
    lemma_range_expr_empty(digits, start, i, max_power);
    assert(range_expr(digits, start, i, max_power) =~= Seq::<char>::empty());
    let intro: Seq<char> = if digits[i] == 43u8 {
        "x_shift"@
    } else {
        "-x_shift"@
    };
    assert(range_expr(digits, start, i + 1, max_power) =~= intro + decimal(max_power - i));
}

/// The expression of a range, written after another non-empty expression:
/// its leading sign becomes the separator `" - "`, or `" + "` is put before
/// it.
pub open spec fn continued(expr: Seq<char>) -> Seq<char> {
    if expr.len() > 0 && expr[0] == '-' {
        " - "@ + expr.drop_first()
    } else {
        " + "@ + expr
    }
}

/// A range split in two parts that both hold a non-zero digit renders as the
/// first part's expression followed by the second part's, continued.
pub proof fn lemma_range_expr_split(
    digits: Seq<u8>,
    start: int,
    mid: int,
    end: int,
    max_power: int,
)
    requires
        start <= mid <= end,
        has_term(digits, start, mid),
        has_term(digits, mid, end),
    ensures
        range_expr(digits, start, end, max_power) == range_expr(digits, start, mid, max_power)
            + continued(range_expr(digits, mid, end, max_power)),
    decreases end - mid,
{
    reveal_strlit("x_shift");
    reveal_strlit("-x_shift");
    reveal_strlit(" + x_shift");
    reveal_strlit(" - x_shift");
    reveal_strlit(" + ");
    reveal_strlit(" - ");
    let k: int = end - 1;
    let a = range_expr(digits, start, mid, max_power);
    assert(has_term(digits, start, k)) by {
        let j: int = choose|j: int| start <= j < mid && is_nonzero_digit(#[trigger] digits[j]);
    }
    if !is_nonzero_digit(digits[k]) {
        assert(has_term(digits, mid, k)) by {
            let j: int = choose|j: int| mid <= j < end && is_nonzero_digit(#[trigger] digits[j]);
            assert(j != k);
        }
        lemma_range_expr_split(digits, start, mid, k, max_power);
    } else {
        let d = decimal(max_power - k);
        let plus = digits[k] == plus_digit();
        if has_term(digits, mid, k) {
            lemma_range_expr_split(digits, start, mid, k, max_power);
            let b = range_expr(digits, mid, k, max_power);
            lemma_range_expr_empty(digits, mid, k, max_power);
            assert(b.len() > 0);
            let t = term_intro(plus, false);
            assert(range_expr(digits, mid, end, max_power) == b + t + d);
            assert((b + t + d)[0] == b[0]);
            if b[0] == '-' {
                assert((b + t + d).drop_first() =~= b.drop_first() + t + d);
                assert(a + (" - "@ + b.drop_first()) + t + d =~= a + (" - "@ + (b
                    + t + d).drop_first()));
            } else {
                assert(a + (" + "@ + b) + t + d =~= a + (" + "@ + (b + t + d)));
            }
        } else {
            lemma_range_expr_empty(digits, mid, k, max_power);
            assert(range_expr(digits, mid, k, max_power) =~= Seq::<char>::empty());
            assert(range_expr(digits, mid, end, max_power) =~= term_intro(plus, true) + d);
            lemma_range_expr_zero_tail(digits, start, mid, k, max_power);
            if plus {
                assert(a + " + x_shift"@ + d =~= a + (" + "@ + ("x_shift"@ + d)));
            } else {
                assert(("-x_shift"@ + d)[0] == '-');
                assert(("-x_shift"@ + d).drop_first() =~= "x_shift"@ + d);
                assert(a + " - x_shift"@ + d =~= a + (" - "@ + ("x_shift"@ + d)));
            }
        }
    }
}

/// The number of positions of `[start, start + length)` kept when the range
/// is clipped by a string of `len` bytes, as `length.min(len)`.
pub open spec fn clipped_len(length: int, len: int) -> int {
    if length < len {
        length
    } else {
        len
    }
}

/// The end of the range `[start, start + length)` clipped by a string of
/// `len` bytes, as `start + length.min(len)`.
pub open spec fn clipped_end(start: int, length: int, len: int) -> int {
    start + clipped_len(length, len)
}

/// Clipping keeps the requested length when the string reaches that far and
/// otherwise stops at the end of the string: the kept length is the smaller
/// of the two, and the clipped range ends that far after its start. In
/// particular, asking from position 0 for at least the whole string covers
/// the whole string.
pub proof fn lemma_clipped_range(start: int, length: int, len: int)
    requires
        0 <= length,
        0 <= len,
    ensures
        clipped_len(length, len) <= length,
        clipped_len(length, len) <= len,
        clipped_len(length, len) == length || clipped_len(length, len) == len,
        clipped_end(start, length, len) == start + clipped_len(length, len),
        length >= len ==> clipped_end(0, length, len) == len,
{
}

/// The digits of `csd` (as bytes) at positions `[start, start + length)`,
/// the length clipped to that of the string, rendered as a sum of shifted
/// inputs. A range clipped to no position gives the empty string wherever it
/// starts.
pub fn build_range_expr(csd: &str, start: usize, length: usize, max_power: i32) -> (expr: String)
    requires
        clipped_len(length as int, csd.spec_bytes().len() as int) == 0 || clipped_end(
            start as int,
            length as int,
            csd.spec_bytes().len() as int,
        ) <= csd.spec_bytes().len(),
        powers_fit(
            start as int,
            clipped_end(start as int, length as int, csd.spec_bytes().len() as int),
            max_power as int,
        ),
    ensures
        expr@ == range_expr(
            csd.spec_bytes(),
            start as int,
            clipped_end(start as int, length as int, csd.spec_bytes().len() as int),
            max_power as int,
        ),
{
    let digits = csd.as_bytes();
    let len: usize = digits.len();
    let kept: usize = if length < len {
        length
    } else {
        len
    };
    if kept == 0 {
        return String::new();
    }
    let end: usize = start + kept;
    range_expr_of_digits(digits, start, end, max_power)
}

/// Every position `i` in `[start, end)` is an `i32`, and so is
/// `max_power - i`.
pub open spec fn powers_fit(start: int, end: int, max_power: int) -> bool {
    start < end ==> {
        &&& end - 1 <= i32::MAX
        &&& max_power - (end - 1) >= i32::MIN
        &&& max_power - start <= i32::MAX
    }
}

fn range_expr_of_digits(digits: &[u8], start: usize, end: usize, max_power: i32) -> (expr: String)
    requires
        start <= end <= digits@.len(),
        powers_fit(start as int, end as int, max_power as int),
    ensures
        expr@ == range_expr(digits@, start as int, end as int, max_power as int),
{
    let mut expr = String::new();
    let mut first = true;
    let mut i = start;
    while i < end
        invariant
            start <= i <= end <= digits@.len(),
            powers_fit(start as int, end as int, max_power as int),
            expr@ == range_expr(digits@, start as int, i as int, max_power as int),
            first == !has_term(digits@, start as int, i as int),
        decreases end - i,
    {
        let power: i32 = max_power - i as i32;
        let b: u8 = digits[i];
        if b == 43u8 {
            if first {
                expr.append("x_shift");
            } else {
                expr.append(" + x_shift");
            }
            push_signed(&mut expr, power as i64);
            first = false;
            assert(has_term(digits@, start as int, i + 1)) by {
                assert(is_nonzero_digit(digits@[i as int]));
            }
        } else if b == 45u8 {
            if first {
                expr.append("-x_shift");
            } else {
                expr.append(" - x_shift");
            }
            push_signed(&mut expr, power as i64);
            first = false;
            assert(has_term(digits@, start as int, i + 1)) by {
                assert(is_nonzero_digit(digits@[i as int]));
            }
        } else {
            assert(has_term(digits@, start as int, i + 1) == has_term(
                digits@,
                start as int,
                i as int,
            )) by {
                if has_term(digits@, start as int, i + 1) {
                    let j: int = choose|j: int|
                        start <= j < i + 1 && is_nonzero_digit(#[trigger] digits@[j]);
                    assert(j != i);
                }
            }
        }
        i = i + 1;
    }
    expr
}

} // verus!

verus! {

/// The byte of the binary point `'.'`.
pub open spec fn point_digit() -> u8 {
    46u8
}

/// The byte of the digit `'0'`.
pub open spec fn zero_digit() -> u8 {
    48u8
}

/// The bytes of each CSD string.
pub open spec fn csd_rows(csd_strings: Seq<String>) -> Seq<Seq<u8>> {
    csd_strings.map_values(|s: String| encode_utf8(s@))
}

/// The greatest length among `rows` (zero when there is none).
pub open spec fn longest(rows: Seq<Seq<u8>>) -> nat
    decreases rows.len(),
{
    if rows.len() == 0 {
        0
    } else {
        let m: nat = longest(rows.drop_last());
        if rows.last().len() > m {
            rows.last().len()
        } else {
            m
        }
    }
}

/// The digits with every binary point removed.
pub open spec fn without_points(digits: Seq<u8>) -> Seq<u8> {
    digits.filter(|b: u8| b != point_digit())
}

/// `count` zero digits.
pub open spec fn zero_digits(count: nat) -> Seq<u8> {
    Seq::new(count, |_i: int| zero_digit())
}

/// The digits, preceded by zeros up to `width` digits in all.
pub open spec fn zero_padded(digits: Seq<u8>, width: nat) -> Seq<u8> {
    if digits.len() < width {
        zero_digits((width - digits.len()) as nat) + digits
    } else {
        digits
    }
}

/// The aligned digits of the coefficient that feeds register `idx`: the
/// coefficients enter the transpose form in reverse order.
pub open spec fn tap_digits(rows: Seq<Seq<u8>>, idx: int) -> Seq<u8> {
    zero_padded(without_points(rows[rows.len() - 1 - idx]), longest(rows))
}

/// The sum of shifted inputs of the coefficient that feeds register `idx`;
/// the leading digit weighs `2^(longest(rows) - 1)`.
pub open spec fn tap_expr(rows: Seq<Seq<u8>>, idx: int) -> Seq<char> {
    let d = tap_digits(rows, idx);
    range_expr(d, 0, d.len() as int, longest(rows) - 1)
}

/// The concatenation of `line(0)`, ..., `line(count - 1)`.
pub open spec fn lines(count: nat, line: spec_fn(int) -> Seq<char>) -> Seq<char>
    decreases count,
{
    if count == 0 {
        Seq::empty()
    } else {
        lines((count - 1) as nat, line) + line(count - 1)
    }
}

/// The declaration of pipeline register `idx`.
pub open spec fn reg_line(output_width: int) -> spec_fn(int) -> Seq<char> {
    |idx: int|
        "\n    reg signed ["@ + decimal(output_width - 1) + ":0] sum"@ + decimal(idx) + ";"@
}

/// The reset of pipeline register `idx`.
pub open spec fn reset_line() -> spec_fn(int) -> Seq<char> {
    |idx: int| "\n            sum"@ + decimal(idx) + " <= 0;"@
}

/// The update of pipeline register `idx`: the previous register (none for
/// the first) plus the shifted inputs of its coefficient.
pub open spec fn update_line(rows: Seq<Seq<u8>>) -> spec_fn(int) -> Seq<char> {
    |idx: int|
        {
            let expr = tap_expr(rows, idx);
            if idx == 0 {
                if expr.len() == 0 {
                    "\n            sum0 <= 0;"@
                } else {
                    "\n            sum0 <= "@ + expr + ";"@
                }
            } else if expr.len() == 0 {
                "\n            sum"@ + decimal(idx) + " <= sum"@ + decimal(idx - 1) + ";"@
            } else {
                "\n            sum"@ + decimal(idx) + " <= sum"@ + decimal(idx - 1) + " + "@ + expr
                    + ";"@
            }
        }
}

/// The module header, the ports and the comment that opens the register
/// declarations.
pub open spec fn verilog_header(input_width: int, output_width: int, module_name: Seq<char>) -> Seq<
    char,
> {
    "\nmodule "@ + module_name + " ("@ + "\n    input clk,"@ + "\n    input rst_n,"@
        + "\n    input signed ["@ + decimal(input_width - 1) + ":0] x,"@
        + "\n    output signed ["@ + decimal(output_width - 1) + ":0] y"@ + "\n);"@
        + "\n\n    // Transpose-form pipeline registers"@
}

/// The transpose-form module for the coefficients whose CSD strings (as
/// bytes) are `rows`: the output is `input_width + longest(rows) - 1` bits
/// wide, and register `idx` accumulates the coefficient `rows.len() - 1 - idx`.
pub open spec fn transpose_verilog(rows: Seq<Seq<u8>>, input_width: int, module_name: Seq<char>) -> Seq<
    char,
> {
    let n: nat = rows.len();
    let output_width: int = input_width + longest(rows) - 1;
    verilog_header(input_width, output_width, module_name) + lines(n, reg_line(output_width))
        + "\n\n    always @(posedge clk or negedge rst_n) begin"@ + "\n        if (!rst_n) begin"@
        + lines(n, reset_line()) + "\n        end else begin"@ + lines(n, update_line(rows))
        + "\n        end"@ + "\n    end"@ + "\n\n    assign y = sum"@ + decimal(n - 1) + ";"@
        + "\nendmodule\n"@
}

/// No row is longer than `longest(rows)`.
pub proof fn lemma_longest_bounds(rows: Seq<Seq<u8>>, i: int)
    requires
        0 <= i < rows.len(),
    ensures
        rows[i].len() <= longest(rows),
    decreases rows.len(),
{
    if i < rows.len() - 1 {
        lemma_longest_bounds(rows.drop_last(), i);
    }
}

/// The digits of one CSD string, points removed and zero-padded in front to
/// `width` digits.
fn aligned_digits(digits: &[u8], width: usize) -> (raw: Vec<u8>)
    requires
        digits@.len() <= width,
    ensures
        raw@ == zero_padded(without_points(digits@), width as nat),
        raw@.len() == width,
{
    let mut kept: Vec<u8> = Vec::new();
    let mut i: usize = 0;
    while i < digits.len()
        invariant
            i <= digits@.len(),
            kept@ == without_points(digits@.take(i as int)),
        decreases digits@.len() - i,
    {
        proof {
            reveal(Seq::filter);
            assert(digits@.take(i + 1).drop_last() =~= digits@.take(i as int));
        }
        if digits[i] != 46u8 {
            kept.push(digits[i]);
        }
        i = i + 1;
    }
    proof {
        assert(digits@.take(digits@.len() as int) =~= digits@);
        digits@.lemma_filter_len(|b: u8| b != point_digit());
    }
    let mut raw: Vec<u8> = Vec::new();
    let pad: usize = width - kept.len();
    let mut k: usize = 0;
    while k < pad
        invariant
            k <= pad,
            raw@ =~= zero_digits(k as nat),
        decreases pad - k,
    {
        raw.push(48u8);
        k = k + 1;
    }
    let mut j: usize = 0;
    while j < kept.len()
        invariant
            j <= kept@.len(),
            raw@ =~= zero_digits(pad as nat) + kept@.take(j as int),
        decreases kept@.len() - j,
    {
        raw.push(kept[j]);
        j = j + 1;
    }
    proof {
        assert(kept@.take(kept@.len() as int) =~= kept@);
        if !(kept@.len() < width) {
            assert(raw@ =~= kept@);
        }
    }
    raw
}

/// A transpose-form FIR module named `module_name` whose taps are the CSD
/// strings `csd_strings`, for an input of `input_width` bits.
pub fn generate_transpose_verilog(csd_strings: &[String], input_width: i32, module_name: &str) -> (v:
    String)
    requires
        csd_strings@.len() >= 1,
        longest(csd_rows(csd_strings@)) <= i32::MAX,
        input_width - 1 >= i32::MIN,
        i32::MIN + 1 <= input_width + longest(csd_rows(csd_strings@)) - 1 <= i32::MAX,
    ensures
        v@ == transpose_verilog(csd_rows(csd_strings@), input_width as int, module_name@),
{
    let n: usize = csd_strings.len();
    let ghost rows = csd_rows(csd_strings@);
    let mut max_len: usize = 0;
    let mut i: usize = 0;
    while i < n
        invariant
            i <= n == csd_strings@.len(),
            rows == csd_rows(csd_strings@),
            max_len == longest(rows.take(i as int)),
        decreases n - i,
    {
        let l: usize = csd_strings[i].as_str().as_bytes().len();
        proof {
            assert(rows.take(i + 1).drop_last() =~= rows.take(i as int));
        }
        if l > max_len {
            max_len = l;
        }
        i = i + 1;
    }
    proof {
        assert(rows.take(n as int) =~= rows);
    }
    let max_power: i32 = max_len as i32 - 1;
    let output_width: i32 = input_width + max_power;

    let mut v = String::from_str("\nmodule ");
    v.append(module_name);
    v.append(" (");
    v.append("\n    input clk,");
    v.append("\n    input rst_n,");
    v.append("\n    input signed [");
    push_signed(&mut v, (input_width - 1) as i64);
    v.append(":0] x,");
    v.append("\n    output signed [");
    push_signed(&mut v, (output_width - 1) as i64);
    v.append(":0] y");
    v.append("\n);");
    v.append("\n\n    // Transpose-form pipeline registers");

    let mut regs = String::new();
    let mut idx: usize = 0;
    while idx < n
        invariant
            idx <= n,
            output_width == input_width + longest(rows) - 1,
            i32::MIN + 1 <= output_width,
            regs@ == lines(idx as nat, reg_line(output_width as int)),
        decreases n - idx,
    {
        let mut line = String::from_str("\n    reg signed [");
        push_signed(&mut line, (output_width - 1) as i64);
        line.append(":0] sum");
        push_usize(&mut line, idx);
        line.append(";");
        regs.append(line.as_str());
        idx = idx + 1;
    }
    v.append(regs.as_str());

    v.append("\n\n    always @(posedge clk or negedge rst_n) begin");
    v.append("\n        if (!rst_n) begin");
    let mut resets = String::new();
    let mut idx: usize = 0;
    while idx < n
        invariant
            idx <= n,
            resets@ == lines(idx as nat, reset_line()),
        decreases n - idx,
    {
        let mut line = String::from_str("\n            sum");
        push_usize(&mut line, idx);
        line.append(" <= 0;");
        resets.append(line.as_str());
        idx = idx + 1;
    }
    v.append(resets.as_str());
    v.append("\n        end else begin");

    let mut updates = String::new();
    let mut idx: usize = 0;
    while idx < n
        invariant
            idx <= n == csd_strings@.len(),
            rows == csd_rows(csd_strings@),
            max_len == longest(rows),
            max_len <= i32::MAX,
            max_power == max_len - 1,
            updates@ == lines(idx as nat, update_line(rows)),
        decreases n - idx,
    {
        let coeff_idx: usize = n - 1 - idx;
        let digits = csd_strings[coeff_idx].as_str().as_bytes();
        proof {
            lemma_longest_bounds(rows, coeff_idx as int);
        }
        let raw = aligned_digits(digits, max_len);
        let expr = range_expr_of_digits(raw.as_slice(), 0, raw.len(), max_power);
        let line = if idx == 0 {
            if expr.as_str().is_empty() {
                String::from_str("\n            sum0 <= 0;")
            } else {
                let mut line = String::from_str("\n            sum0 <= ");
                line.append(expr.as_str());
                line.append(";");
                line
            }
        } else if expr.as_str().is_empty() {
            let mut line = String::from_str("\n            sum");
            push_usize(&mut line, idx);
            line.append(" <= sum");
            push_usize(&mut line, idx - 1);
            line.append(";");
            line
        } else {
            let mut line = String::from_str("\n            sum");
            push_usize(&mut line, idx);
            line.append(" <= sum");
            push_usize(&mut line, idx - 1);
            line.append(" + ");
            line.append(expr.as_str());
            line.append(";");
            line
        };
        updates.append(line.as_str());
        idx = idx + 1;
    }
    v.append(updates.as_str());

    v.append("\n        end");
    v.append("\n    end");
    v.append("\n\n    assign y = sum");
    push_usize(&mut v, n - 1);
    v.append(";");
    v.append("\nendmodule\n");
    v
}

} // verus!

verus! {

/// `t` occurs in `s` as a run of consecutive characters.
pub open spec fn has_infix(s: Seq<char>, t: Seq<char>) -> bool {
    exists|o: int| 0 <= o && o + t.len() <= s.len() && #[trigger] s.subrange(o, o + t.len()) == t
}

proof fn lemma_infix_of_self(s: Seq<char>)
    ensures
        has_infix(s, s),
{
    assert(s.subrange(0, 0 + s.len() as int) =~= s);
}

proof fn lemma_infix_left(a: Seq<char>, b: Seq<char>, t: Seq<char>)
    requires
        has_infix(a, t),
    ensures
        has_infix(a + b, t),
{
    let o: int = choose|o: int|
        0 <= o && o + t.len() <= a.len() && #[trigger] a.subrange(o, o + t.len()) == t;
    assert((a + b).subrange(o, o + t.len()) =~= a.subrange(o, o + t.len()));
}

proof fn lemma_infix_right(a: Seq<char>, b: Seq<char>, t: Seq<char>)
    requires
        has_infix(b, t),
    ensures
        has_infix(a + b, t),
{
    let o: int = choose|o: int|
        0 <= o && o + t.len() <= b.len() && #[trigger] b.subrange(o, o + t.len()) == t;
    assert((a + b).subrange(a.len() + o, a.len() + o + t.len()) =~= b.subrange(o, o + t.len()));
}

proof fn lemma_infix_trans(s: Seq<char>, t: Seq<char>, u: Seq<char>)
    requires
        has_infix(s, t),
        has_infix(t, u),
    ensures
        has_infix(s, u),
{
    let o: int = choose|o: int|
        0 <= o && o + t.len() <= s.len() && #[trigger] s.subrange(o, o + t.len()) == t;
    let p: int = choose|p: int|
        0 <= p && p + u.len() <= t.len() && #[trigger] t.subrange(p, p + u.len()) == u;
    assert(s.subrange(o + p, o + p + u.len()) =~= t.subrange(p, p + u.len()));
}

proof fn lemma_lines_infix(count: nat, line: spec_fn(int) -> Seq<char>, i: int)
    requires
        0 <= i < count,
    ensures
        has_infix(lines(count, line), line(i)),
    decreases count,
{
    let prev = lines((count - 1) as nat, line);
    if i == count - 1 {
        lemma_infix_of_self(line(i));
        lemma_infix_right(prev, line(i), line(i));
    } else {
        lemma_lines_infix((count - 1) as nat, line, i);
        lemma_infix_left(prev, line(count - 1), line(i));
    }
}

/// Every register `sum{i}` of the module, `i < n` for `n` coefficients, is
/// declared, `input_width + longest - 1` bits wide.
pub proof fn lemma_declares_every_register(
    rows: Seq<Seq<u8>>,
    input_width: int,
    module_name: Seq<char>,
    i: int,
)
    requires
        0 <= i < rows.len(),
    ensures
        has_infix(
            transpose_verilog(rows, input_width, module_name),
            "\n    reg signed ["@ + decimal(input_width + longest(rows) - 2) + ":0] sum"@ + decimal(i)
                + ";"@,
        ),
{
    let n: nat = rows.len();
    let ow: int = input_width + longest(rows) - 1;
    let head = verilog_header(input_width, ow, module_name);
    let regs = lines(n, reg_line(ow));
    lemma_lines_infix(n, reg_line(ow), i);
    lemma_infix_right(head, regs, reg_line(ow)(i));
    let whole = transpose_verilog(rows, input_width, module_name);
    let tail = whole.subrange((head + regs).len() as int, whole.len() as int);
    assert(whole =~= (head + regs) + tail);
    lemma_infix_left(head + regs, tail, reg_line(ow)(i));
}

/// The declarations of two different registers differ: the `n` declared
/// names are pairwise distinct.
pub proof fn lemma_register_names_distinct(width: int, i: int, j: int)
    requires
        0 <= i,
        0 <= j,
        i != j,
    ensures
        "\n    reg signed ["@ + decimal(width) + ":0] sum"@ + decimal(i) + ";"@
            != "\n    reg signed ["@ + decimal(width) + ":0] sum"@ + decimal(j) + ";"@,
{
    let p = "\n    reg signed ["@ + decimal(width) + ":0] sum"@;
    let di = decimal(i);
    let dj = decimal(j);
    lemma_unsigned_decimal_injective(i as nat, j as nat);
    if p + di + ";"@ == p + dj + ";"@ {
        reveal_strlit(";");
        let s = p + di + ";"@;
        assert(s.subrange(p.len() as int, s.len() - 1) =~= di);
        assert((p + dj + ";"@).subrange(p.len() as int, s.len() - 1) =~= dj);
    }
}

/// Every register `sum{i}`, `i < n`, is cleared on reset.
pub proof fn lemma_resets_every_register(
    rows: Seq<Seq<u8>>,
    input_width: int,
    module_name: Seq<char>,
    i: int,
)
    requires
        0 <= i < rows.len(),
    ensures
        has_infix(
            transpose_verilog(rows, input_width, module_name),
            "\n            sum"@ + decimal(i) + " <= 0;"@,
        ),
{
    let n: nat = rows.len();
    let ow: int = input_width + longest(rows) - 1;
    let before = verilog_header(input_width, ow, module_name) + lines(n, reg_line(ow))
        + "\n\n    always @(posedge clk or negedge rst_n) begin"@ + "\n        if (!rst_n) begin"@;
    let resets = lines(n, reset_line());
    lemma_lines_infix(n, reset_line(), i);
    lemma_infix_right(before, resets, reset_line()(i));
    let whole = transpose_verilog(rows, input_width, module_name);
    let tail = whole.subrange((before + resets).len() as int, whole.len() as int);
    assert(whole =~= (before + resets) + tail);
    lemma_infix_left(before + resets, tail, reset_line()(i));
}

/// In the transpose form each register after the first is fed by the one
/// before it: the update of `sum{i}` reads `sum{i - 1}`.
pub proof fn lemma_registers_chained(
    rows: Seq<Seq<u8>>,
    input_width: int,
    module_name: Seq<char>,
    i: int,
)
    requires
        0 < i < rows.len(),
    ensures
        has_infix(
            transpose_verilog(rows, input_width, module_name),
            "\n            sum"@ + decimal(i) + " <= sum"@ + decimal(i - 1),
        ),
{
    let n: nat = rows.len();
    let ow: int = input_width + longest(rows) - 1;
    let before = verilog_header(input_width, ow, module_name) + lines(n, reg_line(ow))
        + "\n\n    always @(posedge clk or negedge rst_n) begin"@ + "\n        if (!rst_n) begin"@
        + lines(n, reset_line()) + "\n        end else begin"@;
    let updates = lines(n, update_line(rows));
    let line = update_line(rows)(i);
    let head = "\n            sum"@ + decimal(i) + " <= sum"@ + decimal(i - 1);
    lemma_infix_of_self(head);
    lemma_infix_left(head, line.subrange(head.len() as int, line.len() as int), head);
    assert(line =~= head + line.subrange(head.len() as int, line.len() as int));
    lemma_lines_infix(n, update_line(rows), i);
    lemma_infix_trans(updates, line, head);
    lemma_infix_right(before, updates, head);
    let whole = transpose_verilog(rows, input_width, module_name);
    let tail = whole.subrange((before + updates).len() as int, whole.len() as int);
    assert(whole =~= (before + updates) + tail);
    lemma_infix_left(before + updates, tail, head);
}

/// The output is the last register, `sum{n - 1}`, and the module ends there.
pub proof fn lemma_output_is_last_register(
    rows: Seq<Seq<u8>>,
    input_width: int,
    module_name: Seq<char>,
)
    requires
        rows.len() > 0,
    ensures
        ("\n\n    assign y = sum"@ + decimal(rows.len() - 1) + ";"@ + "\nendmodule\n"@).is_suffix_of(
            transpose_verilog(rows, input_width, module_name),
        ),
{
    let whole = transpose_verilog(rows, input_width, module_name);
    let end = "\n\n    assign y = sum"@ + decimal(rows.len() - 1) + ";"@ + "\nendmodule\n"@;
    assert(whole.subrange(whole.len() - end.len(), whole.len() as int) =~= end);
}

/// Removing points: nothing is removed from an empty string, and a byte
/// added at the end is kept unless it is a point.
pub proof fn lemma_without_points_step(digits: Seq<u8>, b: u8)
    ensures
        without_points(Seq::<u8>::empty()) == Seq::<u8>::empty(),
        without_points(digits.push(b)) == if b == 46u8 {
            without_points(digits)
        } else {
            without_points(digits).push(b)
        },
{
    reveal(Seq::filter);
    assert(digits.push(b).drop_last() =~= digits);
    assert(Seq::<u8>::empty().filter(|c: u8| c != point_digit()) =~= Seq::<u8>::empty());
}

/// The digits of the coefficient that feeds register `idx` are the digits of
/// coefficient `n - 1 - idx`, points removed, right-aligned on
/// `longest(rows)` digits with zeros before them.
pub proof fn lemma_tap_digits_aligned(rows: Seq<Seq<u8>>, idx: int)
    requires
        0 <= idx < rows.len(),
    ensures
        ({
            let c = without_points(rows[rows.len() - 1 - idx]);
            let t = tap_digits(rows, idx);
            &&& c.len() <= longest(rows)
            &&& t.len() == longest(rows)
            &&& forall|j: int| 0 <= j < c.len() ==> t[longest(rows) - c.len() + j] == c[j]
            &&& forall|j: int| 0 <= j < longest(rows) - c.len() ==> t[j] == 48u8
        }),
{
    let row = rows[rows.len() - 1 - idx];
    lemma_longest_bounds(rows, rows.len() - 1 - idx);
    row.lemma_filter_len(|b: u8| b != point_digit());
}

} // verus!

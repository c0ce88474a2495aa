use vstd::prelude::*;

use crate::text::{
    char_views, chars_of, copy_range, lemma_normalized_lines_shape, normalized_lines, same_chars,
    split_lines, string_of, text_lines,
};

verus! {

/// What one line position of the comparison found.
pub struct LineVerdict {
    /// The position, counted from 1.
    pub line: usize,
    /// The expected line there, empty where the expected output has no such line.
    pub expected: String,
    /// The produced line there, empty where the produced output has no such line.
    pub actual: String,
    /// Whether the two lines are equal.
    pub matched: bool,
}

pub enum CheckResult {
    Correct,
    /// The verdicts of the line positions, in order: all of them, or only the mismatches.
    Incorrect { report: Vec<LineVerdict> },
}

/// How two outputs are compared.
#[derive(PartialEq, Eq, Structural, Debug, Clone, Copy)]
pub struct CompareOptions {
    /// Strip white space from both ends of every line.
    pub trim_lines: bool,
    /// Leave out lines that are empty (after trimming, where lines are trimmed).
    pub drop_blank_lines: bool,
    /// Report the positions whose lines match too, not only the mismatches.
    pub report_matches: bool,
}

/// A verdict as plain values: position, expected line, produced line, whether they match.
pub type VerdictView = (int, Seq<char>, Seq<char>, bool);

pub open spec fn verdict_view(v: LineVerdict) -> VerdictView {
    (v.line as int, v.expected@, v.actual@, v.matched)
}

pub open spec fn verdict_views(r: Seq<LineVerdict>) -> Seq<VerdictView> {
    Seq::new(r.len(), |i: int| verdict_view(r[i]))
}

/// The lines of `s` as `o` shapes them.
pub open spec fn compared_lines(s: Seq<char>, o: CompareOptions) -> Seq<Seq<char>> {
    text_lines(s, o.trim_lines, o.drop_blank_lines)
}

/// The line at position `i` (from 0), or an empty line past the end.
pub open spec fn line_or_empty(ls: Seq<Seq<char>>, i: int) -> Seq<char> {
    if 0 <= i < ls.len() {
        ls[i]
    } else {
        Seq::empty()
    }
}

pub open spec fn max_len(a: Seq<Seq<char>>, b: Seq<Seq<char>>) -> nat {
    if a.len() >= b.len() {
        a.len()
    } else {
        b.len()
    }
}

/// The verdict of every line position of lines `e` against lines `a`, an empty line standing
/// in where one side has run out.
pub open spec fn all_verdicts(e: Seq<Seq<char>>, a: Seq<Seq<char>>) -> Seq<VerdictView> {
    Seq::new(
        max_len(e, a),
        |i: int|
            (
                i + 1,
                line_or_empty(e, i),
                line_or_empty(a, i),
                line_or_empty(e, i) == line_or_empty(a, i),
            ),
    )
}

/// The verdicts of `vs` that are mismatches, in order.
pub open spec fn mismatches_only(vs: Seq<VerdictView>) -> Seq<VerdictView>
    decreases vs.len(),
{
    if vs.len() == 0 {
        vs
    } else if vs.last().3 {
        mismatches_only(vs.drop_last())
    } else {
        mismatches_only(vs.drop_last()).push(vs.last())
    }
}

/// The verdicts that a report under `o` lists.
pub open spec fn reported(vs: Seq<VerdictView>, o: CompareOptions) -> Seq<VerdictView> {
    if o.report_matches {
        vs
    } else {
        mismatches_only(vs)
    }
}

/// Two outputs agree under `o` when every line position holds equal lines.
pub open spec fn outputs_agree(expected: Seq<char>, actual: Seq<char>, o: CompareOptions) -> bool {
    forall|k: int|
        0 <= k < all_verdicts(compared_lines(expected, o), compared_lines(actual, o)).len()
            ==> (#[trigger] all_verdicts(compared_lines(expected, o), compared_lines(actual, o))[k]).3
}

/// `r` is the outcome of comparing `actual` against `expected` under `o`.
pub open spec fn check_outcome(
    expected: Seq<char>,
    actual: Seq<char>,
    o: CompareOptions,
    r: CheckResult,
) -> bool {
    match r {
        CheckResult::Correct => outputs_agree(expected, actual, o),
        CheckResult::Incorrect { report } => {
            &&& !outputs_agree(expected, actual, o)
            &&& verdict_views(report@) == reported(
                all_verdicts(compared_lines(expected, o), compared_lines(actual, o)),
                o,
            )
        },
    }
}

/// The comparison that the checker uses: lines trimmed, blank lines left out, only the
/// mismatches reported.
pub open spec fn default_options() -> CompareOptions {
    CompareOptions { trim_lines: true, drop_blank_lines: true, report_matches: false }
}

fn line_copy(ls: &Vec<Vec<char>>, i: usize) -> (r: Vec<char>)
    ensures
        r@ == line_or_empty(char_views(ls@), i as int),
{
    if i < ls.len() {
        copy_range(&ls[i], 0, ls[i].len())
    } else {
        Vec::new()
    }
}

/// Compares `actual` with `expected` line by line, as `options` says. Where one text has
/// fewer lines, an empty line stands in, so a difference in line count shows as mismatches
/// at the missing positions.
pub fn compare_lines(expected: &str, actual: &str, options: CompareOptions) -> (r: CheckResult)
    ensures
        check_outcome(expected@, actual@, options, r),
{
    let e_chars = chars_of(expected);
    let a_chars = chars_of(actual);
    let e = split_lines(&e_chars, options.trim_lines, options.drop_blank_lines);
    let a = split_lines(&a_chars, options.trim_lines, options.drop_blank_lines);
    let ghost ev = char_views(e@);
    let ghost av = char_views(a@);
    let ghost all = all_verdicts(ev, av);
    let n: usize = if e.len() >= a.len() {
        e.len()
    } else {
        a.len()
    };
    let mut report: Vec<LineVerdict> = Vec::new();
    let mut correct = true;
    let mut i: usize = 0;
    while i < n
        invariant
            ev == char_views(e@),
            av == char_views(a@),
            ev == compared_lines(expected@, options),
            av == compared_lines(actual@, options),
            all == all_verdicts(ev, av),
            n == all.len(),
            i <= n,
            verdict_views(report@) == reported(all.take(i as int), options),
            correct == (forall|k: int| 0 <= k < i ==> (#[trigger] all[k]).3),
        decreases n - i,
    {
        let x = line_copy(&e, i);
        let y = line_copy(&a, i);
        let m = same_chars(&x, &y);
        assert(all.take(i + 1).drop_last() =~= all.take(i as int));
        assert(all.take(i + 1).last() == all[i as int]);
        if options.report_matches || !m {
            let v = LineVerdict {
                line: i + 1,
                expected: string_of(x.as_slice()),
                actual: string_of(y.as_slice()),
                matched: m,
            };
            let ghost before = report@;
            report.push(v);
            assert(verdict_view(v) == all[i as int]);
            assert(verdict_views(report@) =~= verdict_views(before).push(all[i as int]));
        }
        proof {
            if correct && !m {
                assert(!all[i as int].3);
            }
            if !correct && m {
                let k = choose|k: int| 0 <= k < i && !(#[trigger] all[k]).3;
                assert(0 <= k < i + 1 && !all[k].3);
            }
        }
        if !m {
            correct = false;
        }
        i = i + 1;
    }
    assert(all.take(i as int) =~= all);
    if correct {
        CheckResult::Correct
    } else {
        CheckResult::Incorrect { report }
    }
}

/// Compares `actual_answer` with `correct_answer` the checker's way: lines trimmed, blank
/// lines left out, only the mismatches reported.
pub fn check_lines(correct_answer: &str, actual_answer: &str) -> (r: CheckResult)
    ensures
        check_outcome(correct_answer@, actual_answer@, default_options(), r),
{
    compare_lines(
        correct_answer,
        actual_answer,
        CompareOptions { trim_lines: true, drop_blank_lines: true, report_matches: false },
    )
}

/// With lines trimmed and blank lines left out, two outputs agree exactly when they have the
/// same lines.
pub proof fn lemma_agree_iff_same_lines(expected: Seq<char>, actual: Seq<char>)
    ensures
        outputs_agree(expected, actual, default_options()) <==> normalized_lines(expected)
            == normalized_lines(actual),
{
    let e = normalized_lines(expected);
    let a = normalized_lines(actual);
    let all = all_verdicts(e, a);
    lemma_normalized_lines_shape(expected);
    lemma_normalized_lines_shape(actual);
    if outputs_agree(expected, actual, default_options()) {
        if e.len() < a.len() {
            assert(all[e.len() as int].3);
            assert(a[e.len() as int].len() > 0);
        }
        if a.len() < e.len() {
            assert(all[a.len() as int].3);
            assert(e[a.len() as int].len() > 0);
        }
        assert forall|k: int| 0 <= k < e.len() implies e[k] == a[k] by {
            assert(all[k].3);
        }
        assert(e =~= a);
    }
    if e == a {
        assert forall|k: int| 0 <= k < all.len() implies (#[trigger] all[k]).3 by {}
    }
}

/// Any output agrees with itself, whatever the options.
pub proof fn lemma_compare_reflexive(x: Seq<char>, o: CompareOptions)
    ensures
        outputs_agree(x, x, o),
{
}

/// The number of decimal digits of `n`; none for zero.
pub open spec fn decimal_width(n: nat) -> nat
    decreases n,
{
    if n == 0 {
        0
    } else {
        1 + decimal_width(n / 10)
    }
}

/// The decimal digits, in order of value.
pub open spec fn digit_chars() -> Seq<char> {
    seq!['0', '1', '2', '3', '4', '5', '6', '7', '8', '9']
}

/// The decimal numeral of `n`, without leading zeros.
pub open spec fn decimal(n: nat) -> Seq<char>
    decreases n,
{
    if n < 10 {
        seq![digit_chars()[n as int]]
    } else {
        decimal(n / 10).push(digit_chars()[(n % 10) as int])
    }
}

/// `k` spaces.
pub open spec fn spaces(k: nat) -> Seq<char> {
    Seq::new(k, |i: int| ' ')
}

/// The numeral of `line` with spaces before it, so that it fills `width` columns where it
/// is shorter.
pub open spec fn padded_label(line: nat, width: nat) -> Seq<char> {
    let d = decimal(line);
    if d.len() < width {
        spaces((width - d.len()) as nat) + d
    } else {
        d
    }
}

proof fn lemma_decimal_width_bound(n: nat)
    ensures
        decimal_width(n) <= n,
    decreases n,
{
    if n > 0 {
        lemma_decimal_width_bound(n / 10);
    }
}

/// The number of decimal digits of `n`, zero for zero; the width of the widest line number
/// of a diff with `n` lines.
pub fn get_integer_length(n: usize) -> (r: usize)
    ensures
        r == decimal_width(n as nat),
{
    let mut m: usize = n;
    let mut result: usize = 0;
    proof {
        lemma_decimal_width_bound(n as nat);
    }
    while m > 0
        invariant
            result + decimal_width(m as nat) == decimal_width(n as nat),
            decimal_width(n as nat) <= n,
        decreases m,
    {
        m = m / 10;
        result = result + 1;
    }
    result
}

fn decimal_chars(n: usize) -> (r: Vec<char>)
    ensures
        r@ == decimal(n as nat),
    decreases n,
{
    let ds = vec!['0', '1', '2', '3', '4', '5', '6', '7', '8', '9'];
    assert(ds@ =~= digit_chars());
    if n < 10 {
        let r = vec![ds[n]];
        assert(r@ =~= decimal(n as nat));
        r
    } else {
        let mut r = decimal_chars(n / 10);
        r.push(ds[n % 10]);
        r
    }
}

/// The label of line `line` in a diff whose line numbers take `width` columns: the number,
/// aligned to the right.
pub fn line_label(line: usize, width: usize) -> (r: String)
    ensures
        r@ == padded_label(line as nat, width as nat),
{
    let d = decimal_chars(line);
    let mut out: Vec<char> = Vec::new();
    if d.len() < width {
        let k = width - d.len();
        let mut i: usize = 0;
        while i < k
            invariant
                i <= k,
                out@ == spaces(i as nat),
            decreases k - i,
        {
            out.push(' ');
            i = i + 1;
            assert(out@ =~= spaces(i as nat));
        }
    }
    let mut j: usize = 0;
    let ghost pad = out@;
    while j < d.len()
        invariant
            j <= d@.len(),
            out@ == pad + d@.take(j as int),
        decreases d.len() - j,
    {
        out.push(d[j]);
        j = j + 1;
        assert(out@ =~= pad + d@.take(j as int));
    }
    assert(d@.take(j as int) =~= d@);
    assert(out@ =~= padded_label(line as nat, width as nat));
    string_of(out.as_slice())
}

} // verus!

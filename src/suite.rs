use vstd::prelude::*;

use crate::text::{
    char_views, chars_of, copy_range, is_space, is_trimmed, lemma_trimmed_fixed, string_of, trim,
    trim_bounds, trim_end, trim_start,
};

verus! {

/// One test: the text handed to the candidate, and the answer expected from it.
pub struct Test {
    pub input: String,
    pub answer: String,
}

impl View for Test {
    type V = (Seq<char>, Seq<char>);

    open spec fn view(&self) -> (Seq<char>, Seq<char>) {
        (self.input@, self.answer@)
    }
}

/// Why a suite text could not be read.
#[derive(PartialEq, Eq, Structural, Debug, Clone, Copy)]
pub enum SuiteError {
    /// A record does not begin with the input header.
    MissingInputHeader,
    /// A record holds no answer header.
    MissingAnswerHeader,
}

/// The marker that opens each record.
pub open spec fn test_marker() -> Seq<char> {
    seq!['[', 't', 'e', 's', 't', ']', '\n']
}

/// The header that begins a record's body.
pub open spec fn input_marker() -> Seq<char> {
    seq!['[', 'i', 'n', 'p', 'u', 't', ']', '\n']
}

/// The header that separates input from answer.
pub open spec fn answer_marker() -> Seq<char> {
    seq!['[', 'a', 'n', 's', 'w', 'e', 'r', ']', '\n']
}

/// `m` stands in `s` at position `i`.
pub open spec fn occurs_at(s: Seq<char>, m: Seq<char>, i: int) -> bool {
    0 <= i && i + m.len() <= s.len() && s.subrange(i, i + m.len()) == m
}

/// The first position at or after `i` where `m` stands in `s`.
pub open spec fn find_from(s: Seq<char>, m: Seq<char>, i: int) -> Option<int>
    decreases s.len() - i,
{
    if m.len() == 0 || i < 0 || i + m.len() > s.len() {
        None
    } else if occurs_at(s, m, i) {
        Some(i)
    } else {
        find_from(s, m, i + 1)
    }
}

/// The pieces of `s[start..]` between the occurrences of `m` found scanning from `i`,
/// each occurrence taken whole before the scan goes on after it.
pub open spec fn pieces_from(s: Seq<char>, m: Seq<char>, start: int, i: int) -> Seq<Seq<char>>
    decreases s.len() - i,
{
    if m.len() == 0 || i < 0 || i + m.len() > s.len() {
        seq![s.subrange(start, s.len() as int)]
    } else if occurs_at(s, m, i) {
        seq![s.subrange(start, i)] + pieces_from(s, m, i + m.len(), i + m.len())
    } else {
        pieces_from(s, m, start, i + 1)
    }
}

/// `s` cut at each occurrence of the non-empty marker `m`, left to right.
pub open spec fn split_at_marker(s: Seq<char>, m: Seq<char>) -> Seq<Seq<char>> {
    pieces_from(s, m, 0, 0)
}

/// What one record of a suite holds: its input and answer, trimmed.
pub open spec fn parse_record(r: Seq<char>) -> Result<(Seq<char>, Seq<char>), SuiteError> {
    let im = input_marker();
    if r.len() < im.len() || r.take(im.len() as int) != im {
        Err(SuiteError::MissingInputHeader)
    } else {
        let body = r.skip(im.len() as int);
        match find_from(body, answer_marker(), 0) {
            None => Err(SuiteError::MissingAnswerHeader),
            Some(k) => Ok(
                (trim(body.take(k)), trim(body.skip(k + answer_marker().len()))),
            ),
        }
    }
}

/// The tests of the records `rs`, in order, skipping empty records; the first record that
/// cannot be read decides the error.
pub open spec fn parse_records(rs: Seq<Seq<char>>) -> Result<
    Seq<(Seq<char>, Seq<char>)>,
    SuiteError,
>
    decreases rs.len(),
{
    if rs.len() == 0 {
        Ok(seq![])
    } else {
        match parse_records(rs.drop_last()) {
            Err(e) => Err(e),
            Ok(ts) => if rs.last().len() == 0 {
                Ok(ts)
            } else {
                match parse_record(rs.last()) {
                    Err(e) => Err(e),
                    Ok(t) => Ok(ts.push(t)),
                }
            },
        }
    }
}

/// The tests that a suite text describes.
pub open spec fn parse_suite(src: Seq<char>) -> Result<Seq<(Seq<char>, Seq<char>)>, SuiteError> {
    parse_records(split_at_marker(src, test_marker()))
}

/// `s` with a newline after it, unless it already ends in one.
pub open spec fn with_newline(s: Seq<char>) -> Seq<char> {
    if s.len() > 0 && s.last() == '\n' {
        s
    } else {
        s.push('\n')
    }
}

/// The suite text of one test.
pub open spec fn serialized(input: Seq<char>, answer: Seq<char>) -> Seq<char> {
    test_marker() + input_marker() + with_newline(input) + answer_marker() + with_newline(answer)
}

fn test_marker_chars() -> (r: Vec<char>)
    ensures
        r@ == test_marker(),
{
    let r = vec!['[', 't', 'e', 's', 't', ']', '\n'];
    assert(r@ =~= test_marker());
    r
}

fn input_marker_chars() -> (r: Vec<char>)
    ensures
        r@ == input_marker(),
{
    let r = vec!['[', 'i', 'n', 'p', 'u', 't', ']', '\n'];
    assert(r@ =~= input_marker());
    r
}

fn answer_marker_chars() -> (r: Vec<char>)
    ensures
        r@ == answer_marker(),
{
    let r = vec!['[', 'a', 'n', 's', 'w', 'e', 'r', ']', '\n'];
    assert(r@ =~= answer_marker());
    r
}

/// Whether `m` stands in `s` at position `i`.
fn marker_at(s: &Vec<char>, m: &Vec<char>, i: usize) -> (r: bool)
    ensures
        r == occurs_at(s@, m@, i as int),
{
    if i > s.len() || m.len() > s.len() - i {
        return false;
    }
    let mut k: usize = 0;
    while k < m.len()
        invariant
            i + m@.len() <= s@.len() <= usize::MAX,
            k <= m@.len(),
            forall|j: int| 0 <= j < k ==> s@[i + j] == m@[j],
        decreases m.len() - k,
    {
        if s[i + k] != m[k] {
            assert(s@.subrange(i as int, i + m@.len())[k as int] != m@[k as int]);
            return false;
        }
        k = k + 1;
    }
    assert(s@.subrange(i as int, i + m@.len()) =~= m@);
    true
}

/// The first position at or after `from` where `m` stands in `s`.
fn find_marker(s: &Vec<char>, m: &Vec<char>, from: usize) -> (r: Option<usize>)
    requires
        m@.len() > 0,
    ensures
        match r {
            None => find_from(s@, m@, from as int) is None,
            Some(k) => find_from(s@, m@, from as int) == Some(k as int),
        },
{
    let mut i: usize = from;
    while i <= s.len() && m.len() <= s.len() - i
        invariant
            from <= i,
            m@.len() > 0,
            find_from(s@, m@, from as int) == find_from(s@, m@, i as int),
        decreases s.len() + 1 - i,
    {
        if marker_at(s, m, i) {
            return Some(i);
        }
        i = i + 1;
    }
    None
}

/// `s` cut at each occurrence of the non-empty marker `m`.
fn split_marker(s: &Vec<char>, m: &Vec<char>) -> (r: Vec<Vec<char>>)
    requires
        m@.len() > 0,
    ensures
        char_views(r@) == split_at_marker(s@, m@),
{
    let mut done: Vec<Vec<char>> = Vec::new();
    let mut start: usize = 0;
    let mut i: usize = 0;
    while i <= s.len() && m.len() <= s.len() - i
        invariant
            m@.len() > 0,
            start <= i <= s@.len(),
            char_views(done@) + pieces_from(s@, m@, start as int, i as int) == split_at_marker(
                s@,
                m@,
            ),
        decreases s.len() + 1 - i,
    {
        if marker_at(s, m, i) {
            let piece = copy_range(s, start, i);
            let ghost before = char_views(done@);
            done.push(piece);
            assert(char_views(done@) =~= before.push(s@.subrange(start as int, i as int)));
            let ghost rest = pieces_from(s@, m@, (i + m.len()) as int, (i + m.len()) as int);
            assert(before + (seq![s@.subrange(start as int, i as int)] + rest) =~= char_views(
                done@,
            ) + rest);
            i = i + m.len();
            start = i;
        } else {
            i = i + 1;
        }
    }
    let piece = copy_range(s, start, s.len());
    let ghost before = char_views(done@);
    done.push(piece);
    assert(char_views(done@) =~= before + pieces_from(s@, m@, start as int, i as int));
    done
}

/// Reads one record: the input header, the input, the answer header and the answer. Input
/// and answer are trimmed.
fn parse_record_chars(r: &Vec<char>) -> (res: Result<Test, SuiteError>)
    ensures
        match res {
            Ok(t) => parse_record(r@) == Ok::<(Seq<char>, Seq<char>), SuiteError>(t@),
            Err(e) => parse_record(r@) == Err::<(Seq<char>, Seq<char>), SuiteError>(e),
        },
{
    let im = input_marker_chars();
    let am = answer_marker_chars();
    if !marker_at(r, &im, 0) {
        assert(r@.len() < im@.len() || r@.take(im@.len() as int) != im@) by {
            if r@.len() >= im@.len() {
                assert(r@.take(im@.len() as int) =~= r@.subrange(0, im@.len() as int));
            }
        }
        return Err(SuiteError::MissingInputHeader);
    }
    assert(r@.take(im@.len() as int) =~= r@.subrange(0, im@.len() as int));
    let body = copy_range(r, im.len(), r.len());
    assert(body@ =~= r@.skip(im@.len() as int));
    match find_marker(&body, &am, 0) {
        None => Err(SuiteError::MissingAnswerHeader),
        Some(k) => {
            proof {
                lemma_find_from_bounds(body@, am@, 0, k as int);
            }
            let (a, b) = trim_bounds(&body, 0, k);
            let (c, d) = trim_bounds(&body, k + am.len(), body.len());
            assert(body@.subrange(0, k as int) =~= body@.take(k as int));
            assert(body@.subrange(k + am@.len(), body@.len() as int) =~= body@.skip(
                k + am@.len(),
            ));
            let input = string_of(copy_range(&body, a, b).as_slice());
            let answer = string_of(copy_range(&body, c, d).as_slice());
            Ok(Test { input, answer })
        },
    }
}

proof fn lemma_find_from_bounds(s: Seq<char>, m: Seq<char>, i: int, k: int)
    requires
        find_from(s, m, i) == Some(k),
    ensures
        i <= k,
        occurs_at(s, m, k),
    decreases s.len() - i,
{
    if !(m.len() == 0 || i < 0 || i + m.len() > s.len()) && !occurs_at(s, m, i) {
        lemma_find_from_bounds(s, m, i + 1, k);
    }
}

/// The views of a sequence of tests.
pub open spec fn test_views(v: Seq<Test>) -> Seq<(Seq<char>, Seq<char>)> {
    Seq::new(v.len(), |i: int| v[i]@)
}

impl Test {
    pub fn new(input: String, answer: String) -> (r: Test)
        ensures
            r.input == input,
            r.answer == answer,
    {
        Test { input, answer }
    }

    /// The suite text of this test: the record marker, the input header, the input, the
    /// answer header and the answer, with a newline after each block that lacks one.
    pub fn serialize(&self) -> (r: String)
        ensures
            r@ == serialized(self.input@, self.answer@),
    {
        let mut r = String::new();
        r.append("[test]\n");
        r.append("[input]\n");
        r.append(self.input.as_str());
        if !ends_with_newline(&self.input) {
            r.append("\n");
        }
        r.append("[answer]\n");
        r.append(self.answer.as_str());
        if !ends_with_newline(&self.answer) {
            r.append("\n");
        }
        proof {
            reveal_strlit("[test]\n");
            reveal_strlit("[input]\n");
            reveal_strlit("[answer]\n");
            reveal_strlit("\n");
            assert("[test]\n"@ =~= test_marker());
            assert("[input]\n"@ =~= input_marker());
            assert("[answer]\n"@ =~= answer_marker());
        }
        assert(r@ =~= serialized(self.input@, self.answer@));
        r
    }
}

fn ends_with_newline(s: &String) -> (r: bool)
    ensures
        r == (s@.len() > 0 && s@.last() == '\n'),
{
    let cs = chars_of(s.as_str());
    cs.len() > 0 && cs[cs.len() - 1] == '\n'
}

/// Reads one record (the text between two record markers).
pub fn parse_test(s: &str) -> (res: Result<Test, SuiteError>)
    ensures
        match res {
            Ok(t) => parse_record(s@) == Ok::<(Seq<char>, Seq<char>), SuiteError>(t@),
            Err(e) => parse_record(s@) == Err::<(Seq<char>, Seq<char>), SuiteError>(e),
        },
{
    let cs = chars_of(s);
    parse_record_chars(&cs)
}

/// Reads a suite: the records between the record markers, in order, skipping empty ones.
/// Fails with the error of the first record that cannot be read.
pub fn parse_tests(source: &str) -> (res: Result<Vec<Test>, SuiteError>)
    ensures
        match res {
            Ok(ts) => parse_suite(source@) == Ok::<Seq<(Seq<char>, Seq<char>)>, SuiteError>(
                test_views(ts@),
            ),
            Err(e) => parse_suite(source@) == Err::<Seq<(Seq<char>, Seq<char>)>, SuiteError>(e),
        },
{
    let cs = chars_of(source);
    let tm = test_marker_chars();
    let records = split_marker(&cs, &tm);
    let ghost rs = char_views(records@);
    let mut tests: Vec<Test> = Vec::new();
    let mut i: usize = 0;
    assert(rs.take(0) =~= Seq::<Seq<char>>::empty());
    assert(test_views(tests@) =~= Seq::<(Seq<char>, Seq<char>)>::empty());
    while i < records.len()
        invariant
            rs == char_views(records@),
            rs == split_at_marker(source@, test_marker()),
            i <= records@.len(),
            parse_records(rs.take(i as int)) == Ok::<Seq<(Seq<char>, Seq<char>)>, SuiteError>(
                test_views(tests@),
            ),
        decreases records.len() - i,
    {
        assert(rs.take(i + 1).drop_last() =~= rs.take(i as int));
        assert(rs.take(i + 1).last() == records@[i as int]@);
        if records[i].len() > 0 {
            match parse_record_chars(&records[i]) {
                Ok(t) => {
                    let ghost before = tests@;
                    tests.push(t);
                    assert(test_views(tests@) =~= test_views(before).push(t@));
                },
                Err(e) => {
                    proof {
                        assert(parse_records(rs.take(i + 1)) == Err::<
                            Seq<(Seq<char>, Seq<char>)>,
                            SuiteError,
                        >(e));
                        lemma_records_error_prefix(rs, i + 1, e);
                    }
                    return Err(e);
                },
            }
        }
        i = i + 1;
    }
    assert(rs.take(i as int) =~= rs);
    Ok(tests)
}

/// An error among the first `i` records is the error of all of them.
proof fn lemma_records_error_prefix(rs: Seq<Seq<char>>, i: int, e: SuiteError)
    requires
        0 <= i <= rs.len(),
        parse_records(rs.take(i)) == Err::<Seq<(Seq<char>, Seq<char>)>, SuiteError>(e),
    ensures
        parse_records(rs) == Err::<Seq<(Seq<char>, Seq<char>)>, SuiteError>(e),
    decreases rs.len(),
{
    if i == rs.len() {
        assert(rs.take(i) =~= rs);
    } else {
        assert(rs.drop_last().take(i) =~= rs.take(i));
        lemma_records_error_prefix(rs.drop_last(), i, e);
    }
}

/// `w` stands somewhere in `s`.
pub open spec fn contains(s: Seq<char>, w: Seq<char>) -> bool {
    exists|j: int| occurs_at(s, w, j)
}

/// The record marker without its newline.
pub open spec fn test_word() -> Seq<char> {
    test_marker().drop_last()
}

/// The answer header without its newline.
pub open spec fn answer_word() -> Seq<char> {
    answer_marker().drop_last()
}

/// A test written to a suite text reads back as that same test, provided its input and
/// answer are already trimmed and not empty, neither holds the record marker's bracketed
/// word, and the input does not hold the answer header's.
pub proof fn lemma_round_trip(t: Test)
    requires
        trim(t.input@).len() > 0,
        trim(t.answer@).len() > 0,
        is_trimmed(t.input@),
        is_trimmed(t.answer@),
        !contains(t.input@, test_word()),
        !contains(t.answer@, test_word()),
        !contains(t.input@, answer_word()),
    ensures
        parse_suite(serialized(t.input@, t.answer@)) == Ok::<
            Seq<(Seq<char>, Seq<char>)>,
            SuiteError,
        >(seq![t@]),
{
    let i = t.input@;
    let a = t.answer@;
    lemma_trimmed_fixed(i);
    lemma_trimmed_fixed(a);
    let e = Seq::<char>::empty();
    let body = input_marker() + with_newline(i) + answer_marker() + with_newline(a);
    lemma_serialized_records(i, a);
    lemma_serialized_body(i, a);
    let recs = seq![e, body];
    assert(recs.drop_last() =~= seq![e]);
    assert(seq![e].drop_last() =~= Seq::<Seq<char>>::empty());
    assert(parse_records(Seq::<Seq<char>>::empty()) == Ok::<
        Seq<(Seq<char>, Seq<char>)>,
        SuiteError,
    >(seq![]));
    assert(seq![e].last().len() == 0);
    assert(parse_records(seq![e]) == Ok::<Seq<(Seq<char>, Seq<char>)>, SuiteError>(seq![]));
    assert(seq![(i, a)] =~= Seq::<(Seq<char>, Seq<char>)>::empty().push((i, a)));
}

/// The suite text of one test splits into an empty piece and the record's body.
proof fn lemma_serialized_records(i: Seq<char>, a: Seq<char>)
    requires
        is_trimmed(i),
        is_trimmed(a),
        i.len() > 0,
        a.len() > 0,
        !contains(i, test_word()),
        !contains(a, test_word()),
    ensures
        split_at_marker(serialized(i, a), test_marker()) == seq![
            Seq::<char>::empty(),
            input_marker() + with_newline(i) + answer_marker() + with_newline(a),
        ],
{
    let nl = seq!['\n'];
    let iw = input_marker().drop_last();
    let aw = answer_word();
    let tw = test_word();
    let tm = test_marker();
    assert(tm =~= tw.push('\n'));
    assert(is_space('\n'));
    assert(with_newline(i) == i.push('\n'));
    assert(with_newline(a) == a.push('\n'));
    let src = serialized(i, a);
    let body = input_marker() + with_newline(i) + answer_marker() + with_newline(a);
    assert(src =~= tm + body);
    lemma_word_free_of_test(iw);
    lemma_word_free_of_test(aw);
    let e = Seq::<char>::empty();
    lemma_compose_free(a, e, tw);
    lemma_compose_free(aw, a + (nl + e), tw);
    lemma_compose_free(i, aw + (nl + (a + (nl + e))), tw);
    lemma_compose_free(iw, i + (nl + (aw + (nl + (a + (nl + e))))), tw);
    assert(body =~= iw + (nl + (i + (nl + (aw + (nl + (a + (nl + e))))))));
    assert(occurs_at(src, tm, 0)) by {
        assert(src.subrange(0, tm.len() as int) =~= tm);
    }
    assert forall|j: int| j >= tm.len() implies !occurs_at(src, tm, j) by {
        lemma_shift(tm, body, tm, j - tm.len());
    }
    lemma_pieces_without_marker(src, tm, tm.len() as int, tm.len() as int);
    assert(src.subrange(tm.len() as int, src.len() as int) =~= body);
    assert(src.subrange(0, 0) =~= e);
    assert(pieces_from(src, tm, 0, 0) == seq![src.subrange(0, 0)] + pieces_from(
        src,
        tm,
        tm.len() as int,
        tm.len() as int,
    ));
    assert(seq![e] + seq![body] =~= seq![e, body]);
}

/// The body of a serialized record reads as its input and answer.
proof fn lemma_serialized_body(i: Seq<char>, a: Seq<char>)
    requires
        is_trimmed(i),
        is_trimmed(a),
        i.len() > 0,
        a.len() > 0,
        !contains(i, answer_word()),
    ensures
        parse_record(input_marker() + with_newline(i) + answer_marker() + with_newline(a))
            == Ok::<(Seq<char>, Seq<char>), SuiteError>((i, a)),
{
    let nl = seq!['\n'];
    let aw = answer_word();
    assert(answer_marker() =~= aw.push('\n'));
    assert(is_space('\n'));
    assert(with_newline(i) == i.push('\n'));
    assert(with_newline(a) == a.push('\n'));
    let body = input_marker() + with_newline(i) + answer_marker() + with_newline(a);
    let rest = with_newline(i) + answer_marker() + with_newline(a);
    assert(body =~= input_marker() + rest);
    lemma_no_straddle_upto(i, nl + (answer_marker() + with_newline(a)), aw);
    assert(rest =~= i + (nl + (answer_marker() + with_newline(a))));
    let k: int = i.len() as int + 1;
    let am_len: int = answer_marker().len() as int;
    assert(occurs_at(rest, answer_marker(), k)) by {
        assert(rest.subrange(k, k + am_len) =~= answer_marker());
    }
    lemma_find_first(rest, answer_marker(), 0, k);
    assert(body.take(input_marker().len() as int) =~= input_marker());
    assert(body.skip(input_marker().len() as int) =~= rest);
    assert(rest.take(k) =~= i.push('\n'));
    assert(rest.skip(k + am_len) =~= a.push('\n'));
    lemma_trim_newline(i);
    lemma_trim_newline(a);
}

/// A trimmed, non-empty text with a newline after it trims back to itself.
proof fn lemma_trim_newline(s: Seq<char>)
    requires
        is_trimmed(s),
        s.len() > 0,
    ensures
        trim(s.push('\n')) == s,
{
    let p = s.push('\n');
    assert(is_space('\n'));
    assert(p[0] == s[0]);
    assert(trim_start(p) == p);
    assert(p.drop_last() =~= s);
    assert(trim_end(p) == trim_end(s));
    assert(trim_end(s) == s);
}

/// Neither header word holds the record marker's word.
proof fn lemma_word_free_of_test(x: Seq<char>)
    requires
        x == input_marker().drop_last() || x == answer_word(),
    ensures
        !contains(x, test_word()),
{
    let w = test_word();
    assert forall|j: int| !occurs_at(x, w, j) by {
        if occurs_at(x, w, j) {
            assert(x.subrange(j, j + w.len())[0] == w[0]);
            assert(x.subrange(j, j + w.len())[1] == w[1]);
        }
    }
}

/// Moving past a prefix moves every occurrence by its length.
proof fn lemma_shift(p: Seq<char>, q: Seq<char>, m: Seq<char>, j: int)
    requires
        j >= 0,
    ensures
        occurs_at(p + q, m, p.len() + j) == occurs_at(q, m, j),
{
    if j + m.len() <= q.len() {
        assert((p + q).subrange(p.len() + j, p.len() + j + m.len()) =~= q.subrange(
            j,
            j + m.len(),
        ));
    }
}

/// A word followed by a newline cannot start inside a text free of the word, where that text
/// is followed by a newline.
proof fn lemma_no_straddle_upto(x: Seq<char>, y: Seq<char>, w: Seq<char>)
    requires
        !contains(x, w),
        w.len() > 0,
        forall|k: int| 0 <= k < w.len() ==> w[k] != '\n',
        y.len() > 0,
        y[0] == '\n',
    ensures
        forall|j: int| j <= x.len() ==> !occurs_at(x + y, w.push('\n'), j),
{
    let s = x + y;
    let m = w.push('\n');
    assert forall|j: int| j <= x.len() implies !occurs_at(s, m, j) by {
        if occurs_at(s, m, j) {
            if j + w.len() <= x.len() {
                assert forall|k: int| 0 <= k < w.len() implies x.subrange(j, j + w.len())[k]
                    == w[k] by {
                    assert(s.subrange(j, j + m.len())[k] == m[k]);
                }
                assert(x.subrange(j, j + w.len()) =~= w);
                assert(occurs_at(x, w, j));
            } else {
                let d = x.len() - j;
                assert(s.subrange(j, j + m.len())[d] == m[d]);
                assert(s[x.len() as int] == '\n');
            }
        }
    }
}

/// A text free of `w`, a newline, and a text free of `w` followed by a newline, holds no
/// `w` followed by a newline.
proof fn lemma_compose_free(x: Seq<char>, rest: Seq<char>, w: Seq<char>)
    requires
        !contains(x, w),
        w.len() > 0,
        forall|k: int| 0 <= k < w.len() ==> w[k] != '\n',
        forall|j: int| !occurs_at(rest, w.push('\n'), j),
    ensures
        forall|j: int| !occurs_at(x + (seq!['\n'] + rest), w.push('\n'), j),
{
    let m = w.push('\n');
    let nl = seq!['\n'];
    let s = x + (nl + rest);
    lemma_no_straddle_upto(x, nl + rest, w);
    assert forall|j: int| !occurs_at(s, m, j) by {
        if j > x.len() {
            assert(s =~= (x + nl) + rest);
            lemma_shift(x + nl, rest, m, j - x.len() - 1);
        }
    }
}

/// Where the marker stands nowhere from `i` on, the rest is one piece.
proof fn lemma_pieces_without_marker(s: Seq<char>, m: Seq<char>, start: int, i: int)
    requires
        m.len() > 0,
        0 <= i <= s.len(),
        forall|j: int| j >= i ==> !occurs_at(s, m, j),
    ensures
        pieces_from(s, m, start, i) == seq![s.subrange(start, s.len() as int)],
    decreases s.len() - i,
{
    if i + m.len() <= s.len() {
        lemma_pieces_without_marker(s, m, start, i + 1);
    }
}

/// The first occurrence at or after `i`.
proof fn lemma_find_first(s: Seq<char>, m: Seq<char>, i: int, k: int)
    requires
        m.len() > 0,
        0 <= i <= k,
        occurs_at(s, m, k),
        forall|j: int| i <= j < k ==> !occurs_at(s, m, j),
    ensures
        find_from(s, m, i) == Some(k),
    decreases k - i,
{
    if i < k {
        lemma_find_first(s, m, i + 1, k);
    }
}

/// A suite in which some record, not empty, holds no answer header is refused, whatever the
/// other records hold.
pub proof fn lemma_missing_answer_rejected(src: Seq<char>, k: int)
    requires
        0 <= k < split_at_marker(src, test_marker()).len(),
        split_at_marker(src, test_marker())[k].len() > 0,
        !contains(split_at_marker(src, test_marker())[k], answer_marker()),
    ensures
        parse_suite(src) is Err,
{
    let recs = split_at_marker(src, test_marker());
    let r = recs[k];
    let im = input_marker();
    if !(r.len() < im.len() || r.take(im.len() as int) != im) {
        let body = r.skip(im.len() as int);
        assert(r =~= im + body);
        if let Some(j) = find_from(body, answer_marker(), 0) {
            lemma_find_from_bounds(body, answer_marker(), 0, j);
            lemma_shift(im, body, answer_marker(), j);
            assert(occurs_at(r, answer_marker(), im.len() + j));
        }
    }
    assert(parse_record(r) is Err);
    let pre = recs.take(k + 1);
    assert(pre.drop_last() =~= recs.take(k));
    assert(pre.last() == r);
    assert(parse_records(pre) is Err);
    lemma_records_error_prefix(recs, k + 1, parse_records(pre)->Err_0);
}

} // verus!

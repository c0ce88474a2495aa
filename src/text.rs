use vstd::prelude::*;

verus! {

/// The characters that carry the Unicode `White_Space` property.
pub open spec fn is_space(c: char) -> bool {
    let u = c as u32;
    (0x9 <= u && u <= 0xd) || u == 0x20 || u == 0x85 || u == 0xa0 || u == 0x1680 || (0x2000 <= u
        && u <= 0x200a) || u == 0x2028 || u == 0x2029 || u == 0x202f || u == 0x205f || u == 0x3000
}

/// `s` without its leading white space.
pub open spec fn trim_start(s: Seq<char>) -> Seq<char>
    decreases s.len(),
{
    if s.len() > 0 && is_space(s[0]) {
        trim_start(s.drop_first())
    } else {
        s
    }
}

/// `s` without its trailing white space.
pub open spec fn trim_end(s: Seq<char>) -> Seq<char>
    decreases s.len(),
{
    if s.len() > 0 && is_space(s.last()) {
        trim_end(s.drop_last())
    } else {
        s
    }
}

/// `s` without white space at either end.
pub open spec fn trim(s: Seq<char>) -> Seq<char> {
    trim_end(trim_start(s))
}

/// Neither end of `s` is white space.
pub open spec fn is_trimmed(s: Seq<char>) -> bool {
    s.len() > 0 ==> !is_space(s[0]) && !is_space(s.last())
}

/// Whether `c` is white space.
pub fn is_space_char(c: char) -> (r: bool)
    ensures
        r == is_space(c),
{
    let u = c as u32;
    (0x9 <= u && u <= 0xd) || u == 0x20 || u == 0x85 || u == 0xa0 || u == 0x1680 || (0x2000 <= u
        && u <= 0x200a) || u == 0x2028 || u == 0x2029 || u == 0x202f || u == 0x205f || u == 0x3000
}

/// Trimming leaves no white space at either end, so trimming again changes nothing.
pub proof fn lemma_trim_is_trimmed(s: Seq<char>)
    ensures
        is_trimmed(trim(s)),
        trim(trim(s)) == trim(s),
{
    lemma_trim_start_shape(s);
    lemma_trim_end_shape(trim_start(s));
    lemma_trimmed_fixed(trim(s));
}

proof fn lemma_trim_start_shape(s: Seq<char>)
    ensures
        trim_start(s).len() > 0 ==> !is_space(trim_start(s)[0]),
    decreases s.len(),
{
    if s.len() > 0 && is_space(s[0]) {
        lemma_trim_start_shape(s.drop_first());
    }
}

proof fn lemma_trim_end_shape(s: Seq<char>)
    ensures
        trim_end(s).len() > 0 ==> !is_space(trim_end(s).last()),
        trim_end(s).len() > 0 ==> trim_end(s)[0] == s[0],
        trim_end(s).len() <= s.len(),
    decreases s.len(),
{
    if s.len() > 0 && is_space(s.last()) {
        lemma_trim_end_shape(s.drop_last());
    }
}

/// Trimming leaves a text whose ends are not white space as it is.
pub proof fn lemma_trimmed_fixed(s: Seq<char>)
    requires
        is_trimmed(s),
    ensures
        trim(s) == s,
{
}

/// Finds the part of `s[lo..hi]` that trimming keeps.
pub fn trim_bounds(s: &Vec<char>, lo: usize, hi: usize) -> (r: (usize, usize))
    requires
        lo <= hi <= s@.len(),
    ensures
        lo <= r.0 <= r.1 <= hi,
        s@.subrange(r.0 as int, r.1 as int) == trim(s@.subrange(lo as int, hi as int)),
{
    let mut i: usize = lo;
    while i < hi && is_space_char(s[i])
        invariant
            lo <= i <= hi <= s@.len(),
            trim_start(s@.subrange(lo as int, hi as int)) == trim_start(
                s@.subrange(i as int, hi as int),
            ),
        decreases hi - i,
    {
        assert(s@.subrange(i as int, hi as int).drop_first() =~= s@.subrange(
            i + 1,
            hi as int,
        ));
        i = i + 1;
    }
    assert(trim_start(s@.subrange(lo as int, hi as int)) == s@.subrange(i as int, hi as int));
    let mut j: usize = hi;
    while j > i && is_space_char(s[j - 1])
        invariant
            lo <= i <= j <= hi <= s@.len(),
            trim_end(s@.subrange(i as int, hi as int)) == trim_end(
                s@.subrange(i as int, j as int),
            ),
        decreases j - i,
    {
        assert(s@.subrange(i as int, j as int).drop_last() =~= s@.subrange(
            i as int,
            j - 1,
        ));
        j = j - 1;
    }
    (i, j)
}

/// Relies on `str::chars`: it yields the characters of the text in order.
#[verifier::external_body]
pub(crate) fn chars_of(s: &str) -> (r: Vec<char>)
    ensures
        r@ == s@,
{
    s.chars().collect()
}

/// Relies on `FromIterator<char>` for `String`: the text holds the characters in order.
#[verifier::external_body]
pub(crate) fn string_of(cs: &[char]) -> (r: String)
    ensures
        r@ == cs@,
{
    cs.iter().collect()
}

/// Whether two character sequences are equal.
pub fn same_chars(a: &Vec<char>, b: &Vec<char>) -> (r: bool)
    ensures
        r == (a@ == b@),
{
    if a.len() != b.len() {
        return false;
    }
    let mut i: usize = 0;
    while i < a.len()
        invariant
            a@.len() == b@.len(),
            i <= a@.len(),
            forall|k: int| 0 <= k < i ==> a@[k] == b@[k],
        decreases a.len() - i,
    {
        if a[i] != b[i] {
            return false;
        }
        i = i + 1;
    }
    assert(a@ =~= b@);
    true
}

/// Copies `s[lo..hi]`.
pub fn copy_range(s: &Vec<char>, lo: usize, hi: usize) -> (r: Vec<char>)
    requires
        lo <= hi <= s@.len(),
    ensures
        r@ == s@.subrange(lo as int, hi as int),
{
    let mut r: Vec<char> = Vec::new();
    let mut i: usize = lo;
    while i < hi
        invariant
            lo <= i <= hi <= s@.len(),
            r@ == s@.subrange(lo as int, i as int),
        decreases hi - i,
    {
        r.push(s[i]);
        assert(r@ =~= s@.subrange(lo as int, i + 1));
        i = i + 1;
    }
    r
}

/// The views of a sequence of character vectors.
pub open spec fn char_views(v: Seq<Vec<char>>) -> Seq<Seq<char>> {
    Seq::new(v.len(), |i: int| v[i]@)
}

/// `line` without the carriage return that ends it, if one does.
pub open spec fn strip_cr(line: Seq<char>) -> Seq<char> {
    if line.len() > 0 && line.last() == '\r' {
        line.drop_last()
    } else {
        line
    }
}

/// Adds `line` to `done`, trimmed if `trim_lines`, unless `drop_blank` and nothing is left.
pub open spec fn keep_line(
    done: Seq<Seq<char>>,
    line: Seq<char>,
    trim_lines: bool,
    drop_blank: bool,
) -> Seq<Seq<char>> {
    let l = if trim_lines {
        trim(line)
    } else {
        line
    };
    if drop_blank && l.len() == 0 {
        done
    } else {
        done.push(l)
    }
}

/// Reading `s` from the left: the kept lines that have ended, and the line under way.
pub open spec fn lines_scan(s: Seq<char>, trim_lines: bool, drop_blank: bool) -> (
    Seq<Seq<char>>,
    Seq<char>,
)
    decreases s.len(),
{
    if s.len() == 0 {
        (seq![], seq![])
    } else {
        let p = lines_scan(s.drop_last(), trim_lines, drop_blank);
        if s.last() == '\n' {
            (keep_line(p.0, strip_cr(p.1), trim_lines, drop_blank), seq![])
        } else {
            (p.0, p.1.push(s.last()))
        }
    }
}

/// The lines of `s`: split after each newline (a carriage return before it belongs to the
/// line ending), with no line after a final newline; each trimmed if `trim_lines`, and
/// those left empty dropped if `drop_blank`.
pub open spec fn text_lines(s: Seq<char>, trim_lines: bool, drop_blank: bool) -> Seq<Seq<char>> {
    let p = lines_scan(s, trim_lines, drop_blank);
    if p.1.len() > 0 {
        keep_line(p.0, p.1, trim_lines, drop_blank)
    } else {
        p.0
    }
}

/// The lines of `s`, each trimmed, without those left empty.
pub open spec fn normalized_lines(s: Seq<char>) -> Seq<Seq<char>> {
    text_lines(s, true, true)
}

/// Adds `w` to `done` unless it is empty.
pub open spec fn keep_word(done: Seq<Seq<char>>, w: Seq<char>) -> Seq<Seq<char>> {
    if w.len() > 0 {
        done.push(w)
    } else {
        done
    }
}

/// Reading `s` from the left: the words that have ended, and the word under way.
pub open spec fn words_scan(s: Seq<char>) -> (Seq<Seq<char>>, Seq<char>)
    decreases s.len(),
{
    if s.len() == 0 {
        (seq![], seq![])
    } else {
        let p = words_scan(s.drop_last());
        if is_space(s.last()) {
            (keep_word(p.0, p.1), seq![])
        } else {
            (p.0, p.1.push(s.last()))
        }
    }
}

/// The maximal runs of characters of `s` that are not white space, in order.
pub open spec fn words(s: Seq<char>) -> Seq<Seq<char>> {
    keep_word(words_scan(s).0, words_scan(s).1)
}

/// Every member of a normalized line sequence is trimmed and not empty.
pub proof fn lemma_normalized_lines_shape(s: Seq<char>)
    ensures
        forall|k: int|
            0 <= k < normalized_lines(s).len() ==> (#[trigger] normalized_lines(s)[k]).len() > 0
                && is_trimmed(normalized_lines(s)[k]),
{
    lemma_scan_lines_shape(s);
    let p = lines_scan(s, true, true);
    lemma_trim_is_trimmed(p.1);
    assert forall|k: int| 0 <= k < normalized_lines(s).len() implies (
    #[trigger] normalized_lines(s)[k]).len() > 0 && is_trimmed(normalized_lines(s)[k]) by {
        if k < p.0.len() {
            assert(p.0[k].len() > 0);
        }
    }
}

proof fn lemma_scan_lines_shape(s: Seq<char>)
    ensures
        forall|k: int|
            0 <= k < lines_scan(s, true, true).0.len() ==> (#[trigger] lines_scan(
                s,
                true,
                true,
            ).0[k]).len() > 0 && is_trimmed(lines_scan(s, true, true).0[k]),
    decreases s.len(),
{
    if s.len() > 0 {
        lemma_scan_lines_shape(s.drop_last());
        let p = lines_scan(s.drop_last(), true, true);
        lemma_trim_is_trimmed(strip_cr(p.1));
        assert forall|k: int| 0 <= k < lines_scan(s, true, true).0.len() implies (
        #[trigger] lines_scan(s, true, true).0[k]).len() > 0 && is_trimmed(
            lines_scan(s, true, true).0[k],
        ) by {
            if k < p.0.len() {
                assert(p.0[k].len() > 0);
            }
        }
    }
}

/// The bounds of `s[lo..hi]` as a line is shaped: trimmed if `trim_lines`.
fn shaped_bounds(s: &Vec<char>, lo: usize, hi: usize, trim_lines: bool) -> (r: (usize, usize))
    requires
        lo <= hi <= s@.len(),
    ensures
        lo <= r.0 <= r.1 <= hi,
        s@.subrange(r.0 as int, r.1 as int) == (if trim_lines {
            trim(s@.subrange(lo as int, hi as int))
        } else {
            s@.subrange(lo as int, hi as int)
        }),
{
    if trim_lines {
        trim_bounds(s, lo, hi)
    } else {
        (lo, hi)
    }
}

/// The lines of `s` as `text_lines` gives them.
pub fn split_lines(s: &Vec<char>, trim_lines: bool, drop_blank: bool) -> (r: Vec<Vec<char>>)
    ensures
        char_views(r@) == text_lines(s@, trim_lines, drop_blank),
{
    let mut done: Vec<Vec<char>> = Vec::new();
    let mut start: usize = 0;
    let mut i: usize = 0;
    while i < s.len()
        invariant
            start <= i <= s@.len(),
            lines_scan(s@.take(i as int), trim_lines, drop_blank) == (
                char_views(done@),
                s@.subrange(start as int, i as int),
            ),
        decreases s.len() - i,
    {
        assert(s@.take(i + 1).drop_last() =~= s@.take(i as int));
        if s[i] == '\n' {
            let mut hi = i;
            if hi > start && s[hi - 1] == '\r' {
                hi = hi - 1;
            }
            assert(s@.subrange(start as int, hi as int) =~= strip_cr(
                s@.subrange(start as int, i as int),
            ));
            let (a, b) = shaped_bounds(s, start, hi, trim_lines);
            if !(drop_blank && a == b) {
                let line = copy_range(s, a, b);
                done.push(line);
            }
            assert(char_views(done@) =~= keep_line(
                lines_scan(s@.take(i as int), trim_lines, drop_blank).0,
                strip_cr(lines_scan(s@.take(i as int), trim_lines, drop_blank).1),
                trim_lines,
                drop_blank,
            ));
            start = i + 1;
            assert(s@.subrange(start as int, i + 1) =~= Seq::<char>::empty());
        } else {
            assert(s@.subrange(start as int, i + 1) =~= s@.subrange(start as int, i as int).push(
                s@[i as int],
            ));
        }
        i = i + 1;
    }
    assert(s@.take(i as int) =~= s@);
    if start < i {
        let (a, b) = shaped_bounds(s, start, i, trim_lines);
        if !(drop_blank && a == b) {
            let line = copy_range(s, a, b);
            done.push(line);
        }
    }
    assert(char_views(done@) =~= text_lines(s@, trim_lines, drop_blank));
    done
}

/// The maximal runs of characters of `s` that are not white space.
pub fn split_words(s: &Vec<char>) -> (r: Vec<Vec<char>>)
    ensures
        char_views(r@) == words(s@),
{
    let mut done: Vec<Vec<char>> = Vec::new();
    let mut start: usize = 0;
    let mut i: usize = 0;
    while i < s.len()
        invariant
            start <= i <= s@.len(),
            words_scan(s@.take(i as int)) == (char_views(done@), s@.subrange(
                start as int,
                i as int,
            )),
        decreases s.len() - i,
    {
        assert(s@.take(i + 1).drop_last() =~= s@.take(i as int));
        if is_space_char(s[i]) {
            if start < i {
                let w = copy_range(s, start, i);
                done.push(w);
            }
            assert(char_views(done@) =~= keep_word(
                words_scan(s@.take(i as int)).0,
                words_scan(s@.take(i as int)).1,
            ));
            start = i + 1;
            assert(s@.subrange(start as int, i + 1) =~= Seq::<char>::empty());
        } else {
            assert(s@.subrange(start as int, i + 1) =~= s@.subrange(start as int, i as int).push(
                s@[i as int],
            ));
        }
        i = i + 1;
    }
    assert(s@.take(i as int) =~= s@);
    if start < i {
        let w = copy_range(s, start, i);
        done.push(w);
    }
    assert(char_views(done@) =~= words(s@));
    done
}

/// `line` trimmed, or nothing where only white space was in it.
pub fn trim_filter_non_empty(line: &str) -> (r: Option<String>)
    ensures
        match r {
            Some(t) => trim(line@).len() > 0 && t@ == trim(line@),
            None => trim(line@).len() == 0,
        },
{
    let cs = chars_of(line);
    let (a, b) = trim_bounds(&cs, 0, cs.len());
    assert(cs@.subrange(0, cs@.len() as int) =~= cs@);
    if a < b {
        Some(string_of(copy_range(&cs, a, b).as_slice()))
    } else {
        None
    }
}

/// `s` holds only white space.
pub open spec fn is_blank(s: Seq<char>) -> bool {
    forall|i: int| 0 <= i < s.len() ==> is_space(#[trigger] s[i])
}

/// A text trims to nothing exactly when it holds no word, that is when it is blank.
pub proof fn lemma_blank_iff_no_words(s: Seq<char>)
    ensures
        (trim(s).len() == 0) == is_blank(s),
        (words(s).len() == 0) == is_blank(s),
{
    lemma_trim_start_blank(s);
    if trim_start(s).len() > 0 {
        lemma_trim_end_keeps_first(trim_start(s));
    }
    lemma_words_scan_blank(s);
}

proof fn lemma_trim_start_blank(s: Seq<char>)
    ensures
        (trim_start(s).len() == 0) == is_blank(s),
        trim_start(s).len() > 0 ==> !is_space(trim_start(s)[0]),
    decreases s.len(),
{
    if s.len() > 0 && is_space(s[0]) {
        lemma_trim_start_blank(s.drop_first());
        if !is_blank(s) {
            let i = choose|i: int| 0 <= i < s.len() && !is_space(#[trigger] s[i]);
            assert(s.drop_first()[i - 1] == s[i]);
        }
        if !is_blank(s.drop_first()) {
            let i = choose|i: int| 0 <= i < s.len() - 1 && !is_space(#[trigger] s.drop_first()[i]);
            assert(s[i + 1] == s.drop_first()[i]);
        }
    } else if s.len() > 0 {
        assert(!is_space(s[0]));
    }
}

proof fn lemma_trim_end_keeps_first(s: Seq<char>)
    requires
        s.len() > 0,
        !is_space(s[0]),
    ensures
        trim_end(s).len() > 0,
    decreases s.len(),
{
    if is_space(s.last()) {
        assert(s.len() > 1);
        assert(s.drop_last()[0] == s[0]);
        lemma_trim_end_keeps_first(s.drop_last());
    }
}

proof fn lemma_words_scan_blank(s: Seq<char>)
    ensures
        (words_scan(s).0.len() == 0 && words_scan(s).1.len() == 0) == is_blank(s),
        (words(s).len() == 0) == is_blank(s),
    decreases s.len(),
{
    if s.len() > 0 {
        lemma_words_scan_blank(s.drop_last());
        let t = s.drop_last();
        if is_blank(t) && is_space(s.last()) {
            assert forall|i: int| 0 <= i < s.len() implies is_space(#[trigger] s[i]) by {
                if i < t.len() {
                    assert(t[i] == s[i]);
                }
            }
        }
        if is_blank(s) {
            assert(is_space(s[s.len() - 1]));
            assert forall|i: int| 0 <= i < t.len() implies is_space(#[trigger] t[i]) by {
                assert(s[i] == t[i]);
            }
        }
    }
}

} // verus!

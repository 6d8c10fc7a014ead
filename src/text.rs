use vstd::prelude::*;

verus! {

/// Whitespace as `char::is_whitespace` defines it: the Unicode `White_Space` property.
pub open spec fn is_white(c: char) -> bool {
    ('\t' <= c && c <= '\r') || c == ' ' || c == '\u{85}' || c == '\u{a0}' || c == '\u{1680}'
        || ('\u{2000}' <= c && c <= '\u{200a}') || c == '\u{2028}' || c == '\u{2029}'
        || c == '\u{202f}' || c == '\u{205f}' || c == '\u{3000}'
}

/// Executable form of `is_white`.
pub fn is_white_char(c: char) -> (r: bool)
    ensures
        r == is_white(c),
{
    ('\t' <= c && c <= '\r') || c == ' ' || c == '\u{85}' || c == '\u{a0}' || c == '\u{1680}'
        || ('\u{2000}' <= c && c <= '\u{200a}') || c == '\u{2028}' || c == '\u{2029}'
        || c == '\u{202f}' || c == '\u{205f}' || c == '\u{3000}'
}

/// The text with trailing whitespace removed.
pub open spec fn trim_end(s: Seq<char>) -> Seq<char>
    decreases s.len(),
{
    if s.len() > 0 && is_white(s.last()) {
        trim_end(s.drop_last())
    } else {
        s
    }
}

/// The position of the first `'\n'` at or after `start`, or the length of `s`.
pub open spec fn line_end(s: Seq<char>, start: int) -> int
    decreases s.len() - start,
{
    if start >= s.len() || start < 0 {
        s.len() as int
    } else if s[start] == '\n' {
        start
    } else {
        line_end(s, start + 1)
    }
}

/// The lines of `s` that start at position `start`, each with its trailing
/// whitespace removed. A line ends at a `'\n'` or at the end of the text; a
/// final `'\n'` opens no new line.
pub open spec fn trimmed_lines_from(s: Seq<char>, start: int) -> Seq<Seq<char>>
    decreases s.len() - start,
{
    if start >= s.len() || start < 0 {
        seq![]
    } else {
        let end = line_end(s, start);
        if end < start {
            seq![]
        } else if end >= s.len() {
            seq![trim_end(s.subrange(start, s.len() as int))]
        } else {
            seq![trim_end(s.subrange(start, end))] + trimmed_lines_from(s, end + 1)
        }
    }
}

/// The lines of a text with their trailing whitespace removed; an empty text
/// has no lines.
pub open spec fn trimmed_lines(s: Seq<char>) -> Seq<Seq<char>> {
    trimmed_lines_from(s, 0)
}

/// Relies on `str::chars`: it yields exactly the characters of the text, in order.
#[verifier::external_body]
fn chars_of(s: &str) -> (r: Vec<char>)
    ensures
        r@ == s@,
{
    s.chars().collect()
}

proof fn lemma_line_end_bounds(s: Seq<char>, start: int)
    requires
        0 <= start <= s.len(),
    ensures
        start <= line_end(s, start) <= s.len(),
    decreases s.len() - start,
{
    if start < s.len() && s[start] != '\n' {
        lemma_line_end_bounds(s, start + 1);
    }
}

fn chars_eq(a: &Vec<char>, b: &Vec<char>) -> (r: bool)
    ensures
        r == (a@ == b@),
{
    if a.len() != b.len() {
        return false;
    }
    let mut i: usize = 0;
    while i < a.len()
        invariant
            a@.len() == b@.len(),
            0 <= i <= a@.len(),
            forall|k: int| 0 <= k < i ==> a@[k] == b@[k],
        decreases a@.len() - i,
    {
        if a[i] != b[i] {
            return false;
        }
        i = i + 1;
    }
    assert(a@ =~= b@);
    true
}

/// The lines of `v`, each with its trailing whitespace removed.
fn trimmed_line_list(v: &Vec<char>) -> (r: Vec<Vec<char>>)
    ensures
        r@.map_values(|l: Vec<char>| l@) == trimmed_lines(v@),
{
    let ghost s = v@;
    let n = v.len();
    let mut out: Vec<Vec<char>> = Vec::new();
    let mut start: usize = 0;
    assert(out@.map_values(|l: Vec<char>| l@) + trimmed_lines_from(s, 0) =~= trimmed_lines(s));
    while start < n
        invariant
            n == s.len(),
            s == v@,
            0 <= start <= n,
            out@.map_values(|l: Vec<char>| l@) + trimmed_lines_from(s, start as int)
                == trimmed_lines(s),
        decreases n - start,
    {
        let mut j: usize = start;
        while j < n && v[j] != '\n'
            invariant
                n == s.len(),
                s == v@,
                start <= j <= n,
                start < n,
                line_end(s, j as int) == line_end(s, start as int),
            decreases n - j,
        {
            j = j + 1;
        }
        let mut e: usize = j;
        while e > start && is_white_char(v[e - 1])
            invariant
                n == s.len(),
                s == v@,
                start <= e <= j <= n,
                trim_end(s.subrange(start as int, e as int)) == trim_end(
                    s.subrange(start as int, j as int),
                ),
            decreases e,
        {
            assert(s.subrange(start as int, e as int).drop_last() =~= s.subrange(
                start as int,
                e - 1,
            ));
            e = e - 1;
        }
        let mut line: Vec<char> = Vec::new();
        let mut k: usize = start;
        while k < e
            invariant
                n == s.len(),
                s == v@,
                start <= k <= e <= n,
                line@ == s.subrange(start as int, k as int),
            decreases e - k,
        {
            line.push(v[k]);
            k = k + 1;
            assert(line@ =~= s.subrange(start as int, k as int));
        }
        proof {
            assert(line_end(s, j as int) == j);
            let sub = s.subrange(start as int, e as int);
            if e > start {
                assert(sub.last() == s[e - 1]);
            }
            assert(trim_end(sub) == sub);
        }
        let ghost before = out@;
        let ghost before_start = start as int;
        proof {
            lemma_line_end_bounds(s, before_start);
        }
        out.push(line);
        assert(out@.map_values(|l: Vec<char>| l@) =~= before.map_values(|l: Vec<char>| l@).push(
            s.subrange(start as int, e as int),
        ));
        if j < n {
            start = j + 1;
        } else {
            start = n;
        }
        proof {
            if j == n {
                assert(trimmed_lines_from(s, j + 1) == trimmed_lines_from(s, start as int));
            }
        }
        assert(out@.map_values(|l: Vec<char>| l@) + trimmed_lines_from(s, start as int)
            =~= before.map_values(|l: Vec<char>| l@) + trimmed_lines_from(s, before_start));
    }
    assert(out@.map_values(|l: Vec<char>| l@) =~= trimmed_lines(s));
    out
}

/// Whether two texts hold the same characters.
pub fn str_eq(a: &str, b: &str) -> (r: bool)
    ensures
        r == (a@ == b@),
{
    chars_eq(&chars_of(a), &chars_of(b))
}

/// Compares an output with an answer line by line, ignoring whitespace at the
/// end of each line: equal when both have the same number of lines and the
/// lines agree pairwise once their trailing whitespace is removed.
pub fn standard_compare(answer: &str, output: &str) -> (r: bool)
    ensures
        r == (trimmed_lines(output@) == trimmed_lines(answer@)),
{
    let a = trimmed_line_list(&chars_of(answer));
    let o = trimmed_line_list(&chars_of(output));
    if a.len() != o.len() {
        proof {
            assert(a@.map_values(|l: Vec<char>| l@).len() != o@.map_values(|l: Vec<char>| l@).len());
        }
        return false;
    }
    let mut i: usize = 0;
    while i < a.len()
        invariant
            a@.len() == o@.len(),
            0 <= i <= a@.len(),
            forall|k: int| 0 <= k < i ==> a@[k]@ == o@[k]@,
            a@.map_values(|l: Vec<char>| l@) == trimmed_lines(answer@),
            o@.map_values(|l: Vec<char>| l@) == trimmed_lines(output@),
        decreases a@.len() - i,
    {
        if !chars_eq(&a[i], &o[i]) {
            proof {
                let am = a@.map_values(|l: Vec<char>| l@);
                let om = o@.map_values(|l: Vec<char>| l@);
                assert(am[i as int] == a@[i as int]@);
                assert(om[i as int] == o@[i as int]@);
                assert(am[i as int] != om[i as int]);
            }
            return false;
        }
        i = i + 1;
    }
    assert(a@.map_values(|l: Vec<char>| l@) =~= o@.map_values(|l: Vec<char>| l@));
    true
}

/// Compares an output with an answer exactly, byte for byte.
pub fn strict_compare(answer: &[u8], output: &[u8]) -> (r: bool)
    ensures
        r == (output@ == answer@),
{
    if answer.len() != output.len() {
        return false;
    }
    let mut i: usize = 0;
    while i < answer.len()
        invariant
            answer@.len() == output@.len(),
            0 <= i <= answer@.len(),
            forall|k: int| 0 <= k < i ==> answer@[k] == output@[k],
        decreases answer@.len() - i,
    {
        if answer[i] != output[i] {
            return false;
        }
        i = i + 1;
    }
    assert(answer@ =~= output@);
    true
}

/// The text that bytes encode in UTF-8; `None` when they are not valid UTF-8.
pub uninterp spec fn utf8_text(b: Seq<u8>) -> Option<Seq<char>>;

/// Relies on `std::str::from_utf8`: whether and how bytes decode as UTF-8
/// depends on the bytes alone.
#[verifier::external_body]
pub(crate) fn decode_utf8(b: &[u8]) -> (r: Option<&str>)
    ensures
        match r {
            Some(s) => utf8_text(b@) == Some(s@),
            None => utf8_text(b@) is None,
        },
{
    match std::str::from_utf8(b) {
        Ok(s) => Some(s),
        Err(_) => None,
    }
}

/// Whitespace added at the end of a line is removed again by `trim_end`, so
/// the line compares as before under line-by-line comparison; character for
/// character, the two differ.
pub proof fn lemma_trailing_whitespace(line: Seq<char>, pad: Seq<char>)
    requires
        forall|i: int| 0 <= i < pad.len() ==> is_white(#[trigger] pad[i]),
    ensures
        trim_end(line + pad) == trim_end(line),
        pad.len() > 0 ==> line + pad != line,
    decreases pad.len(),
{
    if pad.len() > 0 {
        let shorter = pad.drop_last();
        assert((line + pad).drop_last() =~= line + shorter);
        assert((line + pad).last() == pad.last());
        lemma_trailing_whitespace(line, shorter);
        assert((line + pad).len() != line.len());
    } else {
        assert(line + pad =~= line);
    }
}

} // verus!

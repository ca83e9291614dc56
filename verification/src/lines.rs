//! Texts as lines of characters.

use vstd::prelude::*;

verus! {

/// Position of the first character `c` from `i` on; the length where there is none.
pub open spec fn first_char(s: Seq<char>, c: char, i: int) -> int
    decreases s.len() - i,
{
    if i < 0 || i >= s.len() {
        s.len() as int
    } else if s[i] == c {
        i
    } else {
        first_char(s, c, i + 1)
    }
}

/// A line without the carriage return before its line feed.
pub open spec fn without_cr(s: Seq<char>) -> Seq<char> {
    if s.len() > 0 && s.last() == '\r' {
        s.drop_last()
    } else {
        s
    }
}

/// The lines of a text. A line feed ends a line, together with a carriage return before it; the
/// last line may go without.
pub open spec fn lines_of(s: Seq<char>) -> Seq<Seq<char>>
    decreases s.len(),
{
    if s.len() == 0 {
        Seq::empty()
    } else {
        let e = first_char(s, '\n', 0);
        if 0 <= e < s.len() {
            seq![without_cr(s.take(e))] + lines_of(s.skip(e + 1))
        } else {
            seq![s]
        }
    }
}

/// A character that is white space.
pub open spec fn is_space(c: char) -> bool {
    let n = c as u32;
    9 <= n <= 13 || n == 32 || n == 0x85 || n == 0xA0 || n == 0x1680 || 0x2000 <= n <= 0x200A || n
        == 0x2028 || n == 0x2029 || n == 0x202F || n == 0x205F || n == 0x3000
}

/// A text without the white space at its ends.
pub open spec fn trimmed(s: Seq<char>) -> Seq<char>
    decreases s.len(),
{
    if s.len() > 0 && is_space(s[0]) {
        trimmed(s.skip(1))
    } else if s.len() > 0 && is_space(s.last()) {
        trimmed(s.drop_last())
    } else {
        s
    }
}

/// Views of lines.
pub open spec fn line_views(lines: Seq<Vec<char>>) -> Seq<Seq<char>> {
    lines.map_values(|l: Vec<char>| l@)
}

pub(crate) proof fn lemma_first_char(s: Seq<char>, c: char, i: int, e: int)
    requires
        0 <= i <= e <= s.len(),
        forall|j: int| i <= j < e ==> s[j] != c,
        e < s.len() ==> s[e] == c,
    ensures
        first_char(s, c, i) == e,
    decreases e - i,
{
    if i < e {
        lemma_first_char(s, c, i + 1, e);
    }
}

/// Finds the first character `c` from `from` on.
pub fn find_char(s: &Vec<char>, c: char, from: usize) -> (r: usize)
    requires
        from <= s@.len(),
    ensures
        r == first_char(s@, c, from as int),
        from <= r <= s@.len(),
        r < s@.len() ==> s@[r as int] == c,
{
    let mut i: usize = from;
    while i < s.len() && s[i] != c
        invariant
            from <= i <= s@.len(),
            forall|j: int| from <= j < i ==> s@[j] != c,
        decreases s@.len() - i,
    {
        i += 1;
    }
    proof {
        lemma_first_char(s@, c, from as int, i as int);
    }
    i
}

/// Part of a text.
pub fn sub_chars(s: &Vec<char>, from: usize, to: usize) -> (r: Vec<char>)
    requires
        from <= to <= s@.len(),
    ensures
        r@ == s@.subrange(from as int, to as int),
{
    let mut out: Vec<char> = Vec::new();
    let mut i: usize = from;
    while i < to
        invariant
            from <= i <= to <= s@.len(),
            out@ == s@.subrange(from as int, i as int),
        decreases to - i,
    {
        out.push(s[i]);
        i += 1;
        proof {
            assert(out@ =~= s@.subrange(from as int, i as int));
        }
    }
    out
}

proof fn lemma_first_char_shift(s: Seq<char>, c: char, k: int, i: int)
    requires
        0 <= k <= s.len(),
        0 <= i,
    ensures
        first_char(s.skip(k), c, i) + k == first_char(s, c, i + k),
    decreases s.len() - k - i,
{
    if i < s.len() - k {
        assert(s.skip(k)[i] == s[i + k]);
        if s[i + k] != c {
            lemma_first_char_shift(s, c, k, i + 1);
        }
    }
}

/// Splits a text into its lines.
pub fn split_lines(s: &Vec<char>) -> (r: Vec<Vec<char>>)
    ensures
        line_views(r@) == lines_of(s@),
{
    let mut out: Vec<Vec<char>> = Vec::new();
    let mut at: usize = 0;
    let ghost whole = lines_of(s@);
    proof {
        assert(s@.skip(0) =~= s@);
        assert(line_views(out@) + whole =~= whole);
    }
    while at < s.len()
        invariant
            at <= s@.len(),
            whole == lines_of(s@),
            line_views(out@) + lines_of(s@.skip(at as int)) == whole,
        decreases s@.len() - at,
    {
        let ghost done = line_views(out@);
        let ghost rest = s@.skip(at as int);
        let e: usize = find_char(s, '\n', at);
        proof {
            lemma_first_char_shift(s@, '\n', at as int, 0);
        }
        if e == s.len() {
            let line = sub_chars(s, at, e);
            proof {
                assert(line@ =~= rest);
                assert(done + lines_of(rest) =~= done.push(line@));
            }
            out.push(line);
            proof {
                assert(line_views(out@) =~= whole);
            }
            return out;
        }
        let end: usize = if e > at && s[e - 1] == '\r' {
            e - 1
        } else {
            e
        };
        let line = sub_chars(s, at, end);
        proof {
            let piece = rest.take(e - at);
            assert(piece =~= s@.subrange(at as int, e as int));
            assert(line@ =~= without_cr(piece));
            assert(rest.skip(e - at + 1) =~= s@.skip(e + 1));
            assert(done + (seq![line@] + lines_of(s@.skip(e + 1))) =~= done.push(line@) + lines_of(
                s@.skip(e + 1),
            ));
        }
        out.push(line);
        proof {
            assert(line_views(out@) =~= done.push(out@.last()@));
        }
        at = e + 1;
    }
    proof {
        assert(line_views(out@) =~= whole);
    }
    out
}

fn char_is_space(c: char) -> (r: bool)
    ensures
        r == is_space(c),
{
    let n: u32 = c as u32;
    9 <= n && n <= 13 || n == 32 || n == 0x85 || n == 0xA0 || n == 0x1680 || 0x2000 <= n && n
        <= 0x200A || n == 0x2028 || n == 0x2029 || n == 0x202F || n == 0x205F || n == 0x3000
}

/// Takes the white space off the ends of a text.
pub fn trim_chars(s: &Vec<char>) -> (r: Vec<char>)
    ensures
        r@ == trimmed(s@),
{
    let mut a: usize = 0;
    let mut b: usize = s.len();
    proof {
        assert(s@.subrange(0, s@.len() as int) =~= s@);
    }
    while a < b && char_is_space(s[a])
        invariant
            a <= b <= s@.len(),
            trimmed(s@) == trimmed(s@.subrange(a as int, b as int)),
        ensures
            a <= b <= s@.len(),
            trimmed(s@) == trimmed(s@.subrange(a as int, b as int)),
            a < b ==> !is_space(s@[a as int]),
        decreases b - a,
    {
        proof {
            let cur = s@.subrange(a as int, b as int);
            assert(cur[0] == s@[a as int]);
            assert(cur.skip(1) =~= s@.subrange(a + 1, b as int));
        }
        a += 1;
    }
    while a < b && char_is_space(s[b - 1])
        invariant
            a <= b <= s@.len(),
            trimmed(s@) == trimmed(s@.subrange(a as int, b as int)),
            a < b ==> !is_space(s@[a as int]),
        ensures
            a <= b <= s@.len(),
            trimmed(s@) == s@.subrange(a as int, b as int),
        decreases b - a,
    {
        proof {
            let cur = s@.subrange(a as int, b as int);
            assert(cur[0] == s@[a as int]);
            assert(cur.last() == s@[b - 1]);
            assert(cur.drop_last() =~= s@.subrange(a as int, b - 1));
        }
        b -= 1;
        proof {
            let cur = s@.subrange(a as int, b as int);
            if a < b {
                assert(cur[0] == s@[a as int]);
                assert(cur.last() == s@[b - 1]);
            }
        }
    }
    sub_chars(s, a, b)
}

// What lines and trimming mean.

/// A text is its first line, up to a line feed, and the lines of what follows; a carriage return
/// before the line feed belongs to neither.
pub proof fn law_line_feed_ends_line(line: Seq<char>, rest: Seq<char>)
    requires
        forall|i: int| 0 <= i < line.len() ==> #[trigger] line[i] != '\n',
    ensures
        (line.len() == 0 || line[line.len() - 1] != '\r') ==> lines_of(line + seq!['\n'] + rest)
            == seq![line] + lines_of(rest),
        lines_of(line + seq!['\r', '\n'] + rest) == seq![line] + lines_of(rest),
        line.len() > 0 ==> lines_of(line) == seq![line],
        lines_of(Seq::<char>::empty()) == Seq::<Seq<char>>::empty(),
{
    let a = line + seq!['\n'] + rest;
    let e = line.len() as int;
    assert forall|j: int| 0 <= j < e implies a[j] != '\n' by {
        assert(a[j] == line[j]);
    }
    assert(a[e] == '\n');
    lemma_first_char(a, '\n', 0, e);
    assert(a.take(e) =~= line);
    assert(a.skip(e + 1) =~= rest);
    let b = line + seq!['\r', '\n'] + rest;
    assert forall|j: int| 0 <= j < e + 1 implies b[j] != '\n' by {
        if j < e {
            assert(b[j] == line[j]);
        } else {
            assert(b[j] == '\r');
        }
    }
    assert(b[e + 1] == '\n');
    lemma_first_char(b, '\n', 0, e + 1);
    assert(b.take(e + 1) =~= line.push('\r'));
    assert(without_cr(b.take(e + 1)) =~= line);
    assert(b.skip(e + 2) =~= rest);
    lemma_first_char(line, '\n', 0, e);
}

/// Trimming takes off white space and nothing else: what is left neither begins nor ends with white
/// space, and what is taken off is nothing but white space.
pub proof fn law_trimming_takes_white_space_only(s: Seq<char>)
    ensures
        trimmed(s).len() > 0 ==> !is_space(trimmed(s)[0]) && !is_space(
            trimmed(s)[trimmed(s).len() - 1],
        ),
        exists|a: Seq<char>, b: Seq<char>|
            {
                &&& s == #[trigger] (a + trimmed(s) + b)
                &&& forall|i: int| 0 <= i < a.len() ==> is_space(#[trigger] a[i])
                &&& forall|i: int| 0 <= i < b.len() ==> is_space(#[trigger] b[i])
            },
        is_space(' ') && is_space('\t') && is_space('\r') && is_space('\n'),
        forall|c: char| #[trigger] is_space(c) ==> !('!' <= c <= '~'),
    decreases s.len(),
{
    let t = trimmed(s);
    if s.len() > 0 && is_space(s[0]) {
        law_trimming_takes_white_space_only(s.skip(1));
        let (a, b) = choose|a: Seq<char>, b: Seq<char>|
            {
                &&& s.skip(1) == #[trigger] (a + t + b)
                &&& forall|i: int| 0 <= i < a.len() ==> is_space(#[trigger] a[i])
                &&& forall|i: int| 0 <= i < b.len() ==> is_space(#[trigger] b[i])
            };
        let c = seq![s[0]] + a;
        assert(s =~= c + t + b) by {
            assert(s =~= seq![s[0]] + s.skip(1));
        }
        assert forall|i: int| 0 <= i < c.len() implies is_space(#[trigger] c[i]) by {
            if i > 0 {
                assert(c[i] == a[i - 1]);
            }
        }
        assert(s == c + t + b);
    } else if s.len() > 0 && is_space(s.last()) {
        law_trimming_takes_white_space_only(s.drop_last());
        let (a, b) = choose|a: Seq<char>, b: Seq<char>|
            {
                &&& s.drop_last() == #[trigger] (a + t + b)
                &&& forall|i: int| 0 <= i < a.len() ==> is_space(#[trigger] a[i])
                &&& forall|i: int| 0 <= i < b.len() ==> is_space(#[trigger] b[i])
            };
        let d = b.push(s.last());
        assert(s =~= a + t + d) by {
            assert(s =~= s.drop_last().push(s.last()));
        }
        assert(s == a + t + d);
    } else {
        let none = Seq::<char>::empty();
        assert(s =~= none + t + none);
        assert(s == none + t + none);
    }
}

} // verus!

use vstd::prelude::*;

use crate::outside::push_char;

verus! {

/// `s` begins with `p`.
pub open spec fn starts_with(s: Seq<char>, p: Seq<char>) -> bool {
    p.len() <= s.len() && s.subrange(0, p.len() as int) == p
}

/// `s` without the `c`s at its end.
pub open spec fn trim_end(s: Seq<char>, c: char) -> Seq<char>
    decreases s.len(),
{
    if s.len() > 0 && s.last() == c {
        trim_end(s.drop_last(), c)
    } else {
        s
    }
}

/// `trim_end` keeps the prefix of `s` up to its last character other than
/// `c`: what it drops is all `c`.
pub proof fn lemma_trim_end(s: Seq<char>, c: char) -> (k: int)
    ensures
        0 <= k <= s.len(),
        trim_end(s, c) == s.subrange(0, k),
        forall|j: int| k <= j < s.len() ==> s[j] == c,
        k == 0 || s[k - 1] != c,
    decreases s.len(),
{
    if s.len() > 0 && s.last() == c {
        let k = lemma_trim_end(s.drop_last(), c);
        assert(s.drop_last().subrange(0, k) =~= s.subrange(0, k));
        assert forall|j: int| k <= j < s.len() implies s[j] == c by {
            if j < s.len() - 1 {
                assert(s[j] == s.drop_last()[j]);
            }
        }
        k
    } else {
        assert(s.subrange(0, s.len() as int) =~= s);
        s.len() as int
    }
}

/// The index of the first `c` in `s` at or after `i`, or the length of `s`.
pub open spec fn find_from(s: Seq<char>, c: char, i: int) -> int
    decreases s.len() - i,
{
    if i < 0 || i >= s.len() {
        s.len() as int
    } else if s[i] == c {
        i
    } else {
        find_from(s, c, i + 1)
    }
}

/// The index of the last `c` in `s`.
pub open spec fn last_index_of(s: Seq<char>, c: char) -> Option<int>
    decreases s.len(),
{
    if s.len() == 0 {
        None
    } else if s.last() == c {
        Some(s.len() - 1)
    } else {
        last_index_of(s.drop_last(), c)
    }
}

/// `last_index_of` finds the last `c`: no `c` follows it, and where it
/// finds none, `s` holds no `c`.
pub proof fn lemma_last_index_of(s: Seq<char>, c: char)
    ensures
        last_index_of(s, c) matches Some(p) ==> 0 <= p < s.len() && s[p] == c && forall|q: int|
            p < q < s.len() ==> s[q] != c,
        last_index_of(s, c) is None ==> forall|q: int| 0 <= q < s.len() ==> s[q] != c,
    decreases s.len(),
{
    if s.len() > 0 && s.last() != c {
        lemma_last_index_of(s.drop_last(), c);
        assert forall|q: int| 0 <= q < s.len() - 1 implies s[q] == s.drop_last()[q] by {}
    }
}

/// The lines of a text as `str::lines` gives them: split after each `\n`, a
/// `\r` before the `\n` dropped, and no empty line after a final `\n`.
pub open spec fn text_lines(s: Seq<char>) -> Seq<Seq<char>> {
    lines_from(s, 0)
}

/// The line that starts at `i` and ends at `e` (the index of its `\n`, or
/// the end of the text).
pub open spec fn line_at(s: Seq<char>, i: int, e: int) -> Seq<char> {
    if e < s.len() && e > i && s[e - 1] == '\r' {
        s.subrange(i, e - 1)
    } else {
        s.subrange(i, e)
    }
}

pub open spec fn lines_from(s: Seq<char>, i: int) -> Seq<Seq<char>>
    decreases s.len() + 1 - i,
{
    if i < 0 || i >= s.len() {
        Seq::empty()
    } else {
        let e = find_from(s, '\n', i);
        proof {
            lemma_find_from_bounds(s, '\n', i);
        }
        seq![line_at(s, i, e)] + lines_from(s, e + 1)
    }
}

/// Where line `i` starts, when the first starts at `from` and each ends at
/// `ends[i]`: just past the end of the one before.
pub open spec fn line_start(from: int, ends: Seq<int>, i: int) -> int {
    if i == 0 {
        from
    } else {
        ends[i - 1] + 1
    }
}

/// `lines` are the lines of `s` from `from` on, line `i` ending at `ends[i]`:
/// each runs up to the next `\n` (or the end of the text) and holds no `\n`;
/// a `\r` just before its `\n` is dropped; each but the last ends at a `\n`;
/// and together they reach the end of the text, with no empty line after a
/// final `\n`.
pub open spec fn lines_split_at(s: Seq<char>, from: int, lines: Seq<Seq<char>>, ends: Seq<int>) -> bool {
    &&& ends.len() == lines.len()
    &&& forall|i: int|
        #![trigger lines[i]]
        #![trigger ends[i]]
        0 <= i < lines.len() ==> {
            let b = line_start(from, ends, i);
            let e = ends[i];
            &&& b <= e <= s.len()
            &&& e == s.len() || s[e] == '\n'
            &&& forall|q: int| b <= q < e ==> s[q] != '\n'
            &&& lines[i] == if e < s.len() && e > b && s[e - 1] == '\r' {
                s.subrange(b, e - 1)
            } else {
                s.subrange(b, e)
            }
            &&& i + 1 < lines.len() ==> e < s.len()
        }
    &&& lines.len() == 0 ==> from >= s.len()
    &&& lines.len() > 0 ==> ends[lines.len() - 1] + 1 >= s.len()
}

proof fn lemma_lines_from(s: Seq<char>, from: int) -> (ends: Seq<int>)
    requires
        0 <= from,
    ensures
        lines_split_at(s, from, lines_from(s, from), ends),
    decreases s.len() + 1 - from,
{
    if from >= s.len() {
        Seq::empty()
    } else {
        lemma_find_from_bounds(s, '\n', from);
        let e = find_from(s, '\n', from);
        let rest = lines_from(s, e + 1);
        let ends2 = lemma_lines_from(s, e + 1);
        let lines = lines_from(s, from);
        let ends = seq![e] + ends2;
        assert(lines == seq![line_at(s, from, e)] + rest);
        assert forall|i: int| 0 < i < lines.len() implies lines[i] == rest[i - 1] && ends[i] == ends2[i
            - 1] && line_start(from, ends, i) == line_start(e + 1, ends2, i - 1) by {}
        assert(lines_split_at(s, from, lines, ends));
        ends
    }
}

/// The lines `text_lines` gives are those `str::lines` gives: the text split
/// at each `\n`, a `\r` just before a `\n` dropped, and no empty line after
/// a final `\n`.
pub proof fn lemma_text_lines(s: Seq<char>)
    ensures
        exists|ends: Seq<int>| #[trigger] lines_split_at(s, 0, text_lines(s), ends),
{
    let ends = lemma_lines_from(s, 0);
    assert(lines_split_at(s, 0, text_lines(s), ends));
}

pub proof fn lemma_find_from_bounds(s: Seq<char>, c: char, i: int)
    requires
        0 <= i <= s.len(),
    ensures
        i <= find_from(s, c, i) <= s.len(),
        find_from(s, c, i) < s.len() ==> s[find_from(s, c, i)] == c,
        forall|q: int| i <= q < find_from(s, c, i) ==> s[q] != c,
    decreases s.len() - i,
{
    if i < s.len() && s[i] != c {
        lemma_find_from_bounds(s, c, i + 1);
    }
}

/// The characters of a string.
pub fn chars_of(s: &str) -> (v: Vec<char>)
    ensures
        v@ == s@,
{
    let n = s.unicode_len();
    let mut v: Vec<char> = Vec::new();
    let mut i: usize = 0;
    while i < n
        invariant
            n == s@.len(),
            i <= n,
            v@ == s@.subrange(0, i as int),
        decreases n - i,
    {
        v.push(s.get_char(i));
        i = i + 1;
    }
    v
}

/// The string of the characters `v[from..to]`.
pub fn string_of(v: &Vec<char>, from: usize, to: usize) -> (s: String)
    requires
        from <= to <= v.len(),
    ensures
        s@ == v@.subrange(from as int, to as int),
{
    let mut s = String::new();
    let mut i = from;
    while i < to
        invariant
            from <= i <= to <= v.len(),
            s@ == v@.subrange(from as int, i as int),
        decreases to - i,
    {
        push_char(&mut s, v[i]);
        i = i + 1;
    }
    s
}

/// Whether `s` begins with `p`.
pub fn has_prefix(s: &Vec<char>, p: &str) -> (r: bool)
    ensures
        r == starts_with(s@, p@),
{
    let n = p.unicode_len();
    if n > s.len() {
        return false;
    }
    let mut i: usize = 0;
    while i < n
        invariant
            n == p@.len(),
            n <= s.len(),
            i <= n,
            forall|j: int| 0 <= j < i ==> s@[j] == p@[j],
        decreases n - i,
    {
        if s[i] != p.get_char(i) {
            assert(s@.subrange(0, n as int)[i as int] != p@[i as int]);
            return false;
        }
        i = i + 1;
    }
    assert(s@.subrange(0, n as int) =~= p@);
    true
}

/// The index of the first `c` in `s` at or after `i`, or the length of `s`.
pub fn find_char_from(s: &Vec<char>, c: char, i: usize) -> (r: usize)
    requires
        i <= s.len(),
    ensures
        r == find_from(s@, c, i as int),
{
    let mut j = i;
    while j < s.len() && s[j] != c
        invariant
            i <= j <= s.len(),
            find_from(s@, c, i as int) == find_from(s@, c, j as int),
        decreases s.len() - j,
    {
        j = j + 1;
    }
    j
}

/// The index of the last `c` in `s`.
pub fn last_index_of_char(s: &Vec<char>, c: char) -> (r: Option<usize>)
    ensures
        r matches Some(p) ==> last_index_of(s@, c) == Some(p as int) && p < s.len(),
        r is None ==> last_index_of(s@, c) is None,
{
    let mut e = s.len();
    assert(s@.subrange(0, e as int) =~= s@);
    while e > 0 && s[e - 1] != c
        invariant
            e <= s.len(),
            last_index_of(s@, c) == last_index_of(s@.subrange(0, e as int), c),
        decreases e,
    {
        assert(s@.subrange(0, e as int).drop_last() =~= s@.subrange(0, e - 1));
        e = e - 1;
    }
    if e == 0 {
        assert(s@.subrange(0, 0) =~= Seq::<char>::empty());
        None
    } else {
        Some(e - 1)
    }
}

/// The length of `s` without the `c`s at its end.
pub fn trimmed_end_len(s: &Vec<char>, c: char) -> (e: usize)
    ensures
        e <= s.len(),
        trim_end(s@, c) == s@.subrange(0, e as int),
{
    let mut e = s.len();
    assert(s@.subrange(0, e as int) =~= s@);
    while e > 0 && s[e - 1] == c
        invariant
            e <= s.len(),
            trim_end(s@, c) == trim_end(s@.subrange(0, e as int), c),
        decreases e,
    {
        assert(s@.subrange(0, e as int).drop_last() =~= s@.subrange(0, e - 1));
        e = e - 1;
    }
    e
}

/// The lines of a text as `str::lines` gives them (see `text_lines`).
pub fn split_lines(s: &Vec<char>) -> (lines: Vec<Vec<char>>)
    ensures
        lines@.map_values(|l: Vec<char>| l@) == text_lines(s@),
{
    let mut lines: Vec<Vec<char>> = Vec::new();
    let mut i: usize = 0;
    while i < s.len()
        invariant
            i <= s.len(),
            text_lines(s@) == lines@.map_values(|l: Vec<char>| l@) + lines_from(s@, i as int),
        decreases s.len() - i,
    {
        let e = find_char_from(s, '\n', i);
        proof {
            lemma_find_from_bounds(s@, '\n', i as int);
        }
        let end = if e < s.len() && e > i && s[e - 1] == '\r' {
            e - 1
        } else {
            e
        };
        let mut line: Vec<char> = Vec::new();
        let mut k = i;
        while k < end
            invariant
                i <= k <= end <= s.len(),
                line@ == s@.subrange(i as int, k as int),
            decreases end - k,
        {
            line.push(s[k]);
            k = k + 1;
        }
        assert(line@ == line_at(s@, i as int, e as int));
        let ghost before = lines@;
        lines.push(line);
        assert(lines@.map_values(|l: Vec<char>| l@) =~= before.map_values(|l: Vec<char>| l@).push(
            line@,
        ));
        assert(lines_from(s@, i as int) == seq![line@] + lines_from(s@, e + 1));
        assert(text_lines(s@) =~= lines@.map_values(|l: Vec<char>| l@) + lines_from(
            s@,
            e + 1,
        ));
        if e < s.len() {
            i = e + 1;
        } else {
            assert(lines_from(s@, e + 1) =~= Seq::<Seq<char>>::empty());
            assert(lines_from(s@, s.len() as int) =~= Seq::<Seq<char>>::empty());
            i = s.len();
        }
    }
    assert(lines_from(s@, i as int) =~= Seq::<Seq<char>>::empty());
    lines
}

} // verus!

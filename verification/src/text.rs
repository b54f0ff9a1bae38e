//! Sequences of characters: where a pattern stands in a text, and how a text
//! falls into lines.

use vstd::prelude::*;

verus! {

/// `pat` stands in `s` at index `i`.
pub open spec fn has_at(s: Seq<char>, pat: Seq<char>, i: int) -> bool {
    0 <= i && i + pat.len() <= s.len() && s.subrange(i, i + pat.len()) == pat
}

/// `pat` stands somewhere in `s`.
pub open spec fn occurs(s: Seq<char>, pat: Seq<char>) -> bool {
    exists|i: int| has_at(s, pat, i)
}

/// The first index at or after `from` at which `pat` stands in `s`.
pub open spec fn find(s: Seq<char>, pat: Seq<char>, from: int) -> Option<int>
    decreases s.len() + 1 - from,
{
    if from < 0 || from + pat.len() > s.len() {
        None
    } else if has_at(s, pat, from) {
        Some(from)
    } else {
        find(s, pat, from + 1)
    }
}

/// The last index at or before `upto` at which `pat` stands in `s`.
pub open spec fn rfind(s: Seq<char>, pat: Seq<char>, upto: int) -> Option<int>
    decreases upto + 1,
{
    if upto < 0 {
        None
    } else if has_at(s, pat, upto) {
        Some(upto)
    } else {
        rfind(s, pat, upto - 1)
    }
}

/// How many characters stand before the first newline of `s`; its length
/// where it has none.
pub open spec fn first_line_len(s: Seq<char>) -> nat
    decreases s.len(),
{
    if s.len() == 0 || s[0] == '\n' {
        0
    } else {
        1 + first_line_len(s.drop_first())
    }
}

/// The lines of `s`: what stands between its newlines, in order. A text
/// without a newline is one line, and a text that ends in a newline has an
/// empty last line.
pub open spec fn lines(s: Seq<char>) -> Seq<Seq<char>>
    decreases s.len(),
{
    let n = first_line_len(s) as int;
    if n < s.len() {
        seq![s.take(n)] + lines(s.skip(n + 1))
    } else {
        seq![s]
    }
}

/// The text of the lines `ls`: the lines, with a newline between each two.
pub open spec fn unlines(ls: Seq<Seq<char>>) -> Seq<char>
    decreases ls.len(),
{
    if ls.len() == 0 {
        Seq::empty()
    } else if ls.len() == 1 {
        ls[0]
    } else {
        ls[0] + seq!['\n'] + unlines(ls.drop_first())
    }
}

/// What `find` returns is the first place at or after `from`, and it returns
/// one whenever there is such a place.
pub proof fn lemma_find(s: Seq<char>, pat: Seq<char>, from: int)
    requires
        0 <= from,
    ensures
        match find(s, pat, from) {
            Some(i) => from <= i && has_at(s, pat, i) && forall|j: int|
                from <= j < i ==> !has_at(s, pat, j),
            None => forall|j: int| from <= j ==> !has_at(s, pat, j),
        },
    decreases s.len() + 1 - from,
{
    if from + pat.len() > s.len() {
    } else if has_at(s, pat, from) {
    } else {
        lemma_find(s, pat, from + 1);
    }
}

/// What `rfind` returns is the last place at or before `upto`, and it returns
/// one whenever there is such a place.
pub proof fn lemma_rfind(s: Seq<char>, pat: Seq<char>, upto: int)
    ensures
        match rfind(s, pat, upto) {
            Some(i) => i <= upto && has_at(s, pat, i) && forall|j: int|
                i < j <= upto ==> !has_at(s, pat, j),
            None => forall|j: int| j <= upto ==> !has_at(s, pat, j),
        },
    decreases upto + 1,
{
    if upto < 0 {
    } else if has_at(s, pat, upto) {
    } else {
        lemma_rfind(s, pat, upto - 1);
    }
}

/// Where `pat` stands at `at` and nowhere from `from` up to `at`, `at` is
/// what `find` returns.
pub proof fn lemma_find_is(s: Seq<char>, pat: Seq<char>, from: int, at: int)
    requires
        0 <= from <= at,
        has_at(s, pat, at),
        forall|n: int| from <= n < at ==> !has_at(s, pat, n),
    ensures
        find(s, pat, from) == Some(at),
{
    lemma_find(s, pat, from);
}

/// A pattern does not stand where its first character does not.
pub proof fn lemma_not_at(s: Seq<char>, pat: Seq<char>, n: int)
    requires
        pat.len() > 0,
        0 <= n < s.len() ==> s[n] != pat[0],
    ensures
        !has_at(s, pat, n),
{
    if has_at(s, pat, n) {
        assert(s.subrange(n, n + pat.len())[0] == s[n]);
    }
}

/// A one-character pattern stands where that character stands.
pub proof fn lemma_has_char_at(s: Seq<char>, c: char, i: int)
    ensures
        has_at(s, seq![c], i) <==> (0 <= i < s.len() && s[i] == c),
{
    if 0 <= i < s.len() {
        if s[i] == c {
            assert(s.subrange(i, i + 1) =~= seq![c]);
        } else {
            assert(s.subrange(i, i + 1)[0] == s[i]);
        }
    }
}

/// The first line holds no newline, and it ends at a newline or where the
/// text ends.
pub proof fn lemma_first_line(s: Seq<char>)
    ensures
        first_line_len(s) <= s.len(),
        forall|j: int| 0 <= j < first_line_len(s) ==> s[j] != '\n',
        first_line_len(s) < s.len() ==> s[first_line_len(s) as int] == '\n',
    decreases s.len(),
{
    if s.len() > 0 && s[0] != '\n' {
        let rest = s.drop_first();
        lemma_first_line(rest);
        assert forall|j: int| 0 <= j < first_line_len(s) implies s[j] != '\n' by {
            if j > 0 {
                assert(s[j] == rest[j - 1]);
            }
        }
        if first_line_len(s) < s.len() {
            assert(s[first_line_len(s) as int] == rest[first_line_len(rest) as int]);
        }
    }
}

/// A text has at least one line, no line holds a newline, and the lines
/// with a newline between each two are the text again.
pub proof fn lemma_lines(s: Seq<char>)
    ensures
        lines(s).len() > 0,
        forall|i: int| 0 <= i < lines(s).len() ==> !(#[trigger] lines(s)[i]).contains('\n'),
        unlines(lines(s)) == s,
    decreases s.len(),
{
    let n = first_line_len(s) as int;
    lemma_first_line(s);
    if n < s.len() {
        let rest = lines(s.skip(n + 1));
        lemma_lines(s.skip(n + 1));
        assert(lines(s).drop_first() =~= rest);
        assert(s.take(n) + seq!['\n'] + s.skip(n + 1) =~= s);
        assert forall|i: int| 0 <= i < lines(s).len() implies !(#[trigger] lines(s)[i]).contains(
            '\n',
        ) by {
            if i > 0 {
                assert(lines(s)[i] == rest[i - 1]);
            }
        }
    }
}

/// The first line ends at the first newline, or where the text ends.
pub proof fn lemma_first_line_len(s: Seq<char>, n: int)
    requires
        0 <= n <= s.len(),
        forall|j: int| 0 <= j < n ==> s[j] != '\n',
        n < s.len() ==> s[n] == '\n',
    ensures
        first_line_len(s) == n,
    decreases n,
{
    if n > 0 {
        lemma_first_line_len(s.drop_first(), n - 1);
    }
}

/// A text falls into the lines that it was put together from.
pub proof fn lemma_lines_of_unlines(ls: Seq<Seq<char>>)
    requires
        ls.len() > 0,
        forall|i: int| 0 <= i < ls.len() ==> !(#[trigger] ls[i]).contains('\n'),
    ensures
        lines(unlines(ls)) == ls,
    decreases ls.len(),
{
    let s = unlines(ls);
    let n = ls[0].len() as int;
    assert(!ls[0].contains('\n'));
    if ls.len() == 1 {
        lemma_first_line_len(s, n);
        assert(lines(s) =~= ls);
    } else {
        let rest = ls.drop_first();
        assert forall|i: int| 0 <= i < rest.len() implies !(#[trigger] rest[i]).contains('\n') by {
            assert(rest[i] == ls[i + 1]);
        }
        lemma_lines_of_unlines(rest);
        assert forall|j: int| 0 <= j < n implies s[j] != '\n' by {
            assert(s[j] == ls[0][j]);
        }
        lemma_first_line_len(s, n);
        assert(s.take(n) =~= ls[0]);
        assert(s.skip(n + 1) =~= unlines(rest));
        assert(lines(s) =~= ls);
    }
}

/// In `a + p + b`, the part `p` stands right after `a`.
pub proof fn lemma_has_at_middle(a: Seq<char>, p: Seq<char>, b: Seq<char>)
    ensures
        has_at(a + p + b, p, a.len() as int),
        occurs(a + p + b, p),
{
    assert((a + p + b).subrange(a.len() as int, (a.len() + p.len()) as int) =~= p);
}

/// What stands in `s` stands in `a + s + b` too, `a.len()` places further on.
pub proof fn lemma_has_at_inside(a: Seq<char>, s: Seq<char>, b: Seq<char>, p: Seq<char>, i: int)
    requires
        has_at(s, p, i),
    ensures
        has_at(a + s + b, p, a.len() + i),
{
    assert((a + s + b).subrange(a.len() + i, a.len() + i + p.len()) =~= s.subrange(
        i,
        i + p.len(),
    ));
}

/// What stands in `x` stands in `x + y` too, and so does `y`.
pub proof fn lemma_occurs_append(x: Seq<char>, y: Seq<char>)
    ensures
        forall|p: Seq<char>| #[trigger] occurs(x, p) ==> occurs(x + y, p),
        occurs(x + y, y),
        occurs(x, x),
{
    let e = Seq::<char>::empty();
    assert forall|p: Seq<char>| #[trigger] occurs(x, p) implies occurs(x + y, p) by {
        let i = choose|i: int| has_at(x, p, i);
        lemma_has_at_inside(e, x, y, p, i);
        assert(e + x + y =~= x + y);
    }
    lemma_has_at_middle(x, y, e);
    assert(x + y + e =~= x + y);
    lemma_has_at_middle(e, x, e);
    assert(e + x + e =~= x);
}

/// Where a pattern stands, each pattern that it begins with stands too.
pub proof fn lemma_has_at_prefix(s: Seq<char>, pat: Seq<char>, head: Seq<char>, i: int)
    requires
        has_at(s, pat, i),
        head.is_prefix_of(pat),
    ensures
        has_at(s, head, i),
{
    assert(s.subrange(i, i + head.len()) =~= s.subrange(i, i + pat.len()).subrange(
        0,
        head.len() as int,
    ));
}

/// The characters of `s`, in order.
pub fn to_chars(s: &str) -> (v: Vec<char>)
    ensures
        v@ == s@,
{
    let mut v: Vec<char> = Vec::new();
    let chars = s.chars();
    for c in it: chars
        invariant
            it.seq() == s@,
            v@ == it.seq().take(it.index()),
    {
        v.push(c);
    }
    v
}

/// The lines of `s`, each as its characters.
pub fn split_lines(s: &str) -> (r: Vec<Vec<char>>)
    ensures
        r@.map_values(|l: Vec<char>| l@) == lines(s@),
{
    let mut done: Vec<Vec<char>> = Vec::new();
    let mut line: Vec<char> = Vec::new();
    let ghost start: int = 0;
    proof {
        assert(s@.skip(0) =~= s@);
        assert(done@.map_values(|l: Vec<char>| l@) + lines(s@) =~= lines(s@));
    }
    let chars = s.chars();
    for c in it: chars
        invariant
            it.seq() == s@,
            0 <= start <= it.index(),
            line@ == s@.subrange(start, it.index()),
            forall|j: int| 0 <= j < line@.len() ==> line@[j] != '\n',
            lines(s@) == done@.map_values(|l: Vec<char>| l@) + lines(s@.skip(start)),
    {
        let ghost i = it.index();
        let ghost rest = s@.skip(start);
        if c == '\n' {
            proof {
                assert forall|j: int| 0 <= j < i - start implies rest[j] != '\n' by {
                    assert(rest[j] == line@[j]);
                }
                lemma_first_line_len(rest, i - start);
                assert(rest.take(i - start) =~= line@);
                assert(rest.skip(i - start + 1) =~= s@.skip(i + 1));
                assert(done@.push(line).map_values(|l: Vec<char>| l@) =~= done@.map_values(
                    |l: Vec<char>| l@,
                ) + seq![line@]);
                start = i + 1;
            }
            done.push(line);
            line = Vec::new();
            assert(line@ =~= s@.subrange(start, i + 1));
        } else {
            line.push(c);
            assert(line@ =~= s@.subrange(start, i + 1));
        }
    }
    proof {
        let rest = s@.skip(start);
        assert(rest =~= line@);
        lemma_first_line_len(rest, rest.len() as int);
        assert(done@.push(line).map_values(|l: Vec<char>| l@) =~= done@.map_values(
            |l: Vec<char>| l@,
        ) + seq![line@]);
    }
    done.push(line);
    done
}

/// Whether `pat` stands in `s` at index `i`.
pub fn stands_at(s: &Vec<char>, pat: &Vec<char>, i: usize) -> (r: bool)
    ensures
        r == has_at(s@, pat@, i as int),
{
    if pat.len() > s.len() || i > s.len() - pat.len() {
        return false;
    }
    let mut k: usize = 0;
    while k < pat.len()
        invariant
            k <= pat.len(),
            i + pat.len() <= s.len(),
            forall|j: int| 0 <= j < k ==> s@[i + j] == pat@[j],
        decreases pat.len() - k,
    {
        if s[i + k] != pat[k] {
            proof {
                let sub = s@.subrange(i as int, i + pat@.len());
                assert(sub[k as int] == s@[i + k]);
            }
            return false;
        }
        k += 1;
    }
    assert(s@.subrange(i as int, i + pat@.len()) =~= pat@);
    true
}

/// The first index at or after `from` at which `pat` stands in `s`.
pub fn find_from(s: &Vec<char>, pat: &Vec<char>, from: usize) -> (r: Option<usize>)
    ensures
        match r {
            Some(i) => find(s@, pat@, from as int) == Some(i as int) && i + pat@.len() <= s@.len(),
            None => find(s@, pat@, from as int) is None,
        },
{
    if pat.len() > s.len() || from > s.len() - pat.len() {
        return None;
    }
    let last: usize = s.len() - pat.len();
    let mut i: usize = from;
    loop
        invariant
            from <= i <= last,
            last == s.len() - pat.len(),
            find(s@, pat@, from as int) == find(s@, pat@, i as int),
        decreases last - i,
    {
        if stands_at(s, pat, i) {
            return Some(i);
        }
        if i == last {
            assert(find(s@, pat@, i + 1) is None);
            return None;
        }
        i += 1;
    }
}

/// The last index at or before `upto` at which `pat` stands in `s`.
pub fn rfind_upto(s: &Vec<char>, pat: &Vec<char>, upto: usize) -> (r: Option<usize>)
    ensures
        match r {
            Some(i) => rfind(s@, pat@, upto as int) == Some(i as int) && i <= upto && i
                + pat@.len() <= s@.len(),
            None => rfind(s@, pat@, upto as int) is None,
        },
{
    if pat.len() > s.len() {
        proof {
            lemma_rfind(s@, pat@, upto as int);
        }
        return None;
    }
    let last: usize = s.len() - pat.len();
    let mut i: usize = if upto < last {
        upto
    } else {
        last
    };
    proof {
        lemma_rfind(s@, pat@, upto as int);
        lemma_rfind(s@, pat@, i as int);
    }
    loop
        invariant
            i <= upto,
            rfind(s@, pat@, upto as int) == rfind(s@, pat@, i as int),
        decreases i,
    {
        if stands_at(s, pat, i) {
            return Some(i);
        }
        if i == 0 {
            assert(rfind(s@, pat@, -1) is None);
            return None;
        }
        i -= 1;
    }
}

/// The characters of `s` from `start` up to `end`, as a string.
pub fn string_of(s: &Vec<char>, start: usize, end: usize) -> (r: String)
    requires
        start <= end <= s@.len(),
    ensures
        r@ == s@.subrange(start as int, end as int),
{
    let mut r = String::new();
    let mut i: usize = start;
    while i < end
        invariant
            start <= i <= end <= s@.len(),
            r@ == s@.subrange(start as int, i as int),
        decreases end - i,
    {
        r.push(s[i]);
        assert(s@.subrange(start as int, i + 1) =~= s@.subrange(start as int, i as int).push(
            s@[i as int],
        ));
        i += 1;
    }
    r
}

/// `String::push` of std: the character is appended, and nothing else
/// changes.
pub assume_specification[ String::push ](s: &mut String, ch: char)
    ensures
        final(s)@ == old(s)@.push(ch),
;

} // verus!

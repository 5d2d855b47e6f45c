//! Text as sequences of characters.

use crate::number::ascii_lower_all;
use crate::unicode::{is_space, is_space_char};
use vstd::prelude::*;

verus! {

/// `String::push` appends one character.
pub assume_specification[ String::push ](s: &mut String, c: char)
    ensures
        final(s)@ == old(s)@.push(c),
;

/// `str::eq` holds exactly of equal character sequences.
pub assume_specification[ <str as PartialEq<str>>::eq ](a: &str, b: &str) -> (r: bool)
    ensures
        r == (a@ == b@),
;

/// Whether two texts hold the same characters.
pub fn same(a: &str, b: &str) -> (r: bool)
    ensures
        r == (a@ == b@),
{
    *a == *b
}

/// The characters of a text.
pub fn chars_of(s: &str) -> (r: Vec<char>)
    ensures
        r@ == s@,
{
    let mut out: Vec<char> = Vec::new();
    for c in it: s.chars()
        invariant
            out@ == s@.take(it.index() as int),
            it.seq() == s@,
    {
        out.push(c);
        assert(s@.take(it.index() + 1) == s@.take(it.index() as int).push(c));
    }
    assert(s@.take(s@.len() as int) == s@);
    out
}

/// How many characters of which `p` holds `s` starts with.
pub open spec fn leading(s: Seq<char>, p: spec_fn(char) -> bool) -> nat
    decreases s.len(),
{
    if s.len() > 0 && p(s[0]) {
        1 + leading(s.skip(1), p)
    } else {
        0
    }
}

pub proof fn lemma_leading(s: Seq<char>, p: spec_fn(char) -> bool)
    ensures
        leading(s, p) <= s.len(),
        forall|i: int| 0 <= i < leading(s, p) ==> p(#[trigger] s[i]),
        leading(s, p) < s.len() ==> !p(s[leading(s, p) as int]),
    decreases s.len(),
{
    if s.len() > 0 && p(s[0]) {
        lemma_leading(s.skip(1), p);
        assert forall|i: int| 0 <= i < leading(s, p) implies p(#[trigger] s[i]) by {
            if i > 0 {
                assert(s.skip(1)[i - 1] == s[i]);
            }
        }
    }
}

/// How many characters of which `p` holds `s` ends with.
pub open spec fn trailing(s: Seq<char>, p: spec_fn(char) -> bool) -> nat
    decreases s.len(),
{
    if s.len() > 0 && p(s.last()) {
        1 + trailing(s.drop_last(), p)
    } else {
        0
    }
}

pub proof fn lemma_trailing(s: Seq<char>, p: spec_fn(char) -> bool)
    ensures
        trailing(s, p) <= s.len(),
        forall|i: int| s.len() - trailing(s, p) <= i < s.len() ==> p(#[trigger] s[i]),
        trailing(s, p) < s.len() ==> !p(s[s.len() - trailing(s, p) - 1]),
    decreases s.len(),
{
    if s.len() > 0 && p(s.last()) {
        lemma_trailing(s.drop_last(), p);
        assert forall|i: int| s.len() - trailing(s, p) <= i < s.len() implies p(
            #[trigger] s[i],
        ) by {
            if i < s.len() - 1 {
                assert(s.drop_last()[i] == s[i]);
            }
        }
    }
}

/// The number of leading characters is given by any row of them that no further one follows.
pub proof fn lemma_leading_is(s: Seq<char>, p: spec_fn(char) -> bool, k: nat)
    requires
        k <= s.len(),
        forall|i: int| 0 <= i < k ==> p(#[trigger] s[i]),
        k < s.len() ==> !p(s[k as int]),
    ensures
        leading(s, p) == k,
{
    lemma_leading(s, p);
    if leading(s, p) < k {
        assert(p(s[leading(s, p) as int]));
    }
}

/// The number of trailing characters is given by any row of them that no further one precedes.
pub proof fn lemma_trailing_is(s: Seq<char>, p: spec_fn(char) -> bool, k: nat)
    requires
        k <= s.len(),
        forall|i: int| s.len() - k <= i < s.len() ==> p(#[trigger] s[i]),
        k < s.len() ==> !p(s[s.len() - k - 1]),
    ensures
        trailing(s, p) == k,
{
    lemma_trailing(s, p);
    if trailing(s, p) < k {
        assert(p(s[s.len() - trailing(s, p) - 1]));
    }
}

/// `s` without the white space at its ends.
pub open spec fn trimmed(s: Seq<char>) -> Seq<char> {
    let front = s.skip(leading(s, |c: char| is_space(c)) as int);
    front.take(front.len() - trailing(front, |c: char| is_space(c)))
}

/// A text without white space at its ends is left as it is.
pub proof fn lemma_trimmed_is(s: Seq<char>)
    requires
        s.len() > 0,
        !is_space(s[0]),
        !is_space(s.last()),
    ensures
        trimmed(s) == s,
{
    let p = |c: char| is_space(c);
    lemma_leading_is(s, p, 0);
    assert(s.skip(0) =~= s);
    lemma_trailing_is(s, p, 0);
    assert(s.take(s.len() as int) =~= s);
}

/// The predicate that holds of `mark` alone.
pub open spec fn only(mark: char) -> spec_fn(char) -> bool {
    |c: char| c == mark
}

/// `s` without the characters `mark` at its end.
pub open spec fn trimmed_end(s: Seq<char>, mark: char) -> Seq<char> {
    s.take(s.len() - trailing(s, only(mark)))
}

/// `text` without the white space at its ends.
pub fn trim(text: &str) -> (r: String)
    ensures
        r@ == trimmed(text@),
{
    let v = chars_of(text);
    let n: usize = v.len();
    let ghost p = |c: char| is_space(c);
    let mut i: usize = 0;
    while i < n && is_space_char(v[i])
        invariant
            i <= n == v@.len(),
            forall|k: int| 0 <= k < i ==> is_space(#[trigger] v@[k]),
        decreases n - i,
    {
        i = i + 1;
    }
    proof {
        lemma_leading_is(v@, p, i as nat);
    }
    let mut j: usize = n;
    while j > i && is_space_char(v[j - 1])
        invariant
            i <= j <= n == v@.len(),
            forall|k: int| j <= k < n ==> is_space(#[trigger] v@[k]),
        decreases j,
    {
        j = j - 1;
    }
    proof {
        let front = v@.skip(i as int);
        assert forall|k: int| front.len() - (n - j) <= k < front.len() implies p(
            #[trigger] front[k],
        ) by {
            assert(is_space(v@[i + k]));
        }
        lemma_trailing_is(front, p, (n - j) as nat);
        assert(front.take(front.len() - (n - j)) =~= v@.subrange(i as int, j as int));
    }
    text_between(&v, i, j)
}

/// The text of the characters at `from .. to`.
pub fn text_between(v: &Vec<char>, from: usize, to: usize) -> (r: String)
    requires
        from <= to <= v@.len(),
    ensures
        r@ == v@.subrange(from as int, to as int),
{
    let mut out = String::new();
    let mut i: usize = from;
    assert(v@.subrange(from as int, from as int) =~= Seq::<char>::empty());
    while i < to
        invariant
            from <= i <= to <= v@.len(),
            out@ == v@.subrange(from as int, i as int),
        decreases to - i,
    {
        out.push(v[i]);
        assert(v@.subrange(from as int, i + 1) =~= v@.subrange(from as int, i as int).push(
            v@[i as int],
        ));
        i = i + 1;
    }
    out
}

/// `text` without the characters `mark` at its end.
pub fn trim_end(text: &str, mark: char) -> (r: String)
    ensures
        r@ == trimmed_end(text@, mark),
{
    let v = chars_of(text);
    let n: usize = v.len();
    let mut j: usize = n;
    while j > 0 && v[j - 1] == mark
        invariant
            j <= n == v@.len(),
            forall|k: int| j <= k < n ==> #[trigger] v@[k] == mark,
        decreases j,
    {
        j = j - 1;
    }
    proof {
        lemma_trailing_is(v@, only(mark), (n - j) as nat);
        assert(v@.subrange(0, j as int) =~= v@.take(j as int));
    }
    text_between(&v, 0, j)
}

/// Whether `part` stands in `s` at position `i`.
pub open spec fn occurs_at(s: Seq<char>, i: int, part: Seq<char>) -> bool {
    0 <= i && i + part.len() <= s.len() && s.subrange(i, i + part.len()) == part
}

/// Whether `part` stands somewhere in `s`.
pub open spec fn contains_text(s: Seq<char>, part: Seq<char>) -> bool {
    exists|i: int| occurs_at(s, i, part)
}

/// Whether the characters `part` stand in `v` at position `i`.
pub fn stands_at(v: &Vec<char>, i: usize, part: &Vec<char>) -> (r: bool)
    ensures
        r == occurs_at(v@, i as int, part@),
{
    let n: usize = v.len();
    let m: usize = part.len();
    if i > n || n - i < m {
        return false;
    }
    let mut k: usize = 0;
    while k < m
        invariant
            n == v@.len(),
            m == part@.len(),
            i + m <= n,
            k <= m,
            forall|j: int| 0 <= j < k ==> v@[i + j] == part@[j],
        decreases m - k,
    {
        if v[i + k] != part[k] {
            assert(v@.subrange(i as int, i + m)[k as int] != part@[k as int]);
            return false;
        }
        k = k + 1;
    }
    assert(v@.subrange(i as int, i + m) =~= part@);
    true
}

/// Where `part` first stands in `v` at or behind position `from`.
pub fn position_of(v: &Vec<char>, part: &Vec<char>, from: usize) -> (r: Option<usize>)
    requires
        from <= v@.len(),
    ensures
        match r {
            Some(i) => from <= i && occurs_at(v@, i as int, part@) && forall|j: int|
                from <= j < i ==> !occurs_at(v@, j, part@),
            None => forall|j: int| from <= j ==> !occurs_at(v@, j, part@),
        },
{
    let n: usize = v.len();
    let mut i: usize = from;
    loop
        invariant
            from <= i <= n == v@.len(),
            forall|j: int| from <= j < i ==> !occurs_at(v@, j, part@),
        decreases n - i,
    {
        if stands_at(v, i, part) {
            return Some(i);
        }
        if i == n {
            return None;
        }
        i = i + 1;
    }
}

/// Whether `part` stands somewhere in `text`.
pub fn contains(text: &str, part: &str) -> (r: bool)
    ensures
        r == contains_text(text@, part@),
{
    let v = chars_of(text);
    let w = chars_of(part);
    match position_of(&v, &w, 0) {
        Some(i) => {
            assert(occurs_at(text@, i as int, part@));
            true
        },
        None => false,
    }
}

/// Two texts in a row.
pub fn cat2(a: &str, b: &str) -> (r: String)
    ensures
        r@ == a@ + b@,
{
    let mut out = String::from_str(a);
    out.append(b);
    out
}

/// Three texts in a row.
pub fn cat3(a: &str, b: &str, c: &str) -> (r: String)
    ensures
        r@ == a@ + b@ + c@,
{
    let mut out = String::from_str(a);
    out.append(b);
    out.append(c);
    out
}

/// Four texts in a row.
pub fn cat4(a: &str, b: &str, c: &str, d: &str) -> (r: String)
    ensures
        r@ == a@ + b@ + c@ + d@,
{
    let mut out = String::from_str(a);
    out.append(b);
    out.append(c);
    out.append(d);
    out
}

/// Five texts in a row.
pub fn cat5(a: &str, b: &str, c: &str, d: &str, e: &str) -> (r: String)
    ensures
        r@ == a@ + b@ + c@ + d@ + e@,
{
    let mut out = String::from_str(a);
    out.append(b);
    out.append(c);
    out.append(d);
    out.append(e);
    out
}

/// Six texts in a row.
pub fn cat6(a: &str, b: &str, c: &str, d: &str, e: &str, f: &str) -> (r: String)
    ensures
        r@ == a@ + b@ + c@ + d@ + e@ + f@,
{
    let mut out = String::from_str(a);
    out.append(b);
    out.append(c);
    out.append(d);
    out.append(e);
    out.append(f);
    out
}

/// Seven texts in a row.
pub fn cat7(a: &str, b: &str, c: &str, d: &str, e: &str, f: &str, g: &str) -> (r: String)
    ensures
        r@ == a@ + b@ + c@ + d@ + e@ + f@ + g@,
{
    let mut out = String::from_str(a);
    out.append(b);
    out.append(c);
    out.append(d);
    out.append(e);
    out.append(f);
    out.append(g);
    out
}

/// `n` times the character `c`.
pub open spec fn repeated(c: char, n: nat) -> Seq<char> {
    Seq::new(n, |i: int| c)
}

/// `n` times the character `c`.
pub fn repeat(c: char, n: usize) -> (r: String)
    ensures
        r@ == repeated(c, n as nat),
{
    let mut out = String::new();
    for i in 0..n
        invariant
            out@ == repeated(c, i as nat),
    {
        out.push(c);
        assert(out@ =~= repeated(c, (i + 1) as nat));
    }
    out
}

/// Where `part` first stands in `s` at or behind position `i`.
pub open spec fn find_from(s: Seq<char>, part: Seq<char>, i: int) -> Option<int>
    decreases s.len() - i,
{
    if i + part.len() > s.len() {
        None
    } else if occurs_at(s, i, part) {
        Some(i)
    } else if i >= s.len() {
        None
    } else {
        find_from(s, part, i + 1)
    }
}

pub proof fn lemma_find_from(s: Seq<char>, part: Seq<char>, i: int)
    requires
        0 <= i,
    ensures
        match find_from(s, part, i) {
            Some(k) => i <= k && occurs_at(s, k, part) && forall|j: int|
                i <= j < k ==> !occurs_at(s, j, part),
            None => forall|j: int| i <= j ==> !occurs_at(s, j, part),
        },
    decreases s.len() - i,
{
    if i + part.len() <= s.len() && !occurs_at(s, i, part) && i < s.len() {
        lemma_find_from(s, part, i + 1);
    }
}

/// Where `part` first stands in `v` at or behind position `from`.
pub fn find_part(v: &Vec<char>, part: &str, from: usize) -> (r: Option<usize>)
    requires
        from <= v@.len(),
    ensures
        match r {
            Some(i) => find_from(v@, part@, from as int) == Some(i as int) && from <= i && i
                + part@.len() <= v@.len(),
            None => find_from(v@, part@, from as int) is None,
        },
{
    let w = chars_of(part);
    let r = position_of(v, &w, from);
    proof {
        lemma_find_from(v@, part@, from as int);
        match find_from(v@, part@, from as int) {
            Some(k) => {
                assert(occurs_at(v@, k, part@));
            },
            None => {},
        }
    }
    r
}

/// Where `mark` last stands in `s`.
pub open spec fn last_index(s: Seq<char>, mark: char) -> Option<int>
    decreases s.len(),
{
    if s.len() == 0 {
        None
    } else if s.last() == mark {
        Some(s.len() - 1)
    } else {
        last_index(s.drop_last(), mark)
    }
}

/// Where `mark` last stands in `v`.
pub fn find_last(v: &Vec<char>, mark: char) -> (r: Option<usize>)
    ensures
        match r {
            Some(i) => last_index(v@, mark) == Some(i as int) && i < v@.len(),
            None => last_index(v@, mark) is None,
        },
{
    let mut j: usize = v.len();
    assert(v@.take(j as int) =~= v@);
    while j > 0
        invariant
            j <= v@.len(),
            last_index(v@, mark) == last_index(v@.take(j as int), mark),
        decreases j,
    {
        if v[j - 1] == mark {
            return Some(j - 1);
        }
        assert(v@.take(j as int).drop_last() =~= v@.take(j - 1));
        j = j - 1;
    }
    None
}

/// Where `mark` first stands in `s`.
pub open spec fn first_index(s: Seq<char>, mark: char) -> Option<int> {
    find_from(s, seq![mark], 0)
}

/// Where `mark` first stands in `v`.
pub fn find_first(v: &Vec<char>, mark: char) -> (r: Option<usize>)
    ensures
        match r {
            Some(i) => first_index(v@, mark) == Some(i as int) && i < v@.len(),
            None => first_index(v@, mark) is None,
        },
{
    let mut w: Vec<char> = Vec::new();
    w.push(mark);
    assert(w@ =~= seq![mark]);
    let r = position_of(v, &w, 0);
    proof {
        lemma_find_from(v@, seq![mark], 0);
    }
    r
}

/// Whether `s` starts with `part`.
pub open spec fn starts_with(s: Seq<char>, part: Seq<char>) -> bool {
    occurs_at(s, 0, part)
}

/// Whether `s` ends with `part`.
pub open spec fn ends_with(s: Seq<char>, part: Seq<char>) -> bool {
    occurs_at(s, s.len() - part.len(), part)
}

/// Whether `text` starts with `part`.
pub fn has_prefix(text: &str, part: &str) -> (r: bool)
    ensures
        r == starts_with(text@, part@),
{
    let v = chars_of(text);
    let w = chars_of(part);
    stands_at(&v, 0, &w)
}

/// Whether `text` ends with `part`.
pub fn has_suffix(text: &str, part: &str) -> (r: bool)
    ensures
        r == ends_with(text@, part@),
{
    let v = chars_of(text);
    let w = chars_of(part);
    if w.len() > v.len() {
        false
    } else {
        stands_at(&v, v.len() - w.len(), &w)
    }
}

/// `s` with `new` in place of each `part`, from left to right.
pub open spec fn replaced(s: Seq<char>, part: Seq<char>, new: Seq<char>) -> Seq<char>
    decreases s.len(),
{
    if part.len() == 0 {
        s
    } else {
        match find_from(s, part, 0) {
            Some(i) => if 0 <= i && i + part.len() <= s.len() {
                s.take(i) + new + replaced(s.skip(i + part.len()), part, new)
            } else {
                s
            },
            None => s,
        }
    }
}

/// `text` with `new` in place of each `part`, from left to right.
pub fn replace(text: &str, part: &str, new: &str) -> (r: String)
    requires
        part@.len() > 0,
    ensures
        r@ == replaced(text@, part@, new@),
{
    let v = chars_of(text);
    let n: usize = v.len();
    let w = chars_of(part);
    let m: usize = w.len();
    let mut out = String::new();
    let mut from: usize = 0;
    assert(v@.skip(0) =~= v@);
    assert(out@ + replaced(v@.skip(0), part@, new@) =~= replaced(text@, part@, new@));
    loop
        invariant
            v@ == text@,
            n == v@.len(),
            w@ == part@,
            m == w@.len(),
            m > 0,
            from <= n,
            out@ + replaced(v@.skip(from as int), part@, new@) == replaced(text@, part@, new@),
        decreases n - from,
    {
        let ghost rest = v@.skip(from as int);
        proof {
            lemma_find_from(rest, part@, 0);
        }
        match position_of(&v, &w, from) {
            Some(i) => {
                proof {
                    lemma_shifted(v@, from as int, part@);
                    let k = find_from(rest, part@, 0);
                    assert(occurs_at(rest, i - from, part@));
                    assert(k == Some(i - from)) by {
                        match k {
                            Some(j) => {
                                if j < i - from {
                                    assert(occurs_at(v@, from + j, part@));
                                }
                                if j > i - from {
                                    assert(!occurs_at(rest, i - from, part@));
                                }
                            },
                            None => {
                                assert(!occurs_at(rest, i - from, part@));
                            },
                        }
                    }
                    assert(rest.take(i - from) =~= v@.subrange(from as int, i as int));
                    assert(rest.skip(i - from + m) =~= v@.skip(i + m));
                }
                let ghost head = out@;
                let piece = text_between(&v, from, i);
                out.append(piece.as_str());
                out.append(new);
                assert(out@ + replaced(v@.skip(i + m), part@, new@) =~= head + (rest.take(i - from)
                    + new@ + replaced(rest.skip(i - from + m), part@, new@)));
                from = i + m;
            },
            None => {
                proof {
                    lemma_shifted(v@, from as int, part@);
                    match find_from(rest, part@, 0) {
                        Some(j) => {
                            assert(occurs_at(v@, from + j, part@));
                        },
                        None => {},
                    }
                    assert(v@.subrange(from as int, n as int) =~= rest);
                }
                let piece = text_between(&v, from, n);
                out.append(piece.as_str());
                return out;
            },
        }
    }
}

/// A part stands at a place of the rest exactly where it stands at the shifted place of the whole.
proof fn lemma_shifted(s: Seq<char>, from: int, part: Seq<char>)
    requires
        0 <= from <= s.len(),
    ensures
        forall|j: int|
            0 <= j ==> (#[trigger] occurs_at(s.skip(from), j, part) <==> occurs_at(
                s,
                from + j,
                part,
            )),
{
    assert forall|j: int| 0 <= j implies (#[trigger] occurs_at(s.skip(from), j, part)
        <==> occurs_at(s, from + j, part)) by {
        if j + part.len() <= s.len() - from {
            assert(s.skip(from).subrange(j, j + part.len()) =~= s.subrange(
                from + j,
                from + j + part.len(),
            ));
        }
    }
}

/// `s` without the characters `mark` at its start.
pub open spec fn trimmed_start(s: Seq<char>, mark: char) -> Seq<char> {
    s.skip(leading(s, only(mark)) as int)
}

/// `text` without the characters `mark` at its start.
pub fn trim_start(text: &str, mark: char) -> (r: String)
    ensures
        r@ == trimmed_start(text@, mark),
{
    let v = chars_of(text);
    let n: usize = v.len();
    let mut i: usize = 0;
    while i < n && v[i] == mark
        invariant
            i <= n == v@.len(),
            forall|k: int| 0 <= k < i ==> #[trigger] v@[k] == mark,
        decreases n - i,
    {
        i = i + 1;
    }
    proof {
        lemma_leading_is(v@, only(mark), i as nat);
        assert(v@.subrange(i as int, n as int) =~= v@.skip(i as int));
    }
    text_between(&v, i, n)
}

/// A line without the carriage return at its end.
pub open spec fn without_return(s: Seq<char>) -> Seq<char> {
    if s.len() > 0 && s.last() == '\r' {
        s.drop_last()
    } else {
        s
    }
}

/// The lines of a text. A line feed, or a carriage return with a line feed, ends a line.
pub open spec fn lines_of(s: Seq<char>) -> Seq<Seq<char>>
    decreases s.len(),
{
    if s.len() == 0 {
        Seq::empty()
    } else {
        match first_index(s, '\n') {
            Some(k) => if 0 <= k < s.len() {
                seq![without_return(s.take(k))] + lines_of(s.skip(k + 1))
            } else {
                seq![s]
            },
            None => seq![s],
        }
    }
}

/// The lines of a text.
pub fn split_lines(text: &str) -> (r: Vec<String>)
    ensures
        r.deep_view() == lines_of(text@),
{
    let v = chars_of(text);
    let n: usize = v.len();
    let mut out: Vec<String> = Vec::new();
    let mut from: usize = 0;
    assert(v@.skip(0) =~= v@);
    assert(out.deep_view() + lines_of(v@.skip(0)) =~= lines_of(text@));
    while from < n
        invariant
            v@ == text@,
            n == v@.len(),
            from <= n,
            out.deep_view() + lines_of(v@.skip(from as int)) == lines_of(text@),
        decreases n - from,
    {
        let ghost rest = v@.skip(from as int);
        let ghost head = out.deep_view();
        let mut to: usize = from;
        while to < n && v[to] != '\n'
            invariant
                n == v@.len(),
                from <= to <= n,
                forall|k: int| from <= k < to ==> #[trigger] v@[k] != '\n',
            decreases n - to,
        {
            to = to + 1;
        }
        proof {
            let mark = seq!['\n'];
            lemma_find_from(rest, mark, 0);
            assert forall|j: int| 0 <= j < to - from implies !occurs_at(rest, j, mark) by {
                if occurs_at(rest, j, mark) {
                    assert(rest.subrange(j, j + 1)[0] == mark[0]);
                    assert(v@[from + j] == '\n');
                }
            }
            if to < n {
                assert(rest.subrange(to - from, to - from + 1) =~= mark);
                assert(occurs_at(rest, to - from, mark));
                assert(first_index(rest, '\n') == Some(to - from));
                assert(rest.take(to - from) =~= v@.subrange(from as int, to as int));
                assert(rest.skip(to - from + 1) =~= v@.skip(to + 1));
            } else {
                match first_index(rest, '\n') {
                    Some(k) => {
                        assert(occurs_at(rest, k, mark));
                    },
                    None => {},
                }
                assert(rest =~= v@.subrange(from as int, n as int));
            }
        }
        if to < n {
            let end: usize = if to > from && v[to - 1] == '\r' {
                to - 1
            } else {
                to
            };
            assert(v@.subrange(from as int, end as int) =~= without_return(
                v@.subrange(from as int, to as int),
            ));
            out.push(text_between(&v, from, end));
            assert(out.deep_view() =~= head.push(without_return(rest.take(to - from))));
            assert(out.deep_view() + lines_of(v@.skip(to + 1)) =~= head + (seq![
                without_return(rest.take(to - from)),
            ] + lines_of(rest.skip(to - from + 1))));
            from = to + 1;
        } else {
            out.push(text_between(&v, from, n));
            assert(out.deep_view() =~= head.push(rest));
            assert(v@.skip(n as int) =~= Seq::<char>::empty());
            assert(out.deep_view() + lines_of(v@.skip(n as int)) =~= head + seq![rest]);
            from = n;
        }
    }
    assert(v@.skip(from as int) =~= Seq::<char>::empty());
    assert(out.deep_view() + lines_of(v@.skip(from as int)) =~= out.deep_view());
    out
}

/// How many bytes a character takes in UTF-8.
pub open spec fn char_width(c: char) -> nat {
    if (c as u32) < 0x80 {
        1
    } else if (c as u32) < 0x800 {
        2
    } else if (c as u32) < 0x10000 {
        3
    } else {
        4
    }
}

/// How many bytes a text takes in UTF-8.
pub open spec fn byte_length(s: Seq<char>) -> nat
    decreases s.len(),
{
    if s.len() == 0 {
        0
    } else {
        byte_length(s.drop_last()) + char_width(s.last())
    }
}

/// How many characters of `s`, from its start, take at most `limit` bytes.
pub open spec fn fitting(s: Seq<char>, limit: nat) -> int
    decreases s.len(),
{
    if s.len() == 0 || byte_length(s) <= limit {
        s.len() as int
    } else {
        fitting(s.drop_last(), limit)
    }
}

/// A text for display: one of more than `most` bytes is cut to at most `kept`, and three points
/// follow.
pub open spec fn cut_short(s: Seq<char>, most: nat, kept: nat) -> Seq<char> {
    if byte_length(s) > most {
        s.take(fitting(s, kept)) + "..."@
    } else {
        s
    }
}

/// A text for display, of at most 80 bytes.
pub open spec fn shortened(s: Seq<char>) -> Seq<char> {
    cut_short(s, 80, 77)
}

pub proof fn lemma_byte_length_grows(s: Seq<char>, i: int, j: int)
    requires
        0 <= i <= j <= s.len(),
    ensures
        byte_length(s.take(i)) + (j - i) <= byte_length(s.take(j)),
    decreases j,
{
    if i < j {
        assert(s.take(j).drop_last() =~= s.take(j - 1));
        lemma_byte_length_grows(s, i, j - 1);
    }
}

proof fn lemma_fitting_is(s: Seq<char>, limit: nat, k: int, n: int)
    requires
        0 <= k <= n <= s.len(),
        byte_length(s.take(k)) <= limit,
        k < n ==> byte_length(s.take(k + 1)) > limit,
    ensures
        fitting(s.take(n), limit) == k,
    decreases n,
{
    if k < n {
        lemma_byte_length_grows(s, k + 1, n);
        assert(s.take(n).drop_last() =~= s.take(n - 1));
        lemma_fitting_is(s, limit, k, n - 1);
    }
}

/// A text for display: one of more than `most` bytes is cut to at most `kept`, and three points
/// follow.
pub fn cut_text(text: &str, most: usize, kept: usize) -> (r: String)
    requires
        kept <= most <= usize::MAX - 4,
    ensures
        r@ == cut_short(text@, most as nat, kept as nat),
{
    let v = chars_of(text);
    let n: usize = v.len();
    // The bytes are counted no further than needed to tell whether there are too many.
    let mut bytes: usize = 0;
    let mut cut: usize = 0;
    let mut i: usize = 0;
    assert(v@.take(0) =~= Seq::<char>::empty());
    while i < n && bytes <= most
        invariant
            v@ == text@,
            n == v@.len(),
            i <= n,
            bytes == byte_length(v@.take(i as int)),
            kept <= most <= usize::MAX - 4,
            bytes <= most + 4,
            cut <= i,
            byte_length(v@.take(cut as int)) <= kept,
            cut < i ==> byte_length(v@.take(cut + 1)) > kept,
        decreases n - i,
    {
        let c: u32 = v[i] as u32;
        let width: usize = if c < 0x80 {
            1
        } else if c < 0x800 {
            2
        } else if c < 0x10000 {
            3
        } else {
            4
        };
        assert(v@.take(i + 1).drop_last() =~= v@.take(i as int));
        bytes = bytes + width;
        if cut == i && bytes <= kept {
            cut = i + 1;
        }
        i = i + 1;
    }
    assert(v@.take(n as int) =~= v@);
    if bytes > most {
        proof {
            lemma_byte_length_grows(v@, i as int, n as int);
            lemma_fitting_is(v@, kept as nat, cut as int, n as int);
            assert(v@.subrange(0, cut as int) =~= v@.take(cut as int));
        }
        let head = text_between(&v, 0, cut);
        cat2(head.as_str(), "...")
    } else {
        String::from_str(text)
    }
}

/// A text for display, of at most 80 bytes.
pub fn shorten(text: &str) -> (r: String)
    ensures
        r@ == shortened(text@),
{
    cut_text(text, 80, 77)
}

/// Whether two texts are equal when the case of ASCII letters does not matter.
pub fn same_ignoring_case(a: &str, b: &str) -> (r: bool)
    ensures
        r == (ascii_lower_all(a@) == ascii_lower_all(b@)),
{
    let x = lower_ascii(a);
    let y = lower_ascii(b);
    same(x.as_str(), y.as_str())
}

/// `text` with its ASCII letters in lower case.
pub fn lower_ascii(text: &str) -> (r: String)
    ensures
        r@ == ascii_lower_all(text@),
{
    let v = chars_of(text);
    let mut out = String::new();
    let n: usize = v.len();
    let ghost goal = ascii_lower_all(text@);
    for i in 0..n
        invariant
            n == v@.len(),
            v@ == text@,
            goal == ascii_lower_all(text@),
            out@ == goal.take(i as int),
    {
        let c: char = v[i];
        out.push(
            if 'A' <= c && c <= 'Z' {
                (c as u8 + 32) as char
            } else {
                c
            },
        );
        assert(goal.take(i + 1) =~= goal.take(i as int).push(goal[i as int]));
    }
    assert(goal.take(n as int) =~= goal);
    out
}

/// Texts with a separator between each two.
pub open spec fn joined(texts: Seq<Seq<char>>, sep: Seq<char>) -> Seq<char>
    decreases texts.len(),
{
    if texts.len() == 0 {
        Seq::empty()
    } else if texts.len() == 1 {
        texts[0]
    } else {
        joined(texts.drop_last(), sep) + sep + texts.last()
    }
}

/// Texts with a separator between each two.
pub fn join(texts: &Vec<String>, sep: &str) -> (r: String)
    ensures
        r@ == joined(texts.deep_view(), sep@),
{
    let ghost all = texts.deep_view();
    let mut out = String::from_str("");
    let n: usize = texts.len();
    proof {
        reveal_strlit("");
        assert(out@ =~= joined(all.take(0), sep@));
    }
    for i in 0..n
        invariant
            n == texts@.len(),
            all == texts.deep_view(),
            out@ == joined(all.take(i as int), sep@),
    {
        proof {
            assert(all.take(i + 1).drop_last() =~= all.take(i as int));
            assert(all.take(i + 1).last() == texts@[i as int]@);
        }
        if i > 0 {
            out.append(sep);
        }
        out.append(texts[i].as_str());
        proof {
            if i == 0 {
                assert(out@ =~= texts@[0]@);
            }
        }
    }
    assert(all.take(n as int) =~= all);
    out
}

// ── Laws ────────────────────────────────────────────────────────────────────────────────────────
/// Whether a character does not stand in a text.
pub open spec fn lacks(s: Seq<char>, c: char) -> bool {
    forall|i: int| 0 <= i < s.len() ==> #[trigger] s[i] != c
}

/// The first and the last place of a character, given what stands before, between and behind.
pub proof fn lemma_places_of_char(a: Seq<char>, c: char, b: Seq<char>)
    ensures
        lacks(a, c) ==> first_index(a + seq![c] + b, c) == Some(a.len() as int),
        lacks(b, c) ==> last_index(a + seq![c] + b, c) == Some(a.len() as int),
        lacks(a, c) ==> first_index(a, c) is None && last_index(a, c) is None,
    decreases b.len() + a.len(),
{
    let s = a + seq![c] + b;
    let mark = seq![c];
    let k = a.len() as int;
    assert(s.subrange(k, k + 1) =~= mark);
    assert(occurs_at(s, k, mark));
    lemma_find_from(s, mark, 0);
    lemma_find_from(a, mark, 0);
    if lacks(a, c) {
        match find_from(s, mark, 0) {
            Some(j) => {
                assert(s.subrange(j, j + 1)[0] == s[j]);
                if j < k {
                    assert(s[j] == a[j]);
                }
            },
            None => {},
        }
        match find_from(a, mark, 0) {
            Some(j) => {
                assert(a.subrange(j, j + 1)[0] == a[j]);
            },
            None => {},
        }
    }
    if b.len() > 0 {
        if lacks(b, c) {
            assert(b[b.len() - 1] != c);
            assert(s.last() == b.last());
            assert(s.drop_last() =~= a + seq![c] + b.drop_last());
            assert forall|i: int| 0 <= i < b.drop_last().len() implies #[trigger] b.drop_last()[i] != c by {
                assert(b[i] != c);
            }
        }
        lemma_places_of_char(a, c, b.drop_last());
    } else {
        assert(s.last() == c);
        if a.len() > 0 {
            lemma_places_of_char(a.drop_last(), c, b);
            if lacks(a, c) {
                assert(a[a.len() - 1] != c);
                assert forall|i: int| 0 <= i < a.drop_last().len() implies #[trigger] a.drop_last()[i]
                    != c by {
                    assert(a[i] != c);
                }
            }
        }
    }
}

/// A part that does not stand any earlier is found behind the text before it.
pub proof fn lemma_first_place(a: Seq<char>, part: Seq<char>, b: Seq<char>)
    requires
        part.len() > 0,
        lacks(a, part[0]) || forall|i: int|
            0 <= i < a.len() ==> !#[trigger] occurs_at(a + part + b, i, part),
    ensures
        find_from(a + part + b, part, 0) == Some(a.len() as int),
        (a + part + b).take(a.len() as int) == a,
        (a + part + b).skip((a.len() + part.len()) as int) == b,
{
    let s = a + part + b;
    let k = a.len() as int;
    assert(s.take(k) =~= a);
    assert(s.skip(k + part.len()) =~= b);
    assert(occurs_at(s, k, part)) by {
        assert(s.subrange(k, k + part.len()) =~= part);
    }
    assert forall|i: int| 0 <= i < k implies !#[trigger] occurs_at(s, i, part) by {
        if occurs_at(s, i, part) {
            assert(s.subrange(i, i + part.len())[0] == s[i]);
            assert(s[i] == a[i]);
        }
    }
    lemma_found_at(s, part, k);
}

proof fn lemma_found_at(s: Seq<char>, part: Seq<char>, k: int)
    requires
        0 <= k,
        occurs_at(s, k, part),
        forall|i: int| 0 <= i < k ==> !#[trigger] occurs_at(s, i, part),
    ensures
        find_from(s, part, 0) == Some(k),
{
    lemma_find_from(s, part, 0);
}

/// A line feed ends a line, also behind a carriage return, which is left out then; what stands behind the
/// last one is a line where there is anything.
pub proof fn lemma_lines(a: Seq<char>, b: Seq<char>)
    requires
        lacks(a, '\n'),
    ensures
        a.len() == 0 || a.last() != '\r' ==> lines_of(a + seq!['\n'] + b) == seq![a] + lines_of(b),
        lines_of(a + seq!['\r', '\n'] + b) == seq![a] + lines_of(b),
        a.len() > 0 ==> lines_of(a) == seq![a],
        lines_of(Seq::empty()).len() == 0,
{
    let s = a + seq!['\n'] + b;
    lemma_places_of_char(a, '\n', b);
    assert(s.take(a.len() as int) =~= a);
    assert(s.skip(a.len() as int + 1) =~= b);
    let c = a.push('\r');
    let t = a + seq!['\r', '\n'] + b;
    assert(t =~= c + seq!['\n'] + b);
    assert forall|i: int| 0 <= i < c.len() implies #[trigger] c[i] != '\n' by {
        if i < a.len() {
            assert(a[i] != '\n');
        }
    }
    lemma_places_of_char(c, '\n', b);
    assert(t.take(c.len() as int) =~= c);
    assert(t.skip(c.len() as int + 1) =~= b);
    assert(c.drop_last() =~= a);
}

/// A text in which a part does not stand is left as it is; else each occurrence gives way to the new text,
/// from the first one on.
pub proof fn lemma_replaced(a: Seq<char>, part: Seq<char>, b: Seq<char>, new: Seq<char>)
    requires
        part.len() > 0,
        forall|i: int| 0 <= i < a.len() ==> !#[trigger] occurs_at(a + part + b, i, part),
    ensures
        replaced(a + part + b, part, new) == a + new + replaced(b, part, new),
        !contains_text(b, part) ==> replaced(b, part, new) == b,
{
    let s = a + part + b;
    let k = a.len() as int;
    assert(s.subrange(k, k + part.len()) =~= part);
    assert(occurs_at(s, k, part));
    lemma_find_from(s, part, 0);
    lemma_find_from(b, part, 0);
    match find_from(s, part, 0) {
        Some(i) => {
            assert(i == k);
            assert(s.take(k) =~= a);
            assert(s.skip(k + part.len()) =~= b);
        },
        None => {},
    }
}

/// A text for display takes at most 80 bytes. One that fits is shown as it is, and of any other one the
/// start is shown, with three points behind it, and no more is cut off than need be.
pub proof fn lemma_shortened(s: Seq<char>) -> (k: int)
    ensures
        byte_length(s) <= 80 ==> shortened(s) == s,
        byte_length(s) > 80 ==> {
            &&& 0 <= k < s.len()
            &&& shortened(s) == s.take(k) + "..."@
            &&& byte_length(s.take(k)) <= 77 < byte_length(s.take(k + 1))
        },
{
    let k = fitting(s, 77);
    lemma_fitting(s, 77);
    assert(s.take(s.len() as int) =~= s);
    k
}

proof fn lemma_fitting(s: Seq<char>, limit: nat)
    ensures
        0 <= fitting(s, limit) <= s.len(),
        byte_length(s.take(fitting(s, limit))) <= limit,
        fitting(s, limit) < s.len() ==> byte_length(s.take(fitting(s, limit) + 1)) > limit,
    decreases s.len(),
{
    let k = fitting(s, limit);
    assert(s.take(s.len() as int) =~= s);
    if s.len() > 0 && byte_length(s) > limit {
        let t = s.drop_last();
        lemma_fitting(t, limit);
        assert(s.take(k) =~= t.take(k));
        if k < t.len() {
            assert(s.take(k + 1) =~= t.take(k + 1));
        } else {
            assert(s.take(k + 1) =~= s);
        }
    }
}

/// Texts are joined with the separator between each two of them and nowhere else.
pub proof fn lemma_joined(a: Seq<Seq<char>>, b: Seq<Seq<char>>, sep: Seq<char>)
    requires
        a.len() > 0,
        b.len() > 0,
    ensures
        joined(a + b, sep) == joined(a, sep) + sep + joined(b, sep),
        a.len() == 1 ==> joined(a, sep) == a[0],
    decreases b.len(),
{
    let s = a + b;
    assert(s.drop_last() =~= a + b.drop_last());
    assert(s.last() == b.last());
    if b.len() > 1 {
        lemma_joined(a, b.drop_last(), sep);
        assert(joined(s, sep) =~= joined(a, sep) + sep + joined(b, sep));
    } else {
        assert(a + b.drop_last() =~= a);
    }
}

} // verus!

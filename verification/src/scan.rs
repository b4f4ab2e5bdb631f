//! Numbers read out of text: lines, words and decimal literals.

use crate::text;
use vstd::prelude::*;
use vstd::string::*;

verus! {

/// White space, as Unicode defines it.
pub open spec fn is_space(c: char) -> bool {
    let n = c as int;
    9 <= n <= 13 || n == 32 || n == 0x85 || n == 0xa0 || n == 0x1680 || 0x2000 <= n <= 0x200a || n
        == 0x2028 || n == 0x2029 || n == 0x202f || n == 0x205f || n == 0x3000
}

/// Length of the longest prefix of `s` in which every character satisfies `p`.
pub open spec fn run(s: Seq<char>, p: spec_fn(char) -> bool) -> int
    decreases s.len(),
{
    if s.len() == 0 || !p(s[0]) {
        0
    } else {
        1 + run(s.skip(1), p)
    }
}

/// `run` is the position of the first character that does not satisfy `p`.
proof fn lemma_run(s: Seq<char>, p: spec_fn(char) -> bool, n: int)
    requires
        0 <= n <= s.len(),
        forall|i: int| 0 <= i < n ==> p(#[trigger] s[i]),
        n < s.len() ==> !p(s[n]),
    ensures
        run(s, p) == n,
    decreases n,
{
    if n > 0 {
        assert(p(s[0]));
        let t = s.skip(1);
        assert forall|i: int| 0 <= i < n - 1 implies p(#[trigger] t[i]) by {
            assert(t[i] == s[i + 1]);
        }
        lemma_run(t, p, n - 1);
    }
}

/// The characters other than `c`.
pub open spec fn other_than(c: char) -> spec_fn(char) -> bool {
    |x: char| x != c
}

/// Length of the first line of `s`.
pub open spec fn line_len(s: Seq<char>) -> int {
    run(s, other_than('\n'))
}

/// Length of the word that `s` begins with.
pub open spec fn word_len(s: Seq<char>) -> int {
    run(s, |c: char| !is_space(c))
}

/// The lines of `s`. There is always a last one, which may be empty.
pub open spec fn lines(s: Seq<char>) -> Seq<Seq<char>>
    decreases s.len(),
{
    let n = line_len(s);
    if 0 <= n < s.len() {
        seq![s.take(n)] + lines(s.skip(n + 1))
    } else {
        seq![s]
    }
}

/// The words of `s`: its longest runs without white space.
pub open spec fn words(s: Seq<char>) -> Seq<Seq<char>>
    decreases s.len(),
{
    let n = word_len(s);
    if s.len() == 0 {
        seq![]
    } else if 1 <= n <= s.len() {
        seq![s.take(n)] + words(s.skip(n))
    } else {
        words(s.skip(1))
    }
}

/// `s` without the white space it begins with.
pub open spec fn trim_start(s: Seq<char>) -> Seq<char>
    decreases s.len(),
{
    if s.len() > 0 && is_space(s[0]) {
        trim_start(s.skip(1))
    } else {
        s
    }
}

/// `s` without the white space it ends with.
pub open spec fn trim_end(s: Seq<char>) -> Seq<char>
    decreases s.len(),
{
    if s.len() > 0 && is_space(s.last()) {
        trim_end(s.drop_last())
    } else {
        s
    }
}

/// `s` without white space at either end.
pub open spec fn trimmed(s: Seq<char>) -> Seq<char> {
    trim_end(trim_start(s))
}

/// `s` begins with `prefix`.
pub open spec fn begins_with(s: Seq<char>, prefix: Seq<char>) -> bool {
    s.len() >= prefix.len() && s.take(prefix.len() as int) == prefix
}

/// `part` occurs somewhere in `s`.
pub open spec fn occurs(s: Seq<char>, part: Seq<char>) -> bool {
    exists|k: int| 0 <= k <= s.len() && begins_with(#[trigger] s.skip(k), part)
}

/// Every character of `s` is a decimal digit.
pub open spec fn all_digits(s: Seq<char>) -> bool {
    forall|i: int| 0 <= i < s.len() ==> '0' <= #[trigger] s[i] <= '9'
}

/// The number whose decimal digits are `s`.
pub open spec fn value(s: Seq<char>) -> int
    decreases s.len(),
{
    if s.len() == 0 {
        0
    } else {
        value(s.drop_last()) * 10 + (s.last() as int - '0' as int)
    }
}

/// `s` is a run of digits of a value up to `limit`.
pub open spec fn is_literal(s: Seq<char>, limit: int) -> bool {
    s.len() > 0 && all_digits(s) && value(s) <= limit
}

/// `s` begins with the sign `sign`.
pub open spec fn signed_with(s: Seq<char>, sign: char) -> bool {
    s.len() > 0 && s[0] == sign
}

/// `s` without a plus sign in front.
pub open spec fn unsigned_part(s: Seq<char>) -> Seq<char> {
    if signed_with(s, '+') {
        s.skip(1)
    } else {
        s
    }
}

/// The value of an unsigned 32-bit literal: digits, with or without a plus
/// sign in front.
pub open spec fn literal_u32(s: Seq<char>) -> Option<u32> {
    if is_literal(unsigned_part(s), u32::MAX as int) {
        Some(value(unsigned_part(s)) as u32)
    } else {
        None
    }
}

/// The value of a signed literal of pointer size, with a negative one taken as
/// zero.
pub open spec fn literal_at_least_zero(s: Seq<char>) -> Option<usize> {
    if signed_with(s, '-') {
        if is_literal(s.skip(1), isize::MAX + 1) {
            Some(0)
        } else {
            None
        }
    } else if is_literal(unsigned_part(s), isize::MAX as int) {
        Some(value(unsigned_part(s)) as usize)
    } else {
        None
    }
}

/// The numbers among `ws`, in order; what is no number is passed over.
pub open spec fn numbers(ws: Seq<Seq<char>>) -> Seq<u32>
    decreases ws.len(),
{
    if ws.len() == 0 {
        seq![]
    } else {
        match literal_u32(ws.last()) {
            Some(n) => numbers(ws.drop_last()).push(n),
            None => numbers(ws.drop_last()),
        }
    }
}

/// The views of a sequence of vectors.
pub open spec fn views<T>(s: Seq<Vec<T>>) -> Seq<Seq<T>> {
    s.map_values(|v: Vec<T>| v@)
}

proof fn lemma_views_push<T>(s: Seq<Vec<T>>, v: Vec<T>)
    ensures
        views(s.push(v)) == views(s).push(v@),
{
    assert(views(s.push(v)) =~= views(s).push(v@));
}

fn space(c: char) -> (r: bool)
    ensures
        r == is_space(c),
{
    let n: u32 = c as u32;
    (9 <= n && n <= 13) || n == 32 || n == 0x85 || n == 0xa0 || n == 0x1680 || (0x2000 <= n && n
        <= 0x200a) || n == 0x2028 || n == 0x2029 || n == 0x202f || n == 0x205f || n == 0x3000
}

/// The characters of `s`.
pub fn characters(s: &str) -> (r: Vec<char>)
    ensures
        r@ == s@,
{
    let mut r: Vec<char> = Vec::new();
    for c in it: s.chars()
        invariant
            r@ == it.seq().take(it.index() as int),
            it.seq() == s@,
    {
        r.push(c);
        assert(it.seq().take(it.index() + 1) =~= it.seq().take(it.index() as int).push(c));
    }
    assert(r@ =~= s@);
    r
}

/// The characters of `s` from `lo` up to `hi`.
fn part(s: &Vec<char>, lo: usize, hi: usize) -> (r: Vec<char>)
    requires
        lo <= hi <= s@.len(),
    ensures
        r@ == s@.subrange(lo as int, hi as int),
{
    let mut r: Vec<char> = Vec::new();
    let mut i: usize = lo;
    while i < hi
        invariant
            lo <= i <= hi <= s@.len(),
            r@ == s@.subrange(lo as int, i as int),
        decreases hi - i,
    {
        r.push(s[i]);
        i = i + 1;
        assert(r@ =~= s@.subrange(lo as int, i as int));
    }
    r
}

/// The lines of a text.
pub fn split_lines(s: &Vec<char>) -> (r: Vec<Vec<char>>)
    ensures
        views(r@) == lines(s@),
{
    let mut r: Vec<Vec<char>> = Vec::new();
    let mut from: usize = 0;
    assert(s@.skip(0) =~= s@);
    loop
        invariant_except_break
            from <= s@.len(),
            views(r@) + lines(s@.skip(from as int)) == lines(s@),
        ensures
            views(r@) == lines(s@),
        decreases s@.len() - from,
    {
        let mut i: usize = from;
        while i < s.len() && s[i] != '\n'
            invariant
                from <= i <= s@.len(),
                forall|k: int| from <= k < i ==> #[trigger] s@[k] != '\n',
            decreases s@.len() - i,
        {
            i = i + 1;
        }
        let ghost before = r@;
        let ghost rest = s@.skip(from as int);
        let line = part(s, from, i);
        proof {
            lemma_run(rest, other_than('\n'), i - from);
            assert(line@ =~= rest.take(i - from));
            lemma_views_push(before, line);
        }
        r.push(line);
        if i == s.len() {
            assert(rest.take(i - from) =~= rest);
            assert(views(r@) =~= views(before) + lines(rest));
            break;
        }
        assert(rest.skip(i - from + 1) =~= s@.skip(i + 1));
        from = i + 1;
        assert(views(r@) + lines(s@.skip(from as int)) =~= views(before) + lines(rest));
    }
    r
}

/// The words of a text.
pub fn split_words(s: &Vec<char>) -> (r: Vec<Vec<char>>)
    ensures
        views(r@) == words(s@),
{
    let mut r: Vec<Vec<char>> = Vec::new();
    let mut from: usize = 0;
    assert(s@.skip(0) =~= s@);
    assert(views(r@) + words(s@) =~= words(s@));
    while from < s.len()
        invariant
            from <= s@.len(),
            views(r@) + words(s@.skip(from as int)) == words(s@),
        decreases s@.len() - from,
    {
        let mut i: usize = from;
        while i < s.len() && !space(s[i])
            invariant
                from <= i <= s@.len(),
                forall|k: int| from <= k < i ==> !is_space(#[trigger] s@[k]),
            decreases s@.len() - i,
        {
            i = i + 1;
        }
        let ghost before = r@;
        let ghost rest = s@.skip(from as int);
        proof {
            lemma_run(rest, |c: char| !is_space(c), i - from);
        }
        if i > from {
            let word = part(s, from, i);
            proof {
                assert(word@ =~= rest.take(i - from));
                lemma_views_push(before, word);
            }
            r.push(word);
            assert(rest.skip(i - from) =~= s@.skip(i as int));
            from = i;
            assert(views(r@) + words(s@.skip(from as int)) =~= views(before) + words(rest));
        } else {
            assert(rest.skip(1) =~= s@.skip(from + 1));
            from = from + 1;
        }
    }
    assert(s@.skip(from as int) =~= seq![]);
    assert(views(r@) + words(s@.skip(from as int)) =~= views(r@));
    r
}

proof fn lemma_trim_end(s: Seq<char>, hi: int)
    requires
        0 <= hi <= s.len(),
        forall|k: int| hi <= k < s.len() ==> is_space(#[trigger] s[k]),
        hi > 0 ==> !is_space(s[hi - 1]),
    ensures
        trim_end(s) == s.take(hi),
    decreases s.len(),
{
    if hi < s.len() {
        lemma_trim_end(s.drop_last(), hi);
        assert(s.drop_last().take(hi) =~= s.take(hi));
    } else {
        assert(s.take(hi) =~= s);
    }
}

proof fn lemma_trim_start(s: Seq<char>, lo: int)
    requires
        0 <= lo <= s.len(),
        forall|k: int| 0 <= k < lo ==> is_space(#[trigger] s[k]),
        lo < s.len() ==> !is_space(s[lo]),
    ensures
        trim_start(s) == s.skip(lo),
    decreases lo,
{
    if lo > 0 {
        let t = s.skip(1);
        assert(is_space(s[0]));
        assert forall|k: int| 0 <= k < lo - 1 implies is_space(#[trigger] t[k]) by {
            assert(t[k] == s[k + 1]);
        }
        lemma_trim_start(t, lo - 1);
        assert(t.skip(lo - 1) =~= s.skip(lo));
    } else {
        assert(s.skip(0) =~= s);
    }
}

/// A text without white space at either end.
pub fn trim(s: &Vec<char>) -> (r: Vec<char>)
    ensures
        r@ == trimmed(s@),
{
    let mut lo: usize = 0;
    while lo < s.len() && space(s[lo])
        invariant
            lo <= s@.len(),
            forall|k: int| 0 <= k < lo ==> is_space(#[trigger] s@[k]),
        decreases s@.len() - lo,
    {
        lo = lo + 1;
    }
    let mut hi: usize = s.len();
    while hi > lo && space(s[hi - 1])
        invariant
            lo <= hi <= s@.len(),
            forall|k: int| hi <= k < s@.len() ==> is_space(#[trigger] s@[k]),
        decreases hi,
    {
        hi = hi - 1;
    }
    proof {
        lemma_trim_start(s@, lo as int);
        let t = s@.skip(lo as int);
        assert forall|k: int| hi - lo <= k < t.len() implies is_space(#[trigger] t[k]) by {
            assert(t[k] == s@[k + lo]);
        }
        lemma_trim_end(t, hi - lo);
        assert(t.take(hi - lo) =~= s@.subrange(lo as int, hi as int));
    }
    part(s, lo, hi)
}

/// Whether `s` begins with `prefix` at position `at`.
fn begins_at(s: &Vec<char>, at: usize, prefix: &Vec<char>) -> (r: bool)
    requires
        at <= s@.len(),
    ensures
        r == begins_with(s@.skip(at as int), prefix@),
{
    if s.len() - at < prefix.len() {
        return false;
    }
    let ghost t = s@.skip(at as int);
    let n: usize = s.len();
    let mut i: usize = 0;
    while i < prefix.len()
        invariant
            at <= n == s@.len(),
            prefix@.len() <= s@.len() - at,
            i <= prefix@.len(),
            t == s@.skip(at as int),
            forall|k: int| 0 <= k < i ==> t[k] == #[trigger] prefix@[k],
        decreases prefix@.len() - i,
    {
        if s[at + i] != prefix[i] {
            assert(t.take(prefix@.len() as int)[i as int] != prefix@[i as int]);
            return false;
        }
        i = i + 1;
    }
    assert(t.take(prefix@.len() as int) =~= prefix@);
    true
}

/// Whether `s` begins with `prefix`.
pub fn has_prefix(s: &Vec<char>, prefix: &str) -> (r: bool)
    ensures
        r == begins_with(s@, prefix@),
{
    assert(s@.skip(0) =~= s@);
    begins_at(s, 0, &characters(prefix))
}

/// Whether `part` occurs in `s`.
pub fn has_part(s: &Vec<char>, part: &str) -> (r: bool)
    ensures
        r == occurs(s@, part@),
{
    let p = characters(part);
    let mut k: usize = 0;
    while k < s.len()
        invariant
            k <= s@.len(),
            p@ == part@,
            forall|j: int| 0 <= j < k ==> !begins_with(#[trigger] s@.skip(j), part@),
        decreases s@.len() - k,
    {
        if begins_at(s, k, &p) {
            return true;
        }
        k = k + 1;
    }
    begins_at(s, k, &p)
}

/// What follows the first `c` of a text, or nothing where there is none.
pub open spec fn after_first(s: Seq<char>, c: char) -> Seq<char> {
    let n = run(s, other_than(c));
    if n < s.len() {
        s.skip(n + 1)
    } else {
        seq![]
    }
}

/// What follows the first `c` of a text, or nothing where there is none.
pub fn rest_after(s: &Vec<char>, c: char) -> (r: Vec<char>)
    ensures
        r@ == after_first(s@, c),
{
    let mut i: usize = 0;
    while i < s.len() && s[i] != c
        invariant
            i <= s@.len(),
            forall|k: int| 0 <= k < i ==> #[trigger] s@[k] != c,
        decreases s@.len() - i,
    {
        i = i + 1;
    }
    proof {
        lemma_run(s@, other_than(c), i as int);
    }
    if i == s.len() {
        return Vec::new();
    }
    let r = part(s, i + 1, s.len());
    assert(r@ =~= s@.skip(i + 1));
    r
}

proof fn lemma_value_grows(s: Seq<char>, k: int)
    requires
        all_digits(s),
        0 <= k <= s.len(),
    ensures
        0 <= value(s.take(k)) <= value(s),
    decreases s.len(),
{
    if k == s.len() {
        assert(s.take(k) =~= s);
        if k > 0 {
            lemma_value_grows(s.drop_last(), k - 1);
        }
    } else {
        lemma_value_grows(s.drop_last(), k);
        assert(s.drop_last().take(k) =~= s.take(k));
    }
}

/// The value of the digits of `s` from position `from`, where it is up to
/// `limit`.
fn digits_value(s: &Vec<char>, from: usize, limit: u64) -> (r: Option<u64>)
    requires
        from <= s@.len(),
    ensures
        match r {
            Some(v) => is_literal(s@.skip(from as int), limit as int) && v == value(
                s@.skip(from as int),
            ),
            None => !is_literal(s@.skip(from as int), limit as int),
        },
{
    let ghost t = s@.skip(from as int);
    if from == s.len() {
        return None;
    }
    let mut total: u64 = 0;
    let mut i: usize = from;
    while i < s.len()
        invariant
            from <= i <= s@.len(),
            t == s@.skip(from as int),
            forall|k: int| 0 <= k < i - from ==> '0' <= #[trigger] t[k] <= '9',
            total == value(t.take(i - from)),
            total <= limit,
        decreases s@.len() - i,
    {
        let c: char = s[i];
        assert(t[i - from] == c);
        if c < '0' || '9' < c {
            return None;
        }
        let d: u32 = c as u32 - 48;
        let next: u128 = total as u128 * 10 + d as u128;
        proof {
            let u = t.take(i + 1 - from);
            assert(u.drop_last() =~= t.take(i - from));
            assert(u.last() == c);
            if all_digits(t) {
                lemma_value_grows(t, i + 1 - from);
            }
        }
        if next > limit as u128 {
            return None;
        }
        total = next as u64;
        i = i + 1;
    }
    assert(t.take(i - from) =~= t);
    Some(total)
}

/// The value of an unsigned 32-bit literal.
pub fn parse_u32(s: &Vec<char>) -> (r: Option<u32>)
    ensures
        r == literal_u32(s@),
{
    let from: usize = if s.len() > 0 && s[0] == '+' {
        1
    } else {
        0
    };
    assert(s@.skip(0) =~= s@);
    match digits_value(s, from, u32::MAX as u64) {
        Some(v) => Some(v as u32),
        None => None,
    }
}

/// The value of a signed literal of pointer size, with a negative one taken as
/// zero.
pub fn parse_at_least_zero(s: &Vec<char>) -> (r: Option<usize>)
    ensures
        r == literal_at_least_zero(s@),
{
    assert(s@.skip(0) =~= s@);
    if s.len() > 0 && s[0] == '-' {
        return match digits_value(s, 1, isize::MAX as u64 + 1) {
            Some(_) => Some(0),
            None => None,
        };
    }
    let from: usize = if s.len() > 0 && s[0] == '+' {
        1
    } else {
        0
    };
    match digits_value(s, from, isize::MAX as u64) {
        Some(v) => Some(v as usize),
        None => None,
    }
}

/// The numbers among some words.
pub fn parse_numbers(ws: &Vec<Vec<char>>) -> (r: Vec<u32>)
    ensures
        r@ == numbers(views(ws@)),
{
    let mut r: Vec<u32> = Vec::new();
    let mut i: usize = 0;
    while i < ws.len()
        invariant
            i <= ws@.len(),
            r@ == numbers(views(ws@).take(i as int)),
        decreases ws@.len() - i,
    {
        proof {
            let u = views(ws@).take(i + 1);
            assert(u.drop_last() =~= views(ws@).take(i as int));
            assert(u.last() == ws@[i as int]@);
        }
        if let Some(n) = parse_u32(&ws[i]) {
            r.push(n);
        }
        i = i + 1;
    }
    assert(views(ws@).take(i as int) =~= views(ws@));
    r
}

/// `run` stops at the first character that does not satisfy `p`, and at the end
/// where all do.
proof fn lemma_run_stops(s: Seq<char>, p: spec_fn(char) -> bool)
    ensures
        0 <= run(s, p) <= s.len(),
        forall|i: int| 0 <= i < run(s, p) ==> p(#[trigger] s[i]),
        run(s, p) < s.len() ==> !p(s[run(s, p)]),
    decreases s.len(),
{
    if s.len() > 0 && p(s[0]) {
        let t = s.skip(1);
        lemma_run_stops(t, p);
        assert forall|i: int| 0 <= i < run(s, p) implies p(#[trigger] s[i]) by {
            if i > 0 {
                assert(t[i - 1] == s[i]);
            }
        }
    }
}

/// Some lines with line breaks between them.
pub open spec fn joined(ls: Seq<Seq<char>>) -> Seq<char>
    decreases ls.len(),
{
    if ls.len() == 0 {
        seq![]
    } else if ls.len() == 1 {
        ls[0]
    } else {
        ls[0] + seq!['\n'] + joined(ls.skip(1))
    }
}

/// The lines of a text are the text once line breaks are put between them again,
/// and no line has one in it.
pub proof fn law_lines_are_the_text(s: Seq<char>)
    ensures
        lines(s).len() > 0,
        joined(lines(s)) == s,
        forall|i: int| 0 <= i < lines(s).len() ==> !(#[trigger] lines(s)[i]).contains('\n'),
    decreases s.len(),
{
    let n = line_len(s);
    let p = other_than('\n');
    lemma_run_stops(s, p);
    if n < s.len() {
        let first = s.take(n);
        let rest = s.skip(n + 1);
        law_lines_are_the_text(rest);
        let all = lines(s);
        assert(all.skip(1) =~= lines(rest));
        assert(s[n] == '\n');
        assert(joined(all) == first + seq!['\n'] + rest);
        assert(first + seq!['\n'] + rest =~= s);
        assert forall|i: int| 0 <= i < all.len() implies !(#[trigger] all[i]).contains('\n') by {
            if i == 0 {
                assert forall|k: int| 0 <= k < n implies first[k] != '\n' by {
                    assert(p(s[k]));
                }
            } else {
                assert(all[i] == lines(rest)[i - 1]);
            }
        }
    } else {
        assert forall|k: int| 0 <= k < s.len() implies s[k] != '\n' by {
            assert(p(s[k]));
        }
    }
}

/// What is left of a text once it is trimmed lies in the text, between nothing
/// but white space, and has white space at neither end.
pub proof fn law_trimming_takes_white_space(s: Seq<char>)
    ensures
        trimmed(s).len() > 0 ==> !is_space(trimmed(s)[0]) && !is_space(trimmed(s).last()),
        exists|a: int, b: int| #[trigger] trims_to(s, a, b),
{
    let a = lemma_trimmed_from(s);
    let t = trim_start(s);
    let b = lemma_trimmed_to(t);
    assert(trimmed(s) == t.take(b));
    assert(t.take(b) =~= s.subrange(a, a + b));
    assert forall|i: int| a + b <= i < s.len() implies is_space(#[trigger] s[i]) by {
        assert(t[i - a] == s[i]);
    }
    assert(trims_to(s, a, a + b));
}

/// The text trimmed is the text from `a` to `b`, and white space is around it.
pub open spec fn trims_to(s: Seq<char>, a: int, b: int) -> bool {
    &&& 0 <= a <= b <= s.len()
    &&& trimmed(s) == s.subrange(a, b)
    &&& forall|i: int| 0 <= i < a ==> is_space(#[trigger] s[i])
    &&& forall|i: int| b <= i < s.len() ==> is_space(#[trigger] s[i])
}

proof fn lemma_trimmed_from(s: Seq<char>) -> (a: int)
    ensures
        0 <= a <= s.len(),
        trim_start(s) == s.skip(a),
        forall|i: int| 0 <= i < a ==> is_space(#[trigger] s[i]),
        a < s.len() ==> !is_space(s[a]),
    decreases s.len(),
{
    if s.len() > 0 && is_space(s[0]) {
        let t = s.skip(1);
        let a = lemma_trimmed_from(t);
        assert(t.skip(a) =~= s.skip(a + 1));
        assert forall|i: int| 0 <= i < a + 1 implies is_space(#[trigger] s[i]) by {
            if i > 0 {
                assert(t[i - 1] == s[i]);
            }
        }
        a + 1
    } else {
        assert(s.skip(0) =~= s);
        0
    }
}

proof fn lemma_trimmed_to(s: Seq<char>) -> (b: int)
    ensures
        0 <= b <= s.len(),
        trim_end(s) == s.take(b),
        forall|i: int| b <= i < s.len() ==> is_space(#[trigger] s[i]),
        b > 0 ==> !is_space(s[b - 1]),
    decreases s.len(),
{
    if s.len() > 0 && is_space(s.last()) {
        let t = s.drop_last();
        let b = lemma_trimmed_to(t);
        assert(t.take(b) =~= s.take(b));
        assert forall|i: int| b <= i < s.len() implies is_space(#[trigger] s[i]) by {
            if i < t.len() {
                assert(t[i] == s[i]);
            }
        }
        b
    } else {
        assert(s.take(s.len() as int) =~= s);
        s.len() as int
    }
}

/// `w` is a word: it is not empty and has no white space in it.
pub open spec fn is_word(w: Seq<char>) -> bool {
    w.len() > 0 && forall|i: int| 0 <= i < w.len() ==> !is_space(#[trigger] w[i])
}

/// Words have no white space in them and are not empty. A word with white space
/// behind it, or nothing, comes first of the words of a text that begins with
/// it. White space in front of a text makes no word.
pub proof fn law_words_are_between_white_space(w: Seq<char>, gap: char, rest: Seq<char>)
    requires
        is_word(w),
        is_space(gap),
    ensures
        words(Seq::empty()) == Seq::<Seq<char>>::empty(),
        words(w) == seq![w],
        words(w + seq![gap] + rest) == seq![w] + words(rest),
        words(seq![gap] + rest) == words(rest),
        forall|i: int| 0 <= i < words(rest).len() ==> is_word(#[trigger] words(rest)[i]),
{
    let p = |c: char| !is_space(c);
    let s = w + seq![gap] + rest;
    lemma_run(w, p, w.len() as int);
    lemma_run(s, p, w.len() as int);
    assert(w.take(w.len() as int) =~= w);
    assert(w.skip(w.len() as int) =~= Seq::<char>::empty());
    assert(words(w) =~= seq![w] + words(Seq::empty()));
    let g = seq![gap] + rest;
    lemma_run(g, p, 0);
    assert(g.skip(1) =~= rest);
    assert(s.take(w.len() as int) =~= w);
    assert(s.skip(w.len() as int) =~= g);
    assert(words(g) == words(rest));
    assert(words(s) == seq![w] + words(g));
    lemma_words(rest);
}

proof fn lemma_words(s: Seq<char>)
    ensures
        forall|i: int| 0 <= i < words(s).len() ==> is_word(#[trigger] words(s)[i]),
    decreases s.len(),
{
    let n = word_len(s);
    let p = |c: char| !is_space(c);
    lemma_run_stops(s, p);
    if s.len() > 0 {
        if 1 <= n <= s.len() {
            let rest = s.skip(n);
            lemma_words(rest);
            let all = words(s);
            assert forall|i: int| 0 <= i < all.len() implies is_word(#[trigger] all[i]) by {
                if i == 0 {
                    assert forall|k: int| 0 <= k < n implies !is_space(#[trigger] all[0][k]) by {
                        assert(p(s[k]));
                    }
                } else {
                    assert(all[i] == words(rest)[i - 1]);
                }
            }
        } else {
            lemma_words(s.skip(1));
            assert(words(s) == words(s.skip(1)));
        }
    }
}

proof fn lemma_value_is_worth(s: Seq<char>)
    requires
        all_digits(s),
    ensures
        value(s) == text::worth(s, 10),
        value(s) >= 0,
    decreases s.len(),
{
    if s.len() > 0 {
        assert(s[s.len() - 1] == s.last());
        assert forall|i: int| 0 <= i < s.drop_last().len() implies '0' <= #[trigger] s.drop_last()[i]
            <= '9' by {
            assert(s[i] == s.drop_last()[i]);
        }
        lemma_value_is_worth(s.drop_last());
    }
}

/// A number that was written in decimal is read as that number, with a plus sign
/// in front of it or without, where it is not too large. With a minus sign in
/// front it is no unsigned number and, where one may be, as good as zero.
pub proof fn law_numbers_are_read_as_written(n: nat)
    ensures
        literal_u32(text::decimal(n as int)) == if n <= u32::MAX {
            Some(n as u32)
        } else {
            None
        },
        literal_u32(seq!['+'] + text::decimal(n as int)) == literal_u32(text::decimal(n as int)),
        literal_u32(seq!['-'] + text::decimal(n as int)) is None,
        literal_at_least_zero(text::decimal(n as int)) == if n <= isize::MAX {
            Some(n as usize)
        } else {
            None
        },
        literal_at_least_zero(seq!['+'] + text::decimal(n as int)) == literal_at_least_zero(
            text::decimal(n as int),
        ),
        literal_at_least_zero(seq!['-'] + text::decimal(n as int)) == if n <= isize::MAX + 1 {
            Some(0usize)
        } else {
            None
        },
{
    let d = text::decimal(n as int);
    text::law_digits_have_the_value(n, 10);
    assert forall|i: int| 0 <= i < d.len() implies '0' <= #[trigger] d[i] <= '9' by {
        assert(text::worth_of(d[i]) < 10);
    }
    lemma_value_is_worth(d);
    assert('0' <= d[0] <= '9');
    let plus = seq!['+'] + d;
    let minus = seq!['-'] + d;
    assert(plus.skip(1) =~= d);
    assert(minus.skip(1) =~= d);
    assert(minus[0] == '-');
    assert(!all_digits(minus)) by {
        assert(!('0' <= minus[0]));
    }
}

/// A literal is digits alone, one at least, behind a sign or none: what has any
/// other character in it is no number.
pub proof fn law_numbers_are_digits(s: Seq<char>, i: int)
    requires
        0 <= i < s.len(),
        !('0' <= s[i] <= '9'),
        i > 0 || (s[0] != '+' && s[0] != '-') || s.len() == 1,
    ensures
        literal_u32(s) is None,
        literal_at_least_zero(s) is None,
        literal_u32(Seq::empty()) is None,
        literal_at_least_zero(Seq::empty()) is None,
{
    let t = s.skip(1);
    if i > 0 {
        assert(t[i - 1] == s[i]);
        assert(!all_digits(t));
    }
    assert(!all_digits(s));
    assert(s.len() == 1 ==> t.len() == 0);
}

/// The numbers among some words come in the order of the words, and what is no
/// number is passed over.
pub proof fn law_numbers_come_in_order(ws: Seq<Seq<char>>, w: Seq<char>)
    ensures
        numbers(Seq::empty()) == Seq::<u32>::empty(),
        numbers(ws.push(w)) == match literal_u32(w) {
            Some(n) => numbers(ws) + seq![n],
            None => numbers(ws),
        },
{
    assert(ws.push(w).drop_last() =~= ws);
    if let Some(n) = literal_u32(w) {
        assert(numbers(ws).push(n) =~= numbers(ws) + seq![n]);
    }
}

/// What follows a character in a text is what stands behind its first
/// occurrence, and nothing where it does not occur.
pub proof fn law_rest_begins_behind_the_first(before: Seq<char>, c: char, rest: Seq<char>)
    requires
        !before.contains(c),
    ensures
        after_first(before + seq![c] + rest, c) == rest,
        after_first(before, c) == Seq::<char>::empty(),
{
    let p = other_than(c);
    let s = before + seq![c] + rest;
    assert forall|i: int| 0 <= i < before.len() implies p(#[trigger] before[i]) by {
        assert(before.contains(before[i]));
    }
    assert forall|i: int| 0 <= i < before.len() implies p(#[trigger] s[i]) by {
        assert(s[i] == before[i]);
    }
    lemma_run(before, p, before.len() as int);
    lemma_run(s, p, before.len() as int);
    assert(s.skip(before.len() as int + 1) =~= rest);
}

/// A text begins with what was put in front of it, and a part occurs where
/// something stands before and behind it.
pub proof fn law_parts_are_found(before: Seq<char>, part: Seq<char>, rest: Seq<char>)
    ensures
        begins_with(part + rest, part),
        occurs(before + part + rest, part),
        begins_with(rest, part) ==> part.is_prefix_of(rest),
{
    let s = before + part + rest;
    assert((part + rest).take(part.len() as int) =~= part);
    assert(s.skip(before.len() as int) =~= part + rest);
    assert(begins_with(s.skip(before.len() as int), part));
    if begins_with(rest, part) {
        assert(part =~= rest.subrange(0, part.len() as int));
    }
}

/// A text with white space at neither end is as it was once it is trimmed.
pub proof fn law_trimmed_text_stays(s: Seq<char>)
    requires
        s.len() > 0 ==> !is_space(s[0]) && !is_space(s.last()),
    ensures
        trimmed(s) == s,
{
}

/// White space at either end of a text that has none there goes.
pub proof fn law_white_space_is_trimmed(s: Seq<char>, before: char, behind: char)
    requires
        s.len() > 0,
        !is_space(s[0]),
        !is_space(s.last()),
        is_space(before),
        is_space(behind),
    ensures
        trimmed(s.push(behind)) == s,
        trimmed(seq![before] + s) == s,
        trimmed((seq![before] + s).push(behind)) == s,
{
    assert(s.push(behind).drop_last() =~= s);
    assert(trim_end(s.push(behind)) == trim_end(s));
    assert((seq![before] + s).skip(1) =~= s);
    assert(trim_start(seq![before] + s) == trim_start(s));
    let both = (seq![before] + s).push(behind);
    assert(both.skip(1) =~= s.push(behind));
    assert(trim_start(both) == trim_start(s.push(behind)));
}

/// White space is the blank, the tabulators and the line breaks, and outside of
/// ASCII the blanks and separators of Unicode. No digit, letter, sign or
/// punctuation mark of ASCII is.
pub proof fn law_white_space_is_that_of_unicode(c: char)
    ensures
        c < '\u{80}' ==> (is_space(c) <==> seq![
            '\t',
            '\n',
            '\u{b}',
            '\u{c}',
            '\r',
            ' ',
        ].contains(c)),
        '!' <= c <= '~' ==> !is_space(c),
        c >= '\u{80}' ==> (is_space(c) <==> '\u{2000}' <= c <= '\u{200a}' || seq![
            '\u{85}',
            '\u{a0}',
            '\u{1680}',
            '\u{2028}',
            '\u{2029}',
            '\u{202f}',
            '\u{205f}',
            '\u{3000}',
        ].contains(c)),
{
    let ascii = seq!['\t', '\n', '\u{b}', '\u{c}', '\r', ' '];
    assert(ascii[0] == '\t' && ascii[1] == '\n' && ascii[2] == '\u{b}' && ascii[3] == '\u{c}'
        && ascii[4] == '\r' && ascii[5] == ' ');
    let wide = seq![
        '\u{85}',
        '\u{a0}',
        '\u{1680}',
        '\u{2028}',
        '\u{2029}',
        '\u{202f}',
        '\u{205f}',
        '\u{3000}',
    ];
    assert(wide[0] == '\u{85}' && wide[1] == '\u{a0}' && wide[2] == '\u{1680}' && wide[3]
        == '\u{2028}' && wide[4] == '\u{2029}' && wide[5] == '\u{202f}' && wide[6] == '\u{205f}'
        && wide[7] == '\u{3000}');
}

} // verus!

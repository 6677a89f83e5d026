//! Character-level text operations with their meaning stated over `Seq<char>`.

use vstd::prelude::*;

verus! {

broadcast use vstd::string::group_string_axioms;

/// The Unicode `White_Space` property, which `char::is_whitespace` tests.
pub open spec fn is_ws(c: char) -> bool {
    let u = c as u32;
    ||| 0x09 <= u <= 0x0D
    ||| u == 0x20
    ||| u == 0x85
    ||| u == 0xA0
    ||| u == 0x1680
    ||| 0x2000 <= u <= 0x200A
    ||| u == 0x2028
    ||| u == 0x2029
    ||| u == 0x202F
    ||| u == 0x205F
    ||| u == 0x3000
}

/// Whether `c` is whitespace.
pub fn char_is_ws(c: char) -> (b: bool)
    ensures
        b == is_ws(c),
{
    let u = c as u32;
    (0x09 <= u && u <= 0x0D) || u == 0x20 || u == 0x85 || u == 0xA0 || u == 0x1680 || (0x2000 <= u
        && u <= 0x200A) || u == 0x2028 || u == 0x2029 || u == 0x202F || u == 0x205F || u == 0x3000
}

/// `s` without its leading whitespace.
pub open spec fn trim_start(s: Seq<char>) -> Seq<char>
    decreases s.len(),
{
    if s.len() > 0 && is_ws(s[0]) {
        trim_start(s.drop_first())
    } else {
        s
    }
}

/// `s` without its trailing whitespace.
pub open spec fn trim_end(s: Seq<char>) -> Seq<char>
    decreases s.len(),
{
    if s.len() > 0 && is_ws(s.last()) {
        trim_end(s.drop_last())
    } else {
        s
    }
}

/// `s` without leading and trailing whitespace, as `str::trim` gives it.
pub open spec fn trim(s: Seq<char>) -> Seq<char> {
    trim_end(trim_start(s))
}

/// The characters of a string slice.
pub fn chars_of(s: &str) -> (v: Vec<char>)
    ensures
        v@ == s@,
{
    let mut v: Vec<char> = Vec::new();
    for c in it: s.chars()
        invariant
            v@ == it.seq().take(it.index() as int),
    {
        v.push(c);
    }
    v
}

/// Collects characters into a `String` (`FromIterator<char>`). Trusted: the string holds
/// exactly the given characters, in order.
#[verifier::external_body]
pub(crate) fn string_of(chars: &[char]) -> (s: String)
    ensures
        s@ == chars@,
{
    chars.iter().collect()
}

/// The characters `s[lo..hi]`.
pub fn copy_range(s: &[char], lo: usize, hi: usize) -> (r: Vec<char>)
    requires
        lo <= hi <= s@.len(),
    ensures
        r@ == s@.subrange(lo as int, hi as int),
{
    let mut r: Vec<char> = Vec::new();
    let mut i = lo;
    while i < hi
        invariant
            lo <= i <= hi <= s@.len(),
            r@ == s@.subrange(lo as int, i as int),
        decreases hi - i,
    {
        r.push(s[i]);
        i += 1;
        assert(r@ =~= s@.subrange(lo as int, i as int));
    }
    r
}

/// `s` without leading and trailing whitespace.
pub fn trim_chars(s: &[char]) -> (r: Vec<char>)
    ensures
        r@ == trim(s@),
{
    let n = s.len();
    let mut i: usize = 0;
    assert(s@.skip(0) =~= s@);
    while i < n && char_is_ws(s[i])
        invariant
            i <= n == s@.len(),
            trim_start(s@) == trim_start(s@.skip(i as int)),
        decreases n - i,
    {
        assert(s@.skip(i as int).drop_first() =~= s@.skip(i + 1));
        i += 1;
    }
    assert(trim_start(s@.skip(i as int)) == s@.skip(i as int));
    let mut j: usize = n;
    while j > i && char_is_ws(s[j - 1])
        invariant
            i <= j <= n == s@.len(),
            trim_start(s@) == s@.skip(i as int),
            trim_end(s@.skip(i as int)) == trim_end(s@.subrange(i as int, j as int)),
        decreases j,
    {
        assert(s@.subrange(i as int, j as int).drop_last() =~= s@.subrange(i as int, j - 1));
        j -= 1;
    }
    assert(s@.skip(i as int) =~= s@.subrange(i as int, n as int));
    copy_range(s, i, j)
}


/// Appends the characters of `src` to `dst`.
pub fn push_all(dst: &mut Vec<char>, src: &[char])
    ensures
        final(dst)@ == old(dst)@ + src@,
{
    let mut i: usize = 0;
    while i < src.len()
        invariant
            i <= src@.len(),
            dst@ == old(dst)@ + src@.take(i as int),
        decreases src@.len() - i,
    {
        dst.push(src[i]);
        i += 1;
        assert(dst@ =~= old(dst)@ + src@.take(i as int));
    }
    assert(src@.take(src@.len() as int) =~= src@);
}

/// The views of a sequence of character vectors.
pub open spec fn views(v: Seq<Vec<char>>) -> Seq<Seq<char>> {
    v.map_values(|x: Vec<char>| x@)
}

/// The pieces of `s` between the characters that occur in `seps`, in order; empty pieces
/// included, so there is always one more piece than separators.
pub open spec fn split_any(s: Seq<char>, seps: Seq<char>) -> Seq<Seq<char>>
    decreases s.len(),
{
    if s.len() == 0 {
        seq![Seq::empty()]
    } else {
        let init = split_any(s.drop_last(), seps);
        if seps.contains(s.last()) {
            init.push(Seq::empty())
        } else {
            init.update(init.len() - 1, init.last().push(s.last()))
        }
    }
}

pub proof fn lemma_split_any_nonempty(s: Seq<char>, seps: Seq<char>)
    ensures
        split_any(s, seps).len() >= 1,
    decreases s.len(),
{
    if s.len() > 0 {
        lemma_split_any_nonempty(s.drop_last(), seps);
    }
}

fn contains_char(seps: &[char], c: char) -> (b: bool)
    ensures
        b == seps@.contains(c),
{
    let mut i: usize = 0;
    while i < seps.len()
        invariant
            i <= seps@.len(),
            forall|k: int| 0 <= k < i ==> seps@[k] != c,
        decreases seps@.len() - i,
    {
        if seps[i] == c {
            assert(seps@[i as int] == c);
            return true;
        }
        i += 1;
    }
    false
}

/// Splits `s` at every character that occurs in `seps`.
pub fn split_chars(s: &[char], seps: &[char]) -> (r: Vec<Vec<char>>)
    ensures
        views(r@) == split_any(s@, seps@),
{
    let mut pieces: Vec<Vec<char>> = Vec::new();
    let mut cur: Vec<char> = Vec::new();
    let mut i: usize = 0;
    assert(s@.take(0) =~= Seq::<char>::empty());
    assert(views(pieces@).push(cur@) =~= split_any(s@.take(0), seps@));
    while i < s.len()
        invariant
            i <= s@.len(),
            views(pieces@).push(cur@) == split_any(s@.take(i as int), seps@),
        decreases s@.len() - i,
    {
        let c = s[i];
        assert(s@.take(i + 1).drop_last() =~= s@.take(i as int));
        assert(s@.take(i + 1).last() == c);
        let ghost before = split_any(s@.take(i as int), seps@);
        if contains_char(seps, c) {
            let done = cur;
            pieces.push(done);
            cur = Vec::new();
            assert(views(pieces@).push(cur@) =~= before.push(Seq::empty()));
        } else {
            cur.push(c);
            assert(views(pieces@).push(cur@) =~= before.update(
                before.len() - 1,
                before.last().push(c),
            ));
        }
        i += 1;
    }
    assert(s@.take(s@.len() as int) =~= s@);
    pieces.push(cur);
    assert(views(pieces@) =~= split_any(s@, seps@));
    pieces
}


/// A line ending's carriage return, dropped from the end of a line.
pub open spec fn strip_cr(l: Seq<char>) -> Seq<char> {
    if l.len() > 0 && l.last() == '\r' {
        l.drop_last()
    } else {
        l
    }
}

/// Each line with a carriage return at its end dropped.
pub open spec fn strip_crs(ls: Seq<Seq<char>>) -> Seq<Seq<char>> {
    ls.map_values(|l: Seq<char>| strip_cr(l))
}

/// The lines of `s` as `str::lines` yields them: split at `'\n'`, a `'\r'` before a `'\n'`
/// dropped, and no empty line after a final line ending.
pub open spec fn lines(s: Seq<char>) -> Seq<Seq<char>> {
    let p = split_any(s, seq!['\n']);
    let body = strip_crs(p.drop_last());
    if p.last().len() == 0 {
        body
    } else {
        body.push(p.last())
    }
}

fn strip_cr_chars(l: Vec<char>) -> (r: Vec<char>)
    ensures
        r@ == strip_cr(l@),
{
    let mut l = l;
    if l.len() > 0 && l[l.len() - 1] == '\r' {
        l.pop();
    }
    l
}

/// The lines of `s`.
pub fn lines_of(s: &[char]) -> (r: Vec<Vec<char>>)
    ensures
        views(r@) == lines(s@),
{
    let nl = ['\n'];
    let mut pieces = split_chars(s, nl.as_slice());
    assert(nl@ =~= seq!['\n']);
    proof {
        lemma_split_any_nonempty(s@, seq!['\n']);
    }
    let ghost p = split_any(s@, seq!['\n']);
    let last = pieces.pop().unwrap();
    assert(views(pieces@) =~= p.drop_last());
    let mut r: Vec<Vec<char>> = Vec::new();
    let mut i: usize = 0;
    while i < pieces.len()
        invariant
            i <= pieces@.len(),
            p.len() >= 1,
            views(pieces@) == p.drop_last(),
            views(r@) == strip_crs(p.drop_last().take(i as int)),
        decreases pieces@.len() - i,
    {
        let piece = copy_range(pieces[i].as_slice(), 0, pieces[i].len());
        assert(pieces[i as int]@.subrange(0, pieces[i as int]@.len() as int) =~= pieces[i as int]@);
        assert(piece@ == p.drop_last()[i as int]);
        let line = strip_cr_chars(piece);
        let ghost old_r = views(r@);
        let ghost q = p.drop_last();
        r.push(line);
        assert(views(r@) =~= old_r.push(strip_cr(q[i as int])));
        assert(strip_crs(q.take(i + 1)) =~= strip_crs(q.take(i as int)).push(strip_cr(q[i as int])));
        i += 1;
    }
    assert(p.drop_last().take(i as int) =~= p.drop_last());
    assert(last@ == p.last());
    if last.len() > 0 {
        r.push(last);
        assert(views(r@) =~= lines(s@));
    } else {
        assert(views(r@) =~= lines(s@));
    }
    r
}


/// The maximal runs of non-whitespace characters of `s`, as `str::split_whitespace` yields
/// them.
pub open spec fn words(s: Seq<char>) -> Seq<Seq<char>>
    decreases s.len(),
{
    if s.len() == 0 {
        seq![]
    } else {
        let init = words(s.drop_last());
        let c = s.last();
        if is_ws(c) {
            init
        } else if s.len() == 1 || is_ws(s[s.len() - 2]) {
            init.push(seq![c])
        } else {
            init.update(init.len() - 1, init.last().push(c))
        }
    }
}

pub proof fn lemma_words_nonempty(s: Seq<char>)
    requires
        s.len() > 0,
        !is_ws(s.last()),
    ensures
        words(s).len() >= 1,
    decreases s.len(),
{
    let init = words(s.drop_last());
    if s.len() == 1 || is_ws(s[s.len() - 2]) {
    } else {
        assert(s.drop_last().last() == s[s.len() - 2]);
        lemma_words_nonempty(s.drop_last());
    }
}

/// The whitespace-separated words of `s`.
pub fn words_of(s: &[char]) -> (r: Vec<Vec<char>>)
    ensures
        views(r@) == words(s@),
{
    let mut done: Vec<Vec<char>> = Vec::new();
    let mut cur: Vec<char> = Vec::new();
    let mut in_word = false;
    let mut i: usize = 0;
    assert(s@.take(0) =~= Seq::<char>::empty());
    while i < s.len()
        invariant
            i <= s@.len(),
            in_word == (i > 0 && !is_ws(s@[i - 1])),
            in_word ==> views(done@).push(cur@) == words(s@.take(i as int)),
            !in_word ==> views(done@) == words(s@.take(i as int)),
        decreases s@.len() - i,
    {
        let c = s[i];
        let ghost t = s@.take(i + 1);
        assert(t.drop_last() =~= s@.take(i as int));
        assert(t.last() == c);
        assert(i > 0 ==> t[t.len() - 2] == s@[i - 1]);
        if char_is_ws(c) {
            if in_word {
                let w = cur;
                done.push(w);
                cur = Vec::new();
                assert(views(done@) =~= words(t));
            }
            in_word = false;
        } else {
            if in_word {
                proof {
                    lemma_words_nonempty(s@.take(i as int));
                }
                let ghost before = views(done@).push(cur@);
                cur.push(c);
                assert(views(done@).push(cur@) =~= before.update(
                    before.len() - 1,
                    before.last().push(c),
                ));
            } else {
                cur = Vec::new();
                cur.push(c);
                assert(views(done@).push(cur@) =~= words(t));
            }
            in_word = true;
        }
        i += 1;
    }
    assert(s@.take(s@.len() as int) =~= s@);
    if in_word {
        done.push(cur);
    }
    done
}

/// The pieces joined with `sep` between neighbours, as `[T]::join` gives it.
pub open spec fn join(pieces: Seq<Seq<char>>, sep: Seq<char>) -> Seq<char>
    decreases pieces.len(),
{
    if pieces.len() == 0 {
        Seq::empty()
    } else if pieces.len() == 1 {
        pieces[0]
    } else {
        join(pieces.drop_last(), sep) + sep + pieces.last()
    }
}

/// `pieces[..count]` joined with `sep`.
pub fn join_chars(pieces: &Vec<Vec<char>>, count: usize, sep: &[char]) -> (r: Vec<char>)
    requires
        count <= pieces@.len(),
    ensures
        r@ == join(views(pieces@).take(count as int), sep@),
{
    let mut r: Vec<char> = Vec::new();
    let mut i: usize = 0;
    assert(views(pieces@).take(0) =~= Seq::<Seq<char>>::empty());
    while i < count
        invariant
            i <= count <= pieces@.len(),
            r@ == join(views(pieces@).take(i as int), sep@),
        decreases count - i,
    {
        assert(views(pieces@).take(i + 1).drop_last() =~= views(pieces@).take(i as int));
        if i > 0 {
            push_all(&mut r, sep);
        } else {
            assert(r@ =~= Seq::<char>::empty());
        }
        push_all(&mut r, pieces[i].as_slice());
        i += 1;
    }
    r
}

/// The position of the last `c` in `s`.
pub open spec fn last_index_of(s: Seq<char>, c: char) -> Option<int>
    decreases s.len(),
{
    if s.len() == 0 {
        None
    } else if s.last() == c {
        Some(s.len() - 1)
    } else {
        last_index_of(s.drop_last(), c)
    }
}

pub proof fn lemma_last_index_of_bounds(s: Seq<char>, c: char)
    ensures
        last_index_of(s, c) matches Some(k) ==> 0 <= k < s.len() && s[k] == c,
    decreases s.len(),
{
    if s.len() > 0 && s.last() != c {
        lemma_last_index_of_bounds(s.drop_last(), c);
    }
}

/// The position of the last `c` in `s`.
pub fn rfind_char(s: &[char], c: char) -> (r: Option<usize>)
    ensures
        r matches Some(k) ==> last_index_of(s@, c) == Some(k as int),
        r is None ==> last_index_of(s@, c) is None,
{
    let mut j: usize = s.len();
    assert(s@.take(s@.len() as int) =~= s@);
    while j > 0
        invariant
            j <= s@.len(),
            last_index_of(s@, c) == last_index_of(s@.take(j as int), c),
        decreases j,
    {
        assert(s@.take(j as int).drop_last() =~= s@.take(j - 1));
        if s[j - 1] == c {
            return Some(j - 1);
        }
        j -= 1;
    }
    None
}

/// Whether `s` starts with `pat`.
pub open spec fn starts_with(s: Seq<char>, pat: Seq<char>) -> bool {
    pat.len() <= s.len() && s.take(pat.len() as int) == pat
}

/// The position of the first occurrence of `pat` in `s`.
pub open spec fn find_seq(s: Seq<char>, pat: Seq<char>) -> Option<int>
    decreases s.len(),
{
    if starts_with(s, pat) {
        Some(0)
    } else if s.len() == 0 {
        None
    } else {
        match find_seq(s.drop_first(), pat) {
            Some(i) => Some(i + 1),
            None => None,
        }
    }
}

/// A position moved on by `by`.
pub open spec fn shift(o: Option<int>, by: int) -> Option<int> {
    match o {
        Some(i) => Some(i + by),
        None => None,
    }
}

pub proof fn lemma_find_seq_bounds(s: Seq<char>, pat: Seq<char>)
    ensures
        find_seq(s, pat) matches Some(k) ==> 0 <= k && k + pat.len() <= s.len()
            && s.subrange(k, k + pat.len()) == pat,
    decreases s.len(),
{
    if starts_with(s, pat) {
    } else if s.len() > 0 {
        lemma_find_seq_bounds(s.drop_first(), pat);
        if let Some(k) = find_seq(s.drop_first(), pat) {
            assert(s.subrange(k + 1, k + 1 + pat.len()) =~= s.drop_first().subrange(k, k + pat.len()));
        }
    }
}

/// Whether `s[at..]` starts with `pat`.
pub fn starts_with_at(s: &[char], at: usize, pat: &[char]) -> (b: bool)
    requires
        at <= s@.len(),
    ensures
        b == starts_with(s@.skip(at as int), pat@),
{
    if pat.len() > s.len() - at {
        return false;
    }
    let n = s.len();
    let mut k: usize = 0;
    while k < pat.len()
        invariant
            n == s@.len(),
            at <= s@.len(),
            k <= pat@.len() <= s@.len() - at,
            forall|m: int| 0 <= m < k ==> s@[at + m] == pat@[m],
        decreases pat@.len() - k,
    {
        if s[at + k] != pat[k] {
            assert(s@.skip(at as int).take(pat@.len() as int)[k as int] != pat@[k as int]);
            return false;
        }
        k += 1;
    }
    assert(s@.skip(at as int).take(pat@.len() as int) =~= pat@);
    true
}

/// The position of the first occurrence of `pat` in `s`.
pub fn find_chars(s: &[char], pat: &[char]) -> (r: Option<usize>)
    ensures
        r matches Some(k) ==> find_seq(s@, pat@) == Some(k as int),
        r is None ==> find_seq(s@, pat@) is None,
{
    let mut i: usize = 0;
    assert(s@.skip(0) =~= s@);
    while i < s.len()
        invariant
            i <= s@.len(),
            find_seq(s@, pat@) == shift(find_seq(s@.skip(i as int), pat@), i as int),
        decreases s@.len() - i,
    {
        if starts_with_at(s, i, pat) {
            return Some(i);
        }
        assert(s@.skip(i as int).drop_first() =~= s@.skip(i + 1));
        i += 1;
    }
    if starts_with_at(s, i, pat) {
        return Some(i);
    }
    assert(s@.skip(i as int).len() == 0);
    None
}

/// `s` with every leading repetition of a nonempty `pat` removed, as
/// `str::trim_start_matches` gives it.
pub open spec fn strip_prefixes(s: Seq<char>, pat: Seq<char>) -> Seq<char>
    decreases s.len(),
{
    if pat.len() > 0 && starts_with(s, pat) {
        strip_prefixes(s.skip(pat.len() as int), pat)
    } else {
        s
    }
}

/// `s` with every leading repetition of `pat` removed.
pub fn strip_prefixes_chars(s: &[char], pat: &[char]) -> (r: Vec<char>)
    ensures
        r@ == strip_prefixes(s@, pat@),
{
    let mut i: usize = 0;
    assert(s@.skip(0) =~= s@);
    while pat.len() > 0 && i <= s.len() && starts_with_at(s, i, pat)
        invariant
            i <= s@.len(),
            strip_prefixes(s@, pat@) == strip_prefixes(s@.skip(i as int), pat@),
        decreases s@.len() - i,
    {
        assert(pat@.len() <= s@.len() - i);
        assert(s@.skip(i as int).skip(pat@.len() as int) =~= s@.skip(i + pat@.len()));
        i += pat.len();
    }
    let r = copy_range(s, i, s.len());
    assert(s@.subrange(i as int, s@.len() as int) =~= s@.skip(i as int));
    r
}


/// An ASCII decimal digit.
pub open spec fn is_digit(c: char) -> bool {
    '0' as u32 <= c as u32 <= '9' as u32
}

/// The value of a decimal digit.
pub open spec fn digit_value(c: char) -> nat {
    (c as u32 - '0' as u32) as nat
}

/// Every character of `s` is a decimal digit.
pub open spec fn all_digits(s: Seq<char>) -> bool {
    forall|i: int| 0 <= i < s.len() ==> is_digit(#[trigger] s[i])
}

/// The number that the decimal digits `s` spell.
pub open spec fn digits_value(s: Seq<char>) -> nat
    decreases s.len(),
{
    if s.len() == 0 {
        0
    } else {
        digits_value(s.drop_last()) * 10 + digit_value(s.last())
    }
}

/// `s` without one leading `'+'`.
pub open spec fn unsigned_digits(s: Seq<char>) -> Seq<char> {
    if s.len() > 0 && s[0] == '+' {
        s.drop_first()
    } else {
        s
    }
}

/// What `u32::from_str` gives: an optional `'+'`, then at least one decimal digit, with a
/// value that fits.
pub open spec fn parse_u32(s: Seq<char>) -> Option<u32> {
    let d = unsigned_digits(s);
    if d.len() > 0 && all_digits(d) && digits_value(d) <= u32::MAX {
        Some(digits_value(d) as u32)
    } else {
        None
    }
}

/// Whether `c` is a decimal digit.
pub fn char_is_digit(c: char) -> (b: bool)
    ensures
        b == is_digit(c),
{
    '0' <= c && c <= '9'
}

/// Whether every character of `s` is a decimal digit.
pub fn chars_all_digits(s: &[char]) -> (b: bool)
    ensures
        b == all_digits(s@),
{
    let mut i: usize = 0;
    while i < s.len()
        invariant
            i <= s@.len(),
            forall|k: int| 0 <= k < i ==> is_digit(#[trigger] s@[k]),
        decreases s@.len() - i,
    {
        if !char_is_digit(s[i]) {
            return false;
        }
        i += 1;
    }
    true
}

/// The value of the digits `s`, or `None` where it does not fit in a `u32`.
fn digits_u32(s: &[char]) -> (r: Option<u32>)
    requires
        all_digits(s@),
    ensures
        r matches Some(v) ==> digits_value(s@) <= u32::MAX && v == digits_value(s@),
        r is None ==> digits_value(s@) > u32::MAX,
{
    let big: u64 = 0x1_0000_0000;
    let mut acc: u64 = 0;
    let mut i: usize = 0;
    assert(s@.take(0) =~= Seq::<char>::empty());
    while i < s.len()
        invariant
            i <= s@.len(),
            all_digits(s@),
            big == 0x1_0000_0000,
            acc <= big,
            acc == if digits_value(s@.take(i as int)) < big {
                digits_value(s@.take(i as int))
            } else {
                big as nat
            },
        decreases s@.len() - i,
    {
        assert(is_digit(s@[i as int]));
        let d = (s[i] as u32 - '0' as u32) as u64;
        assert(d < 10);
        assert(s@.take(i + 1).drop_last() =~= s@.take(i as int));
        let ghost prev = digits_value(s@.take(i as int));
        assert(digits_value(s@.take(i + 1)) == prev * 10 + d);
        let next = acc * 10 + d;
        acc = if next < big {
            next
        } else {
            big
        };
        i += 1;
    }
    assert(s@.take(s@.len() as int) =~= s@);
    if acc < big {
        Some(acc as u32)
    } else {
        None
    }
}

/// The number that `s` spells, as `u32::from_str` reads it.
pub fn parse_u32_chars(s: &[char]) -> (r: Option<u32>)
    ensures
        r == parse_u32(s@),
{
    let d: Vec<char> = if s.len() > 0 && s[0] == '+' {
        copy_range(s, 1, s.len())
    } else {
        copy_range(s, 0, s.len())
    };
    assert(s@.subrange(0, s@.len() as int) =~= s@);
    assert(s@.len() > 0 ==> s@.subrange(1, s@.len() as int) =~= s@.drop_first());
    if d.len() == 0 || !chars_all_digits(d.as_slice()) {
        return None;
    }
    digits_u32(d.as_slice())
}

/// The decimal digit for `d < 10`.
pub open spec fn digit_char(d: nat) -> char {
    if d == 0 {
        '0'
    } else if d == 1 {
        '1'
    } else if d == 2 {
        '2'
    } else if d == 3 {
        '3'
    } else if d == 4 {
        '4'
    } else if d == 5 {
        '5'
    } else if d == 6 {
        '6'
    } else if d == 7 {
        '7'
    } else if d == 8 {
        '8'
    } else {
        '9'
    }
}

/// The decimal digits of `n`, without leading zeros, as `{}` formats an integer.
pub open spec fn decimal(n: nat) -> Seq<char>
    decreases n,
{
    if n < 10 {
        seq![digit_char(n)]
    } else {
        decimal(n / 10).push(digit_char(n % 10))
    }
}

fn digit_char_exec(d: u32) -> (c: char)
    requires
        d < 10,
    ensures
        c == digit_char(d as nat),
{
    if d == 0 {
        '0'
    } else if d == 1 {
        '1'
    } else if d == 2 {
        '2'
    } else if d == 3 {
        '3'
    } else if d == 4 {
        '4'
    } else if d == 5 {
        '5'
    } else if d == 6 {
        '6'
    } else if d == 7 {
        '7'
    } else if d == 8 {
        '8'
    } else {
        '9'
    }
}

/// Appends the decimal digits of `n` to `out`.
pub fn push_decimal(out: &mut Vec<char>, n: u64)
    ensures
        final(out)@ == old(out)@ + decimal(n as nat),
    decreases n,
{
    if n >= 10 {
        push_decimal(out, n / 10);
    }
    out.push(digit_char_exec((n % 10) as u32));
    assert(final(out)@ =~= old(out)@ + decimal(n as nat));
}

/// Appends the characters of `s` to `out`.
pub fn push_str(out: &mut Vec<char>, s: &str)
    ensures
        final(out)@ == old(out)@ + s@,
{
    let chars = chars_of(s);
    push_all(out, chars.as_slice());
}

pub proof fn lemma_digit_char(d: nat)
    requires
        d < 10,
    ensures
        is_digit(digit_char(d)),
        digit_value(digit_char(d)) == d,
        digit_char(d) != '+',
{
}

pub proof fn lemma_decimal_digits(n: nat)
    ensures
        decimal(n).len() > 0,
        all_digits(decimal(n)),
        digits_value(decimal(n)) == n,
        decimal(n)[0] != '+',
    decreases n,
{
    lemma_digit_char(n % 10);
    if n < 10 {
        lemma_digit_char(n);
        assert(decimal(n).drop_last() =~= Seq::<char>::empty());
        assert(digits_value(Seq::<char>::empty()) == 0);
        assert(digits_value(decimal(n)) == digits_value(decimal(n).drop_last()) * 10 + digit_value(decimal(n).last()));
        assert(digit_value(decimal(n).last()) == n);
    } else {
        lemma_decimal_digits(n / 10);
        vstd::arithmetic::div_mod::lemma_fundamental_div_mod(n as int, 10);
        let d = decimal(n);
        assert(d.drop_last() =~= decimal(n / 10));
        assert(digits_value(d) == digits_value(decimal(n / 10)) * 10 + digit_value(digit_char(n % 10)));
        assert(digits_value(d) == (n / 10) * 10 + n % 10);
        assert forall|i: int| 0 <= i < d.len() implies is_digit(#[trigger] d[i]) by {
            if i < d.len() - 1 {
                assert(d[i] == decimal(n / 10)[i]);
            }
        }
    }
}

/// The number of bytes that `c` takes in UTF-8.
pub open spec fn utf8_len(c: char) -> nat {
    let u = c as u32;
    if u < 0x80 {
        1
    } else if u < 0x800 {
        2
    } else if u < 0x10000 {
        3
    } else {
        4
    }
}

/// The number of bytes that `s` takes in UTF-8, as `str::len` counts them.
pub open spec fn byte_len(s: Seq<char>) -> nat
    decreases s.len(),
{
    if s.len() == 0 {
        0
    } else {
        byte_len(s.drop_last()) + utf8_len(s.last())
    }
}

pub fn char_utf8_len(c: char) -> (n: usize)
    ensures
        n == utf8_len(c),
{
    let u = c as u32;
    if u < 0x80 {
        1
    } else if u < 0x800 {
        2
    } else if u < 0x10000 {
        3
    } else {
        4
    }
}

/// Byte offset `b` falls between two characters of `s` (or at its ends).
pub open spec fn is_char_boundary(s: Seq<char>, b: int) -> bool {
    exists|k: int| 0 <= k <= s.len() && #[trigger] byte_len(s.take(k)) == b
}

pub proof fn lemma_byte_len_take_mono(s: Seq<char>, j: int, k: int)
    requires
        0 <= j <= k <= s.len(),
    ensures
        byte_len(s.take(j)) + (k - j) <= byte_len(s.take(k)),
    decreases k - j,
{
    if j < k {
        lemma_byte_len_take_mono(s, j, k - 1);
        assert(s.take(k).drop_last() =~= s.take(k - 1));
    }
}

/// An ASCII character.
pub open spec fn is_ascii_char(c: char) -> bool {
    (c as u32) < 128
}

/// All characters of `s` are ASCII.
pub open spec fn all_ascii(s: Seq<char>) -> bool {
    forall|i: int| 0 <= i < s.len() ==> is_ascii_char(#[trigger] s[i])
}

/// `c` with `a`-`z` sent to `A`-`Z`.
pub open spec fn ascii_upper(c: char) -> char {
    if 97 <= (c as u32) <= 122 {
        ((c as u32) - 32) as char
    } else {
        c
    }
}

/// `c` with `A`-`Z` sent to `a`-`z`.
pub open spec fn ascii_lower(c: char) -> char {
    if 65 <= (c as u32) <= 90 {
        ((c as u32) + 32) as char
    } else {
        c
    }
}

/// `s` with `a`-`z` sent to `A`-`Z`.
pub open spec fn ascii_upper_all(s: Seq<char>) -> Seq<char> {
    s.map_values(|c: char| ascii_upper(c))
}

/// `s` with `A`-`Z` sent to `a`-`z`.
pub open spec fn ascii_lower_all(s: Seq<char>) -> Seq<char> {
    s.map_values(|c: char| ascii_lower(c))
}

/// The Unicode upper-case mapping of a text that is not all ASCII.
pub uninterp spec fn uppercase(s: Seq<char>) -> Seq<char>;

/// The Unicode lower-case mapping of a text that is not all ASCII.
pub uninterp spec fn lowercase(s: Seq<char>) -> Seq<char>;

/// What `str::to_uppercase` gives: on ASCII text, `a`-`z` become `A`-`Z` and every other
/// character stays; on other text, `uppercase`.
pub open spec fn upper_case(s: Seq<char>) -> Seq<char> {
    if all_ascii(s) {
        ascii_upper_all(s)
    } else {
        uppercase(s)
    }
}

/// What `str::to_lowercase` gives: on ASCII text, `A`-`Z` become `a`-`z` and every other
/// character stays; on other text, `lowercase`.
pub open spec fn lower_case(s: Seq<char>) -> Seq<char> {
    if all_ascii(s) {
        ascii_lower_all(s)
    } else {
        lowercase(s)
    }
}

/// Calls `str::to_uppercase`. Trusted: Unicode's upper-case mapping, which the function
/// applies, sends the ASCII letters `a`-`z` to `A`-`Z` and leaves the other ASCII characters
/// as they are; on text that is not all ASCII the result is `uppercase` of the input, a
/// function of the input alone, and what that mapping is (Unicode's case tables) is left
/// unsaid.
#[verifier::external_body]
pub(crate) fn to_uppercase(s: &str) -> (r: String)
    ensures
        all_ascii(s@) ==> r@ == ascii_upper_all(s@),
        !all_ascii(s@) ==> r@ == uppercase(s@),
{
    s.to_uppercase()
}

/// Calls `str::to_lowercase`. Trusted: Unicode's lower-case mapping, which the function
/// applies, sends the ASCII letters `A`-`Z` to `a`-`z` and leaves the other ASCII characters
/// as they are; on text that is not all ASCII the result is `lowercase` of the input, a
/// function of the input alone, and what that mapping is (Unicode's case tables) is left
/// unsaid.
#[verifier::external_body]
pub(crate) fn to_lowercase(s: &str) -> (r: String)
    ensures
        all_ascii(s@) ==> r@ == ascii_lower_all(s@),
        !all_ascii(s@) ==> r@ == lowercase(s@),
{
    s.to_lowercase()
}

/// `s` without its `' '` characters, as `str::replace(' ', "")` gives it.
pub open spec fn without_spaces(s: Seq<char>) -> Seq<char>
    decreases s.len(),
{
    if s.len() == 0 {
        s
    } else if s.last() == ' ' {
        without_spaces(s.drop_last())
    } else {
        without_spaces(s.drop_last()).push(s.last())
    }
}

pub fn without_spaces_chars(s: &[char]) -> (r: Vec<char>)
    ensures
        r@ == without_spaces(s@),
{
    let mut r: Vec<char> = Vec::new();
    let mut i: usize = 0;
    assert(s@.take(0) =~= Seq::<char>::empty());
    while i < s.len()
        invariant
            i <= s@.len(),
            r@ == without_spaces(s@.take(i as int)),
        decreases s@.len() - i,
    {
        assert(s@.take(i + 1).drop_last() =~= s@.take(i as int));
        if s[i] != ' ' {
            r.push(s[i]);
        }
        i += 1;
    }
    assert(s@.take(s@.len() as int) =~= s@);
    r
}

/// Whether two character sequences are equal.
pub fn chars_eq(a: &[char], b: &[char]) -> (r: bool)
    ensures
        r == (a@ == b@),
{
    if a.len() != b.len() {
        return false;
    }
    let mut i: usize = 0;
    while i < a.len()
        invariant
            i <= a@.len() == b@.len(),
            forall|k: int| 0 <= k < i ==> a@[k] == b@[k],
        decreases a@.len() - i,
    {
        if a[i] != b[i] {
            return false;
        }
        i += 1;
    }
    assert(a@ =~= b@);
    true
}

/// Whether the characters `a` spell the string `b`.
pub fn chars_eq_str(a: &[char], b: &str) -> (r: bool)
    ensures
        r == (a@ == b@),
{
    let bc = chars_of(b);
    chars_eq(a, bc.as_slice())
}


pub proof fn lemma_byte_len_bounds(s: Seq<char>)
    ensures
        s.len() <= byte_len(s) <= 4 * s.len(),
    decreases s.len(),
{
    if s.len() > 0 {
        lemma_byte_len_bounds(s.drop_last());
    }
}

/// The number of UTF-8 bytes of `s[..k]`.
pub fn prefix_byte_len(s: &[char], k: usize) -> (n: u128)
    requires
        k <= s@.len(),
    ensures
        n == byte_len(s@.take(k as int)),
{
    let mut acc: u128 = 0;
    let mut i: usize = 0;
    assert(s@.take(0) =~= Seq::<char>::empty());
    while i < k
        invariant
            i <= k <= s@.len(),
            acc == byte_len(s@.take(i as int)),
        decreases k - i,
    {
        proof {
            lemma_byte_len_bounds(s@.take(i as int));
        }
        assert(s@.take(i + 1).drop_last() =~= s@.take(i as int));
        acc = acc + char_utf8_len(s[i]) as u128;
        i += 1;
    }
    acc
}

/// The position of the character that starts at byte offset `b` of `s`, or `s.len()` for
/// `b == byte_len(s)`.
pub open spec fn char_index_at_byte(s: Seq<char>, b: int) -> int {
    choose|k: int| 0 <= k <= s.len() && #[trigger] byte_len(s.take(k)) == b
}

pub proof fn lemma_byte_len_take_strict(s: Seq<char>, j: int, k: int)
    requires
        0 <= j < k <= s.len(),
    ensures
        byte_len(s.take(j)) < byte_len(s.take(k)),
{
    lemma_byte_len_take_mono(s, j, k);
}

/// The character position of byte offset `b`, where `b` falls between characters of `s`.
pub fn char_index_of_byte(s: &[char], b: u128) -> (k: usize)
    requires
        is_char_boundary(s@, b as int),
    ensures
        k == char_index_at_byte(s@, b as int),
        0 <= k <= s@.len(),
        byte_len(s@.take(k as int)) == b,
{
    let ghost w = char_index_at_byte(s@, b as int);
    let mut acc: u128 = 0;
    let mut i: usize = 0;
    assert(s@.take(0) =~= Seq::<char>::empty());
    while i < s.len() && acc < b
        invariant
            i <= s@.len(),
            0 <= w <= s@.len(),
            byte_len(s@.take(w)) == b,
            acc == byte_len(s@.take(i as int)),
            i <= w,
        decreases s@.len() - i,
    {
        proof {
            lemma_byte_len_bounds(s@.take(i as int));
            if w == i {
            } else {
                lemma_byte_len_take_strict(s@, i as int, w);
            }
        }
        assert(s@.take(i + 1).drop_last() =~= s@.take(i as int));
        acc = acc + char_utf8_len(s[i]) as u128;
        i += 1;
        proof {
            if i > w {
                lemma_byte_len_take_strict(s@, w, i as int);
            }
        }
    }
    proof {
        if i < w {
            lemma_byte_len_take_strict(s@, i as int, w);
        }
    }
    i
}


/// Whether byte offset `b` falls between two characters of `s` (or at its ends).
pub fn has_char_boundary(s: &[char], b: u128) -> (r: bool)
    ensures
        r == is_char_boundary(s@, b as int),
{
    let mut acc: u128 = 0;
    let mut i: usize = 0;
    assert(s@.take(0) =~= Seq::<char>::empty());
    while i < s.len() && acc < b
        invariant
            i <= s@.len(),
            acc == byte_len(s@.take(i as int)),
            forall|k: int| 0 <= k < i ==> #[trigger] byte_len(s@.take(k)) < b,
        decreases s@.len() - i,
    {
        proof {
            lemma_byte_len_bounds(s@.take(i as int));
        }
        assert(s@.take(i + 1).drop_last() =~= s@.take(i as int));
        acc = acc + char_utf8_len(s[i]) as u128;
        i += 1;
    }
    if acc == b {
        return true;
    }
    proof {
        assert forall|k: int| 0 <= k <= s@.len() implies #[trigger] byte_len(s@.take(k)) != b by {
            if k > i {
                lemma_byte_len_take_mono(s@, i as int, k);
                if i == s@.len() {
                }
            }
        }
        if i == s@.len() {
            assert forall|k: int| 0 <= k <= s@.len() implies #[trigger] byte_len(s@.take(k)) != b by {
                if k < i {
                } else {
                    assert(k == i);
                }
            }
        }
    }
    false
}

} // verus!

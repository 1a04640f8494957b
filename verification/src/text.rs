//! Character-level text utilities shared by the parsers and formatters:
//! ASCII lowercasing, whitespace trimming, substring search, and decimal
//! digit formatting and parsing, each with an exact specification.

use vstd::prelude::*;

verus! {

/// Relies on String::push: appends one character to the string.
#[verifier::external_body]
pub fn push_char(s: &mut String, c: char)
    ensures
        final(s)@ == old(s)@.push(c),
{
    s.push(c)
}

/// The ASCII-lowercase image of one character: letters `A`..`Z` map to
/// `a`..`z`, every other character is unchanged.
pub open spec fn lower_char(c: char) -> char {
    if 'A' <= c && c <= 'Z' {
        ((c as u32) + 32) as char
    } else {
        c
    }
}

/// The ASCII-lowercase image of a character sequence.
pub open spec fn lower_seq(s: Seq<char>) -> Seq<char> {
    s.map_values(|c: char| lower_char(c))
}

pub fn lower_char_exec(c: char) -> (r: char)
    ensures
        r == lower_char(c),
{
    match c {
        'A' => 'a',
        'B' => 'b',
        'C' => 'c',
        'D' => 'd',
        'E' => 'e',
        'F' => 'f',
        'G' => 'g',
        'H' => 'h',
        'I' => 'i',
        'J' => 'j',
        'K' => 'k',
        'L' => 'l',
        'M' => 'm',
        'N' => 'n',
        'O' => 'o',
        'P' => 'p',
        'Q' => 'q',
        'R' => 'r',
        'S' => 's',
        'T' => 't',
        'U' => 'u',
        'V' => 'v',
        'W' => 'w',
        'X' => 'x',
        'Y' => 'y',
        'Z' => 'z',
        _ => c,
    }
}

/// ASCII-lowercases a string, character by character.
pub fn to_ascii_lower(s: &str) -> (r: String)
    ensures
        r@ == lower_seq(s@),
{
    let n: usize = s.unicode_len();
    let mut r: String = String::new();
    let mut i: usize = 0;
    while i < n
        invariant
            n == s@.len(),
            0 <= i <= n,
            r@ == lower_seq(s@.subrange(0, i as int)),
        decreases n - i,
    {
        let c: char = s.get_char(i);
        let l: char = lower_char_exec(c);
        push_char(&mut r, l);
        proof {
            assert(s@.subrange(0, i + 1) =~= s@.subrange(0, i as int).push(s@[i as int]));
            assert(lower_seq(s@.subrange(0, i + 1)) =~= lower_seq(
                s@.subrange(0, i as int),
            ).push(lower_char(s@[i as int])));
        }
        i = i + 1;
    }
    proof {
        assert(s@.subrange(0, n as int) =~= s@);
    }
    r
}

/// Whitespace as this library trims it: the ASCII whitespace characters.
pub open spec fn is_space_char(c: char) -> bool {
    c == ' ' || c == '\t' || c == '\n' || c == '\r' || c == '\u{b}' || c == '\u{c}'
}

pub fn is_space_char_exec(c: char) -> (r: bool)
    ensures
        r == is_space_char(c),
{
    c == ' ' || c == '\t' || c == '\n' || c == '\r' || c == '\u{b}' || c == '\u{c}'
}

/// The sequence with its leading characters satisfying `p` removed.
pub open spec fn trim_front_p(s: Seq<char>, p: spec_fn(char) -> bool) -> Seq<char>
    decreases s.len(),
{
    if s.len() > 0 && p(s[0]) {
        trim_front_p(s.drop_first(), p)
    } else {
        s
    }
}

/// The sequence with its trailing characters satisfying `p` removed.
pub open spec fn trim_back_p(s: Seq<char>, p: spec_fn(char) -> bool) -> Seq<char>
    decreases s.len(),
{
    if s.len() > 0 && p(s.last()) {
        trim_back_p(s.drop_last(), p)
    } else {
        s
    }
}

/// The sequence with leading whitespace removed.
pub open spec fn trim_front(s: Seq<char>) -> Seq<char> {
    trim_front_p(s, |c: char| is_space_char(c))
}

/// The sequence with trailing whitespace removed.
pub open spec fn trim_back(s: Seq<char>) -> Seq<char> {
    trim_back_p(s, |c: char| is_space_char(c))
}

/// The sequence with both leading and trailing whitespace removed.
pub open spec fn spec_trim(s: Seq<char>) -> Seq<char> {
    trim_back(trim_front(s))
}

/// Trimming from the front keeps the suffix that starts at the first
/// character not satisfying `p`.
pub proof fn lemma_trim_front_p_subrange(s: Seq<char>, i: int, p: spec_fn(char) -> bool)
    requires
        0 <= i <= s.len(),
        forall|k: int| 0 <= k < i ==> p(s[k]),
        i == s.len() || !p(s[i]),
    ensures
        trim_front_p(s, p) == s.subrange(i, s.len() as int),
    decreases i,
{
    if i == 0 {
        assert(s.subrange(0, s.len() as int) =~= s);
    } else {
        assert(p(s[0]));
        lemma_trim_front_p_subrange(s.drop_first(), i - 1, p);
        assert(s.drop_first().subrange(i - 1, s.drop_first().len() as int) =~= s.subrange(
            i,
            s.len() as int,
        ));
    }
}

/// Trimming from the back keeps the prefix that ends after the last
/// character not satisfying `p`.
pub proof fn lemma_trim_back_p_subrange(s: Seq<char>, j: int, p: spec_fn(char) -> bool)
    requires
        0 <= j <= s.len(),
        forall|k: int| j <= k < s.len() ==> p(s[k]),
        j == 0 || !p(s[j - 1]),
    ensures
        trim_back_p(s, p) == s.subrange(0, j),
    decreases s.len() - j,
{
    if j == s.len() {
        if s.len() > 0 && p(s.last()) {
            assert(!p(s[j - 1]));
            assert(false);
        }
        assert(s.subrange(0, s.len() as int) =~= s);
    } else {
        assert(p(s.last()));
        lemma_trim_back_p_subrange(s.drop_last(), j, p);
        assert(s.drop_last().subrange(0, j) =~= s.subrange(0, j));
    }
}

/// A front-trimmed sequence is a suffix of the original whose first
/// character, if any, does not satisfy `p`.
pub proof fn lemma_trim_front_p_structure(s: Seq<char>, p: spec_fn(char) -> bool)
    ensures
        trim_front_p(s, p).len() <= s.len(),
        trim_front_p(s, p) == s.subrange(
            s.len() - trim_front_p(s, p).len(),
            s.len() as int,
        ),
        trim_front_p(s, p).len() == 0 || !p(trim_front_p(s, p)[0]),
    decreases s.len(),
{
    if s.len() > 0 && p(s[0]) {
        lemma_trim_front_p_structure(s.drop_first(), p);
        let r = trim_front_p(s, p);
        assert(s.drop_first().subrange(
            s.drop_first().len() - r.len(),
            s.drop_first().len() as int,
        ) =~= s.subrange(s.len() - r.len(), s.len() as int));
    } else {
        assert(s.subrange(0, s.len() as int) =~= s);
    }
}

/// A back-trimmed sequence is a prefix of the original; everything after
/// it satisfies `p`, and its own last character, if any, does not.
pub proof fn lemma_trim_back_p_structure(s: Seq<char>, p: spec_fn(char) -> bool)
    ensures
        trim_back_p(s, p).len() <= s.len(),
        trim_back_p(s, p) == s.subrange(0, trim_back_p(s, p).len() as int),
        forall|k: int| trim_back_p(s, p).len() <= k < s.len() ==> p(s[k]),
        trim_back_p(s, p).len() == 0 || !p(trim_back_p(s, p)[trim_back_p(s, p).len() - 1]),
    decreases s.len(),
{
    if s.len() > 0 && p(s.last()) {
        lemma_trim_back_p_structure(s.drop_last(), p);
        let r = trim_back_p(s, p);
        assert(s.drop_last().subrange(0, r.len() as int) =~= s.subrange(0, r.len() as int));
        assert forall|k: int| r.len() <= k < s.len() implies p(s[k]) by {
            if k < s.len() - 1 {
                assert(p(s.drop_last()[k]));
                assert(s.drop_last()[k] == s[k]);
            } else {
                assert(s[k] == s.last());
            }
        }
    } else {
        assert(s.subrange(0, s.len() as int) =~= s);
    }
}

/// Removes leading and trailing whitespace.
pub fn trim_str(s: &str) -> (r: String)
    ensures
        r@ == spec_trim(s@),
{
    let n: usize = s.unicode_len();
    let mut i: usize = 0;
    while i < n && is_space_char_exec(s.get_char(i))
        invariant
            n == s@.len(),
            0 <= i <= n,
            forall|k: int| 0 <= k < i ==> is_space_char(s@[k]),
        decreases n - i,
    {
        i = i + 1;
    }
    let mut j: usize = n;
    while j > i && is_space_char_exec(s.get_char(j - 1))
        invariant
            n == s@.len(),
            0 <= i <= j <= n,
            forall|k: int| 0 <= k < i ==> is_space_char(s@[k]),
            forall|k: int| j <= k < n ==> is_space_char(s@[k]),
        decreases j,
    {
        j = j - 1;
    }
    let sub: &str = s.substring_char(i, j);
    proof {
        lemma_trim_front_p_subrange(s@, i as int, |c: char| is_space_char(c));
        let t = s@.subrange(i as int, n as int);
        lemma_trim_back_p_subrange(t, j - i, |c: char| is_space_char(c));
        assert(t.subrange(0, j - i) =~= s@.subrange(i as int, j as int));
    }
    String::from_str(sub)
}

/// Whether `n` occurs as a contiguous run of `h` starting at index `k`.
pub open spec fn matches_at(h: Seq<char>, n: Seq<char>, k: int) -> bool {
    0 <= k && k + n.len() <= h.len() && h.subrange(k, k + n.len() as int) == n
}

/// Whether `n` occurs anywhere inside `h`.
pub open spec fn contains_seq(h: Seq<char>, n: Seq<char>) -> bool {
    exists|k: int| matches_at(h, n, k)
}

fn matches_at_exec(h: &str, n: &str, k: usize) -> (r: bool)
    requires
        k + n@.len() <= h@.len(),
    ensures
        r == matches_at(h@, n@, k as int),
{
    let hl: usize = h.unicode_len();
    let nl: usize = n.unicode_len();
    let mut p: usize = 0;
    while p < nl
        invariant
            hl == h@.len(),
            nl == n@.len(),
            k + nl <= hl,
            0 <= p <= nl,
            forall|q: int| 0 <= q < p ==> h@[k + q] == n@[q],
        decreases nl - p,
    {
        if h.get_char(k + p) != n.get_char(p) {
            proof {
                assert(h@.subrange(k as int, k + nl as int)[p as int] == h@[k + p]);
            }
            return false;
        }
        p = p + 1;
    }
    proof {
        assert(h@.subrange(k as int, k + nl as int) =~= n@);
    }
    true
}

/// Finds the first occurrence of `n` inside `h`.
/// Returns the index of the first match, or `None` when there is none.
pub fn find_sub(h: &str, n: &str) -> (r: Option<usize>)
    ensures
        match r {
            Some(k) => matches_at(h@, n@, k as int) && forall|q: int|
                0 <= q < k ==> !matches_at(h@, n@, q),
            None => !contains_seq(h@, n@),
        },
{
    let hl: usize = h.unicode_len();
    let nl: usize = n.unicode_len();
    if nl > hl {
        proof {
            assert(forall|k: int| !matches_at(h@, n@, k));
        }
        return None;
    }
    if nl == 0 {
        proof {
            assert(h@.subrange(0, 0) =~= n@);
        }
        return Some(0);
    }
    let mut k: usize = 0;
    while k <= hl - nl
        invariant
            hl == h@.len(),
            nl == n@.len(),
            0 < nl <= hl,
            0 <= k <= hl - nl + 1,
            forall|q: int| 0 <= q < k ==> !matches_at(h@, n@, q),
        decreases hl - nl + 1 - k,
    {
        if matches_at_exec(h, n, k) {
            return Some(k);
        }
        k = k + 1;
    }
    proof {
        assert(forall|q: int| matches_at(h@, n@, q) ==> 0 <= q <= hl - nl);
    }
    None
}

/// The first index at which `n` occurs inside `h`, if any.
pub open spec fn find_first_sub(h: Seq<char>, n: Seq<char>) -> Option<int>
    decreases h.len(),
{
    if n.len() > h.len() {
        None
    } else if h.subrange(0, n.len() as int) == n {
        Some(0)
    } else if h.len() == 0 {
        None
    } else {
        match find_first_sub(h.drop_first(), n) {
            None => None,
            Some(k) => Some(k + 1),
        }
    }
}

/// `find_first_sub` returns the first match, and `None` exactly when
/// there is no match.
pub proof fn lemma_find_first_sub(h: Seq<char>, n: Seq<char>)
    ensures
        match find_first_sub(h, n) {
            Some(k) => matches_at(h, n, k) && forall|q: int| 0 <= q < k ==> !matches_at(h, n, q),
            None => forall|q: int| !matches_at(h, n, q),
        },
    decreases h.len(),
{
    if n.len() > h.len() {
        assert(forall|q: int| matches_at(h, n, q) ==> q + n.len() <= h.len());
    } else if h.subrange(0, n.len() as int) == n {
        assert(matches_at(h, n, 0));
    } else if h.len() == 0 {
        assert(h.subrange(0, n.len() as int) =~= n);
        assert(false);
    } else {
        lemma_find_first_sub(h.drop_first(), n);
        assert forall|q: int| 0 <= q implies matches_at(h.drop_first(), n, q) == matches_at(
            h,
            n,
            q + 1,
        ) by {
            if q + n.len() <= h.drop_first().len() {
                assert(h.drop_first().subrange(q, q + n.len() as int) =~= h.subrange(
                    q + 1,
                    q + 1 + n.len() as int,
                ));
            }
        }
        assert(!matches_at(h, n, 0));
        match find_first_sub(h.drop_first(), n) {
            None => {
                assert forall|q: int| !matches_at(h, n, q) by {
                    if 1 <= q {
                        assert(!matches_at(h.drop_first(), n, q - 1));
                    }
                }
            },
            Some(k) => {
                assert(matches_at(h, n, k + 1));
                assert forall|q: int| 0 <= q < k + 1 implies !matches_at(h, n, q) by {
                    if 1 <= q {
                        assert(!matches_at(h.drop_first(), n, q - 1));
                    }
                }
            },
        }
    }
}

/// Finds the first occurrence of `n` inside `h`, as `find_first_sub`
/// describes it.
pub fn find_first_sub_exec(h: &str, n: &str) -> (r: Option<usize>)
    ensures
        match r {
            Some(k) => find_first_sub(h@, n@) == Some(k as int),
            None => find_first_sub(h@, n@) is None,
        },
{
    let found: Option<usize> = find_sub(h, n);
    proof {
        lemma_find_first_sub(h@, n@);
        match found {
            None => {},
            Some(k) => {
                match find_first_sub(h@, n@) {
                    None => {
                        assert(matches_at(h@, n@, k as int));
                        assert(false);
                    },
                    Some(kk) => {
                        if kk < k as int {
                            assert(matches_at(h@, n@, kk));
                            assert(false);
                        }
                        if (k as int) < kk {
                            assert(matches_at(h@, n@, k as int));
                            assert(false);
                        }
                    },
                }
            },
        }
    }
    found
}

/// The last index whose character satisfies `p`, if any.
pub open spec fn last_where(s: Seq<char>, p: spec_fn(char) -> bool) -> Option<int>
    decreases s.len(),
{
    if s.len() == 0 {
        None
    } else if p(s.last()) {
        Some(s.len() - 1)
    } else {
        last_where(s.drop_last(), p)
    }
}

/// When no character satisfies `p`, there is no last one.
pub proof fn lemma_last_where_none(s: Seq<char>, p: spec_fn(char) -> bool)
    requires
        forall|k: int| 0 <= k < s.len() ==> !p(s[k]),
    ensures
        last_where(s, p) is None,
    decreases s.len(),
{
    if s.len() > 0 {
        assert(!p(s.last()));
        lemma_last_where_none(s.drop_last(), p);
    }
}

/// The last index satisfying `p` is the one that `p` holds at while no
/// later index satisfies it.
pub proof fn lemma_last_where_at(s: Seq<char>, p: spec_fn(char) -> bool, k: int)
    requires
        0 <= k < s.len(),
        p(s[k]),
        forall|q: int| k < q < s.len() ==> !p(s[q]),
    ensures
        last_where(s, p) == Some(k),
    decreases s.len(),
{
    if k == s.len() - 1 {
        assert(p(s.last()));
    } else {
        assert(!p(s.last()));
        assert(s.drop_last()[k] == s[k]);
        lemma_last_where_at(s.drop_last(), p, k);
    }
}

/// Whether `c` is anything but a decimal digit.
pub open spec fn non_digit(c: char) -> bool {
    !is_digit(c)
}

/// The sequence with leading and trailing non-digit characters removed.
pub open spec fn spec_trim_nondigit(s: Seq<char>) -> Seq<char> {
    trim_back_p(trim_front_p(s, |c: char| non_digit(c)), |c: char| non_digit(c))
}

/// Removes leading and trailing non-digit characters.
pub fn trim_nondigit(s: &str) -> (r: String)
    ensures
        r@ == spec_trim_nondigit(s@),
{
    let n: usize = s.unicode_len();
    let mut i: usize = 0;
    while i < n && !is_digit_exec(s.get_char(i))
        invariant
            n == s@.len(),
            0 <= i <= n,
            forall|k: int| 0 <= k < i ==> non_digit(s@[k]),
        decreases n - i,
    {
        i = i + 1;
    }
    let mut j: usize = n;
    while j > i && !is_digit_exec(s.get_char(j - 1))
        invariant
            n == s@.len(),
            0 <= i <= j <= n,
            forall|k: int| 0 <= k < i ==> non_digit(s@[k]),
            forall|k: int| j <= k < n ==> non_digit(s@[k]),
        decreases j,
    {
        j = j - 1;
    }
    let sub: &str = s.substring_char(i, j);
    proof {
        lemma_trim_front_p_subrange(s@, i as int, |c: char| non_digit(c));
        let t = s@.subrange(i as int, n as int);
        lemma_trim_back_p_subrange(t, j - i, |c: char| non_digit(c));
        assert(t.subrange(0, j - i) =~= s@.subrange(i as int, j as int));
    }
    String::from_str(sub)
}

/// Whether `n` occurs anywhere inside `h`.
pub fn contains_sub(h: &str, n: &str) -> (r: bool)
    ensures
        r == contains_seq(h@, n@),
{
    let found: Option<usize> = find_sub(h, n);
    found.is_some()
}

/// Whether two strings are equal up to ASCII case.
pub fn eq_ignore_ascii_case_str(a: &str, b: &str) -> (r: bool)
    ensures
        r == (lower_seq(a@) == lower_seq(b@)),
{
    let al: usize = a.unicode_len();
    let bl: usize = b.unicode_len();
    if al != bl {
        proof {
            assert(lower_seq(a@).len() != lower_seq(b@).len());
        }
        return false;
    }
    let mut i: usize = 0;
    while i < al
        invariant
            al == a@.len(),
            bl == b@.len(),
            al == bl,
            0 <= i <= al,
            forall|k: int| 0 <= k < i ==> lower_char(a@[k]) == lower_char(b@[k]),
        decreases al - i,
    {
        if lower_char_exec(a.get_char(i)) != lower_char_exec(b.get_char(i)) {
            proof {
                assert(lower_seq(a@)[i as int] != lower_seq(b@)[i as int]);
            }
            return false;
        }
        i = i + 1;
    }
    proof {
        assert(lower_seq(a@) =~= lower_seq(b@));
    }
    true
}

/// The digit character for a value below ten.
pub open spec fn digit_char(d: int) -> char {
    if d == 0 {
        '0'
    } else if d == 1 {
        '1'
    } else if d == 2 {
        '2'
    } else if d == 3 {
        '3'
    } else if d == 4 {
        '4'
    } else if d == 5 {
        '5'
    } else if d == 6 {
        '6'
    } else if d == 7 {
        '7'
    } else if d == 8 {
        '8'
    } else {
        '9'
    }
}

/// The decimal digits of `n`, most significant first, with no leading zeros
/// (the single digit `0` for zero).
pub open spec fn dec_digits(n: int) -> Seq<char>
    decreases n,
{
    if n < 10 {
        seq![digit_char(n)]
    } else {
        dec_digits(n / 10).push(digit_char(n % 10))
    }
}

fn digit_char_exec(d: u64) -> (r: char)
    requires
        d < 10,
    ensures
        r == digit_char(d as int),
{
    if d == 0 {
        '0'
    } else if d == 1 {
        '1'
    } else if d == 2 {
        '2'
    } else if d == 3 {
        '3'
    } else if d == 4 {
        '4'
    } else if d == 5 {
        '5'
    } else if d == 6 {
        '6'
    } else if d == 7 {
        '7'
    } else if d == 8 {
        '8'
    } else {
        '9'
    }
}

fn u64_to_dec_rec(n: u64, out: &mut String)
    ensures
        final(out)@ == old(out)@ + dec_digits(n as int),
    decreases n,
{
    if n < 10 {
        let c: char = digit_char_exec(n);
        push_char(out, c);
        proof {
            assert(old(out)@.push(digit_char(n as int)) =~= old(out)@ + dec_digits(n as int));
        }
    } else {
        u64_to_dec_rec(n / 10, out);
        let c: char = digit_char_exec(n % 10);
        push_char(out, c);
        proof {
            assert((old(out)@ + dec_digits(n as int / 10)).push(digit_char(n as int % 10)) =~= old(
                out,
            )@ + dec_digits(n as int));
        }
    }
}

/// Formats `n` in decimal.
pub fn u64_to_dec(n: u64) -> (r: String)
    ensures
        r@ == dec_digits(n as int),
{
    let mut out: String = String::new();
    u64_to_dec_rec(n, &mut out);
    proof {
        assert(Seq::<char>::empty() + dec_digits(n as int) =~= dec_digits(n as int));
    }
    out
}

/// A run of `k` zero characters.
pub open spec fn zero_run(k: int) -> Seq<char> {
    Seq::new(k as nat, |i: int| '0')
}

/// The decimal digits of `n` left-padded with zeros to at least `width`
/// characters.
pub open spec fn dec_digits_pad(n: int, width: int) -> Seq<char> {
    if dec_digits(n).len() >= width {
        dec_digits(n)
    } else {
        zero_run(width - dec_digits(n).len()) + dec_digits(n)
    }
}

/// Formats `n` in decimal, left-padded with zeros to at least `width`
/// characters.
pub fn u64_to_dec_pad(n: u64, width: usize) -> (r: String)
    ensures
        r@ == dec_digits_pad(n as int, width as int),
{
    let digits: String = u64_to_dec(n);
    let dl: usize = digits.as_str().unicode_len();
    if dl >= width {
        return digits;
    }
    let mut out: String = String::new();
    let mut i: usize = 0;
    proof {
        assert(out@ =~= zero_run(0));
    }
    while i < width - dl
        invariant
            dl == dec_digits(n as int).len(),
            dl < width,
            0 <= i <= width - dl,
            out@ == zero_run(i as int),
        decreases width - dl - i,
    {
        push_char(&mut out, '0');
        proof {
            assert(zero_run(i as int).push('0') =~= zero_run(i + 1));
        }
        i = i + 1;
    }
    let out2: String = out.concat(digits.as_str());
    proof {
        assert(out2@ =~= dec_digits_pad(n as int, width as int));
    }
    out2
}

/// Whether `c` is a decimal digit.
pub open spec fn is_digit(c: char) -> bool {
    '0' <= c && c <= '9'
}

pub fn is_digit_exec(c: char) -> (r: bool)
    ensures
        r == is_digit(c),
{
    '0' <= c && c <= '9'
}

/// The numeric value of a digit character.
pub open spec fn digit_val(c: char) -> int {
    (c as int) - ('0' as int)
}

/// Whether every character of `s` is a decimal digit, and `s` is non-empty.
pub open spec fn all_digits(s: Seq<char>) -> bool {
    s.len() > 0 && forall|k: int| 0 <= k < s.len() ==> is_digit(#[trigger] s[k])
}

/// The value of a digit sequence read in decimal, most significant first.
pub open spec fn dec_value(s: Seq<char>) -> int
    decreases s.len(),
{
    if s.len() == 0 {
        0
    } else {
        dec_value(s.drop_last()) * 10 + digit_val(s.last())
    }
}

/// Parses `s` as an unsigned decimal number.
/// Returns its value when `s` is non-empty, all digits, and the value fits
/// in a `u64`; `None` otherwise.
pub fn parse_u64_dec(s: &str) -> (r: Option<u64>)
    ensures
        match r {
            Some(v) => all_digits(s@) && v == dec_value(s@),
            None => !(all_digits(s@) && dec_value(s@) <= u64::MAX),
        },
{
    let n: usize = s.unicode_len();
    if n == 0 {
        return None;
    }
    let mut acc: u64 = 0;
    let mut i: usize = 0;
    while i < n
        invariant
            n == s@.len(),
            0 <= i <= n,
            forall|k: int| 0 <= k < i ==> is_digit(#[trigger] s@[k]),
            acc == dec_value(s@.subrange(0, i as int)),
        decreases n - i,
    {
        let c: char = s.get_char(i);
        if !is_digit_exec(c) {
            proof {
                assert(!is_digit(s@[i as int]));
            }
            return None;
        }
        let d: u64 = (c as u32 as u64) - 48;
        proof {
            assert(d == digit_val(s@[i as int]));
            assert(0 <= d < 10);
        }
        if acc > (u64::MAX - d) / 10 {
            proof {
                assert(s@.subrange(0, i + 1).drop_last() =~= s@.subrange(0, i as int));
                assert(s@.subrange(0, i + 1).last() == s@[i as int]);
                assert(dec_value(s@.subrange(0, i + 1)) == acc * 10 + d);
                assert(acc * 10 + d > u64::MAX) by (nonlinear_arith)
                    requires
                        acc > (u64::MAX - d) / 10,
                        0 <= d < 10,
                        acc >= 0,
                ;
                if all_digits(s@) {
                    lemma_dec_value_monotone(s@.subrange(0, i + 1), s@);
                }
            }
            return None;
        }
        let next: u64 = acc * 10 + d;
        proof {
            assert(s@.subrange(0, i + 1).drop_last() =~= s@.subrange(0, i as int));
            assert(s@.subrange(0, i + 1).last() == s@[i as int]);
        }
        acc = next;
        i = i + 1;
    }
    proof {
        assert(s@.subrange(0, n as int) =~= s@);
    }
    Some(acc)
}

/// A digit sequence's value only grows when digits are appended.
proof fn lemma_dec_value_monotone(p: Seq<char>, s: Seq<char>)
    requires
        p.len() <= s.len(),
        forall|k: int| 0 <= k < s.len() ==> is_digit(#[trigger] s[k]),
        forall|k: int| 0 <= k < p.len() ==> p[k] == s[k],
    ensures
        dec_value(p) <= dec_value(s),
    decreases s.len(),
{
    if p.len() == s.len() {
        assert(p =~= s);
    } else if s.len() > 0 {
        lemma_dec_value_monotone(p, s.drop_last());
        assert(forall|k: int| 0 <= k < s.drop_last().len() ==> is_digit(#[trigger] s.drop_last()[k]));
        lemma_dec_value_nonneg(s.drop_last());
        assert(is_digit(s.last()));
        assert(dec_value(s.drop_last()) * 10 + digit_val(s.last()) >= dec_value(s.drop_last()))
            by (nonlinear_arith)
            requires
                dec_value(s.drop_last()) >= 0,
                digit_val(s.last()) >= 0,
        ;
    }
}

/// Maps each character through `f` and concatenates the images, in order.
pub open spec fn concat_map(s: Seq<char>, f: spec_fn(char) -> Seq<char>) -> Seq<char>
    decreases s.len(),
{
    if s.len() == 0 {
        Seq::empty()
    } else {
        f(s[0]) + concat_map(s.drop_first(), f)
    }
}

/// Appending a character on the right appends its image on the right.
pub proof fn lemma_concat_map_push(s: Seq<char>, c: char, f: spec_fn(char) -> Seq<char>)
    ensures
        concat_map(s.push(c), f) == concat_map(s, f) + f(c),
    decreases s.len(),
{
    if s.len() == 0 {
        assert(s.push(c)[0] == c);
        assert(s.push(c).drop_first() =~= Seq::<char>::empty());
        assert(concat_map(s.push(c), f) == f(c) + concat_map(s.push(c).drop_first(), f));
        assert(concat_map(s.push(c).drop_first(), f) =~= Seq::<char>::empty());
        assert(concat_map(s, f) =~= Seq::<char>::empty());
        assert(f(c) + Seq::<char>::empty() =~= Seq::<char>::empty() + f(c));
        assert(concat_map(s.push(c), f) =~= concat_map(s, f) + f(c));
    } else {
        assert(s.push(c)[0] == s[0]);
        assert(s.push(c).drop_first() =~= s.drop_first().push(c));
        assert(concat_map(s.push(c), f) == f(s[0]) + concat_map(s.drop_first().push(c), f));
        lemma_concat_map_push(s.drop_first(), c, f);
        assert(f(s[0]) + (concat_map(s.drop_first(), f) + f(c)) =~= (f(s[0]) + concat_map(
            s.drop_first(),
            f,
        )) + f(c));
        assert(concat_map(s.push(c), f) =~= concat_map(s, f) + f(c));
    }
}

/// A digit sequence's value is never negative.
pub proof fn lemma_dec_value_nonneg(s: Seq<char>)
    requires
        forall|k: int| 0 <= k < s.len() ==> is_digit(#[trigger] s[k]),
    ensures
        dec_value(s) >= 0,
    decreases s.len(),
{
    if s.len() > 0 {
        lemma_dec_value_nonneg(s.drop_last());
        assert(dec_value(s.drop_last()) * 10 >= 0) by (nonlinear_arith)
            requires
                dec_value(s.drop_last()) >= 0,
        ;
    }
}

} // verus!

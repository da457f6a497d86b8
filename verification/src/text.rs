//! Character-level helpers: Unicode whitespace, tokenizing and decimal parsing.
use vstd::prelude::*;

verus! {

/// The Unicode `White_Space` property, as `char::is_whitespace` documents it.
pub open spec fn is_white_space(c: char) -> bool {
    let u = c as u32;
    ||| (0x9 <= u && u <= 0xd)
    ||| u == 0x20
    ||| u == 0x85
    ||| u == 0xa0
    ||| u == 0x1680
    ||| (0x2000 <= u && u <= 0x200a)
    ||| u == 0x2028
    ||| u == 0x2029
    ||| u == 0x202f
    ||| u == 0x205f
    ||| u == 0x3000
}

/// Whether `c` is Unicode whitespace.
pub fn is_white_space_char(c: char) -> (r: bool)
    ensures
        r == is_white_space(c),
{
    let u = c as u32;
    (0x9 <= u && u <= 0xd) || u == 0x20 || u == 0x85 || u == 0xa0 || u == 0x1680 || (0x2000 <= u
        && u <= 0x200a) || u == 0x2028 || u == 0x2029 || u == 0x202f || u == 0x205f || u == 0x3000
}

/// The characters of a string slice, in order.
pub fn collect_chars(s: &str) -> (v: Vec<char>)
    ensures
        v@ == s@,
{
    broadcast use vstd::string::axiom_spec_iter;

    let mut it = s.chars();
    let mut v: Vec<char> = Vec::new();
    loop
        invariant
            s@ == v@ + vstd::std_specs::iter::IteratorSpec::remaining(&it),
            vstd::std_specs::iter::IteratorSpec::obeys_prophetic_iter_laws(&it),
            vstd::std_specs::iter::IteratorSpec::decrease(&it) is Some,
        decreases vstd::std_specs::iter::IteratorSpec::decrease(&it)->0,
    {
        let ghost before = vstd::std_specs::iter::IteratorSpec::remaining(&it);
        match it.next() {
            Some(c) => {
                v.push(c);
                assert(s@ == v@ + vstd::std_specs::iter::IteratorSpec::remaining(&it)) by {
                    assert(before == seq![c] + before.drop_first());
                }
            },
            None => {
                assert(v@ == s@);
                return v;
            },
        }
    }
}


/// The character sequences of a list of character vectors.
pub open spec fn views_of(v: Seq<Vec<char>>) -> Seq<Seq<char>> {
    v.map_values(|t: Vec<char>| t@)
}

/// `s` cut at every `'\n'`: the pieces between line feeds, in order (the
/// last piece is whatever follows the last line feed, possibly empty).
pub open spec fn split_lines(s: Seq<char>) -> Seq<Seq<char>>
    decreases s.len(),
{
    if s.len() == 0 {
        seq![Seq::<char>::empty()]
    } else {
        let prev = split_lines(s.drop_last());
        if s.last() == '\n' {
            prev.push(Seq::<char>::empty())
        } else {
            prev.update(prev.len() - 1, prev.last().push(s.last()))
        }
    }
}

/// `s` cut into its maximal runs of non-whitespace characters, in order.
pub open spec fn split_whitespace(s: Seq<char>) -> Seq<Seq<char>>
    decreases s.len(),
{
    if s.len() == 0 {
        Seq::<Seq<char>>::empty()
    } else {
        let prev = split_whitespace(s.drop_last());
        let c = s.last();
        if is_white_space(c) {
            prev
        } else if s.len() >= 2 && !is_white_space(s[s.len() - 2]) {
            prev.update(prev.len() - 1, prev.last().push(c))
        } else {
            prev.push(seq![c])
        }
    }
}

proof fn lemma_split_lines_nonempty(s: Seq<char>)
    ensures
        split_lines(s).len() >= 1,
    decreases s.len(),
{
    if s.len() > 0 {
        lemma_split_lines_nonempty(s.drop_last());
    }
}

/// The lines of `s`: the pieces between line feeds.
pub fn split_lines_of(s: &[char]) -> (lines: Vec<Vec<char>>)
    ensures
        views_of(lines@) == split_lines(s@),
{
    let mut lines: Vec<Vec<char>> = Vec::new();
    let mut cur: Vec<char> = Vec::new();
    let mut i: usize = 0;
    while i < s.len()
        invariant
            i <= s.len(),
            views_of(lines@).push(cur@) == split_lines(s@.take(i as int)),
        decreases s.len() - i,
    {
        let c = s[i];
        proof {
            assert(s@.take(i + 1).drop_last() == s@.take(i as int));
            lemma_split_lines_nonempty(s@.take(i as int));
        }
        let ghost old_lines = lines@;
        let ghost old_cur = cur@;
        if c == '\n' {
            lines.push(cur);
            cur = Vec::new();
            assert(views_of(lines@) == views_of(old_lines).push(old_cur));
        } else {
            cur.push(c);
            assert(views_of(lines@).push(cur@) == views_of(old_lines).push(old_cur).update(
                views_of(old_lines).len() as int,
                old_cur.push(c),
            ));
        }
        i += 1;
    }
    let ghost old_lines = lines@;
    let ghost old_cur = cur@;
    lines.push(cur);
    assert(views_of(lines@) == views_of(old_lines).push(old_cur));
    assert(s@.take(s@.len() as int) == s@);
    lines
}

/// The whitespace-separated tokens of `s`.
pub fn split_whitespace_of(s: &[char]) -> (tokens: Vec<Vec<char>>)
    ensures
        views_of(tokens@) == split_whitespace(s@),
{
    let mut tokens: Vec<Vec<char>> = Vec::new();
    let mut cur: Vec<char> = Vec::new();
    let mut i: usize = 0;
    while i < s.len()
        invariant
            i <= s.len(),
            cur@.len() == 0 ==> views_of(tokens@) == split_whitespace(s@.take(i as int)),
            cur@.len() > 0 ==> views_of(tokens@).push(cur@) == split_whitespace(
                s@.take(i as int),
            ),
            cur@.len() > 0 <==> (i > 0 && !is_white_space(s@[i - 1])),
        decreases s.len() - i,
    {
        let c = s[i];
        let ws = is_white_space_char(c);
        proof {
            assert(s@.take(i + 1).drop_last() == s@.take(i as int));
        }
        let ghost old_tokens = tokens@;
        let ghost old_cur = cur@;
        if ws {
            if cur.len() > 0 {
                tokens.push(cur);
                cur = Vec::new();
                assert(views_of(tokens@) == views_of(old_tokens).push(old_cur));
            }
        } else {
            let had = cur.len() > 0;
            cur.push(c);
            if had {
                assert(views_of(tokens@).push(cur@) == views_of(old_tokens).push(old_cur).update(
                    views_of(old_tokens).len() as int,
                    old_cur.push(c),
                ));
            } else {
                assert(cur@ == seq![c]);
            }
        }
        i += 1;
    }
    if cur.len() > 0 {
        let ghost old_tokens = tokens@;
        let ghost old_cur = cur@;
        tokens.push(cur);
        assert(views_of(tokens@) == views_of(old_tokens).push(old_cur));
    }
    assert(s@.take(s@.len() as int) == s@);
    tokens
}

/// An ASCII decimal digit.
pub open spec fn is_ascii_digit(c: char) -> bool {
    '0' <= c && c <= '9'
}

/// All characters of `s` are ASCII decimal digits.
pub open spec fn all_ascii_digits(s: Seq<char>) -> bool {
    forall|i: int| 0 <= i < s.len() ==> is_ascii_digit(#[trigger] s[i])
}

/// The value of a string of decimal digits, most significant first.
pub open spec fn decimal_value(s: Seq<char>) -> int
    decreases s.len(),
{
    if s.len() == 0 {
        0
    } else {
        decimal_value(s.drop_last()) * 10 + (s.last() as int - '0' as int)
    }
}

/// The digits that `usize::from_str` reads: `s` without one leading `+`.
pub open spec fn unsigned_digits(s: Seq<char>) -> Seq<char> {
    if s.len() > 0 && s[0] == '+' {
        s.drop_first()
    } else {
        s
    }
}

/// What `str::parse::<usize>` gives: an optional leading `+`, then one or
/// more ASCII digits whose value fits in `usize`.
pub open spec fn parse_usize_spec(s: Seq<char>) -> Option<usize> {
    let d = unsigned_digits(s);
    if d.len() > 0 && all_ascii_digits(d) && decimal_value(d) <= usize::MAX {
        Some(decimal_value(d) as usize)
    } else {
        None
    }
}

proof fn lemma_decimal_prefix_le(s: Seq<char>, j: int)
    requires
        all_ascii_digits(s),
        0 <= j <= s.len(),
    ensures
        0 <= decimal_value(s.take(j)) <= decimal_value(s),
    decreases s.len() - j,
{
    if j < s.len() {
        lemma_decimal_prefix_le(s, j + 1);
        assert(s.take(j + 1).drop_last() == s.take(j));
        assert(s.take(j + 1).last() == s[j]);
        assert(is_ascii_digit(s[j]));
    } else {
        assert(s.take(j) == s);
        lemma_decimal_nonneg(s);
    }
}

proof fn lemma_decimal_nonneg(s: Seq<char>)
    requires
        all_ascii_digits(s),
    ensures
        decimal_value(s) >= 0,
    decreases s.len(),
{
    if s.len() > 0 {
        assert(all_ascii_digits(s.drop_last())) by {
            assert forall|i: int| 0 <= i < s.drop_last().len() implies is_ascii_digit(
                #[trigger] s.drop_last()[i],
            ) by {
                assert(s.drop_last()[i] == s[i]);
            }
        }
        lemma_decimal_nonneg(s.drop_last());
        assert(is_ascii_digit(s[s.len() - 1]));
    }
}

/// Parses `s` as `str::parse::<usize>` does.
pub fn parse_usize(s: &[char]) -> (r: Option<usize>)
    ensures
        r == parse_usize_spec(s@),
{
    let start: usize = if s.len() > 0 && s[0] == '+' {
        1
    } else {
        0
    };
    let ghost d = unsigned_digits(s@);
    assert(d == s@.subrange(start as int, s@.len() as int));
    if start >= s.len() {
        return None;
    }
    let mut value: usize = 0;
    let mut i: usize = start;
    while i < s.len()
        invariant
            start <= i <= s.len(),
            d == s@.subrange(start as int, s@.len() as int),
            d == unsigned_digits(s@),
            all_ascii_digits(d.take(i - start)),
            value == decimal_value(d.take(i - start)),
        decreases s.len() - i,
    {
        let c = s[i];
        let k = i - start;
        assert(d[k as int] == c);
        if c < '0' || c > '9' {
            assert(!is_ascii_digit(d[k as int]));
            assert(!all_ascii_digits(d));
            assert(parse_usize_spec(s@) is None);
            return None;
        }
        assert(d.take(k + 1).drop_last() == d.take(k as int));
        assert(all_ascii_digits(d.take(k + 1))) by {
            assert forall|j: int| 0 <= j < d.take(k + 1).len() implies is_ascii_digit(
                #[trigger] d.take(k + 1)[j],
            ) by {
                if j < k {
                    assert(d.take(k + 1)[j] == d.take(k as int)[j]);
                }
            }
        }
        let digit = ((c as u32) - 48) as usize;
        assert(digit == c as int - '0' as int);
        assert(decimal_value(d.take(k + 1)) == value * 10 + digit);
        if value > (usize::MAX - digit) / 10 {
            proof {
                assert(value * 10 + digit > usize::MAX) by (nonlinear_arith)
                    requires
                        value > (usize::MAX - digit) / 10,
                        digit <= 9,
                ;
                if all_ascii_digits(d) {
                    lemma_decimal_prefix_le(d, k + 1);
                    assert(decimal_value(d) > usize::MAX);
                }
                assert(parse_usize_spec(s@) is None);
            }
            return None;
        }
        assert(value * 10 + digit <= usize::MAX) by (nonlinear_arith)
            requires
                value <= (usize::MAX - digit) / 10,
                digit <= 9,
        ;
        value = value * 10 + digit;
        i += 1;
    }
    assert(d.take(d.len() as int) == d);
    Some(value)
}


/// Whether two character slices hold the same characters.
pub fn chars_equal(a: &[char], b: &[char]) -> (r: bool)
    ensures
        r == (a@ == b@),
{
    if a.len() != b.len() {
        return false;
    }
    let mut i: usize = 0;
    while i < a.len()
        invariant
            a.len() == b.len(),
            i <= a.len(),
            forall|j: int| 0 <= j < i ==> a@[j] == b@[j],
        decreases a.len() - i,
    {
        if a[i] != b[i] {
            return false;
        }
        i += 1;
    }
    assert(a@ =~= b@);
    true
}

/// Whether the characters `a` spell the text `lit`.
pub fn chars_are(a: &[char], lit: &str) -> (r: bool)
    ensures
        r == (a@ == lit@),
{
    let l = collect_chars(lit);
    chars_equal(a, l.as_slice())
}

/// `String::push`: appends one character.
#[verifier::external_body]
fn push_char(s: &mut String, c: char)
    ensures
        final(s)@ == old(s)@.push(c),
{
    s.push(c);
}

/// A `String` holding the characters `chars`.
pub fn string_from_chars(chars: &[char]) -> (s: String)
    ensures
        s@ == chars@,
{
    let mut s = String::new();
    let mut i: usize = 0;
    while i < chars.len()
        invariant
            i <= chars.len(),
            s@ == chars@.take(i as int),
        decreases chars.len() - i,
    {
        push_char(&mut s, chars[i]);
        assert(chars@.take(i + 1) == chars@.take(i as int).push(chars@[i as int]));
        i += 1;
    }
    assert(chars@.take(chars@.len() as int) == chars@);
    s
}


/// The ASCII digit for `d` (below ten).
pub open spec fn digit_char(d: nat) -> char {
    ((d + 48) as u8) as char
}

/// The decimal digits of `n`, most significant first, without leading zeros.
pub open spec fn decimal_digits(n: nat) -> Seq<char>
    decreases n,
{
    if n < 10 {
        seq![digit_char(n)]
    } else {
        decimal_digits(n / 10).push(digit_char(n % 10))
    }
}

/// The values of the decimal digits of `n`, most significant first.
pub open spec fn decimal_values(n: nat) -> Seq<u8>
    decreases n,
{
    if n < 10 {
        seq![n as u8]
    } else {
        decimal_values(n / 10).push((n % 10) as u8)
    }
}

/// Each digit value is below ten, and `n` has as many digit values as digits.
pub proof fn lemma_decimal_values(n: nat)
    ensures
        decimal_values(n).len() == decimal_digits(n).len(),
        decimal_values(n).len() >= 1,
        forall|i: int| 0 <= i < decimal_values(n).len() ==> #[trigger] decimal_values(n)[i] < 10,
        forall|i: int| 0 <= i < decimal_values(n).len() ==> #[trigger] decimal_digits(n)[i] == digit_char(decimal_values(n)[i] as nat),
    decreases n,
{
    if n >= 10 {
        lemma_decimal_values(n / 10);
    }
}

/// The digit values of `n`, most significant first.
pub fn decimal_digit_values(n: u64) -> (v: Vec<u8>)
    ensures
        v@ == decimal_values(n as nat),
    decreases n,
{
    if n < 10 {
        let mut v: Vec<u8> = Vec::new();
        v.push(n as u8);
        v
    } else {
        let mut v = decimal_digit_values(n / 10);
        v.push((n % 10) as u8);
        v
    }
}

/// The decimal digits of `n`, as `n.to_string()` writes them.
pub fn decimal_chars(n: u64) -> (v: Vec<char>)
    ensures
        v@ == decimal_digits(n as nat),
    decreases n,
{
    if n < 10 {
        let mut v: Vec<char> = Vec::new();
        v.push(((n as u8) + 48) as char);
        v
    } else {
        let mut v = decimal_chars(n / 10);
        v.push((((n % 10) as u8) + 48) as char);
        v
    }
}

/// The decimal text of `n`.
pub fn decimal_string(n: u64) -> (s: String)
    ensures
        s@ == decimal_digits(n as nat),
{
    let v = decimal_chars(n);
    string_from_chars(v.as_slice())
}

} // verus!

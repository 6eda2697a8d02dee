//! Plain text handling shared by the puzzle readers: characters of a string,
//! lines, words, trimming, and decimal numbers.

use vstd::prelude::*;

verus! {

/// The characters of a string.
pub fn chars_of(s: &str) -> (v: Vec<char>)
    ensures
        v@ == s@,
{
    let mut v: Vec<char> = Vec::new();
    for c in it: s.chars()
        invariant
            v@ == s@.take(it.index() as int),
            it.seq() == s@,
    {
        v.push(c);
        assert(v@ =~= s@.take(it.index() + 1));
    }
    assert(s@.take(s@.len() as int) =~= s@);
    v
}

/// Turns a list of characters into a string.
///
/// Wraps the collecting of an iterator of `char` into a `String`, which
/// yields the string made of exactly those characters in that order.
#[verifier::external_body]
pub(crate) fn string_of(chars: &Vec<char>) -> (s: String)
    ensures
        s@ == chars@,
{
    chars.iter().collect()
}

/// Whether `c` is white space: a blank, a tab, a line or page break, or one
/// of the wider spaces beyond the ASCII range.
pub open spec fn is_space(c: char) -> bool {
    let n = c as u32;
    (0x09 <= n <= 0x0d) || n == 0x20 || n == 0x85 || n == 0xa0 || n == 0x1680 || (0x2000 <= n
        <= 0x200a) || n == 0x2028 || n == 0x2029 || n == 0x202f || n == 0x205f || n == 0x3000
}

/// Whether `c` is white space.
pub fn space(c: char) -> (r: bool)
    ensures
        r == is_space(c),
{
    let n = c as u32;
    (0x09 <= n && n <= 0x0d) || n == 0x20 || n == 0x85 || n == 0xa0 || n == 0x1680 || (0x2000 <= n
        && n <= 0x200a) || n == 0x2028 || n == 0x2029 || n == 0x202f || n == 0x205f || n == 0x3000
}

/// Whether `c` is one of the ten decimal digits.
pub open spec fn is_digit(c: char) -> bool {
    '0' <= c <= '9'
}

/// The value of a decimal digit.
pub open spec fn digit_value(c: char) -> nat {
    (c as u32 - '0' as u32) as nat
}

/// The value of a decimal digit, or `None` for any other character.
pub fn digit(c: char) -> (r: Option<u8>)
    ensures
        r is Some <==> is_digit(c),
        r is Some ==> r->0 == digit_value(c) && r->0 <= 9,
{
    if '0' <= c && c <= '9' {
        Some(((c as u32) - ('0' as u32)) as u8)
    } else {
        None
    }
}

/// The length of the longest prefix of `s` whose characters all satisfy
/// `keep`.
pub open spec fn run(s: Seq<char>, keep: spec_fn(char) -> bool) -> nat
    decreases s.len(),
{
    if s.len() > 0 && keep(s[0]) {
        1 + run(s.drop_first(), keep)
    } else {
        0
    }
}

/// The length of the longest suffix of `s` whose characters all satisfy
/// `keep`.
pub open spec fn run_back(s: Seq<char>, keep: spec_fn(char) -> bool) -> nat
    decreases s.len(),
{
    if s.len() > 0 && keep(s.last()) {
        1 + run_back(s.drop_last(), keep)
    } else {
        0
    }
}

/// A stretch of characters that satisfy `keep` and that ends at the end of
/// the text or before a character that does not, is a run.
pub proof fn lemma_run(s: Seq<char>, keep: spec_fn(char) -> bool, i: int, j: int)
    requires
        0 <= i <= j <= s.len(),
        forall|k: int| i <= k < j ==> keep(#[trigger] s[k]),
        j == s.len() || !keep(s[j]),
    ensures
        run(s.skip(i), keep) == j - i,
    decreases j - i,
{
    let t = s.skip(i);
    if i < j {
        assert(t[0] == s[i]);
        assert(t.drop_first() =~= s.skip(i + 1));
        lemma_run(s, keep, i + 1, j);
    } else if j < s.len() {
        assert(t[0] == s[j]);
    }
}

/// The same for a stretch at the end of the first `j` characters.
pub proof fn lemma_run_back(s: Seq<char>, keep: spec_fn(char) -> bool, i: int, j: int)
    requires
        0 <= i <= j <= s.len(),
        forall|k: int| i <= k < j ==> keep(#[trigger] s[k]),
        i == 0 || !keep(s[i - 1]),
    ensures
        run_back(s.take(j), keep) == j - i,
    decreases j - i,
{
    let t = s.take(j);
    if i < j {
        assert(t.last() == s[j - 1]);
        assert(t.drop_last() =~= s.take(j - 1));
        lemma_run_back(s, keep, i, j - 1);
    } else if i > 0 {
        assert(t.last() == s[i - 1]);
    }
}

/// The text without the white space at its two ends.
pub open spec fn trimmed(s: Seq<char>) -> Seq<char> {
    let t = s.skip(run(s, |c: char| is_space(c)) as int);
    t.take(t.len() - run_back(t, |c: char| is_space(c)))
}

/// A copy of `s[from..to]`.
pub fn slice(s: &Vec<char>, from: usize, to: usize) -> (v: Vec<char>)
    requires
        from <= to <= s.len(),
    ensures
        v@ == s@.subrange(from as int, to as int),
{
    let mut v: Vec<char> = Vec::new();
    let mut i = from;
    while i < to
        invariant
            from <= i <= to <= s.len(),
            v@ == s@.subrange(from as int, i as int),
        decreases to - i,
    {
        v.push(s[i]);
        assert(v@ =~= s@.subrange(from as int, i + 1));
        i += 1;
    }
    v
}

/// The text without the white space at its two ends.
pub fn trim(s: &Vec<char>) -> (v: Vec<char>)
    ensures
        v@ == trimmed(s@),
{
    let ghost keep = |c: char| is_space(c);
    let mut from: usize = 0;
    while from < s.len() && space(s[from])
        invariant
            from <= s.len(),
            forall|k: int| 0 <= k < from ==> is_space(#[trigger] s[k]),
        decreases s.len() - from,
    {
        from += 1;
    }
    let mut to: usize = s.len();
    while to > from && space(s[to - 1])
        invariant
            from <= to <= s.len(),
            forall|k: int| to <= k < s.len() ==> is_space(#[trigger] s[k]),
        decreases to,
    {
        to -= 1;
    }
    proof {
        assert forall|k: int| 0 <= k < from implies keep(#[trigger] s@[k]) by {}
        assert(s@.skip(0) =~= s@);
        lemma_run(s@, keep, 0, from as int);
        let t = s@.skip(from as int);
        assert forall|k: int| to - from <= k < t.len() implies keep(#[trigger] t[k]) by {
            assert(is_space(s[k + from]));
        }
        assert(t.take(t.len() as int) =~= t);
        if to > from {
            assert(t[to - from - 1] == s[to - 1]);
        }
        lemma_run_back(t, keep, to - from, t.len() as int);
        assert(t.take(to - from) =~= s@.subrange(from as int, to as int));
    }
    slice(s, from, to)
}

/// A line without the carriage return that may end it.
pub open spec fn without_cr(line: Seq<char>) -> Seq<char> {
    if line.len() > 0 && line.last() == '\r' {
        line.drop_last()
    } else {
        line
    }
}

/// The lines of a text. A line ends at a line feed, or at the end of the
/// text; the line feed, and a carriage return right before it, are no part
/// of the line. Nothing follows the last line feed.
pub open spec fn lines_of(s: Seq<char>) -> Seq<Seq<char>>
    decreases s.len(),
{
    if s.len() == 0 {
        seq![]
    } else {
        let n = run(s, |c: char| c != '\n') as int;
        if n >= s.len() {
            seq![s]
        } else {
            seq![without_cr(s.take(n))] + lines_of(s.skip(n + 1))
        }
    }
}

/// The views of a list of texts.
pub open spec fn texts_view(texts: Seq<Vec<char>>) -> Seq<Seq<char>> {
    Seq::new(texts.len(), |i: int| texts[i]@)
}

/// The lines of a text.
pub fn lines(s: &Vec<char>) -> (v: Vec<Vec<char>>)
    ensures
        texts_view(v@) == lines_of(s@),
{
    let ghost keep = |c: char| c != '\n';
    let mut v: Vec<Vec<char>> = Vec::new();
    let mut from: usize = 0;
    assert(s@.skip(0) =~= s@);
    assert(texts_view(v@) =~= Seq::<Seq<char>>::empty());
    while from < s.len()
        invariant
            from <= s.len(),
            keep == (|c: char| c != '\n'),
            lines_of(s@) == texts_view(v@) + lines_of(s@.skip(from as int)),
        decreases s.len() - from,
    {
        let mut to = from;
        while to < s.len() && s[to] != '\n'
            invariant
                from <= to <= s.len(),
                forall|k: int| from <= k < to ==> s[k] != '\n',
            decreases s.len() - to,
        {
            to += 1;
        }
        let ghost rest = s@.skip(from as int);
        let ghost done = texts_view(v@);
        proof {
            assert forall|k: int| from <= k < to implies keep(#[trigger] s@[k]) by {}
            lemma_run(s@, keep, from as int, to as int);
            assert(rest.take(to - from) =~= s@.subrange(from as int, to as int));
        }
        if to == s.len() {
            let line = slice(s, from, to);
            v.push(line);
            proof {
                assert(rest =~= s@.subrange(from as int, to as int));
                assert(s@.skip(to as int) =~= Seq::<char>::empty());
                assert(texts_view(v@) =~= done + seq![rest]);
            }
            from = to;
        } else {
            let end = if to > from && s[to - 1] == '\r' {
                to - 1
            } else {
                to
            };
            let line = slice(s, from, end);
            v.push(line);
            proof {
                let whole = s@.subrange(from as int, to as int);
                assert(line@ =~= without_cr(whole));
                assert(rest.skip(to - from + 1) =~= s@.skip(to + 1));
                assert(texts_view(v@) =~= done + seq![without_cr(whole)]);
                assert(lines_of(rest) == seq![without_cr(whole)] + lines_of(s@.skip(to + 1)));
                assert(done + (seq![without_cr(whole)] + lines_of(s@.skip(to + 1))) =~= (done
                    + seq![without_cr(whole)]) + lines_of(s@.skip(to + 1)));
            }
            from = to + 1;
        }
    }
    proof {
        assert(s@.skip(from as int) =~= Seq::<char>::empty());
        assert(texts_view(v@) + Seq::<Seq<char>>::empty() =~= texts_view(v@));
    }
    v
}

/// The test for a character other than `separator`.
pub open spec fn other_than(separator: char) -> spec_fn(char) -> bool {
    |c: char| c != separator
}

/// The pieces of a text between the separators: one more piece than there
/// are separators, each possibly empty.
pub open spec fn pieces_of(s: Seq<char>, separator: char) -> Seq<Seq<char>>
    decreases s.len(),
{
    let n = run(s, other_than(separator)) as int;
    if n >= s.len() {
        seq![s]
    } else {
        seq![s.take(n)] + pieces_of(s.skip(n + 1), separator)
    }
}

/// The pieces of a text between the separators.
pub fn split(s: &Vec<char>, separator: char) -> (v: Vec<Vec<char>>)
    ensures
        texts_view(v@) == pieces_of(s@, separator),
{
    let mut v: Vec<Vec<char>> = Vec::new();
    let mut from: usize = 0;
    assert(s@.skip(0) =~= s@);
    assert(texts_view(v@) =~= Seq::<Seq<char>>::empty());
    loop
        invariant
            from <= s.len(),
            pieces_of(s@, separator) == texts_view(v@) + pieces_of(s@.skip(from as int), separator),
        decreases s.len() - from,
    {
        let mut to = from;
        while to < s.len() && s[to] != separator
            invariant
                from <= to <= s.len(),
                forall|k: int| from <= k < to ==> s[k] != separator,
            decreases s.len() - to,
        {
            to += 1;
        }
        let ghost rest = s@.skip(from as int);
        let ghost done = texts_view(v@);
        proof {
            lemma_run(s@, other_than(separator), from as int, to as int);
            assert(rest.take(to - from) =~= s@.subrange(from as int, to as int));
        }
        let piece = slice(s, from, to);
        v.push(piece);
        if to == s.len() {
            proof {
                assert(rest =~= s@.subrange(from as int, to as int));
                assert(texts_view(v@) =~= done + seq![rest]);
            }
            return v;
        }
        proof {
            let whole = s@.subrange(from as int, to as int);
            assert(rest.skip(to - from + 1) =~= s@.skip(to + 1));
            assert(texts_view(v@) =~= done + seq![whole]);
            assert(done + (seq![whole] + pieces_of(s@.skip(to + 1), separator)) =~= (done + seq![
                whole,
            ]) + pieces_of(s@.skip(to + 1), separator));
        }
        from = to + 1;
    }
}

/// The words of a text: the stretches of characters between white space.
pub open spec fn words_of(s: Seq<char>) -> Seq<Seq<char>>
    decreases s.len(),
{
    if s.len() == 0 {
        seq![]
    } else if is_space(s[0]) {
        words_of(s.drop_first())
    } else {
        let n = run(s, |c: char| !is_space(c)) as int;
        if n >= s.len() {
            seq![s]
        } else {
            seq![s.take(n)] + words_of(s.skip(n + 1))
        }
    }
}

/// The words of a text.
pub fn words(s: &Vec<char>) -> (v: Vec<Vec<char>>)
    ensures
        texts_view(v@) == words_of(s@),
{
    let ghost keep = |c: char| !is_space(c);
    let mut v: Vec<Vec<char>> = Vec::new();
    let mut from: usize = 0;
    assert(s@.skip(0) =~= s@);
    assert(texts_view(v@) =~= Seq::<Seq<char>>::empty());
    while from < s.len()
        invariant
            from <= s.len(),
            keep == (|c: char| !is_space(c)),
            words_of(s@) == texts_view(v@) + words_of(s@.skip(from as int)),
        decreases s.len() - from,
    {
        let ghost rest = s@.skip(from as int);
        let ghost done = texts_view(v@);
        if space(s[from]) {
            proof {
                assert(rest[0] == s[from as int]);
                assert(rest.drop_first() =~= s@.skip(from + 1));
            }
            from += 1;
        } else {
            let mut to = from;
            while to < s.len() && !space(s[to])
                invariant
                    from <= to <= s.len(),
                    forall|k: int| from <= k < to ==> !is_space(#[trigger] s[k]),
                decreases s.len() - to,
            {
                to += 1;
            }
            proof {
                assert(rest[0] == s[from as int]);
                assert forall|k: int| from <= k < to implies keep(#[trigger] s@[k]) by {}
                lemma_run(s@, keep, from as int, to as int);
                assert(rest.take(to - from) =~= s@.subrange(from as int, to as int));
            }
            let word = slice(s, from, to);
            v.push(word);
            if to == s.len() {
                proof {
                    assert(rest =~= s@.subrange(from as int, to as int));
                    assert(s@.skip(to as int) =~= Seq::<char>::empty());
                    assert(texts_view(v@) =~= done + seq![rest]);
                }
                from = to;
            } else {
                proof {
                    let whole = s@.subrange(from as int, to as int);
                    assert(rest.skip(to - from + 1) =~= s@.skip(to + 1));
                    assert(texts_view(v@) =~= done + seq![whole]);
                    assert(done + (seq![whole] + words_of(s@.skip(to + 1))) =~= (done + seq![
                        whole,
                    ]) + words_of(s@.skip(to + 1)));
                }
                from = to + 1;
            }
        }
    }
    proof {
        assert(s@.skip(from as int) =~= Seq::<char>::empty());
        assert(texts_view(v@) + Seq::<Seq<char>>::empty() =~= texts_view(v@));
    }
    v
}

/// Whether every character of `s` is a decimal digit.
pub open spec fn all_digits(s: Seq<char>) -> bool {
    forall|i: int| 0 <= i < s.len() ==> is_digit(#[trigger] s[i])
}

/// The number that the digits of `s` write in base ten.
pub open spec fn decimal(s: Seq<char>) -> nat
    decreases s.len(),
{
    if s.len() == 0 {
        0
    } else {
        decimal(s.drop_last()) * 10 + digit_value(s.last())
    }
}

/// Digits written behind a number do not make it smaller.
pub proof fn lemma_decimal_grows(s: Seq<char>, i: int)
    requires
        0 <= i <= s.len(),
    ensures
        decimal(s.take(i)) <= decimal(s),
    decreases s.len() - i,
{
    if i < s.len() {
        lemma_decimal_grows(s, i + 1);
        assert(s.take(i + 1).drop_last() =~= s.take(i));
    } else {
        assert(s.take(i) =~= s);
    }
}

/// A number of at most nine digits is below a thousand millions.
pub proof fn lemma_decimal_bound(s: Seq<char>)
    requires
        all_digits(s),
        s.len() <= 9,
    ensures
        decimal(s) < 1000000000,
{
    lemma_decimal_below(s);
    reveal_with_fuel(tens, 10);
}

/// Ten to the power of `n`.
pub open spec fn tens(n: nat) -> nat
    decreases n,
{
    if n == 0 {
        1
    } else {
        10 * tens((n - 1) as nat)
    }
}

/// A number of `n` digits is below ten to the power of `n`.
pub proof fn lemma_decimal_below(s: Seq<char>)
    requires
        all_digits(s),
    ensures
        decimal(s) < tens(s.len()),
    decreases s.len(),
{
    if s.len() > 0 {
        assert(all_digits(s.drop_last())) by {
            assert forall|i: int| 0 <= i < s.drop_last().len() implies is_digit(
                #[trigger] s.drop_last()[i],
            ) by {
                assert(s.drop_last()[i] == s[i]);
            }
        }
        lemma_decimal_below(s.drop_last());
        assert(is_digit(s[s.len() - 1]));
    }
}

/// The number that `s` writes, when `s` is one or more decimal digits, with
/// or without a plus sign in front, and the number is at most `max`.
pub open spec fn unsigned_of(s: Seq<char>, max: nat) -> Option<nat> {
    let body = if s.len() > 0 && s[0] == '+' {
        s.drop_first()
    } else {
        s
    };
    if body.len() > 0 && all_digits(body) && decimal(body) <= max {
        Some(decimal(body))
    } else {
        None
    }
}

/// Reads the digits `s[from..]` as a number that is at most `max`.
fn parse_digits(s: &Vec<char>, from: usize, max: u64) -> (r: Option<u64>)
    requires
        from <= s.len(),
    ensures
        ({
            let body = s@.skip(from as int);
            match r {
                Some(v) => body.len() > 0 && all_digits(body) && decimal(body) == v && v <= max,
                None => !(body.len() > 0 && all_digits(body) && decimal(body) <= max),
            }
        }),
{
    let ghost body = s@.skip(from as int);
    if from == s.len() {
        return None;
    }
    let mut value: u64 = 0;
    let mut i = from;
    assert(body.take(0) =~= Seq::<char>::empty());
    while i < s.len()
        invariant
            from <= i <= s.len(),
            body == s@.skip(from as int),
            all_digits(body.take(i - from)),
            value == decimal(body.take(i - from)),
            value <= max,
        decreases s.len() - i,
    {
        proof {
            assert(body[i - from] == s[i as int]);
            assert(body.take(i - from + 1).drop_last() =~= body.take(i - from));
            lemma_decimal_grows(body, i - from + 1);
        }
        match digit(s[i]) {
            None => {
                return None;
            },
            Some(d) => {
                if max < d as u64 || value > (max - d as u64) / 10 {
                    return None;
                }
                value = value * 10 + d as u64;
            },
        }
        assert(all_digits(body.take(i - from + 1))) by {
            assert forall|k: int| 0 <= k < i - from + 1 implies is_digit(
                #[trigger] body.take(i - from + 1)[k],
            ) by {
                if k < i - from {
                    assert(body.take(i - from)[k] == body[k]);
                }
            }
        }
        i += 1;
    }
    proof {
        assert(body.take(i - from) =~= body);
    }
    Some(value)
}

/// Reads `s` as a number that is at most `max`: one or more decimal digits,
/// with or without a plus sign in front.
pub fn parse_unsigned(s: &Vec<char>, max: u64) -> (r: Option<u64>)
    ensures
        match r {
            Some(v) => unsigned_of(s@, max as nat) == Some(v as nat),
            None => unsigned_of(s@, max as nat) is None,
        },
{
    if s.len() > 0 && s[0] == '+' {
        assert(s@.drop_first() =~= s@.skip(1));
        parse_digits(s, 1, max)
    } else {
        assert(s@ =~= s@.skip(0));
        parse_digits(s, 0, max)
    }
}

/// The number that `s` writes, when `s` is one or more decimal digits, with
/// or without a sign in front, and the number lies between `min` and `max`.
pub open spec fn signed_of(s: Seq<char>, min: int, max: int) -> Option<int> {
    if s.len() > 0 && s[0] == '-' {
        let body = s.drop_first();
        if body.len() > 0 && all_digits(body) && -decimal(body) >= min {
            Some(-(decimal(body) as int))
        } else {
            None
        }
    } else {
        match unsigned_of(s, max as nat) {
            Some(v) => Some(v as int),
            None => None,
        }
    }
}

/// Reads `s` as a number of 32 bits with a sign: one or more decimal digits,
/// with or without a sign in front.
pub fn parse_i32(s: &Vec<char>) -> (r: Option<i32>)
    ensures
        match r {
            Some(v) => signed_of(s@, i32::MIN as int, i32::MAX as int) == Some(v as int),
            None => signed_of(s@, i32::MIN as int, i32::MAX as int) is None,
        },
{
    if s.len() > 0 && s[0] == '-' {
        assert(s@.drop_first() =~= s@.skip(1));
        match parse_digits(s, 1, 2147483648) {
            Some(v) => Some((0 - v as i64) as i32),
            None => None,
        }
    } else {
        match parse_unsigned(s, 2147483647) {
            Some(v) => Some(v as i32),
            None => None,
        }
    }
}

/// Reads `s` as a number that fits the machine word.
pub fn parse_usize(s: &Vec<char>) -> (r: Option<usize>)
    ensures
        match r {
            Some(v) => unsigned_of(s@, usize::MAX as nat) == Some(v as nat),
            None => unsigned_of(s@, usize::MAX as nat) is None,
        },
{
    match parse_unsigned(s, usize::MAX as u64) {
        Some(v) => Some(v as usize),
        None => None,
    }
}

/// Reads `s` as a number of 32 bits without a sign.
pub fn parse_u32(s: &Vec<char>) -> (r: Option<u32>)
    ensures
        match r {
            Some(v) => unsigned_of(s@, u32::MAX as nat) == Some(v as nat),
            None => unsigned_of(s@, u32::MAX as nat) is None,
        },
{
    match parse_unsigned(s, 4294967295) {
        Some(v) => Some(v as u32),
        None => None,
    }
}

/// Reads `s` as a number of 8 bits without a sign.
pub fn parse_u8(s: &Vec<char>) -> (r: Option<u8>)
    ensures
        match r {
            Some(v) => unsigned_of(s@, u8::MAX as nat) == Some(v as nat),
            None => unsigned_of(s@, u8::MAX as nat) is None,
        },
{
    match parse_unsigned(s, 255) {
        Some(v) => Some(v as u8),
        None => None,
    }
}

/// Whether the characters are those of the string.
pub fn same_text(a: &Vec<char>, b: &str) -> (r: bool)
    ensures
        r == (a@ == b@),
{
    let other = chars_of(b);
    if a.len() != other.len() {
        return false;
    }
    let mut i: usize = 0;
    while i < a.len()
        invariant
            i <= a.len(),
            a.len() == other.len(),
            other@ == b@,
            forall|k: int| 0 <= k < i ==> a[k] == other[k],
        decreases a.len() - i,
    {
        if a[i] != other[i] {
            assert(a@[i as int] != b@[i as int]);
            return false;
        }
        i += 1;
    }
    assert(a@ =~= other@);
    true
}

/// The character that writes the digit `d`.
pub open spec fn digit_char(d: int) -> char {
    if d == 0 {
        '0'
    } else if d == 1 {
        '1'
    } else if d == 2 {
        '2'
    } else if d == 3 {
        '3'
    } else if d == 4 {
        '4'
    } else if d == 5 {
        '5'
    } else if d == 6 {
        '6'
    } else if d == 7 {
        '7'
    } else if d == 8 {
        '8'
    } else {
        '9'
    }
}

/// The decimal digits that write `n`, without zeros in front.
pub open spec fn decimal_text(n: nat) -> Seq<char>
    decreases n,
{
    if n < 10 {
        seq![digit_char(n as int)]
    } else {
        decimal_text(n / 10).push(digit_char((n % 10) as int))
    }
}

/// Reading what was written gives the number back.
pub proof fn law_written_number_reads_back(n: nat)
    ensures
        all_digits(decimal_text(n)),
        decimal(decimal_text(n)) == n,
        decimal_text(n).len() >= 1,
    decreases n,
{
    let text = decimal_text(n);
    if n < 10 {
        assert(text.drop_last() =~= Seq::<char>::empty());
        assert(decimal(text.drop_last()) == 0);
    } else {
        law_written_number_reads_back(n / 10);
        let front = decimal_text(n / 10);
        assert(text.drop_last() =~= front);
        assert forall|i: int| 0 <= i < text.len() implies is_digit(#[trigger] text[i]) by {
            if i < front.len() {
                assert(text[i] == front[i]);
            }
        }
    }
}

/// Writes `n` in decimal digits behind what `out` holds.
pub fn push_decimal(out: &mut Vec<char>, n: u64)
    ensures
        final(out)@ == old(out)@ + decimal_text(n as nat),
    decreases n,
{
    if n >= 10 {
        push_decimal(out, n / 10);
    }
    let ghost before = out@;
    let d = n % 10;
    let c = if d == 0 {
        '0'
    } else if d == 1 {
        '1'
    } else if d == 2 {
        '2'
    } else if d == 3 {
        '3'
    } else if d == 4 {
        '4'
    } else if d == 5 {
        '5'
    } else if d == 6 {
        '6'
    } else if d == 7 {
        '7'
    } else if d == 8 {
        '8'
    } else {
        '9'
    };
    out.push(c);
    proof {
        if n >= 10 {
            assert(out@ =~= old(out)@ + decimal_text(n as nat));
        } else {
            assert(out@ =~= old(out)@ + decimal_text(n as nat));
        }
    }
}

} // verus!

//! Characters, tokens and decimal numbers: the text layer under the parser
//! and the renderers.
use vstd::prelude::*;
use vstd::string::*;

verus! {

/// The characters that separate tokens: those with the Unicode property
/// `White_Space`.
pub open spec fn is_whitespace(c: char) -> bool {
    let n = c as u32;
    ||| 0x09 <= n <= 0x0D
    ||| n == 0x20
    ||| n == 0x85
    ||| n == 0xA0
    ||| n == 0x1680
    ||| 0x2000 <= n <= 0x200A
    ||| n == 0x2028
    ||| n == 0x2029
    ||| n == 0x202F
    ||| n == 0x205F
    ||| n == 0x3000
}

/// The ASCII decimal digits.
pub open spec fn is_digit(c: char) -> bool {
    0x30 <= c as u32 <= 0x39
}

/// The value of a decimal digit.
pub open spec fn digit_value(c: char) -> nat {
    (c as u32 - 0x30) as nat
}

/// Whether every character of `s` is a decimal digit.
pub open spec fn all_digits(s: Seq<char>) -> bool {
    forall|i: int| 0 <= i < s.len() ==> is_digit(#[trigger] s[i])
}

/// The number that a string of decimal digits denotes, most significant
/// digit first. The empty string denotes 0.
pub open spec fn decimal_value(s: Seq<char>) -> nat
    decreases s.len(),
{
    if s.len() == 0 {
        0
    } else {
        10 * decimal_value(s.drop_last()) + digit_value(s.last())
    }
}

/// The character of a digit below ten.
pub open spec fn digit_char(d: nat) -> char {
    (0x30 + d) as char
}

/// The decimal rendering of a number, without leading zeros.
pub open spec fn decimal(n: nat) -> Seq<char>
    decreases n,
{
    if n < 10 {
        seq![digit_char(n)]
    } else {
        decimal(n / 10).push(digit_char(n % 10))
    }
}

/// The tokens of a line: its maximal runs of characters that are not
/// whitespace, in order.
pub open spec fn tokens(s: Seq<char>) -> Seq<Seq<char>>
    decreases s.len(),
{
    if s.len() == 0 {
        Seq::empty()
    } else {
        let rest = s.drop_last();
        let before = tokens(rest);
        if is_whitespace(s.last()) {
            before
        } else if rest.len() > 0 && !is_whitespace(rest.last()) && before.len() > 0 {
            before.drop_last().push(before.last().push(s.last()))
        } else {
            before.push(seq![s.last()])
        }
    }
}

/// The views of a vector of strings.
pub open spec fn views(v: Seq<String>) -> Seq<Seq<char>> {
    Seq::new(v.len(), |i: int| v[i]@)
}

/// Tests a character for whitespace.
pub fn char_is_whitespace(c: char) -> (b: bool)
    ensures
        b == is_whitespace(c),
{
    let n: u32 = c as u32;
    (0x09 <= n && n <= 0x0D) || n == 0x20 || n == 0x85 || n == 0xA0 || n == 0x1680 || (0x2000 <= n
        && n <= 0x200A) || n == 0x2028 || n == 0x2029 || n == 0x202F || n == 0x205F || n == 0x3000
}

/// Tests a character for a decimal digit.
pub fn char_is_digit(c: char) -> (b: bool)
    ensures
        b == is_digit(c),
{
    let n: u32 = c as u32;
    0x30 <= n && n <= 0x39
}

/// The characters of a string slice.
pub fn chars_of(s: &str) -> (v: Vec<char>)
    ensures
        v@ == s@,
{
    let mut v: Vec<char> = Vec::new();
    for c in it: s.chars()
        invariant
            v@ == it.seq().take(it.index() as int),
            it.seq() == s@,
    {
        v.push(c);
    }
    v
}

/// Whether two string slices hold the same characters.
pub fn str_eq(a: &str, b: &str) -> (r: bool)
    ensures
        r == (a@ == b@),
{
    let x = a.to_owned();
    let y = b.to_owned();
    x == y
}

/// Every token has a character, and none of its characters is whitespace.
pub proof fn lemma_tokens_are_words(s: Seq<char>)
    ensures
        forall|i: int, k: int|
            0 <= i < tokens(s).len() && 0 <= k < tokens(s)[i].len() ==> !is_whitespace(
                #[trigger] tokens(s)[i][k],
            ),
        forall|i: int| 0 <= i < tokens(s).len() ==> (#[trigger] tokens(s)[i]).len() > 0,
    decreases s.len(),
{
    if s.len() > 0 {
        lemma_tokens_are_words(s.drop_last());
        let before = tokens(s.drop_last());
        assert forall|i: int, k: int|
            0 <= i < tokens(s).len() && 0 <= k < tokens(s)[i].len() implies !is_whitespace(
            #[trigger] tokens(s)[i][k],
        ) by {
            if i < before.len() && k < before[i].len() {
                assert(!is_whitespace(before[i][k]));
            }
        }
        assert forall|i: int| 0 <= i < tokens(s).len() implies (#[trigger] tokens(s)[i]).len()
            > 0 by {
            if i < before.len() {
                assert(before[i].len() > 0);
            }
        }
    }
}

/// The decimal rendering of a number is a string of digits that denotes
/// the number.
pub proof fn lemma_decimal_round_trip(n: nat)
    ensures
        decimal(n).len() > 0,
        all_digits(decimal(n)),
        decimal_value(decimal(n)) == n,
    decreases n,
{
    if n < 10 {
        assert(decimal(n).drop_last() == Seq::<char>::empty());
        assert(decimal_value(decimal(n).drop_last()) == 0);
    } else {
        lemma_decimal_round_trip(n / 10);
        let rest = decimal(n / 10);
        assert(decimal(n).drop_last() == rest);
        assert forall|i: int| 0 <= i < decimal(n).len() implies is_digit(
            #[trigger] decimal(n)[i],
        ) by {
            if i < rest.len() {
                assert(is_digit(rest[i]));
            }
        }
    }
}

/// Splits a line into its tokens.
pub fn split_tokens(line: &str) -> (out: Vec<String>)
    ensures
        views(out@) == tokens(line@),
{
    let chars = chars_of(line);
    let n: usize = chars.len();
    let mut out: Vec<String> = Vec::new();
    let mut start: usize = 0;
    let mut in_word: bool = false;
    let mut i: usize = 0;
    while i < n
        invariant
            chars@ == line@,
            n == chars.len(),
            i <= n,
            in_word ==> start < i && !is_whitespace(chars@[i - 1]),
            in_word ==> tokens(line@.take(i as int)) == views(out@).push(
                line@.subrange(start as int, i as int),
            ),
            !in_word ==> tokens(line@.take(i as int)) == views(out@),
            !in_word ==> (i == 0 || is_whitespace(chars@[i - 1])),
        decreases n - i,
    {
        let c = chars[i];
        let space = char_is_whitespace(c);
        let ghost before = line@.take(i as int);
        let ghost now = line@.take(i + 1);
        let ghost done = views(out@);
        assert(now.drop_last() == before);
        assert(now.last() == c);
        if space {
            if in_word {
                out.push(line.substring_char(start, i).to_owned());
                in_word = false;
                assert(views(out@) == done.push(line@.subrange(start as int, i as int)));
            }
        } else {
            if in_word {
                let ghost word = line@.subrange(start as int, i as int);
                assert(before.last() == chars@[i - 1]);
                assert(done.push(word).drop_last() == done);
                assert(word.push(c) == line@.subrange(start as int, i + 1));
            } else {
                start = i;
                in_word = true;
                assert(i > 0 ==> before.last() == chars@[i - 1]);
                assert(seq![c] == line@.subrange(i as int, i + 1));
            }
        }
        i = i + 1;
    }
    assert(line@.take(n as int) == line@);
    if in_word {
        let ghost done = views(out@);
        out.push(line.substring_char(start, n).to_owned());
        assert(views(out@) == done.push(line@.subrange(start as int, n as int)));
    }
    out
}

/// A prefix of a digit string denotes no more than the whole string.
pub proof fn lemma_decimal_value_prefix(s: Seq<char>, i: int)
    requires
        0 <= i <= s.len(),
    ensures
        decimal_value(s.take(i)) <= decimal_value(s),
    decreases s.len(),
{
    if i == s.len() {
        assert(s.take(i) == s);
    } else {
        assert(s.take(i) == s.drop_last().take(i));
        lemma_decimal_value_prefix(s.drop_last(), i);
    }
}

/// Reads a decimal number: `Some` exactly for a non-empty string of digits
/// whose value fits the machine word.
pub fn parse_decimal(chars: &Vec<char>) -> (r: Option<usize>)
    ensures
        r matches Some(n) ==> n == decimal_value(chars@),
        r is Some <==> chars.len() > 0 && all_digits(chars@) && decimal_value(chars@)
            <= usize::MAX,
{
    let n: usize = chars.len();
    if n == 0 {
        return None;
    }
    let mut acc: usize = 0;
    let mut i: usize = 0;
    while i < n
        invariant
            n == chars.len(),
            i <= n,
            all_digits(chars@.take(i as int)),
            acc == decimal_value(chars@.take(i as int)),
        decreases n - i,
    {
        let c = chars[i];
        if !char_is_digit(c) {
            return None;
        }
        let d: usize = (c as u32 - 0x30) as usize;
        let ghost now = chars@.take(i + 1);
        assert(now.drop_last() == chars@.take(i as int));
        assert(now.last() == c);
        if acc > (usize::MAX - d) / 10 {
            proof {
                lemma_decimal_value_prefix(chars@, i + 1);
            }
            return None;
        }
        acc = acc * 10 + d;
        assert forall|k: int| 0 <= k < now.len() implies is_digit(#[trigger] now[k]) by {
            if k < i {
                assert(now[k] == chars@.take(i as int)[k]);
            }
        }
        i = i + 1;
    }
    assert(chars@.take(n as int) == chars@);
    Some(acc)
}

/// The text of one decimal digit.
fn digit_str(d: usize) -> (s: &'static str)
    requires
        d < 10,
    ensures
        s@ == seq![digit_char(d as nat)],
{
    proof {
        reveal_strlit("0");
        reveal_strlit("1");
        reveal_strlit("2");
        reveal_strlit("3");
        reveal_strlit("4");
        reveal_strlit("5");
        reveal_strlit("6");
        reveal_strlit("7");
        reveal_strlit("8");
        reveal_strlit("9");
    }
    let s = match d {
        0 => "0",
        1 => "1",
        2 => "2",
        3 => "3",
        4 => "4",
        5 => "5",
        6 => "6",
        7 => "7",
        8 => "8",
        _ => "9",
    };
    assert(s@ =~= seq![digit_char(d as nat)]);
    s
}

/// Renders a number in decimal.
pub fn decimal_string(n: usize) -> (s: String)
    ensures
        s@ == decimal(n as nat),
    decreases n,
{
    if n < 10 {
        digit_str(n).to_owned()
    } else {
        let mut s = decimal_string(n / 10);
        s.append(digit_str(n % 10));
        s
    }
}

/// The lines of a text: what stands between its line feeds. A text
/// without a line feed is one line.
pub open spec fn lines(s: Seq<char>) -> Seq<Seq<char>>
    decreases s.len(),
{
    if s.len() == 0 {
        seq![Seq::empty()]
    } else {
        let before = lines(s.drop_last());
        if s.last() == '\n' {
            before.push(Seq::empty())
        } else {
            before.drop_last().push(before.last().push(s.last()))
        }
    }
}

/// Splits a text into its lines.
pub fn split_lines(text: &str) -> (out: Vec<String>)
    ensures
        views(out@) == lines(text@),
{
    let chars = chars_of(text);
    let n: usize = chars.len();
    let mut out: Vec<String> = Vec::new();
    let mut start: usize = 0;
    let mut i: usize = 0;
    assert(text@.take(0) == Seq::<char>::empty());
    assert(text@.subrange(0, 0) == Seq::<char>::empty());
    assert(views(out@).push(text@.subrange(0, 0)) == seq![Seq::<char>::empty()]);
    while i < n
        invariant
            chars@ == text@,
            n == chars.len(),
            start <= i <= n,
            lines(text@.take(i as int)) == views(out@).push(
                text@.subrange(start as int, i as int),
            ),
        decreases n - i,
    {
        let c = chars[i];
        let ghost before = text@.take(i as int);
        let ghost now = text@.take(i + 1);
        let ghost done = views(out@);
        let ghost line = text@.subrange(start as int, i as int);
        assert(now.drop_last() == before);
        assert(now.last() == c);
        assert(done.push(line).drop_last() == done);
        if c == '\n' {
            out.push(text.substring_char(start, i).to_owned());
            start = i + 1;
            assert(views(out@) == done.push(line));
            assert(text@.subrange(i + 1, i + 1) == Seq::<char>::empty());
        } else {
            assert(line.push(c) == text@.subrange(start as int, i + 1));
        }
        i = i + 1;
    }
    assert(text@.take(n as int) == text@);
    let ghost done = views(out@);
    out.push(text.substring_char(start, n).to_owned());
    assert(views(out@) == done.push(text@.subrange(start as int, n as int)));
    out
}

/// Whether one text stands before another in the order of strings: at the
/// first place where they differ it has the lower character, or it ends
/// there and the other does not.
pub open spec fn lex_less(a: Seq<char>, b: Seq<char>) -> bool
    decreases a.len(),
{
    if b.len() == 0 {
        false
    } else if a.len() == 0 {
        true
    } else if a[0] != b[0] {
        (a[0] as u32) < (b[0] as u32)
    } else {
        lex_less(a.skip(1), b.skip(1))
    }
}

/// No text stands before itself, and of two texts at most one stands before
/// the other.
pub proof fn lemma_lex_asymmetric(a: Seq<char>, b: Seq<char>)
    ensures
        !(lex_less(a, b) && lex_less(b, a)),
    decreases a.len(),
{
    if a.len() > 0 && b.len() > 0 && a[0] == b[0] {
        lemma_lex_asymmetric(a.skip(1), b.skip(1));
    }
}

/// The order of strings is transitive.
pub proof fn lemma_lex_transitive(a: Seq<char>, b: Seq<char>, c: Seq<char>)
    requires
        lex_less(a, b),
        lex_less(b, c),
    ensures
        lex_less(a, c),
    decreases a.len(),
{
    if a.len() > 0 && b.len() > 0 && c.len() > 0 && a[0] == b[0] && b[0] == c[0] {
        lemma_lex_transitive(a.skip(1), b.skip(1), c.skip(1));
    }
}

/// Of two different texts one stands before the other.
pub proof fn lemma_lex_connected(a: Seq<char>, b: Seq<char>)
    ensures
        lex_less(a, b) || lex_less(b, a) || a == b,
    decreases a.len(),
{
    if a.len() == 0 || b.len() == 0 {
        if a.len() == 0 && b.len() == 0 {
            assert(a =~= b);
        }
    } else if a[0] == b[0] {
        lemma_lex_connected(a.skip(1), b.skip(1));
        if a.skip(1) == b.skip(1) {
            assert(a =~= seq![a[0]] + a.skip(1));
            assert(b =~= seq![b[0]] + b.skip(1));
        }
    } else {
        vstd::utf8::char_u32_cast(a[0], a[0] as u32);
        vstd::utf8::char_u32_cast(b[0], b[0] as u32);
    }
}

/// Texts that agree on their first characters compare as what follows
/// those.
pub proof fn lemma_lex_skip(a: Seq<char>, b: Seq<char>, n: int)
    requires
        0 <= n <= a.len(),
        n <= b.len(),
        a.take(n) == b.take(n),
    ensures
        lex_less(a, b) == lex_less(a.skip(n), b.skip(n)),
    decreases n,
{
    if n == 0 {
        assert(a.skip(0) == a);
        assert(b.skip(0) == b);
    } else {
        assert(a[0] == a.take(n)[0]);
        assert(b[0] == b.take(n)[0]);
        assert(a.skip(1).take(n - 1) == a.take(n).skip(1));
        assert(b.skip(1).take(n - 1) == b.take(n).skip(1));
        lemma_lex_skip(a.skip(1), b.skip(1), n - 1);
        assert(a.skip(1).skip(n - 1) == a.skip(n));
        assert(b.skip(1).skip(n - 1) == b.skip(n));
    }
}

/// Whether one string stands before another in the order of strings.
pub fn str_less(a: &str, b: &str) -> (r: bool)
    ensures
        r == lex_less(a@, b@),
{
    let x = chars_of(a);
    let y = chars_of(b);
    let mut i: usize = 0;
    while i < x.len() && i < y.len()
        invariant
            x@ == a@,
            y@ == b@,
            i <= x.len(),
            i <= y.len(),
            x@.take(i as int) == y@.take(i as int),
        decreases x.len() - i,
    {
        if x[i] != y[i] {
            proof {
                lemma_lex_skip(x@, y@, i as int);
            }
            return (x[i] as u32) < (y[i] as u32);
        }
        assert(x@.take(i + 1) == x@.take(i as int).push(x@[i as int]));
        assert(y@.take(i + 1) == y@.take(i as int).push(y@[i as int]));
        i = i + 1;
    }
    proof {
        lemma_lex_skip(x@, y@, i as int);
    }
    i < y.len()
}

} // verus!

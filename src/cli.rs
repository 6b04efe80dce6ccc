use vstd::prelude::*;

verus! {

pub open spec fn is_digit(c: char) -> bool {
    '0' <= c <= '9'
}

/// The number that a sequence of decimal digits spells.
pub open spec fn digits_value(s: Seq<char>) -> int
    decreases s.len(),
{
    if s.len() == 0 {
        0
    } else {
        digits_value(s.drop_last()) * 10 + (s.last() as int - '0' as int)
    }
}

/// The digits of a count: the text without one leading `+`.
pub open spec fn count_digits(s: Seq<char>) -> Seq<char> {
    if s.len() > 0 && s[0] == '+' {
        s.drop_first()
    } else {
        s
    }
}

/// A count is an optional `+` and at least one decimal digit, whose value fits in `usize`.
pub open spec fn is_count_text(s: Seq<char>) -> bool {
    let d = count_digits(s);
    &&& d.len() >= 1
    &&& forall|i: int| 0 <= i < d.len() ==> is_digit(#[trigger] d[i])
    &&& digits_value(d) <= usize::MAX
}

proof fn lemma_digits_value_grows(s: Seq<char>, j: int)
    requires
        0 <= j <= s.len(),
        forall|i: int| 0 <= i < s.len() ==> is_digit(#[trigger] s[i]),
    ensures
        digits_value(s.take(j)) <= digits_value(s),
        digits_value(s) >= 0,
    decreases s.len(),
{
    if s.len() > 0 {
        let t = s.drop_last();
        assert forall|i: int| 0 <= i < t.len() implies is_digit(#[trigger] t[i]) by {
            assert(t[i] == s[i]);
        }
        if j == s.len() {
            assert(s.take(j) =~= s);
            lemma_digits_value_grows(t, 0);
        } else {
            assert(t.take(j) =~= s.take(j));
            lemma_digits_value_grows(t, j);
        }
    } else {
        assert(s.take(j) =~= s);
    }
}

/// Reads a count as `usize`'s decimal parse does: an optional `+`, then digits only.
pub fn parse_count(text: &Vec<char>) -> (r: Option<usize>)
    ensures
        r == (if is_count_text(text@) {
            Some(digits_value(count_digits(text@)) as usize)
        } else {
            None
        }),
        r matches Some(n) ==> n == digits_value(count_digits(text@)),
{
    let ghost d = count_digits(text@);
    let start: usize = if text.len() > 0 && text[0] == '+' {
        1
    } else {
        0
    };
    assert(d =~= text@.skip(start as int));
    if start == text.len() {
        return None;
    }
    let mut value: usize = 0;
    let mut i: usize = start;
    assert(d.take(0) =~= Seq::<char>::empty());
    while i < text.len()
        invariant
            start <= i <= text@.len(),
            d == count_digits(text@),
            d == text@.skip(start as int),
            d.len() == text@.len() - start,
            forall|k: int| 0 <= k < i - start ==> is_digit(#[trigger] d[k]),
            value == digits_value(d.take(i - start)),
        decreases text@.len() - i,
    {
        let c = text[i];
        if !('0' <= c && c <= '9') {
            assert(d[i - start] == c);
            return None;
        }
        let digit = (c as u32 - '0' as u32) as usize;
        assert(d.take(i + 1 - start).drop_last() =~= d.take(i - start));
        assert(d[i - start] == c);
        assert(digits_value(d.take(i + 1 - start)) == value * 10 + digit);
        if value > (usize::MAX - digit) / 10 {
            // Any further digits only make the value larger.
            assert(value * 10 + digit > usize::MAX) by (nonlinear_arith)
                requires
                    value > (usize::MAX - digit) / 10,
                    digit <= 9,
            ;
            proof {
                let j = (i + 1 - start) as int;
                if forall|k: int| 0 <= k < d.len() ==> is_digit(#[trigger] d[k]) {
                    lemma_digits_value_grows(d, j);
                }
            }
            return None;
        }
        assert(value * 10 + digit <= usize::MAX) by (nonlinear_arith)
            requires
                value <= (usize::MAX - digit) / 10,
                digit <= 9,
        ;
        value = value * 10 + digit;
        i = i + 1;
    }
    assert(d.take(i - start) =~= d);
    Some(value)
}

/// What one command-line argument sets.
#[derive(Debug, PartialEq)]
pub enum Setting {
    /// `--count=<value>`: the number of vertices.
    Count(usize),
    /// `--linearity=<value>`: the text of a real number, read by the caller.
    Linearity(Vec<char>),
}

/// Why an argument was refused.
#[derive(Debug, PartialEq)]
pub enum ArgumentError {
    /// No `=` in the argument.
    UnknownArgument,
    /// The text before the first `=` names no option.
    UnknownOption(Vec<char>),
    /// The value of `--count` is not a count.
    BadCount,
}

pub open spec fn count_option() -> Seq<char> {
    seq!['-', '-', 'c', 'o', 'u', 'n', 't']
}

pub open spec fn linearity_option() -> Seq<char> {
    seq!['-', '-', 'l', 'i', 'n', 'e', 'a', 'r', 'i', 't', 'y']
}

/// `p` is the position of the first `=` in `s`.
pub open spec fn is_first_equals(s: Seq<char>, p: int) -> bool {
    &&& 0 <= p < s.len()
    &&& s[p] == '='
    &&& forall|q: int| 0 <= q < p ==> #[trigger] s[q] != '='
}

/// An argument is split at its first `=` into an option and its value.
pub open spec fn has_equals(s: Seq<char>) -> bool {
    exists|p: int| is_first_equals(s, p)
}

pub open spec fn equals_at(s: Seq<char>) -> int {
    choose|p: int| is_first_equals(s, p)
}

/// What an argument means, over mathematical values.
pub enum Meaning {
    Count(int),
    Linearity(Seq<char>),
    UnknownArgument,
    UnknownOption(Seq<char>),
    BadCount,
}

pub open spec fn setting_view(r: Result<Setting, ArgumentError>) -> Meaning {
    match r {
        Ok(Setting::Count(n)) => Meaning::Count(n as int),
        Ok(Setting::Linearity(v)) => Meaning::Linearity(v@),
        Err(ArgumentError::UnknownArgument) => Meaning::UnknownArgument,
        Err(ArgumentError::UnknownOption(o)) => Meaning::UnknownOption(o@),
        Err(ArgumentError::BadCount) => Meaning::BadCount,
    }
}

/// What an argument means: an option and its value, split at the first `=`.
pub open spec fn argument_meaning(s: Seq<char>) -> Meaning {
    if !has_equals(s) {
        Meaning::UnknownArgument
    } else {
        let p = equals_at(s);
        let option = s.take(p);
        let value = s.skip(p + 1);
        if option == count_option() {
            if is_count_text(value) {
                Meaning::Count(digits_value(count_digits(value)))
            } else {
                Meaning::BadCount
            }
        } else if option == linearity_option() {
            Meaning::Linearity(value)
        } else {
            Meaning::UnknownOption(option)
        }
    }
}

/// The characters of `s` from `start` to `end`.
fn slice_of(s: &Vec<char>, start: usize, end: usize) -> (r: Vec<char>)
    requires
        start <= end <= s@.len(),
    ensures
        r@ == s@.subrange(start as int, end as int),
{
    let mut r: Vec<char> = Vec::new();
    let mut i: usize = start;
    while i < end
        invariant
            start <= i <= end <= s@.len(),
            r@ == s@.subrange(start as int, i as int),
        decreases end - i,
    {
        r.push(s[i]);
        i = i + 1;
        assert(r@ =~= s@.subrange(start as int, i as int));
    }
    r
}

fn same_chars(a: &Vec<char>, b: &Vec<char>) -> (r: bool)
    ensures
        r == (a@ == b@),
{
    if a.len() != b.len() {
        return false;
    }
    let mut i: usize = 0;
    while i < a.len()
        invariant
            a@.len() == b@.len(),
            i <= a@.len(),
            a@.take(i as int) == b@.take(i as int),
        decreases a@.len() - i,
    {
        if a[i] != b[i] {
            return false;
        }
        assert(a@.take(i + 1) =~= a@.take(i as int).push(a@[i as int]));
        assert(b@.take(i + 1) =~= b@.take(i as int).push(b@[i as int]));
        i = i + 1;
    }
    assert(a@.take(i as int) =~= a@);
    assert(b@.take(i as int) =~= b@);
    true
}

/// Reads one `--option=value` argument.
pub fn classify_argument(arg: &str) -> (r: Result<Setting, ArgumentError>)
    ensures
        setting_view(r) == argument_meaning(arg@),
{
    let cs = chars_of(arg);
    let mut p: usize = 0;
    while p < cs.len() && cs[p] != '='
        invariant
            p <= cs@.len(),
            forall|q: int| 0 <= q < p ==> #[trigger] cs@[q] != '=',
        decreases cs@.len() - p,
    {
        p = p + 1;
    }
    if p == cs.len() {
        assert(!has_equals(arg@)) by {
            if has_equals(arg@) {
                let q = choose|q: int| is_first_equals(arg@, q);
                assert(cs@[q] == '=');
            }
        }
        return Err(ArgumentError::UnknownArgument);
    }
    assert(is_first_equals(arg@, p as int));
    assert(equals_at(arg@) == p) by {
        let q = equals_at(arg@);
        assert(is_first_equals(arg@, q));
        if q < p {
            assert(cs@[q] != '=');
        } else if q > p {
            assert(arg@[p as int] != '=');
        }
    }
    let option = slice_of(&cs, 0, p);
    let value = slice_of(&cs, p + 1, cs.len());
    assert(option@ =~= arg@.take(p as int));
    assert(value@ =~= arg@.skip(p + 1));
    let count_name = vec!['-', '-', 'c', 'o', 'u', 'n', 't'];
    let linearity_name = vec!['-', '-', 'l', 'i', 'n', 'e', 'a', 'r', 'i', 't', 'y'];
    assert(count_name@ =~= count_option());
    assert(linearity_name@ =~= linearity_option());
    if same_chars(&option, &count_name) {
        match parse_count(&value) {
            Some(n) => Ok(Setting::Count(n)),
            None => Err(ArgumentError::BadCount),
        }
    } else if same_chars(&option, &linearity_name) {
        Ok(Setting::Linearity(value))
    } else {
        Err(ArgumentError::UnknownOption(option))
    }
}

/// The characters of `s`, in order.
pub fn chars_of(s: &str) -> (r: Vec<char>)
    ensures
        r@ == s@,
{
    let mut r: Vec<char> = Vec::new();
    for c in it: s.chars()
        invariant
            r@ == it.seq().take(it.index() as int),
    {
        r.push(c);
    }
    r
}

} // verus!

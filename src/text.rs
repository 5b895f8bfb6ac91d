use vstd::prelude::*;

verus! {

/// Whether `c` is an ASCII decimal digit.
pub open spec fn is_digit(c: char) -> bool {
    '0' <= c && c <= '9'
}

/// The value of the decimal digit `c`.
pub open spec fn digit_value(c: char) -> nat {
    (c as int - '0' as int) as nat
}

/// The value of a sequence of decimal digits, most significant first.
pub open spec fn digits_value(s: Seq<char>) -> nat
    decreases s.len(),
{
    if s.len() == 0 {
        0
    } else {
        digits_value(s.drop_last()) * 10 + digit_value(s.last())
    }
}

/// The unsigned 32-bit integer that `s` denotes in decimal: an optional
/// leading `+`, then one digit or more, and a value that fits.
pub open spec fn u32_text(s: Seq<char>) -> Option<u32> {
    let d = sign_stripped(s);
    if d.len() > 0 && (forall|i: int| 0 <= i < d.len() ==> is_digit(#[trigger] d[i]))
        && digits_value(d) <= u32::MAX {
        Some(digits_value(d) as u32)
    } else {
        None
    }
}

/// `s` without one leading `+`.
pub open spec fn sign_stripped(s: Seq<char>) -> Seq<char> {
    if s.len() > 0 && s[0] == '+' {
        s.drop_first()
    } else {
        s
    }
}

proof fn lemma_digits_value_grows(d: Seq<char>, k: int, j: int)
    requires
        0 <= k <= j <= d.len(),
    ensures
        digits_value(d.take(k)) <= digits_value(d.take(j)),
    decreases j - k,
{
    if k < j {
        lemma_digits_value_grows(d, k, j - 1);
        assert(d.take(j).drop_last() =~= d.take(j - 1));
    }
}

/// Reads a decimal `u32` as `str::parse::<u32>` does.
pub fn parse_u32(s: &str) -> (r: Option<u32>)
    ensures
        r == u32_text(s@),
{
    let n = s.unicode_len();
    let mut start: usize = 0;
    if n > 0 && s.get_char(0) == '+' {
        start = 1;
    }
    let ghost d = sign_stripped(s@);
    assert(d =~= s@.subrange(start as int, n as int));
    if start == n {
        return None;
    }
    let mut acc: u64 = 0;
    let mut i: usize = start;
    while i < n
        invariant
            start <= i <= n,
            n == s@.len(),
            start < n,
            d == s@.subrange(start as int, n as int),
            d == sign_stripped(s@),
            forall|k: int| 0 <= k < i - start ==> is_digit(#[trigger] d[k]),
            acc == digits_value(d.take(i - start)),
            acc <= u32::MAX,
        decreases n - i,
    {
        let c = s.get_char(i);
        assert(d[i - start] == c);
        if !('0' <= c && c <= '9') {
            assert(!is_digit(d[i - start]));
            assert(!(forall|k: int| 0 <= k < d.len() ==> is_digit(#[trigger] d[k])));
            return None;
        }
        proof {
            assert(d.take(i - start + 1).drop_last() =~= d.take(i - start));
        }
        acc = acc * 10 + (c as u64 - '0' as u64);
        i = i + 1;
        assert(acc == digits_value(d.take(i - start)));
        if acc > u32::MAX as u64 {
            proof {
                lemma_digits_value_grows(d, i - start, d.len() as int);
                assert(d.take(d.len() as int) =~= d);
                assert(digits_value(d) > u32::MAX);
            }
            return None;
        }
    }
    proof {
        assert(d.take(i - start) =~= d);
    }
    Some(acc as u32)
}

/// The decimal rendering of `n`, without leading zeros.
pub open spec fn decimal_text(n: nat) -> Seq<char>
    decreases n,
{
    if n < 10 {
        seq![digit_char(n)]
    } else {
        decimal_text(n / 10) + seq![digit_char(n % 10)]
    }
}

/// The decimal digit whose value is `d`.
pub open spec fn digit_char(d: nat) -> char {
    ((d + '0' as nat) as u32) as char
}

fn digit_str(d: u32) -> (r: &'static str)
    requires
        d < 10,
    ensures
        r@ == seq![digit_char(d as nat)],
{
    proof {
        reveal_strlit("0");
        reveal_strlit("1");
        reveal_strlit("2");
        reveal_strlit("3");
        reveal_strlit("4");
        reveal_strlit("5");
        reveal_strlit("6");
        reveal_strlit("7");
        reveal_strlit("8");
        reveal_strlit("9");
    }
    if d == 0 {
        "0"
    } else if d == 1 {
        "1"
    } else if d == 2 {
        "2"
    } else if d == 3 {
        "3"
    } else if d == 4 {
        "4"
    } else if d == 5 {
        "5"
    } else if d == 6 {
        "6"
    } else if d == 7 {
        "7"
    } else if d == 8 {
        "8"
    } else {
        "9"
    }
}

/// Renders `n` in decimal.
pub fn u32_to_text(n: u32) -> (r: String)
    ensures
        r@ == decimal_text(n as nat),
    decreases n,
{
    if n < 10 {
        let mut s = String::new();
        s.append(digit_str(n));
        s
    } else {
        let mut s = u32_to_text(n / 10);
        s.append(digit_str(n % 10));
        s
    }
}

/// Whether `p` is a prefix of `s`.
pub open spec fn is_prefix(p: Seq<char>, s: Seq<char>) -> bool {
    p.len() <= s.len() && s.take(p.len() as int) == p
}

/// Whether `p` is a suffix of `s`.
pub open spec fn is_suffix(p: Seq<char>, s: Seq<char>) -> bool {
    p.len() <= s.len() && s.skip(s.len() - p.len()) == p
}

/// Relies on `str::starts_with`: true exactly when `p` is a prefix of `s`.
#[verifier::external_body]
pub(crate) fn starts_with(s: &str, p: &str) -> (r: bool)
    ensures
        r == is_prefix(p@, s@),
{
    s.starts_with(p)
}

/// Relies on `str::ends_with`: true exactly when `p` is a suffix of `s`.
#[verifier::external_body]
pub(crate) fn ends_with(s: &str, p: &str) -> (r: bool)
    ensures
        r == is_suffix(p@, s@),
{
    s.ends_with(p)
}

/// Relies on `str::split_once` with a space: the text before the first space
/// and the text after it, or nothing where `s` holds no space.
#[verifier::external_body]
pub(crate) fn split_at_space(s: &str) -> (r: Option<(&str, &str)>)
    ensures
        match r {
            Some((a, b)) => s@ == a@ + seq![' '] + b@ && !a@.contains(' '),
            None => !s@.contains(' '),
        },
{
    s.split_once(' ')
}

/// The characters of `s` before its first space (all of them where it
/// holds none).
pub open spec fn before_space(s: Seq<char>) -> Seq<char>
    decreases s.len(),
{
    if s.len() == 0 {
        s
    } else if s[0] == ' ' {
        Seq::empty()
    } else {
        seq![s[0]] + before_space(s.drop_first())
    }
}

proof fn lemma_before_space(a: Seq<char>, rest: Seq<char>)
    requires
        !a.contains(' '),
        rest.len() == 0 || rest[0] == ' ',
    ensures
        before_space(a + rest) == a,
    decreases a.len(),
{
    if a.len() > 0 {
        assert(!a.drop_first().contains(' ')) by {
            if a.drop_first().contains(' ') {
                let k = choose|k: int| 0 <= k < a.drop_first().len() && a.drop_first()[k] == ' ';
                assert(a[k + 1] == ' ');
            }
        }
        assert(a[0] != ' ');
        lemma_before_space(a.drop_first(), rest);
        assert((a + rest).drop_first() =~= a.drop_first() + rest);
        assert(seq![a[0]] + a.drop_first() =~= a);
    } else {
        assert(a + rest =~= rest);
    }
}

/// The text that opens the statement line of an entity of the graph.
pub open spec fn entity_prefix() -> Seq<char> {
    "<http://ma-graph.org/entity/"@
}

/// The subject token of a line, by which lines are grouped: the text before
/// the first space where the line opens with the entity prefix, and empty
/// where it does not.
pub open spec fn subject_token(line: Seq<char>) -> Seq<char> {
    if is_prefix(entity_prefix(), line) {
        before_space(line)
    } else {
        Seq::empty()
    }
}

/// Computes the subject token of `line`.
pub fn line_subject(line: &str) -> (r: String)
    ensures
        r@ == subject_token(line@),
{
    if starts_with(line, "<http://ma-graph.org/entity/") {
        match split_at_space(line) {
            Some((a, b)) => {
                proof {
                    lemma_before_space(a@, seq![' '] + b@);
                    assert(a@ + seq![' '] + b@ =~= a@ + (seq![' '] + b@));
                }
                a.to_owned()
            },
            None => {
                proof {
                    lemma_before_space(line@, Seq::empty());
                    assert(line@ + Seq::empty() =~= line@);
                }
                line.to_owned()
            },
        }
    } else {
        String::new()
    }
}

} // verus!

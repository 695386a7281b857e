use vstd::prelude::*;
use vstd::std_specs::iter::IteratorSpec;

verus! {

/// The characters of `s` in order.
pub(crate) fn chars_of(s: &str) -> (r: Vec<char>)
    ensures
        r@ == s@,
{
    broadcast use {vstd::string::axiom_spec_iter, vstd::string::next_postcondition};

    let mut it = s.chars();
    let mut r: Vec<char> = Vec::new();
    loop
        invariant
            r@ + it.remaining() == s@,
        ensures
            r@ == s@,
        decreases s@.len() - r@.len(),
    {
        let ghost rem = it.remaining();
        match it.next() {
            Some(c) => {
                let ghost before = r@;
                r.push(c);
                proof {
                    assert(rem =~= seq![c] + rem.drop_first());
                    assert(r@ + it.remaining() =~= before + rem);
                }
            },
            None => {
                proof {
                    assert(it.remaining().len() == 0);
                    assert(r@ + it.remaining() =~= r@);
                }
                break;
            },
        }
    }
    r
}

/// Relies on `FromIterator<char>` for `String`: the string of the
/// characters `v` in order.
#[verifier::external_body]
pub(crate) fn string_of(v: &Vec<char>) -> (r: String)
    ensures
        r@ == v@,
{
    v.iter().collect()
}

pub open spec fn is_ws(c: char) -> bool {
    ('\t' <= c <= '\r') || c == ' ' || c == '\u{85}' || c == '\u{a0}' || c == '\u{1680}' || (
    '\u{2000}' <= c <= '\u{200a}') || c == '\u{2028}' || c == '\u{2029}' || c == '\u{202f}'
        || c == '\u{205f}' || c == '\u{3000}'
}

/// Whether `c` is a Unicode white space character.
pub fn is_space(c: char) -> (r: bool)
    ensures
        r == is_ws(c),
{
    ('\t' <= c && c <= '\r') || c == ' ' || c == '\u{85}' || c == '\u{a0}' || c == '\u{1680}'
        || ('\u{2000}' <= c && c <= '\u{200a}') || c == '\u{2028}' || c == '\u{2029}' || c
        == '\u{202f}' || c == '\u{205f}' || c == '\u{3000}'
}

/// A line without the carriage return that ended it.
pub open spec fn strip_cr(l: Seq<char>) -> Seq<char> {
    if l.len() > 0 && l.last() == '\r' {
        l.drop_last()
    } else {
        l
    }
}

/// The finished lines and the line in progress after reading `s[..n]`.
pub open spec fn line_fold(s: Seq<char>, n: int) -> (Seq<Seq<char>>, Seq<char>)
    decreases n,
{
    if n <= 0 {
        (Seq::empty(), Seq::empty())
    } else {
        let (done, cur) = line_fold(s, n - 1);
        if s[n - 1] == '\n' {
            (done.push(strip_cr(cur)), Seq::empty())
        } else {
            (done, cur.push(s[n - 1]))
        }
    }
}

/// The lines of `s`: split at each newline, a carriage return before it
/// dropped, and no empty line after a final newline.
pub open spec fn lines_of(s: Seq<char>) -> Seq<Seq<char>> {
    let (done, cur) = line_fold(s, s.len() as int);
    if cur.len() > 0 {
        done.push(cur)
    } else {
        done
    }
}

/// The finished tokens and the token in progress after reading `l[..n]`.
pub open spec fn token_fold(l: Seq<char>, n: int) -> (Seq<Seq<char>>, Seq<char>)
    decreases n,
{
    if n <= 0 {
        (Seq::empty(), Seq::empty())
    } else {
        let (done, cur) = token_fold(l, n - 1);
        if is_ws(l[n - 1]) {
            if cur.len() > 0 {
                (done.push(cur), Seq::empty())
            } else {
                (done, Seq::empty())
            }
        } else {
            (done, cur.push(l[n - 1]))
        }
    }
}

/// The whitespace-separated words of `l`.
pub open spec fn tokens_of(l: Seq<char>) -> Seq<Seq<char>> {
    let (done, cur) = token_fold(l, l.len() as int);
    if cur.len() > 0 {
        done.push(cur)
    } else {
        done
    }
}

pub open spec fn is_digit(c: char) -> bool {
    '0' <= c <= '9'
}

/// The number written in decimal by the digits `d`.
pub open spec fn digits_value(d: Seq<char>) -> int
    decreases d.len(),
{
    if d.len() == 0 {
        0
    } else {
        digits_value(d.drop_last()) * 10 + (d.last() as int - '0' as int)
    }
}

/// The digits of a number token, after an optional `+`.
pub open spec fn unsigned_digits(t: Seq<char>) -> Seq<char> {
    if t.len() > 0 && t[0] == '+' {
        t.skip(1)
    } else {
        t
    }
}

/// The `u32` that token `t` writes in decimal, if it writes one.
pub open spec fn u32_of(t: Seq<char>) -> Option<u32> {
    let d = unsigned_digits(t);
    if d.len() > 0 && (forall|i: int| 0 <= i < d.len() ==> is_digit(#[trigger] d[i]))
        && digits_value(d) <= u32::MAX {
        Some(digits_value(d) as u32)
    } else {
        None
    }
}

/// The lines of `s`.
pub fn split_lines(s: &Vec<char>) -> (r: Vec<Vec<char>>)
    ensures
        r@.map_values(|l: Vec<char>| l@) == lines_of(s@),
{
    let mut done: Vec<Vec<char>> = Vec::new();
    let mut cur: Vec<char> = Vec::new();
    let mut i: usize = 0;
    while i < s.len()
        invariant
            0 <= i <= s@.len(),
            (done@.map_values(|l: Vec<char>| l@), cur@) == line_fold(s@, i as int),
        decreases s@.len() - i,
    {
        let c = s[i];
        let ghost before = done@;
        if c == '\n' {
            if cur.len() > 0 && cur[cur.len() - 1] == '\r' {
                cur.pop();
            }
            let line = cur;
            done.push(line);
            cur = Vec::new();
            proof {
                assert(done@.map_values(|l: Vec<char>| l@) =~= before.map_values(|l: Vec<char>| l@).push(
                    done@.last()@,
                ));
            }
        } else {
            cur.push(c);
        }
        i += 1;
    }
    if cur.len() > 0 {
        let ghost before = done@;
        done.push(cur);
        proof {
            assert(done@.map_values(|l: Vec<char>| l@) =~= before.map_values(|l: Vec<char>| l@).push(
                done@.last()@,
            ));
        }
    }
    done
}

/// The whitespace-separated words of `l`.
pub fn split_tokens(l: &Vec<char>) -> (r: Vec<Vec<char>>)
    ensures
        r@.map_values(|t: Vec<char>| t@) == tokens_of(l@),
{
    let mut done: Vec<Vec<char>> = Vec::new();
    let mut cur: Vec<char> = Vec::new();
    let mut i: usize = 0;
    while i < l.len()
        invariant
            0 <= i <= l@.len(),
            (done@.map_values(|t: Vec<char>| t@), cur@) == token_fold(l@, i as int),
        decreases l@.len() - i,
    {
        let c = l[i];
        let ghost before = done@;
        if is_space(c) {
            if cur.len() > 0 {
                let tok = cur;
                done.push(tok);
                proof {
                    assert(done@.map_values(|t: Vec<char>| t@) =~= before.map_values(
                        |t: Vec<char>| t@,
                    ).push(done@.last()@));
                }
            }
            cur = Vec::new();
        } else {
            cur.push(c);
        }
        i += 1;
    }
    if cur.len() > 0 {
        let ghost before = done@;
        done.push(cur);
        proof {
            assert(done@.map_values(|t: Vec<char>| t@) =~= before.map_values(|t: Vec<char>| t@).push(
                done@.last()@,
            ));
        }
    }
    done
}

/// The `u32` that `t` writes in decimal.
pub fn parse_u32(t: &Vec<char>) -> (r: Option<u32>)
    ensures
        r == u32_of(t@),
{
    let start: usize = if t.len() > 0 && t[0] == '+' {
        1
    } else {
        0
    };
    let ghost d = unsigned_digits(t@);
    proof {
        assert(d =~= t@.subrange(start as int, t@.len() as int));
    }
    if start >= t.len() {
        return None;
    }
    let mut value: u64 = 0;
    let mut i: usize = start;
    while i < t.len()
        invariant
            start <= i <= t@.len(),
            d == unsigned_digits(t@),
            d == t@.subrange(start as int, t@.len() as int),
            d.len() > 0,
            forall|k: int| 0 <= k < i - start ==> is_digit(#[trigger] d[k]),
            value == digits_value(d.subrange(0, i - start)),
            value <= u32::MAX,
        decreases t@.len() - i,
    {
        let c = t[i];
        proof {
            assert(d[i - start] == c);
        }
        if !('0' <= c && c <= '9') {
            proof {
                assert(!is_digit(d[i - start]));
                assert(!(forall|k: int| 0 <= k < d.len() ==> is_digit(#[trigger] d[k])));
            }
            return None;
        }
        proof {
            assert(d.subrange(0, i - start + 1).drop_last() =~= d.subrange(0, i - start));
            assert(d.subrange(0, i - start + 1).last() == c);
        }
        value = value * 10 + (c as u64 - '0' as u64);
        i += 1;
        proof {
            assert(is_digit(d[i - start - 1]));
            assert(value == digits_value(d.subrange(0, i - start)));
        }
        if value > u32::MAX as u64 {
            proof {
                lemma_digits_value_prefix(d, i - start);
                if exists|k: int| i - start <= k < d.len() && !is_digit(#[trigger] d[k]) {
                    let k = choose|k: int| i - start <= k < d.len() && !is_digit(#[trigger] d[k]);
                    assert(!(forall|k: int| 0 <= k < d.len() ==> is_digit(#[trigger] d[k])));
                }
            }
            return None;
        }
    }
    proof {
        assert(d.subrange(0, d.len() as int) =~= d);
    }
    Some(value as u32)
}

/// A longer run of digits is worth at least as much as its prefix.
proof fn lemma_digits_value_prefix(d: Seq<char>, n: int)
    requires
        0 <= n <= d.len(),
        forall|k: int| 0 <= k < n ==> is_digit(#[trigger] d[k]),
    ensures
        digits_value(d) >= digits_value(d.subrange(0, n)) || exists|k: int|
            n <= k < d.len() && !is_digit(#[trigger] d[k]),
    decreases d.len() - n,
{
    if n < d.len() && is_digit(d[n]) {
        lemma_digits_value_prefix(d, n + 1);
        assert(d.subrange(0, n + 1).drop_last() =~= d.subrange(0, n));
        lemma_digits_value_nonneg(d.subrange(0, n));
    } else if n == d.len() {
        assert(d.subrange(0, n) =~= d);
    }
}

proof fn lemma_digits_value_nonneg(d: Seq<char>)
    requires
        forall|k: int| 0 <= k < d.len() ==> is_digit(#[trigger] d[k]),
    ensures
        digits_value(d) >= 0,
    decreases d.len(),
{
    if d.len() > 0 {
        lemma_digits_value_nonneg(d.drop_last());
    }
}

/// The decimal digits of `n`, without leading zeros.
pub open spec fn decimal_of(n: nat) -> Seq<char>
    decreases n,
{
    if n < 10 {
        seq![(('0' as nat) + n) as char]
    } else {
        decimal_of(n / 10).push((('0' as nat) + n % 10) as char)
    }
}

pub proof fn lemma_decimal_digits(n: nat)
    ensures
        decimal_of(n).len() > 0,
        forall|i: int| 0 <= i < decimal_of(n).len() ==> is_digit(#[trigger] decimal_of(n)[i]),
        digits_value(decimal_of(n)) == n,
        decimal_of(n)[0] != '+',
    decreases n,
{
    let c = (('0' as nat) + n % 10) as char;
    assert(c as int == '0' as int + n % 10);
    if n < 10 {
        let d = decimal_of(n);
        assert(d.drop_last() =~= Seq::<char>::empty());
        assert(d.last() == c);
        assert(digits_value(d) == digits_value(d.drop_last()) * 10 + (d.last() as int - '0' as int));
        assert(digits_value(d.drop_last()) == 0);
    } else {
        lemma_decimal_digits(n / 10);
        let d = decimal_of(n);
        assert(d.drop_last() =~= decimal_of(n / 10));
        assert(d.last() == c);
        assert((n / 10) * 10 + n % 10 == n);
        assert(digits_value(d) == digits_value(d.drop_last()) * 10 + (d.last() as int - '0' as int));
        assert forall|i: int| 0 <= i < d.len() implies is_digit(#[trigger] d[i]) by {
            if i < d.len() - 1 {
                assert(d[i] == decimal_of(n / 10)[i]);
            }
        }
        assert(d[0] == decimal_of(n / 10)[0]);
    }
}

/// Reading back the decimal digits of a `u32` gives that number.
pub proof fn lemma_decimal_round_trip(n: u32)
    ensures
        u32_of(decimal_of(n as nat)) == Some(n),
{
    lemma_decimal_digits(n as nat);
    assert(unsigned_digits(decimal_of(n as nat)) == decimal_of(n as nat));
}

/// Appends the decimal digits of `n` to `out`.
pub fn push_decimal(out: &mut Vec<char>, n: u64)
    ensures
        final(out)@ == old(out)@ + decimal_of(n as nat),
    decreases n,
{
    if n >= 10 {
        push_decimal(out, n / 10);
    }
    let d = (n % 10) as u32;
    let c = char_of_digit(d);
    out.push(c);
    proof {
        assert(old(out)@ + decimal_of(n as nat) =~= if n < 10 {
            old(out)@.push(c)
        } else {
            (old(out)@ + decimal_of((n / 10) as nat)).push(c)
        });
    }
}

/// The character of decimal digit `d`.
fn char_of_digit(d: u32) -> (c: char)
    requires
        d < 10,
    ensures
        c == (('0' as nat) + d) as char,
{
    if d == 0 {
        '0'
    } else if d == 1 {
        '1'
    } else if d == 2 {
        '2'
    } else if d == 3 {
        '3'
    } else if d == 4 {
        '4'
    } else if d == 5 {
        '5'
    } else if d == 6 {
        '6'
    } else if d == 7 {
        '7'
    } else if d == 8 {
        '8'
    } else {
        '9'
    }
}

} // verus!

use crate::text::{first_index, lacks, lemma_first_index, lemma_first_index_none, lemma_first_index_unique, find_char};
use vstd::prelude::*;

verus! {

pub open spec fn is_digit(c: char) -> bool {
    '0' <= c && c <= '9'
}

pub open spec fn digit_value(c: char) -> int {
    (c as u32) as int - 48
}

pub open spec fn digit_char(d: int) -> char {
    ((d + 48) as u8) as char
}

pub open spec fn all_digits(s: Seq<char>) -> bool {
    forall|i: int| 0 <= i < s.len() ==> is_digit(#[trigger] s[i])
}

/// The number written by a run of decimal digits.
pub open spec fn digits_value(s: Seq<char>) -> int
    decreases s.len(),
{
    if s.len() == 0 {
        0
    } else {
        digits_value(s.drop_last()) * 10 + digit_value(s.last())
    }
}

/// The integer written as digits with an optional leading sign.
pub open spec fn signed_value(s: Seq<char>) -> Option<int> {
    if s.len() >= 1 && (s[0] == '-' || s[0] == '+') {
        let d = s.skip(1);
        if d.len() >= 1 && all_digits(d) {
            if s[0] == '-' {
                Some(-digits_value(d))
            } else {
                Some(digits_value(d))
            }
        } else {
            None
        }
    } else if s.len() >= 1 && all_digits(s) {
        Some(digits_value(s))
    } else {
        None
    }
}

/// What reading an `i32` from `s` gives, as `str::parse` does.
pub open spec fn i32_of(s: Seq<char>) -> Option<i32> {
    match signed_value(s) {
        Some(v) => if i32::MIN <= v <= i32::MAX {
            Some(v as i32)
        } else {
            None
        },
        None => None,
    }
}

/// What reading a `usize` from `s` gives, as `str::parse` does: a minus
/// sign is refused.
pub open spec fn usize_of(s: Seq<char>) -> Option<usize> {
    if s.len() >= 1 && s[0] == '-' {
        None
    } else {
        match signed_value(s) {
            Some(v) => if 0 <= v <= usize::MAX {
                Some(v as usize)
            } else {
                None
            },
            None => None,
        }
    }
}

/// The decimal digits of `n`, without leading zeros.
pub open spec fn nat_text(n: nat) -> Seq<char>
    decreases n,
{
    if n < 10 {
        seq![digit_char(n as int)]
    } else {
        nat_text(n / 10).push(digit_char(n as int % 10))
    }
}

/// The decimal text of `v`, with a minus sign when negative.
pub open spec fn int_text(v: int) -> Seq<char> {
    if v < 0 {
        seq!['-'] + nat_text((-v) as nat)
    } else {
        nat_text(v as nat)
    }
}

pub proof fn lemma_digits_prefix(s: Seq<char>, i: int)
    requires
        all_digits(s),
        0 <= i <= s.len(),
    ensures
        0 <= digits_value(s.take(i)) <= digits_value(s),
    decreases s.len(),
{
    if i == s.len() {
        assert(s.take(i) =~= s);
        lemma_digits_nonneg(s);
    } else {
        let p = s.drop_last();
        assert(p.take(i) =~= s.take(i));
        assert(is_digit(s[s.len() - 1]));
        lemma_digits_prefix(p, i);
    }
}

pub proof fn lemma_digits_nonneg(s: Seq<char>)
    requires
        all_digits(s),
    ensures
        digits_value(s) >= 0,
    decreases s.len(),
{
    if s.len() > 0 {
        assert(is_digit(s[s.len() - 1]));
        lemma_digits_nonneg(s.drop_last());
    }
}

pub proof fn lemma_nat_text(n: nat)
    ensures
        nat_text(n).len() >= 1,
        all_digits(nat_text(n)),
        digits_value(nat_text(n)) == n,
    decreases n,
{
    let t = nat_text(n);
    if n >= 10 {
        lemma_nat_text(n / 10);
        assert(t.drop_last() =~= nat_text(n / 10));
        assert(0 <= n % 10 <= 9);
        assert(digit_value(t.last()) == n % 10);
        assert(digits_value(t) == digits_value(t.drop_last()) * 10 + digit_value(t.last()));
        assert(digits_value(t) == (n / 10) * 10 + n % 10);
        assert((n / 10) * 10 + n % 10 == n) by (nonlinear_arith);
    } else {
        assert(t.drop_last() =~= Seq::<char>::empty());
        assert(digits_value(t) == digits_value(t.drop_last()) * 10 + digit_value(t.last()));
        assert(digit_value(t.last()) == n);
    }
}

pub proof fn lemma_int_text_i32(v: i32)
    ensures
        i32_of(int_text(v as int)) == Some(v),
        lacks(int_text(v as int), ','),
        lacks(int_text(v as int), '\n'),
        lacks(int_text(v as int), '/'),
        lacks(int_text(v as int), '='),
        lacks(int_text(v as int), '('),
        lacks(int_text(v as int), ')'),
{
    if v < 0 {
        let m = (-v) as nat;
        lemma_nat_text(m);
        assert(int_text(v as int).skip(1) =~= nat_text(m));
    } else {
        lemma_nat_text(v as nat);
    }
    assert forall|i: int| 0 <= i < int_text(v as int).len() implies {
        let c = #[trigger] int_text(v as int)[i];
        c == '-' || is_digit(c)
    } by {
        if v < 0 && i > 0 {
            assert(int_text(v as int)[i] == nat_text((-v) as nat)[i - 1]);
        }
    }
}

pub proof fn lemma_nat_text_usize(n: usize)
    ensures
        usize_of(nat_text(n as nat)) == Some(n),
        lacks(nat_text(n as nat), ','),
        lacks(nat_text(n as nat), '\n'),
        lacks(nat_text(n as nat), '/'),
        lacks(nat_text(n as nat), '='),
        lacks(nat_text(n as nat), ')'),
        lacks(nat_text(n as nat), '('),
{
    lemma_nat_text(n as nat);
    assert(is_digit(nat_text(n as nat)[0]));
}

/// The digits of `s` read as a number no greater than `bound`; `None` when
/// `s` is empty, holds another character, or writes a greater number.
pub(crate) fn digits_at_most(s: &[char], bound: u128) -> (r: Option<u128>)
    requires
        bound <= u64::MAX,
    ensures
        match r {
            Some(v) => s@.len() >= 1 && all_digits(s@) && v == digits_value(s@) && v <= bound,
            None => !(s@.len() >= 1 && all_digits(s@)) || digits_value(s@) > bound,
        },
{
    if s.len() == 0 {
        return None;
    }
    let mut v: u128 = 0;
    let mut i: usize = 0;
    assert(s@.take(0) =~= Seq::<char>::empty());
    while i < s.len()
        invariant
            0 <= i <= s@.len(),
            bound <= u64::MAX,
            all_digits(s@.take(i as int)),
            v == digits_value(s@.take(i as int)),
            v <= bound,
        decreases s@.len() - i,
    {
        let c = s[i];
        if !('0' <= c && c <= '9') {
            assert(!is_digit(s@[i as int]));
            return None;
        }
        let d = (c as u32 - 48) as u128;
        assert(s@.take(i as int + 1).drop_last() =~= s@.take(i as int));
        assert(all_digits(s@.take(i as int + 1)));
        let next = v * 10 + d;
        if next > bound {
            proof {
                if all_digits(s@) {
                    lemma_digits_prefix(s@, i as int + 1);
                }
            }
            return None;
        }
        v = next;
        i += 1;
    }
    assert(s@.take(s@.len() as int) =~= s@);
    Some(v)
}

/// Reads an `i32` written in decimal with an optional sign.
pub fn parse_i32(s: &[char]) -> (r: Option<i32>)
    ensures
        r == i32_of(s@),
{
    if s.len() >= 1 && (s[0] == '-' || s[0] == '+') {
        let neg = s[0] == '-';
        let d = &s[1..s.len()];
        assert(d@ =~= s@.skip(1));
        let bound: u128 = if neg { 2147483648 } else { 2147483647 };
        match digits_at_most(d, bound) {
            Some(v) => {
                if neg {
                    Some((0 - (v as i64)) as i32)
                } else {
                    Some(v as i32)
                }
            },
            None => None,
        }
    } else {
        match digits_at_most(s, 2147483647) {
            Some(v) => Some(v as i32),
            None => None,
        }
    }
}

/// Reads a `usize` written in decimal with an optional plus sign.
pub fn parse_usize(s: &[char]) -> (r: Option<usize>)
    ensures
        r == usize_of(s@),
{
    if s.len() >= 1 && s[0] == '-' {
        return None;
    }
    if s.len() >= 1 && s[0] == '+' {
        let d = &s[1..s.len()];
        assert(d@ =~= s@.skip(1));
        match digits_at_most(d, usize::MAX as u128) {
            Some(v) => Some(v as usize),
            None => None,
        }
    } else {
        match digits_at_most(s, usize::MAX as u128) {
            Some(v) => Some(v as usize),
            None => None,
        }
    }
}

/// Appends the decimal digits of `n`.
pub fn push_nat(out: &mut Vec<char>, n: u64)
    ensures
        final(out)@ == old(out)@ + nat_text(n as nat),
    decreases n,
{
    if n >= 10 {
        push_nat(out, n / 10);
    }
    out.push(((n % 10) as u8 + 48) as char);
    proof {
        if n >= 10 {
            assert(old(out)@ + nat_text(n as nat / 10) + seq![digit_char(n as int % 10)]
                =~= old(out)@ + nat_text(n as nat));
        } else {
            assert(old(out)@ + seq![digit_char(n as int % 10)] =~= old(out)@ + nat_text(n as nat));
        }
    }
}

/// Appends the decimal text of `v`.
pub fn push_i32(out: &mut Vec<char>, v: i32)
    ensures
        final(out)@ == old(out)@ + int_text(v as int),
{
    if v < 0 {
        out.push('-');
        push_nat(out, (0 - (v as i64)) as u64);
        assert(old(out)@ + seq!['-'] + nat_text((-v) as nat) =~= old(out)@ + int_text(v as int));
    } else {
        push_nat(out, v as u64);
    }
}

/// The upper-case form of an ASCII lower-case letter; other characters
/// stay as they are.
pub open spec fn upper_of(c: char) -> char {
    if 'a' <= c && c <= 'z' {
        (((c as u32) - 32) as u8) as char
    } else {
        c
    }
}

/// Whether `s` spells the lower-case word `w` with letters in either case.
pub open spec fn word_ci(s: Seq<char>, w: Seq<char>) -> bool {
    s.len() == w.len() && forall|i: int|
        0 <= i < s.len() ==> (#[trigger] s[i] == w[i] || s[i] == upper_of(w[i]))
}

/// `s` without a leading sign.
pub open spec fn unsigned_part(s: Seq<char>) -> Seq<char> {
    if s.len() >= 1 && (s[0] == '+' || s[0] == '-') {
        s.skip(1)
    } else {
        s
    }
}

/// Digits with at most one decimal point and at least one digit.
pub open spec fn mantissa_ok(m: Seq<char>) -> bool {
    let d = first_index(m, '.');
    if d < 0 {
        m.len() >= 1 && all_digits(m)
    } else {
        all_digits(m.take(d)) && all_digits(m.skip(d + 1)) && m.len() >= 2
    }
}

/// Digits with an optional sign.
pub open spec fn exponent_ok(e: Seq<char>) -> bool {
    unsigned_part(e).len() >= 1 && all_digits(unsigned_part(e))
}

/// `s` with each upper-case exponent mark written in lower case.
pub open spec fn fold_exp(s: Seq<char>) -> Seq<char> {
    s.map_values(|c: char| if c == 'E' { 'e' } else { c })
}

/// A mantissa, then optionally an exponent mark and an exponent.
pub open spec fn number_ok(b: Seq<char>) -> bool {
    let k = first_index(fold_exp(b), 'e');
    if k < 0 {
        mantissa_ok(b)
    } else {
        mantissa_ok(b.take(k)) && exponent_ok(b.skip(k + 1))
    }
}

/// Whether `s` is a floating-point literal in the grammar that `f32`'s
/// `FromStr` accepts: an optional sign, then `inf`, `infinity` or `nan` in
/// any case, or a decimal number with an optional exponent.
pub open spec fn is_float_text(s: Seq<char>) -> bool {
    let b = unsigned_part(s);
    word_ci(b, seq!['i', 'n', 'f']) || word_ci(b, seq!['i', 'n', 'f', 'i', 'n', 'i', 't', 'y'])
        || word_ci(b, seq!['n', 'a', 'n']) || number_ok(b)
}

/// Whether every character of `s` is a decimal digit.
pub fn only_digits(s: &[char]) -> (r: bool)
    ensures
        r == all_digits(s@),
{
    let mut i: usize = 0;
    while i < s.len()
        invariant
            0 <= i <= s@.len(),
            forall|j: int| 0 <= j < i ==> is_digit(#[trigger] s@[j]),
        decreases s@.len() - i,
    {
        if !('0' <= s[i] && s[i] <= '9') {
            return false;
        }
        i += 1;
    }
    true
}

fn spells_word(s: &[char], w: &[char]) -> (r: bool)
    ensures
        r == word_ci(s@, w@),
{
    if s.len() != w.len() {
        return false;
    }
    let mut i: usize = 0;
    while i < s.len()
        invariant
            s@.len() == w@.len(),
            0 <= i <= s@.len(),
            forall|j: int| 0 <= j < i ==> (#[trigger] s@[j] == w@[j] || s@[j] == upper_of(w@[j])),
        decreases s@.len() - i,
    {
        let c = w[i];
        let up = if 'a' <= c && c <= 'z' {
            ((c as u32 - 32) as u8) as char
        } else {
            c
        };
        if s[i] != c && s[i] != up {
            return false;
        }
        i += 1;
    }
    true
}

fn mantissa_valid(m: &[char]) -> (r: bool)
    ensures
        r == mantissa_ok(m@),
{
    match find_char(m, '.') {
        None => m.len() >= 1 && only_digits(m),
        Some(d) => {
            proof {
                lemma_first_index(m@, '.');
            }
            let n = m.len();
            assert(d < n);
            let a = &m[0..d];
            let b = &m[d + 1..n];
            assert(a@ =~= m@.take(d as int));
            assert(b@ =~= m@.skip(d as int + 1));
            only_digits(a) && only_digits(b) && m.len() >= 2
        },
    }
}

fn unsigned_slice(s: &[char]) -> (r: &[char])
    ensures
        r@ == unsigned_part(s@),
{
    if s.len() >= 1 && (s[0] == '+' || s[0] == '-') {
        let r = &s[1..s.len()];
        assert(r@ =~= s@.skip(1));
        r
    } else {
        s
    }
}

/// Whether `s` is a floating-point literal that `f32` can be read from.
pub fn is_float_literal(s: &[char]) -> (r: bool)
    ensures
        r == is_float_text(s@),
{
    let b = unsigned_slice(s);
    let inf = ['i', 'n', 'f'];
    let infinity = ['i', 'n', 'f', 'i', 'n', 'i', 't', 'y'];
    let nan = ['n', 'a', 'n'];
    assert(inf@ =~= seq!['i', 'n', 'f']);
    assert(infinity@ =~= seq!['i', 'n', 'f', 'i', 'n', 'i', 't', 'y']);
    assert(nan@ =~= seq!['n', 'a', 'n']);
    if spells_word(b, &inf) || spells_word(b, &infinity) || spells_word(b, &nan) {
        return true;
    }
    let mut i: usize = 0;
    while i < b.len()
        invariant
            0 <= i <= b@.len(),
            b@ == unsigned_part(s@),
            is_float_text(s@) == number_ok(b@),
            forall|j: int| 0 <= j < i ==> #[trigger] fold_exp(b@)[j] != 'e',
        decreases b@.len() - i,
    {
        if b[i] == 'e' || b[i] == 'E' {
            assert(fold_exp(b@)[i as int] == 'e');
            proof {
                lemma_first_index_unique(fold_exp(b@), 'e', i as int);
            }
            let m = &b[0..i];
            let e = &b[i + 1..b.len()];
            assert(m@ =~= b@.take(i as int));
            assert(e@ =~= b@.skip(i as int + 1));
            let u = unsigned_slice(e);
            let ok = mantissa_valid(m) && only_digits(u) && u.len() >= 1;
            assert(first_index(fold_exp(b@), 'e') == i);
            assert(ok == number_ok(b@));
            return ok;
        }
        i += 1;
    }
    proof {
        lemma_first_index_none(fold_exp(b@), 'e');
    }
    mantissa_valid(b)
}

} // verus!

//! Canonical decimal text for `u64` values: formatting, parsing, and the
//! round-trip lemmas the store's codec builds on.

use vstd::prelude::*;

verus! {

/// The character for one decimal digit.
pub open spec fn digit_char(d: int) -> char {
    if d == 0 {
        '0'
    } else if d == 1 {
        '1'
    } else if d == 2 {
        '2'
    } else if d == 3 {
        '3'
    } else if d == 4 {
        '4'
    } else if d == 5 {
        '5'
    } else if d == 6 {
        '6'
    } else if d == 7 {
        '7'
    } else if d == 8 {
        '8'
    } else {
        '9'
    }
}

/// The value of one digit character; 10 marks a non-digit.
pub open spec fn digit_val(c: char) -> int {
    if c == '0' {
        0
    } else if c == '1' {
        1
    } else if c == '2' {
        2
    } else if c == '3' {
        3
    } else if c == '4' {
        4
    } else if c == '5' {
        5
    } else if c == '6' {
        6
    } else if c == '7' {
        7
    } else if c == '8' {
        8
    } else if c == '9' {
        9
    } else {
        10
    }
}

pub open spec fn is_digit(c: char) -> bool {
    digit_val(c) < 10
}

/// The canonical decimal rendering of a natural number: no sign, no leading
/// zeros (except for `0` itself).
pub open spec fn dec(n: nat) -> Seq<char>
    decreases n,
{
    if n < 10 {
        seq![digit_char(n as int)]
    } else {
        dec(n / 10) + seq![digit_char((n % 10) as int)]
    }
}

/// The value of a digit sequence, most significant digit first.
pub open spec fn val(ds: Seq<char>) -> int
    decreases ds.len(),
{
    if ds.len() == 0 {
        0
    } else {
        val(ds.drop_last()) * 10 + digit_val(ds.last())
    }
}

pub open spec fn all_digits(ds: Seq<char>) -> bool {
    forall|i: int| 0 <= i < ds.len() ==> is_digit(#[trigger] ds[i])
}

/// A digit sequence is canonical when it is nonempty and has no leading zero.
pub open spec fn canonical_digits(ds: Seq<char>) -> bool {
    &&& all_digits(ds)
    &&& ds.len() >= 1
    &&& (ds.len() >= 2 ==> ds[0] != '0')
}

pub proof fn lemma_dec_shape(n: nat)
    ensures
        dec(n).len() >= 1,
        all_digits(dec(n)),
        n >= 1 ==> dec(n)[0] != '0',
        canonical_digits(dec(n)),
    decreases n,
{
    if n < 10 {
        assert(dec(n) == seq![digit_char(n as int)]);
    } else {
        lemma_dec_shape(n / 10);
        assert(dec(n) == dec(n / 10) + seq![digit_char((n % 10) as int)]);
        assert(dec(n)[0] == dec(n / 10)[0]);
        assert(forall|i: int|
            0 <= i < dec(n).len() ==> is_digit(#[trigger] dec(n)[i])) by {
            assert(forall|i: int| 0 <= i < dec(n / 10).len() ==> dec(n)[i] == dec(n / 10)[i]);
        }
    }
}

pub proof fn lemma_val_dec(n: nat)
    ensures
        val(dec(n)) == n,
    decreases n,
{
    if n < 10 {
        let s = dec(n);
        assert(s == seq![digit_char(n as int)]);
        assert(s.drop_last() =~= Seq::<char>::empty());
        assert(val(s) == val(s.drop_last()) * 10 + digit_val(s.last()));
        assert(digit_val(digit_char(n as int)) == n);
    } else {
        lemma_val_dec(n / 10);
        let whole = dec(n / 10) + seq![digit_char((n % 10) as int)];
        assert(whole.drop_last() =~= dec(n / 10));
        assert(whole.last() == digit_char((n % 10) as int));
    }
}

pub proof fn lemma_val_nonneg(ds: Seq<char>)
    ensures
        val(ds) >= 0,
    decreases ds.len(),
{
    if ds.len() > 0 {
        lemma_val_nonneg(ds.drop_last());
        assert(digit_val(ds.last()) >= 0);
    }
}

pub proof fn lemma_val_pos(ds: Seq<char>)
    requires
        ds.len() >= 1,
        ds[0] != '0',
        all_digits(ds),
    ensures
        val(ds) >= 1,
    decreases ds.len(),
{
    if ds.len() == 1 {
        assert(ds.drop_last() =~= Seq::<char>::empty());
        assert(val(ds) == val(ds.drop_last()) * 10 + digit_val(ds.last()));
        assert(digit_val(ds[0]) >= 1);
    } else {
        assert(ds.drop_last()[0] == ds[0]);
        assert(all_digits(ds.drop_last())) by {
            assert(forall|i: int|
                0 <= i < ds.drop_last().len() ==> ds.drop_last()[i] == ds[i]);
        }
        lemma_val_pos(ds.drop_last());
        assert(digit_val(ds.last()) >= 0);
    }
}

/// Canonical digit text is recovered exactly from its value.
pub proof fn lemma_dec_val(ds: Seq<char>)
    requires
        canonical_digits(ds),
    ensures
        val(ds) >= 0,
        dec(val(ds) as nat) == ds,
    decreases ds.len(),
{
    lemma_val_nonneg(ds);
    if ds.len() == 1 {
        assert(ds.drop_last() =~= Seq::<char>::empty());
        assert(val(ds) == val(ds.drop_last()) * 10 + digit_val(ds.last()));
        assert(val(ds) == digit_val(ds[0]));
        assert(dec(val(ds) as nat) =~= ds);
    } else {
        let front = ds.drop_last();
        assert(front[0] == ds[0]);
        assert(all_digits(front)) by {
            assert(forall|i: int| 0 <= i < front.len() ==> front[i] == ds[i]);
        }
        lemma_dec_val(front);
        lemma_val_pos(front);
        let v = val(ds);
        assert(v == val(front) * 10 + digit_val(ds.last()));
        assert(v >= 10);
        assert(v / 10 == val(front) && v % 10 == digit_val(ds.last())) by (nonlinear_arith)
            requires
                v == val(front) * 10 + digit_val(ds.last()),
                0 <= digit_val(ds.last()) < 10,
                val(front) >= 1,
        {}
        assert(dec(v as nat) == dec((v / 10) as nat) + seq![digit_char((v % 10) as int)]);
        assert(digit_char(digit_val(ds.last())) == ds.last());
        assert(dec(v as nat) =~= ds);
    }
}

/// Splits a sequence into its maximal digit prefix and the remainder.
pub open spec fn split_digits(s: Seq<char>) -> (Seq<char>, Seq<char>)
    decreases s.len(),
{
    if s.len() == 0 || !is_digit(s[0]) {
        (Seq::<char>::empty(), s)
    } else {
        let (d, r) = split_digits(s.skip(1));
        (seq![s[0]] + d, r)
    }
}

pub proof fn lemma_split_digits_props(s: Seq<char>)
    ensures
        all_digits(split_digits(s).0),
        s == split_digits(s).0 + split_digits(s).1,
        split_digits(s).1.len() > 0 ==> !is_digit(split_digits(s).1[0]),
        split_digits(s).0.len() <= s.len(),
    decreases s.len(),
{
    if s.len() == 0 || !is_digit(s[0]) {
        assert(s =~= split_digits(s).0 + split_digits(s).1);
    } else {
        lemma_split_digits_props(s.skip(1));
        let (d, r) = split_digits(s.skip(1));
        assert(split_digits(s).0 == seq![s[0]] + d);
        assert(s.skip(1) == d + r);
        assert(s =~= seq![s[0]] + (d + r));
        assert(s =~= (seq![s[0]] + d) + r);
        assert(forall|i: int|
            0 <= i < (seq![s[0]] + d).len() ==> is_digit(#[trigger] (seq![s[0]] + d)[i]));
    }
}

/// The maximal digit prefix of `ds + rest` is exactly `ds` when `rest` does
/// not begin with a digit.
pub proof fn lemma_split_digits_concat(ds: Seq<char>, rest: Seq<char>)
    requires
        all_digits(ds),
        rest.len() == 0 || !is_digit(rest[0]),
    ensures
        split_digits(ds + rest) == (ds, rest),
    decreases ds.len(),
{
    let s = ds + rest;
    if ds.len() == 0 {
        assert(s =~= rest);
    } else {
        assert(s[0] == ds[0]);
        assert(is_digit(s[0]));
        assert(s.skip(1) =~= ds.skip(1) + rest);
        assert(all_digits(ds.skip(1))) by {
            assert(forall|i: int| 0 <= i < ds.skip(1).len() ==> ds.skip(1)[i] == ds[i + 1]);
        }
        lemma_split_digits_concat(ds.skip(1), rest);
        assert(split_digits(s).0 =~= ds);
    }
}

/// Parses the canonical decimal rendering of a `u64` at the head of `s`;
/// yields the value and the remainder, or nothing if the head is not
/// canonical decimal text in range.
pub open spec fn parse_u64_at(s: Seq<char>) -> Option<(u64, Seq<char>)> {
    let (ds, r) = split_digits(s);
    if ds.len() == 0 {
        None
    } else if ds.len() >= 2 && ds[0] == '0' {
        None
    } else if val(ds) > u64::MAX {
        None
    } else {
        Some((val(ds) as u64, r))
    }
}

pub proof fn lemma_parse_u64_complete(n: u64, rest: Seq<char>)
    requires
        rest.len() == 0 || !is_digit(rest[0]),
    ensures
        parse_u64_at(dec(n as nat) + rest) == Some((n, rest)),
{
    lemma_dec_shape(n as nat);
    lemma_split_digits_concat(dec(n as nat), rest);
    lemma_val_dec(n as nat);
}

pub proof fn lemma_parse_u64_sound(s: Seq<char>, v: u64, r: Seq<char>)
    requires
        parse_u64_at(s) == Some((v, r)),
    ensures
        s == dec(v as nat) + r,
        r.len() == 0 || !is_digit(r[0]),
{
    lemma_split_digits_props(s);
    let (ds, rr) = split_digits(s);
    lemma_dec_val(ds);
    assert(s =~= dec(v as nat) + r);
}

/// Values only grow as more digits are appended, so once a prefix is out of
/// range the whole sequence is.
pub proof fn lemma_val_take_le(ds: Seq<char>, i: int, j: int)
    requires
        0 <= i <= j <= ds.len(),
        all_digits(ds),
    ensures
        val(ds.take(i)) <= val(ds.take(j)),
    decreases j - i,
{
    if i < j {
        lemma_val_take_le(ds, i, j - 1);
        let t = ds.take(j);
        assert(t.drop_last() =~= ds.take(j - 1));
        assert(val(t) == val(ds.take(j - 1)) * 10 + digit_val(ds[j - 1]));
        lemma_val_nonneg(ds.take(j - 1));
        assert(digit_val(ds[j - 1]) >= 0);
    }
}

/// The exec digit of a value below ten.
pub fn digit_char_of(d: u64) -> (r: char)
    requires
        d < 10,
    ensures
        r == digit_char(d as int),
{
    if d == 0 {
        '0'
    } else if d == 1 {
        '1'
    } else if d == 2 {
        '2'
    } else if d == 3 {
        '3'
    } else if d == 4 {
        '4'
    } else if d == 5 {
        '5'
    } else if d == 6 {
        '6'
    } else if d == 7 {
        '7'
    } else if d == 8 {
        '8'
    } else {
        '9'
    }
}

/// The exec value of a digit character; 10 for a non-digit.
pub fn digit_val_of(c: char) -> (r: u64)
    ensures
        r == digit_val(c),
{
    if c == '0' {
        0
    } else if c == '1' {
        1
    } else if c == '2' {
        2
    } else if c == '3' {
        3
    } else if c == '4' {
        4
    } else if c == '5' {
        5
    } else if c == '6' {
        6
    } else if c == '7' {
        7
    } else if c == '8' {
        8
    } else if c == '9' {
        9
    } else {
        10
    }
}

/// Renders `n` as canonical decimal characters.
pub fn u64_chars(n: u64) -> (r: Vec<char>)
    ensures
        r@ == dec(n as nat),
{
    let mut out: Vec<char> = Vec::new();
    let mut cur: u64 = n;
    proof {
        assert(dec(n as nat) =~= dec(cur as nat) + out@);
    }
    while cur >= 10
        invariant
            dec(n as nat) == dec(cur as nat) + out@,
        decreases cur,
    {
        let d = digit_char_of(cur % 10);
        proof {
            assert(dec(cur as nat) == dec((cur / 10) as nat) + seq![digit_char((cur % 10) as int)]);
            assert(dec((cur / 10) as nat) + out@.insert(0, d) =~= dec(cur as nat) + out@);
        }
        out.insert(0, d);
        cur = cur / 10;
    }
    let d = digit_char_of(cur);
    proof {
        assert(dec(cur as nat) == seq![digit_char(cur as int)]);
        assert(out@.insert(0, d) =~= dec(cur as nat) + out@);
    }
    out.insert(0, d);
    out
}

} // verus!

//! Verified text codecs for the record store's blobs.
//!
//! A game room's player list is persisted as a comma-separated list of decimal
//! identifiers; the only promise the store format makes is that it round-trips
//! exactly, which [`lemma_dec_ids_enc_ids`] proves.

use vstd::prelude::*;

verus! {

use vstd::string::StrSliceExecFns;
use vstd::string::StringExecFns;

/// Decimal digit characters.
pub open spec fn is_digit(c: char) -> bool {
    '0' <= c && c <= '9'
}

/// Numeric value of a digit character.
pub open spec fn digit_val(c: char) -> int {
    c as int - '0' as int
}

/// Digit character for a value in `0..10`.
pub open spec fn digit_char(d: int) -> char {
    if d == 0 {
        '0'
    } else if d == 1 {
        '1'
    } else if d == 2 {
        '2'
    } else if d == 3 {
        '3'
    } else if d == 4 {
        '4'
    } else if d == 5 {
        '5'
    } else if d == 6 {
        '6'
    } else if d == 7 {
        '7'
    } else if d == 8 {
        '8'
    } else {
        '9'
    }
}

pub open spec fn all_digits(s: Seq<char>) -> bool {
    forall|i: int| 0 <= i < s.len() ==> is_digit(#[trigger] s[i])
}

/// Value of a digit string, most significant digit first.
pub open spec fn val_of_digits(s: Seq<char>) -> int
    decreases s.len(),
{
    if s.len() == 0 {
        0
    } else {
        val_of_digits(s.drop_last()) * 10 + digit_val(s.last())
    }
}

/// Decimal digit string of a natural number, without leading zeros
/// (except for the number zero itself).
pub open spec fn digits_of(n: nat) -> Seq<char>
    decreases n,
{
    if n < 10 {
        seq![digit_char(n as int)]
    } else {
        digits_of(n / 10).push(digit_char((n % 10) as int))
    }
}

/// Decimal encoding of a (possibly negative) integer.
pub open spec fn enc_i32(v: int) -> Seq<char> {
    if v < 0 {
        seq!['-'] + digits_of((-v) as nat)
    } else {
        digits_of(v as nat)
    }
}

/// Decimal decoding of a single integer; mirrors [`parse_i32_range`].
pub open spec fn dec_i32(s: Seq<char>) -> Option<i32> {
    if s.len() >= 1 && s[0] == '-' {
        let d = s.skip(1);
        if d.len() >= 1 && all_digits(d) && val_of_digits(d) <= 0x8000_0000 {
            Some((-val_of_digits(d)) as i32)
        } else {
            None
        }
    } else {
        if s.len() >= 1 && all_digits(s) && val_of_digits(s) <= i32::MAX {
            Some(val_of_digits(s) as i32)
        } else {
            None
        }
    }
}

/// Index of the first separator comma, or the length if there is none.
pub open spec fn find_sep(s: Seq<char>) -> int
    decreases s.len(),
{
    if s.len() == 0 {
        0
    } else if s[0] == ',' {
        0
    } else {
        1 + find_sep(s.skip(1))
    }
}

/// Comma-separated encoding of a list of integers.
pub open spec fn enc_ids(ids: Seq<i32>) -> Seq<char>
    decreases ids.len(),
{
    if ids.len() == 0 {
        Seq::empty()
    } else if ids.len() == 1 {
        enc_i32(ids[0] as int)
    } else {
        enc_i32(ids[0] as int) + seq![','] + enc_ids(ids.skip(1))
    }
}

/// Comma-separated decoding of a list of integers; mirrors [`decode_ids`].
pub open spec fn dec_ids(s: Seq<char>) -> Option<Seq<i32>>
    decreases s.len(),
    via dec_ids_decreases
{
    if s.len() == 0 {
        Some(Seq::empty())
    } else {
        let k = find_sep(s);
        if k == s.len() {
            match dec_i32(s) {
                Some(v) => Some(seq![v]),
                None => None,
            }
        } else {
            match dec_i32(s.take(k)) {
                Some(v) => match dec_ids(s.skip(k + 1)) {
                    Some(rest) => Some(seq![v] + rest),
                    None => None,
                },
                None => None,
            }
        }
    }
}

#[via_fn]
proof fn dec_ids_decreases(s: Seq<char>) {
    lemma_find_sep_bounds(s);
}

proof fn lemma_find_sep_bounds(s: Seq<char>)
    ensures
        0 <= find_sep(s) <= s.len(),
    decreases s.len(),
{
    if s.len() != 0 && s[0] != ',' {
        lemma_find_sep_bounds(s.skip(1));
    }
}

/// A string without commas has no separator.
proof fn lemma_find_sep_none(s: Seq<char>)
    requires
        forall|i: int| 0 <= i < s.len() ==> s[i] != ',',
    ensures
        find_sep(s) == s.len(),
    decreases s.len(),
{
    if s.len() != 0 {
        assert(s[0] != ',');
        assert(forall|i: int| 0 <= i < s.skip(1).len() ==> s.skip(1)[i] == s[i + 1]);
        lemma_find_sep_none(s.skip(1));
    }
}

/// The first separator of `a + "," + b` is at the end of comma-free `a`.
proof fn lemma_find_sep_concat(a: Seq<char>, b: Seq<char>)
    requires
        forall|i: int| 0 <= i < a.len() ==> a[i] != ',',
    ensures
        find_sep(a + seq![','] + b) == a.len(),
    decreases a.len(),
{
    let s = a + seq![','] + b;
    if a.len() == 0 {
        assert(s[0] == ',');
    } else {
        assert(s[0] == a[0]);
        assert(s.skip(1) =~= a.skip(1) + seq![','] + b);
        lemma_find_sep_concat(a.skip(1), b);
    }
}

proof fn lemma_val_of_digits_nonneg(s: Seq<char>)
    requires
        all_digits(s),
    ensures
        val_of_digits(s) >= 0,
    decreases s.len(),
{
    if s.len() != 0 {
        assert(all_digits(s.drop_last()));
        lemma_val_of_digits_nonneg(s.drop_last());
    }
}

/// Extending a digit string can only increase its value.
proof fn lemma_val_of_digits_prefix(s: Seq<char>, i: int)
    requires
        all_digits(s),
        0 <= i <= s.len(),
    ensures
        val_of_digits(s.take(i)) <= val_of_digits(s),
    decreases s.len() - i,
{
    if i < s.len() {
        let t = s.take(i + 1);
        assert(t.drop_last() =~= s.take(i));
        assert(all_digits(s.take(i)));
        lemma_val_of_digits_nonneg(s.take(i));
        assert(val_of_digits(t) == val_of_digits(s.take(i)) * 10 + digit_val(s[i]));
        assert(val_of_digits(s.take(i)) * 10 >= val_of_digits(s.take(i))) by (nonlinear_arith)
            requires val_of_digits(s.take(i)) >= 0;
        lemma_val_of_digits_prefix(s, i + 1);
        assert(s.take(s.len() as int) =~= s);
    } else {
        assert(s.take(i) =~= s);
    }
}

proof fn lemma_digits_of_digits(n: nat)
    ensures
        all_digits(digits_of(n)),
        digits_of(n).len() >= 1,
        digits_of(n)[0] != '-',
        digits_of(n)[0] != ',',
        forall|i: int| 0 <= i < digits_of(n).len() ==> digits_of(n)[i] != ',',
    decreases n,
{
    if n >= 10 {
        lemma_digits_of_digits(n / 10);
    }
}

proof fn lemma_digit_char_val(d: int)
    requires
        0 <= d < 10,
    ensures
        digit_val(digit_char(d)) == d,
{
    assert('0' as int == 48);
    assert('1' as int == 49);
    assert('2' as int == 50);
    assert('3' as int == 51);
    assert('4' as int == 52);
    assert('5' as int == 53);
    assert('6' as int == 54);
    assert('7' as int == 55);
    assert('8' as int == 56);
    assert('9' as int == 57);
}

/// Printing then reading a natural number gives the number back.
proof fn lemma_val_of_digits_of(n: nat)
    ensures
        val_of_digits(digits_of(n)) == n,
    decreases n,
{
    if n < 10 {
        lemma_digit_char_val(n as int);
        assert(digits_of(n) =~= seq![digit_char(n as int)]);
        assert(digits_of(n).last() == digit_char(n as int));
        assert(digits_of(n).drop_last() =~= Seq::<char>::empty());
        assert(val_of_digits(Seq::<char>::empty()) == 0);
        assert(val_of_digits(digits_of(n)) == 0 * 10 + digit_val(digit_char(n as int)));
    } else {
        lemma_val_of_digits_of(n / 10);
        lemma_digit_char_val((n % 10) as int);
        assert(digits_of(n) == digits_of(n / 10).push(digit_char((n % 10) as int)));
        assert(digits_of(n).last() == digit_char((n % 10) as int));
        assert(digits_of(n).drop_last() =~= digits_of(n / 10));
        assert(val_of_digits(digits_of(n)) == (n / 10) * 10 + (n % 10));
        vstd::arithmetic::div_mod::lemma_fundamental_div_mod(n as int, 10);
    }
}

/// Round trip for a single integer: decoding its encoding gives it back.
pub proof fn lemma_dec_i32_enc_i32(v: i32)
    ensures
        dec_i32(enc_i32(v as int)) == Some(v),
{
    if v < 0 {
        let m = (-(v as int)) as nat;
        lemma_digits_of_digits(m);
        lemma_val_of_digits_of(m);
        let s = enc_i32(v as int);
        assert(s[0] == '-');
        assert(s.skip(1) =~= digits_of(m));
        assert(m <= 0x8000_0000);
    } else {
        let m = v as nat;
        lemma_digits_of_digits(m);
        lemma_val_of_digits_of(m);
        let s = enc_i32(v as int);
        assert(is_digit(s[0]));
        assert(s[0] != '-');
    }
}

proof fn lemma_enc_i32_no_comma(v: i32)
    ensures
        forall|i: int| 0 <= i < enc_i32(v as int).len() ==> enc_i32(v as int)[i] != ',',
{
    if v < 0 {
        lemma_digits_of_digits((-(v as int)) as nat);
        let s = enc_i32(v as int);
        assert forall|i: int| 0 <= i < s.len() implies s[i] != ',' by {
            if i > 0 {
                assert(s[i] == digits_of((-(v as int)) as nat)[i - 1]);
            }
        }
    } else {
        lemma_digits_of_digits(v as nat);
    }
}

/// Round trip for a list: decoding an encoded list gives the list back.
pub proof fn lemma_dec_ids_enc_ids(ids: Seq<i32>)
    ensures
        dec_ids(enc_ids(ids)) == Some(ids),
    decreases ids.len(),
{
    if ids.len() == 0 {
        assert(dec_ids(enc_ids(ids)) == Some(Seq::<i32>::empty()));
        assert(ids =~= Seq::<i32>::empty());
    } else if ids.len() == 1 {
        let s = enc_ids(ids);
        lemma_enc_i32_no_comma(ids[0]);
        lemma_find_sep_none(s);
        lemma_dec_i32_enc_i32(ids[0]);
        lemma_digits_of_digits(if ids[0] < 0 { (-(ids[0] as int)) as nat } else { ids[0] as nat });
        assert(s.len() >= 1);
        assert(seq![ids[0]] =~= ids);
    } else {
        let head = enc_i32(ids[0] as int);
        let rest = enc_ids(ids.skip(1));
        let s = enc_ids(ids);
        lemma_enc_i32_no_comma(ids[0]);
        lemma_find_sep_concat(head, rest);
        assert(find_sep(s) == head.len());
        lemma_digits_of_digits(if ids[0] < 0 { (-(ids[0] as int)) as nat } else { ids[0] as nat });
        assert(head.len() >= 1);
        assert(rest.len() >= 0);
        assert(find_sep(s) < s.len());
        assert(s.take(head.len() as int) =~= head);
        assert(s.skip(head.len() as int + 1) =~= rest);
        lemma_dec_i32_enc_i32(ids[0]);
        lemma_dec_ids_enc_ids(ids.skip(1));
        assert(seq![ids[0]] + ids.skip(1) =~= ids);
    }
}

/// Appends a character of the codec alphabet to a string.
pub(crate) fn push_char(s: &mut String, c: char)
    requires
        is_digit(c) || c == '-' || c == ',' || c == '.',
    ensures
        final(s)@ == old(s)@.push(c),
{
    match c {
        '0' => {
            proof { reveal_strlit("0"); }
            s.append("0");
            assert(s@ =~= old(s)@.push(c));
        },
        '1' => {
            proof { reveal_strlit("1"); }
            s.append("1");
            assert(s@ =~= old(s)@.push(c));
        },
        '2' => {
            proof { reveal_strlit("2"); }
            s.append("2");
            assert(s@ =~= old(s)@.push(c));
        },
        '3' => {
            proof { reveal_strlit("3"); }
            s.append("3");
            assert(s@ =~= old(s)@.push(c));
        },
        '4' => {
            proof { reveal_strlit("4"); }
            s.append("4");
            assert(s@ =~= old(s)@.push(c));
        },
        '5' => {
            proof { reveal_strlit("5"); }
            s.append("5");
            assert(s@ =~= old(s)@.push(c));
        },
        '6' => {
            proof { reveal_strlit("6"); }
            s.append("6");
            assert(s@ =~= old(s)@.push(c));
        },
        '7' => {
            proof { reveal_strlit("7"); }
            s.append("7");
            assert(s@ =~= old(s)@.push(c));
        },
        '8' => {
            proof { reveal_strlit("8"); }
            s.append("8");
            assert(s@ =~= old(s)@.push(c));
        },
        '9' => {
            proof { reveal_strlit("9"); }
            s.append("9");
            assert(s@ =~= old(s)@.push(c));
        },
        '-' => {
            proof { reveal_strlit("-"); }
            s.append("-");
            assert(s@ =~= old(s)@.push(c));
        },
        ',' => {
            proof { reveal_strlit(","); }
            s.append(",");
            assert(s@ =~= old(s)@.push(c));
        },
        _ => {
            proof { reveal_strlit("."); }
            s.append(".");
            assert(c == '.');
            assert(s@ =~= old(s)@.push(c));
        },
    }
}

fn digit_to_char(d: u32) -> (c: char)
    requires
        d < 10,
    ensures
        c == digit_char(d as int),
        is_digit(c),
{
    if d == 0 {
        '0'
    } else if d == 1 {
        '1'
    } else if d == 2 {
        '2'
    } else if d == 3 {
        '3'
    } else if d == 4 {
        '4'
    } else if d == 5 {
        '5'
    } else if d == 6 {
        '6'
    } else if d == 7 {
        '7'
    } else if d == 8 {
        '8'
    } else {
        '9'
    }
}

/// Appends the decimal digits of `n`, most significant first.
fn push_digits(n: u32, out: &mut String)
    ensures
        final(out)@ == old(out)@ + digits_of(n as nat),
    decreases n,
{
    if n >= 10 {
        assert(n / 10 < n);
        push_digits(n / 10, out);
    }
    let d = digit_to_char(n % 10);
    push_char(out, d);
    proof {
        assert(out@ =~= old(out)@ + digits_of(n as nat));
    }
}

/// Appends the decimal encoding of `v`.
pub fn push_i32(v: i32, out: &mut String)
    ensures
        final(out)@ == old(out)@ + enc_i32(v as int),
{
    let mag: u32 = if v < 0 {
        push_char(out, '-');
        (-(v as i64)) as u32
    } else {
        v as u32
    };
    push_digits(mag, out);
    proof {
        if v < 0 {
            assert(out@ =~= old(out)@ + enc_i32(v as int));
        }
    }
}

/// Decimal string of an integer.
pub fn encode_i32(v: i32) -> (r: String)
    ensures
        r@ == enc_i32(v as int),
{
    let mut out = String::new();
    push_i32(v, &mut out);
    proof {
        assert(out@ =~= enc_i32(v as int));
    }
    out
}

/// Comma-separated decimal string of a list of integers.
pub fn encode_ids(ids: &Vec<i32>) -> (r: String)
    ensures
        r@ == enc_ids(ids@),
{
    let mut out = String::new();
    encode_ids_from(ids, 0, &mut out);
    proof {
        assert(ids@.skip(0) =~= ids@);
        assert(out@ =~= enc_ids(ids@));
    }
    out
}

fn encode_ids_from(ids: &Vec<i32>, i: usize, out: &mut String)
    requires
        i <= ids.len(),
    ensures
        final(out)@ == old(out)@ + enc_ids(ids@.skip(i as int)),
    decreases ids.len() - i,
{
    if i < ids.len() {
        push_i32(ids[i], out);
        if i + 1 < ids.len() {
            push_char(out, ',');
            encode_ids_from(ids, i + 1, out);
            proof {
                assert(ids@.skip(i as int)[0] == ids@[i as int]);
                assert(ids@.skip(i as int).skip(1) =~= ids@.skip(i as int + 1));
                assert(out@ =~= old(out)@ + enc_ids(ids@.skip(i as int)));
            }
        } else {
            proof {
                assert(ids@.skip(i as int).len() == 1);
                assert(ids@.skip(i as int)[0] == ids@[i as int]);
                assert(out@ =~= old(out)@ + enc_ids(ids@.skip(i as int)));
            }
        }
    } else {
        proof {
            assert(ids@.skip(i as int).len() == 0);
            assert(out@ =~= old(out)@ + enc_ids(ids@.skip(i as int)));
        }
    }
}

/// Parses the digit run `s[from..to]` as a value at most `bound`.
fn parse_digits(s: &str, from: usize, to: usize, bound: u32) -> (r: Option<u32>)
    requires
        from <= to <= s@.len(),
    ensures
        match r {
            Some(v) => {
                &&& to > from
                &&& all_digits(s@.subrange(from as int, to as int))
                &&& v == val_of_digits(s@.subrange(from as int, to as int))
                &&& v <= bound
            },
            None => !(to > from && all_digits(s@.subrange(from as int, to as int))
                && val_of_digits(s@.subrange(from as int, to as int)) <= bound),
        },
{
    if to == from {
        return None;
    }
    let ghost whole = s@.subrange(from as int, to as int);
    let mut acc: u32 = 0;
    let mut j: usize = from;
    while j < to
        invariant
            from <= j <= to <= s@.len(),
            whole == s@.subrange(from as int, to as int),
            all_digits(whole.take(j - from)),
            acc == val_of_digits(whole.take(j - from)),
            acc <= bound,
        decreases to - j,
    {
        let c = s.get_char(j);
        proof {
            assert(whole[j - from] == s@[j as int]);
        }
        if !(c >= '0' && c <= '9') {
            proof {
                assert(!is_digit(whole[j - from]));
            }
            return None;
        }
        let d: u32 = (c as u32) - ('0' as u32);
        proof {
            assert(d == digit_val(whole[j - from]));
            assert(d < 10);
        }
        let next: u64 = (acc as u64) * 10 + (d as u64);
        proof {
            assert(whole.take(j - from + 1).drop_last() =~= whole.take(j - from));
            assert(val_of_digits(whole.take(j - from + 1)) == acc * 10 + d);
        }
        if next > bound as u64 {
            proof {
                let pre = whole.take(j - from + 1);
                if all_digits(whole) && val_of_digits(whole) <= bound {
                    lemma_val_of_digits_prefix(whole, j - from + 1);
                    assert(val_of_digits(pre) <= val_of_digits(whole));
                    assert(false);
                }
            }
            return None;
        }
        acc = next as u32;
        j = j + 1;
    }
    proof {
        assert(whole.take(to - from) =~= whole);
    }
    Some(acc)
}

/// Parses `s[from..to]` as a decimal integer; mirrors [`dec_i32`].
fn parse_i32_range(s: &str, from: usize, to: usize) -> (r: Option<i32>)
    requires
        from <= to <= s@.len(),
    ensures
        r == dec_i32(s@.subrange(from as int, to as int)),
{
    let ghost seg = s@.subrange(from as int, to as int);
    if to == from {
        return None;
    }
    let c0 = s.get_char(from);
    proof {
        assert(seg[0] == s@[from as int]);
    }
    if c0 == '-' {
        proof {
            assert(seg.skip(1) =~= s@.subrange(from as int + 1, to as int));
        }
        match parse_digits(s, from + 1, to, 0x8000_0000) {
            Some(v) => {
                let r: i32 = if v == 0x8000_0000 {
                    i32::MIN
                } else {
                    -(v as i32)
                };
                proof {
                    let d = seg.skip(1);
                    assert(d.len() >= 1 && all_digits(d) && val_of_digits(d) <= 0x8000_0000);
                    assert(r as int == -val_of_digits(d));
                }
                Some(r)
            },
            None => None,
        }
    } else {
        match parse_digits(s, from, to, i32::MAX as u32) {
            Some(v) => Some(v as i32),
            None => None,
        }
    }
}

/// Finds the next comma at or after `from`; returns the length if none.
fn find_comma(s: &str, from: usize) -> (k: usize)
    requires
        from <= s@.len(),
    ensures
        from <= k <= s@.len(),
        k - from == find_sep(s@.skip(from as int)),
        k < s@.len() ==> s@[k as int] == ',',
        forall|i: int| from <= i < k ==> s@[i] != ',',
{
    let len = s.unicode_len();
    let mut k: usize = from;
    while k < len
        invariant
            from <= k <= len,
            len == s@.len(),
            forall|i: int| from <= i < k ==> s@[i] != ',',
        decreases len - k,
    {
        let c = s.get_char(k);
        if c == ',' {
            proof {
                lemma_find_sep_char(s@.skip(from as int), k - from);
            }
            return k;
        }
        k = k + 1;
    }
    proof {
        lemma_find_sep_char(s@.skip(from as int), k - from);
    }
    k
}

/// `find_sep` is characterized by "no comma before, comma (or end) at".
proof fn lemma_find_sep_char(s: Seq<char>, i: int)
    requires
        0 <= i <= s.len(),
        forall|j: int| 0 <= j < i ==> s[j] != ',',
        i < s.len() ==> s[i] == ',',
    ensures
        find_sep(s) == i,
    decreases i,
{
    if i == 0 {
        if s.len() > 0 {
            assert(s[0] == ',');
        }
    } else {
        assert(s[0] != ',');
        assert(forall|j: int| 0 <= j < i - 1 ==> s.skip(1)[j] == s[j + 1]);
        if i < s.len() {
            assert(s.skip(1)[i - 1] == s[i]);
        }
        lemma_find_sep_char(s.skip(1), i - 1);
    }
}

/// Parses a comma-separated list of decimal integers; mirrors [`dec_ids`].
pub fn decode_ids(s: &str) -> (r: Option<Vec<i32>>)
    ensures
        match r {
            Some(v) => dec_ids(s@) == Some(v@),
            None => dec_ids(s@) is None,
        },
{
    let len = s.unicode_len();
    let mut acc: Vec<i32> = Vec::new();
    let mut from: usize = 0;
    if len == 0 {
        proof {
            assert(dec_ids(s@) == Some(Seq::<i32>::empty()));
            assert(acc@ =~= Seq::<i32>::empty());
        }
        return Some(acc);
    }
    proof {
        assert(s@.skip(0) =~= s@);
        if dec_ids(s@) is Some {
            assert(acc@ + dec_ids(s@).unwrap() =~= dec_ids(s@).unwrap());
        }
    }
    while from < len
        invariant
            0 < len == s@.len(),
            from <= len,
            match dec_ids(s@.skip(from as int)) {
                Some(t) => dec_ids(s@) == Some(acc@ + t),
                None => dec_ids(s@) is None,
            },
        decreases len - from,
    {
        let ghost suffix = s@.skip(from as int);
        let ghost acc0 = acc@;
        let k = find_comma(s, from);
        proof {
            assert(suffix.len() > 0);
            assert(suffix.take(k - from) =~= s@.subrange(from as int, k as int));
        }
        let parsed = parse_i32_range(s, from, k);
        match parsed {
            Some(v) => {
                acc.push(v);
                if k == len {
                    proof {
                        assert(find_sep(suffix) == suffix.len());
                        assert(suffix =~= s@.subrange(from as int, k as int));
                        assert(dec_ids(suffix) == Some(seq![v]));
                        assert(dec_ids(s@) == Some(acc0 + seq![v]));
                        assert(acc0 + seq![v] =~= acc@);
                        assert(s@.skip(len as int) =~= Seq::<char>::empty());
                        assert(dec_ids(s@.skip(len as int)) == Some(Seq::<i32>::empty()));
                        assert(acc@ + Seq::<i32>::empty() =~= acc@);
                    }
                    from = len;
                } else {
                    proof {
                        assert(find_sep(suffix) < suffix.len());
                        assert(suffix.skip(k - from + 1) =~= s@.skip(k as int + 1));
                        match dec_ids(s@.skip(k as int + 1)) {
                            Some(rest) => {
                                assert(dec_ids(suffix) == Some(seq![v] + rest));
                                assert(dec_ids(s@) == Some(acc0 + (seq![v] + rest)));
                                assert(acc0 + (seq![v] + rest) =~= acc@ + rest);
                            },
                            None => {
                                assert(dec_ids(suffix) is None);
                            },
                        }
                    }
                    from = k + 1;
                }
            },
            None => {
                proof {
                    if k == len {
                        assert(suffix =~= s@.subrange(from as int, k as int));
                        assert(dec_ids(suffix) is None);
                    } else {
                        assert(dec_ids(suffix) is None);
                    }
                }
                return None;
            },
        }
    }
    proof {
        assert(s@.skip(from as int) =~= Seq::<char>::empty());
        assert(dec_ids(s@.skip(from as int)) == Some(Seq::<i32>::empty()));
        assert(acc@ + Seq::<i32>::empty() =~= acc@);
    }
    Some(acc)
}

} // verus!


//! Segment file names.
//!
//! A segment with id `n` lives in a file named `<n>.log`, the id in decimal.
//! [`log_path`] builds such a name; [`generate_id`] filters a directory
//! listing down to the sorted ids of the segment files in it.

use vstd::prelude::*;
use vstd::string::*;

use crate::codec::chars_to_string;

verus! {

/// The character for one decimal digit.
pub open spec fn digit_char(d: int) -> char {
    if d == 0 { '0' } else if d == 1 { '1' } else if d == 2 { '2' }
    else if d == 3 { '3' } else if d == 4 { '4' } else if d == 5 { '5' }
    else if d == 6 { '6' } else if d == 7 { '7' } else if d == 8 { '8' }
    else { '9' }
}

/// The decimal digits of `n`, most significant first, no leading zeros.
pub open spec fn dec_digits(n: int) -> Seq<char>
    decreases n,
{
    if n < 10 {
        seq![digit_char(n)]
    } else {
        dec_digits(n / 10).push(digit_char(n % 10))
    }
}

/// The file name of the segment with the given id: `<id>.log`.
pub open spec fn log_name(id: int) -> Seq<char> {
    dec_digits(id) + seq!['.', 'l', 'o', 'g']
}

fn digit_char_x(d: u64) -> (r: char)
    requires
        d < 10,
    ensures
        r == digit_char(d as int),
{
    if d == 0 { '0' } else if d == 1 { '1' } else if d == 2 { '2' }
    else if d == 3 { '3' } else if d == 4 { '4' } else if d == 5 { '5' }
    else if d == 6 { '6' } else if d == 7 { '7' } else if d == 8 { '8' }
    else { '9' }
}

fn dec_digits_x(n: u64) -> (r: Vec<char>)
    ensures
        r@ == dec_digits(n as int),
    decreases n,
{
    if n < 10 {
        let mut v: Vec<char> = Vec::new();
        v.push(digit_char_x(n));
        proof {
            assert(v@ =~= dec_digits(n as int));
        }
        v
    } else {
        let mut v = dec_digits_x(n / 10);
        v.push(digit_char_x(n % 10));
        v
    }
}

/// The file name `<id>.log` of the segment with the given id.
pub fn log_path(id: u64) -> (r: String)
    ensures
        r@ == log_name(id as int),
{
    let mut v = dec_digits_x(id);
    v.push('.');
    v.push('l');
    v.push('o');
    v.push('g');
    proof {
        assert(v@ =~= log_name(id as int));
    }
    chars_to_string(v)
}

// ---------------------------------------------------------------------------
// Recognizing segment file names.
// ---------------------------------------------------------------------------

/// A decimal digit.
pub open spec fn is_digit(c: char) -> bool {
    48 <= (c as u32) <= 57
}

/// Nothing but decimal digits.
pub open spec fn is_digits(d: Seq<char>) -> bool {
    forall|a: int| 0 <= a < d.len() ==> is_digit(#[trigger] d[a])
}

/// The value of a digit string read in the usual order.
pub open spec fn dec_val(d: Seq<char>) -> int
    decreases d.len(),
{
    if d.len() == 0 {
        0
    } else {
        dec_val(d.drop_last()) * 10 + ((d.last() as u32) - 48)
    }
}

/// A name of the form `<digits>.log` whose digits denote `id`, written
/// without leading zeros as the store writes them.
pub open spec fn valid_log_name(name: Seq<char>, id: u64) -> bool {
    &&& name.len() >= 5
    &&& name.subrange(name.len() - 4, name.len() as int) == seq!['.', 'l', 'o', 'g']
    &&& is_digits(name.subrange(0, name.len() - 4))
    &&& dec_val(name.subrange(0, name.len() - 4)) == id
    &&& (name.len() - 4 == 1 || name.subrange(0, name.len() - 4)[0] != '0')
}

/// The decimal digits of a number are digits, carry its value, and have no
/// leading zero.
proof fn lemma_dec_digits(n: int)
    requires
        n >= 0,
    ensures
        dec_digits(n).len() >= 1,
        is_digits(dec_digits(n)),
        dec_val(dec_digits(n)) == n,
        n >= 1 ==> dec_digits(n)[0] != '0',
    decreases n,
{
    if n < 10 {
        assert(digit_char(n) as u32 == 48 + n);
        assert(dec_digits(n).last() == digit_char(n));
        assert(dec_digits(n).drop_last() =~= Seq::<char>::empty());
        assert(dec_val(Seq::<char>::empty()) == 0);
        assert(dec_val(dec_digits(n)) == n);
        assert forall|a: int| 0 <= a < dec_digits(n).len() implies is_digit(
            #[trigger] dec_digits(n)[a],
        ) by {}
    } else {
        lemma_dec_digits(n / 10);
        let d = dec_digits(n);
        let d0 = dec_digits(n / 10);
        assert(d == d0.push(digit_char(n % 10)));
        assert(d.drop_last() =~= d0);
        assert(d.last() == digit_char(n % 10));
        assert(digit_char(n % 10) as u32 == 48 + n % 10);
        assert(dec_val(d) == dec_val(d0) * 10 + n % 10);
        assert forall|a: int| 0 <= a < d.len() implies is_digit(#[trigger] d[a]) by {
            if a < d.len() - 1 {
                assert(d[a] == d0[a]);
            }
        }
        assert(d[0] == d0[0]);
    }
}

/// The name the store writes for a segment id is recognized as that id.
pub proof fn lemma_log_name_valid(id: u64)
    ensures
        valid_log_name(log_name(id as int), id),
{
    lemma_dec_digits(id as int);
    let nm = log_name(id as int);
    let k = dec_digits(id as int).len() as int;
    assert(nm.len() == k + 4);
    assert(nm.subrange(k, k + 4) =~= seq!['.', 'l', 'o', 'g']);
    assert(nm.subrange(0, k) =~= dec_digits(id as int));
    if k > 1 {
        if id == 0 {
            assert(dec_digits(0).len() == 1);
            assert(false);
        }
    }
}

proof fn lemma_dec_val_nonneg(d: Seq<char>)
    requires
        is_digits(d),
    ensures
        dec_val(d) >= 0,
    decreases d.len(),
{
    if d.len() > 0 {
        assert(is_digits(d.drop_last()));
        lemma_dec_val_nonneg(d.drop_last());
    }
}

/// Reading further digits never shrinks the value.
proof fn lemma_dec_val_mono(d: Seq<char>, j: int)
    requires
        0 <= j <= d.len(),
        is_digits(d),
    ensures
        dec_val(d) >= dec_val(d.subrange(0, j)),
    decreases d.len() - j,
{
    if j < d.len() {
        lemma_dec_val_mono(d, j + 1);
        assert(d.subrange(0, j + 1).drop_last() =~= d.subrange(0, j));
        assert(d.subrange(0, j + 1).last() == d[j]);
        assert(is_digits(d.subrange(0, j)));
        lemma_dec_val_nonneg(d.subrange(0, j));
        assert(dec_val(d.subrange(0, j + 1)) == dec_val(d.subrange(0, j)) * 10 + ((d[j] as u32)
            - 48));
    } else {
        assert(d.subrange(0, d.len() as int) =~= d);
    }
}

/// The id a file name denotes, where the name has the segment form.
fn parse_log_name(name: &String) -> (r: Option<u64>)
    ensures
        match r {
            Some(id) => valid_log_name(name@, id),
            None => forall|id: u64| !valid_log_name(name@, id),
        },
{
    let s = name.as_str();
    let n = s.unicode_len();
    if n < 5 {
        return None;
    }
    if !(s.get_char(n - 4) == '.' && s.get_char(n - 3) == 'l' && s.get_char(n - 2) == 'o'
        && s.get_char(n - 1) == 'g') {
        proof {
            assert forall|id: u64| !valid_log_name(name@, id) by {
                if valid_log_name(name@, id) {
                    assert(name@.subrange(n - 4, n as int)[0] == name@[n - 4]);
                    assert(name@.subrange(n - 4, n as int)[1] == name@[n - 3]);
                    assert(name@.subrange(n - 4, n as int)[2] == name@[n - 2]);
                    assert(name@.subrange(n - 4, n as int)[3] == name@[n - 1]);
                    assert(false);
                }
            }
        }
        return None;
    }
    proof {
        assert(name@.subrange(n - 4, n as int) =~= seq!['.', 'l', 'o', 'g']);
    }
    if n - 4 > 1 && s.get_char(0) == '0' {
        proof {
            assert forall|id: u64| !valid_log_name(name@, id) by {
                if valid_log_name(name@, id) {
                    assert(name@.subrange(0, n - 4)[0] == name@[0]);
                    assert(false);
                }
            }
        }
        return None;
    }
    let ghost d = name@.subrange(0, n - 4);
    let mut acc: u64 = 0;
    let mut i: usize = 0;
    proof {
        assert(d.subrange(0, 0) =~= Seq::<char>::empty());
    }
    while i < n - 4
        invariant
            s@ == name@,
            n == name@.len(),
            n >= 5,
            i <= n - 4,
            d == name@.subrange(0, n - 4),
            name@.subrange(n - 4, n as int) == seq!['.', 'l', 'o', 'g'],
            n - 4 > 1 ==> name@[0] != '0',
            forall|a: int| 0 <= a < i ==> is_digit(#[trigger] d[a]),
            acc as int == dec_val(d.subrange(0, i as int)),
        decreases n - 4 - i,
    {
        let c = s.get_char(i);
        let v32 = c as u32;
        if v32 < 48 || v32 > 57 {
            proof {
                assert(d[i as int] == name@[i as int]);
                assert(!is_digit(d[i as int]));
            }
            return None;
        }
        let digit = (v32 - 48) as u64;
        if acc > u64::MAX / 10 || (acc == u64::MAX / 10 && digit > u64::MAX % 10) {
            proof {
                assert forall|id: u64| !valid_log_name(name@, id) by {
                    if valid_log_name(name@, id) {
                        assert(d.subrange(0, i + 1).drop_last() =~= d.subrange(0, i as int));
                        assert(d.subrange(0, i + 1).last() == d[i as int]);
                        assert(d[i as int] == name@[i as int]);
                        assert(dec_val(d.subrange(0, i + 1)) == acc * 10 + digit);
                        lemma_dec_val_mono(d, i + 1);
                        assert(dec_val(d) > u64::MAX);
                        assert(false);
                    }
                }
            }
            return None;
        }
        proof {
            assert(d.subrange(0, i + 1).drop_last() =~= d.subrange(0, i as int));
            assert(d.subrange(0, i + 1).last() == d[i as int]);
            assert(d[i as int] == name@[i as int]);
        }
        acc = acc * 10 + digit;
        i = i + 1;
    }
    proof {
        assert(d.subrange(0, d.len() as int) =~= d);
        assert(is_digits(d));
        if n - 4 > 1 {
            assert(d[0] == name@[0]);
        }
    }
    Some(acc)
}

/// Whether `x` occurs among the elements of `v`.
#[verifier::opaque]
pub open spec fn has_id(v: Seq<u64>, x: u64) -> bool {
    exists|a: int| 0 <= a < v.len() && v[a] == x
}

/// Put `id` into the sorted duplicate-free vector, keeping it so.
#[verifier::rlimit(50)]
fn insert_sorted(r: &mut Vec<u64>, id: u64)
    requires
        forall|a: int, b: int| 0 <= a < b < old(r)@.len() ==> old(r)@[a] < old(r)@[b],
    ensures
        forall|a: int, b: int| 0 <= a < b < final(r)@.len() ==> final(r)@[a] < final(r)@[b],
        forall|x: u64| #[trigger] has_id(old(r)@, x) ==> has_id(final(r)@, x),
        has_id(final(r)@, id),
        forall|x: u64| #[trigger] has_id(final(r)@, x) ==> has_id(old(r)@, x) || x == id,
{
    let ghost prev = r@;
    let mut p: usize = 0;
    while p < r.len() && r[p] < id
        invariant
            p <= r@.len(),
            r@ == prev,
            forall|a: int| 0 <= a < p ==> (#[trigger] r@[a]) < id,
            forall|a: int, b: int| 0 <= a < b < r@.len() ==> r@[a] < r@[b],
        decreases r@.len() - p,
    {
        p = p + 1;
    }
    if p < r.len() {
        let found = r[p];
        if found == id {
            proof {
                assert(has_id(r@, id)) by {
                    reveal(has_id);
                    assert(r@[p as int] == id);
                }
            }
            return;
        }
    }
    r.insert(p, id);
    proof {
        assert forall|a: int, b: int| 0 <= a < b < r@.len() implies r@[a] < r@[b] by {
            if b < p {
            } else if b == p {
                assert(r@[a] == prev[a]);
            } else {
                assert(r@[b] == prev[b - 1]);
                if a < p {
                    assert(r@[a] == prev[a]);
                } else if a == p {
                    assert(prev[p as int] >= id);
                    assert(prev[p as int] != id);
                } else {
                    assert(r@[a] == prev[a - 1]);
                }
            }
        }
        assert forall|x: u64| #[trigger] has_id(prev, x) implies has_id(r@, x) by {
            reveal(has_id);
            let a = choose|a: int| 0 <= a < prev.len() && prev[a] == x;
            if a < p {
                assert(r@[a] == x);
            } else {
                assert(r@[a + 1] == x);
            }
        }
        assert(has_id(r@, id)) by {
            reveal(has_id);
            assert(r@[p as int] == id);
        }
        assert forall|x: u64| #[trigger] has_id(r@, x) implies has_id(prev, x) || x == id by {
            reveal(has_id);
            let a = choose|a: int| 0 <= a < r@.len() && r@[a] == x;
            if a < p {
                assert(prev[a] == x);
            } else if a == p {
                assert(r@[a] == id);
            } else {
                assert(prev[a - 1] == x);
            }
        }
    }
}

/// The sorted, duplicate-free ids of the segment files among the given
/// names; names of any other form are ignored.
pub fn generate_id(names: &Vec<String>) -> (r: Vec<u64>)
    ensures
        forall|a: int, b: int| 0 <= a < b < r@.len() ==> r@[a] < r@[b],
        forall|id: u64|
            #[trigger] has_id(r@, id) <==> exists|nn: int|
                0 <= nn < names@.len() && valid_log_name((#[trigger] names@[nn])@, id),
{
    let mut r: Vec<u64> = Vec::new();
    let mut nn: usize = 0;
    proof {
        assert forall|id0: u64| !(#[trigger] has_id(r@, id0)) by {
            reveal(has_id);
        }
    }
    while nn < names.len()
        invariant
            nn <= names@.len(),
            forall|a: int, b: int| 0 <= a < b < r@.len() ==> r@[a] < r@[b],
            forall|id: u64|
                #[trigger] has_id(r@, id) <==> exists|m: int|
                    0 <= m < nn && valid_log_name((#[trigger] names@[m])@, id),
        decreases names@.len() - nn,
    {
        let ghost r0 = r@;
        match parse_log_name(&names[nn]) {
            Some(id) => {
                insert_sorted(&mut r, id);
                proof {
                    assert forall|x: u64| #[trigger] has_id(r@, x) implies exists|m: int|
                        0 <= m < nn + 1 && valid_log_name((#[trigger] names@[m])@, x) by {
                        if x == id {
                            assert(valid_log_name(names@[nn as int]@, x));
                        } else {
                            assert(has_id(r0, x));
                            let m = choose|m: int|
                                0 <= m < nn && valid_log_name((#[trigger] names@[m])@, x);
                            assert(valid_log_name(names@[m]@, x));
                        }
                    }
                    assert forall|x: u64|
                        (exists|m: int|
                            0 <= m < nn + 1 && valid_log_name(
                                (#[trigger] names@[m])@,
                                x,
                            )) implies #[trigger] has_id(r@, x) by {
                        let m = choose|m: int|
                            0 <= m < nn + 1 && valid_log_name((#[trigger] names@[m])@, x);
                        if m < nn {
                            assert(has_id(r0, x));
                        } else {
                            assert(valid_log_name(names@[nn as int]@, x));
                            assert(x == id);
                        }
                    }
                }
            }
            None => {
                proof {
                    assert forall|x: u64| #[trigger] has_id(r@, x) implies exists|m: int|
                        0 <= m < nn + 1 && valid_log_name((#[trigger] names@[m])@, x) by {
                        assert(has_id(r0, x));
                        let m = choose|m: int|
                            0 <= m < nn && valid_log_name((#[trigger] names@[m])@, x);
                        assert(valid_log_name(names@[m]@, x));
                    }
                    assert forall|x: u64|
                        (exists|m: int|
                            0 <= m < nn + 1 && valid_log_name(
                                (#[trigger] names@[m])@,
                                x,
                            )) implies #[trigger] has_id(r@, x) by {
                        let m = choose|m: int|
                            0 <= m < nn + 1 && valid_log_name((#[trigger] names@[m])@, x);
                        if m < nn {
                        } else {
                            assert(valid_log_name(names@[nn as int]@, x));
                            assert(false);
                        }
                    }
                }
            }
        }
        nn = nn + 1;
    }
    r
}

} // verus!

//! Small verified string helpers shared by the router, the dispatcher and
//! the statement builders: string equality, decimal rendering and decimal
//! parsing.

use vstd::prelude::*;
use vstd::string::{StrSliceExecFns, StringExecFns};

verus! {

/// The character for one decimal digit value.
pub open spec fn digit_char(d: int) -> char {
    ((d + 48) as u8) as char
}

/// The decimal digits of a non-negative number, most significant first.
pub open spec fn spec_digits(n: int) -> Seq<char>
    recommends
        n >= 0,
    decreases n,
{
    if n < 10 {
        seq![digit_char(n)]
    } else {
        spec_digits(n / 10).push(digit_char(n % 10))
    }
}

/// The decimal rendering of an integer: a minus sign for negative values,
/// then the digits of its magnitude.
pub open spec fn spec_int_text(v: int) -> Seq<char> {
    if v < 0 {
        seq!['-'] + spec_digits(-v)
    } else {
        spec_digits(v)
    }
}

/// Whether a character is a decimal digit.
pub open spec fn is_digit(c: char) -> bool {
    48 <= c as u32 && c as u32 <= 57
}

/// Whether every character of a sequence is a decimal digit.
pub open spec fn all_digits(s: Seq<char>) -> bool {
    forall|i: int| 0 <= i < s.len() ==> is_digit(#[trigger] s[i])
}

/// The number a sequence of decimal digits denotes.
pub open spec fn digits_val(s: Seq<char>) -> int
    decreases s.len(),
{
    if s.len() == 0 {
        0
    } else {
        digits_val(s.drop_last()) * 10 + (s.last() as u32 - 48)
    }
}

/// What `str::parse::<i32>` accepts and returns: an optional sign followed
/// by at least one digit, denoting a value within the type's range.
pub open spec fn spec_parse_i32(s: Seq<char>) -> Option<int> {
    let ds = if s.len() > 0 && (s[0] == '-' || s[0] == '+') {
        s.drop_first()
    } else {
        s
    };
    let neg = s.len() > 0 && s[0] == '-';
    if ds.len() == 0 || !all_digits(ds) {
        None
    } else {
        let v = if neg {
            -digits_val(ds)
        } else {
            digits_val(ds)
        };
        if i32::MIN <= v <= i32::MAX {
            Some(v)
        } else {
            None
        }
    }
}

/// One digit as a string slice.
fn digit_str(d: u32) -> (r: &'static str)
    requires
        d < 10,
    ensures
        r@ == seq![digit_char(d as int)],
{
    let r = match d {
        0 => "0",
        1 => "1",
        2 => "2",
        3 => "3",
        4 => "4",
        5 => "5",
        6 => "6",
        7 => "7",
        8 => "8",
        _ => "9",
    };
    proof {
        reveal_strlit("0");
        reveal_strlit("1");
        reveal_strlit("2");
        reveal_strlit("3");
        reveal_strlit("4");
        reveal_strlit("5");
        reveal_strlit("6");
        reveal_strlit("7");
        reveal_strlit("8");
        reveal_strlit("9");
        assert(r@ =~= seq![digit_char(d as int)]);
    }
    r
}

/// Appends the decimal digits of `n` to `acc`.
fn push_digits(acc: String, n: u32) -> (r: String)
    ensures
        r@ == acc@ + spec_digits(n as int),
    decreases n,
{
    if n < 10 {
        acc.concat(digit_str(n))
    } else {
        let ghost a0 = acc@;
        let acc2 = push_digits(acc, n / 10);
        let r = acc2.concat(digit_str(n % 10));
        proof {
            assert(spec_digits(n as int) == spec_digits(n as int / 10).push(
                digit_char(n as int % 10),
            ));
            assert(r@ =~= a0 + spec_digits(n as int));
        }
        r
    }
}

/// Renders an integer in decimal.
pub fn i32_to_string(v: i32) -> (r: String)
    ensures
        r@ == spec_int_text(v as int),
{
    if v >= 0 {
        let r = push_digits(String::new(), v as u32);
        proof {
            assert(Seq::<char>::empty() + spec_digits(v as int) =~= spec_digits(v as int));
        }
        r
    } else {
        let m: u32 = (-(v as i64)) as u32;
        let r = push_digits(String::from_str("-"), m);
        proof {
            reveal_strlit("-");
            assert("-"@ =~= seq!['-']);
            assert(r@ =~= seq!['-'] + spec_digits(m as int));
        }
        r
    }
}

/// A digit sequence is worth no less than any of its prefixes, and no less
/// than zero.
proof fn lemma_digits_val_prefix(s: Seq<char>, k: int)
    requires
        0 <= k <= s.len(),
        all_digits(s),
    ensures
        digits_val(s) >= digits_val(s.take(k)),
        digits_val(s.take(k)) >= 0,
        digits_val(s) >= 0,
    decreases s.len(),
{
    if s.len() == 0 {
        assert(s.take(k) =~= s);
    } else {
        assert(all_digits(s.drop_last())) by {
            assert(forall|i: int|
                0 <= i < s.drop_last().len() ==> #[trigger] s.drop_last()[i] == s[i]);
        }
        lemma_digits_val_prefix(s.drop_last(), if k <= s.len() - 1 {
            k
        } else {
            s.len() - 1
        });
        assert(is_digit(s.last()));
        if k == s.len() {
            assert(s.take(k) =~= s);
        } else {
            assert(s.take(k) =~= s.drop_last().take(k));
        }
    }
}

/// Parses an integer in decimal, as `str::parse::<i32>` does: an optional
/// sign, then at least one digit; anything else, or a value out of range,
/// is rejected.
pub fn parse_i32(s: &str) -> (r: Option<i32>)
    ensures
        match spec_parse_i32(s@) {
            Some(v) => r matches Some(x) && x == v,
            None => r is None,
        },
{
    let n = s.unicode_len();
    let mut i: usize = 0;
    let mut neg = false;
    if n > 0 {
        let c0 = s.get_char(0);
        if c0 == '-' {
            neg = true;
            i = 1;
        } else if c0 == '+' {
            i = 1;
        }
    }
    if i == n {
        return None;
    }
    let ghost i0 = i as int;
    let ghost ds = s@.skip(i0);
    proof {
        if i0 == 0 {
            assert(ds =~= s@);
        } else {
            assert(ds =~= s@.drop_first());
        }
    }
    let mut acc: i64 = 0;
    while i < n
        invariant
            i0 <= i <= n,
            n == s@.len(),
            ds == s@.skip(i0),
            ds == (if s@.len() > 0 && (s@[0] == '-' || s@[0] == '+') {
                s@.drop_first()
            } else {
                s@
            }),
            neg == (s@.len() > 0 && s@[0] == '-'),
            0 <= i0 <= n,
            all_digits(s@.subrange(i0, i as int)),
            acc == digits_val(s@.subrange(i0, i as int)),
            0 <= acc <= 2147483648i64,
        decreases n - i,
    {
        let c = s.get_char(i);
        let cu = c as u32;
        if cu < 48 || cu > 57 {
            proof {
                assert(ds[i - i0] == s@[i as int]);
                assert(!all_digits(ds));
            }
            return None;
        }
        let d: i64 = (cu - 48) as i64;
        proof {
            assert(s@.subrange(i0, i + 1).drop_last() =~= s@.subrange(i0, i as int));
            assert(s@.subrange(i0, i + 1).last() == s@[i as int]);
            assert(all_digits(s@.subrange(i0, i + 1))) by {
                assert(forall|j: int|
                    0 <= j < i + 1 - i0 ==> #[trigger] s@.subrange(i0, i + 1)[j] == s@[i0 + j]);
            }
        }
        acc = acc * 10 + d;
        i = i + 1;
        if acc > 2147483648i64 {
            proof {
                assert(ds.take(i - i0) =~= s@.subrange(i0, i as int));
                if all_digits(ds) {
                    lemma_digits_val_prefix(ds, i - i0);
                    assert(digits_val(ds) > 2147483648);
                }
            }
            return None;
        }
    }
    proof {
        assert(s@.subrange(i0, n as int) =~= ds);
    }
    if neg {
        let r: i64 = -acc;
        proof {
            assert(s@[0] == '-');
        }
        Some(r as i32)
    } else {
        if acc > 2147483647i64 {
            return None;
        }
        Some(acc as i32)
    }
}

/// The number of leading characters before the first comma (all of them, if
/// none occurs).
pub open spec fn comma_prefix(s: Seq<char>) -> nat
    decreases s.len(),
{
    if s.len() == 0 || s[0] == ',' {
        0
    } else {
        1 + comma_prefix(s.drop_first())
    }
}

/// `comma_prefix` is the position of the first comma, or the length if none
/// occurs.
proof fn lemma_comma_prefix_at(s: Seq<char>, k: int)
    requires
        0 <= k <= s.len(),
        forall|j: int| 0 <= j < k ==> s[j] != ',',
        k == s.len() || s[k] == ',',
    ensures
        comma_prefix(s) == k,
    decreases k,
{
    if k == 0 {
    } else {
        lemma_comma_prefix_at(s.drop_first(), k - 1);
    }
}

/// The comma-separated parts of a sequence, in order, empty parts included;
/// there is always at least one part.
pub open spec fn split_commas(s: Seq<char>) -> Seq<Seq<char>>
    decreases s.len(),
{
    let p = comma_prefix(s) as int;
    if p >= s.len() {
        seq![s]
    } else {
        seq![s.take(p)] + split_commas(s.skip(p + 1))
    }
}

/// The numbers denoted by those parts that parse as `i32`, in order.
pub open spec fn ids_of(parts: Seq<Seq<char>>) -> Seq<int>
    decreases parts.len(),
{
    if parts.len() == 0 {
        Seq::empty()
    } else {
        match spec_parse_i32(parts[0]) {
            Some(v) => seq![v] + ids_of(parts.drop_first()),
            None => ids_of(parts.drop_first()),
        }
    }
}

/// Parses the part starting at `from` and every part after it.
fn id_list_from(s: &str, from: usize) -> (r: Vec<i32>)
    requires
        from <= s@.len(),
    ensures
        r@.map_values(|x: i32| x as int) == ids_of(split_commas(s@.skip(from as int))),
    decreases s@.len() - from,
{
    let n = s.unicode_len();
    let ghost tail = s@.skip(from as int);
    let mut k = from;
    while k < n && s.get_char(k) != ','
        invariant
            from <= k <= n,
            n == s@.len(),
            forall|j: int| from <= j < k ==> s@[j] != ',',
        decreases n - k,
    {
        k = k + 1;
    }
    proof {
        assert forall|j: int| 0 <= j < k - from implies tail[j] != ',' by {
            assert(tail[j] == s@[from + j]);
        }
        if k < n {
            assert(tail[k - from] == s@[k as int]);
        }
        lemma_comma_prefix_at(tail, k - from);
    }
    let part = s.substring_char(from, k);
    proof {
        assert(part@ =~= tail.take(k - from));
    }
    let first: Option<i32> = parse_i32(part);
    if k == n {
        proof {
            assert(tail.take(k - from) =~= tail);
            assert(split_commas(tail) == seq![tail]);
            assert(seq![tail].drop_first() =~= Seq::<Seq<char>>::empty());
        }
        let mut r: Vec<i32> = Vec::new();
        match first {
            Some(v) => {
                r.push(v);
                proof {
                    assert(r@.map_values(|x: i32| x as int) =~= seq![v as int] + ids_of(
                        Seq::<Seq<char>>::empty(),
                    ));
                }
            },
            None => {
                proof {
                    assert(r@.map_values(|x: i32| x as int) =~= ids_of(
                        Seq::<Seq<char>>::empty(),
                    ));
                }
            },
        }
        r
    } else {
        let mut rest = id_list_from(s, k + 1);
        let ghost rest_seq = rest@;
        let ghost rest_parts = split_commas(s@.skip(k + 1));
        proof {
            assert(tail.skip(k - from + 1) =~= s@.skip(k + 1));
            assert(split_commas(tail) == seq![tail.take(k - from)] + split_commas(
                tail.skip(k - from + 1),
            ));
            assert((seq![part@] + rest_parts)[0] == part@);
            assert((seq![part@] + rest_parts).drop_first() =~= rest_parts);
        }
        match first {
            Some(v) => {
                rest.insert(0, v);
                proof {
                    assert(rest@.map_values(|x: i32| x as int) =~= seq![v as int]
                        + rest_seq.map_values(|x: i32| x as int)) by {
                        assert(rest@ =~= seq![v] + rest_seq);
                    }
                }
            },
            None => {},
        }
        rest
    }
}

/// Parses a comma-separated list of numbers, keeping the valid entries in
/// order and dropping the rest.
pub fn parse_id_list(s: &str) -> (r: Vec<i32>)
    ensures
        r@.map_values(|x: i32| x as int) == ids_of(split_commas(s@)),
{
    let r = id_list_from(s, 0);
    proof {
        assert(s@.skip(0) =~= s@);
    }
    r
}

/// Whether two string slices hold the same characters.
pub fn str_eq(a: &str, b: &str) -> (r: bool)
    ensures
        r == (a@ == b@),
{
    let alen = a.unicode_len();
    let blen = b.unicode_len();
    if alen != blen {
        proof {
            assert(a@ != b@) by {
                if a@ == b@ {
                    assert(a@.len() == b@.len());
                }
            }
        }
        return false;
    }
    let mut i: usize = 0;
    while i < alen
        invariant
            i <= alen,
            alen == a@.len(),
            alen == b@.len(),
            forall|j: int| 0 <= j < i ==> a@[j] == b@[j],
        decreases alen - i,
    {
        if a.get_char(i) != b.get_char(i) {
            proof {
                assert(a@ != b@) by {
                    if a@ == b@ {
                        assert(a@[i as int] == b@[i as int]);
                    }
                }
            }
            return false;
        }
        i = i + 1;
    }
    proof {
        assert(a@ =~= b@);
    }
    true
}

} // verus!

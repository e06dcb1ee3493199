use vstd::prelude::*;

verus! {

/// An ASCII decimal digit.
pub open spec fn is_digit(c: char) -> bool {
    48 <= c as u32 <= 57
}

/// The digit character for a value from zero to nine.
pub open spec fn digit_char(d: int) -> char {
    ((48 + d) as u32) as char
}

/// The decimal digits of a non-negative number, most significant first.
pub open spec fn digits_of(n: int) -> Seq<char>
    decreases (if n > 0 {
        n
    } else {
        0
    }),
{
    if n < 10 {
        seq![digit_char(n)]
    } else {
        digits_of(n / 10).push(digit_char(n % 10))
    }
}

/// The numeric value of a digit string.
pub open spec fn digits_val(ds: Seq<char>) -> int
    decreases ds.len(),
{
    if ds.len() == 0 {
        0
    } else {
        digits_val(ds.drop_last()) * 10 + (ds.last() as u32 - 48)
    }
}

/// How many leading characters of `s` equal its first character.
pub open spec fn lead_run(s: Seq<char>) -> nat
    decreases s.len(),
{
    if s.len() == 0 {
        0
    } else if s.len() == 1 || s[1] != s[0] {
        1
    } else {
        1 + lead_run(s.drop_first())
    }
}

/// How many leading characters of `s` are digits.
pub open spec fn lead_digits(s: Seq<char>) -> nat
    decreases s.len(),
{
    if s.len() == 0 || !is_digit(s[0]) {
        0
    } else {
        1 + lead_digits(s.drop_first())
    }
}

/// Run-length coding: each maximal run of one character becomes the
/// character followed by the run's length in decimal.
pub open spec fn rle_spec(s: Seq<char>) -> Seq<char>
    decreases s.len(),
{
    if s.len() == 0 {
        Seq::empty()
    } else {
        let r = if 1 <= lead_run(s) <= s.len() {
            lead_run(s) as int
        } else {
            1
        };
        seq![s[0]] + digits_of(r) + rle_spec(s.skip(r))
    }
}

/// The inverse reading: a character followed by a decimal count, repeated.
/// It fails on a character with no count after it, and on a count beyond
/// what a length can hold.
pub open spec fn rld_spec(s: Seq<char>) -> Option<Seq<char>>
    decreases s.len(),
{
    if s.len() == 0 {
        Some(Seq::empty())
    } else {
        let d = lead_digits(s.skip(1)) as int;
        if d == 0 {
            None
        } else {
            let cnt = digits_val(s.subrange(1, 1 + d));
            let tail = if 1 + d <= s.len() {
                s.skip(1 + d)
            } else {
                Seq::empty()
            };
            if cnt > usize::MAX {
                None
            } else {
                match rld_spec(tail) {
                    None => None,
                    Some(rest) => Some(Seq::new(cnt as nat, |k: int| s[0]) + rest),
                }
            }
        }
    }
}

proof fn lemma_lead_run_eq(s: Seq<char>, r: int)
    requires
        1 <= r <= s.len(),
        forall|k: int| 0 <= k < r ==> #[trigger] s[k] == s[0],
        r < s.len() ==> s[r] != s[0],
    ensures
        lead_run(s) == r,
    decreases r,
{
    if r == 1 {
    } else {
        assert(s[1] == s[0]);
        lemma_lead_run_eq(s.drop_first(), r - 1);
    }
}

proof fn lemma_lead_digits_eq(s: Seq<char>, r: int)
    requires
        0 <= r <= s.len(),
        forall|k: int| 0 <= k < r ==> is_digit(#[trigger] s[k]),
        r < s.len() ==> !is_digit(s[r]),
    ensures
        lead_digits(s) == r,
    decreases r,
{
    if r > 0 {
        lemma_lead_digits_eq(s.drop_first(), r - 1);
    }
}

proof fn lemma_digits_val_nonneg(ds: Seq<char>)
    requires
        forall|k: int| 0 <= k < ds.len() ==> is_digit(#[trigger] ds[k]),
    ensures
        digits_val(ds) >= 0,
    decreases ds.len(),
{
    if ds.len() > 0 {
        lemma_digits_val_nonneg(ds.drop_last());
    }
}

/// Relies on String's FromIterator over char: the collected string holds
/// exactly the given characters.
#[verifier::external_body]
pub(crate) fn string_from_chars(chars: &Vec<char>) -> (r: String)
    ensures
        r@ == chars@,
{
    chars.iter().collect()
}

/// Exact digit test on one character of a string.
fn digit_at(data: &str, j: usize) -> (r: bool)
    requires
        j < data@.len(),
    ensures
        r == is_digit(data@[j as int]),
{
    let ch: char = data.get_char(j);
    let u: u32 = ch as u32;
    48 <= u && u <= 57
}

/// Append the decimal digits of `n`.
pub(crate) fn push_digits(out: &mut Vec<char>, n: usize)
    ensures
        final(out)@ == old(out)@ + digits_of(n as int),
    decreases n,
{
    if n < 10 {
        let d: u8 = n as u8;
        out.push((48 + d) as char);
        proof {
            assert(out@ =~= old(out)@ + digits_of(n as int));
        }
    } else {
        push_digits(out, n / 10);
        let d: u8 = (n % 10) as u8;
        out.push((48 + d) as char);
        proof {
            assert(out@ =~= old(out)@ + digits_of(n as int));
        }
    }
}

/// Run-length encode: each maximal run becomes its character followed by
/// the run length in decimal.
pub fn compress(data: &str) -> (r: String)
    ensures
        r@ == rle_spec(data@),
{
    let n: usize = data.unicode_len();
    let mut out: Vec<char> = Vec::new();
    let mut i: usize = 0;
    proof {
        assert(data@.skip(0) =~= data@);
        assert(out@ + rle_spec(data@) =~= rle_spec(data@));
    }
    while i < n
        invariant
            i <= n,
            n == data@.len(),
            out@ + rle_spec(data@.skip(i as int)) == rle_spec(data@),
        decreases n - i,
    {
        let c: char = data.get_char(i);
        let mut j: usize = i + 1;
        while j < n && data.get_char(j) == c
            invariant
                i < j <= n,
                n == data@.len(),
                c == data@[i as int],
                forall|k: int| i <= k < j ==> #[trigger] data@[k] == c,
            decreases n - j,
        {
            j = j + 1;
        }
        let ghost tail = data@.skip(i as int);
        proof {
            assert forall|k: int| 0 <= k < j - i implies #[trigger] tail[k] == tail[0] by {
                assert(data@[i + k] == c);
                assert(data@[i as int] == c);
            };
            if j < n {
                assert(tail[j - i] == data@[j as int]);
            }
            lemma_lead_run_eq(tail, j - i);
        }
        let ghost out_before = out@;
        out.push(c);
        let count: usize = j - i;
        push_digits(&mut out, count);
        proof {
            assert(rle_spec(tail) == seq![tail[0]] + digits_of(count as int) + rle_spec(
                tail.skip(count as int),
            ));
            assert(tail.skip(count as int) =~= data@.skip(j as int));
            assert(out@ =~= out_before + seq![c] + digits_of(count as int));
            assert(out@ + rle_spec(data@.skip(j as int)) =~= out_before + rle_spec(tail));
        }
        i = j;
    }
    proof {
        assert(data@.skip(n as int) =~= Seq::<char>::empty());
        assert(out@ + rle_spec(data@.skip(n as int)) =~= out@);
    }
    string_from_chars(&out)
}

/// Decode a run-length coded string; an exact inverse of `compress`.
pub fn decompress(data: &str) -> (r: Result<String, String>)
    ensures
        r matches Ok(out) ==> rld_spec(data@) == Some(out@),
        r is Err <==> rld_spec(data@) is None,
{
    let n: usize = data.unicode_len();
    let mut out: Vec<char> = Vec::new();
    let mut i: usize = 0;
    proof {
        assert(data@.skip(0) =~= data@);
        if rld_spec(data@) is Some {
            let full = rld_spec(data@)->0;
            assert(out@ + full =~= full);
        }
    }
    while i < n
        invariant
            i <= n,
            n == data@.len(),
            rld_spec(data@) == (match rld_spec(data@.skip(i as int)) {
                None => None::<Seq<char>>,
                Some(rest) => Some(out@ + rest),
            }),
        decreases n - i,
    {
        let ghost tail = data@.skip(i as int);
        let c: char = data.get_char(i);
        let mut j: usize = i + 1;
        while j < n && digit_at(data, j)
            invariant
                i + 1 <= j <= n,
                n == data@.len(),
                i < n,
                forall|k: int| i + 1 <= k < j ==> is_digit(#[trigger] data@[k]),
            decreases n - j,
        {
            j = j + 1;
        }
        let ghost d = (j - i - 1) as int;
        proof {
            assert forall|k: int| 0 <= k < d implies is_digit(#[trigger] tail.skip(1)[k]) by {
                assert(tail.skip(1)[k] == data@[i + 1 + k]);
            };
            if d < tail.skip(1).len() {
                assert(tail.skip(1)[d] == data@[j as int]);
            }
            lemma_lead_digits_eq(tail.skip(1), d);
            assert(lead_digits(tail.skip(1)) == d);
        }
        if j == i + 1 {
            // a character with no count after it
            proof {
                assert(rld_spec(tail) is None);
            }
            let count_str = data.substring_char(i + 1, j);
            return Err(
                String::from_str("Invalid count in compressed data: ").concat(count_str),
            );
        }
        let ghost digit_seq = data@.subrange(i + 1, j as int);
        proof {
            assert(digit_seq =~= tail.subrange(1, 1 + d));
            lemma_digits_val_nonneg(digit_seq);
        }
        let mut acc: usize = 0;
        let mut overflow: bool = false;
        let mut k: usize = i + 1;
        while k < j
            invariant
                i + 1 <= k <= j <= n,
                n == data@.len(),
                forall|m: int| i + 1 <= m < j ==> is_digit(#[trigger] data@[m]),
                !overflow ==> acc == digits_val(data@.subrange(i + 1, k as int)),
                overflow ==> digits_val(data@.subrange(i + 1, k as int)) > usize::MAX,
            decreases j - k,
        {
            let ch: char = data.get_char(k);
            let u: u32 = ch as u32;
            let dv: usize = (u - 48) as usize;
            let ghost prefix = data@.subrange(i + 1, k as int);
            let ghost prefix2 = data@.subrange(i + 1, k + 1);
            proof {
                assert(prefix2.drop_last() =~= prefix);
                assert(prefix2.last() == data@[k as int]);
                assert(is_digit(data@[k as int]));
                lemma_digits_val_nonneg(prefix);
                assert(digits_val(prefix2) == digits_val(prefix) * 10 + dv);
            }
            if !overflow {
                if acc > (usize::MAX - dv) / 10 {
                    overflow = true;
                    proof {
                        assert(acc * 10 + dv > usize::MAX) by (nonlinear_arith)
                            requires
                                acc > (usize::MAX - dv) / 10,
                                dv <= usize::MAX,
                                acc >= 0,
                        ;
                    }
                } else {
                    proof {
                        assert(acc * 10 + dv <= usize::MAX) by (nonlinear_arith)
                            requires
                                acc <= (usize::MAX - dv) / 10,
                                dv <= 9,
                                acc >= 0,
                        ;
                    }
                    acc = acc * 10 + dv;
                }
            } else {
                proof {
                    assert(digits_val(prefix) * 10 + dv > usize::MAX) by (nonlinear_arith)
                        requires
                            digits_val(prefix) > usize::MAX,
                            dv >= 0,
                    ;
                }
            }
            k = k + 1;
        }
        let ghost cnt = digits_val(tail.subrange(1, 1 + d));
        proof {
            assert(data@.subrange(i + 1, j as int) =~= tail.subrange(1, 1 + d));
        }
        if overflow {
            // the count does not fit in a length
            proof {
                assert(cnt > usize::MAX);
                assert(rld_spec(tail) is None);
            }
            let count_str = data.substring_char(i + 1, j);
            return Err(
                String::from_str("Invalid count in compressed data: ").concat(count_str),
            );
        }
        proof {
            assert(acc == cnt);
        }
        let ghost out_before = out@;
        let mut t: usize = 0;
        while t < acc
            invariant
                t <= acc,
                out@ == out_before + Seq::new(t as nat, |m: int| data@[i as int]),
                c == data@[i as int],
                i < n == data@.len(),
            decreases acc - t,
        {
            out.push(c);
            proof {
                assert(out@ =~= out_before + Seq::new((t + 1) as nat, |m: int| data@[i as int]));
            }
            t = t + 1;
        }
        proof {
            assert(tail.skip(1 + d) =~= data@.skip(j as int));
            assert(rld_spec(tail) == (match rld_spec(data@.skip(j as int)) {
                None => None::<Seq<char>>,
                Some(rest) => Some(Seq::new(cnt as nat, |m: int| tail[0]) + rest),
            }));
            assert(Seq::new(cnt as nat, |m: int| tail[0]) =~= Seq::new(
                cnt as nat,
                |m: int| data@[i as int],
            ));
        }
        i = j;
    }
    proof {
        assert(data@.skip(n as int) =~= Seq::<char>::empty());
    }
    Ok(string_from_chars(&out))
}

proof fn lemma_lead_run_bounds(s: Seq<char>)
    requires
        s.len() > 0,
    ensures
        1 <= lead_run(s) <= s.len(),
    decreases s.len(),
{
    if !(s.len() == 1 || s[1] != s[0]) {
        lemma_lead_run_bounds(s.drop_first());
    }
}

proof fn lemma_lead_run_prefix(s: Seq<char>, k: int)
    requires
        s.len() > 0,
        0 <= k < lead_run(s),
    ensures
        s[k] == s[0],
    decreases k,
{
    if k > 0 {
        lemma_lead_run_bounds(s);
        assert(!(s.len() == 1 || s[1] != s[0]));
        assert(lead_run(s) == 1 + lead_run(s.drop_first()));
        lemma_lead_run_prefix(s.drop_first(), k - 1);
        assert(s.drop_first()[k - 1] == s[k]);
        assert(s.drop_first()[0] == s[1]);
    }
}

proof fn lemma_digit_char_value(d: int)
    requires
        0 <= d <= 9,
    ensures
        is_digit(digit_char(d)),
        digit_char(d) as u32 == 48 + d,
{
    assert(digit_char(d) as u32 == 48 + d);
}

proof fn lemma_digits_of_are_digits(n: int)
    requires
        n >= 0,
    ensures
        digits_of(n).len() >= 1,
        forall|k: int| 0 <= k < digits_of(n).len() ==> is_digit(#[trigger] digits_of(n)[k]),
    decreases n,
{
    if n < 10 {
        lemma_digit_char_value(n);
    } else {
        lemma_digits_of_are_digits(n / 10);
        lemma_digit_char_value(n % 10);
        assert forall|k: int| 0 <= k < digits_of(n).len() implies is_digit(
            #[trigger] digits_of(n)[k],
        ) by {
            if k < digits_of(n / 10).len() {
                assert(digits_of(n)[k] == digits_of(n / 10)[k]);
            }
        };
    }
}

proof fn lemma_digits_round_trip(n: int)
    requires
        n >= 0,
    ensures
        digits_val(digits_of(n)) == n,
    decreases n,
{
    if n < 10 {
        lemma_digit_char_value(n);
        assert(digits_of(n).drop_last() =~= Seq::<char>::empty());
        assert(digits_val(Seq::<char>::empty()) == 0);
        assert(digits_of(n).last() == digit_char(n));
    } else {
        lemma_digits_round_trip(n / 10);
        lemma_digit_char_value(n % 10);
        assert(digits_of(n).drop_last() =~= digits_of(n / 10));
    }
}

proof fn lemma_lead_digits_concat(ds: Seq<char>, rest: Seq<char>)
    requires
        forall|k: int| 0 <= k < ds.len() ==> is_digit(#[trigger] ds[k]),
        rest.len() > 0 ==> !is_digit(rest[0]),
    ensures
        lead_digits(ds + rest) == ds.len(),
    decreases ds.len(),
{
    if ds.len() == 0 {
        assert(ds + rest =~= rest);
    } else {
        assert((ds + rest)[0] == ds[0]);
        assert((ds + rest).drop_first() =~= ds.drop_first() + rest);
        lemma_lead_digits_concat(ds.drop_first(), rest);
    }
}

/// The round trip: decoding an encoding gives back the original text, for
/// any text that holds no digit characters. A digit in the text would be
/// swallowed by the count in front of it when decoding, so the pair is an
/// inverse only away from digits.
pub proof fn lemma_rle_round_trip(s: Seq<char>)
    requires
        s.len() <= usize::MAX,
        forall|k: int| 0 <= k < s.len() ==> !is_digit(#[trigger] s[k]),
    ensures
        rld_spec(rle_spec(s)) == Some(s),
    decreases s.len(),
{
    if s.len() == 0 {
        assert(rle_spec(s) =~= Seq::<char>::empty());
    } else {
        lemma_lead_run_bounds(s);
        let r = lead_run(s) as int;
        assert forall|k: int| 0 <= k < r implies #[trigger] s[k] == s[0] by {
            lemma_lead_run_prefix(s, k);
        };
        let ds = digits_of(r);
        let rest = rle_spec(s.skip(r));
        let enc = rle_spec(s);
        assert(enc == seq![s[0]] + ds + rest);
        assert forall|k: int| 0 <= k < s.skip(r).len() implies !is_digit(
            #[trigger] s.skip(r)[k],
        ) by {
            assert(s.skip(r)[k] == s[r + k]);
        };
        lemma_rle_round_trip(s.skip(r));
        lemma_digits_of_are_digits(r);
        lemma_digits_round_trip(r);
        if s.skip(r).len() > 0 {
            assert(rest[0] == s.skip(r)[0]);
            assert(!is_digit(rest[0]));
        } else {
            assert(rest =~= Seq::<char>::empty());
        }
        lemma_lead_digits_concat(ds, rest);
        assert(enc.skip(1) =~= ds + rest);
        let d = ds.len() as int;
        assert(lead_digits(enc.skip(1)) == d);
        assert(enc.subrange(1, 1 + d) =~= ds);
        assert(digits_val(enc.subrange(1, 1 + d)) == r);
        assert(enc.skip(1 + d) =~= rest);
        assert(enc[0] == s[0]);
        assert(rld_spec(enc) == Some(Seq::new(r as nat, |k: int| enc[0]) + s.skip(r)));
        assert(Seq::new(r as nat, |k: int| enc[0]) + s.skip(r) =~= s);
    }
}

} // verus!

//! Text serialization of a list of integers as an ordered array literal:
//! the elements in head-to-tail order, written in decimal, separated by
//! commas and enclosed in square brackets, with no whitespace.
//!
//! Decoding accepts exactly the canonical encodings: any byte sequence
//! that is not the encoding of some list is rejected as malformed, and no
//! partial list is returned.

use crate::linked_list::LinkedList;
use vstd::prelude::*;

verus! {

/// Rejection of external data that is not a canonical array literal of
/// decimal integers in range.
#[derive(Debug, PartialEq, Eq, Structural)]
pub enum DecodeError {
    Malformed,
}

pub open spec fn is_digit(b: u8) -> bool {
    48 <= b <= 57
}

/// The decimal digits of `n`, most significant first.
pub open spec fn dec_digits(n: nat) -> Seq<u8>
    decreases n,
{
    if n < 10 {
        seq![(48 + n) as u8]
    } else {
        dec_digits(n / 10) + seq![(48 + n % 10) as u8]
    }
}

/// The canonical byte encoding of one integer: an optional minus sign,
/// then the decimal digits of the magnitude without leading zeros.
pub open spec fn int_bytes(x: int) -> Seq<u8> {
    if x < 0 {
        seq![45u8] + dec_digits((-x) as nat)
    } else {
        dec_digits(x as nat)
    }
}

/// The canonical encoding of the elements, comma-separated.
pub open spec fn encode_elems(s: Seq<i64>) -> Seq<u8>
    decreases s.len(),
{
    if s.len() == 0 {
        Seq::empty()
    } else if s.len() == 1 {
        int_bytes(s[0] as int)
    } else {
        int_bytes(s[0] as int) + seq![44u8] + encode_elems(s.drop_first())
    }
}

/// The canonical encoding of a whole element sequence: the elements,
/// comma-separated, enclosed in square brackets.
pub open spec fn encode_seq(s: Seq<i64>) -> Seq<u8> {
    seq![91u8] + encode_elems(s) + seq![93u8]
}

/// Appends the decimal digits of `n`, most significant first.
fn push_digits(out: &mut Vec<u8>, n: u64)
    ensures
        final(out)@ == old(out)@ + dec_digits(n as nat),
    decreases n,
{
    if n >= 10 {
        push_digits(out, n / 10);
    }
    out.push(48 + (n % 10) as u8);
    proof {
        if n < 10 {
            assert(out@ =~= old(out)@ + dec_digits(n as nat));
        } else {
            assert(out@ =~= old(out)@ + (dec_digits(n as nat / 10) + seq![
                (48 + n as nat % 10) as u8,
            ]));
        }
    }
}

/// Appends the canonical encoding of one integer.
fn push_int(out: &mut Vec<u8>, x: i64)
    ensures
        final(out)@ == old(out)@ + int_bytes(x as int),
{
    if x < 0 {
        out.push(45);
        let magnitude: u64 = if x == i64::MIN {
            9223372036854775808u64
        } else {
            (-x) as u64
        };
        proof {
            assert(magnitude as nat == (-(x as int)) as nat);
        }
        push_digits(out, magnitude);
        proof {
            assert(out@ =~= old(out)@ + (seq![45u8] + dec_digits((-(x as int)) as nat)));
        }
    } else {
        push_digits(out, x as u64);
    }
}

/// Appending one more element to a non-empty sequence appends a comma and
/// that element's encoding.
proof fn lemma_encode_elems_push(s: Seq<i64>, x: i64)
    requires
        s.len() >= 1,
    ensures
        encode_elems(s.push(x)) == encode_elems(s) + seq![44u8] + int_bytes(x as int),
    decreases s.len(),
{
    let s2 = s.push(x);
    if s.len() == 1 {
        assert(s2.drop_first() =~= seq![x]);
        assert(encode_elems(seq![x]) == int_bytes(x as int));
        assert(encode_elems(s2) == int_bytes(s2[0] as int) + seq![44u8] + encode_elems(
            s2.drop_first(),
        ));
        assert(encode_elems(s) == int_bytes(s[0] as int));
        assert(encode_elems(s2) =~= encode_elems(s) + seq![44u8] + int_bytes(x as int));
    } else {
        lemma_encode_elems_push(s.drop_first(), x);
        assert(s2.drop_first() =~= s.drop_first().push(x));
        assert(encode_elems(s2) == int_bytes(s2[0] as int) + seq![44u8] + encode_elems(
            s2.drop_first(),
        ));
        assert(encode_elems(s) == int_bytes(s[0] as int) + seq![44u8] + encode_elems(
            s.drop_first(),
        ));
        assert(encode_elems(s2) =~= encode_elems(s) + seq![44u8] + int_bytes(x as int));
    }
}

/// Encodes the list as an ordered array literal in head-to-tail order.
pub fn encode(list: &LinkedList<i64>) -> (r: Vec<u8>)
    ensures
        r@ == encode_seq(list@),
{
    let mut out: Vec<u8> = Vec::new();
    out.push(91);
    let mut it = list.iter();
    let mut first = true;
    let ghost mut done: Seq<i64> = Seq::empty();
    loop
        invariant
            done.len() <= list@.len(),
            it@ == list@.skip(done.len() as int),
            done == list@.take(done.len() as int),
            out@ == seq![91u8] + encode_elems(done),
            first <==> done.len() == 0,
        ensures
            it@.len() == 0,
            out@ == seq![91u8] + encode_elems(done),
            done == list@.take(done.len() as int),
            done.len() == list@.len(),
        decreases it@.len(),
    {
        match it.next() {
            None => {
                break;
            },
            Some(v) => {
                proof {
                    assert(list@.skip(done.len() as int)[0] == list@[done.len() as int]);
                    assert(*v == list@[done.len() as int]);
                }
                if !first {
                    out.push(44);
                }
                first = false;
                push_int(&mut out, *v);
                proof {
                    let prev = done;
                    done = done.push(*v);
                    assert(done =~= list@.take(done.len() as int));
                    if prev.len() == 0 {
                        assert(done =~= seq![*v]);
                        assert(out@ =~= seq![91u8] + encode_elems(done));
                    } else {
                        lemma_encode_elems_push(prev, *v);
                        assert(out@ =~= seq![91u8] + encode_elems(done));
                    }
                    assert(it@ =~= list@.skip(done.len() as int));
                }
            },
        }
    }
    out.push(93);
    proof {
        assert(done =~= list@);
        assert(out@ =~= encode_seq(list@));
    }
    out
}

/// Length of the leading run of decimal digit bytes.
pub open spec fn digit_run_len(b: Seq<u8>) -> nat
    decreases b.len(),
{
    if b.len() > 0 && is_digit(b[0]) {
        digit_run_len(b.drop_first()) + 1
    } else {
        0
    }
}

/// The value of a sequence of digit bytes read as a decimal numeral.
pub open spec fn digits_value(b: Seq<u8>) -> int
    decreases b.len(),
{
    if b.len() == 0 {
        0
    } else {
        digits_value(b.drop_last()) * 10 + (b.last() - 48)
    }
}

/// Parses a leading unsigned numeral: its value and how many bytes it
/// spans.  An empty digit run and a leading zero are rejected.
pub open spec fn parse_nat(b: Seq<u8>) -> Option<(int, nat)> {
    let k = digit_run_len(b);
    if k == 0 {
        None
    } else if b[0] == 48 && k > 1 {
        None
    } else {
        Some((digits_value(b.take(k as int)), k))
    }
}

/// Parses a leading integer: an optional minus sign, then a numeral whose
/// value fits the element type; `-0` and out-of-range values are rejected.
pub open spec fn parse_int(b: Seq<u8>) -> Option<(i64, nat)> {
    if b.len() > 0 && b[0] == 45 {
        match parse_nat(b.drop_first()) {
            None => None,
            Some((m, k)) => if 1 <= m && -m >= i64::MIN {
                Some(((-m) as i64, k + 1))
            } else {
                None
            },
        }
    } else {
        match parse_nat(b) {
            None => None,
            Some((m, k)) => if m <= i64::MAX {
                Some((m as i64, k))
            } else {
                None
            },
        }
    }
}

/// Parses `integer (',' integer)* ']'`, consuming exactly all of `b`.
pub open spec fn parse_elems(b: Seq<u8>) -> Option<Seq<i64>>
    decreases b.len(),
{
    match parse_int(b) {
        None => None,
        Some((v, k)) => {
            if k < b.len() && b[k as int] == 44 {
                match parse_elems(b.skip(k as int + 1)) {
                    None => None,
                    Some(vs) => Some(seq![v] + vs),
                }
            } else if b.len() == k + 1 && b[k as int] == 93 {
                Some(seq![v])
            } else {
                None
            }
        },
    }
}

/// Parses a whole input: exactly the canonical encodings are accepted.
pub open spec fn parse(b: Seq<u8>) -> Option<Seq<i64>> {
    if b.len() >= 2 && b[0] == 91 {
        if b.len() == 2 && b[1] == 93 {
            Some(Seq::empty())
        } else {
            parse_elems(b.drop_first())
        }
    } else {
        None
    }
}

/// The digit run is part of the sequence.
proof fn lemma_run_le_len(b: Seq<u8>)
    ensures
        digit_run_len(b) <= b.len(),
    decreases b.len(),
{
    if b.len() > 0 && is_digit(b[0]) {
        lemma_run_le_len(b.drop_first());
    }
}

/// Every byte of the leading digit run is a digit.
proof fn lemma_run_digits(b: Seq<u8>)
    ensures
        digit_run_len(b) <= b.len(),
        forall|l: int| 0 <= l < digit_run_len(b) ==> is_digit(#[trigger] b[l]),
    decreases b.len(),
{
    lemma_run_le_len(b);
    if b.len() > 0 && is_digit(b[0]) {
        lemma_run_digits(b.drop_first());
        assert forall|l: int| 0 <= l < digit_run_len(b) implies is_digit(#[trigger] b[l]) by {
            if l > 0 {
                assert(b.drop_first()[l - 1] == b[l]);
            }
        }
    }
}

/// A numeral made of digits has a non-negative value.
proof fn lemma_digits_value_nonneg(b: Seq<u8>, l: int)
    requires
        0 <= l <= b.len(),
        forall|i: int| 0 <= i < l ==> is_digit(#[trigger] b[i]),
    ensures
        digits_value(b.take(l)) >= 0,
    decreases l,
{
    if l > 0 {
        lemma_digits_value_nonneg(b, l - 1);
        assert(b.take(l).drop_last() =~= b.take(l - 1));
        assert(b.take(l).last() == b[l - 1]);
    }
}

/// Reading more digits of a numeral never decreases its value.
proof fn lemma_digits_value_monotone(b: Seq<u8>, l1: int, l2: int)
    requires
        0 <= l1 <= l2 <= b.len(),
        forall|i: int| 0 <= i < l2 ==> is_digit(#[trigger] b[i]),
    ensures
        digits_value(b.take(l1)) <= digits_value(b.take(l2)),
    decreases l2 - l1,
{
    if l1 < l2 {
        lemma_digits_value_monotone(b, l1, l2 - 1);
        lemma_digits_value_nonneg(b, l2 - 1);
        assert(b.take(l2).drop_last() =~= b.take(l2 - 1));
        assert(b.take(l2).last() == b[l2 - 1]);
    }
}

/// Returns the index just past the digit run that starts at `start`.
fn scan_digits(bytes: &[u8], start: usize) -> (r: usize)
    requires
        start <= bytes@.len(),
    ensures
        start <= r <= bytes@.len(),
        r - start == digit_run_len(bytes@.skip(start as int)),
{
    let n = bytes.len();
    let mut j = start;
    loop
        invariant
            start <= j <= n,
            n == bytes@.len(),
            digit_run_len(bytes@.skip(start as int)) == (j - start) + digit_run_len(
                bytes@.skip(j as int),
            ),
        ensures
            start <= j <= n,
            digit_run_len(bytes@.skip(start as int)) == j - start,
        decreases n - j,
    {
        if j == n {
            break;
        }
        let b = bytes[j];
        proof {
            assert(bytes@.skip(j as int)[0] == bytes@[j as int]);
        }
        if b < 48 || b > 57 {
            break;
        }
        proof {
            assert(bytes@.skip(j as int).drop_first() =~= bytes@.skip(j as int + 1));
        }
        j = j + 1;
    }
    j
}

/// Parses the integer that starts at `start`, mirroring [`parse_int`] on
/// the suffix; a successful parse also reports the index just past the
/// integer's last byte.
#[verifier::loop_isolation(false)]
fn parse_int_at(bytes: &[u8], start: usize) -> (r: Option<(i64, usize)>)
    requires
        start <= bytes@.len(),
    ensures
        (match parse_int(bytes@.skip(start as int)) {
            None => r is None,
            Some(p) => r == Some((p.0, (start + p.1) as usize)) && start < start + p.1
                <= bytes@.len(),
        }),
{
    let n = bytes.len();
    let ghost tail = bytes@.skip(start as int);
    let neg = start < n && bytes[start] == 45;
    let ds = if neg {
        start + 1
    } else {
        start
    };
    let ghost region = bytes@.skip(ds as int);
    proof {
        if neg {
            assert(tail[0] == bytes@[start as int]);
            assert(region =~= tail.drop_first());
        } else if start < n {
            assert(tail[0] == bytes@[start as int]);
        }
        lemma_run_digits(region);
    }
    let run_end = scan_digits(bytes, ds);
    let ghost k: nat = digit_run_len(region);
    if run_end == ds {
        return None;
    }
    proof {
        assert(region[0] == bytes@[ds as int]);
    }
    if bytes[ds] == 48 && run_end - ds > 1 {
        return None;
    }
    let mut m: u128 = 0;
    let mut j = ds;
    while j < run_end
        invariant
            ds <= j <= run_end,
            run_end - ds == k,
            ds <= n,
            run_end <= n,
            n == bytes@.len(),
            region == bytes@.skip(ds as int),
            k == digit_run_len(region),
            forall|l: int| 0 <= l < k ==> is_digit(#[trigger] region[l]),
            k >= 1,
            !(region[0] == 48 && k > 1),
            m == digits_value(region.take(j - ds)),
            m <= 9223372036854775808u128,
        decreases run_end - j,
    {
        let d = bytes[j];
        proof {
            assert(region[j - ds] == bytes@[j as int]);
            assert(region.take(j - ds + 1).drop_last() =~= region.take(j - ds));
            assert(region.take(j - ds + 1).last() == region[j - ds]);
        }
        let m2: u128 = m * 10 + (d - 48) as u128;
        if m2 > 9223372036854775808u128 {
            proof {
                assert(digits_value(region.take(j - ds + 1)) == m as int * 10 + (d - 48));
                lemma_digits_value_monotone(region, j - ds + 1, k as int);
                assert(parse_nat(region) == Some((digits_value(region.take(k as int)), k)));
                assert(digits_value(region.take(k as int)) > 9223372036854775808);
            }
            return None;
        }
        m = m2;
        j = j + 1;
    }
    proof {
        assert(region.take(k as int) == region.take(run_end - ds));
        assert(parse_nat(region) == Some((m as int, k)));
    }
    if neg {
        if m == 0 {
            return None;
        }
        if m == 9223372036854775808u128 {
            return Some((i64::MIN, run_end));
        }
        Some((0i64 - (m as i64), run_end))
    } else {
        if m > 9223372036854775807u128 {
            return None;
        }
        Some((m as i64, run_end))
    }
}

/// Decodes an ordered array literal into a list whose head-to-tail order
/// equals the literal's order: each element is prepended in encounter
/// order and the accumulator is reversed once at the end.  Exactly the
/// inputs on which [`parse`] succeeds are accepted; on any other input
/// the decode fails and no partial list is returned.
#[verifier::loop_isolation(false)]
pub fn decode(bytes: &[u8]) -> (r: Result<LinkedList<i64>, DecodeError>)
    ensures
        (match parse(bytes@) {
            Some(s) => r matches Ok(l) && l@ == s,
            None => r == Err::<LinkedList<i64>, DecodeError>(DecodeError::Malformed),
        }),
{
    let n = bytes.len();
    if n < 2 || bytes[0] != 91 {
        return Err(DecodeError::Malformed);
    }
    if n == 2 && bytes[1] == 93 {
        return Ok(LinkedList::new());
    }
    let mut acc: LinkedList<i64> = LinkedList::new();
    let mut i: usize = 1;
    proof {
        assert(bytes@.skip(1) =~= bytes@.drop_first());
    }
    loop
        invariant
            1 <= i <= n,
            (match parse_elems(bytes@.skip(i as int)) {
                Some(vs) => parse(bytes@) == Some(acc@.reverse() + vs),
                None => parse(bytes@) is None,
            }),
        decreases n - i,
    {
        let ghost suffix = bytes@.skip(i as int);
        match parse_int_at(bytes, i) {
            None => {
                return Err(DecodeError::Malformed);
            },
            Some((v, j)) => {
                proof {
                    assert(parse_int(suffix) is Some);
                    if j < n {
                        assert(suffix[j - i] == bytes@[j as int]);
                    }
                }
                let ghost acc_pre = acc@;
                if j < n && bytes[j] == 44 {
                    acc.cons(v);
                    proof {
                        assert(suffix.skip(j - i + 1) =~= bytes@.skip(j + 1));
                        assert(acc@.reverse() =~= acc_pre.reverse() + seq![v]);
                        let pe = parse_elems(bytes@.skip(j + 1));
                        if pe is Some {
                            assert(parse_elems(suffix) == Some(seq![v] + pe.unwrap()));
                            assert(acc_pre.reverse() + (seq![v] + pe.unwrap()) =~= acc@.reverse()
                                + pe.unwrap());
                        } else {
                            assert(parse_elems(suffix) is None);
                        }
                    }
                    i = j + 1;
                } else if j == n - 1 && bytes[j] == 93 {
                    acc.cons(v);
                    proof {
                        assert(parse_elems(suffix) == Some(seq![v]));
                        assert(acc@.reverse() =~= acc_pre.reverse() + seq![v]);
                        assert(acc_pre.reverse() + seq![v] =~= acc@.reverse());
                        assert(acc@.reverse().reverse() =~= acc@);
                    }
                    let done = acc.reverse();
                    return Ok(done);
                } else {
                    proof {
                        assert(parse_elems(suffix) is None);
                    }
                    return Err(DecodeError::Malformed);
                }
            },
        }
    }
}

/// Shape of a numeral's canonical digits: at least one digit, all bytes
/// digits, and no leading zero unless the value is zero.
proof fn lemma_dec_digits_props(n: nat)
    ensures
        dec_digits(n).len() >= 1,
        forall|i: int| 0 <= i < dec_digits(n).len() ==> is_digit(#[trigger] dec_digits(n)[i]),
        n >= 1 ==> dec_digits(n)[0] != 48,
        digits_value(dec_digits(n)) == n,
    decreases n,
{
    if n < 10 {
        assert(dec_digits(n) =~= seq![(48 + n) as u8]);
        assert(dec_digits(n).drop_last() =~= Seq::<u8>::empty());
        assert(dec_digits(n).last() == (48 + n) as u8);
        assert((48 + n) as u8 == 48 + n);
        assert(digits_value(Seq::<u8>::empty()) == 0);
    } else {
        lemma_dec_digits_props(n / 10);
        let d = dec_digits(n / 10);
        let whole = dec_digits(n);
        assert(whole == d + seq![(48 + n % 10) as u8]);
        assert(whole[0] == d[0]);
        assert forall|i: int| 0 <= i < whole.len() implies is_digit(#[trigger] whole[i]) by {
            if i < d.len() {
                assert(whole[i] == d[i]);
            }
        }
        assert(whole.drop_last() =~= d);
        assert(whole.last() == (48 + n % 10) as u8);
        assert(digits_value(whole) == digits_value(d) * 10 + (n % 10));
    }
}

/// A run of digits followed by a non-digit scans as exactly that run.
proof fn lemma_run_of_digits(d: Seq<u8>, rest: Seq<u8>)
    requires
        forall|i: int| 0 <= i < d.len() ==> is_digit(#[trigger] d[i]),
        rest.len() == 0 || !is_digit(rest[0]),
    ensures
        digit_run_len(d + rest) == d.len(),
    decreases d.len(),
{
    if d.len() == 0 {
        assert(d + rest =~= rest);
        assert(digit_run_len(rest) == 0);
    } else {
        lemma_run_of_digits(d.drop_first(), rest);
        assert((d + rest)[0] == d[0]);
        assert((d + rest).drop_first() =~= d.drop_first() + rest);
    }
}

/// A canonical numeral followed by a non-digit parses back to its value.
proof fn lemma_parse_nat_of_encoding(m: nat, rest: Seq<u8>)
    requires
        rest.len() == 0 || !is_digit(rest[0]),
    ensures
        parse_nat(dec_digits(m) + rest) == Some((m as int, dec_digits(m).len() as nat)),
{
    let d = dec_digits(m);
    lemma_dec_digits_props(m);
    lemma_run_of_digits(d, rest);
    let b = d + rest;
    assert(b[0] == d[0]);
    if m == 0 {
        assert(d =~= seq![48u8]);
    }
    assert(b.take(d.len() as int) =~= d);
}

/// A canonical integer encoding followed by a non-digit parses back to
/// its value, consuming exactly the encoding.
proof fn lemma_parse_int_of_encoding(x: i64, rest: Seq<u8>)
    requires
        rest.len() >= 1,
        !is_digit(rest[0]),
        rest[0] != 45,
    ensures
        parse_int(int_bytes(x as int) + rest) == Some((x, int_bytes(x as int).len() as nat)),
{
    let b = int_bytes(x as int) + rest;
    if x < 0 {
        let m = (-(x as int)) as nat;
        lemma_dec_digits_props(m);
        assert(b[0] == 45);
        assert(b.drop_first() =~= dec_digits(m) + rest);
        lemma_parse_nat_of_encoding(m, rest);
        assert((-(m as int)) as i64 == x);
        assert(int_bytes(x as int).len() == dec_digits(m).len() + 1);
    } else {
        let m = x as nat;
        lemma_dec_digits_props(m);
        assert(b[0] == dec_digits(m)[0]);
        assert(is_digit(b[0]));
        assert(b[0] != 45);
        assert(b =~= dec_digits(m) + rest);
        lemma_parse_nat_of_encoding(m, rest);
    }
}

/// The body of a canonical encoding, closed by the bracket, parses back
/// to exactly the encoded elements.
proof fn lemma_parse_elems_of_encoding(s: Seq<i64>)
    requires
        s.len() >= 1,
    ensures
        parse_elems(encode_elems(s) + seq![93u8]) == Some(s),
    decreases s.len(),
{
    let b = encode_elems(s) + seq![93u8];
    let head = int_bytes(s[0] as int);
    if s.len() == 1 {
        lemma_parse_int_of_encoding(s[0], seq![93u8]);
        assert(b =~= head + seq![93u8]);
        let k = head.len() as int;
        assert(b[k] == 93);
        assert(b.len() == k + 1);
        assert(seq![s[0]] =~= s);
    } else {
        let tail_enc = encode_elems(s.drop_first()) + seq![93u8];
        let rest = seq![44u8] + tail_enc;
        assert(b =~= head + rest);
        lemma_parse_int_of_encoding(s[0], rest);
        let k = head.len() as int;
        assert(b[k] == rest[0]);
        assert(rest[0] == 44);
        assert(k < b.len());
        lemma_parse_elems_of_encoding(s.drop_first());
        assert(b.skip(k + 1) =~= tail_enc);
        assert(seq![s[0]] + s.drop_first() =~= s);
    }
}

/// The round-trip law: decoding the canonical encoding of any element
/// sequence succeeds and yields that sequence, so decoding the encoding
/// of a list rebuilds a list with the same head-to-tail elements.
pub proof fn lemma_round_trip(s: Seq<i64>)
    ensures
        parse(encode_seq(s)) == Some(s),
{
    let b = encode_seq(s);
    assert(b[0] == 91);
    if s.len() == 0 {
        assert(b =~= seq![91u8, 93u8]);
        assert(Seq::<i64>::empty() =~= s);
    } else {
        lemma_dec_digits_props(if s[0] >= 0 {
            s[0] as nat
        } else {
            (-(s[0] as int)) as nat
        });
        assert(encode_elems(s).len() >= 1);
        assert(b.len() >= 3);
        assert(b.drop_first() =~= encode_elems(s) + seq![93u8]);
        lemma_parse_elems_of_encoding(s);
    }
}

/// A digit string without a leading zero is the canonical digit string
/// of its own value.
proof fn lemma_dec_digits_of_value(d: Seq<u8>)
    requires
        d.len() >= 1,
        forall|i: int| 0 <= i < d.len() ==> is_digit(#[trigger] d[i]),
        d.len() > 1 ==> d[0] != 48,
    ensures
        digits_value(d) >= 0,
        dec_digits(digits_value(d) as nat) == d,
    decreases d.len(),
{
    lemma_digits_value_nonneg(d, d.len() as int);
    assert(d.take(d.len() as int) =~= d);
    if d.len() == 1 {
        assert(d.drop_last() =~= Seq::<u8>::empty());
        assert(digits_value(Seq::<u8>::empty()) == 0);
        assert(d.last() == d[0]);
        assert(digits_value(d) == d[0] - 48);
        assert(dec_digits((d[0] - 48) as nat) =~= seq![d[0]]);
        assert(seq![d[0]] =~= d);
    } else {
        let d0 = d.drop_last();
        assert(d0[0] == d[0]);
        assert forall|i: int| 0 <= i < d0.len() implies is_digit(#[trigger] d0[i]) by {
            assert(d0[i] == d[i]);
        }
        lemma_dec_digits_of_value(d0);
        assert(d.take(1).drop_last() =~= Seq::<u8>::empty());
        assert(d.take(1).last() == d[0]);
        assert(digits_value(Seq::<u8>::empty()) == 0);
        assert(digits_value(d.take(1)) == d[0] - 48);
        lemma_digits_value_monotone(d, 1, d.len() - 1);
        assert(d.take(d.len() - 1) =~= d0);
        assert(digits_value(d0) >= d[0] - 48);
        let whole = digits_value(d);
        assert(whole == digits_value(d0) * 10 + (d.last() - 48));
        assert(whole >= 10);
        assert(whole as nat / 10 == digits_value(d0));
        assert(whole as nat % 10 == d.last() - 48);
        assert(dec_digits(whole as nat) == dec_digits(digits_value(d0) as nat) + seq![
            (48 + whole as nat % 10) as u8,
        ]);
        assert(dec_digits(whole as nat) =~= d0 + seq![d.last()]);
        assert(d0 + seq![d.last()] =~= d);
    }
}

/// A successful integer parse consumed exactly the canonical encoding of
/// the value it returned.
proof fn lemma_parse_int_sound(b: Seq<u8>)
    requires
        parse_int(b) is Some,
    ensures
        ({
            let (v, k) = parse_int(b).unwrap();
            1 <= k <= b.len() && b.take(k as int) == int_bytes(v as int)
        }),
{
    lemma_run_digits(b);
    if b.len() > 0 && b[0] == 45 {
        let rest = b.drop_first();
        lemma_run_digits(rest);
        let k0 = digit_run_len(rest);
        let run = rest.take(k0 as int);
        assert forall|i: int| 0 <= i < run.len() implies is_digit(#[trigger] run[i]) by {
            assert(run[i] == rest[i]);
        }
        if k0 > 1 {
            assert(run[0] == rest[0]);
        }
        lemma_dec_digits_of_value(run);
        let (v, k) = parse_int(b).unwrap();
        assert(dec_digits(digits_value(run) as nat) == run);
        assert((-(v as int)) as nat == digits_value(run));
        assert(b.take(k as int) =~= seq![45u8] + run);
    } else {
        let k0 = digit_run_len(b);
        let run = b.take(k0 as int);
        assert forall|i: int| 0 <= i < run.len() implies is_digit(#[trigger] run[i]) by {
            assert(run[i] == b[i]);
        }
        if k0 > 1 {
            assert(run[0] == b[0]);
        }
        lemma_dec_digits_of_value(run);
        let (v, k) = parse_int(b).unwrap();
        assert(v as int == digits_value(run));
        assert(b.take(k as int) == int_bytes(v as int));
    }
}

/// A successful element parse consumed exactly the canonical encoding of
/// the elements it returned, closed by the bracket.
proof fn lemma_parse_elems_sound(b: Seq<u8>)
    requires
        parse_elems(b) is Some,
    ensures
        parse_elems(b).unwrap().len() >= 1,
        encode_elems(parse_elems(b).unwrap()) + seq![93u8] == b,
    decreases b.len(),
{
    let (v, k) = parse_int(b).unwrap();
    lemma_parse_int_sound(b);
    if k < b.len() && b[k as int] == 44 {
        let tail = b.skip(k as int + 1);
        lemma_parse_elems_sound(tail);
        let vs = parse_elems(tail).unwrap();
        let s = parse_elems(b).unwrap();
        assert(s == seq![v] + vs);
        assert(s[0] == v);
        assert(s.drop_first() =~= vs);
        assert(encode_elems(s) == int_bytes(v as int) + seq![44u8] + encode_elems(vs));
        assert(encode_elems(s) + seq![93u8] =~= b.take(k as int) + seq![b[k as int]] + (
        encode_elems(vs) + seq![93u8]));
        assert(b.take(k as int) + seq![b[k as int]] + tail =~= b);
    } else {
        let s = parse_elems(b).unwrap();
        assert(s =~= seq![v]);
        assert(encode_elems(s) == int_bytes(v as int));
        assert(encode_elems(s) + seq![93u8] =~= b.take(k as int) + seq![b[k as int]]);
        assert(b.take(k as int) + seq![b[k as int]] =~= b);
    }
}

/// The soundness law: whatever the parser accepts is the canonical
/// encoding of what it returned, so decoding accepts nothing but the
/// canonical encodings.
pub proof fn lemma_parse_sound(b: Seq<u8>)
    requires
        parse(b) is Some,
    ensures
        encode_seq(parse(b).unwrap()) == b,
{
    if b.len() == 2 && b[1] == 93 {
        assert(encode_seq(Seq::empty()) =~= seq![91u8, 93u8]);
        assert(seq![91u8, 93u8] =~= b);
    } else {
        let inner = b.drop_first();
        lemma_parse_elems_sound(inner);
        let s = parse(b).unwrap();
        assert(encode_elems(s) + seq![93u8] == inner);
        assert(encode_seq(s) =~= seq![91u8] + inner);
        assert(seq![91u8] + inner =~= b);
    }
}

} // verus!

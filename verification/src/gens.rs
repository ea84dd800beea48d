use vstd::prelude::*;
use vstd::multiset::Multiset;
use vstd::string::StrSliceExecFns;
use vstd::utf8::decode_utf8;
use vstd::utf8::decode_utf8_encode_utf8;
use vstd::utf8::encode_utf8;
use vstd::utf8::is_leading_byte_width_1;
use vstd::utf8::partial_valid_utf8;
use vstd::utf8::partial_valid_utf8_extend_ascii_block;
use vstd::utf8::valid_utf8;
use crate::codec::string_from_utf8;

verus! {

broadcast use vstd::seq_lib::group_to_multiset_ensures;

/// A decimal digit, as the byte that spells it.
pub open spec fn is_digit_byte(b: u8) -> bool {
    48 <= b <= 57
}

/// The decimal spelling of a number, as bytes, with no leading zeros.
pub open spec fn dec_bytes(n: nat) -> Seq<u8>
    decreases n,
{
    if n < 10 {
        seq![(n + 48) as u8]
    } else {
        dec_bytes(n / 10).push(((n % 10) + 48) as u8)
    }
}

/// The number a run of digit bytes spells.
pub open spec fn dec_val(d: Seq<u8>) -> int
    decreases d.len(),
{
    if d.len() == 0 {
        0
    } else {
        dec_val(d.drop_last()) * 10 + (d.last() - 48)
    }
}

/// A generation's spelling: at least one digit, and no leading zero.
pub open spec fn valid_digits(d: Seq<u8>) -> bool {
    &&& d.len() >= 1
    &&& forall|i: int| 0 <= i < d.len() ==> is_digit_byte(#[trigger] d[i])
    &&& (d.len() == 1 || d[0] != 48)
}

/// The name of a generation's segment file: its decimal spelling followed by
/// `.log`, as bytes.
pub open spec fn gen_name_bytes(g: nat) -> Seq<u8> {
    dec_bytes(g) + seq![46u8, 108u8, 111u8, 103u8]
}

/// The generation a file name denotes, if any: the name must be a digit run
/// with no leading zero, denoting a number a `u64` can hold, followed by
/// `.log`. Any other name denotes no generation.
pub open spec fn parse_gen(b: Seq<u8>) -> Option<u64> {
    let n = b.len() as int;
    if n >= 5 && b[n - 4] == 46 && b[n - 3] == 108 && b[n - 2] == 111 && b[n - 1] == 103
        && valid_digits(b.subrange(0, n - 4)) && dec_val(b.subrange(0, n - 4)) <= u64::MAX {
        Some(dec_val(b.subrange(0, n - 4)) as u64)
    } else {
        None
    }
}

/// A decimal spelling is digits, starts with a zero only for zero itself,
/// and spells the number it was made from.
pub proof fn lemma_dec_bytes(n: nat)
    ensures
        dec_bytes(n).len() >= 1,
        forall|i: int| 0 <= i < dec_bytes(n).len() ==> is_digit_byte(#[trigger] dec_bytes(n)[i]),
        dec_bytes(n)[0] == 48 <==> n == 0,
        dec_val(dec_bytes(n)) == n,
        valid_digits(dec_bytes(n)),
    decreases n,
{
    if n < 10 {
        assert(dec_bytes(n) == seq![(n + 48) as u8]);
        assert(dec_val(dec_bytes(n)) == dec_val(dec_bytes(n).drop_last()) * 10 + (dec_bytes(
            n,
        ).last() - 48));
        assert(dec_bytes(n).drop_last() =~= Seq::<u8>::empty());
    } else {
        lemma_dec_bytes(n / 10);
        let d = ((n % 10) + 48) as u8;
        assert(dec_bytes(n) == dec_bytes(n / 10).push(d));
        assert(dec_bytes(n).drop_last() =~= dec_bytes(n / 10));
        assert(dec_bytes(n).last() == d);
        assert(dec_val(dec_bytes(n)) == (n / 10) * 10 + n % 10);
        assert((n / 10) * 10 + n % 10 == n) by (nonlinear_arith);
        assert(dec_bytes(n)[0] == dec_bytes(n / 10)[0]);
    }
}

/// Distinct numbers have distinct spellings (no leading zeros allowed).
pub proof fn lemma_parse_gen_name(g: u64)
    ensures
        parse_gen(gen_name_bytes(g as nat)) == Some(g),
{
    lemma_dec_bytes(g as nat);
    let b = gen_name_bytes(g as nat);
    let n = b.len() as int;
    assert(b.subrange(0, n - 4) =~= dec_bytes(g as nat));
    assert(b[n - 4] == 46 && b[n - 3] == 108 && b[n - 2] == 111 && b[n - 1] == 103);
}

/// Bytes that are all ASCII are a valid UTF-8 encoding.
pub proof fn lemma_ascii_valid_utf8(b: Seq<u8>)
    requires
        forall|i: int| 0 <= i < b.len() ==> #[trigger] b[i] < 128,
    ensures
        valid_utf8(b),
{
    assert forall|i: int| 0 <= i < b.len() implies is_leading_byte_width_1(#[trigger] b[i]) by {
        assert(b[i] < 128);
    }
    assert(b.subrange(0, 0) =~= Seq::<u8>::empty());
    assert(partial_valid_utf8(b, 0));
    partial_valid_utf8_extend_ascii_block(b, 0, b.len() as int);
    assert(b.subrange(0, b.len() as int) =~= b);
}

/// The file name of a generation's segment: its decimal spelling followed by
/// `.log`.
pub fn log_path(gen: u64) -> (r: String)
    ensures
        encode_utf8(r@) == gen_name_bytes(gen as nat),
        r@ == decode_utf8(gen_name_bytes(gen as nat)),
{
    let mut bytes: Vec<u8> = Vec::new();
    if gen == 0 {
        bytes.push(48u8);
        proof {
            assert(bytes@ =~= dec_bytes(gen as nat));
        }
    } else {
        let mut rev: Vec<u8> = Vec::new();
        let mut n: u64 = gen;
        proof {
            assert(dec_bytes(gen as nat) =~= dec_bytes(n as nat) + rev@.reverse());
        }
        while n > 0
            invariant
                n > 0 ==> dec_bytes(gen as nat) == dec_bytes(n as nat) + rev@.reverse(),
                n == 0 ==> dec_bytes(gen as nat) == rev@.reverse(),
                n == 0 ==> rev@.len() >= 1,
            decreases n,
        {
            let ghost old_rev = rev@;
            let ghost old_n = n as nat;
            let d: u8 = (n % 10) as u8 + 48;
            rev.push(d);
            n = n / 10;
            proof {
                assert(rev@.reverse() =~= seq![d] + old_rev.reverse());
                if old_n < 10 {
                    assert(dec_bytes(old_n) =~= seq![d]);
                    assert(dec_bytes(old_n) + old_rev.reverse() =~= rev@.reverse());
                } else {
                    assert(dec_bytes(old_n) == dec_bytes(old_n / 10).push(d));
                    assert(dec_bytes(old_n) + old_rev.reverse() =~= dec_bytes(n as nat)
                        + rev@.reverse());
                }
            }
        }
        let m = rev.len();
        let mut i: usize = m;
        while i > 0
            invariant
                i <= m,
                m == rev@.len(),
                bytes@.len() == m - i,
                forall|j: int| 0 <= j < bytes@.len() ==> bytes@[j] == rev@[m - 1 - j],
            decreases i,
        {
            i = i - 1;
            bytes.push(rev[i]);
        }
        proof {
            assert(bytes@ =~= rev@.reverse());
        }
    }
    proof {
        lemma_dec_bytes(gen as nat);
    }
    bytes.push(46u8);
    bytes.push(108u8);
    bytes.push(111u8);
    bytes.push(103u8);
    proof {
        assert(bytes@ =~= gen_name_bytes(gen as nat));
        assert forall|i: int| 0 <= i < bytes@.len() implies #[trigger] bytes@[i] < 128 by {
            if i < bytes@.len() - 4 {
                assert(bytes@[i] == dec_bytes(gen as nat)[i]);
            }
        }
        lemma_ascii_valid_utf8(bytes@);
    }
    match string_from_utf8(bytes) {
        Some(s) => {
            proof {
                decode_utf8_encode_utf8(gen_name_bytes(gen as nat));
            }
            s
        },
        None => {
            proof {
                assert(false);
            }
            String::new()
        },
    }
}

/// The generation a segment file's name denotes, if any.
pub fn parse_gen_file_name(name: &str) -> (r: Option<u64>)
    ensures
        r == parse_gen(encode_utf8(name@)),
{
    let b = name.as_bytes_vec();
    let n = b.len();
    if n < 5 {
        return None;
    }
    if !(b[n - 4] == 46 && b[n - 3] == 108 && b[n - 2] == 111 && b[n - 1] == 103) {
        return None;
    }
    let dlen = n - 4;
    let ghost digits = b@.subrange(0, dlen as int);
    if dlen > 1 && b[0] == 48 {
        return None;
    }
    let mut val: u64 = 0;
    let mut i: usize = 0;
    while i < dlen
        invariant
            i <= dlen,
            dlen == n - 4 < n == b@.len(),
            b@ == encode_utf8(name@),
            digits == b@.subrange(0, dlen as int),
            forall|j: int| 0 <= j < i ==> is_digit_byte(#[trigger] digits[j]),
            val == dec_val(digits.subrange(0, i as int)),
        decreases dlen - i,
    {
        let c = b[i];
        if c < 48 || c > 57 {
            proof {
                assert(!is_digit_byte(digits[i as int]));
                assert(!valid_digits(digits));
            }
            return None;
        }
        let d: u64 = (c - 48) as u64;
        let ghost pre = digits.subrange(0, i as int);
        proof {
            assert(digits.subrange(0, i + 1).drop_last() =~= pre);
            assert(digits.subrange(0, i + 1).last() == digits[i as int]);
        }
        if val > u64::MAX / 10 || (val == u64::MAX / 10 && d > u64::MAX % 10) {
            proof {
                assert(dec_val(digits.subrange(0, i + 1)) > u64::MAX) by (nonlinear_arith)
                    requires
                        dec_val(digits.subrange(0, i + 1)) == dec_val(pre) * 10 + d,
                        dec_val(pre) == val,
                        val > u64::MAX / 10 || (val == u64::MAX / 10 && d > u64::MAX % 10),
                        0 <= d <= 9,
                        val <= u64::MAX,
                ;
                if valid_digits(digits) {
                    lemma_dec_val_overflow(digits, i + 1);
                }
            }
            return None;
        }
        val = val * 10 + d;
        i = i + 1;
    }
    proof {
        assert(digits.subrange(0, dlen as int) =~= digits);
        assert(valid_digits(digits));
    }
    Some(val)
}

/// Once a digit prefix spells a number too big for a `u64`, the whole run
/// does too.
proof fn lemma_dec_val_overflow(d: Seq<u8>, i: int)
    requires
        0 <= i <= d.len(),
        forall|j: int| 0 <= j < d.len() ==> is_digit_byte(#[trigger] d[j]),
        dec_val(d.subrange(0, i)) > u64::MAX,
    ensures
        dec_val(d) > u64::MAX,
    decreases d.len() - i,
{
    if i == d.len() {
        assert(d.subrange(0, i) =~= d);
    } else {
        assert(d.subrange(0, i + 1).drop_last() =~= d.subrange(0, i));
        assert(d.subrange(0, i + 1).last() == d[i]);
        let v = dec_val(d.subrange(0, i));
        assert(dec_val(d.subrange(0, i + 1)) == v * 10 + (d[i] - 48));
        assert(v * 10 + (d[i] - 48) > u64::MAX) by (nonlinear_arith)
            requires
                v > u64::MAX,
                48 <= d[i] <= 57,
        ;
        lemma_dec_val_overflow(d, i + 1);
    }
}

/// The generations that a list of file names denotes, in the order listed:
/// names that denote no generation are passed over.
pub open spec fn parsed_gens(names: Seq<Seq<char>>) -> Seq<u64>
    decreases names.len(),
{
    if names.len() == 0 {
        Seq::empty()
    } else {
        parsed_gens(names.drop_last()) + match parse_gen(encode_utf8(names.last())) {
            Some(g) => seq![g],
            None => Seq::empty(),
        }
    }
}

/// The generations present in a directory listing, in ascending numeric
/// order: each file name of the form `<generation>.log` contributes its
/// generation.
pub fn sorted_gen_list(names: &Vec<String>) -> (r: Vec<u64>)
    ensures
        forall|i: int, j: int| 0 <= i <= j < r@.len() ==> r@[i] <= r@[j],
        r@.to_multiset() == parsed_gens(names@.map_values(|s: String| s@)).to_multiset(),
{
    let ghost views = names@.map_values(|s: String| s@);
    let mut found: Vec<u64> = Vec::new();
    let mut i: usize = 0;
    proof {
        assert(views.subrange(0, 0) =~= Seq::<Seq<char>>::empty());
    }
    while i < names.len()
        invariant
            i <= names@.len(),
            views == names@.map_values(|s: String| s@),
            found@ == parsed_gens(views.subrange(0, i as int)),
        decreases names@.len() - i,
    {
        let ghost pre = views.subrange(0, i as int);
        proof {
            assert(views.subrange(0, i + 1).drop_last() =~= pre);
            assert(views.subrange(0, i + 1).last() == views[i as int]);
        }
        match parse_gen_file_name(names[i].as_str()) {
            Some(g) => {
                found.push(g);
                proof {
                    assert(found@ =~= parsed_gens(pre) + seq![g]);
                }
            },
            None => {
                proof {
                    assert(found@ =~= parsed_gens(pre) + Seq::<u64>::empty());
                }
            },
        }
        i = i + 1;
    }
    proof {
        assert(views.subrange(0, views.len() as int) =~= views);
    }
    sort_u64(found)
}

/// Sorts ascending, keeping exactly the given elements.
fn sort_u64(src: Vec<u64>) -> (r: Vec<u64>)
    ensures
        forall|i: int, j: int| 0 <= i <= j < r@.len() ==> r@[i] <= r@[j],
        r@.to_multiset() == src@.to_multiset(),
{
    let mut rest = src;
    let mut out: Vec<u64> = Vec::new();
    while rest.len() > 0
        invariant
            out@.to_multiset().add(rest@.to_multiset()) == src@.to_multiset(),
            forall|i: int, j: int| 0 <= i <= j < out@.len() ==> out@[i] <= out@[j],
            forall|i: int, j: int|
                0 <= i < out@.len() && 0 <= j < rest@.len() ==> out@[i] <= rest@[j],
        decreases rest@.len(),
    {
        let mut m: usize = 0;
        let mut k: usize = 1;
        while k < rest.len()
            invariant
                m < k <= rest@.len(),
                rest@.len() > 0,
                forall|j: int| 0 <= j < k ==> rest@[m as int] <= rest@[j],
            decreases rest@.len() - k,
        {
            if rest[k] < rest[m] {
                m = k;
            }
            k = k + 1;
        }
        let ghost old_out = out@;
        let ghost old_rest = rest@;
        let x = rest.remove(m);
        out.push(x);
        proof {
            assert(out@ == old_out.push(x));
            assert(out@.to_multiset() =~= old_out.to_multiset().insert(x));
            assert(rest@ == old_rest.remove(m as int));
            assert(rest@.to_multiset() =~= old_rest.to_multiset().remove(x));
            assert(old_rest.contains(x));
            assert(old_rest.to_multiset().count(x) > 0);
            assert(old_rest.to_multiset() =~= rest@.to_multiset().insert(x));
            assert(out@.to_multiset().add(rest@.to_multiset()) =~= old_out.to_multiset().add(
                old_rest.to_multiset(),
            ));
            assert forall|i: int, j: int|
                0 <= i < out@.len() && 0 <= j < rest@.len() implies out@[i] <= rest@[j] by {
                if i < old_out.len() {
                    if j < m {
                        assert(rest@[j] == old_rest[j]);
                    } else {
                        assert(rest@[j] == old_rest[j + 1]);
                    }
                } else {
                    assert(out@[i] == x);
                    if j < m {
                        assert(rest@[j] == old_rest[j]);
                    } else {
                        assert(rest@[j] == old_rest[j + 1]);
                    }
                }
            }
        }
    }
    proof {
        assert(rest@.to_multiset() =~= Multiset::<u64>::empty());
        assert(out@.to_multiset() =~= src@.to_multiset());
    }
    out
}

} // verus!

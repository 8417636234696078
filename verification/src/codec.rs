//! The self-describing binary encoding used for everything the store puts on
//! a wire or in a run's data file: timestamped values, run indexes, and
//! server responses. Every encoder has a matching decoder and a proved
//! round trip.

use vstd::prelude::*;

use crate::value::{Value, ValueView, TimeStampedValue, TsvView};

verus! {

/// 256 to the power k.
pub open spec fn pow256(k: nat) -> nat
    decreases k,
{
    if k == 0 {
        1nat
    } else {
        256 * pow256((k - 1) as nat)
    }
}

/// The k little-endian base-256 digits of n.
pub open spec fn le_bytes(n: nat, k: nat) -> Seq<u8>
    decreases k,
{
    if k == 0 {
        Seq::empty()
    } else {
        seq![(n % 256) as u8] + le_bytes(n / 256, (k - 1) as nat)
    }
}

/// The number that a little-endian digit sequence denotes.
pub open spec fn from_le(s: Seq<u8>) -> nat
    decreases s.len(),
{
    if s.len() == 0 {
        0nat
    } else {
        (s[0] + 256 * from_le(s.drop_first())) as nat
    }
}

pub proof fn lemma_le_bytes_len(n: nat, k: nat)
    ensures
        le_bytes(n, k).len() == k,
    decreases k,
{
    if k > 0 {
        lemma_le_bytes_len(n / 256, (k - 1) as nat);
    }
}

pub proof fn lemma_from_le_bound(s: Seq<u8>)
    ensures
        from_le(s) < pow256(s.len()),
    decreases s.len(),
{
    if s.len() > 0 {
        lemma_from_le_bound(s.drop_first());
    }
}

/// Round trip: reading back the k digits of any n below 256^k yields n.
pub proof fn lemma_le_round_trip(n: nat, k: nat)
    requires
        n < pow256(k),
    ensures
        from_le(le_bytes(n, k)) == n,
    decreases k,
{
    if k > 0 {
        lemma_le_bytes_len(n / 256, (k - 1) as nat);
        assert(le_bytes(n, k).drop_first() =~= le_bytes(n / 256, (k - 1) as nat));
        lemma_le_round_trip(n / 256, (k - 1) as nat);
    }
}

/// Appends the k little-endian digits of n to out. n must fit in k digits.
pub fn encode_le(n: u128, k: usize, out: &mut Vec<u8>)
    requires
        n < pow256(k as nat),
    ensures
        final(out)@ == old(out)@ + le_bytes(n as nat, k as nat),
{
    let ghost complete = le_bytes(n as nat, k as nat);
    let mut cur: u128 = n;
    let mut i: usize = 0;
    proof {
        assert(old(out)@ + complete =~= out@ + le_bytes(cur as nat, (k - i) as nat));
    }
    while i < k
        invariant
            i <= k,
            old(out)@ + complete =~= out@ + le_bytes(cur as nat, (k - i) as nat),
        decreases k - i,
    {
        let b: u8 = (cur % 256) as u8;
        proof {
            assert(le_bytes(cur as nat, (k - i) as nat) =~= seq![b] + le_bytes(
                cur as nat / 256,
                (k - i - 1) as nat,
            ));
            assert(out@ + le_bytes(cur as nat, (k - i) as nat) =~= out@.push(b) + le_bytes(
                cur as nat / 256,
                (k - i - 1) as nat,
            ));
        }
        out.push(b);
        cur = cur / 256;
        i = i + 1;
    }
    proof {
        assert(out@ =~= old(out)@ + complete);
    }
}

/// Reads the number denoted by bytes[pos .. pos + k]. k is at most 16.
pub fn decode_le(bytes: &[u8], pos: usize, k: usize) -> (r: u128)
    requires
        pos + k <= bytes@.len(),
        k <= 16,
    ensures
        r == from_le(bytes@.subrange(pos as int, pos + k)),
        r < pow256(k as nat),
{
    let blen: usize = bytes.len();
    let mut acc: u128 = 0;
    let mut j: usize = k;
    proof {
        assert(bytes@.subrange(pos + j, pos + k) =~= Seq::<u8>::empty());
    }
    while j > 0
        invariant
            j <= k,
            k <= 16,
            pos + k <= blen,
            blen == bytes@.len(),
            acc == from_le(bytes@.subrange(pos + j, pos + k)),
            acc < pow256((k - j) as nat),
        decreases j,
    {
        j = j - 1;
        let b: u8 = bytes[pos + j];
        proof {
            let s = bytes@.subrange(pos + j, pos + k);
            assert(s.len() == k - j);
            assert(s[0] == b);
            assert(s.drop_first() =~= bytes@.subrange(pos + j + 1, pos + k));
            assert(pow256((k - j) as nat) == 256 * pow256((k - j - 1) as nat));
            reveal_with_fuel(pow256, 17);
            assert(pow256(16nat) == 0x100000000000000000000000000000000nat);
            lemma_pow256_monotone((k - j) as nat, 16nat);
        }
        acc = b as u128 + 256 * acc;
    }
    proof {
        lemma_from_le_bound(bytes@.subrange(pos as int, pos + k));
    }
    acc
}

proof fn lemma_pow256_monotone(a: nat, b: nat)
    requires
        a <= b,
    ensures
        pow256(a) <= pow256(b),
    decreases b,
{
    if a < b && b > 0 {
        lemma_pow256_monotone(a, (b - 1) as nat);
    }
}

} // verus!

verus! {

/// Relies on std's char::from_u32: yields the character for any Unicode
/// scalar value and None for surrogates and out-of-range values.
pub assume_specification[ char::from_u32 ](v: u32) -> (r: Option<char>)
    ensures
        r is Some <==> vstd::utf8::is_scalar(v),
        r is Some ==> (r->0) as u32 == v,
;

/// Relies on std's String::push: appends one character to the string.
#[verifier::external_body]
pub(crate) fn push_char(s: &mut String, c: char)
    ensures
        final(s)@ == old(s)@.push(c),
{
    s.push(c);
}

/// The four little-endian bytes of a character's scalar value.
pub open spec fn enc_char(c: char) -> Seq<u8> {
    le_bytes((c as u32) as nat, 4)
}

/// The concatenated encodings of a character sequence.
pub open spec fn enc_chars(s: Seq<char>) -> Seq<u8>
    decreases s.len(),
{
    if s.len() == 0 {
        Seq::empty()
    } else {
        enc_char(s[0]) + enc_chars(s.drop_first())
    }
}

/// A string: its character count as eight little-endian bytes, then its
/// characters.
pub open spec fn enc_str(s: Seq<char>) -> Seq<u8> {
    le_bytes(s.len(), 8) + enc_chars(s)
}

pub proof fn lemma_enc_chars_len(s: Seq<char>)
    ensures
        enc_chars(s).len() == 4 * s.len(),
    decreases s.len(),
{
    if s.len() > 0 {
        lemma_le_bytes_len((s[0] as u32) as nat, 4);
        lemma_enc_chars_len(s.drop_first());
    }
}

pub proof fn lemma_enc_str_len(s: Seq<char>)
    ensures
        enc_str(s).len() == 8 + 4 * s.len(),
{
    lemma_le_bytes_len(s.len(), 8);
    lemma_enc_chars_len(s);
}

pub proof fn lemma_enc_chars_push(s: Seq<char>, c: char)
    ensures
        enc_chars(s.push(c)) == enc_chars(s) + enc_char(c),
    decreases s.len(),
{
    assert(s.push(c)[0] == if s.len() == 0 { c } else { s[0] });
    if s.len() == 0 {
        assert(s.push(c).drop_first() =~= Seq::<char>::empty());
        assert(enc_chars(s.push(c).drop_first()) =~= Seq::<u8>::empty());
        assert(enc_chars(s.push(c)) =~= enc_chars(s) + enc_char(c));
    } else {
        assert(s.push(c).drop_first() =~= s.drop_first().push(c));
        lemma_enc_chars_push(s.drop_first(), c);
        assert(enc_chars(s.push(c)) =~= enc_char(s[0]) + (enc_chars(s.drop_first()) + enc_char(
            c,
        )));
        assert(enc_chars(s.push(c)) =~= enc_chars(s) + enc_char(c));
    }
}

/// Appends the encoding of one character.
pub fn encode_char(c: char, out: &mut Vec<u8>)
    ensures
        final(out)@ == old(out)@ + enc_char(c),
{
    proof {
        broadcast use vstd::utf8::char_is_scalar;

        reveal_with_fuel(pow256, 5);
    }
    encode_le((c as u32) as u128, 4, out);
}

/// Appends the encoding of a string.
pub fn encode_str(s: &str, out: &mut Vec<u8>)
    ensures
        final(out)@ == old(out)@ + enc_str(s@),
        s@.len() < pow256(8),
{
    let n: usize = s.unicode_len();
    proof {
        reveal_with_fuel(pow256, 9);
    }
    encode_le(n as u128, 8, out);
    let ghost base = out@;
    let mut i: usize = 0;
    proof {
        assert(s@.take(0) =~= Seq::<char>::empty());
        assert(out@ =~= base + enc_chars(s@.take(0)));
    }
    while i < n
        invariant
            i <= n,
            n == s@.len(),
            out@ == base + enc_chars(s@.take(i as int)),
        decreases n - i,
    {
        let c: char = s.get_char(i);
        encode_char(c, out);
        proof {
            lemma_enc_chars_push(s@.take(i as int), s@[i as int]);
            assert(s@.take(i as int).push(s@[i as int]) =~= s@.take(i + 1));
            assert(out@ =~= base + enc_chars(s@.take(i + 1)));
        }
        i = i + 1;
    }
    proof {
        assert(s@.take(n as int) =~= s@);
        assert(out@ =~= old(out)@ + enc_str(s@));
    }
}

/// The character whose encoding sits at pos, if the four bytes there hold a
/// Unicode scalar value.
pub open spec fn dec_char_at(bytes: Seq<u8>, pos: int) -> Option<char> {
    if 0 <= pos && pos + 4 <= bytes.len() {
        let v = from_le(bytes.subrange(pos, pos + 4));
        if v < 0x100000000 && vstd::utf8::is_scalar(v as u32) {
            Some((v as u32) as char)
        } else {
            None
        }
    } else {
        None
    }
}

/// cnt characters decoded from pos on.
pub open spec fn dec_chars_at(bytes: Seq<u8>, pos: int, cnt: nat) -> Option<Seq<char>>
    decreases cnt,
{
    if cnt == 0 {
        Some(Seq::empty())
    } else {
        match dec_char_at(bytes, pos) {
            None => None,
            Some(c) => match dec_chars_at(bytes, pos + 4, (cnt - 1) as nat) {
                None => None,
                Some(rest) => Some(seq![c] + rest),
            },
        }
    }
}

/// A string decoded from pos on: its characters and the position just past
/// them.
pub open spec fn dec_str_at(bytes: Seq<u8>, pos: int) -> Option<(Seq<char>, int)> {
    if 0 <= pos && pos + 8 <= bytes.len() {
        let n = from_le(bytes.subrange(pos, pos + 8));
        if pos + 8 + 4 * n <= bytes.len() {
            match dec_chars_at(bytes, pos + 8, n) {
                None => None,
                Some(s) => Some((s, pos + 8 + 4 * n)),
            }
        } else {
            None
        }
    } else {
        None
    }
}

pub proof fn lemma_dec_char_at(bytes: Seq<u8>, pos: int, c: char)
    requires
        0 <= pos,
        pos + 4 <= bytes.len(),
        bytes.subrange(pos, pos + 4) == enc_char(c),
    ensures
        dec_char_at(bytes, pos) == Some(c),
{
    broadcast use vstd::utf8::char_is_scalar;

    reveal_with_fuel(pow256, 5);
    lemma_le_round_trip((c as u32) as nat, 4);
    vstd::utf8::char_u32_cast(c, c as u32);
}

pub proof fn lemma_dec_chars_at(bytes: Seq<u8>, pos: int, s: Seq<char>)
    requires
        0 <= pos,
        pos + 4 * s.len() <= bytes.len(),
        bytes.subrange(pos, pos + 4 * s.len()) == enc_chars(s),
    ensures
        dec_chars_at(bytes, pos, s.len()) == Some(s),
    decreases s.len(),
{
    if s.len() > 0 {
        lemma_enc_chars_len(s.drop_first());
        lemma_le_bytes_len((s[0] as u32) as nat, 4);
        assert(enc_chars(s) == enc_char(s[0]) + enc_chars(s.drop_first()));
        assert(bytes.subrange(pos, pos + 4) =~= enc_char(s[0]));
        lemma_dec_char_at(bytes, pos, s[0]);
        assert forall|i: int| 0 <= i < 4 * s.drop_first().len() implies bytes[pos + 4 + i]
            == enc_chars(s.drop_first())[i] by {
            assert(bytes.subrange(pos, pos + 4 * s.len())[4 + i] == enc_chars(s)[4 + i]);
        };
        assert(bytes.subrange(pos + 4, pos + 4 + 4 * s.drop_first().len()) =~= enc_chars(
            s.drop_first(),
        ));
        lemma_dec_chars_at(bytes, pos + 4, s.drop_first());
        assert(seq![s[0]] + s.drop_first() =~= s);
    } else {
        assert(dec_chars_at(bytes, pos, 0) == Some(Seq::<char>::empty()));
        assert(s =~= Seq::<char>::empty());
    }
}

pub proof fn lemma_dec_str_at(bytes: Seq<u8>, pos: int, s: Seq<char>)
    requires
        0 <= pos,
        pos + 8 + 4 * s.len() <= bytes.len(),
        bytes.subrange(pos, pos + 8 + 4 * s.len()) == enc_str(s),
        s.len() < pow256(8),
    ensures
        dec_str_at(bytes, pos) == Some((s, pos + 8 + 4 * s.len())),
{
    lemma_le_bytes_len(s.len(), 8);
    lemma_enc_chars_len(s);
    assert(enc_str(s) == le_bytes(s.len(), 8) + enc_chars(s));
    assert(bytes.subrange(pos, pos + 8) =~= le_bytes(s.len(), 8));
    lemma_le_round_trip(s.len(), 8);
    assert forall|i: int| 0 <= i < 4 * s.len() implies bytes[pos + 8 + i] == enc_chars(s)[i] by {
        assert(bytes.subrange(pos, pos + 8 + 4 * s.len())[8 + i] == enc_str(s)[8 + i]);
    };
    assert(bytes.subrange(pos + 8, pos + 8 + 4 * s.len()) =~= enc_chars(s));
    lemma_dec_chars_at(bytes, pos + 8, s);
}

/// The continuation of a partial character decode: what the whole decode
/// yields once prefix has already been read.
pub open spec fn dec_chars_chain(
    bytes: Seq<u8>,
    cur: int,
    rem: nat,
    prefix: Seq<char>,
) -> Option<Seq<char>> {
    match dec_chars_at(bytes, cur, rem) {
        None => None,
        Some(r) => Some(prefix + r),
    }
}

/// Decodes the string whose encoding starts at pos. Yields the string and
/// the position just past it, or None when the bytes there are not a
/// string encoding.
pub fn decode_str(bytes: &[u8], pos: usize) -> (r: Option<(String, usize)>)
    requires
        pos <= bytes@.len(),
    ensures
        match r {
            Some(p) => {
                &&& dec_str_at(bytes@, pos as int) == Some((p.0@, p.1 as int))
                &&& p.1 <= bytes@.len()
            },
            None => dec_str_at(bytes@, pos as int) is None,
        },
{
    let blen: usize = bytes.len();
    if blen - pos < 8 {
        return None;
    }
    let n128: u128 = decode_le(bytes, pos, 8);
    let avail: usize = blen - pos - 8;
    if n128 > (avail / 4) as u128 {
        proof {
            assert(avail as nat == 4 * ((avail as nat) / 4) + (avail as nat) % 4);
        }
        return None;
    }
    let n: usize = n128 as usize;
    let mut st: String = String::new();
    let mut i: usize = 0;
    let mut cur: usize = pos + 8;
    proof {
        assert(dec_chars_chain(bytes@, cur as int, n as nat, st@) == dec_chars_at(
            bytes@,
            pos + 8,
            n as nat,
        ));
    }
    while i < n
        invariant
            i <= n,
            cur == pos + 8 + 4 * i,
            pos + 8 + 4 * n <= blen,
            blen == bytes@.len(),
            n as nat == from_le(bytes@.subrange(pos as int, pos + 8)),
            st@.len() == i,
            dec_chars_chain(bytes@, cur as int, (n - i) as nat, st@) == dec_chars_at(
                bytes@,
                pos + 8,
                n as nat,
            ),
        decreases n - i,
    {
        let v128: u128 = decode_le(bytes, cur, 4);
        proof {
            reveal_with_fuel(pow256, 5);
        }
        let v: u32 = v128 as u32;
        match char::from_u32(v) {
            None => {
                proof {
                    assert(dec_char_at(bytes@, cur as int) is None);
                    assert(dec_chars_at(bytes@, cur as int, (n - i) as nat) is None);
                    assert(dec_chars_at(bytes@, pos + 8, n as nat) is None);
                    assert(from_le(bytes@.subrange(pos as int, pos + 8)) == n as nat);
                    assert(pos + 8 <= bytes@.len());
                    assert(pos + 8 + 4 * (n as nat) <= bytes@.len());
                    assert(dec_str_at(bytes@, pos as int) is None);
                }
                return None;
            },
            Some(c) => {
                proof {
                    vstd::utf8::char_u32_cast(c, v);
                    assert(dec_char_at(bytes@, cur as int) == Some(c));
                    assert(match dec_chars_at(bytes@, cur as int, (n - i) as nat) {
                        None => true,
                        Some(r) => st@ + r =~= st@.push(c) + r.drop_first(),
                    });
                }
                push_char(&mut st, c);
                i = i + 1;
                cur = cur + 4;
            },
        }
    }
    proof {
        assert(dec_chars_at(bytes@, cur as int, 0) == Some(Seq::<char>::empty()));
        assert(st@ + Seq::<char>::empty() =~= st@);
        assert(dec_chars_at(bytes@, pos + 8, n as nat) == Some(st@));
    }
    Some((st, pos + 8 + 4 * n))
}

} // verus!

verus! {

/// An i64 shifted into 0 .. 2^64, the form its eight digit bytes hold.
pub open spec fn i64_offset(i: i64) -> nat {
    (i - i64::MIN) as nat
}

/// A value: a tag byte, then the variant's payload.
pub open spec fn enc_value(v: ValueView) -> Seq<u8> {
    match v {
        ValueView::Integer(i) => seq![0u8] + le_bytes(i64_offset(i), 8),
        ValueView::Float(s) => seq![1u8] + enc_str(s),
        ValueView::Str(s) => seq![2u8] + enc_str(s),
        ValueView::Boolean(b) => seq![3u8, if b { 1u8 } else { 0u8 }],
        ValueView::Null => seq![4u8],
        ValueView::Tombstone => seq![5u8],
    }
}

/// A timestamped value: sixteen timestamp bytes, then the value.
pub open spec fn enc_tsv(t: TsvView) -> Seq<u8> {
    le_bytes(t.timestamp as nat, 16) + enc_value(t.value)
}

/// Whether the strings a value holds fit the length field of the encoding.
/// Every value an executable program builds satisfies this.
pub open spec fn value_fits(v: ValueView) -> bool {
    match v {
        ValueView::Float(s) => s.len() < pow256(8),
        ValueView::Str(s) => s.len() < pow256(8),
        _ => true,
    }
}

pub open spec fn tsv_fits(t: TsvView) -> bool {
    value_fits(t.value)
}

pub proof fn lemma_enc_value_len(v: ValueView)
    ensures
        1 <= enc_value(v).len(),
        match v {
            ValueView::Integer(_) => enc_value(v).len() == 9,
            ValueView::Float(s) => enc_value(v).len() == 9 + 4 * s.len(),
            ValueView::Str(s) => enc_value(v).len() == 9 + 4 * s.len(),
            ValueView::Boolean(_) => enc_value(v).len() == 2,
            ValueView::Null => enc_value(v).len() == 1,
            ValueView::Tombstone => enc_value(v).len() == 1,
        },
{
    match v {
        ValueView::Integer(i) => {
            lemma_le_bytes_len(i64_offset(i), 8);
        },
        ValueView::Float(s) => {
            lemma_enc_str_len(s);
        },
        ValueView::Str(s) => {
            lemma_enc_str_len(s);
        },
        _ => {},
    }
}

pub proof fn lemma_enc_tsv_len(t: TsvView)
    ensures
        enc_tsv(t).len() == 16 + enc_value(t.value).len(),
        17 <= enc_tsv(t).len(),
{
    lemma_le_bytes_len(t.timestamp as nat, 16);
    lemma_enc_value_len(t.value);
}

/// The value whose encoding sits at pos, with the position just past it.
pub open spec fn dec_value_at(bytes: Seq<u8>, pos: int) -> Option<(ValueView, int)> {
    if 0 <= pos && pos + 1 <= bytes.len() {
        let tag = bytes[pos];
        if tag == 0 {
            if pos + 9 <= bytes.len() {
                let off = from_le(bytes.subrange(pos + 1, pos + 9));
                if off < 0x10000000000000000 {
                    Some((ValueView::Integer((off + i64::MIN) as i64), pos + 9))
                } else {
                    None
                }
            } else {
                None
            }
        } else if tag == 1 {
            match dec_str_at(bytes, pos + 1) {
                None => None,
                Some((s, end)) => Some((ValueView::Float(s), end)),
            }
        } else if tag == 2 {
            match dec_str_at(bytes, pos + 1) {
                None => None,
                Some((s, end)) => Some((ValueView::Str(s), end)),
            }
        } else if tag == 3 {
            if pos + 2 <= bytes.len() && (bytes[pos + 1] == 0 || bytes[pos + 1] == 1) {
                Some((ValueView::Boolean(bytes[pos + 1] == 1), pos + 2))
            } else {
                None
            }
        } else if tag == 4 {
            Some((ValueView::Null, pos + 1))
        } else if tag == 5 {
            Some((ValueView::Tombstone, pos + 1))
        } else {
            None
        }
    } else {
        None
    }
}

/// The timestamped value whose encoding sits at pos.
pub open spec fn dec_tsv_at(bytes: Seq<u8>, pos: int) -> Option<(TsvView, int)> {
    if 0 <= pos && pos + 16 <= bytes.len() {
        let ts = from_le(bytes.subrange(pos, pos + 16));
        if ts < 0x100000000000000000000000000000000 {
            match dec_value_at(bytes, pos + 16) {
                None => None,
                Some((v, end)) => Some((TsvView { timestamp: ts as u128, value: v }, end)),
            }
        } else {
            None
        }
    } else {
        None
    }
}

/// A timestamped value decoded from the whole byte sequence, which must be
/// consumed exactly.
pub open spec fn dec_tsv_exact(bytes: Seq<u8>) -> Option<TsvView> {
    match dec_tsv_at(bytes, 0) {
        Some((t, end)) => if end == bytes.len() {
            Some(t)
        } else {
            None
        },
        None => None,
    }
}

pub proof fn lemma_dec_value_at(bytes: Seq<u8>, pos: int, v: ValueView)
    requires
        0 <= pos,
        pos + enc_value(v).len() <= bytes.len(),
        bytes.subrange(pos, pos + enc_value(v).len()) == enc_value(v),
        value_fits(v),
    ensures
        dec_value_at(bytes, pos) == Some((v, pos + enc_value(v).len())),
{
    lemma_enc_value_len(v);
    assert(bytes[pos] == enc_value(v)[0]);
    match v {
        ValueView::Integer(i) => {
            lemma_le_bytes_len(i64_offset(i), 8);
            assert forall|j: int| 0 <= j < 8 implies bytes[pos + 1 + j] == le_bytes(
                i64_offset(i),
                8,
            )[j] by {
                assert(bytes.subrange(pos, pos + 9)[1 + j] == enc_value(v)[1 + j]);
            };
            assert(bytes.subrange(pos + 1, pos + 9) =~= le_bytes(i64_offset(i), 8));
            reveal_with_fuel(pow256, 9);
            lemma_le_round_trip(i64_offset(i), 8);
        },
        ValueView::Float(s) => {
            lemma_enc_str_len(s);
            assert forall|j: int| 0 <= j < enc_str(s).len() implies bytes[pos + 1 + j] == enc_str(
                s,
            )[j] by {
                assert(bytes.subrange(pos, pos + enc_value(v).len())[1 + j] == enc_value(v)[1 + j]);
            };
            assert(bytes.subrange(pos + 1, pos + 1 + enc_str(s).len()) =~= enc_str(s));
            lemma_dec_str_at(bytes, pos + 1, s);
        },
        ValueView::Str(s) => {
            lemma_enc_str_len(s);
            assert forall|j: int| 0 <= j < enc_str(s).len() implies bytes[pos + 1 + j] == enc_str(
                s,
            )[j] by {
                assert(bytes.subrange(pos, pos + enc_value(v).len())[1 + j] == enc_value(v)[1 + j]);
            };
            assert(bytes.subrange(pos + 1, pos + 1 + enc_str(s).len()) =~= enc_str(s));
            lemma_dec_str_at(bytes, pos + 1, s);
        },
        ValueView::Boolean(b) => {
            assert(bytes[pos + 1] == enc_value(v)[1]);
        },
        ValueView::Null => {},
        ValueView::Tombstone => {},
    }
}

pub proof fn lemma_dec_tsv_at(bytes: Seq<u8>, pos: int, t: TsvView)
    requires
        0 <= pos,
        pos + enc_tsv(t).len() <= bytes.len(),
        bytes.subrange(pos, pos + enc_tsv(t).len()) == enc_tsv(t),
        tsv_fits(t),
    ensures
        dec_tsv_at(bytes, pos) == Some((t, pos + enc_tsv(t).len())),
{
    lemma_le_bytes_len(t.timestamp as nat, 16);
    lemma_enc_value_len(t.value);
    lemma_enc_tsv_len(t);
    assert forall|j: int| 0 <= j < 16 implies bytes[pos + j] == le_bytes(
        t.timestamp as nat,
        16,
    )[j] by {
        assert(bytes.subrange(pos, pos + enc_tsv(t).len())[j] == enc_tsv(t)[j]);
    };
    assert(bytes.subrange(pos, pos + 16) =~= le_bytes(t.timestamp as nat, 16));
    reveal_with_fuel(pow256, 17);
    lemma_le_round_trip(t.timestamp as nat, 16);
    assert forall|j: int| 0 <= j < enc_value(t.value).len() implies bytes[pos + 16 + j]
        == enc_value(t.value)[j] by {
        assert(bytes.subrange(pos, pos + enc_tsv(t).len())[16 + j] == enc_tsv(t)[16 + j]);
    };
    assert(bytes.subrange(pos + 16, pos + 16 + enc_value(t.value).len()) =~= enc_value(t.value));
    lemma_dec_value_at(bytes, pos + 16, t.value);
}

/// Round trip: decoding what was encoded yields the value back.
pub proof fn lemma_tsv_round_trip(t: TsvView)
    requires
        tsv_fits(t),
    ensures
        dec_tsv_exact(enc_tsv(t)) == Some(t),
{
    let bytes = enc_tsv(t);
    assert(bytes.subrange(0, bytes.len() as int) =~= bytes);
    lemma_dec_tsv_at(bytes, 0, t);
}

} // verus!

verus! {

/// Appends the encoding of a value.
pub fn encode_value(v: &Value, out: &mut Vec<u8>)
    ensures
        final(out)@ == old(out)@ + enc_value(v@),
        value_fits(v@),
{
    match v {
        Value::Integer(i) => {
            out.push(0u8);
            let off: i128 = (*i as i128) - (i64::MIN as i128);
            proof {
                reveal_with_fuel(pow256, 9);
            }
            encode_le(off as u128, 8, out);
            proof {
                assert(out@ =~= old(out)@ + enc_value(v@));
            }
        },
        Value::Float(s) => {
            out.push(1u8);
            encode_str(s.as_str(), out);
            proof {
                assert(out@ =~= old(out)@ + enc_value(v@));
            }
        },
        Value::String(s) => {
            out.push(2u8);
            encode_str(s.as_str(), out);
            proof {
                assert(out@ =~= old(out)@ + enc_value(v@));
            }
        },
        Value::Boolean(b) => {
            out.push(3u8);
            out.push(if *b { 1u8 } else { 0u8 });
            proof {
                assert(out@ =~= old(out)@ + enc_value(v@));
            }
        },
        Value::Null => {
            out.push(4u8);
            proof {
                assert(out@ =~= old(out)@ + enc_value(v@));
            }
        },
        Value::Tombstone => {
            out.push(5u8);
            proof {
                assert(out@ =~= old(out)@ + enc_value(v@));
            }
        },
    }
}

/// Appends the encoding of a timestamped value.
pub fn encode_tsv(t: &TimeStampedValue, out: &mut Vec<u8>)
    ensures
        final(out)@ == old(out)@ + enc_tsv(t@),
        tsv_fits(t@),
{
    proof {
        reveal_with_fuel(pow256, 17);
    }
    encode_le(t.timestamp, 16, out);
    encode_value(&t.value, out);
    proof {
        assert(out@ =~= old(out)@ + enc_tsv(t@));
    }
}

/// The encoding of a timestamped value as a fresh byte vector.
pub fn encode_tsv_vec(t: &TimeStampedValue) -> (r: Vec<u8>)
    ensures
        r@ == enc_tsv(t@),
        tsv_fits(t@),
{
    let mut out: Vec<u8> = Vec::new();
    encode_tsv(t, &mut out);
    proof {
        assert(out@ =~= enc_tsv(t@));
    }
    out
}

/// Decodes the value whose encoding starts at pos.
pub fn decode_value(bytes: &[u8], pos: usize) -> (r: Option<(Value, usize)>)
    requires
        pos <= bytes@.len(),
    ensures
        match r {
            Some(p) => {
                &&& dec_value_at(bytes@, pos as int) == Some((p.0@, p.1 as int))
                &&& p.1 <= bytes@.len()
            },
            None => dec_value_at(bytes@, pos as int) is None,
        },
{
    let blen: usize = bytes.len();
    if pos >= blen {
        return None;
    }
    let tag: u8 = bytes[pos];
    if tag == 0 {
        if blen - pos < 9 {
            return None;
        }
        let off: u128 = decode_le(bytes, pos + 1, 8);
        proof {
            reveal_with_fuel(pow256, 9);
        }
        let val: i64 = ((off as i128) + (i64::MIN as i128)) as i64;
        Some((Value::Integer(val), pos + 9))
    } else if tag == 1 {
        match decode_str(bytes, pos + 1) {
            None => None,
            Some((s, end)) => Some((Value::Float(s), end)),
        }
    } else if tag == 2 {
        match decode_str(bytes, pos + 1) {
            None => None,
            Some((s, end)) => Some((Value::String(s), end)),
        }
    } else if tag == 3 {
        if blen - pos < 2 {
            return None;
        }
        let b: u8 = bytes[pos + 1];
        if b == 0 || b == 1 {
            Some((Value::Boolean(b == 1), pos + 2))
        } else {
            None
        }
    } else if tag == 4 {
        Some((Value::Null, pos + 1))
    } else if tag == 5 {
        Some((Value::Tombstone, pos + 1))
    } else {
        None
    }
}

/// Decodes the timestamped value whose encoding starts at pos.
pub fn decode_tsv(bytes: &[u8], pos: usize) -> (r: Option<(TimeStampedValue, usize)>)
    requires
        pos <= bytes@.len(),
    ensures
        match r {
            Some(p) => {
                &&& dec_tsv_at(bytes@, pos as int) == Some((p.0@, p.1 as int))
                &&& p.1 <= bytes@.len()
            },
            None => dec_tsv_at(bytes@, pos as int) is None,
        },
{
    let blen: usize = bytes.len();
    if blen - pos < 16 {
        return None;
    }
    let ts: u128 = decode_le(bytes, pos, 16);
    proof {
        reveal_with_fuel(pow256, 17);
    }
    match decode_value(bytes, pos + 16) {
        None => None,
        Some((v, end)) => Some((TimeStampedValue { timestamp: ts, value: v }, end)),
    }
}

/// Decodes a timestamped value that must occupy the byte sequence exactly.
pub fn decode_tsv_exact(bytes: &[u8]) -> (r: Option<TimeStampedValue>)
    ensures
        match r {
            Some(t) => dec_tsv_exact(bytes@) == Some(t@),
            None => dec_tsv_exact(bytes@) is None,
        },
{
    match decode_tsv(bytes, 0) {
        None => None,
        Some((t, end)) => {
            if end == bytes.len() {
                Some(t)
            } else {
                None
            }
        },
    }
}

} // verus!

//! The canonical text of a collection of records.
//!
//! Each field is written as its UTF-8 byte length in sixteen lowercase hex
//! digits followed by its UTF-8 bytes. A record is its five fields in the
//! order `id`, `link`, `user`, `pass`, `notes`; a collection is its records
//! one after another.

use crate::crypto::string_from_utf8;
use crate::entry::{entries_view, Entry, EntryView};
use vstd::prelude::*;
use vstd::utf8::{decode_utf8, encode_utf8, valid_utf8};

verus! {

broadcast use {vstd::utf8::encode_utf8_valid_utf8, vstd::utf8::encode_utf8_decode_utf8};

/// Digits in a length header.
pub const HEADER_LEN: usize = 16;

/// The lowercase hex digit of a value below 16.
pub open spec fn hex_digit(d: u64) -> u8 {
    if d < 10 {
        (d + 48) as u8
    } else {
        (d + 87) as u8
    }
}

/// True of the bytes `0`-`9` and `a`-`f`.
pub open spec fn is_hex(c: u8) -> bool {
    (48 <= c <= 57) || (97 <= c <= 102)
}

/// The value of a hex digit.
pub open spec fn digit_value(c: u8) -> u64 {
    if c <= 57 {
        (c - 48) as u64
    } else {
        (c - 87) as u64
    }
}

/// The value of a run of hex digits, most significant first.
pub open spec fn hex_value(s: Seq<u8>) -> u64
    decreases s.len(),
{
    if s.len() == 0 {
        0
    } else {
        (hex_value(s.drop_last()) << 4u64) | digit_value(s.last())
    }
}

/// The `k`-th hex digit, most significant first, of a 64-bit value.
pub open spec fn nibble(n: u64, k: int) -> u64 {
    (n >> ((60 - 4 * k) as u64)) & 15u64
}

/// The sixteen-digit header that records `n`.
pub open spec fn length_text(n: u64) -> Seq<u8> {
    Seq::new(16, |k: int| hex_digit(nibble(n, k)))
}

/// The UTF-8 bytes of a field, with their length header.
pub open spec fn field_bytes(s: Seq<char>) -> Seq<u8> {
    length_text(encode_utf8(s).len() as u64) + encode_utf8(s)
}

/// The bytes of one record.
pub open spec fn entry_bytes(e: EntryView) -> Seq<u8> {
    field_bytes(e.id) + field_bytes(e.link) + field_bytes(e.user) + field_bytes(e.pass)
        + field_bytes(e.notes)
}

/// The bytes of a collection of records.
pub open spec fn entries_bytes(es: Seq<EntryView>) -> Seq<u8>
    decreases es.len(),
{
    if es.len() == 0 {
        Seq::empty()
    } else {
        entry_bytes(es[0]) + entries_bytes(es.drop_first())
    }
}

/// Every field's UTF-8 length fits in a header.
pub open spec fn fields_fit(es: Seq<EntryView>) -> bool {
    forall|i: int|
        0 <= i < es.len() ==> {
            let e = #[trigger] es[i];
            &&& encode_utf8(e.id).len() <= u64::MAX
            &&& encode_utf8(e.link).len() <= u64::MAX
            &&& encode_utf8(e.user).len() <= u64::MAX
            &&& encode_utf8(e.pass).len() <= u64::MAX
            &&& encode_utf8(e.notes).len() <= u64::MAX
        }
}

/// The length header at `p`, if sixteen hex digits stand there.
pub open spec fn read_len(b: Seq<u8>, p: int) -> Option<u64> {
    if 0 <= p && p + 16 <= b.len() && (forall|i: int| p <= i < p + 16 ==> is_hex(#[trigger] b[i])) {
        Some(hex_value(b.subrange(p, p + 16)))
    } else {
        None
    }
}

/// The field at `p` and the position after it.
#[verifier::opaque]
pub open spec fn read_field(b: Seq<u8>, p: int) -> Option<(Seq<char>, int)> {
    match read_len(b, p) {
        None => None,
        Some(n) => {
            let q = p + 16 + n;
            if q <= b.len() && valid_utf8(b.subrange(p + 16, q)) {
                Some((decode_utf8(b.subrange(p + 16, q)), q))
            } else {
                None
            }
        },
    }
}

/// The record at `p` and the position after it.
#[verifier::opaque]
pub open spec fn read_entry(b: Seq<u8>, p: int) -> Option<(EntryView, int)> {
    match read_field(b, p) {
        None => None,
        Some((id, p1)) => match read_field(b, p1) {
            None => None,
            Some((link, p2)) => match read_field(b, p2) {
                None => None,
                Some((user, p3)) => match read_field(b, p3) {
                    None => None,
                    Some((pass, p4)) => match read_field(b, p4) {
                        None => None,
                        Some((notes, p5)) => Some(
                            (EntryView { id, link, user, pass, notes }, p5),
                        ),
                    },
                },
            },
        },
    }
}

/// The records from `p` to the end, if the bytes there are well formed.
pub open spec fn read_entries(b: Seq<u8>, p: int) -> Option<Seq<EntryView>>
    decreases b.len() - p,
{
    if p >= b.len() {
        Some(Seq::empty())
    } else {
        match read_entry(b, p) {
            None => None,
            Some((e, q)) => if q <= p || q > b.len() {
                None
            } else {
                match read_entries(b, q) {
                    None => None,
                    Some(rest) => Some(seq![e] + rest),
                }
            },
        }
    }
}

proof fn lemma_digit(d: u64)
    requires
        d < 16,
    ensures
        is_hex(hex_digit(d)),
        digit_value(hex_digit(d)) == d,
{
}

proof fn lemma_shift_step(n: u64, s: u64)
    requires
        s <= 60,
    ensures
        ((n >> ((s + 4) as u64)) << 4u64) | ((n >> s) & 15u64) == n >> s,
{
    assert(((n >> ((s + 4) as u64)) << 4u64) | ((n >> s) & 15u64) == n >> s) by (bit_vector)
        requires
            s <= 60,
    ;
}

proof fn lemma_hex_prefix(n: u64, k: int)
    requires
        0 <= k <= 16,
    ensures
        forall|i: int| 0 <= i < k ==> is_hex(#[trigger] length_text(n).take(k)[i]),
        k == 0 ==> hex_value(length_text(n).take(k)) == 0,
        k > 0 ==> hex_value(length_text(n).take(k)) == n >> ((64 - 4 * k) as u64),
    decreases k,
{
    let t = length_text(n);
    if k > 0 {
        lemma_hex_prefix(n, k - 1);
        assert(t.take(k).drop_last() =~= t.take(k - 1));
        let m: u64 = n >> ((60 - 4 * (k - 1)) as u64);
        let d = nibble(n, k - 1);
        assert(d == m & 15u64);
        assert(m & 15u64 < 16) by (bit_vector);
        lemma_digit(d);
        assert(t.take(k).last() == hex_digit(d));
        if k == 1 {
            assert(((0u64 << 4u64) | ((n >> 60u64) & 15u64)) == n >> 60u64) by (bit_vector);
        } else {
            lemma_shift_step(n, (64 - 4 * k) as u64);
        }
        assert forall|i: int| 0 <= i < k implies is_hex(#[trigger] t.take(k)[i]) by {
            if i < k - 1 {
                assert(t.take(k)[i] == t.take(k - 1)[i]);
            }
        }
    }
}

proof fn lemma_length_text(n: u64)
    ensures
        forall|i: int| 0 <= i < 16 ==> is_hex(#[trigger] length_text(n)[i]),
        hex_value(length_text(n)) == n,
{
    lemma_hex_prefix(n, 16);
    assert(length_text(n).take(16) =~= length_text(n));
    assert(n >> 0u64 == n) by (bit_vector);
}

proof fn lemma_read_field(b: Seq<u8>, p: int, s: Seq<char>)
    requires
        0 <= p,
        p + field_bytes(s).len() <= b.len(),
        b.subrange(p, p + field_bytes(s).len()) == field_bytes(s),
        encode_utf8(s).len() <= u64::MAX,
    ensures
        read_field(b, p) == Some((s, p + field_bytes(s).len())),
{
    reveal(read_field);
    let u = encode_utf8(s);
    let n = u.len() as u64;
    lemma_length_text(n);
    let f = field_bytes(s);
    assert(b.subrange(p, p + 16) =~= length_text(n)) by {
        assert forall|i: int| 0 <= i < 16 implies b.subrange(p, p + 16)[i] == length_text(n)[i] by {
            assert(b.subrange(p, p + f.len())[i] == f[i]);
        }
    }
    assert forall|i: int| p <= i < p + 16 implies is_hex(#[trigger] b[i]) by {
        assert(b[i] == b.subrange(p, p + 16)[i - p]);
    }
    assert(b.subrange(p + 16, p + 16 + n) =~= u) by {
        assert forall|i: int| 0 <= i < u.len() implies b.subrange(p + 16, p + 16 + n)[i] == u[i] by {
            assert(b.subrange(p, p + f.len())[16 + i] == f[16 + i]);
        }
    }
}

proof fn lemma_read_entry(b: Seq<u8>, p: int, e: EntryView)
    requires
        0 <= p,
        p + entry_bytes(e).len() <= b.len(),
        b.subrange(p, p + entry_bytes(e).len()) == entry_bytes(e),
        fields_fit(seq![e]),
    ensures
        read_entry(b, p) == Some((e, p + entry_bytes(e).len())),
{
    reveal(read_entry);
    assert(seq![e][0] == e);
    let f0 = field_bytes(e.id);
    let f1 = field_bytes(e.link);
    let f2 = field_bytes(e.user);
    let f3 = field_bytes(e.pass);
    let f4 = field_bytes(e.notes);
    let whole = entry_bytes(e);
    let p1 = p + f0.len();
    let p2 = p1 + f1.len();
    let p3 = p2 + f2.len();
    let p4 = p3 + f3.len();
    assert(b.subrange(p, p1) =~= f0) by {
        assert forall|i: int| 0 <= i < f0.len() implies b.subrange(p, p1)[i] == f0[i] by {
            assert(b.subrange(p, p + whole.len())[i] == whole[i]);
        }
    }
    assert(b.subrange(p1, p2) =~= f1) by {
        assert forall|i: int| 0 <= i < f1.len() implies b.subrange(p1, p2)[i] == f1[i] by {
            assert(b.subrange(p, p + whole.len())[p1 - p + i] == whole[p1 - p + i]);
        }
    }
    assert(b.subrange(p2, p3) =~= f2) by {
        assert forall|i: int| 0 <= i < f2.len() implies b.subrange(p2, p3)[i] == f2[i] by {
            assert(b.subrange(p, p + whole.len())[p2 - p + i] == whole[p2 - p + i]);
        }
    }
    assert(b.subrange(p3, p4) =~= f3) by {
        assert forall|i: int| 0 <= i < f3.len() implies b.subrange(p3, p4)[i] == f3[i] by {
            assert(b.subrange(p, p + whole.len())[p3 - p + i] == whole[p3 - p + i]);
        }
    }
    assert(b.subrange(p4, p4 + f4.len()) =~= f4) by {
        assert forall|i: int| 0 <= i < f4.len() implies b.subrange(p4, p4 + f4.len())[i] == f4[i] by {
            assert(b.subrange(p, p + whole.len())[p4 - p + i] == whole[p4 - p + i]);
        }
    }
    lemma_read_field(b, p, e.id);
    lemma_read_field(b, p1, e.link);
    lemma_read_field(b, p2, e.user);
    lemma_read_field(b, p3, e.pass);
    lemma_read_field(b, p4, e.notes);
}

proof fn lemma_read_entries(b: Seq<u8>, p: int, es: Seq<EntryView>)
    requires
        0 <= p <= b.len(),
        b.subrange(p, b.len() as int) == entries_bytes(es),
        fields_fit(es),
    ensures
        read_entries(b, p) == Some(es),
    decreases es.len(),
{
    if es.len() == 0 {
        assert(b.subrange(p, b.len() as int).len() == 0);
    } else {
        let e = es[0];
        let rest = es.drop_first();
        let eb = entry_bytes(e);
        let tail = entries_bytes(rest);
        let q = p + eb.len();
        assert(entries_bytes(es) == eb + tail);
        assert(b.subrange(p, b.len() as int).len() == eb.len() + tail.len());
        assert(q <= b.len());
        assert(eb.len() >= 80) by {
            assert(length_text(encode_utf8(e.id).len() as u64).len() == 16);
        }
        assert(b.subrange(p, q) =~= eb) by {
            assert forall|i: int| 0 <= i < eb.len() implies b.subrange(p, q)[i] == eb[i] by {
                assert(b.subrange(p, b.len() as int)[i] == (eb + tail)[i]);
            }
        }
        assert(b.subrange(q, b.len() as int) =~= tail) by {
            assert forall|i: int| 0 <= i < tail.len() implies b.subrange(q, b.len() as int)[i]
                == tail[i] by {
                assert(b.subrange(p, b.len() as int)[eb.len() + i] == (eb + tail)[eb.len() + i]);
            }
        }
        assert(fields_fit(seq![e])) by {
            assert(seq![e][0] == es[0]);
        }
        assert(fields_fit(rest)) by {
            assert forall|i: int| 0 <= i < rest.len() implies #[trigger] rest[i] == es[i + 1] by {}
        }
        lemma_read_entry(b, p, e);
        lemma_read_entries(b, q, rest);
        assert(seq![e] + rest =~= es);
    }
}

/// Reading back the bytes written for a collection gives that collection,
/// records, order and field text alike.
pub proof fn lemma_codec_round_trip(es: Seq<EntryView>)
    requires
        fields_fit(es),
    ensures
        read_entries(entries_bytes(es), 0) == Some(es),
{
    let b = entries_bytes(es);
    assert(b.subrange(0, b.len() as int) =~= b);
    lemma_read_entries(b, 0, es);
}

proof fn lemma_entries_bytes_push(es: Seq<EntryView>, e: EntryView)
    ensures
        entries_bytes(es.push(e)) == entries_bytes(es) + entry_bytes(e),
    decreases es.len(),
{
    if es.len() == 0 {
        assert(es.push(e).drop_first() =~= Seq::<EntryView>::empty());
        assert(es.push(e)[0] == e);
        assert(entries_bytes(Seq::<EntryView>::empty()) == Seq::<u8>::empty());
        assert(entries_bytes(es.push(e)) == entry_bytes(e) + entries_bytes(es.push(e).drop_first()));
        assert(entries_bytes(es.push(e)) =~= entries_bytes(es) + entry_bytes(e));
    } else {
        lemma_entries_bytes_push(es.drop_first(), e);
        assert(es.push(e).drop_first() =~= es.drop_first().push(e));
        assert(es.push(e)[0] == es[0]);
        assert(entries_bytes(es.push(e)) == entry_bytes(es[0]) + entries_bytes(es.drop_first().push(e)));
        assert(entries_bytes(es.push(e)) =~= entries_bytes(es) + entry_bytes(e));
    }
}

/// The hex digit of a value below 16.
fn hex_digit_of(d: u64) -> (r: u8)
    requires
        d < 16,
    ensures
        r == hex_digit(d),
{
    if d < 10 {
        (d + 48) as u8
    } else {
        (d + 87) as u8
    }
}

fn push_header(out: &mut Vec<u8>, n: u64)
    ensures
        final(out)@ == old(out)@ + length_text(n),
{
    let ghost start = out@;
    let mut k: u64 = 0;
    while k < 16
        invariant
            k <= 16,
            out@ == start + length_text(n).take(k as int),
        decreases 16 - k,
    {
        let m: u64 = n >> (60 - 4 * k);
        let d: u64 = m & 15;
        assert(m & 15u64 < 16) by (bit_vector);
        out.push(hex_digit_of(d));
        assert(length_text(n).take(k + 1) =~= length_text(n).take(k as int).push(hex_digit(d)));
        assert(out@ =~= start + length_text(n).take(k + 1));
        k = k + 1;
    }
    assert(length_text(n).take(16) =~= length_text(n));
}

fn push_field(out: &mut Vec<u8>, s: &String)
    ensures
        final(out)@ == old(out)@ + field_bytes(s@),
        encode_utf8(s@).len() <= u64::MAX,
{
    let bytes = s.as_str().as_bytes();
    let len = bytes.len();
    push_header(out, len as u64);
    let ghost mid = out@;
    let mut i: usize = 0;
    while i < len
        invariant
            len == bytes@.len(),
            bytes@ == encode_utf8(s@),
            i <= len,
            out@ == mid + bytes@.take(i as int),
        decreases len - i,
    {
        out.push(bytes[i]);
        assert(bytes@.take(i + 1) =~= bytes@.take(i as int).push(bytes@[i as int]));
        assert(out@ =~= mid + bytes@.take(i + 1));
        i = i + 1;
    }
    assert(bytes@.take(i as int) =~= bytes@);
    assert(out@ =~= old(out)@ + field_bytes(s@));
}

proof fn lemma_hex_digit_back(c: u8)
    requires
        is_hex(c),
    ensures
        digit_value(c) < 16,
        hex_digit(digit_value(c)) == c,
{
}

proof fn lemma_hex_digits_prefix(s: Seq<u8>, k: int)
    requires
        s.len() == 16,
        forall|i: int| 0 <= i < 16 ==> is_hex(#[trigger] s[i]),
        0 <= k <= 16,
    ensures
        k < 16 ==> hex_value(s.take(k)) >> ((4 * k) as u64) == 0,
        forall|j: int|
            0 <= j < k ==> (hex_value(s.take(k)) >> ((4 * (k - 1 - j)) as u64)) & 15u64 == digit_value(
                #[trigger] s[j],
            ),
    decreases k,
{
    if k == 0 {
        assert(hex_value(s.take(0)) == 0);
        assert(0u64 >> 0u64 == 0) by (bit_vector);
    } else {
        lemma_hex_digits_prefix(s, k - 1);
        let t = s.take(k);
        assert(t.drop_last() =~= s.take(k - 1));
        assert(t.last() == s[k - 1]);
        let v = hex_value(s.take(k - 1));
        let d = digit_value(s[k - 1]);
        lemma_hex_digit_back(s[k - 1]);
        let w = hex_value(t);
        assert(w == (v << 4u64) | d);
        let a: u64 = (4 * (k - 1)) as u64;
        assert(v >> 60u64 == 0) by (bit_vector)
            requires
                v >> a == 0,
                a <= 60,
        ;
        if k < 16 {
            let a4: u64 = (4 * k) as u64;
            assert(a4 == a + 4);
            assert(w >> a4 == 0) by (bit_vector)
                requires
                    w == (v << 4u64) | d,
                    v >> a == 0,
                    a <= 56,
                    d < 16,
                    a4 == a + 4,
            ;
        }
        assert forall|j: int| 0 <= j < k implies (w >> ((4 * (k - 1 - j)) as u64)) & 15u64
            == digit_value(#[trigger] s[j]) by {
            let sh: u64 = (4 * (k - 1 - j)) as u64;
            if j == k - 1 {
                assert(sh == 0);
                assert((w >> 0u64) & 15u64 == d) by (bit_vector)
                    requires
                        w == (v << 4u64) | d,
                        d < 16,
                ;
            } else {
                let sh0: u64 = (4 * (k - 2 - j)) as u64;
                assert(sh == sh0 + 4);
                assert(w >> sh == v >> sh0) by (bit_vector)
                    requires
                        w == (v << 4u64) | d,
                        v >> 60u64 == 0,
                        d < 16,
                        sh == sh0 + 4,
                        sh0 <= 56,
                ;
            }
        }
    }
}

proof fn lemma_hex_canonical(s: Seq<u8>)
    requires
        s.len() == 16,
        forall|i: int| 0 <= i < 16 ==> is_hex(#[trigger] s[i]),
    ensures
        length_text(hex_value(s)) == s,
{
    lemma_hex_digits_prefix(s, 16);
    assert(s.take(16) =~= s);
    let v = hex_value(s);
    assert forall|j: int| 0 <= j < 16 implies #[trigger] length_text(v)[j] == s[j] by {
        lemma_hex_digit_back(s[j]);
        assert(nibble(v, j) == (v >> ((4 * (16 - 1 - j)) as u64)) & 15u64);
    }
    assert(length_text(v) =~= s);
}

proof fn lemma_read_field_sound(b: Seq<u8>, p: int)
    requires
        read_field(b, p) is Some,
    ensures
        0 <= p < read_field(b, p)->Some_0.1 <= b.len(),
        b.subrange(p, read_field(b, p)->Some_0.1) == field_bytes(read_field(b, p)->Some_0.0),
        encode_utf8(read_field(b, p)->Some_0.0).len() <= u64::MAX,
{
    reveal(read_field);
    let hdr = b.subrange(p, p + 16);
    assert forall|i: int| 0 <= i < 16 implies is_hex(#[trigger] hdr[i]) by {
        assert(hdr[i] == b[p + i]);
    }
    lemma_hex_canonical(hdr);
    let n = hex_value(hdr);
    let q = p + 16 + n;
    let body = b.subrange(p + 16, q);
    vstd::utf8::decode_utf8_encode_utf8(body);
    let s = decode_utf8(body);
    assert(encode_utf8(s) == body);
    assert(encode_utf8(s).len() as u64 == n);
    assert(b.subrange(p, q) =~= hdr + body);
}

proof fn lemma_read_entry_sound(b: Seq<u8>, p: int)
    requires
        read_entry(b, p) is Some,
    ensures
        p < read_entry(b, p)->Some_0.1 <= b.len(),
        b.subrange(p, read_entry(b, p)->Some_0.1) == entry_bytes(read_entry(b, p)->Some_0.0),
        fields_fit(seq![read_entry(b, p)->Some_0.0]),
{
    reveal(read_entry);
    lemma_read_field_sound(b, p);
    let p1 = read_field(b, p)->Some_0.1;
    lemma_read_field_sound(b, p1);
    let p2 = read_field(b, p1)->Some_0.1;
    lemma_read_field_sound(b, p2);
    let p3 = read_field(b, p2)->Some_0.1;
    lemma_read_field_sound(b, p3);
    let p4 = read_field(b, p3)->Some_0.1;
    lemma_read_field_sound(b, p4);
    let p5 = read_field(b, p4)->Some_0.1;
    let e = read_entry(b, p)->Some_0.0;
    assert forall|i: int| 0 <= i < 1 implies {
        let x = #[trigger] seq![e][i];
        &&& encode_utf8(x.id).len() <= u64::MAX
        &&& encode_utf8(x.link).len() <= u64::MAX
        &&& encode_utf8(x.user).len() <= u64::MAX
        &&& encode_utf8(x.pass).len() <= u64::MAX
        &&& encode_utf8(x.notes).len() <= u64::MAX
    } by {
        assert(seq![e][i] == e);
    }
    assert(b.subrange(p, p5) =~= b.subrange(p, p1) + b.subrange(p1, p2) + b.subrange(p2, p3)
        + b.subrange(p3, p4) + b.subrange(p4, p5));
}

proof fn lemma_read_entries_sound(b: Seq<u8>, p: int)
    requires
        0 <= p <= b.len(),
        read_entries(b, p) is Some,
    ensures
        b.subrange(p, b.len() as int) == entries_bytes(read_entries(b, p)->Some_0),
        fields_fit(read_entries(b, p)->Some_0),
    decreases b.len() - p,
{
    if p >= b.len() {
        assert(b.subrange(p, b.len() as int) =~= Seq::<u8>::empty());
    } else {
        lemma_read_entry_sound(b, p);
        let (e, q) = read_entry(b, p)->Some_0;
        lemma_read_entries_sound(b, q);
        let rest = read_entries(b, q)->Some_0;
        let es = seq![e] + rest;
        assert(es[0] == e);
        assert(es.drop_first() =~= rest);
        assert forall|i: int| 0 <= i < es.len() implies {
            let x = #[trigger] es[i];
            &&& encode_utf8(x.id).len() <= u64::MAX
            &&& encode_utf8(x.link).len() <= u64::MAX
            &&& encode_utf8(x.user).len() <= u64::MAX
            &&& encode_utf8(x.pass).len() <= u64::MAX
            &&& encode_utf8(x.notes).len() <= u64::MAX
        } by {
            if i == 0 {
                assert(seq![e][0] == es[0]);
            } else {
                assert(es[i] == rest[i - 1]);
            }
        }
        assert(b.subrange(p, b.len() as int) =~= b.subrange(p, q) + b.subrange(q, b.len() as int));
    }
}

/// Bytes that read back as a collection are exactly that collection's
/// canonical bytes: the form has one spelling.
pub proof fn lemma_codec_canonical(b: Seq<u8>)
    requires
        read_entries(b, 0) is Some,
    ensures
        entries_bytes(read_entries(b, 0)->Some_0) == b,
        fields_fit(read_entries(b, 0)->Some_0),
{
    lemma_read_entries_sound(b, 0);
    assert(b.subrange(0, b.len() as int) =~= b);
}

/// The canonical bytes of a collection of records.
pub fn encode_entries(es: &Vec<Entry>) -> (r: Vec<u8>)
    ensures
        r@ == entries_bytes(entries_view(es@)),
        fields_fit(entries_view(es@)),
{
    let mut out: Vec<u8> = Vec::new();
    let mut i: usize = 0;
    while i < es.len()
        invariant
            i <= es@.len(),
            out@ == entries_bytes(entries_view(es@.take(i as int))),
            fields_fit(entries_view(es@.take(i as int))),
        decreases es@.len() - i,
    {
        let ghost before = entries_view(es@.take(i as int));
        let e = &es[i];
        push_field(&mut out, &e.id);
        push_field(&mut out, &e.link);
        push_field(&mut out, &e.user);
        push_field(&mut out, &e.pass);
        push_field(&mut out, &e.notes);
        proof {
            assert(entries_view(es@.take(i + 1)) =~= before.push(e@));
            lemma_entries_bytes_push(before, e@);
            assert(out@ =~= entries_bytes(before) + entry_bytes(e@));
            let after = before.push(e@);
            assert forall|j: int| 0 <= j < after.len() implies {
                let x = #[trigger] after[j];
                &&& encode_utf8(x.id).len() <= u64::MAX
                &&& encode_utf8(x.link).len() <= u64::MAX
                &&& encode_utf8(x.user).len() <= u64::MAX
                &&& encode_utf8(x.pass).len() <= u64::MAX
                &&& encode_utf8(x.notes).len() <= u64::MAX
            } by {
                if j < before.len() {
                    assert(after[j] == before[j]);
                }
            }
        }
        i = i + 1;
    }
    assert(es@.take(i as int) =~= es@);
    out
}

fn read_header(b: &[u8], p: usize) -> (r: Option<u64>)
    ensures
        r == read_len(b@, p as int),
{
    if p > b.len() || b.len() - p < HEADER_LEN {
        return None;
    }
    let mut acc: u64 = 0;
    let mut k: usize = 0;
    while k < HEADER_LEN
        invariant
            p + 16 <= b@.len() <= usize::MAX,
            k <= 16,
            acc == hex_value(b@.subrange(p as int, p + k)),
            forall|i: int| p <= i < p + k ==> is_hex(#[trigger] b@[i]),
        decreases 16 - k,
    {
        let c = b[p + k];
        if !((48 <= c && c <= 57) || (97 <= c && c <= 102)) {
            return None;
        }
        let v: u64 = if c <= 57 {
            (c - 48) as u64
        } else {
            (c - 87) as u64
        };
        assert(b@.subrange(p as int, p + k + 1).drop_last() =~= b@.subrange(p as int, p + k));
        acc = (acc << 4) | v;
        k = k + 1;
    }
    Some(acc)
}

fn read_field_at(b: &[u8], p: usize) -> (r: Option<(String, usize)>)
    ensures
        match r {
            Some((s, q)) => read_field(b@, p as int) == Some((s@, q as int)),
            None => read_field(b@, p as int) is None,
        },
{
    reveal(read_field);
    let n = match read_header(b, p) {
        Some(n) => n,
        None => return None,
    };
    let total = b.len();
    let start = p + HEADER_LEN;
    if n > (total - start) as u64 {
        return None;
    }
    let end = start + n as usize;
    let mut bytes: Vec<u8> = Vec::new();
    let mut i: usize = start;
    while i < end
        invariant
            start <= i <= end <= b@.len(),
            bytes@ == b@.subrange(start as int, i as int),
        decreases end - i,
    {
        bytes.push(b[i]);
        assert(bytes@ =~= b@.subrange(start as int, i + 1));
        i = i + 1;
    }
    match string_from_utf8(bytes) {
        Some(s) => Some((s, end)),
        None => None,
    }
}

fn read_entry_at(b: &[u8], p: usize) -> (r: Option<(Entry, usize)>)
    ensures
        match r {
            Some((e, q)) => read_entry(b@, p as int) == Some((e@, q as int)),
            None => read_entry(b@, p as int) is None,
        },
{
    reveal(read_entry);
    let (id, p1) = match read_field_at(b, p) {
        Some(x) => x,
        None => return None,
    };
    let (link, p2) = match read_field_at(b, p1) {
        Some(x) => x,
        None => return None,
    };
    let (user, p3) = match read_field_at(b, p2) {
        Some(x) => x,
        None => return None,
    };
    let (pass, p4) = match read_field_at(b, p3) {
        Some(x) => x,
        None => return None,
    };
    let (notes, p5) = match read_field_at(b, p4) {
        Some(x) => x,
        None => return None,
    };
    Some((Entry { id, link, user, pass, notes }, p5))
}

/// Reads a collection back from its canonical bytes; `None` when the bytes
/// are not the canonical form of any collection.
pub fn decode_entries(b: &[u8]) -> (r: Option<Vec<Entry>>)
    ensures
        match r {
            Some(v) => read_entries(b@, 0) == Some(entries_view(v@)) && entries_bytes(
                entries_view(v@),
            ) == b@ && fields_fit(entries_view(v@)),
            None => read_entries(b@, 0) is None,
        },
{
    let mut out: Vec<Entry> = Vec::new();
    let mut p: usize = 0;
    while p < b.len()
        invariant
            p <= b@.len(),
            read_entries(b@, 0) == match read_entries(b@, p as int) {
                Some(rest) => Some(entries_view(out@) + rest),
                None => None::<Seq<EntryView>>,
            },
        decreases b@.len() - p,
    {
        let (e, q) = match read_entry_at(b, p) {
            Some(x) => x,
            None => return None,
        };
        if q <= p || q > b.len() {
            return None;
        }
        let ghost prev = entries_view(out@);
        let ghost ev = e@;
        out.push(e);
        proof {
            assert(entries_view(out@) =~= prev.push(ev));
            match read_entries(b@, q as int) {
                Some(rest) => {
                    assert(prev + (seq![ev] + rest) =~= prev.push(ev) + rest);
                },
                None => {},
            }
        }
        p = q;
    }
    assert(entries_view(out@) + Seq::<EntryView>::empty() =~= entries_view(out@));
    proof {
        lemma_codec_canonical(b@);
    }
    Some(out)
}

} // verus!

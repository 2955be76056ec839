//! Bencode, the encoding of torrent files: integers `i<n>e`, byte strings
//! `<len>:<bytes>`, lists `l...e` and dictionaries `d...e` whose keys are
//! byte strings kept in ascending order.

use vstd::prelude::*;
#[allow(unused_imports)]
use vstd::utf8::*;

use crate::decimal::{lemma_int_digits_parse, lemma_nat_digits_shape, push_decimal_i64, push_decimal_u64, parse_digits, parse_i64_bytes, all_digits, digits_value, int_digits, is_digit, nat_digits, parse_i64_spec, DIGIT_ZERO};
use crate::error::{bencode_parse_error, BError};
use crate::text::string_from_utf8;

verus! {

/// ASCII `i`, which opens an integer.
pub const BYTE_I: u8 = 105;
/// ASCII `l`, which opens a list.
pub const BYTE_L: u8 = 108;
/// ASCII `d`, which opens a dictionary.
pub const BYTE_D: u8 = 100;
/// ASCII `e`, which closes an integer, a list or a dictionary.
pub const BYTE_E: u8 = 101;
/// ASCII `:`, which ends the length of a byte string.
pub const BYTE_COLON: u8 = 58;

/// A bencoded value. A dictionary holds its entries as (key, value) pairs;
/// every dictionary that the decoder builds, or `dict_from_entries` builds,
/// has its keys in strictly ascending byte order, and `encode` writes any
/// dictionary in that order (see `normalize`).
#[derive(Debug, PartialEq, Eq)]
pub enum BencodeValue {
    Integer(i64),
    ByteString(Vec<u8>),
    List(Vec<BencodeValue>),
    Dict(Vec<(Vec<u8>, BencodeValue)>),
}

/// The mathematical content of a [`BencodeValue`].
pub enum Bencoded {
    Int(i64),
    Bytes(Seq<u8>),
    List(Seq<Bencoded>),
    Dict(Seq<(Seq<u8>, Bencoded)>),
}

/// Why a byte sequence is not bencode.
pub enum DecodeFailure {
    /// The input ends before the value does.
    Eof,
    /// The input holds something that bencode does not allow.
    Malformed,
}

pub open spec fn value_model(v: BencodeValue) -> Bencoded
    decreases v,
{
    match v {
        BencodeValue::Integer(i) => Bencoded::Int(i),
        BencodeValue::ByteString(b) => Bencoded::Bytes(b@),
        BencodeValue::List(items) => Bencoded::List(list_model(items@)),
        BencodeValue::Dict(entries) => Bencoded::Dict(dict_model(entries@)),
    }
}

pub open spec fn list_model(s: Seq<BencodeValue>) -> Seq<Bencoded>
    decreases s,
{
    if s.len() == 0 {
        Seq::empty()
    } else {
        list_model(s.subrange(0, s.len() - 1)).push(value_model(s[s.len() - 1]))
    }
}

pub open spec fn dict_model(s: Seq<(Vec<u8>, BencodeValue)>) -> Seq<(Seq<u8>, Bencoded)>
    decreases s,
{
    if s.len() == 0 {
        Seq::empty()
    } else {
        dict_model(s.subrange(0, s.len() - 1)).push(
            (s[s.len() - 1].0@, value_model(s[s.len() - 1].1)),
        )
    }
}

impl View for BencodeValue {
    type V = Bencoded;

    open spec fn view(&self) -> Bencoded {
        value_model(*self)
    }
}

// ---------------------------------------------------------------------------
// Byte order of keys

/// `a` sorts strictly before `b` in lexicographic byte order.
pub open spec fn bytes_lt(a: Seq<u8>, b: Seq<u8>) -> bool
    decreases a.len(),
{
    if a.len() == 0 {
        b.len() > 0
    } else if b.len() == 0 {
        false
    } else if a[0] != b[0] {
        a[0] < b[0]
    } else {
        bytes_lt(a.drop_first(), b.drop_first())
    }
}

pub proof fn lemma_bytes_lt_irreflexive(a: Seq<u8>)
    ensures
        !bytes_lt(a, a),
    decreases a.len(),
{
    if a.len() > 0 {
        lemma_bytes_lt_irreflexive(a.drop_first());
    }
}

pub proof fn lemma_bytes_lt_asymmetric(a: Seq<u8>, b: Seq<u8>)
    requires
        bytes_lt(a, b),
    ensures
        !bytes_lt(b, a),
        a != b,
    decreases a.len(),
{
    if a.len() > 0 && b.len() > 0 && a[0] == b[0] {
        lemma_bytes_lt_asymmetric(a.drop_first(), b.drop_first());
    }
    if a == b {
        lemma_bytes_lt_irreflexive(a);
    }
}

pub proof fn lemma_bytes_lt_transitive(a: Seq<u8>, b: Seq<u8>, c: Seq<u8>)
    requires
        bytes_lt(a, b),
        bytes_lt(b, c),
    ensures
        bytes_lt(a, c),
    decreases a.len(),
{
    if a.len() > 0 && b.len() > 0 && c.len() > 0 && a[0] == b[0] && b[0] == c[0] {
        lemma_bytes_lt_transitive(a.drop_first(), b.drop_first(), c.drop_first());
    }
}

pub proof fn lemma_bytes_lt_total(a: Seq<u8>, b: Seq<u8>)
    ensures
        bytes_lt(a, b) || bytes_lt(b, a) || a == b,
    decreases a.len(),
{
    if a.len() > 0 && b.len() > 0 && a[0] == b[0] {
        lemma_bytes_lt_total(a.drop_first(), b.drop_first());
        if a.drop_first() == b.drop_first() {
            assert(a =~= seq![a[0]] + a.drop_first());
            assert(b =~= seq![b[0]] + b.drop_first());
        }
    } else if a.len() == 0 && b.len() == 0 {
        assert(a =~= b);
    }
}

/// The keys of `d` ascend strictly.
pub open spec fn keys_ascending(d: Seq<(Seq<u8>, Bencoded)>) -> bool {
    forall|i: int, j: int| 0 <= i < j < d.len() ==> bytes_lt(#[trigger] d[i].0, #[trigger] d[j].0)
}

/// Every dictionary inside the value has strictly ascending keys: the
/// values that a `BTreeMap` keyed by byte strings could hold.
pub open spec fn canonical(v: Bencoded) -> bool
    decreases v,
{
    match v {
        Bencoded::Int(_) => true,
        Bencoded::Bytes(_) => true,
        Bencoded::List(items) => all_canonical(items),
        Bencoded::Dict(entries) => keys_ascending(entries) && all_values_canonical(entries),
    }
}

pub open spec fn all_canonical(s: Seq<Bencoded>) -> bool
    decreases s,
{
    if s.len() == 0 {
        true
    } else {
        all_canonical(s.subrange(0, s.len() - 1)) && canonical(s[s.len() - 1])
    }
}

pub open spec fn all_values_canonical(s: Seq<(Seq<u8>, Bencoded)>) -> bool
    decreases s,
{
    if s.len() == 0 {
        true
    } else {
        all_values_canonical(s.subrange(0, s.len() - 1)) && canonical(s[s.len() - 1].1)
    }
}

/// The dictionary `d` after setting key `k` to `v`: an existing entry for
/// `k` is replaced, otherwise the entry goes before the first larger key.
pub open spec fn dict_insert(d: Seq<(Seq<u8>, Bencoded)>, k: Seq<u8>, v: Bencoded) -> Seq<
    (Seq<u8>, Bencoded),
>
    decreases d.len(),
{
    if d.len() == 0 {
        seq![(k, v)]
    } else if bytes_lt(k, d[0].0) {
        seq![(k, v)] + d
    } else if k == d[0].0 {
        seq![(k, v)] + d.drop_first()
    } else {
        seq![d[0]] + dict_insert(d.drop_first(), k, v)
    }
}

/// The dictionary built by setting each entry of `entries` in turn.
pub open spec fn dict_insert_all(d: Seq<(Seq<u8>, Bencoded)>, entries: Seq<(Seq<u8>, Bencoded)>) -> Seq<
    (Seq<u8>, Bencoded),
>
    decreases entries.len(),
{
    if entries.len() == 0 {
        d
    } else {
        dict_insert_all(dict_insert(d, entries[0].0, entries[0].1), entries.drop_first())
    }
}

/// The position of the first entry of `d` with key `k`.
pub open spec fn dict_find(d: Seq<(Seq<u8>, Bencoded)>, k: Seq<u8>) -> Option<int> {
    if exists|i: int| 0 <= i < d.len() && #[trigger] d[i].0 == k {
        Some(
            choose|i: int|
                0 <= i < d.len() && #[trigger] d[i].0 == k && forall|j: int|
                    0 <= j < i ==> #[trigger] d[j].0 != k,
        )
    } else {
        None
    }
}

// ---------------------------------------------------------------------------
// Encoding

pub open spec fn encode_spec(v: Bencoded) -> Seq<u8>
    decreases v,
{
    match v {
        Bencoded::Int(i) => seq![BYTE_I] + int_digits(i as int) + seq![BYTE_E],
        Bencoded::Bytes(b) => encode_bytes_spec(b),
        Bencoded::List(items) => seq![BYTE_L] + encode_items_spec(items) + seq![BYTE_E],
        Bencoded::Dict(entries) => seq![BYTE_D] + encode_entries_spec(entries) + seq![BYTE_E],
    }
}

pub open spec fn encode_bytes_spec(b: Seq<u8>) -> Seq<u8> {
    nat_digits(b.len()) + seq![BYTE_COLON] + b
}

pub open spec fn encode_items_spec(s: Seq<Bencoded>) -> Seq<u8>
    decreases s,
{
    if s.len() == 0 {
        Seq::empty()
    } else {
        encode_items_spec(s.subrange(0, s.len() - 1)) + encode_spec(s[s.len() - 1])
    }
}

pub open spec fn encode_entries_spec(s: Seq<(Seq<u8>, Bencoded)>) -> Seq<u8>
    decreases s,
{
    if s.len() == 0 {
        Seq::empty()
    } else {
        encode_entries_spec(s.subrange(0, s.len() - 1)) + encode_bytes_spec(s[s.len() - 1].0)
            + encode_spec(s[s.len() - 1].1)
    }
}

// ---------------------------------------------------------------------------
// Decoding

/// The first position at or after `p` that holds `b`, or `s.len()`.
pub open spec fn find_byte(s: Seq<u8>, p: int, b: u8) -> int
    decreases s.len() - p,
{
    if p < 0 || p >= s.len() {
        s.len() as int
    } else if s[p] == b {
        p
    } else {
        find_byte(s, p + 1, b)
    }
}

/// The first position at or after `p` that does not hold a digit, or `s.len()`.
pub open spec fn skip_digits(s: Seq<u8>, p: int) -> int
    decreases s.len() - p,
{
    if p < 0 || p >= s.len() {
        s.len() as int
    } else if !is_digit(s[p]) {
        p
    } else {
        skip_digits(s, p + 1)
    }
}

/// An integer whose body starts at `p`, just after the `i`.
pub open spec fn decode_int_spec(s: Seq<u8>, p: int) -> Result<(Bencoded, int), DecodeFailure> {
    let q = find_byte(s, p, BYTE_E);
    if q >= s.len() {
        Err(DecodeFailure::Eof)
    } else {
        match parse_i64_spec(s.subrange(p, q)) {
            Some(i) => Ok((Bencoded::Int(i), q + 1)),
            None => Err(DecodeFailure::Malformed),
        }
    }
}

/// A byte string whose length prefix starts at `p`.
pub open spec fn decode_bytes_spec(s: Seq<u8>, p: int) -> Result<(Bencoded, int), DecodeFailure> {
    let q = skip_digits(s, p);
    if q >= s.len() {
        Err(DecodeFailure::Eof)
    } else if s[q] != BYTE_COLON {
        Err(DecodeFailure::Malformed)
    } else {
        let n = digits_value(s.subrange(p, q));
        if n > usize::MAX {
            Err(DecodeFailure::Malformed)
        } else if q + 1 + n > s.len() {
            Err(DecodeFailure::Eof)
        } else {
            Ok((Bencoded::Bytes(s.subrange(q + 1, q + 1 + n)), q + 1 + n))
        }
    }
}

/// The value that starts at position `p`, and the position just after it.
pub open spec fn decode_spec(s: Seq<u8>, p: int) -> Result<(Bencoded, int), DecodeFailure>
    decreases s.len() - p, 1int,
{
    if p < 0 || p >= s.len() {
        Err(DecodeFailure::Eof)
    } else if s[p] == BYTE_I {
        decode_int_spec(s, p + 1)
    } else if s[p] == BYTE_L {
        decode_list_spec(s, p + 1, Seq::empty())
    } else if s[p] == BYTE_D {
        decode_dict_spec(s, p + 1, Seq::empty())
    } else if is_digit(s[p]) {
        decode_bytes_spec(s, p)
    } else {
        Err(DecodeFailure::Malformed)
    }
}

/// The rest of a list from position `q`, after the items `acc`.
pub open spec fn decode_list_spec(s: Seq<u8>, q: int, acc: Seq<Bencoded>) -> Result<
    (Bencoded, int),
    DecodeFailure,
>
    decreases s.len() - q, 2int,
{
    if q < 0 || q >= s.len() {
        Err(DecodeFailure::Eof)
    } else if s[q] == BYTE_E {
        Ok((Bencoded::List(acc), q + 1))
    } else {
        match decode_spec(s, q) {
            Err(f) => Err(f),
            Ok((v, q2)) => if q < q2 <= s.len() {
                decode_list_spec(s, q2, acc.push(v))
            } else {
                Err(DecodeFailure::Malformed)
            },
        }
    }
}

/// The rest of a dictionary from position `q`, after the entries `acc`.
pub open spec fn decode_dict_spec(s: Seq<u8>, q: int, acc: Seq<(Seq<u8>, Bencoded)>) -> Result<
    (Bencoded, int),
    DecodeFailure,
>
    decreases s.len() - q, 2int,
{
    if q < 0 || q >= s.len() {
        Err(DecodeFailure::Eof)
    } else if s[q] == BYTE_E {
        Ok((Bencoded::Dict(acc), q + 1))
    } else {
        match decode_spec(s, q) {
            Err(f) => Err(f),
            Ok((k, q2)) => if !(q < q2 <= s.len()) {
                Err(DecodeFailure::Malformed)
            } else {
                match k {
                    Bencoded::Bytes(kb) => match decode_spec(s, q2) {
                        Err(f) => Err(f),
                        Ok((v, q3)) => if q2 < q3 <= s.len() {
                            decode_dict_spec(s, q3, dict_insert(acc, kb, v))
                        } else {
                            Err(DecodeFailure::Malformed)
                        },
                    },
                    _ => Err(DecodeFailure::Malformed),
                }
            },
        }
    }
}

/// `e` is the error that the decoder reports for `f`.
pub open spec fn reports(e: BError, f: DecodeFailure) -> bool {
    match f {
        DecodeFailure::Eof => e is BencodeUnexpectedEof,
        DecodeFailure::Malformed => e is BencodeParse,
    }
}

/// `r` is what the decoder answers where the specification says `d`.
pub open spec fn decode_answers(
    r: Result<(BencodeValue, usize), BError>,
    d: Result<(Bencoded, int), DecodeFailure>,
) -> bool {
    match d {
        Ok((m, end)) => r matches Ok((v, n)) && v@ == m && n == end,
        Err(f) => r matches Err(e) && reports(e, f),
    }
}


// ---------------------------------------------------------------------------
// Facts about the models

pub proof fn lemma_list_model(s: Seq<BencodeValue>)
    ensures
        list_model(s).len() == s.len(),
        forall|i: int| 0 <= i < s.len() ==> #[trigger] list_model(s)[i] == s[i]@,
    decreases s.len(),
{
    if s.len() > 0 {
        lemma_list_model(s.subrange(0, s.len() - 1));
    }
}

pub proof fn lemma_dict_model(s: Seq<(Vec<u8>, BencodeValue)>)
    ensures
        dict_model(s).len() == s.len(),
        forall|i: int|
            0 <= i < s.len() ==> #[trigger] dict_model(s)[i] == (s[i].0@, s[i].1@),
    decreases s.len(),
{
    if s.len() > 0 {
        lemma_dict_model(s.subrange(0, s.len() - 1));
    }
}

proof fn lemma_list_model_push(s: Seq<BencodeValue>, v: BencodeValue)
    ensures
        list_model(s.push(v)) == list_model(s).push(v@),
{
    lemma_list_model(s);
    lemma_list_model(s.push(v));
    assert(list_model(s.push(v)) =~= list_model(s).push(v@));
}

// ---------------------------------------------------------------------------
// Executable decoding

/// How two keys compare in byte order.
pub enum KeyOrder {
    Less,
    Equal,
    Greater,
}

proof fn lemma_bytes_lt_skip(a: Seq<u8>, b: Seq<u8>, i: int)
    requires
        0 <= i < a.len(),
        i < b.len(),
        a[i] == b[i],
    ensures
        bytes_lt(a.skip(i), b.skip(i)) == bytes_lt(a.skip(i + 1), b.skip(i + 1)),
{
    assert(a.skip(i).drop_first() =~= a.skip(i + 1));
    assert(b.skip(i).drop_first() =~= b.skip(i + 1));
}

/// Compares two keys in byte order.
pub fn compare_keys(a: &[u8], b: &[u8]) -> (r: KeyOrder)
    ensures
        r is Less <==> bytes_lt(a@, b@),
        r is Equal <==> a@ == b@,
        r is Greater <==> bytes_lt(b@, a@),
{
    let mut i: usize = 0;
    assert(a@.skip(0) =~= a@);
    assert(b@.skip(0) =~= b@);
    while i < a.len() && i < b.len()
        invariant
            i <= a@.len(),
            i <= b@.len(),
            forall|j: int| 0 <= j < i ==> a@[j] == b@[j],
            bytes_lt(a@, b@) == bytes_lt(a@.skip(i as int), b@.skip(i as int)),
            bytes_lt(b@, a@) == bytes_lt(b@.skip(i as int), a@.skip(i as int)),
        decreases a@.len() - i,
    {
        if a[i] != b[i] {
            proof {
                if bytes_lt(a@, b@) {
                    lemma_bytes_lt_asymmetric(a@, b@);
                }
                if bytes_lt(b@, a@) {
                    lemma_bytes_lt_asymmetric(b@, a@);
                }
            }
            if a[i] < b[i] {
                return KeyOrder::Less;
            } else {
                return KeyOrder::Greater;
            }
        }
        proof {
            lemma_bytes_lt_skip(a@, b@, i as int);
            lemma_bytes_lt_skip(b@, a@, i as int);
        }
        i = i + 1;
    }
    if a.len() == b.len() {
        assert(a@ =~= b@);
        proof {
            lemma_bytes_lt_irreflexive(a@);
        }
        KeyOrder::Equal
    } else if a.len() < b.len() {
        assert(a@ != b@);
        proof {
            lemma_bytes_lt_asymmetric(a@, b@);
        }
        KeyOrder::Less
    } else {
        assert(a@ != b@);
        proof {
            lemma_bytes_lt_asymmetric(b@, a@);
        }
        KeyOrder::Greater
    }
}

proof fn lemma_dict_insert_step(d: Seq<(Seq<u8>, Bencoded)>, i: int, k: Seq<u8>, v: Bencoded)
    requires
        0 <= i < d.len(),
        !bytes_lt(k, d[i].0),
        k != d[i].0,
    ensures
        d.take(i) + dict_insert(d.skip(i), k, v) == d.take(i + 1) + dict_insert(
            d.skip(i + 1),
            k,
            v,
        ),
{
    assert(d.skip(i).drop_first() =~= d.skip(i + 1));
    assert(d.take(i) + (seq![d[i]] + dict_insert(d.skip(i + 1), k, v)) =~= d.take(i + 1)
        + dict_insert(d.skip(i + 1), k, v));
}

/// Sets `key` to `value` in a dictionary, keeping its order.
pub fn dict_set(entries: &mut Vec<(Vec<u8>, BencodeValue)>, key: Vec<u8>, value: BencodeValue)
    ensures
        dict_model(final(entries)@) == dict_insert(dict_model(old(entries)@), key@, value@),
{
    let ghost d = dict_model(entries@);
    let ghost k = key@;
    let ghost v = value@;
    proof {
        lemma_dict_model(entries@);
        assert(d.skip(0) =~= d);
        assert(d.take(0) + d.skip(0) =~= d);
    }
    let mut i: usize = 0;
    while i < entries.len()
        invariant
            i <= entries@.len(),
            entries@ == old(entries)@,
            d == dict_model(entries@),
            d.len() == entries@.len(),
            forall|j: int|
                0 <= j < entries@.len() ==> #[trigger] d[j] == (entries@[j].0@, entries@[j].1@),
            k == key@,
            v == value@,
            dict_insert(d, k, v) == d.take(i as int) + dict_insert(d.skip(i as int), k, v),
        decreases entries@.len() - i,
    {
        let ord = compare_keys(key.as_slice(), entries[i].0.as_slice());
        match ord {
            KeyOrder::Less => {
                assert(d.skip(i as int)[0] == d[i as int]);
                entries.insert(i, (key, value));
                proof {
                    lemma_dict_model(entries@);
                    assert(dict_model(entries@) =~= d.take(i as int) + dict_insert(d.skip(i as int), k, v));
                }
                return;
            },
            KeyOrder::Equal => {
                assert(d.skip(i as int)[0] == d[i as int]);
                assert(d.skip(i as int).drop_first() =~= d.skip(i + 1));
                entries.set(i, (key, value));
                proof {
                    lemma_dict_model(entries@);
                    assert(dict_model(entries@) =~= d.take(i as int) + dict_insert(d.skip(i as int), k, v));
                }
                return;
            },
            KeyOrder::Greater => {
                proof {
                    lemma_bytes_lt_asymmetric(d[i as int].0, k);
                    lemma_dict_insert_step(d, i as int, k, v);
                }
                i = i + 1;
            },
        }
    }
    assert(d.skip(i as int) =~= Seq::<(Seq<u8>, Bencoded)>::empty());
    assert(d.take(i as int) =~= d);
    entries.push((key, value));
    proof {
        lemma_dict_model(entries@);
        assert(dict_model(entries@) =~= dict_insert(d, k, v));
    }
}

fn find_byte_exec(input: &[u8], p: usize, b: u8) -> (q: usize)
    requires
        p <= input@.len(),
    ensures
        q == find_byte(input@, p as int, b),
        p <= q <= input@.len(),
{
    let mut q = p;
    while q < input.len() && input[q] != b
        invariant
            p <= q <= input@.len(),
            find_byte(input@, p as int, b) == find_byte(input@, q as int, b),
        decreases input@.len() - q,
    {
        q = q + 1;
    }
    q
}

fn skip_digits_exec(input: &[u8], p: usize) -> (q: usize)
    requires
        p <= input@.len(),
    ensures
        q == skip_digits(input@, p as int),
        p <= q <= input@.len(),
        forall|j: int| p <= j < q ==> is_digit(#[trigger] input@[j]),
{
    let mut q = p;
    while q < input.len() && DIGIT_ZERO <= input[q] && input[q] <= 57
        invariant
            p <= q <= input@.len(),
            skip_digits(input@, p as int) == skip_digits(input@, q as int),
            forall|j: int| p <= j < q ==> is_digit(#[trigger] input@[j]),
        decreases input@.len() - q,
    {
        q = q + 1;
    }
    q
}

fn decode_int_at(input: &[u8], p: usize) -> (r: Result<(BencodeValue, usize), BError>)
    requires
        1 <= p <= input@.len(),
    ensures
        decode_answers(r, decode_int_spec(input@, p as int)),
        r matches Ok((_, n)) ==> p < n <= input@.len(),
{
    let q = find_byte_exec(input, p, BYTE_E);
    if q >= input.len() {
        return Err(BError::BencodeUnexpectedEof);
    }
    match parse_i64_bytes(input, p, q) {
        Some(i) => Ok((BencodeValue::Integer(i), q + 1)),
        None => Err(bencode_parse_error("invalid integer")),
    }
}

fn decode_bytes_at(input: &[u8], p: usize) -> (r: Result<(BencodeValue, usize), BError>)
    requires
        p < input@.len(),
        is_digit(input@[p as int]),
    ensures
        decode_answers(r, decode_bytes_spec(input@, p as int)),
        r matches Ok((_, n)) ==> p < n <= input@.len(),
{
    let q = skip_digits_exec(input, p);
    if q >= input.len() {
        return Err(BError::BencodeUnexpectedEof);
    }
    if input[q] != BYTE_COLON {
        return Err(bencode_parse_error("expected digit in length prefix"));
    }
    assert(all_digits(input@.subrange(p as int, q as int)));
    let n = match parse_digits(input, p, q, usize::MAX as u64) {
        Some(n) => n as usize,
        None => {
            return Err(bencode_parse_error("invalid length"));
        },
    };
    let data_start = q + 1;
    if n > input.len() - data_start {
        return Err(BError::BencodeUnexpectedEof);
    }
    let data_end = data_start + n;
    let data = vstd::slice::slice_to_vec(&input[data_start..data_end]);
    Ok((BencodeValue::ByteString(data), data_end))
}

pub(crate) fn decode_value_at(input: &[u8], p: usize) -> (r: Result<(BencodeValue, usize), BError>)
    requires
        p <= input@.len(),
    ensures
        decode_answers(r, decode_spec(input@, p as int)),
        r matches Ok((_, n)) ==> p < n <= input@.len(),
    decreases input@.len() - p, 1int,
{
    if p >= input.len() {
        return Err(BError::BencodeUnexpectedEof);
    }
    let c = input[p];
    if c == BYTE_I {
        decode_int_at(input, p + 1)
    } else if c == BYTE_L {
        decode_list_at(input, p + 1)
    } else if c == BYTE_D {
        decode_dict_at(input, p + 1)
    } else if DIGIT_ZERO <= c && c <= 57 {
        decode_bytes_at(input, p)
    } else {
        Err(bencode_parse_error("unexpected byte at the start of a value"))
    }
}

fn decode_list_at(input: &[u8], q: usize) -> (r: Result<(BencodeValue, usize), BError>)
    requires
        1 <= q <= input@.len(),
    ensures
        decode_answers(r, decode_list_spec(input@, q as int, Seq::empty())),
        r matches Ok((_, n)) ==> q < n <= input@.len(),
    decreases input@.len() - q, 2int,
{
    let mut items: Vec<BencodeValue> = Vec::new();
    let mut p = q;
    assert(list_model(items@) =~= Seq::<Bencoded>::empty());
    loop
        invariant
            q <= p <= input@.len(),
            decode_list_spec(input@, q as int, Seq::empty()) == decode_list_spec(
                input@,
                p as int,
                list_model(items@),
            ),
        decreases input@.len() - p,
    {
        if p >= input.len() {
            return Err(BError::BencodeUnexpectedEof);
        }
        if input[p] == BYTE_E {
            return Ok((BencodeValue::List(items), p + 1));
        }
        match decode_value_at(input, p) {
            Err(e) => {
                return Err(e);
            },
            Ok((v, p2)) => {
                proof {
                    lemma_list_model_push(items@, v);
                }
                items.push(v);
                p = p2;
            },
        }
    }
}

fn decode_dict_at(input: &[u8], q: usize) -> (r: Result<(BencodeValue, usize), BError>)
    requires
        1 <= q <= input@.len(),
    ensures
        decode_answers(r, decode_dict_spec(input@, q as int, Seq::empty())),
        r matches Ok((_, n)) ==> q < n <= input@.len(),
    decreases input@.len() - q, 2int,
{
    let mut entries: Vec<(Vec<u8>, BencodeValue)> = Vec::new();
    let mut p = q;
    assert(dict_model(entries@) =~= Seq::<(Seq<u8>, Bencoded)>::empty());
    loop
        invariant
            q <= p <= input@.len(),
            decode_dict_spec(input@, q as int, Seq::empty()) == decode_dict_spec(
                input@,
                p as int,
                dict_model(entries@),
            ),
        decreases input@.len() - p,
    {
        if p >= input.len() {
            return Err(BError::BencodeUnexpectedEof);
        }
        if input[p] == BYTE_E {
            return Ok((BencodeValue::Dict(entries), p + 1));
        }
        let (key, p2) = match decode_value_at(input, p) {
            Err(e) => {
                return Err(e);
            },
            Ok((BencodeValue::ByteString(k), p2)) => (k, p2),
            Ok(_) => {
                return Err(bencode_parse_error("expected byte string as dict key"));
            },
        };
        match decode_value_at(input, p2) {
            Err(e) => {
                return Err(e);
            },
            Ok((v, p3)) => {
                dict_set(&mut entries, key, v);
                p = p3;
            },
        }
    }
}

impl BencodeValue {
    /// Decodes the value at the start of `input`, and says how many bytes
    /// it took; bytes after it are left alone.
    pub fn decode(input: &[u8]) -> (r: Result<(BencodeValue, usize), BError>)
        ensures
            decode_answers(r, decode_spec(input@, 0)),
            r matches Ok((_, n)) ==> 0 < n <= input@.len(),
    {
        decode_value_at(input, 0)
    }
}


// ---------------------------------------------------------------------------
// Executable encoding

/// A copy of `bytes`.
pub fn copy_bytes(bytes: &[u8]) -> (r: Vec<u8>)
    ensures
        r@ == bytes@,
{
    vstd::slice::slice_to_vec(bytes)
}

/// Appends `bytes` to `buf`.
pub fn append_bytes(buf: &mut Vec<u8>, bytes: &[u8])
    ensures
        final(buf)@ == old(buf)@ + bytes@,
{
    let mut tail = copy_bytes(bytes);
    buf.append(&mut tail);
}

fn encode_bytes_into(buf: &mut Vec<u8>, data: &[u8])
    ensures
        final(buf)@ == old(buf)@ + encode_bytes_spec(data@),
{
    push_decimal_u64(buf, data.len() as u64);
    buf.push(BYTE_COLON);
    append_bytes(buf, data);
    assert(buf@ =~= old(buf)@ + encode_bytes_spec(data@));
}

proof fn lemma_encode_items_step(m: Seq<Bencoded>, i: int)
    requires
        0 <= i < m.len(),
    ensures
        encode_items_spec(m.take(i + 1)) == encode_items_spec(m.take(i)) + encode_spec(m[i]),
{
    assert(m.take(i + 1).subrange(0, i) =~= m.take(i));
}

proof fn lemma_encode_entries_step(m: Seq<(Seq<u8>, Bencoded)>, i: int)
    requires
        0 <= i < m.len(),
    ensures
        encode_entries_spec(m.take(i + 1)) == encode_entries_spec(m.take(i)) + encode_bytes_spec(
            m[i].0,
        ) + encode_spec(m[i].1),
{
    assert(m.take(i + 1).subrange(0, i) =~= m.take(i));
}

impl BencodeValue {
    fn encode_into(&self, buf: &mut Vec<u8>)
        ensures
            final(buf)@ == old(buf)@ + encode_spec(self@),
        decreases self,
    {
        match self {
            BencodeValue::Integer(i) => {
                buf.push(BYTE_I);
                push_decimal_i64(buf, *i);
                buf.push(BYTE_E);
                assert(buf@ =~= old(buf)@ + encode_spec(self@));
            },
            BencodeValue::ByteString(data) => {
                encode_bytes_into(buf, data.as_slice());
            },
            BencodeValue::List(items) => {
                buf.push(BYTE_L);
                let ghost start = buf@;
                let ghost m = list_model(items@);
                proof {
                    lemma_list_model(items@);
                    assert(m.take(0) =~= Seq::<Bencoded>::empty());
                    assert(start =~= start + encode_items_spec(m.take(0)));
                }
                let mut i: usize = 0;
                while i < items.len()
                    invariant
                        i <= items@.len(),
                        *self == BencodeValue::List(*items),
                        m == list_model(items@),
                        m.len() == items@.len(),
                        forall|j: int| 0 <= j < items@.len() ==> #[trigger] m[j] == items@[j]@,
                        buf@ == start + encode_items_spec(m.take(i as int)),
                    decreases items@.len() - i,
                {
                    proof {
                        lemma_encode_items_step(m, i as int);
                    }
                    proof {
                        vstd::std_specs::vec::axiom_vec_index_decreases(*items, i as int);
                        assert(decreases_to!(*items => items[i as int]));
                        assert(decreases_to!(*self => (*self)->List_0));
                        assert(decreases_to!(*self => items[i as int]));
                    }
                    items[i].encode_into(buf);
                    assert(buf@ =~= start + encode_items_spec(m.take(i + 1)));
                    i = i + 1;
                }
                assert(m.take(i as int) =~= m);
                buf.push(BYTE_E);
                assert(buf@ =~= old(buf)@ + encode_spec(self@));
            },
            BencodeValue::Dict(entries) => {
                buf.push(BYTE_D);
                let ghost start = buf@;
                let ghost m = dict_model(entries@);
                proof {
                    lemma_dict_model(entries@);
                    assert(m.take(0) =~= Seq::<(Seq<u8>, Bencoded)>::empty());
                    assert(start =~= start + encode_entries_spec(m.take(0)));
                }
                let mut i: usize = 0;
                while i < entries.len()
                    invariant
                        i <= entries@.len(),
                        *self == BencodeValue::Dict(*entries),
                        m == dict_model(entries@),
                        m.len() == entries@.len(),
                        forall|j: int|
                            0 <= j < entries@.len() ==> #[trigger] m[j] == (
                                entries@[j].0@,
                                entries@[j].1@,
                            ),
                        buf@ == start + encode_entries_spec(m.take(i as int)),
                    decreases entries@.len() - i,
                {
                    proof {
                        lemma_encode_entries_step(m, i as int);
                    }
                    proof {
                        vstd::std_specs::vec::axiom_vec_index_decreases(*entries, i as int);
                        assert(decreases_to!(*self => (*self)->Dict_0));
                        assert(decreases_to!(*entries => entries[i as int]));
                        assert(decreases_to!(entries[i as int] => entries[i as int].1));
                    }
                    let entry = &entries[i];
                    encode_bytes_into(buf, entry.0.as_slice());
                    entry.1.encode_into(buf);
                    assert(buf@ =~= start + encode_entries_spec(m.take(i + 1)));
                    i = i + 1;
                }
                assert(m.take(i as int) =~= m);
                buf.push(BYTE_E);
                assert(buf@ =~= old(buf)@ + encode_spec(self@));
            },
        }
    }

    /// The bencoding of this value as a map keyed by byte strings holds it:
    /// each dictionary's keys in ascending order, and of two entries with
    /// one key only the later.
    pub fn encode(&self) -> (r: Vec<u8>)
        ensures
            r@ == encode_spec(normalize(self@)),
    {
        let held = self.normalized();
        let mut buf: Vec<u8> = Vec::new();
        held.encode_into(&mut buf);
        assert(buf@ =~= encode_spec(normalize(self@)));
        buf
    }

    /// This value as a map keyed by byte strings holds it.
    fn normalized(&self) -> (r: BencodeValue)
        ensures
            r@ == normalize(self@),
        decreases self,
    {
        match self {
            BencodeValue::Integer(i) => BencodeValue::Integer(*i),
            BencodeValue::ByteString(b) => BencodeValue::ByteString(copy_bytes(b.as_slice())),
            BencodeValue::List(items) => {
                let mut out: Vec<BencodeValue> = Vec::new();
                let mut i: usize = 0;
                proof {
                    lemma_list_model(items@);
                    lemma_normalize_items(list_model(items@));
                }
                while i < items.len()
                    invariant
                        i <= items@.len(),
                        *self == BencodeValue::List(*items),
                        out@.len() == i,
                        list_model(items@).len() == items@.len(),
                        forall|j: int| 0 <= j < items@.len() ==> #[trigger] list_model(items@)[j] == items@[j]@,
                        forall|j: int| 0 <= j < i ==> #[trigger] out@[j]@ == normalize(items@[j]@),
                    decreases items@.len() - i,
                {
                    proof {
                        vstd::std_specs::vec::axiom_vec_index_decreases(*items, i as int);
                        assert(decreases_to!(*self => (*self)->List_0));
                    }
                    let c = items[i].normalized();
                    out.push(c);
                    i = i + 1;
                }
                proof {
                    lemma_list_model(out@);
                    assert(list_model(out@) =~= normalize_items(list_model(items@)));
                }
                BencodeValue::List(out)
            },
            BencodeValue::Dict(entries) => {
                let mut out: Vec<(Vec<u8>, BencodeValue)> = Vec::new();
                let mut i: usize = 0;
                proof {
                    lemma_dict_model(entries@);
                    lemma_normalize_entries(dict_model(entries@));
                }
                while i < entries.len()
                    invariant
                        i <= entries@.len(),
                        *self == BencodeValue::Dict(*entries),
                        out@.len() == i,
                        dict_model(entries@).len() == entries@.len(),
                        forall|j: int|
                            0 <= j < entries@.len() ==> #[trigger] dict_model(entries@)[j] == (
                                entries@[j].0@,
                                entries@[j].1@,
                            ),
                        forall|j: int|
                            0 <= j < i ==> (#[trigger] out@[j]).0@ == entries@[j].0@ && out@[j].1@
                                == normalize(entries@[j].1@),
                    decreases entries@.len() - i,
                {
                    proof {
                        vstd::std_specs::vec::axiom_vec_index_decreases(*entries, i as int);
                        assert(decreases_to!(*self => (*self)->Dict_0));
                        assert(decreases_to!(entries[i as int] => entries[i as int].1));
                    }
                    let entry = &entries[i];
                    let k = copy_bytes(entry.0.as_slice());
                    let v = entry.1.normalized();
                    out.push((k, v));
                    i = i + 1;
                }
                proof {
                    lemma_dict_model(out@);
                    assert(dict_model(out@) =~= normalize_entries(dict_model(entries@)));
                }
                BencodeValue::dict_from_entries(out)
            },
        }
    }
}


// ---------------------------------------------------------------------------
// Decoding undoes encoding

/// Every byte string and key is short enough to have its length in a `usize`.
pub open spec fn fits_usize(v: Bencoded) -> bool
    decreases v,
{
    match v {
        Bencoded::Int(_) => true,
        Bencoded::Bytes(b) => b.len() <= usize::MAX,
        Bencoded::List(items) => all_fit(items),
        Bencoded::Dict(entries) => all_entries_fit(entries),
    }
}

pub open spec fn all_fit(s: Seq<Bencoded>) -> bool
    decreases s,
{
    if s.len() == 0 {
        true
    } else {
        all_fit(s.subrange(0, s.len() - 1)) && fits_usize(s[s.len() - 1])
    }
}

pub open spec fn all_entries_fit(s: Seq<(Seq<u8>, Bencoded)>) -> bool
    decreases s,
{
    if s.len() == 0 {
        true
    } else {
        all_entries_fit(s.subrange(0, s.len() - 1)) && s[s.len() - 1].0.len() <= usize::MAX
            && fits_usize(s[s.len() - 1].1)
    }
}

proof fn lemma_all_canonical(s: Seq<Bencoded>)
    ensures
        all_canonical(s) <==> forall|i: int| 0 <= i < s.len() ==> canonical(#[trigger] s[i]),
        all_fit(s) <==> forall|i: int| 0 <= i < s.len() ==> fits_usize(#[trigger] s[i]),
    decreases s.len(),
{
    if s.len() > 0 {
        let t = s.subrange(0, s.len() - 1);
        lemma_all_canonical(t);
        assert forall|i: int| 0 <= i < t.len() implies t[i] == s[i] by {}
    }
}

proof fn lemma_all_values_canonical(s: Seq<(Seq<u8>, Bencoded)>)
    ensures
        all_values_canonical(s) <==> forall|i: int|
            0 <= i < s.len() ==> canonical(#[trigger] s[i].1),
        all_entries_fit(s) <==> forall|i: int|
            0 <= i < s.len() ==> (#[trigger] s[i]).0.len() <= usize::MAX && fits_usize(s[i].1),
    decreases s.len(),
{
    if s.len() > 0 {
        let t = s.subrange(0, s.len() - 1);
        lemma_all_values_canonical(t);
        assert forall|i: int| 0 <= i < t.len() implies t[i] == s[i] by {}
    }
}

/// The values of the library always fit.
pub proof fn lemma_value_fits(v: BencodeValue)
    ensures
        fits_usize(v@),
    decreases v,
{
    match v {
        BencodeValue::Integer(i) => {
            assert(v@ == Bencoded::Int(i));
        },
        BencodeValue::ByteString(b) => {
            assert(b.len() == b@.len());
            assert(v@ == Bencoded::Bytes(b@));
        },
        BencodeValue::List(items) => {
            lemma_list_model(items@);
            lemma_all_canonical(list_model(items@));
            assert forall|i: int| 0 <= i < list_model(items@).len() implies fits_usize(
                #[trigger] list_model(items@)[i],
            ) by {
                vstd::std_specs::vec::axiom_vec_index_decreases(items, i);
                assert(decreases_to!(v => v->List_0));
                lemma_value_fits(items[i]);
            }
            assert(v@ == Bencoded::List(list_model(items@)));
        },
        BencodeValue::Dict(entries) => {
            lemma_dict_model(entries@);
            lemma_all_values_canonical(dict_model(entries@));
            assert forall|i: int| 0 <= i < dict_model(entries@).len() implies (
            #[trigger] dict_model(entries@)[i]).0.len() <= usize::MAX && fits_usize(
                dict_model(entries@)[i].1,
            ) by {
                vstd::std_specs::vec::axiom_vec_index_decreases(entries, i);
                assert(decreases_to!(v => v->Dict_0));
                assert(decreases_to!(entries[i] => entries[i].1));
                assert(entries[i].0.len() == entries[i].0@.len());
                lemma_value_fits(entries[i].1);
            }
            assert(v@ == Bencoded::Dict(dict_model(entries@)));
        },
    }
}

proof fn lemma_find_byte(s: Seq<u8>, p: int, q: int, b: u8)
    requires
        0 <= p <= q < s.len(),
        s[q] == b,
        forall|j: int| p <= j < q ==> s[j] != b,
    ensures
        find_byte(s, p, b) == q,
    decreases q - p,
{
    if p < q {
        lemma_find_byte(s, p + 1, q, b);
    }
}

proof fn lemma_skip_digits(s: Seq<u8>, p: int, q: int)
    requires
        0 <= p <= q < s.len(),
        !is_digit(s[q]),
        forall|j: int| p <= j < q ==> is_digit(s[j]),
    ensures
        skip_digits(s, p) == q,
    decreases q - p,
{
    if p < q {
        lemma_skip_digits(s, p + 1, q);
    }
}

proof fn lemma_encode_items_concat(a: Seq<Bencoded>, b: Seq<Bencoded>)
    ensures
        encode_items_spec(a + b) == encode_items_spec(a) + encode_items_spec(b),
    decreases b.len(),
{
    if b.len() == 0 {
        assert(a + b =~= a);
        assert(encode_items_spec(a) + encode_items_spec(b) =~= encode_items_spec(a));
    } else {
        let ab = a + b;
        assert(ab.subrange(0, ab.len() - 1) =~= a + b.subrange(0, b.len() - 1));
        lemma_encode_items_concat(a, b.subrange(0, b.len() - 1));
        assert(encode_items_spec(a + b) =~= encode_items_spec(a) + encode_items_spec(b));
    }
}

proof fn lemma_encode_entries_concat(a: Seq<(Seq<u8>, Bencoded)>, b: Seq<(Seq<u8>, Bencoded)>)
    ensures
        encode_entries_spec(a + b) == encode_entries_spec(a) + encode_entries_spec(b),
    decreases b.len(),
{
    if b.len() == 0 {
        assert(a + b =~= a);
        assert(encode_entries_spec(a) + encode_entries_spec(b) =~= encode_entries_spec(a));
    } else {
        let ab = a + b;
        assert(ab.subrange(0, ab.len() - 1) =~= a + b.subrange(0, b.len() - 1));
        lemma_encode_entries_concat(a, b.subrange(0, b.len() - 1));
        assert(encode_entries_spec(a + b) =~= encode_entries_spec(a) + encode_entries_spec(b));
    }
}

proof fn lemma_encode_items_cons(items: Seq<Bencoded>, k: int)
    requires
        0 <= k < items.len(),
    ensures
        encode_items_spec(items.skip(k)) == encode_spec(items[k]) + encode_items_spec(
            items.skip(k + 1),
        ),
{
    let one = seq![items[k]];
    assert(items.skip(k) =~= one + items.skip(k + 1));
    lemma_encode_items_concat(one, items.skip(k + 1));
    assert(one.subrange(0, 0) =~= Seq::<Bencoded>::empty());
    assert(encode_items_spec(one.subrange(0, 0)) =~= Seq::<u8>::empty());
    assert(encode_items_spec(one) =~= encode_spec(items[k]));
}

proof fn lemma_encode_entries_cons(entries: Seq<(Seq<u8>, Bencoded)>, k: int)
    requires
        0 <= k < entries.len(),
    ensures
        encode_entries_spec(entries.skip(k)) == encode_bytes_spec(entries[k].0) + encode_spec(
            entries[k].1,
        ) + encode_entries_spec(entries.skip(k + 1)),
{
    let one = seq![entries[k]];
    assert(entries.skip(k) =~= one + entries.skip(k + 1));
    lemma_encode_entries_concat(one, entries.skip(k + 1));
    assert(one.subrange(0, 0) =~= Seq::<(Seq<u8>, Bencoded)>::empty());
    assert(encode_entries_spec(one.subrange(0, 0)) =~= Seq::<u8>::empty());
    assert(encode_entries_spec(one) =~= encode_bytes_spec(entries[k].0) + encode_spec(
        entries[k].1,
    ));
}

/// An encoding never starts with `e`.
proof fn lemma_encode_first_byte(v: Bencoded)
    ensures
        encode_spec(v).len() >= 1,
        encode_spec(v)[0] != BYTE_E,
{
    match v {
        Bencoded::Bytes(b) => {
            lemma_nat_digits_shape(b.len());
            assert(encode_spec(v)[0] == nat_digits(b.len())[0]);
            assert(is_digit(nat_digits(b.len())[0]));
        },
        _ => {},
    }
}

proof fn lemma_dict_insert_last(d: Seq<(Seq<u8>, Bencoded)>, k: Seq<u8>, v: Bencoded)
    requires
        forall|i: int| 0 <= i < d.len() ==> bytes_lt(#[trigger] d[i].0, k),
    ensures
        dict_insert(d, k, v) == d.push((k, v)),
    decreases d.len(),
{
    if d.len() > 0 {
        assert(bytes_lt(d[0].0, k));
        lemma_bytes_lt_asymmetric(d[0].0, k);
        let rest = d.drop_first();
        assert forall|i: int| 0 <= i < rest.len() implies bytes_lt(#[trigger] rest[i].0, k) by {
            assert(rest[i] == d[i + 1]);
        }
        lemma_dict_insert_last(rest, k, v);
        assert(seq![d[0]] + rest.push((k, v)) =~= d.push((k, v)));
    }
}

proof fn lemma_sub_slice(s: Seq<u8>, p: int, e: Seq<u8>, a: int, b: int)
    requires
        0 <= p,
        p + e.len() <= s.len(),
        s.subrange(p, p + e.len()) == e,
        0 <= a <= b <= e.len(),
    ensures
        s.subrange(p + a, p + b) == e.subrange(a, b),
{
    assert forall|j: int| 0 <= j < b - a implies s.subrange(p + a, p + b)[j] == e.subrange(a, b)[j] by {
        assert(s.subrange(p, p + e.len())[a + j] == s[p + a + j]);
    }
    assert(s.subrange(p + a, p + b) =~= e.subrange(a, b));
}

proof fn lemma_decode_bytes(b: Seq<u8>, s: Seq<u8>, p: int)
    requires
        b.len() <= usize::MAX,
        0 <= p,
        p + encode_bytes_spec(b).len() <= s.len(),
        s.subrange(p, p + encode_bytes_spec(b).len()) == encode_bytes_spec(b),
    ensures
        decode_spec(s, p) == Ok::<(Bencoded, int), DecodeFailure>(
            (Bencoded::Bytes(b), p + encode_bytes_spec(b).len()),
        ),
{
    let e = encode_bytes_spec(b);
    let ds = nat_digits(b.len());
    lemma_nat_digits_shape(b.len());
    let q = p + ds.len();
    assert forall|j: int| p <= j < q implies is_digit(s[j]) by {
        assert(s[j] == e[j - p]);
        assert(e[j - p] == ds[j - p]);
    }
    assert(s[q] == e[ds.len() as int]);
    lemma_skip_digits(s, p, q);
    assert(s[p] == e[0]);
    assert(s.subrange(p, q) =~= ds);
    lemma_sub_slice(s, p, e, ds.len() + 1int, e.len() as int);
    assert(e.subrange(ds.len() + 1int, e.len() as int) =~= b);
}

proof fn lemma_decode_int(i: i64, s: Seq<u8>, p: int)
    requires
        0 <= p,
        p + encode_spec(Bencoded::Int(i)).len() <= s.len(),
        s.subrange(p, p + encode_spec(Bencoded::Int(i)).len()) == encode_spec(Bencoded::Int(i)),
    ensures
        decode_spec(s, p) == Ok::<(Bencoded, int), DecodeFailure>(
            (Bencoded::Int(i), p + encode_spec(Bencoded::Int(i)).len()),
        ),
{
    let e = encode_spec(Bencoded::Int(i));
    let ds = int_digits(i as int);
    lemma_int_digits_parse(i);
    let q = p + 1 + ds.len();
    assert(s[p] == e[0]);
    assert forall|j: int| p + 1 <= j < q implies s[j] != BYTE_E by {
        assert(s[j] == e[j - p]);
        assert(e[j - p] == ds[j - p - 1]);
    }
    assert(s[q] == e[ds.len() + 1int]);
    lemma_find_byte(s, p + 1, q, BYTE_E);
    lemma_sub_slice(s, p, e, 1, 1 + ds.len() as int);
    assert(e.subrange(1, 1 + ds.len() as int) =~= ds);
}

proof fn lemma_decode_value(v: Bencoded, s: Seq<u8>, p: int)
    requires
        canonical(v),
        fits_usize(v),
        0 <= p,
        p + encode_spec(v).len() <= s.len(),
        s.subrange(p, p + encode_spec(v).len()) == encode_spec(v),
    ensures
        decode_spec(s, p) == Ok::<(Bencoded, int), DecodeFailure>((v, p + encode_spec(v).len())),
    decreases v, 0int,
{
    let e = encode_spec(v);
    match v {
        Bencoded::Int(i) => {
            lemma_decode_int(i, s, p);
        },
        Bencoded::Bytes(b) => {
            lemma_decode_bytes(b, s, p);
        },
        Bencoded::List(items) => {
            let body = encode_items_spec(items);
            assert(s[p] == e[0]);
            assert(items.skip(0) =~= items);
            lemma_sub_slice(s, p, e, 1, 1 + body.len() as int);
            assert(e.subrange(1, 1 + body.len() as int) =~= body);
            assert(s[p + 1 + body.len()] == e[body.len() + 1int]);
            assert(items.take(0) =~= Seq::<Bencoded>::empty());
            lemma_decode_list_rest(items, 0, s, p + 1);
        },
        Bencoded::Dict(entries) => {
            let body = encode_entries_spec(entries);
            assert(s[p] == e[0]);
            assert(entries.skip(0) =~= entries);
            lemma_sub_slice(s, p, e, 1, 1 + body.len() as int);
            assert(e.subrange(1, 1 + body.len() as int) =~= body);
            assert(s[p + 1 + body.len()] == e[body.len() + 1int]);
            assert(entries.take(0) =~= Seq::<(Seq<u8>, Bencoded)>::empty());
            lemma_decode_dict_rest(entries, 0, s, p + 1);
        },
    }
}

proof fn lemma_decode_list_rest(items: Seq<Bencoded>, k: int, s: Seq<u8>, q: int)
    requires
        0 <= k <= items.len(),
        canonical(Bencoded::List(items)),
        fits_usize(Bencoded::List(items)),
        0 <= q,
        q + encode_items_spec(items.skip(k)).len() < s.len(),
        s.subrange(q, q + encode_items_spec(items.skip(k)).len()) == encode_items_spec(
            items.skip(k),
        ),
        s[q + encode_items_spec(items.skip(k)).len()] == BYTE_E,
    ensures
        decode_list_spec(s, q, items.take(k)) == Ok::<(Bencoded, int), DecodeFailure>(
            (Bencoded::List(items), q + encode_items_spec(items.skip(k)).len() + 1),
        ),
    decreases items, items.len() - k + 1,
{
    let rest = encode_items_spec(items.skip(k));
    if k == items.len() {
        assert(items.skip(k) =~= Seq::<Bencoded>::empty());
        assert(items.take(k) =~= items);
    } else {
        let x = items[k];
        lemma_all_canonical(items);
        assert(canonical(x));
        assert(fits_usize(x));
        lemma_encode_items_cons(items, k);
        let ex = encode_spec(x);
        lemma_sub_slice(s, q, rest, 0, ex.len() as int);
        assert(rest.subrange(0, ex.len() as int) =~= ex);
        lemma_decode_value(x, s, q);
        lemma_encode_first_byte(x);
        assert(s[q] == ex[0]);
        let tail = encode_items_spec(items.skip(k + 1));
        lemma_sub_slice(s, q, rest, ex.len() as int, rest.len() as int);
        assert(rest.subrange(ex.len() as int, rest.len() as int) =~= tail);
        assert(items.take(k).push(x) =~= items.take(k + 1));
        lemma_decode_list_rest(items, k + 1, s, q + ex.len());
    }
}

proof fn lemma_decode_dict_rest(entries: Seq<(Seq<u8>, Bencoded)>, k: int, s: Seq<u8>, q: int)
    requires
        0 <= k <= entries.len(),
        canonical(Bencoded::Dict(entries)),
        fits_usize(Bencoded::Dict(entries)),
        0 <= q,
        q + encode_entries_spec(entries.skip(k)).len() < s.len(),
        s.subrange(q, q + encode_entries_spec(entries.skip(k)).len()) == encode_entries_spec(
            entries.skip(k),
        ),
        s[q + encode_entries_spec(entries.skip(k)).len()] == BYTE_E,
    ensures
        decode_dict_spec(s, q, entries.take(k)) == Ok::<(Bencoded, int), DecodeFailure>(
            (Bencoded::Dict(entries), q + encode_entries_spec(entries.skip(k)).len() + 1),
        ),
    decreases entries, entries.len() - k + 1,
{
    let rest = encode_entries_spec(entries.skip(k));
    if k == entries.len() {
        assert(entries.skip(k) =~= Seq::<(Seq<u8>, Bencoded)>::empty());
        assert(entries.take(k) =~= entries);
    } else {
        let key = entries[k].0;
        let x = entries[k].1;
        lemma_all_values_canonical(entries);
        assert(canonical(x));
        assert(fits_usize(x));
        assert(key.len() <= usize::MAX);
        lemma_encode_entries_cons(entries, k);
        let ek = encode_bytes_spec(key);
        let ex = encode_spec(x);
        lemma_sub_slice(s, q, rest, 0, ek.len() as int);
        assert(rest.subrange(0, ek.len() as int) =~= ek);
        lemma_decode_bytes(key, s, q);
        lemma_nat_digits_shape(key.len());
        assert(s[q] == ek[0]);
        assert(ek[0] == nat_digits(key.len())[0]);
        lemma_sub_slice(s, q, rest, ek.len() as int, (ek.len() + ex.len()) as int);
        assert(rest.subrange(ek.len() as int, (ek.len() + ex.len()) as int) =~= ex);
        assert(decreases_to!(entries => entries[k]));
        lemma_decode_value(x, s, q + ek.len());
        let tail = encode_entries_spec(entries.skip(k + 1));
        lemma_sub_slice(s, q, rest, (ek.len() + ex.len()) as int, rest.len() as int);
        assert(rest.subrange((ek.len() + ex.len()) as int, rest.len() as int) =~= tail);
        let acc = entries.take(k);
        assert forall|i: int| 0 <= i < acc.len() implies bytes_lt(#[trigger] acc[i].0, key) by {
            assert(acc[i] == entries[i]);
        }
        lemma_dict_insert_last(acc, key, x);
        assert(acc.push((key, x)) =~= entries.take(k + 1));
        lemma_decode_dict_rest(entries, k + 1, s, q + (ek.len() + ex.len()) as int);
    }
}

// ---------------------------------------------------------------------------
// Values as a map keyed by byte strings holds them

/// The value as a map keyed by byte strings holds it: in every dictionary
/// the entries are set one after another, so that keys ascend and of two
/// entries with one key the later stays.
pub open spec fn normalize(v: Bencoded) -> Bencoded
    decreases v,
{
    match v {
        Bencoded::List(items) => Bencoded::List(normalize_items(items)),
        Bencoded::Dict(entries) => Bencoded::Dict(
            dict_insert_all(Seq::empty(), normalize_entries(entries)),
        ),
        _ => v,
    }
}

pub open spec fn normalize_items(s: Seq<Bencoded>) -> Seq<Bencoded>
    decreases s,
{
    if s.len() == 0 {
        Seq::empty()
    } else {
        normalize_items(s.subrange(0, s.len() - 1)).push(normalize(s[s.len() - 1]))
    }
}

pub open spec fn normalize_entries(s: Seq<(Seq<u8>, Bencoded)>) -> Seq<(Seq<u8>, Bencoded)>
    decreases s,
{
    if s.len() == 0 {
        Seq::empty()
    } else {
        normalize_entries(s.subrange(0, s.len() - 1)).push(
            (s[s.len() - 1].0, normalize(s[s.len() - 1].1)),
        )
    }
}

proof fn lemma_normalize_items(s: Seq<Bencoded>)
    ensures
        normalize_items(s).len() == s.len(),
        forall|i: int| 0 <= i < s.len() ==> #[trigger] normalize_items(s)[i] == normalize(s[i]),
    decreases s.len(),
{
    if s.len() > 0 {
        let t = s.subrange(0, s.len() - 1);
        lemma_normalize_items(t);
        assert forall|i: int| 0 <= i < t.len() implies t[i] == s[i] by {}
    }
}

proof fn lemma_normalize_entries(s: Seq<(Seq<u8>, Bencoded)>)
    ensures
        normalize_entries(s).len() == s.len(),
        forall|i: int|
            0 <= i < s.len() ==> #[trigger] normalize_entries(s)[i] == (s[i].0, normalize(s[i].1)),
    decreases s.len(),
{
    if s.len() > 0 {
        let t = s.subrange(0, s.len() - 1);
        lemma_normalize_entries(t);
        assert forall|i: int| 0 <= i < t.len() implies t[i] == s[i] by {}
    }
}

/// Each entry of `dict_insert(d, k, v)` is `(k, v)` or an entry of `d`.
proof fn lemma_dict_insert_entries(d: Seq<(Seq<u8>, Bencoded)>, k: Seq<u8>, v: Bencoded)
    ensures
        forall|i: int|
            0 <= i < dict_insert(d, k, v).len() ==> #[trigger] dict_insert(d, k, v)[i] == (k, v)
                || d.contains(dict_insert(d, k, v)[i]),
    decreases d.len(),
{
    let r = dict_insert(d, k, v);
    if d.len() == 0 {
    } else if bytes_lt(k, d[0].0) {
        assert forall|i: int| 0 <= i < r.len() implies #[trigger] r[i] == (k, v) || d.contains(r[i]) by {
            if i > 0 {
                assert(r[i] == d[i - 1]);
            }
        }
    } else if k == d[0].0 {
        assert forall|i: int| 0 <= i < r.len() implies #[trigger] r[i] == (k, v) || d.contains(r[i]) by {
            if i > 0 {
                assert(r[i] == d[i]);
            }
        }
    } else {
        let rest = d.drop_first();
        lemma_dict_insert_entries(rest, k, v);
        let r2 = dict_insert(rest, k, v);
        assert forall|i: int| 0 <= i < r.len() implies #[trigger] r[i] == (k, v) || d.contains(r[i]) by {
            if i == 0 {
                assert(r[0] == d[0]);
            } else {
                assert(r[i] == r2[i - 1]);
                if r2[i - 1] != (k, v) {
                    let j = choose|j: int| 0 <= j < rest.len() && rest[j] == r2[i - 1];
                    assert(d[j + 1] == r[i]);
                }
            }
        }
    }
}

/// Setting a key keeps the keys ascending.
proof fn lemma_dict_insert_ascending(d: Seq<(Seq<u8>, Bencoded)>, k: Seq<u8>, v: Bencoded)
    requires
        keys_ascending(d),
    ensures
        keys_ascending(dict_insert(d, k, v)),
    decreases d.len(),
{
    let r = dict_insert(d, k, v);
    if d.len() == 0 {
    } else if bytes_lt(k, d[0].0) {
        assert forall|i: int, j: int| 0 <= i < j < r.len() implies bytes_lt(#[trigger] r[i].0, #[trigger] r[j].0) by {
            if i == 0 {
                if j > 1 {
                    lemma_bytes_lt_transitive(k, d[0].0, d[j - 1].0);
                }
            }
        }
    } else if k == d[0].0 {
        assert forall|i: int, j: int| 0 <= i < j < r.len() implies bytes_lt(#[trigger] r[i].0, #[trigger] r[j].0) by {
            assert(r[j].0 == d[j].0);
            assert(r[i].0 == d[i].0);
        }
    } else {
        let rest = d.drop_first();
        assert(keys_ascending(rest)) by {
            assert forall|i: int, j: int| 0 <= i < j < rest.len() implies bytes_lt(#[trigger] rest[i].0, #[trigger] rest[j].0) by {
                assert(rest[i] == d[i + 1]);
                assert(rest[j] == d[j + 1]);
            }
        }
        lemma_dict_insert_ascending(rest, k, v);
        lemma_dict_insert_entries(rest, k, v);
        lemma_bytes_lt_total(k, d[0].0);
        let r2 = dict_insert(rest, k, v);
        assert forall|i: int, j: int| 0 <= i < j < r.len() implies bytes_lt(#[trigger] r[i].0, #[trigger] r[j].0) by {
            assert(r[j] == r2[j - 1]);
            if i == 0 {
                if r2[j - 1] != (k, v) {
                    let m = choose|m: int| 0 <= m < rest.len() && rest[m] == r2[j - 1];
                    assert(d[m + 1] == r2[j - 1]);
                }
            } else {
                assert(r[i] == r2[i - 1]);
            }
        }
    }
}

/// Setting entries one after another from a dictionary with ascending keys
/// keeps the keys ascending, and each entry comes from one or the other.
proof fn lemma_dict_insert_all(acc: Seq<(Seq<u8>, Bencoded)>, es: Seq<(Seq<u8>, Bencoded)>)
    requires
        keys_ascending(acc),
    ensures
        keys_ascending(dict_insert_all(acc, es)),
        forall|i: int|
            0 <= i < dict_insert_all(acc, es).len() ==> acc.contains(#[trigger] dict_insert_all(acc, es)[i])
                || es.contains(dict_insert_all(acc, es)[i]),
    decreases es.len(),
{
    if es.len() > 0 {
        let next = dict_insert(acc, es[0].0, es[0].1);
        let rest = es.drop_first();
        lemma_dict_insert_ascending(acc, es[0].0, es[0].1);
        lemma_dict_insert_entries(acc, es[0].0, es[0].1);
        lemma_dict_insert_all(next, rest);
        let r = dict_insert_all(acc, es);
        assert forall|i: int| 0 <= i < r.len() implies acc.contains(#[trigger] r[i]) || es.contains(r[i]) by {
            if next.contains(r[i]) {
                let m = choose|m: int| 0 <= m < next.len() && next[m] == r[i];
                if next[m] == (es[0].0, es[0].1) {
                    assert(es[0] == r[i]);
                }
            } else {
                let m = choose|m: int| 0 <= m < rest.len() && rest[m] == r[i];
                assert(es[m + 1] == r[i]);
            }
        }
    }
}

/// What a map keyed by byte strings holds has ascending keys in every
/// dictionary, and its byte strings fit where those of the value did.
proof fn lemma_normalize_canonical(v: Bencoded)
    requires
        fits_usize(v),
    ensures
        canonical(normalize(v)),
        fits_usize(normalize(v)),
    decreases v,
{
    match v {
        Bencoded::List(items) => {
            let n = normalize_items(items);
            lemma_normalize_items(items);
            lemma_all_canonical(items);
            lemma_all_canonical(n);
            assert forall|i: int| 0 <= i < n.len() implies canonical(#[trigger] n[i]) && fits_usize(n[i]) by {
                assert(decreases_to!(v => items));
                assert(decreases_to!(items => items[i]));
                lemma_normalize_canonical(items[i]);
            }
        },
        Bencoded::Dict(entries) => {
            let ne = normalize_entries(entries);
            let r = dict_insert_all(Seq::empty(), ne);
            lemma_normalize_entries(entries);
            lemma_all_values_canonical(entries);
            assert forall|i: int| 0 <= i < ne.len() implies canonical(#[trigger] ne[i].1)
                && fits_usize(ne[i].1) && ne[i].0.len() <= usize::MAX by {
                assert(decreases_to!(v => entries));
                assert(decreases_to!(entries => entries[i]));
                assert(decreases_to!(entries[i] => entries[i].1));
                lemma_normalize_canonical(entries[i].1);
            }
            lemma_dict_insert_all(Seq::empty(), ne);
            lemma_all_values_canonical(r);
            assert forall|i: int| 0 <= i < r.len() implies canonical(#[trigger] r[i].1) && fits_usize(r[i].1)
                && r[i].0.len() <= usize::MAX by {
                assert(!Seq::<(Seq<u8>, Bencoded)>::empty().contains(r[i]));
                let m = choose|m: int| 0 <= m < ne.len() && ne[m] == r[i];
                assert(canonical(ne[m].1));
            }
        },
        _ => {},
    }
}

proof fn lemma_insert_all_sorted(entries: Seq<(Seq<u8>, Bencoded)>, i: int)
    requires
        keys_ascending(entries),
        0 <= i <= entries.len(),
    ensures
        dict_insert_all(entries.take(i), entries.skip(i)) == entries,
    decreases entries.len() - i,
{
    if i == entries.len() {
        assert(entries.take(i) =~= entries);
        assert(entries.skip(i) =~= Seq::<(Seq<u8>, Bencoded)>::empty());
    } else {
        let es = entries.skip(i);
        let acc = entries.take(i);
        assert(es[0] == entries[i]);
        assert(es.drop_first() =~= entries.skip(i + 1));
        assert forall|j: int| 0 <= j < acc.len() implies bytes_lt(#[trigger] acc[j].0, entries[i].0) by {
            assert(acc[j] == entries[j]);
        }
        lemma_dict_insert_last(acc, entries[i].0, entries[i].1);
        assert(acc.push((entries[i].0, entries[i].1)) =~= entries.take(i + 1));
        lemma_insert_all_sorted(entries, i + 1);
    }
}

/// A value whose dictionaries have ascending keys is held as it is.
proof fn lemma_normalize_keeps(v: Bencoded)
    requires
        canonical(v),
    ensures
        normalize(v) == v,
    decreases v,
{
    match v {
        Bencoded::List(items) => {
            lemma_normalize_items(items);
            lemma_all_canonical(items);
            assert forall|i: int| 0 <= i < items.len() implies #[trigger] normalize_items(items)[i] == items[i] by {
                assert(decreases_to!(v => items));
                assert(decreases_to!(items => items[i]));
                lemma_normalize_keeps(items[i]);
            }
            assert(normalize_items(items) =~= items);
        },
        Bencoded::Dict(entries) => {
            lemma_normalize_entries(entries);
            lemma_all_values_canonical(entries);
            assert forall|i: int| 0 <= i < entries.len() implies #[trigger] normalize_entries(entries)[i] == entries[i] by {
                assert(decreases_to!(v => entries));
                assert(decreases_to!(entries => entries[i]));
                assert(decreases_to!(entries[i] => entries[i].1));
                lemma_normalize_keeps(entries[i].1);
            }
            assert(normalize_entries(entries) =~= entries);
            assert(entries.take(0) =~= Seq::<(Seq<u8>, Bencoded)>::empty());
            assert(entries.skip(0) =~= entries);
            lemma_insert_all_sorted(entries, 0);
        },
        _ => {},
    }
}

/// Decoding gives back what encoding wrote, whatever bytes follow it: the
/// value as a map keyed by byte strings holds it, which is the value itself
/// wherever its dictionaries have ascending keys.
pub proof fn lemma_decode_encode(v: BencodeValue, rest: Seq<u8>)
    ensures
        decode_spec(encode_spec(normalize(v@)) + rest, 0) == Ok::<(Bencoded, int), DecodeFailure>(
            (normalize(v@), encode_spec(normalize(v@)).len() as int),
        ),
        canonical(v@) ==> normalize(v@) == v@,
{
    lemma_value_fits(v);
    lemma_normalize_canonical(v@);
    let n = normalize(v@);
    let e = encode_spec(n);
    let s = e + rest;
    assert(s.subrange(0, e.len() as int) =~= e);
    lemma_decode_value(n, s, 0);
    if canonical(v@) {
        lemma_normalize_keeps(v@);
    }
}

// ---------------------------------------------------------------------------
// Building and reading values

/// The text that bytes encode as UTF-8, if they are valid UTF-8.
pub open spec fn utf8_text(b: Seq<u8>) -> Option<Seq<char>> {
    if valid_utf8(b) {
        Some(decode_utf8(b))
    } else {
        None
    }
}

impl Clone for BencodeValue {
    fn clone(&self) -> (r: Self)
        ensures
            r@ == self@,
        decreases self,
    {
        match self {
            BencodeValue::Integer(i) => BencodeValue::Integer(*i),
            BencodeValue::ByteString(b) => BencodeValue::ByteString(copy_bytes(b.as_slice())),
            BencodeValue::List(items) => {
                let mut out: Vec<BencodeValue> = Vec::new();
                let mut i: usize = 0;
                while i < items.len()
                    invariant
                        i <= items@.len(),
                        *self == BencodeValue::List(*items),
                        out@.len() == i,
                        forall|j: int| 0 <= j < i ==> #[trigger] out@[j]@ == items@[j]@,
                    decreases items@.len() - i,
                {
                    proof {
                        vstd::std_specs::vec::axiom_vec_index_decreases(*items, i as int);
                        assert(decreases_to!(*self => (*self)->List_0));
                    }
                    let c = items[i].clone();
                    out.push(c);
                    i = i + 1;
                }
                proof {
                    lemma_list_model(out@);
                    lemma_list_model(items@);
                    assert(list_model(out@) =~= list_model(items@));
                }
                BencodeValue::List(out)
            },
            BencodeValue::Dict(entries) => {
                let mut out: Vec<(Vec<u8>, BencodeValue)> = Vec::new();
                let mut i: usize = 0;
                while i < entries.len()
                    invariant
                        i <= entries@.len(),
                        *self == BencodeValue::Dict(*entries),
                        out@.len() == i,
                        forall|j: int|
                            0 <= j < i ==> (#[trigger] out@[j]).0@ == entries@[j].0@ && out@[j].1@
                                == entries@[j].1@,
                    decreases entries@.len() - i,
                {
                    proof {
                        vstd::std_specs::vec::axiom_vec_index_decreases(*entries, i as int);
                        assert(decreases_to!(*self => (*self)->Dict_0));
                        assert(decreases_to!(entries[i as int] => entries[i as int].1));
                    }
                    let entry = &entries[i];
                    let k = copy_bytes(entry.0.as_slice());
                    let v = entry.1.clone();
                    out.push((k, v));
                    i = i + 1;
                }
                proof {
                    lemma_dict_model(out@);
                    lemma_dict_model(entries@);
                    assert(dict_model(out@) =~= dict_model(entries@));
                }
                BencodeValue::Dict(out)
            },
        }
    }
}

impl BencodeValue {
    /// A dictionary holding `entries`, set one after another: keys come out
    /// in ascending order, and of two entries with one key the later wins.
    pub fn dict_from_entries(entries: Vec<(Vec<u8>, BencodeValue)>) -> (r: BencodeValue)
        ensures
            r@ == Bencoded::Dict(dict_insert_all(Seq::empty(), dict_model(entries@))),
    {
        let mut rest = entries;
        let mut d: Vec<(Vec<u8>, BencodeValue)> = Vec::new();
        assert(dict_model(d@) =~= Seq::<(Seq<u8>, Bencoded)>::empty());
        while rest.len() > 0
            invariant
                dict_insert_all(Seq::empty(), dict_model(entries@)) == dict_insert_all(
                    dict_model(d@),
                    dict_model(rest@),
                ),
            decreases rest@.len(),
        {
            proof {
                lemma_dict_model(rest@);
                lemma_dict_model(rest@.drop_first());
                assert(dict_model(rest@).drop_first() =~= dict_model(rest@.drop_first()));
            }
            let (k, v) = rest.remove(0);
            dict_set(&mut d, k, v);
        }
        proof {
            lemma_dict_model(rest@);
        }
        BencodeValue::Dict(d)
    }

    /// The value under `key`, if this is a dictionary that has it.
    pub fn dict_get(&self, key: &[u8]) -> (r: Option<&BencodeValue>)
        ensures
            match self@ {
                Bencoded::Dict(d) => match dict_find(d, key@) {
                    Some(i) => r matches Some(v) && v@ == d[i].1,
                    None => r is None,
                },
                _ => r is None,
            },
    {
        match self {
            BencodeValue::Dict(entries) => {
                let ghost d = dict_model(entries@);
                proof {
                    lemma_dict_model(entries@);
                }
                let mut i: usize = 0;
                while i < entries.len()
                    invariant
                        i <= entries@.len(),
                        *self == BencodeValue::Dict(*entries),
                        self@ == Bencoded::Dict(d),
                        d == dict_model(entries@),
                        d.len() == entries@.len(),
                        forall|j: int|
                            0 <= j < entries@.len() ==> #[trigger] d[j] == (
                                entries@[j].0@,
                                entries@[j].1@,
                            ),
                        forall|j: int| 0 <= j < i ==> #[trigger] d[j].0 != key@,
                    decreases entries@.len() - i,
                {
                    match compare_keys(entries[i].0.as_slice(), key) {
                        KeyOrder::Equal => {
                            let ghost c = dict_find(d, key@);
                            assert(d[i as int].0 == key@);
                            assert(exists|j: int| 0 <= j < d.len() && #[trigger] d[j].0 == key@);
                            assert(c is Some);
                            assert(c == Some(i as int)) by {
                                let ci = c->0;
                                if ci < i {
                                    assert(d[ci].0 != key@);
                                } else if ci > i {
                                    assert(d[i as int].0 == key@);
                                }
                            }
                            return Some(&entries[i].1);
                        },
                        _ => {},
                    }
                    i = i + 1;
                }
                None
            },
            _ => None,
        }
    }

    /// The number, if this is an integer.
    pub fn as_int(&self) -> (r: Option<i64>)
        ensures
            r == (match self@ {
                Bencoded::Int(i) => Some(i),
                _ => None::<i64>,
            }),
    {
        match self {
            BencodeValue::Integer(i) => Some(*i),
            _ => None,
        }
    }

    /// The bytes, if this is a byte string.
    pub fn as_bytes(&self) -> (r: Option<&[u8]>)
        ensures
            match self@ {
                Bencoded::Bytes(b) => r matches Some(x) && x@ == b,
                _ => r is None,
            },
    {
        match self {
            BencodeValue::ByteString(data) => Some(data.as_slice()),
            _ => None,
        }
    }

    /// The items, if this is a list.
    pub fn as_list(&self) -> (r: Option<&Vec<BencodeValue>>)
        ensures
            match self@ {
                Bencoded::List(items) => r matches Some(x) && list_model(x@) == items,
                _ => r is None,
            },
    {
        match self {
            BencodeValue::List(items) => Some(items),
            _ => None,
        }
    }

    /// The text, if this is a byte string holding valid UTF-8.
    pub fn as_str(&self) -> (r: Result<String, BError>)
        ensures
            match self@ {
                Bencoded::Bytes(b) => match utf8_text(b) {
                    Some(t) => r matches Ok(s) && s@ == t,
                    None => r matches Err(e) && e is BencodeParse,
                },
                _ => r matches Err(e) && e is BencodeParse,
            },
    {
        match self {
            BencodeValue::ByteString(data) => match string_from_utf8(copy_bytes(data.as_slice())) {
                Some(s) => Ok(s),
                None => Err(bencode_parse_error("byte string is not valid UTF-8")),
            },
            _ => Err(bencode_parse_error("expected a byte string")),
        }
    }

    /// The text under `key`, if this is a dictionary holding valid UTF-8 there.
    pub fn dict_get_str(&self, key: &[u8]) -> (r: Option<String>)
        ensures
            match dict_lookup(self@, key@) {
                Some(Bencoded::Bytes(b)) => match utf8_text(b) {
                    Some(t) => r matches Some(s) && s@ == t,
                    None => r is None,
                },
                _ => r is None,
            },
    {
        match self.dict_get(key) {
            Some(v) => match v.as_str() {
                Ok(s) => Some(s),
                Err(_) => None,
            },
            None => None,
        }
    }

    /// The number under `key`, if this is a dictionary holding an integer there.
    pub fn dict_get_int(&self, key: &[u8]) -> (r: Option<i64>)
        ensures
            r == (match dict_lookup(self@, key@) {
                Some(Bencoded::Int(i)) => Some(i),
                _ => None::<i64>,
            }),
    {
        match self.dict_get(key) {
            Some(v) => v.as_int(),
            None => None,
        }
    }

    /// The bytes under `key`, if this is a dictionary holding a byte string there.
    pub fn dict_get_bytes(&self, key: &[u8]) -> (r: Option<&[u8]>)
        ensures
            match dict_lookup(self@, key@) {
                Some(Bencoded::Bytes(b)) => r matches Some(x) && x@ == b,
                _ => r is None,
            },
    {
        match self.dict_get(key) {
            Some(v) => v.as_bytes(),
            None => None,
        }
    }
}

/// The value under `key` in `v`, if `v` is a dictionary that has it.
pub open spec fn dict_lookup(v: Bencoded, key: Seq<u8>) -> Option<Bencoded> {
    match v {
        Bencoded::Dict(d) => match dict_find(d, key) {
            Some(i) => Some(d[i].1),
            None => None,
        },
        _ => None,
    }
}


// ---------------------------------------------------------------------------
// Where a value of the top-level dictionary lies

/// The value of the first entry with key `k` in `d`, read front to back.
pub open spec fn first_value(d: Seq<(Seq<u8>, Bencoded)>, k: Seq<u8>) -> Option<Bencoded>
    decreases d.len(),
{
    if d.len() == 0 {
        None
    } else if d[0].0 == k {
        Some(d[0].1)
    } else {
        first_value(d.drop_first(), k)
    }
}

/// Going through the entries of a dictionary from position `q`, where the
/// value of the last entry with key `k` starts and ends; `found` is what was
/// seen before `q`.
pub open spec fn value_span_from(s: Seq<u8>, q: int, k: Seq<u8>, found: Option<(int, int)>) -> Option<
    (int, int),
>
    decreases s.len() - q,
{
    if q < 0 || q >= s.len() || s[q] == BYTE_E {
        found
    } else {
        match decode_spec(s, q) {
            Ok((Bencoded::Bytes(key), q2)) => if q < q2 <= s.len() {
                match decode_spec(s, q2) {
                    Ok((_, q3)) => if q2 < q3 <= s.len() {
                        value_span_from(
                            s,
                            q3,
                            k,
                            if key == k {
                                Some((q2, q3))
                            } else {
                                found
                            },
                        )
                    } else {
                        found
                    },
                    Err(_) => found,
                }
            } else {
                found
            },
            _ => found,
        }
    }
}

/// Where, in `s`, the value under key `k` of the dictionary that `s` starts
/// with lies: the positions of its first byte and of the byte after it.
/// Where the key occurs more than once, the last occurrence counts, as in
/// the decoded dictionary.
pub open spec fn top_level_value_span(s: Seq<u8>, k: Seq<u8>) -> Option<(int, int)> {
    if s.len() > 0 && s[0] == BYTE_D {
        value_span_from(s, 1, k, None)
    } else {
        None
    }
}

/// `i` is the first position of `d` with key `k`.
pub open spec fn first_position(d: Seq<(Seq<u8>, Bencoded)>, k: Seq<u8>, i: int) -> bool {
    0 <= i < d.len() && d[i].0 == k && forall|j: int| 0 <= j < i ==> #[trigger] d[j].0 != k
}

proof fn lemma_first_position_exists(d: Seq<(Seq<u8>, Bencoded)>, k: Seq<u8>, i: int)
    requires
        0 <= i < d.len(),
        d[i].0 == k,
    ensures
        exists|f: int| first_position(d, k, f),
    decreases i,
{
    if exists|j: int| 0 <= j < i && #[trigger] d[j].0 == k {
        let j = choose|j: int| 0 <= j < i && #[trigger] d[j].0 == k;
        lemma_first_position_exists(d, k, j);
    } else {
        assert(first_position(d, k, i));
    }
}

proof fn lemma_first_position_unique(d: Seq<(Seq<u8>, Bencoded)>, k: Seq<u8>, a: int, b: int)
    requires
        first_position(d, k, a),
        first_position(d, k, b),
    ensures
        a == b,
{
    if a < b {
        assert(d[a].0 != k);
    } else if b < a {
        assert(d[b].0 != k);
    }
}

proof fn lemma_first_value_find(d: Seq<(Seq<u8>, Bencoded)>, k: Seq<u8>)
    ensures
        first_value(d, k) == match dict_find(d, k) {
            Some(i) => Some(d[i].1),
            None => None,
        },
    decreases d.len(),
{
    if d.len() > 0 {
        let rest = d.drop_first();
        lemma_first_value_find(rest, k);
        if d[0].0 == k {
            lemma_first_position_exists(d, k, 0);
            assert(first_position(d, k, 0));
            let c = dict_find(d, k)->0;
            assert(first_position(d, k, c));
            lemma_first_position_unique(d, k, 0, c);
        } else if exists|i: int| 0 <= i < d.len() && #[trigger] d[i].0 == k {
            let w = choose|i: int| 0 <= i < d.len() && #[trigger] d[i].0 == k;
            lemma_first_position_exists(d, k, w);
            let c = dict_find(d, k)->0;
            assert(first_position(d, k, c));
            assert(c > 0);
            assert(rest[c - 1].0 == k);
            assert(first_position(rest, k, c - 1)) by {
                assert forall|j: int| 0 <= j < c - 1 implies #[trigger] rest[j].0 != k by {
                    assert(d[j + 1].0 != k);
                }
            }
            lemma_first_position_exists(rest, k, c - 1);
            let c2 = dict_find(rest, k)->0;
            assert(first_position(rest, k, c2));
            lemma_first_position_unique(rest, k, c - 1, c2);
        } else {
            assert forall|i: int| 0 <= i < rest.len() implies #[trigger] rest[i].0 != k by {
                assert(d[i + 1].0 != k);
            }
        }
    }
}

proof fn lemma_first_value_insert(d: Seq<(Seq<u8>, Bencoded)>, k: Seq<u8>, v: Bencoded, key: Seq<u8>)
    ensures
        first_value(dict_insert(d, k, v), key) == if k == key {
            Some(v)
        } else {
            first_value(d, key)
        },
    decreases d.len(),
{
    let r = dict_insert(d, k, v);
    if d.len() == 0 {
        assert(r.drop_first() =~= Seq::<(Seq<u8>, Bencoded)>::empty());
    } else if bytes_lt(k, d[0].0) {
        assert(r.drop_first() =~= d);
    } else if k == d[0].0 {
        assert(r.drop_first() =~= d.drop_first());
    } else {
        lemma_first_value_insert(d.drop_first(), k, v, key);
        assert(r.drop_first() =~= dict_insert(d.drop_first(), k, v));
    }
}

proof fn lemma_decode_list_is_list(s: Seq<u8>, q: int, acc: Seq<Bencoded>)
    ensures
        decode_list_spec(s, q, acc) matches Ok((v, _)) ==> v is List,
    decreases s.len() - q,
{
    if 0 <= q < s.len() && s[q] != BYTE_E {
        match decode_spec(s, q) {
            Ok((v, q2)) => if q < q2 <= s.len() {
                lemma_decode_list_is_list(s, q2, acc.push(v));
            },
            Err(_) => {},
        }
    }
}

proof fn lemma_value_span_from(
    s: Seq<u8>,
    q: int,
    acc: Seq<(Seq<u8>, Bencoded)>,
    k: Seq<u8>,
    found: Option<(int, int)>,
    d: Seq<(Seq<u8>, Bencoded)>,
    end: int,
)
    requires
        decode_dict_spec(s, q, acc) == Ok::<(Bencoded, int), DecodeFailure>((Bencoded::Dict(d), end)),
        found is None <==> first_value(acc, k) is None,
        found matches Some((a, b)) ==> decode_spec(s, a) == Ok::<(Bencoded, int), DecodeFailure>(
            (first_value(acc, k)->0, b),
        ),
    ensures
        value_span_from(s, q, k, found) is None <==> first_value(d, k) is None,
        value_span_from(s, q, k, found) matches Some((a, b)) ==> decode_spec(s, a) == Ok::<
            (Bencoded, int),
            DecodeFailure,
        >((first_value(d, k)->0, b)),
    decreases s.len() - q,
{
    if s[q] == BYTE_E {
    } else {
        match decode_spec(s, q) {
            Ok((Bencoded::Bytes(key), q2)) => {
                match decode_spec(s, q2) {
                    Ok((v, q3)) => {
                        lemma_first_value_insert(acc, key, v, k);
                        lemma_value_span_from(
                            s,
                            q3,
                            dict_insert(acc, key, v),
                            k,
                            if key == k {
                                Some((q2, q3))
                            } else {
                                found
                            },
                            d,
                            end,
                        );
                    },
                    Err(_) => {},
                }
            },
            _ => {},
        }
    }
}

/// Where the dictionary that `s` starts with has a value under `k`, its span
/// in `s` is known, and the bytes there decode, on their own place in `s`,
/// to exactly that value.
pub proof fn lemma_top_level_value_span(s: Seq<u8>, k: Seq<u8>, root: Bencoded, end: int, v: Bencoded)
    requires
        decode_spec(s, 0) == Ok::<(Bencoded, int), DecodeFailure>((root, end)),
        dict_lookup(root, k) == Some(v),
    ensures
        top_level_value_span(s, k) matches Some((a, b)) && 0 < a < b <= s.len() && decode_spec(s, a)
            == Ok::<(Bencoded, int), DecodeFailure>((v, b)),
{
    if s[0] == BYTE_I {
    } else if s[0] == BYTE_L {
        lemma_decode_list_is_list(s, 1, Seq::empty());
    } else if s[0] == BYTE_D {
        let d = root->Dict_0;
        lemma_first_value_find(d, k);
        lemma_value_span_from(s, 1, Seq::empty(), k, None, d, end);
        lemma_value_span_bounds(s, 1, k, None);
    }
}

proof fn lemma_value_span_bounds(s: Seq<u8>, q: int, k: Seq<u8>, found: Option<(int, int)>)
    requires
        q >= 1,
        found matches Some((a, b)) ==> 0 < a < b <= s.len(),
    ensures
        value_span_from(s, q, k, found) matches Some((a, b)) ==> 0 < a < b <= s.len(),
    decreases s.len() - q,
{
    if 0 <= q < s.len() && s[q] != BYTE_E {
        match decode_spec(s, q) {
            Ok((Bencoded::Bytes(key), q2)) => if q < q2 <= s.len() {
                match decode_spec(s, q2) {
                    Ok((_, q3)) => if q2 < q3 <= s.len() {
                        lemma_value_span_bounds(
                            s,
                            q3,
                            k,
                            if key == k {
                                Some((q2, q3))
                            } else {
                                found
                            },
                        );
                    },
                    Err(_) => {},
                }
            },
            _ => {},
        }
    }
}

/// Where the value under `key` of the dictionary that `input` starts with
/// lies (see `top_level_value_span`).
pub fn top_level_value_at(input: &[u8], key: &[u8]) -> (r: Option<(usize, usize)>)
    ensures
        r is Some <==> top_level_value_span(input@, key@) is Some,
        r matches Some((a, b)) ==> top_level_value_span(input@, key@) == Some((a as int, b as int))
            && 0 < a < b <= input@.len(),
{
    if input.len() == 0 || input[0] != BYTE_D {
        return None;
    }
    let mut p: usize = 1;
    let mut found: Option<(usize, usize)> = None;
    loop
        invariant
            1 <= p <= input@.len(),
            found matches Some((a, b)) ==> 0 < a < b <= input@.len(),
            top_level_value_span(input@, key@) == value_span_from(
                input@,
                p as int,
                key@,
                match found {
                    Some((a, b)) => Some((a as int, b as int)),
                    None => None,
                },
            ),
        decreases input@.len() - p,
    {
        let ghost fs = match found {
            Some((a, b)) => Some((a as int, b as int)),
            None => None::<(int, int)>,
        };
        proof {
            lemma_value_span_bounds(input@, p as int, key@, fs);
        }
        if p >= input.len() || input[p] == BYTE_E {
            return found;
        }
        let (k, p2) = match decode_value_at(input, p) {
            Ok((BencodeValue::ByteString(k), p2)) => (k, p2),
            _ => {
                return found;
            },
        };
        let p3 = match decode_value_at(input, p2) {
            Ok((_, p3)) => p3,
            Err(_) => {
                return found;
            },
        };
        match compare_keys(k.as_slice(), key) {
            KeyOrder::Equal => {
                found = Some((p2, p3));
            },
            _ => {},
        }
        p = p3;
    }
}

} // verus!

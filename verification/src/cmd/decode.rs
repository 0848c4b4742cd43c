//! The `decode` command: a bencode decoder.
use vstd::prelude::*;

use crate::peer::connection::copy_range;

verus! {

/// Arguments of the `decode` command: the bencoded text to decode.
pub struct Decode {
    pub encoded: String,
}

/// A decoded bencode value.
pub enum Value {
    Int(i64),
    /// A byte string.
    Str(Vec<u8>),
    List(Vec<Value>),
    /// The entries of a dictionary, ordered by key, one per key.
    Dict(Vec<(Vec<u8>, Value)>),
}

/// A decoded value as a mathematical value.
pub enum SValue {
    Int(int),
    Str(Seq<u8>),
    List(Seq<SValue>),
    Dict(Seq<(Seq<u8>, SValue)>),
}

impl Value {
    pub open spec fn view_value(self) -> SValue
        decreases self,
    {
        match self {
            Value::Int(n) => SValue::Int(n as int),
            Value::Str(s) => SValue::Str(s@),
            Value::List(items) => SValue::List(
                Seq::new(
                    items@.len(),
                    |i: int|
                        if 0 <= i < items@.len() {
                            items@[i].view_value()
                        } else {
                            SValue::Int(0)
                        },
                ),
            ),
            Value::Dict(entries) => SValue::Dict(
                Seq::new(
                    entries@.len(),
                    |i: int|
                        if 0 <= i < entries@.len() {
                            (entries@[i].0@, entries@[i].1.view_value())
                        } else {
                            (Seq::empty(), SValue::Int(0))
                        },
                ),
            ),
        }
    }
}

/// Why a bencoded text was refused.
#[derive(Debug, Clone, Copy, PartialEq, Eq, Structural)]
pub enum DecodeError {
    /// A string's length is not followed by `:`.
    StringDelimiterNotFound,
    /// A string's length is not a valid unsigned integer.
    InvalidLength,
    /// An integer is not terminated by `e`.
    NumberDelimiterNotFound,
    /// An integer is not a valid 64-bit signed integer.
    InvalidNumber,
    /// A dictionary key is not a string.
    InvalidDictKey,
    /// The text starts with none of a digit, `i`, `l` and `d`.
    Unhandled,
}

/// The outcome of decoding a prefix of some text.
pub enum Outcome<T> {
    /// A value, and the number of bytes it took.
    Done(T, nat),
    /// The text is refused.
    Failed(DecodeError),
    /// The text slices a string past its end or inside a UTF-8 character.
    Panics,
}

pub open spec fn is_digit(b: u8) -> bool {
    48 <= b <= 57
}

pub open spec fn all_digits(d: Seq<u8>) -> bool {
    forall|i: int| 0 <= i < d.len() ==> is_digit(#[trigger] d[i])
}

/// A UTF-8 continuation byte: `0b10xx_xxxx`. In valid UTF-8 text, a byte
/// index is a character boundary unless the byte there is one of these.
pub open spec fn is_continuation(b: u8) -> bool {
    128 <= b < 192
}

/// The value of a string of decimal digits.
pub open spec fn digits_value(d: Seq<u8>) -> nat
    decreases d.len(),
{
    if d.len() == 0 {
        0
    } else {
        digits_value(d.drop_last()) * 10 + (d.last() - 48) as nat
    }
}

/// What `str::parse::<usize>` accepts: an optional `+` and at least one
/// digit, of a value that fits.
pub open spec fn spec_parse_usize(s: Seq<u8>) -> Option<nat> {
    let d = if s.len() > 0 && s[0] == 43 {
        s.drop_first()
    } else {
        s
    };
    if d.len() > 0 && all_digits(d) && digits_value(d) <= usize::MAX {
        Some(digits_value(d))
    } else {
        None
    }
}

/// What `str::parse::<i64>` accepts: an optional `+` or `-` and at least one
/// digit, of a value that fits.
pub open spec fn spec_parse_i64(s: Seq<u8>) -> Option<int> {
    if s.len() > 0 && s[0] == 45 {
        let d = s.drop_first();
        if d.len() > 0 && all_digits(d) && digits_value(d) <= 0x8000_0000_0000_0000 {
            Some(-digits_value(d))
        } else {
            None
        }
    } else {
        let d = if s.len() > 0 && s[0] == 43 {
            s.drop_first()
        } else {
            s
        };
        if d.len() > 0 && all_digits(d) && digits_value(d) <= i64::MAX {
            Some(digits_value(d) as int)
        } else {
            None
        }
    }
}

/// The index of the first byte `b` in `s`.
pub open spec fn find_byte(s: Seq<u8>, b: u8) -> Option<int>
    decreases s.len(),
{
    if s.len() == 0 {
        None
    } else if s[0] == b {
        Some(0)
    } else {
        match find_byte(s.drop_first(), b) {
            Some(i) => Some(i + 1),
            None => None,
        }
    }
}

/// Decodes the bencoded value at the front of `s`: a string `<len>:<bytes>`,
/// an integer `i<n>e`, a list `l...e` or a dictionary `d...e` whose keys are
/// strings. Searches for `:` and `e` run over the whole rest of the text.
pub open spec fn spec_decode(s: Seq<u8>) -> Outcome<SValue>
    decreases s.len(), 0int,
{
    if s.len() == 0 {
        Outcome::Failed(DecodeError::Unhandled)
    } else if is_digit(s[0]) {
        match find_byte(s, 58) {
            None => Outcome::Failed(DecodeError::StringDelimiterNotFound),
            Some(c) => match spec_parse_usize(s.take(c)) {
                None => Outcome::Failed(DecodeError::InvalidLength),
                Some(l) => {
                    let rest = s.skip(c + 1);
                    if l > rest.len() || (l < rest.len() && is_continuation(rest[l as int])) {
                        Outcome::Panics
                    } else {
                        Outcome::Done(SValue::Str(rest.take(l as int)), (c + 1 + l) as nat)
                    }
                },
            },
        }
    } else if s[0] == 105 {
        let t = s.skip(1);
        match find_byte(t, 101) {
            None => Outcome::Failed(DecodeError::NumberDelimiterNotFound),
            Some(c) => match spec_parse_i64(t.take(c)) {
                None => Outcome::Failed(DecodeError::InvalidNumber),
                Some(n) => Outcome::Done(SValue::Int(n), (c + 2) as nat),
            },
        }
    } else if s[0] == 108 {
        match spec_list(s.skip(1)) {
            Outcome::Done(items, k) => if k + 1 == s.len() {
                Outcome::Panics
            } else {
                Outcome::Done(SValue::List(items), k + 2)
            },
            Outcome::Failed(e) => Outcome::Failed(e),
            Outcome::Panics => Outcome::Panics,
        }
    } else if s[0] == 100 {
        match spec_dict(s.skip(1), Seq::empty()) {
            Outcome::Done(entries, k) => if k + 1 == s.len() {
                Outcome::Panics
            } else {
                Outcome::Done(SValue::Dict(entries), k + 2)
            },
            Outcome::Failed(e) => Outcome::Failed(e),
            Outcome::Panics => Outcome::Panics,
        }
    } else {
        Outcome::Failed(DecodeError::Unhandled)
    }
}

/// Decodes list items until the text ends or an `e` follows an item; the
/// count covers the items, not the `e`.
pub open spec fn spec_list(t: Seq<u8>) -> Outcome<Seq<SValue>>
    decreases t.len(), 1int,
{
    if t.len() == 0 || t[0] == 101 {
        Outcome::Done(Seq::empty(), 0)
    } else {
        match spec_decode(t) {
            Outcome::Done(v, n) => if 0 < n <= t.len() {
                match spec_list(t.skip(n as int)) {
                    Outcome::Done(vs, m) => Outcome::Done(seq![v] + vs, n + m),
                    Outcome::Failed(e) => Outcome::Failed(e),
                    Outcome::Panics => Outcome::Panics,
                }
            } else {
                Outcome::Panics
            },
            Outcome::Failed(e) => Outcome::Failed(e),
            Outcome::Panics => Outcome::Panics,
        }
    }
}

/// Byte-wise lexicographic order of keys: `a` comes before `b`.
pub open spec fn key_lt(a: Seq<u8>, b: Seq<u8>) -> bool
    decreases a.len(),
{
    if b.len() == 0 {
        false
    } else if a.len() == 0 {
        true
    } else if a[0] != b[0] {
        a[0] < b[0]
    } else {
        key_lt(a.drop_first(), b.drop_first())
    }
}

/// Inserts an entry as a map ordered by key does: a key already present
/// takes the new value; a new key goes before the first greater key.
pub open spec fn insert_entry(es: Seq<(Seq<u8>, SValue)>, key: Seq<u8>, v: SValue) -> Seq<
    (Seq<u8>, SValue),
>
    decreases es.len(),
{
    if es.len() == 0 {
        seq![(key, v)]
    } else if es[0].0 == key {
        es.update(0, (key, v))
    } else if key_lt(key, es[0].0) {
        seq![(key, v)] + es
    } else {
        seq![es[0]] + insert_entry(es.drop_first(), key, v)
    }
}

/// Whether the keys are in strictly increasing order, hence distinct.
pub open spec fn keys_sorted(es: Seq<(Seq<u8>, SValue)>) -> bool {
    forall|a: int, b: int| 0 <= a < b < es.len() ==> key_lt(#[trigger] es[a].0, #[trigger] es[b].0)
}

/// Decodes dictionary entries, a string key and a value each, until the
/// text ends or an `e` follows an entry, inserting each into `acc` as a
/// map ordered by key does; a repeated key keeps the last value.
pub open spec fn spec_dict(t: Seq<u8>, acc: Seq<(Seq<u8>, SValue)>) -> Outcome<
    Seq<(Seq<u8>, SValue)>,
>
    decreases t.len(), 1int,
{
    if t.len() == 0 || t[0] == 101 {
        Outcome::Done(acc, 0)
    } else {
        match spec_decode(t) {
            Outcome::Done(k, n) => match k {
                SValue::Str(key) => if 0 < n <= t.len() {
                    match spec_decode(t.skip(n as int)) {
                        Outcome::Done(v, m) => if 0 < m <= t.len() - n {
                            match spec_dict(t.skip((n + m) as int), insert_entry(acc, key, v)) {
                                Outcome::Done(es, r) => Outcome::Done(es, n + m + r),
                                Outcome::Failed(e) => Outcome::Failed(e),
                                Outcome::Panics => Outcome::Panics,
                            }
                        } else {
                            Outcome::Panics
                        },
                        Outcome::Failed(e) => Outcome::Failed(e),
                        Outcome::Panics => Outcome::Panics,
                    }
                } else {
                    Outcome::Panics
                },
                _ => Outcome::Failed(DecodeError::InvalidDictKey),
            },
            Outcome::Failed(e) => Outcome::Failed(e),
            Outcome::Panics => Outcome::Panics,
        }
    }
}

/// A value as decoding produces it: integers fit 64 bits, string lengths fit
/// a `usize`, and dictionaries have their keys in increasing order, all the
/// way down.
pub open spec fn value_wf(v: SValue) -> bool
    decreases v,
{
    match v {
        SValue::Int(n) => i64::MIN <= n <= i64::MAX,
        SValue::Str(b) => b.len() <= usize::MAX,
        SValue::List(items) => forall|i: int| 0 <= i < items.len() ==> value_wf(#[trigger] items[i]),
        SValue::Dict(es) => keys_sorted(es) && forall|i: int|
            0 <= i < es.len() ==> (#[trigger] es[i]).0.len() <= usize::MAX && value_wf(es[i].1),
    }
}

/// Whether entries have their keys in increasing order and well-formed keys
/// and values.
pub open spec fn entries_wf(es: Seq<(Seq<u8>, SValue)>) -> bool {
    keys_sorted(es) && forall|i: int|
        0 <= i < es.len() ==> (#[trigger] es[i]).0.len() <= usize::MAX && value_wf(es[i].1)
}

/// `a` never comes before itself.
pub proof fn lemma_key_lt_irreflexive(a: Seq<u8>)
    ensures
        !key_lt(a, a),
    decreases a.len(),
{
    if a.len() > 0 {
        lemma_key_lt_irreflexive(a.drop_first());
    }
}

/// The key order is transitive.
pub proof fn lemma_key_lt_transitive(a: Seq<u8>, b: Seq<u8>, c: Seq<u8>)
    requires
        key_lt(a, b),
        key_lt(b, c),
    ensures
        key_lt(a, c),
    decreases a.len(),
{
    if a.len() > 0 && a[0] == b[0] && b[0] == c[0] {
        lemma_key_lt_transitive(a.drop_first(), b.drop_first(), c.drop_first());
    }
}

/// Of two different keys, one comes before the other.
pub proof fn lemma_key_lt_total(a: Seq<u8>, b: Seq<u8>)
    ensures
        a == b || key_lt(a, b) || key_lt(b, a),
    decreases a.len(),
{
    if a.len() > 0 && b.len() > 0 && a[0] == b[0] {
        lemma_key_lt_total(a.drop_first(), b.drop_first());
        if a.drop_first() == b.drop_first() {
            assert forall|i: int| 0 <= i < a.len() implies a[i] == b[i] by {
                if i > 0 {
                    assert(a[i] == a.drop_first()[i - 1]);
                    assert(b[i] == b.drop_first()[i - 1]);
                }
            }
            assert(a =~= b);
        }
    } else if a.len() == 0 && b.len() == 0 {
        assert(a =~= b);
    }
}

/// Inserting an entry keeps the keys in order; every entry after it is the
/// new one or an entry from before, and a key greater than all others goes
/// last.
pub proof fn lemma_insert_entry(es: Seq<(Seq<u8>, SValue)>, key: Seq<u8>, v: SValue)
    requires
        keys_sorted(es),
    ensures
        keys_sorted(insert_entry(es, key, v)),
        forall|i: int|
            0 <= i < insert_entry(es, key, v).len() ==> #[trigger] insert_entry(es, key, v)[i] == (
            key,
            v,
        ) || es.contains(insert_entry(es, key, v)[i]),
        (forall|j: int| 0 <= j < es.len() ==> key_lt(#[trigger] es[j].0, key)) ==> insert_entry(
            es,
            key,
            v,
        ) == es.push((key, v)),
    decreases es.len(),
{
    let r = insert_entry(es, key, v);
    if es.len() == 0 {
        assert(r =~= es.push((key, v)));
    } else {
        let e0 = es[0];
        let rest = es.drop_first();
        assert forall|a: int, b: int| 0 <= a < b < rest.len() implies key_lt(
            #[trigger] rest[a].0,
            #[trigger] rest[b].0,
        ) by {
            assert(rest[a] == es[a + 1] && rest[b] == es[b + 1]);
        }
        if e0.0 == key {
            assert forall|a: int, b: int| 0 <= a < b < r.len() implies key_lt(
                #[trigger] r[a].0,
                #[trigger] r[b].0,
            ) by {
                assert(r[a].0 == es[a].0 && r[b].0 == es[b].0);
            }
            assert forall|i: int| 0 <= i < r.len() implies #[trigger] r[i] == (key, v)
                || es.contains(r[i]) by {
                if i > 0 {
                    assert(r[i] == es[i]);
                }
            }
            lemma_key_lt_irreflexive(key);
        } else if key_lt(key, e0.0) {
            assert forall|a: int, b: int| 0 <= a < b < r.len() implies key_lt(
                #[trigger] r[a].0,
                #[trigger] r[b].0,
            ) by {
                assert(r[b] == es[b - 1]);
                if a > 0 {
                    assert(r[a] == es[a - 1]);
                } else if b > 1 {
                    lemma_key_lt_transitive(key, e0.0, es[b - 1].0);
                }
            }
            assert forall|i: int| 0 <= i < r.len() implies #[trigger] r[i] == (key, v)
                || es.contains(r[i]) by {
                if i > 0 {
                    assert(r[i] == es[i - 1]);
                }
            }
            if forall|j: int| 0 <= j < es.len() ==> key_lt(#[trigger] es[j].0, key) {
                assert(key_lt(es[0].0, key));
                lemma_key_lt_transitive(key, e0.0, key);
                lemma_key_lt_irreflexive(key);
            }
        } else {
            lemma_insert_entry(rest, key, v);
            let ri = insert_entry(rest, key, v);
            assert(r == seq![e0] + ri);
            lemma_key_lt_total(key, e0.0);
            assert forall|i: int| 0 <= i < ri.len() implies key_lt(e0.0, #[trigger] ri[i].0) by {
                if ri[i] != (key, v) {
                    assert(rest.contains(ri[i]));
                    let j = choose|j: int| 0 <= j < rest.len() && rest[j] == ri[i];
                    assert(rest[j] == es[j + 1]);
                }
            }
            assert forall|a: int, b: int| 0 <= a < b < r.len() implies key_lt(
                #[trigger] r[a].0,
                #[trigger] r[b].0,
            ) by {
                assert(r[b] == ri[b - 1]);
                if a > 0 {
                    assert(r[a] == ri[a - 1]);
                }
            }
            assert forall|i: int| 0 <= i < r.len() implies #[trigger] r[i] == (key, v)
                || es.contains(r[i]) by {
                if i == 0 {
                    assert(es[0] == r[0]);
                } else {
                    assert(r[i] == ri[i - 1]);
                    if ri[i - 1] != (key, v) {
                        assert(rest.contains(ri[i - 1]));
                        let j = choose|j: int| 0 <= j < rest.len() && rest[j] == ri[i - 1];
                        assert(es[j + 1] == rest[j]);
                    }
                }
            }
            if forall|j: int| 0 <= j < es.len() ==> key_lt(#[trigger] es[j].0, key) {
                assert forall|j: int| 0 <= j < rest.len() implies key_lt(#[trigger] rest[j].0, key) by {
                    assert(rest[j] == es[j + 1]);
                }
                assert(seq![e0] + rest.push((key, v)) =~= es.push((key, v)));
            }
        }
    }
}

/// Inserting an entry keeps keys in order and entries well formed.
pub proof fn lemma_insert_entry_wf(es: Seq<(Seq<u8>, SValue)>, key: Seq<u8>, v: SValue)
    requires
        entries_wf(es),
        key.len() <= usize::MAX,
        value_wf(v),
    ensures
        entries_wf(insert_entry(es, key, v)),
{
    lemma_insert_entry(es, key, v);
    let r = insert_entry(es, key, v);
    assert forall|i: int| 0 <= i < r.len() implies (#[trigger] r[i]).0.len() <= usize::MAX
        && value_wf(r[i].1) by {
        if r[i] != (key, v) {
            assert(es.contains(r[i]));
            let j = choose|j: int| 0 <= j < es.len() && es[j] == r[i];
            assert(es[j].0.len() <= usize::MAX && value_wf(es[j].1));
        }
    }
}

/// Every value decoding produces is well formed: in particular, the keys of
/// every dictionary it produces are in increasing order.
pub proof fn lemma_decode_wf(s: Seq<u8>)
    ensures
        spec_decode(s) matches Outcome::Done(v, _) ==> value_wf(v),
    decreases s.len(), 0int,
{
    if s.len() > 0 {
        if is_digit(s[0]) {
        } else if s[0] == 105 {
        } else if s[0] == 108 {
            lemma_list_wf(s.skip(1));
        } else if s[0] == 100 {
            lemma_dict_wf(s.skip(1), Seq::empty());
        }
    }
}

/// Every list item decoding produces is well formed.
pub proof fn lemma_list_wf(t: Seq<u8>)
    ensures
        spec_list(t) matches Outcome::Done(vs, _) ==> forall|i: int|
            0 <= i < vs.len() ==> value_wf(#[trigger] vs[i]),
    decreases t.len(), 1int,
{
    if !(t.len() == 0 || t[0] == 101) {
        if let Outcome::Done(v, n) = spec_decode(t) {
            if 0 < n <= t.len() {
                lemma_decode_wf(t);
                lemma_list_wf(t.skip(n as int));
                if let Outcome::Done(vs, m) = spec_list(t.skip(n as int)) {
                    let all = seq![v] + vs;
                    assert forall|i: int| 0 <= i < all.len() implies value_wf(#[trigger] all[i]) by {
                        if i > 0 {
                            assert(all[i] == vs[i - 1]);
                        }
                    }
                }
            }
        }
    }
}

/// Decoding dictionary entries into well-formed entries gives well-formed
/// entries: keys in increasing order.
pub proof fn lemma_dict_wf(t: Seq<u8>, acc: Seq<(Seq<u8>, SValue)>)
    ensures
        entries_wf(acc) ==> (spec_dict(t, acc) matches Outcome::Done(es, _) ==> entries_wf(es)),
    decreases t.len(), 1int,
{
    if !(t.len() == 0 || t[0] == 101) {
        if let Outcome::Done(k, n) = spec_decode(t) {
            if let SValue::Str(key) = k {
                if 0 < n <= t.len() {
                    if let Outcome::Done(v, m) = spec_decode(t.skip(n as int)) {
                        if 0 < m <= t.len() - n {
                            lemma_decode_wf(t);
                            lemma_decode_wf(t.skip(n as int));
                            if entries_wf(acc) {
                                lemma_insert_entry_wf(acc, key, v);
                            }
                            lemma_dict_wf(t.skip((n + m) as int), insert_entry(acc, key, v));
                        }
                    }
                }
            }
        }
    }
}

/// The decimal digits of `n`, most significant first, without leading zeros.
pub open spec fn decimal(n: nat) -> Seq<u8>
    decreases n,
{
    if n < 10 {
        seq![(n + 48) as u8]
    } else {
        decimal(n / 10).push((n % 10 + 48) as u8)
    }
}

/// The bencoding of a value: `<len>:<bytes>`, `i<n>e`, `l<items>e` and
/// `d<key><value>...e`, entries in their order.
pub open spec fn bencode(v: SValue) -> Seq<u8>
    decreases v,
{
    match v {
        SValue::Int(n) => seq![105u8] + (if n < 0 {
            seq![45u8] + decimal((-n) as nat)
        } else {
            decimal(n as nat)
        }) + seq![101u8],
        SValue::Str(b) => bencode_str(b),
        SValue::List(items) => seq![108u8] + bencode_items(items) + seq![101u8],
        SValue::Dict(es) => seq![100u8] + bencode_entries(es) + seq![101u8],
    }
}

/// The bencoding of a byte string.
pub open spec fn bencode_str(b: Seq<u8>) -> Seq<u8> {
    decimal(b.len()) + seq![58u8] + b
}

/// The bencodings of list items, one after the other.
pub open spec fn bencode_items(items: Seq<SValue>) -> Seq<u8>
    decreases items,
{
    if items.len() == 0 {
        Seq::empty()
    } else {
        bencode(items[0]) + bencode_items(items.drop_first())
    }
}

/// The bencodings of dictionary entries, key then value, one after the other.
pub open spec fn bencode_entries(es: Seq<(Seq<u8>, SValue)>) -> Seq<u8>
    decreases es,
{
    if es.len() == 0 {
        Seq::empty()
    } else {
        bencode_str(es[0].0) + bencode(es[0].1) + bencode_entries(es.drop_first())
    }
}

proof fn lemma_decimal(n: nat)
    ensures
        decimal(n).len() > 0,
        all_digits(decimal(n)),
        digits_value(decimal(n)) == n,
    decreases n,
{
    if n >= 10 {
        lemma_decimal(n / 10);
        let d = decimal(n / 10);
        let x = (n % 10 + 48) as u8;
        assert(x == n % 10 + 48);
        lemma_digits_value_push(d, x);
        assert forall|i: int| 0 <= i < d.push(x).len() implies is_digit(#[trigger] d.push(x)[i]) by {
            if i < d.len() {
                assert(d.push(x)[i] == d[i]);
            }
        }
        assert((n / 10) * 10 + n % 10 == n) by (nonlinear_arith);
        assert(decimal(n) == d.push(x));
        assert(digits_value(d.push(x)) == (n / 10) * 10 + n % 10);
    } else {
        let x = (n + 48) as u8;
        assert(x == n + 48);
        assert(decimal(n) == seq![x]);
        assert(seq![x].drop_last() =~= Seq::<u8>::empty());
        assert(digits_value(seq![x]) == digits_value(Seq::<u8>::empty()) * 10 + (x - 48) as nat);
    }
}

/// An encoding starts with a byte that is neither `e` nor a UTF-8
/// continuation byte.
proof fn lemma_bencode_first(v: SValue)
    ensures
        bencode(v).len() > 0,
        bencode(v)[0] != 101,
        !is_continuation(bencode(v)[0]),
{
    match v {
        SValue::Str(b) => {
            lemma_decimal(b.len());
            assert(bencode(v)[0] == decimal(b.len())[0]);
            assert(is_digit(decimal(b.len())[0]));
        },
        _ => {},
    }
}

/// What follows a value in an encoding: nothing, or a byte that is not a
/// UTF-8 continuation byte.
pub open spec fn clean_start(r: Seq<u8>) -> bool {
    r.len() == 0 || !is_continuation(r[0])
}

/// Decoding an encoded well-formed value (dictionary keys in increasing
/// order, as bencoding writes them), whatever follows it (nothing, or text
/// that does not start inside a UTF-8 character), gives back the value and
/// takes exactly its encoding.
pub proof fn lemma_decode_bencode(v: SValue, r: Seq<u8>)
    requires
        value_wf(v),
        clean_start(r),
    ensures
        spec_decode(bencode(v) + r) == Outcome::Done(v, bencode(v).len()),
    decreases v,
{
    match v {
        SValue::Str(b) => {
            let d = decimal(b.len());
            lemma_decimal(b.len());
            let x = b + r;
            assert(x.len() > b.len() ==> x[b.len() as int] == r[0]);
            lemma_decode_string(d, x);
            assert(d + seq![58u8] + x =~= bencode(v) + r);
            assert(x.take(b.len() as int) =~= b);
        },
        SValue::Int(n) => {
            if n < 0 {
                let d = decimal((-n) as nat);
                lemma_decimal((-n) as nat);
                lemma_decode_integer(d, true, r);
                assert(seq![105u8] + seq![45u8] + d + seq![101u8] + r =~= bencode(v) + r);
            } else {
                let d = decimal(n as nat);
                lemma_decimal(n as nat);
                lemma_decode_integer(d, false, r);
                assert(seq![105u8] + Seq::<u8>::empty() + d + seq![101u8] + r =~= bencode(v) + r);
            }
        },
        SValue::List(items) => {
            let s = bencode(v) + r;
            let body = bencode_items(items);
            assert(s.skip(1) =~= body + (seq![101u8] + r));
            lemma_decode_items(items, seq![101u8] + r);
        },
        SValue::Dict(es) => {
            let s = bencode(v) + r;
            let body = bencode_entries(es);
            assert(s.skip(1) =~= body + (seq![101u8] + r));
            assert(Seq::<(Seq<u8>, SValue)>::empty() + es =~= es);
            lemma_decode_entries(es, Seq::empty(), seq![101u8] + r);
        },
    }
}

proof fn lemma_decode_items(items: Seq<SValue>, r: Seq<u8>)
    requires
        forall|i: int| 0 <= i < items.len() ==> value_wf(#[trigger] items[i]),
        r.len() > 0,
        r[0] == 101,
    ensures
        spec_list(bencode_items(items) + r) == Outcome::Done(items, bencode_items(items).len()),
    decreases items,
{
    if items.len() == 0 {
        assert(bencode_items(items) + r =~= r);
        assert(items =~= Seq::<SValue>::empty());
    } else {
        let first = items[0];
        let rest = items.drop_first();
        let tail = bencode_items(rest) + r;
        let t = bencode(first) + tail;
        assert(bencode_items(items) + r =~= t);
        lemma_bencode_first(first);
        assert(t[0] == bencode(first)[0]);
        if rest.len() > 0 {
            lemma_bencode_first(rest[0]);
            assert(tail[0] == bencode(rest[0])[0]);
        } else {
            assert(tail =~= r);
        }
        assert forall|i: int| 0 <= i < rest.len() implies value_wf(#[trigger] rest[i]) by {
            assert(rest[i] == items[i + 1]);
        }
        lemma_decode_bencode(first, tail);
        let n = bencode(first).len();
        assert(t.skip(n as int) =~= tail);
        lemma_decode_items(rest, r);
        assert(seq![first] + rest =~= items);
    }
}

proof fn lemma_decode_entries(es: Seq<(Seq<u8>, SValue)>, acc: Seq<(Seq<u8>, SValue)>, r: Seq<u8>)
    requires
        keys_sorted(acc + es),
        forall|i: int|
            0 <= i < es.len() ==> (#[trigger] es[i]).0.len() <= usize::MAX && value_wf(es[i].1),
        r.len() > 0,
        r[0] == 101,
    ensures
        spec_dict(bencode_entries(es) + r, acc) == Outcome::Done(acc + es, bencode_entries(es).len()),
    decreases es,
{
    if es.len() == 0 {
        assert(bencode_entries(es) + r =~= r);
        assert(acc + es =~= acc);
    } else {
        let (key, v) = es[0];
        let rest = es.drop_first();
        let tail = bencode_entries(rest) + r;
        let after_key = bencode(v) + tail;
        let t = bencode_str(key) + after_key;
        assert(bencode_entries(es) + r =~= t);
        lemma_bencode_first(SValue::Str(key));
        lemma_bencode_first(v);
        assert(t[0] == bencode(SValue::Str(key))[0]);
        if rest.len() > 0 {
            lemma_bencode_first(SValue::Str(rest[0].0));
            assert(tail[0] == bencode(SValue::Str(rest[0].0))[0]);
        } else {
            assert(tail =~= r);
        }
        assert(after_key[0] == bencode(v)[0]);
        assert(es[0].0.len() <= usize::MAX && value_wf(es[0].1));
        let d = decimal(key.len());
        lemma_decimal(key.len());
        let x = key + after_key;
        assert(x.len() > key.len() ==> x[key.len() as int] == after_key[0]);
        lemma_decode_string(d, x);
        assert(d + seq![58u8] + x =~= t);
        assert(x.take(key.len() as int) =~= key);
        let n = bencode_str(key).len();
        assert(t.skip(n as int) =~= after_key);
        lemma_decode_bencode(v, tail);
        let m = bencode(v).len();
        assert(t.skip((n + m) as int) =~= tail);
        assert forall|a: int, b: int| 0 <= a < b < acc.len() implies key_lt(
            #[trigger] acc[a].0,
            #[trigger] acc[b].0,
        ) by {
            assert(acc[a] == (acc + es)[a] && acc[b] == (acc + es)[b]);
        }
        assert forall|j: int| 0 <= j < acc.len() implies key_lt(#[trigger] acc[j].0, key) by {
            assert(acc[j] == (acc + es)[j] && (acc + es)[acc.len() as int] == es[0]);
        }
        lemma_insert_entry(acc, key, v);
        let acc2 = acc.push((key, v));
        assert(acc2 + rest =~= acc + es);
        assert forall|i: int|
            0 <= i < rest.len() implies (#[trigger] rest[i]).0.len() <= usize::MAX && value_wf(
            rest[i].1,
        ) by {
            assert(rest[i] == es[i + 1]);
        }
        lemma_decode_entries(rest, acc2, r);
    }
}

/// The first `b` in `s`, if any, is at an index where `s` holds `b` and no
/// earlier index does.
pub proof fn lemma_find_byte(s: Seq<u8>, b: u8)
    ensures
        find_byte(s, b) matches Some(c) ==> 0 <= c < s.len() && s[c] == b && forall|j: int|
            0 <= j < c ==> s[j] != b,
        find_byte(s, b) is None ==> forall|j: int| 0 <= j < s.len() ==> s[j] != b,
    decreases s.len(),
{
    if s.len() > 0 && s[0] != b {
        lemma_find_byte(s.drop_first(), b);
        assert forall|j: int| 1 <= j < s.len() implies s[j] == s.drop_first()[j - 1] by {}
    }
}

/// Decoding a value takes at least one byte and at most the whole text.
pub proof fn lemma_decode_consumes(s: Seq<u8>)
    ensures
        spec_decode(s) matches Outcome::Done(_, n) ==> 0 < n <= s.len(),
    decreases s.len(), 0int,
{
    if s.len() > 0 {
        if is_digit(s[0]) {
            lemma_find_byte(s, 58);
        } else if s[0] == 105 {
            lemma_find_byte(s.skip(1), 101);
        } else if s[0] == 108 {
            lemma_list_consumes(s.skip(1));
        } else if s[0] == 100 {
            lemma_dict_consumes(s.skip(1), Seq::empty());
        }
    }
}

/// Decoding list items takes at most the whole text.
pub proof fn lemma_list_consumes(t: Seq<u8>)
    ensures
        spec_list(t) matches Outcome::Done(_, n) ==> n <= t.len(),
    decreases t.len(), 1int,
{
    if !(t.len() == 0 || t[0] == 101) {
        if let Outcome::Done(v, n) = spec_decode(t) {
            if 0 < n <= t.len() {
                lemma_list_consumes(t.skip(n as int));
            }
        }
    }
}

/// Decoding dictionary entries takes at most the whole text.
pub proof fn lemma_dict_consumes(t: Seq<u8>, acc: Seq<(Seq<u8>, SValue)>)
    ensures
        spec_dict(t, acc) matches Outcome::Done(_, n) ==> n <= t.len(),
    decreases t.len(), 1int,
{
    if !(t.len() == 0 || t[0] == 101) {
        if let Outcome::Done(k, n) = spec_decode(t) {
            if let SValue::Str(key) = k {
                if 0 < n <= t.len() {
                    if let Outcome::Done(v, m) = spec_decode(t.skip(n as int)) {
                        if 0 < m <= t.len() - n {
                            lemma_dict_consumes(t.skip((n + m) as int), insert_entry(acc, key, v));
                        }
                    }
                }
            }
        }
    }
}

/// The first `b` in `p + rest` is at the front of `rest` when `p` holds no `b`.
proof fn lemma_find_byte_after(p: Seq<u8>, rest: Seq<u8>, b: u8)
    requires
        forall|i: int| 0 <= i < p.len() ==> p[i] != b,
        rest.len() > 0,
        rest[0] == b,
    ensures
        find_byte(p + rest, b) == Some(p.len() as int),
    decreases p.len(),
{
    if p.len() == 0 {
        assert(p + rest =~= rest);
    } else {
        assert((p + rest).drop_first() =~= p.drop_first() + rest);
        lemma_find_byte_after(p.drop_first(), rest, b);
    }
}

/// A string `<len>:<bytes>` decodes to its bytes: after a decimal length of
/// value `l` and a colon, the next `l` bytes are the string, and the whole
/// takes the length's digits, the colon and the `l` bytes. Texts whose
/// string would end inside a UTF-8 character are left out.
pub proof fn lemma_decode_string(d: Seq<u8>, x: Seq<u8>)
    requires
        d.len() > 0,
        all_digits(d),
        digits_value(d) <= usize::MAX,
        digits_value(d) <= x.len(),
        digits_value(d) < x.len() ==> !is_continuation(x[digits_value(d) as int]),
    ensures
        spec_decode(d + seq![58u8] + x) == Outcome::Done(
            SValue::Str(x.take(digits_value(d) as int)),
            d.len() + 1 + digits_value(d),
        ),
{
    let s = d + seq![58u8] + x;
    assert(s =~= d + (seq![58u8] + x));
    assert forall|i: int| 0 <= i < d.len() implies d[i] != 58u8 by {
        assert(is_digit(d[i]));
    }
    lemma_find_byte_after(d, seq![58u8] + x, 58);
    assert(s[0] == d[0] && is_digit(d[0]));
    assert(s.take(d.len() as int) =~= d);
    assert(s.skip(d.len() + 1int) =~= x);
}

/// An integer `i<digits>e` decodes to the value of its digits and takes the
/// digits, the `i` and the `e`; likewise `i-<digits>e` to the negated value.
pub proof fn lemma_decode_integer(d: Seq<u8>, negative: bool, rest: Seq<u8>)
    requires
        d.len() > 0,
        all_digits(d),
        if negative {
            digits_value(d) <= 0x8000_0000_0000_0000
        } else {
            digits_value(d) <= i64::MAX
        },
    ensures
        ({
            let sign = if negative {
                seq![45u8]
            } else {
                Seq::<u8>::empty()
            };
            let value = if negative {
                -digits_value(d)
            } else {
                digits_value(d) as int
            };
            spec_decode(seq![105u8] + sign + d + seq![101u8] + rest) == Outcome::Done(
                SValue::Int(value),
                sign.len() + d.len() + 2,
            )
        }),
{
    let sign = if negative {
        seq![45u8]
    } else {
        Seq::<u8>::empty()
    };
    let num = sign + d;
    let s = seq![105u8] + sign + d + seq![101u8] + rest;
    let t = s.skip(1);
    assert(t =~= num + (seq![101u8] + rest));
    assert forall|i: int| 0 <= i < num.len() implies num[i] != 101u8 by {
        if negative && i == 0 {
        } else {
            assert(is_digit(d[i - sign.len()]));
        }
    }
    lemma_find_byte_after(num, seq![101u8] + rest, 101);
    assert(t.take(num.len() as int) =~= num);
    if negative {
        assert(num.drop_first() =~= d);
    } else {
        assert(num =~= d);
        assert(is_digit(d[0]));
    }
}

/// Adding a decimal digit multiplies the value by ten and adds the digit.
proof fn lemma_digits_value_push(d: Seq<u8>, x: u8)
    ensures
        digits_value(d.push(x)) == digits_value(d) * 10 + (x - 48) as nat,
{
    assert(d.push(x).drop_last() =~= d);
}

/// Extending a digit string never decreases its value.
proof fn lemma_digits_value_monotone(d: Seq<u8>, k: int)
    requires
        0 <= k <= d.len(),
        all_digits(d),
    ensures
        digits_value(d.take(k)) <= digits_value(d),
    decreases d.len() - k,
{
    if k < d.len() {
        lemma_digits_value_monotone(d, k + 1);
        assert(d.take(k + 1).drop_last() =~= d.take(k));
        assert(is_digit(d[k]));
    } else {
        assert(d.take(k) =~= d);
    }
}

/// The first byte `b` at or after `from`.
fn find_byte_from(input: &[u8], from: usize, b: u8) -> (r: Option<usize>)
    requires
        from <= input@.len(),
    ensures
        match find_byte(input@.skip(from as int), b) {
            Some(c) => r == Some((from + c) as usize),
            None => r is None,
        },
{
    let mut p = from;
    while p < input.len() && input[p] != b
        invariant
            from <= p <= input@.len(),
            find_byte(input@.skip(from as int), b) == match find_byte(input@.skip(p as int), b) {
                Some(c) => Some(c + (p - from)),
                None => None,
            },
        decreases input@.len() - p,
    {
        assert(input@.skip(p as int).drop_first() =~= input@.skip(p + 1));
        p = p + 1;
    }
    if p == input.len() {
        None
    } else {
        Some(p)
    }
}

/// The value of the digits `from..to`, if they are all digits, at least one,
/// and their value is at most `bound`.
fn parse_digits(input: &[u8], from: usize, to: usize, bound: u64) -> (r: Option<u64>)
    requires
        from <= to <= input@.len(),
    ensures
        ({
            let d = input@.subrange(from as int, to as int);
            if d.len() > 0 && all_digits(d) && digits_value(d) <= bound {
                r == Some(digits_value(d) as u64)
            } else {
                r is None
            }
        }),
{
    let ghost d = input@.subrange(from as int, to as int);
    if from == to {
        return None;
    }
    let mut acc: u64 = 0;
    let mut i = from;
    while i < to
        invariant
            from <= i <= to <= input@.len(),
            d == input@.subrange(from as int, to as int),
            all_digits(d.take(i - from)),
            acc == digits_value(d.take(i - from)),
            acc <= bound,
        decreases to - i,
    {
        let x = input[i];
        assert(x == d[i - from]);
        if x < 48 || x > 57 {
            assert(!all_digits(d));
            return None;
        }
        let digit = (x - 48) as u64;
        proof {
            assert(d.take(i - from + 1) =~= d.take(i - from).push(x));
            lemma_digits_value_push(d.take(i - from), x);
        }
        if digit > bound || acc > (bound - digit) / 10 {
            proof {
                assert(acc * 10 + digit > bound) by (nonlinear_arith)
                    requires
                        digit > bound || acc > (bound - digit) / 10,
                ;
                if all_digits(d) {
                    lemma_digits_value_monotone(d, i - from + 1);
                }
            }
            return None;
        }
        assert(acc * 10 + digit <= bound) by (nonlinear_arith)
            requires
                digit <= bound,
                acc <= (bound - digit) / 10,
        ;
        acc = acc * 10 + digit;
        i = i + 1;
    }
    assert(d.take(to - from) =~= d);
    Some(acc)
}

/// The values of a list, as mathematical values.
pub open spec fn values_view(items: Seq<Value>) -> Seq<SValue> {
    Seq::new(items.len(), |i: int| items[i].view_value())
}

/// The entries of a dictionary, as mathematical values.
pub open spec fn entries_view(entries: Seq<(Vec<u8>, Value)>) -> Seq<(Seq<u8>, SValue)> {
    Seq::new(entries.len(), |i: int| (entries[i].0@, entries[i].1.view_value()))
}

/// `prefix`, taking `k` bytes, followed by the outcome `o`.
pub open spec fn after_prefix<T>(prefix: Seq<T>, k: nat, o: Outcome<Seq<T>>) -> Outcome<Seq<T>> {
    match o {
        Outcome::Done(vs, m) => Outcome::Done(prefix + vs, k + m),
        Outcome::Failed(e) => Outcome::Failed(e),
        Outcome::Panics => Outcome::Panics,
    }
}

/// The outcome `o` after `k` more bytes in front.
pub open spec fn shifted<T>(o: Outcome<T>, k: nat) -> Outcome<T> {
    match o {
        Outcome::Done(v, m) => Outcome::Done(v, k + m),
        Outcome::Failed(e) => Outcome::Failed(e),
        Outcome::Panics => Outcome::Panics,
    }
}

/// Whether two byte strings are equal.
fn bytes_eq(a: &[u8], b: &[u8]) -> (r: bool)
    ensures
        r == (a@ == b@),
{
    if a.len() != b.len() {
        return false;
    }
    let mut i: usize = 0;
    while i < a.len()
        invariant
            i <= a@.len(),
            a@.len() == b@.len(),
            forall|j: int| 0 <= j < i ==> a@[j] == b@[j],
        decreases a@.len() - i,
    {
        if a[i] != b[i] {
            return false;
        }
        i = i + 1;
    }
    assert(a@ =~= b@);
    true
}

/// Whether key `a` comes before key `b`.
fn key_less(a: &[u8], b: &[u8]) -> (r: bool)
    ensures
        r == key_lt(a@, b@),
{
    let mut i: usize = 0;
    assert(a@.skip(0) =~= a@ && b@.skip(0) =~= b@);
    while i < a.len() && i < b.len()
        invariant
            i <= a@.len(),
            i <= b@.len(),
            key_lt(a@, b@) == key_lt(a@.skip(i as int), b@.skip(i as int)),
        decreases a@.len() - i,
    {
        assert(a@.skip(i as int)[0] == a@[i as int] && b@.skip(i as int)[0] == b@[i as int]);
        if a[i] != b[i] {
            return a[i] < b[i];
        }
        assert(a@.skip(i as int).drop_first() =~= a@.skip(i + 1));
        assert(b@.skip(i as int).drop_first() =~= b@.skip(i + 1));
        i = i + 1;
    }
    i < b.len()
}

/// Where the entry goes: past `es[j]`, whose key comes before `key`, the
/// insertion leaves `es[j]` in front.
proof fn lemma_insert_entry_step(es: Seq<(Seq<u8>, SValue)>, j: int, key: Seq<u8>, v: SValue)
    requires
        0 <= j < es.len(),
        key_lt(es[j].0, key),
    ensures
        insert_entry(es.skip(j), key, v) == seq![es[j]] + insert_entry(es.skip(j + 1), key, v),
{
    let t = es.skip(j);
    assert(t[0] == es[j]);
    assert(t.drop_first() =~= es.skip(j + 1));
    lemma_key_lt_irreflexive(key);
    if key_lt(key, es[j].0) {
        lemma_key_lt_transitive(key, es[j].0, key);
    }
}

/// Inserts an entry into a dictionary as `insert_entry` describes.
fn insert_into(entries: &mut Vec<(Vec<u8>, Value)>, key: Vec<u8>, v: Value)
    ensures
        entries_view(final(entries)@) == insert_entry(entries_view(old(entries)@), key@, v.view_value()),
{
    let ghost es = entries_view(entries@);
    let ghost kv = key@;
    let ghost vv = v.view_value();
    let mut j: usize = 0;
    assert(es.take(0) + es.skip(0) =~= es);
    loop
        invariant
            j <= entries@.len(),
            entries@ == old(entries)@,
            es == entries_view(entries@),
            kv == key@,
            vv == v.view_value(),
            insert_entry(es, kv, vv) == es.take(j as int) + insert_entry(es.skip(j as int), kv, vv),
        decreases entries@.len() - j,
    {
        if j == entries.len() {
            assert(es.skip(j as int) =~= Seq::<(Seq<u8>, SValue)>::empty());
            assert(es.take(j as int) =~= es);
            entries.push((key, v));
            assert(entries_view(entries@) =~= es.push((kv, vv)));
            return;
        }
        assert(es[j as int].0 == entries@[j as int].0@);
        let ghost t = es.skip(j as int);
        assert(t[0] == es[j as int]);
        if key_less(entries[j].0.as_slice(), key.as_slice()) {
            proof {
                lemma_insert_entry_step(es, j as int, kv, vv);
                assert(es.take(j as int) + seq![es[j as int]] =~= es.take(j + 1));
                assert(es.take(j as int) + (seq![es[j as int]] + insert_entry(es.skip(j + 1), kv, vv))
                    =~= es.take(j + 1) + insert_entry(es.skip(j + 1), kv, vv));
            }
            j = j + 1;
        } else if bytes_eq(entries[j].0.as_slice(), key.as_slice()) {
            entries.set(j, (key, v));
            assert(es.take(j as int) + t.update(0, (kv, vv)) =~= es.update(j as int, (kv, vv)));
            assert(entries_view(entries@) =~= es.update(j as int, (kv, vv)));
            return;
        } else {
            proof {
                lemma_key_lt_total(kv, es[j as int].0);
                assert(es.take(j as int) + (seq![(kv, vv)] + t) =~= es.insert(j as int, (kv, vv)));
            }
            entries.insert(j, (key, v));
            assert(entries_view(entries@) =~= es.insert(j as int, (kv, vv)));
            return;
        }
    }
}

/// Whether an exec result is the outcome `o`: `None` where decoding would
/// slice out of bounds.
pub open spec fn decode_matches(r: Option<Result<(Value, usize), DecodeError>>, o: Outcome<SValue>) -> bool {
    match r {
        None => o is Panics,
        Some(Err(e)) => o == Outcome::<SValue>::Failed(e),
        Some(Ok((v, n))) => o == Outcome::Done(v.view_value(), n as nat),
    }
}

/// Parses bytes `from..to` as `str::parse::<usize>` does.
fn parse_usize(input: &[u8], from: usize, to: usize) -> (r: Option<usize>)
    requires
        from <= to <= input@.len(),
    ensures
        match spec_parse_usize(input@.subrange(from as int, to as int)) {
            Some(v) => r == Some(v as usize),
            None => r is None,
        },
{
    let ghost s = input@.subrange(from as int, to as int);
    let start = if from < to && input[from] == 43 {
        assert(s.drop_first() =~= input@.subrange(from + 1, to as int));
        from + 1
    } else {
        from
    };
    match parse_digits(input, start, to, usize::MAX as u64) {
        Some(v) => Some(v as usize),
        None => None,
    }
}

/// Parses bytes `from..to` as `str::parse::<i64>` does.
fn parse_i64(input: &[u8], from: usize, to: usize) -> (r: Option<i64>)
    requires
        from <= to <= input@.len(),
    ensures
        match spec_parse_i64(input@.subrange(from as int, to as int)) {
            Some(v) => r == Some(v as i64),
            None => r is None,
        },
{
    let ghost s = input@.subrange(from as int, to as int);
    if from < to && input[from] == 45 {
        assert(s.drop_first() =~= input@.subrange(from + 1, to as int));
        match parse_digits(input, from + 1, to, 0x8000_0000_0000_0000u64) {
            Some(v) => if v == 0x8000_0000_0000_0000u64 {
                Some(i64::MIN)
            } else {
                Some(-(v as i64))
            },
            None => None,
        }
    } else {
        let start = if from < to && input[from] == 43 {
            assert(s.drop_first() =~= input@.subrange(from + 1, to as int));
            from + 1
        } else {
            from
        };
        match parse_digits(input, start, to, i64::MAX as u64) {
            Some(v) => Some(v as i64),
            None => None,
        }
    }
}

/// Decodes the value at `pos`, as `spec_decode` describes the rest of the text.
#[verifier::spinoff_prover]
#[verifier::rlimit(40)]
fn decode_at(input: &[u8], pos: usize) -> (r: Option<Result<(Value, usize), DecodeError>>)
    requires
        pos <= input@.len(),
    ensures
        decode_matches(r, spec_decode(input@.skip(pos as int))),
    decreases input@.len() - pos,
{
    let ghost s = input@.skip(pos as int);
    if pos == input.len() {
        return Some(Err(DecodeError::Unhandled));
    }
    let first = input[pos];
    assert(first == s[0]);
    if 48 <= first && first <= 57 {
        match find_byte_from(input, pos, 58) {
            None => Some(Err(DecodeError::StringDelimiterNotFound)),
            Some(c) => {
                proof {
                    lemma_find_byte(s, 58);
                    assert(s.take(c - pos) =~= input@.subrange(pos as int, c as int));
                }
                match parse_usize(input, pos, c) {
                    None => Some(Err(DecodeError::InvalidLength)),
                    Some(l) => {
                        let start = c + 1;
                        let ghost rest = s.skip(c - pos + 1);
                        assert(rest =~= input@.skip(start as int));
                        if l > input.len() - start {
                            return None;
                        }
                        if l < input.len() - start && input[start + l] >= 128 && input[start + l]
                            < 192 {
                            assert(rest[l as int] == input@[start + l]);
                            return None;
                        }
                        assert(l < rest.len() ==> rest[l as int] == input@[start + l]);
                        let bytes = copy_range(input, start, start + l);
                        assert(bytes@ =~= rest.take(l as int));
                        Some(Ok((Value::Str(bytes), start + l - pos)))
                    },
                }
            },
        }
    } else if first == 105 {
        assert(s.skip(1) =~= input@.skip(pos + 1));
        match find_byte_from(input, pos + 1, 101) {
            None => Some(Err(DecodeError::NumberDelimiterNotFound)),
            Some(c) => {
                proof {
                    lemma_find_byte(s.skip(1), 101);
                    assert(s.skip(1).take(c - pos - 1) =~= input@.subrange(pos + 1, c as int));
                }
                match parse_i64(input, pos + 1, c) {
                    None => Some(Err(DecodeError::InvalidNumber)),
                    Some(n) => Some(Ok((Value::Int(n), c + 1 - pos))),
                }
            },
        }
    } else if first == 108 {
        let mut items: Vec<Value> = Vec::new();
        let mut p = pos + 1;
        assert(s.skip(1) =~= input@.skip(pos + 1));
        assert(values_view(items@) + Seq::<SValue>::empty() =~= values_view(items@));
        while p < input.len() && input[p] != 101
            invariant
                pos < p <= input@.len(),
                s == input@.skip(pos as int),
                s.len() > 0 && s[0] == 108,
                s.skip(1) == input@.skip(pos + 1),
                spec_list(input@.skip(pos + 1)) == after_prefix(
                    values_view(items@),
                    (p - pos - 1) as nat,
                    spec_list(input@.skip(p as int)),
                ),
            decreases input@.len() - p,
        {
            let ghost t = input@.skip(p as int);
            assert(t[0] == input@[p as int]);
            match decode_at(input, p) {
                None => {
                    return None;
                },
                Some(Err(e)) => {
                    return Some(Err(e));
                },
                Some(Ok((v, n))) => {
                    let ghost old_items = items@;
                    let ghost old_p = p;
                    proof {
                        lemma_decode_consumes(t);
                        assert(t.skip(n as int) =~= input@.skip(p + n));
                        assert(values_view(items@.push(v)) =~= values_view(items@) + seq![
                            v.view_value(),
                        ]);
                        assert(spec_list(t) == after_prefix(
                            seq![v.view_value()],
                            n as nat,
                            spec_list(t.skip(n as int)),
                        ));
                    }
                    items.push(v);
                    p = p + n;
                    proof {
                        match spec_list(input@.skip(p as int)) {
                            Outcome::Done(vs, m) => {
                                assert(values_view(items@) + vs =~= values_view(old_items) + (seq![
                                    v.view_value(),
                                ] + vs));
                            },
                            _ => {},
                        }
                    }
                },
            }
        }
        assert(input@.skip(p as int).len() == 0 || input@.skip(p as int)[0] == 101);
        if p == input.len() {
            return None;
        }
        let value = Value::List(items);
        assert(value.view_value() == SValue::List(values_view(items@))) by {
            let inner = value.view_value()->List_0;
            assert(inner.len() == items@.len());
            assert forall|i: int| 0 <= i < inner.len() implies inner[i] == values_view(items@)[i] by {}
            assert(inner =~= values_view(items@));
        }
        assert(values_view(items@) + Seq::<SValue>::empty() =~= values_view(items@));
        Some(Ok((value, p + 1 - pos)))
    } else if first == 100 {
        let mut entries: Vec<(Vec<u8>, Value)> = Vec::new();
        let mut p = pos + 1;
        assert(s.skip(1) =~= input@.skip(pos + 1));
        assert(entries_view(entries@) =~= Seq::<(Seq<u8>, SValue)>::empty());
        while p < input.len() && input[p] != 101
            invariant
                pos < p <= input@.len(),
                s == input@.skip(pos as int),
                s.len() > 0 && s[0] == 100,
                s.skip(1) == input@.skip(pos + 1),
                spec_dict(input@.skip(pos + 1), Seq::empty()) == shifted(
                    spec_dict(input@.skip(p as int), entries_view(entries@)),
                    (p - pos - 1) as nat,
                ),
            decreases input@.len() - p,
        {
            let ghost t = input@.skip(p as int);
            assert(t[0] == input@[p as int]);
            match decode_at(input, p) {
                None => {
                    return None;
                },
                Some(Err(e)) => {
                    return Some(Err(e));
                },
                Some(Ok((k, n))) => {
                    proof {
                        lemma_decode_consumes(t);
                        assert(t.skip(n as int) =~= input@.skip(p + n));
                    }
                    match k {
                        Value::Str(key) => {
                            match decode_at(input, p + n) {
                                None => {
                                    return None;
                                },
                                Some(Err(e)) => {
                                    return Some(Err(e));
                                },
                                Some(Ok((v, m))) => {
                                    proof {
                                        lemma_decode_consumes(input@.skip(p + n));
                                        assert(t.skip(n + m) =~= input@.skip(p + n + m));
                                    }
                                    insert_into(&mut entries, key, v);
                                    p = p + n + m;
                                },
                            }
                        },
                        _ => {
                            return Some(Err(DecodeError::InvalidDictKey));
                        },
                    }
                },
            }
        }
        assert(input@.skip(p as int).len() == 0 || input@.skip(p as int)[0] == 101);
        if p == input.len() {
            return None;
        }
        let value = Value::Dict(entries);
        assert(value.view_value() == SValue::Dict(entries_view(entries@))) by {
            let inner = value.view_value()->Dict_0;
            assert(inner.len() == entries@.len());
            assert forall|i: int| 0 <= i < inner.len() implies inner[i] == entries_view(entries@)[i] by {}
            assert(inner =~= entries_view(entries@));
        }
        Some(Ok((value, p + 1 - pos)))
    } else {
        Some(Err(DecodeError::Unhandled))
    }
}

/// Decodes the bencoded value at the front of `encoded`, returning it with
/// the number of bytes it took; `None` exactly where the text would be sliced
/// past its end or inside a UTF-8 character.
pub fn try_decode(encoded: &[u8]) -> (r: Option<Result<(Value, usize), DecodeError>>)
    ensures
        decode_matches(r, spec_decode(encoded@)),
        r matches Some(Ok((v, _))) ==> value_wf(v.view_value()),
{
    assert(encoded@.skip(0) =~= encoded@);
    proof {
        lemma_decode_wf(encoded@);
    }
    decode_at(encoded, 0)
}

/// Decodes the bencoded value at the front of `encoded`, returning it with
/// the number of bytes it took; the rest of the text starts there.
/// `encoded` is UTF-8 text; texts that would be sliced past their end or
/// inside a character are left out.
pub fn decode(encoded: &[u8]) -> (r: Result<(Value, usize), DecodeError>)
    requires
        !(spec_decode(encoded@) is Panics),
    ensures
        decode_matches(Some(r), spec_decode(encoded@)),
        r matches Ok((v, _)) ==> value_wf(v.view_value()),
{
    match try_decode(encoded) {
        Some(r) => r,
        None => Err(DecodeError::Unhandled),
    }
}

} // verus!

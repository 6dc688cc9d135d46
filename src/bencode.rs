use vstd::prelude::*;

verus! {

pub const DIGIT_ZERO: u8 = 48;
pub const DIGIT_NINE: u8 = 57;
pub const COLON: u8 = 58;
pub const MINUS: u8 = 45;
pub const PLUS: u8 = 43;
pub const INT_START: u8 = 105;
pub const LIST_START: u8 = 108;
pub const DICT_START: u8 = 100;
pub const END: u8 = 101;

/// Why a byte sequence is not a bencoded value.
#[derive(Debug, Clone, Copy, PartialEq, Eq, Structural)]
pub enum DecoderError {
    EndOfStream,
    OversizedInteger,
    ExpectedInteger,
    ExpectedIntegerStart,
    ExpectedIntegerEnd,
    ExpectedStringStart,
    ExpectedListStart,
    ExpectedDictStart,
    ExpectedStringKey,
    InvalidStringSize,
    UnexpectedStartOfValue,
}

/// Mathematical model of a bencoded value.
pub enum Value {
    Bytes(Seq<u8>),
    Integer(int),
    List(Seq<Value>),
    Dict(Seq<(Seq<u8>, Value)>),
}

pub open spec fn is_digit(b: u8) -> bool {
    48 <= b <= 57
}

// ---------------------------------------------------------------------------
// Decoding, stated over the input bytes and a position in them.
// ---------------------------------------------------------------------------

/// First position at or after `p` that does not hold an ASCII digit.
pub open spec fn digits_end(s: Seq<u8>, p: int) -> int
    decreases s.len() - p,
{
    if 0 <= p < s.len() && is_digit(s[p]) {
        digits_end(s, p + 1)
    } else {
        p
    }
}

/// The number written in decimal by `s[from..to]`.
pub open spec fn digits_value(s: Seq<u8>, from: int, to: int) -> nat
    decreases to - from,
{
    if to <= from {
        0
    } else {
        digits_value(s, from, to - 1) * 10 + (s[to - 1] - 48) as nat
    }
}

/// Reads an optionally signed decimal integer at `pos`: the value and the position after it.
/// A leading zero is only allowed in `0` itself, and `-0` is refused.
pub open spec fn parse_int(s: Seq<u8>, pos: int) -> Result<(int, int), DecoderError> {
    if pos < 0 || pos >= s.len() {
        Err(DecoderError::EndOfStream)
    } else {
        let negative = s[pos] == 45;
        let start = if s[pos] == 45 || s[pos] == 43 {
            pos + 1
        } else {
            pos
        };
        if start >= s.len() {
            Err(DecoderError::EndOfStream)
        } else if !is_digit(s[start]) {
            Err(DecoderError::ExpectedInteger)
        } else if s[start] == 48 {
            if negative || (start + 1 < s.len() && is_digit(s[start + 1])) {
                Err(DecoderError::ExpectedInteger)
            } else {
                Ok((0, start + 1))
            }
        } else {
            let end = digits_end(s, start);
            let magnitude = digits_value(s, start, end);
            let value = if negative {
                -magnitude
            } else {
                magnitude as int
            };
            if value < i64::MIN || value > i64::MAX {
                Err(DecoderError::OversizedInteger)
            } else {
                Ok((value, end))
            }
        }
    }
}

/// Reads `i<integer>e` at `pos`.
pub open spec fn parse_integer(s: Seq<u8>, pos: int) -> Result<(int, int), DecoderError> {
    if pos < 0 || pos >= s.len() {
        Err(DecoderError::EndOfStream)
    } else if s[pos] != 105 {
        Err(DecoderError::ExpectedIntegerStart)
    } else {
        match parse_int(s, pos + 1) {
            Err(e) => Err(e),
            Ok((n, q)) => if q >= s.len() {
                Err(DecoderError::EndOfStream)
            } else if s[q] != 101 {
                Err(DecoderError::ExpectedIntegerEnd)
            } else {
                Ok((n, q + 1))
            },
        }
    }
}

/// Reads `<length>:<bytes>` at `pos`.
pub open spec fn parse_bytes(s: Seq<u8>, pos: int) -> Result<(Seq<u8>, int), DecoderError> {
    match parse_int(s, pos) {
        Err(e) => Err(e),
        Ok((n, q)) => if q >= s.len() {
            Err(DecoderError::EndOfStream)
        } else if s[q] != 58 {
            Err(DecoderError::ExpectedStringStart)
        } else if n < 0 || n > s.len() - (q + 1) {
            Err(DecoderError::InvalidStringSize)
        } else {
            Ok((s.subrange(q + 1, q + 1 + n), q + 1 + n))
        },
    }
}

/// `parse_integer` as a value.
pub open spec fn integer_value(s: Seq<u8>, pos: int) -> Result<(Value, int), DecoderError> {
    match parse_integer(s, pos) {
        Err(e) => Err(e),
        Ok((n, q)) => Ok((Value::Integer(n), q)),
    }
}

/// `parse_bytes` as a value.
pub open spec fn bytes_value(s: Seq<u8>, pos: int) -> Result<(Value, int), DecoderError> {
    match parse_bytes(s, pos) {
        Err(e) => Err(e),
        Ok((b, q)) => Ok((Value::Bytes(b), q)),
    }
}

/// Whether a parse that started at `p` and stopped at `q` consumed input (it always does).
pub open spec fn advanced(s: Seq<u8>, p: int, q: int) -> bool {
    p < q <= s.len()
}

// ---------------------------------------------------------------------------
// Dictionaries: entries kept in ascending byte-lexicographic order of keys.
// ---------------------------------------------------------------------------

/// Strict byte-lexicographic order on keys.
pub open spec fn key_less(a: Seq<u8>, b: Seq<u8>) -> bool
    decreases a.len(),
{
    if a.len() == 0 {
        b.len() > 0
    } else if b.len() == 0 {
        false
    } else if a[0] != b[0] {
        a[0] < b[0]
    } else {
        key_less(a.drop_first(), b.drop_first())
    }
}

pub open spec fn keys_sorted(d: Seq<(Seq<u8>, Value)>) -> bool {
    forall|i: int, j: int| 0 <= i < j < d.len() ==> key_less(#[trigger] d[i].0, #[trigger] d[j].0)
}

/// `d` with `k` bound to `v`: an entry with key `k` is replaced, otherwise one is added in order.
pub open spec fn dict_insert(d: Seq<(Seq<u8>, Value)>, k: Seq<u8>, v: Value) -> Seq<
    (Seq<u8>, Value),
>
    decreases d.len(),
{
    if d.len() == 0 {
        seq![(k, v)]
    } else if key_less(d[0].0, k) {
        seq![d[0]] + dict_insert(d.drop_first(), k, v)
    } else if d[0].0 == k {
        seq![(k, v)] + d.drop_first()
    } else {
        seq![(k, v)] + d
    }
}

/// Reads any value at `pos`.
pub open spec fn parse_value(s: Seq<u8>, pos: int) -> Result<(Value, int), DecoderError>
    decreases s.len() - pos, 1int,
{
    if pos < 0 || pos >= s.len() {
        Err(DecoderError::EndOfStream)
    } else if s[pos] == 105 {
        integer_value(s, pos)
    } else if is_digit(s[pos]) {
        bytes_value(s, pos)
    } else if s[pos] == 108 {
        parse_list(s, pos)
    } else if s[pos] == 100 {
        parse_dict(s, pos)
    } else {
        Err(DecoderError::UnexpectedStartOfValue)
    }
}

/// Reads `l<values>e` at `pos`.
pub open spec fn parse_list(s: Seq<u8>, pos: int) -> Result<(Value, int), DecoderError>
    decreases s.len() - pos, 0int,
{
    if pos < 0 || pos >= s.len() {
        Err(DecoderError::EndOfStream)
    } else if s[pos] != 108 {
        Err(DecoderError::ExpectedListStart)
    } else {
        match parse_items(s, pos + 1) {
            Err(e) => Err(e),
            Ok((items, q)) => Ok((Value::List(items), q)),
        }
    }
}

/// Reads the values of a list from `pos` up to and including its closing `e`.
pub open spec fn parse_items(s: Seq<u8>, pos: int) -> Result<(Seq<Value>, int), DecoderError>
    decreases s.len() - pos, 2int,
{
    if pos < 0 || pos >= s.len() {
        Err(DecoderError::EndOfStream)
    } else if s[pos] == 101 {
        Ok((seq![], pos + 1))
    } else {
        match parse_value(s, pos) {
            Err(e) => Err(e),
            Ok((v, q)) => if !advanced(s, pos, q) {
                Err(DecoderError::EndOfStream)
            } else {
                match parse_items(s, q) {
                    Err(e) => Err(e),
                    Ok((rest, r)) => Ok((seq![v] + rest, r)),
                }
            },
        }
    }
}

/// Reads `d<key><value>...e` at `pos`.
pub open spec fn parse_dict(s: Seq<u8>, pos: int) -> Result<(Value, int), DecoderError>
    decreases s.len() - pos, 0int,
{
    if pos < 0 || pos >= s.len() {
        Err(DecoderError::EndOfStream)
    } else if s[pos] != 100 {
        Err(DecoderError::ExpectedDictStart)
    } else {
        match parse_entries(s, pos + 1, seq![]) {
            Err(e) => Err(e),
            Ok((entries, q)) => Ok((Value::Dict(entries), q)),
        }
    }
}

/// Reads the entries of a dictionary from `pos` up to and including its closing `e`,
/// inserting each into `acc`.
pub open spec fn parse_entries(s: Seq<u8>, pos: int, acc: Seq<(Seq<u8>, Value)>) -> Result<
    (Seq<(Seq<u8>, Value)>, int),
    DecoderError,
>
    decreases s.len() - pos, 2int,
{
    if pos < 0 || pos >= s.len() {
        Err(DecoderError::EndOfStream)
    } else if s[pos] == 101 {
        Ok((acc, pos + 1))
    } else if !is_digit(s[pos]) {
        Err(DecoderError::ExpectedStringKey)
    } else {
        match parse_bytes(s, pos) {
            Err(e) => Err(e),
            Ok((k, q)) => if !advanced(s, pos, q) {
                Err(DecoderError::EndOfStream)
            } else {
                match parse_value(s, q) {
                    Err(e) => Err(e),
                    Ok((v, r)) => if !advanced(s, q, r) {
                        Err(DecoderError::EndOfStream)
                    } else {
                        parse_entries(s, r, dict_insert(acc, k, v))
                    },
                }
            },
        }
    }
}

// ---------------------------------------------------------------------------
// Encoding.
// ---------------------------------------------------------------------------

pub open spec fn digit_byte(d: nat) -> u8 {
    (48 + d) as u8
}

/// Decimal digits of `n`, without leading zeros.
pub open spec fn decimal(n: nat) -> Seq<u8>
    decreases n,
{
    if n < 10 {
        seq![digit_byte(n)]
    } else {
        decimal(n / 10).push(digit_byte(n % 10))
    }
}

/// Decimal text of a signed integer.
pub open spec fn int_text(n: int) -> Seq<u8> {
    if n < 0 {
        seq![45u8] + decimal((-n) as nat)
    } else {
        decimal(n as nat)
    }
}

pub open spec fn encode_bytes(b: Seq<u8>) -> Seq<u8> {
    decimal(b.len()) + seq![58u8] + b
}

/// Canonical serialization of a value.
pub open spec fn encode_value(v: Value) -> Seq<u8>
    decreases v,
{
    match v {
        Value::Bytes(b) => encode_bytes(b),
        Value::Integer(n) => seq![105u8] + int_text(n) + seq![101u8],
        Value::List(items) => seq![108u8] + encode_items(items) + seq![101u8],
        Value::Dict(entries) => seq![100u8] + encode_entries(entries) + seq![101u8],
    }
}

/// Concatenated encodings of list items.
pub open spec fn encode_items(items: Seq<Value>) -> Seq<u8>
    decreases items,
{
    if items.len() == 0 {
        seq![]
    } else {
        encode_items(items.drop_last()) + encode_value(items.last())
    }
}

/// Concatenated encodings of dictionary entries, each key followed by its value.
pub open spec fn encode_entries(entries: Seq<(Seq<u8>, Value)>) -> Seq<u8>
    decreases entries,
{
    if entries.len() == 0 {
        seq![]
    } else {
        encode_entries(entries.drop_last()) + encode_bytes(entries.last().0) + encode_value(
            entries.last().1,
        )
    }
}

/// Values whose dictionaries have strictly ascending keys and whose numbers fit the wire format.
pub open spec fn value_wf(v: Value) -> bool
    decreases v,
{
    match v {
        Value::Bytes(b) => b.len() <= i64::MAX,
        Value::Integer(n) => i64::MIN <= n <= i64::MAX,
        Value::List(items) => forall|i: int| 0 <= i < items.len() ==> value_wf(#[trigger] items[i]),
        Value::Dict(entries) => keys_sorted(entries) && forall|i: int|
            0 <= i < entries.len() ==> (#[trigger] entries[i]).0.len() <= i64::MAX && value_wf(
                entries[i].1,
            ),
    }
}

// ---------------------------------------------------------------------------
// Executable values.
// ---------------------------------------------------------------------------

/// A bencoded value.
#[derive(Debug, PartialEq)]
pub enum Bencode {
    Bytes(Vec<u8>),
    Integer(i64),
    List(Vec<Bencode>),
    Dict(Dict),
}

/// A bencode dictionary: entries in strictly ascending order of their keys.
#[derive(Debug, PartialEq)]
pub struct Dict {
    entries: Vec<(Vec<u8>, Bencode)>,
}

pub open spec fn model(b: Bencode) -> Value
    decreases b,
{
    match b {
        Bencode::Bytes(v) => Value::Bytes(v@),
        Bencode::Integer(n) => Value::Integer(n as int),
        Bencode::List(l) => Value::List(models(l@)),
        Bencode::Dict(d) => Value::Dict(entry_models(d.spec_entries())),
    }
}

pub open spec fn models(s: Seq<Bencode>) -> Seq<Value>
    decreases s,
{
    if s.len() == 0 {
        seq![]
    } else {
        models(s.drop_last()).push(model(s.last()))
    }
}

pub open spec fn entry_models(s: Seq<(Vec<u8>, Bencode)>) -> Seq<(Seq<u8>, Value)>
    decreases s,
{
    if s.len() == 0 {
        seq![]
    } else {
        entry_models(s.drop_last()).push((s.last().0@, model(s.last().1)))
    }
}

impl View for Bencode {
    type V = Value;

    open spec fn view(&self) -> Value {
        model(*self)
    }
}

impl View for Dict {
    type V = Seq<(Seq<u8>, Value)>;

    open spec fn view(&self) -> Seq<(Seq<u8>, Value)> {
        entry_models(self.spec_entries())
    }
}

pub proof fn lemma_models(s: Seq<Bencode>)
    ensures
        models(s).len() == s.len(),
        forall|i: int| 0 <= i < s.len() ==> #[trigger] models(s)[i] == model(s[i]),
    decreases s.len(),
{
    if s.len() > 0 {
        lemma_models(s.drop_last());
    }
}

pub proof fn lemma_entry_models(s: Seq<(Vec<u8>, Bencode)>)
    ensures
        entry_models(s).len() == s.len(),
        forall|i: int|
            0 <= i < s.len() ==> #[trigger] entry_models(s)[i] == (s[i].0@, model(s[i].1)),
    decreases s.len(),
{
    if s.len() > 0 {
        lemma_entry_models(s.drop_last());
    }
}

/// The value bound to `k`, if any.
pub open spec fn dict_get(d: Seq<(Seq<u8>, Value)>, k: Seq<u8>) -> Option<Value> {
    if exists|i: int| 0 <= i < d.len() && d[i].0 == k {
        Some(d[choose|i: int| 0 <= i < d.len() && d[i].0 == k].1)
    } else {
        None
    }
}

/// `d` without an entry for `k`.
pub open spec fn dict_remove(d: Seq<(Seq<u8>, Value)>, k: Seq<u8>) -> Seq<(Seq<u8>, Value)> {
    if exists|i: int| 0 <= i < d.len() && d[i].0 == k {
        d.remove(choose|i: int| 0 <= i < d.len() && d[i].0 == k)
    } else {
        d
    }
}

pub proof fn lemma_key_less_irreflexive(a: Seq<u8>)
    ensures
        !key_less(a, a),
    decreases a.len(),
{
    if a.len() > 0 {
        lemma_key_less_irreflexive(a.drop_first());
    }
}

pub proof fn lemma_key_less_transitive(a: Seq<u8>, b: Seq<u8>, c: Seq<u8>)
    requires
        key_less(a, b),
        key_less(b, c),
    ensures
        key_less(a, c),
    decreases a.len(),
{
    if a.len() > 0 && b.len() > 0 && c.len() > 0 && a[0] == b[0] && b[0] == c[0] {
        lemma_key_less_transitive(a.drop_first(), b.drop_first(), c.drop_first());
    }
}

pub proof fn lemma_key_less_total(a: Seq<u8>, b: Seq<u8>)
    requires
        a != b,
    ensures
        key_less(a, b) || key_less(b, a),
    decreases a.len(),
{
    if a.len() > 0 && b.len() > 0 && a[0] == b[0] {
        if a.drop_first() == b.drop_first() {
            assert(a =~= seq![a[0]] + a.drop_first());
            assert(b =~= seq![b[0]] + b.drop_first());
        }
        lemma_key_less_total(a.drop_first(), b.drop_first());
    } else if a.len() == 0 && b.len() == 0 {
        assert(a =~= b);
    }
}

/// Sorted keys are distinct.
pub proof fn lemma_sorted_unique(d: Seq<(Seq<u8>, Value)>, i: int, j: int)
    requires
        keys_sorted(d),
        0 <= i < d.len(),
        0 <= j < d.len(),
        d[i].0 == d[j].0,
    ensures
        i == j,
{
    if i < j {
        lemma_key_less_irreflexive(d[i].0);
        assert(key_less(d[i].0, d[j].0));
    } else if j < i {
        lemma_key_less_irreflexive(d[i].0);
        assert(key_less(d[j].0, d[i].0));
    }
}

/// Inserting at the first position whose key is not below `k`.
proof fn lemma_dict_insert_at(d: Seq<(Seq<u8>, Value)>, k: Seq<u8>, v: Value, i: int)
    requires
        0 <= i <= d.len(),
        forall|j: int| 0 <= j < i ==> key_less(#[trigger] d[j].0, k),
        i < d.len() ==> !key_less(d[i].0, k),
    ensures
        dict_insert(d, k, v) == if i < d.len() && d[i].0 == k {
            d.update(i, (k, v))
        } else {
            d.insert(i, (k, v))
        },
    decreases i,
{
    if i == 0 {
        if d.len() == 0 {
            assert(d.insert(0, (k, v)) =~= seq![(k, v)]);
        } else if d[0].0 == k {
            assert(seq![(k, v)] + d.drop_first() =~= d.update(0, (k, v)));
        } else {
            assert(seq![(k, v)] + d =~= d.insert(0, (k, v)));
        }
    } else {
        let rest = d.drop_first();
        assert forall|j: int| 0 <= j < i - 1 implies key_less(#[trigger] rest[j].0, k) by {
            assert(rest[j] == d[j + 1]);
        }
        lemma_dict_insert_at(rest, k, v, i - 1);
        if i < d.len() && d[i].0 == k {
            assert(seq![d[0]] + rest.update(i - 1, (k, v)) =~= d.update(i, (k, v)));
        } else {
            assert(seq![d[0]] + rest.insert(i - 1, (k, v)) =~= d.insert(i, (k, v)));
        }
    }
}

/// Inserting a key above every key present appends it.
pub proof fn lemma_dict_insert_last(d: Seq<(Seq<u8>, Value)>, k: Seq<u8>, v: Value)
    requires
        forall|j: int| 0 <= j < d.len() ==> key_less(#[trigger] d[j].0, k),
    ensures
        dict_insert(d, k, v) == d.push((k, v)),
{
    lemma_dict_insert_at(d, k, v, d.len() as int);
    assert(d.insert(d.len() as int, (k, v)) =~= d.push((k, v)));
}

proof fn lemma_dict_insert_sorted(d: Seq<(Seq<u8>, Value)>, k: Seq<u8>, v: Value, i: int)
    requires
        keys_sorted(d),
        0 <= i <= d.len(),
        forall|j: int| 0 <= j < i ==> key_less(#[trigger] d[j].0, k),
        i < d.len() ==> !key_less(d[i].0, k),
    ensures
        keys_sorted(dict_insert(d, k, v)),
{
    lemma_dict_insert_at(d, k, v, i);
    let r = dict_insert(d, k, v);
    if i < d.len() && d[i].0 == k {
        assert forall|a: int, b: int| 0 <= a < b < r.len() implies key_less(
            #[trigger] r[a].0,
            #[trigger] r[b].0,
        ) by {
            assert(r[a].0 == d[a].0 && r[b].0 == d[b].0);
        }
    } else {
        if i < d.len() {
            lemma_key_less_total(d[i].0, k);
        }
        assert forall|a: int, b: int| 0 <= a < b < r.len() implies key_less(
            #[trigger] r[a].0,
            #[trigger] r[b].0,
        ) by {
            if b < i {
                assert(r[a] == d[a] && r[b] == d[b]);
            } else if b == i {
                assert(r[a] == d[a]);
            } else if a == i {
                assert(r[b] == d[b - 1]);
                if b - 1 > i {
                    assert(key_less(d[i].0, d[b - 1].0));
                    lemma_key_less_transitive(k, d[i].0, d[b - 1].0);
                }
            } else if a < i {
                assert(r[a] == d[a] && r[b] == d[b - 1]);
                if a < b - 1 {
                } else {
                }
            } else {
                assert(r[a] == d[a - 1] && r[b] == d[b - 1]);
            }
        }
    }
}

/// Byte-lexicographic comparison.
fn bytes_less(a: &[u8], b: &[u8]) -> (r: bool)
    ensures
        r == key_less(a@, b@),
{
    let mut i: usize = 0;
    assert(a@.subrange(0, a@.len() as int) =~= a@);
    assert(b@.subrange(0, b@.len() as int) =~= b@);
    while i < a.len() && i < b.len()
        invariant
            0 <= i <= a@.len(),
            i <= b@.len(),
            key_less(a@, b@) == key_less(a@.subrange(i as int, a@.len() as int), b@.subrange(i as int, b@.len() as int)),
        decreases a@.len() - i,
    {
        if a[i] != b[i] {
            proof {
                let x = a@.subrange(i as int, a@.len() as int);
                let y = b@.subrange(i as int, b@.len() as int);
                assert(x[0] == a@[i as int] && y[0] == b@[i as int]);
            }
            return a[i] < b[i];
        }
        proof {
            let x = a@.subrange(i as int, a@.len() as int);
            let y = b@.subrange(i as int, b@.len() as int);
            assert(x.drop_first() =~= a@.subrange(i + 1, a@.len() as int));
            assert(y.drop_first() =~= b@.subrange(i + 1, b@.len() as int));
        }
        i = i + 1;
    }
    i < b.len()
}

/// Byte-wise equality.
fn bytes_equal(a: &[u8], b: &[u8]) -> (r: bool)
    ensures
        r == (a@ == b@),
{
    if a.len() != b.len() {
        return false;
    }
    let mut i: usize = 0;
    while i < a.len()
        invariant
            0 <= i <= a@.len(),
            a@.len() == b@.len(),
            forall|j: int| 0 <= j < i ==> a@[j] == b@[j],
        decreases a@.len() - i,
    {
        if a[i] != b[i] {
            return false;
        }
        i = i + 1;
    }
    assert(a@ =~= b@);
    true
}

impl Dict {
    pub closed spec fn spec_entries(&self) -> Seq<(Vec<u8>, Bencode)> {
        self.entries@
    }

    #[verifier::type_invariant]
    spec fn sorted(&self) -> bool {
        keys_sorted(self@)
    }

    /// An empty dictionary.
    pub fn new() -> (d: Dict)
        ensures
            d@ == Seq::<(Seq<u8>, Value)>::empty(),
    {
        let entries: Vec<(Vec<u8>, Bencode)> = Vec::new();
        proof {
            lemma_entry_models(entries@);
        }
        Dict { entries }
    }

    /// Key of the entry at `index`, in ascending key order.
    pub fn key_at(&self, index: usize) -> (r: &Vec<u8>)
        requires
            index < self@.len(),
        ensures
            r@ == self@[index as int].0,
    {
        proof {
            lemma_entry_models(self.entries@);
        }
        &self.entries[index].0
    }

    /// Value of the entry at `index`, in ascending key order.
    pub fn value_at(&self, index: usize) -> (r: &Bencode)
        requires
            index < self@.len(),
        ensures
            r@ == self@[index as int].1,
    {
        proof {
            lemma_entry_models(self.entries@);
        }
        &self.entries[index].1
    }

    /// Number of entries.
    pub fn len(&self) -> (r: usize)
        ensures
            r == self@.len(),
    {
        proof {
            lemma_entry_models(self.entries@);
        }
        self.entries.len()
    }

    /// Index of the entry with key `key`, if any.
    fn position(&self, key: &[u8]) -> (r: Option<usize>)
        ensures
            match r {
                Some(i) => i < self@.len() && self@[i as int].0 == key@,
                None => forall|j: int| 0 <= j < self@.len() ==> self@[j].0 != key@,
            },
    {
        proof {
            lemma_entry_models(self.entries@);
        }
        let mut i: usize = 0;
        while i < self.entries.len()
            invariant
                0 <= i <= self.entries@.len(),
                entry_models(self.entries@).len() == self.entries@.len(),
                forall|j: int| 0 <= j < i ==> self.entries@[j].0@ != key@,
            decreases self.entries@.len() - i,
        {
            proof {
                lemma_entry_models(self.entries@);
            }
            if bytes_equal(self.entries[i].0.as_slice(), key) {
                return Some(i);
            }
            i = i + 1;
        }
        None
    }

    /// The value bound to `key`.
    pub fn get(&self, key: &[u8]) -> (r: Option<&Bencode>)
        ensures
            match r {
                Some(v) => dict_get(self@, key@) == Some(v@),
                None => dict_get(self@, key@) is None,
            },
    {
        proof {
            use_type_invariant(self);
            lemma_entry_models(self.entries@);
        }
        match self.position(key) {
            Some(i) => {
                proof {
                    let d = self@;
                    assert(0 <= i < d.len() && d[i as int].0 == key@);
                    let c = choose|j: int| 0 <= j < d.len() && d[j].0 == key@;
                    lemma_sorted_unique(d, i as int, c);
                }
                Some(&self.entries[i].1)
            },
            None => None,
        }
    }

    /// Whether some entry has key `key`.
    pub fn contains_key(&self, key: &[u8]) -> (r: bool)
        ensures
            r == (dict_get(self@, key@) is Some),
    {
        match self.position(key) {
            Some(i) => {
                assert(0 <= i < self@.len() && self@[i as int].0 == key@);
                true
            },
            None => false,
        }
    }

    /// Takes out the entry with key `key` and returns its value.
    pub fn remove(&mut self, key: &[u8]) -> (r: Option<Bencode>)
        ensures
            match r {
                Some(v) => dict_get(old(self)@, key@) == Some(v@),
                None => dict_get(old(self)@, key@) is None,
            },
            final(self)@ == dict_remove(old(self)@, key@),
    {
        proof {
            use_type_invariant(&*self);
            lemma_entry_models(self.entries@);
        }
        let ghost d = self@;
        let ghost before = self.entries@;
        match self.position(key) {
            Some(i) => {
                proof {
                    assert(0 <= i < d.len() && d[i as int].0 == key@);
                    let c = choose|j: int| 0 <= j < d.len() && d[j].0 == key@;
                    lemma_sorted_unique(d, i as int, c);
                    lemma_entry_models(before.remove(i as int));
                    assert(entry_models(before.remove(i as int)) =~= d.remove(i as int));
                    let r = d.remove(i as int);
                    assert forall|a: int, b: int| 0 <= a < b < r.len() implies key_less(
                        #[trigger] r[a].0,
                        #[trigger] r[b].0,
                    ) by {
                        if b < i {
                        } else if a < i {
                            assert(r[b] == d[b + 1]);
                        } else {
                            assert(r[a] == d[a + 1] && r[b] == d[b + 1]);
                        }
                    }
                }
                let mut entries: Vec<(Vec<u8>, Bencode)> = Vec::new();
                proof {
                    lemma_entry_models(entries@);
                }
                std::mem::swap(&mut entries, &mut self.entries);
                let (_, v) = entries.remove(i);
                self.entries = entries;
                Some(v)
            },
            None => None,
        }
    }

    /// Binds `key` to `value`, replacing the value of an existing entry with that key.
    pub fn insert(&mut self, key: Vec<u8>, value: Bencode)
        ensures
            final(self)@ == dict_insert(old(self)@, key@, value@),
    {
        proof {
            use_type_invariant(&*self);
            lemma_entry_models(self.entries@);
        }
        let ghost d = self@;
        let ghost before = self.entries@;
        let n = self.entries.len();
        let mut i: usize = 0;
        while i < n && bytes_less(self.entries[i].0.as_slice(), key.as_slice())
            invariant
                n == self.entries@.len(),
                self.entries@ == before,
                d == entry_models(before),
                d.len() == before.len(),
                forall|j: int| 0 <= j < before.len() ==> #[trigger] d[j] == (before[j].0@, model(before[j].1)),
                0 <= i <= n,
                forall|j: int| 0 <= j < i ==> key_less(#[trigger] d[j].0, key@),
            decreases n - i,
        {
            i = i + 1;
        }
        proof {
            lemma_dict_insert_at(d, key@, value@, i as int);
            lemma_dict_insert_sorted(d, key@, value@, i as int);
        }
        let ghost entry = (key, value);
        if i < n && !bytes_less(key.as_slice(), self.entries[i].0.as_slice()) {
            proof {
                if d[i as int].0 != key@ {
                    lemma_key_less_total(d[i as int].0, key@);
                }
                lemma_entry_models(before.update(i as int, entry));
                assert(entry_models(before.update(i as int, entry)) =~= d.update(i as int, (key@, value@)));
            }
            let mut entries: Vec<(Vec<u8>, Bencode)> = Vec::new();
            proof {
                lemma_entry_models(entries@);
            }
            std::mem::swap(&mut entries, &mut self.entries);
            entries.set(i, (key, value));
            self.entries = entries;
        } else {
            proof {
                lemma_entry_models(before.insert(i as int, entry));
                assert(entry_models(before.insert(i as int, entry)) =~= d.insert(i as int, (key@, value@)));
            }
            let mut entries: Vec<(Vec<u8>, Bencode)> = Vec::new();
            proof {
                lemma_entry_models(entries@);
            }
            std::mem::swap(&mut entries, &mut self.entries);
            entries.insert(i, (key, value));
            self.entries = entries;
        }
    }
}

/// Appends the decimal digits of `n`.
fn push_decimal(out: &mut Vec<u8>, n: u64)
    ensures
        final(out)@ == old(out)@ + decimal(n as nat),
    decreases n,
{
    if n >= 10 {
        push_decimal(out, n / 10);
    }
    out.push(DIGIT_ZERO + (n % 10) as u8);
    assert(old(out)@ + decimal(n as nat) =~= out@);
}

/// Appends `<length>:<bytes>`.
fn push_bytes_encoding(out: &mut Vec<u8>, b: &[u8])
    ensures
        final(out)@ == old(out)@ + encode_bytes(b@),
{
    push_decimal(out, b.len() as u64);
    out.push(COLON);
    let ghost mid = out@;
    let mut i: usize = 0;
    while i < b.len()
        invariant
            0 <= i <= b@.len(),
            out@ == mid + b@.subrange(0, i as int),
        decreases b@.len() - i,
    {
        out.push(b[i]);
        assert(out@ =~= mid + b@.subrange(0, i + 1));
        i = i + 1;
    }
    assert(b@.subrange(0, b@.len() as int) =~= b@);
    assert(out@ =~= old(out)@ + encode_bytes(b@));
}

impl Bencode {
    /// Appends the canonical encoding of `self`.
    fn encode_into(&self, out: &mut Vec<u8>)
        ensures
            final(out)@ == old(out)@ + encode_value(self@),
        decreases self@,
    {
        match self {
            Bencode::Bytes(b) => {
                push_bytes_encoding(out, b.as_slice());
            },
            Bencode::Integer(n) => {
                out.push(INT_START);
                if *n < 0 {
                    out.push(MINUS);
                    let magnitude: u64 = (-(*n + 1)) as u64 + 1;
                    push_decimal(out, magnitude);
                } else {
                    push_decimal(out, *n as u64);
                }
                out.push(END);
                assert(out@ =~= old(out)@ + encode_value(self@));
            },
            Bencode::List(items) => {
                let ghost ms = models(items@);
                proof {
                    lemma_models(items@);
                }
                out.push(LIST_START);
                let ghost start = out@;
                let mut i: usize = 0;
                assert(ms.subrange(0, 0) =~= Seq::<Value>::empty());
                while i < items.len()
                    invariant
                        0 <= i <= items@.len(),
                        ms == models(items@),
                        ms.len() == items@.len(),
                        forall|j: int| 0 <= j < items@.len() ==> #[trigger] ms[j] == model(items@[j]),
                        out@ == start + encode_items(ms.subrange(0, i as int)),
                        *self == Bencode::List(*items),
                    decreases items@.len() - i,
                {
                    proof {
                        vstd::std_specs::vec::axiom_vec_index_decreases(*items, i as int);
                        assert(decreases_to!(*items => items[i as int]));
                        let v = self@;
                        assert(v->List_0 == ms);
                        assert(decreases_to!(v => v->List_0));
                        assert(decreases_to!(v->List_0 => v->List_0[i as int]));
                    }
                    items[i].encode_into(out);
                    assert(ms.subrange(0, i + 1).drop_last() =~= ms.subrange(0, i as int));
                    assert(out@ =~= start + encode_items(ms.subrange(0, i + 1)));
                    i = i + 1;
                }
                assert(ms.subrange(0, ms.len() as int) =~= ms);
                out.push(END);
                assert(out@ =~= old(out)@ + encode_value(self@));
            },
            Bencode::Dict(d) => {
                let ghost es = entry_models(d.entries@);
                proof {
                    lemma_entry_models(d.entries@);
                }
                out.push(DICT_START);
                let ghost start = out@;
                let mut i: usize = 0;
                assert(es.subrange(0, 0) =~= Seq::<(Seq<u8>, Value)>::empty());
                while i < d.entries.len()
                    invariant
                        0 <= i <= d.entries@.len(),
                        es == entry_models(d.entries@),
                        es.len() == d.entries@.len(),
                        forall|j: int|
                            0 <= j < d.entries@.len() ==> #[trigger] es[j] == (
                                d.entries@[j].0@,
                                model(d.entries@[j].1),
                            ),
                        out@ == start + encode_entries(es.subrange(0, i as int)),
                        *self == Bencode::Dict(*d),
                    decreases d.entries@.len() - i,
                {
                    push_bytes_encoding(out, d.entries[i].0.as_slice());
                    proof {
                        let v = self@;
                        assert(v->Dict_0 == es);
                        assert(decreases_to!(v => v->Dict_0));
                        assert(decreases_to!(v->Dict_0 => v->Dict_0[i as int]));
                        assert(decreases_to!(v->Dict_0[i as int] => v->Dict_0[i as int].1));
                    }
                    d.entries[i].1.encode_into(out);
                    assert(es.subrange(0, i + 1).drop_last() =~= es.subrange(0, i as int));
                    assert(out@ =~= start + encode_entries(es.subrange(0, i + 1)));
                    i = i + 1;
                }
                assert(es.subrange(0, es.len() as int) =~= es);
                out.push(END);
                assert(out@ =~= old(out)@ + encode_value(self@));
            },
        }
    }

    /// The canonical serialization of `self`.
    pub fn encode(self) -> (r: Vec<u8>)
        ensures
            r@ == encode_value(self@),
    {
        let mut out: Vec<u8> = Vec::new();
        self.encode_into(&mut out);
        assert(out@ =~= encode_value(self@));
        out
    }
}

// ---------------------------------------------------------------------------
// Decoder.
// ---------------------------------------------------------------------------

impl Bencode {
    /// Decodes the value at the start of `input`; bytes after it are ignored.
    pub fn decode(input: &[u8]) -> (r: Result<Bencode, DecoderError>)
        ensures
            match r {
                Ok(b) => decode_spec(input@) == Ok::<Value, DecoderError>(b@),
                Err(e) => decode_spec(input@) == Err::<Value, DecoderError>(e),
            },
    {
        let mut decoder = Decoder::new(input);
        decoder.decode_value()
    }
}

/// The outcome of decoding a whole input: the first value in it.
pub open spec fn decode_spec(s: Seq<u8>) -> Result<Value, DecoderError> {
    match parse_value(s, 0) {
        Err(e) => Err(e),
        Ok((v, _)) => Ok(v),
    }
}

pub open spec fn int_outcome(r: Result<i64, DecoderError>, p: int) -> Result<(int, int), DecoderError> {
    match r {
        Ok(n) => Ok((n as int, p)),
        Err(e) => Err(e),
    }
}

pub open spec fn value_outcome(r: Result<Bencode, DecoderError>, p: int) -> Result<(Value, int), DecoderError> {
    match r {
        Ok(b) => Ok((b@, p)),
        Err(e) => Err(e),
    }
}

proof fn lemma_digits_value_monotone(s: Seq<u8>, from: int, k: int, to: int)
    requires
        from <= k <= to,
    ensures
        digits_value(s, from, k) <= digits_value(s, from, to),
    decreases to - k,
{
    if k < to {
        lemma_digits_value_monotone(s, from, k, to - 1);
    }
}

proof fn lemma_digits_end_ge(s: Seq<u8>, p: int)
    ensures
        digits_end(s, p) >= p,
    decreases s.len() - p,
{
    if 0 <= p < s.len() && is_digit(s[p]) {
        lemma_digits_end_ge(s, p + 1);
    }
}

/// A read position in a byte slice.
struct Cursor<'a> {
    data: &'a [u8],
    position: usize,
}

impl<'a> Cursor<'a> {
    spec fn wf(&self) -> bool {
        self.position <= self.data@.len()
    }

    fn new(data: &'a [u8]) -> (r: Cursor<'a>)
        ensures
            r.wf(),
            r.data@ == data@,
            r.position == 0,
    {
        Cursor { data, position: 0 }
    }

    fn remaining(&self) -> (r: usize)
        requires
            self.wf(),
        ensures
            r == self.data@.len() - self.position,
    {
        self.data.len() - self.position
    }

    fn peek_byte(&self) -> (r: Result<u8, DecoderError>)
        requires
            self.wf(),
        ensures
            match r {
                Ok(b) => self.position < self.data@.len() && b == self.data@[self.position as int],
                Err(e) => self.position >= self.data@.len() && e == DecoderError::EndOfStream,
            },
    {
        if self.remaining() == 0 {
            Err(DecoderError::EndOfStream)
        } else {
            Ok(self.data[self.position])
        }
    }

    /// Whether the next byte is an ASCII digit.
    fn at_digit(&self) -> (r: bool)
        requires
            self.wf(),
        ensures
            r == (self.position < self.data@.len() && is_digit(self.data@[self.position as int])),
    {
        self.position < self.data.len() && DIGIT_ZERO <= self.data[self.position]
            && self.data[self.position] <= DIGIT_NINE
    }

    fn advance(&mut self, count: usize)
        requires
            old(self).wf(),
        ensures
            final(self).wf(),
            final(self).data == old(self).data,
            final(self).position == if old(self).position + count <= old(self).data@.len() {
                old(self).position + count
            } else {
                old(self).data@.len() as int
            },
    {
        let len = self.data.len();
        if count <= len - self.position {
            self.position = self.position + count;
        } else {
            self.position = len;
        }
    }

    fn take_byte(&mut self) -> (r: Result<u8, DecoderError>)
        requires
            old(self).wf(),
        ensures
            final(self).wf(),
            final(self).data == old(self).data,
            match r {
                Ok(b) => old(self).position < old(self).data@.len() && b == old(self).data@[old(
                    self,
                ).position as int] && final(self).position == old(self).position + 1,
                Err(e) => old(self).position >= old(self).data@.len() && e
                    == DecoderError::EndOfStream && final(self).position == old(self).position,
            },
    {
        let result = self.peek_byte();
        self.advance(1);
        result
    }

    /// Copies the next `count` bytes and moves past them.
    fn take_bytes(&mut self, count: usize) -> (r: Vec<u8>)
        requires
            old(self).wf(),
            old(self).position + count <= old(self).data@.len(),
        ensures
            final(self).wf(),
            final(self).data == old(self).data,
            final(self).position == old(self).position + count,
            r@ == old(self).data@.subrange(
                old(self).position as int,
                old(self).position + count,
            ),
    {
        let start = self.position;
        let len = self.data.len();
        let mut out: Vec<u8> = Vec::new();
        let mut i: usize = 0;
        while i < count
            invariant
                self.wf(),
                self.position == start,
                start + count <= self.data@.len(),
                len == self.data@.len(),
                0 <= i <= count,
                out@ == self.data@.subrange(start as int, start + i),
            decreases count - i,
        {
            out.push(self.data[start + i]);
            assert(out@ =~= self.data@.subrange(start as int, start + i + 1));
            i = i + 1;
        }
        self.position = start + count;
        out
    }
}

/// Reads bencoded values from a byte slice, front to back.
pub struct Decoder<'a> {
    cursor: Cursor<'a>,
}

impl<'a> Decoder<'a> {
    /// The bytes being read.
    pub closed spec fn input(&self) -> Seq<u8> {
        self.cursor.data@
    }

    /// The read position.
    pub closed spec fn pos(&self) -> int {
        self.cursor.position as int
    }

    pub closed spec fn wf(&self) -> bool {
        self.cursor.wf()
    }

    pub fn new(data: &'a [u8]) -> (r: Decoder<'a>)
        ensures
            r.wf(),
            r.input() == data@,
            r.pos() == 0,
    {
        Decoder { cursor: Cursor::new(data) }
    }

    /// Number of bytes not yet read.
    pub fn remaining(&self) -> (r: usize)
        requires
            self.wf(),
        ensures
            r == self.input().len() - self.pos(),
    {
        self.cursor.remaining()
    }

    /// Reads an optionally signed decimal integer.
    pub fn parse_int(&mut self) -> (r: Result<i64, DecoderError>)
        requires
            old(self).wf(),
        ensures
            final(self).wf(),
            final(self).input() == old(self).input(),
            int_outcome(r, final(self).pos()) == parse_int(old(self).input(), old(self).pos()),
            r is Ok ==> old(self).pos() < final(self).pos(),
    {
        let ghost s = self.input();
        let ghost pos = self.pos();
        let first = match self.cursor.peek_byte() {
            Ok(b) => b,
            Err(e) => return Err(e),
        };
        let negative = first == MINUS;
        if first == MINUS || first == PLUS {
            self.cursor.advance(1);
        }
        let lead = match self.cursor.peek_byte() {
            Ok(b) => b,
            Err(e) => return Err(e),
        };
        if lead < DIGIT_ZERO || lead > DIGIT_NINE {
            return Err(DecoderError::ExpectedInteger);
        }
        if lead == DIGIT_ZERO {
            if negative {
                return Err(DecoderError::ExpectedInteger);
            }
            self.cursor.advance(1);
            if self.cursor.at_digit() {
                return Err(DecoderError::ExpectedInteger);
            }
            return Ok(0);
        }
        let ghost start = self.pos();
        let mut result: i64 = 0;
        while self.cursor.at_digit()
            invariant
                self.cursor.wf(),
                self.cursor.data@ == s,
                s == old(self).input(),
                pos == old(self).pos(),
                start <= self.cursor.position,
                0 <= pos <= start < s.len(),
                is_digit(s[start]),
                s[start] != 48,
                negative == (s[pos] == 45),
                start == if s[pos] == 45 || s[pos] == 43 { pos + 1 } else { pos },
                digits_end(s, start) == digits_end(s, self.cursor.position as int),
                result as int == if negative {
                    -digits_value(s, start, self.cursor.position as int)
                } else {
                    digits_value(s, start, self.cursor.position as int) as int
                },
            decreases s.len() - self.cursor.position,
        {
            let p = self.cursor.position;
            let digit = (self.cursor.data[p] - DIGIT_ZERO) as i64;
            self.cursor.advance(1);
            proof {
                assert(digits_value(s, start, p + 1) == digits_value(s, start, p as int) * 10 + digit);
                lemma_digits_end_ge(s, p + 1);
            }
            let scaled = match result.checked_mul(10) {
                Some(v) => v,
                None => {
                    proof {
                        lemma_digits_value_monotone(s, start, p + 1, digits_end(s, start));
                    }
                    return Err(DecoderError::OversizedInteger);
                },
            };
            if negative {
                result = match scaled.checked_sub(digit) {
                    Some(v) => v,
                    None => {
                        proof {
                            lemma_digits_value_monotone(s, start, p + 1, digits_end(s, start));
                        }
                        return Err(DecoderError::OversizedInteger);
                    },
                };
            } else {
                result = match scaled.checked_add(digit) {
                    Some(v) => v,
                    None => {
                        proof {
                            lemma_digits_value_monotone(s, start, p + 1, digits_end(s, start));
                        }
                        return Err(DecoderError::OversizedInteger);
                    },
                };
            }
        }
        Ok(result)
    }

    /// Reads `i<integer>e`.
    pub fn decode_int(&mut self) -> (r: Result<Bencode, DecoderError>)
        requires
            old(self).wf(),
        ensures
            final(self).wf(),
            final(self).input() == old(self).input(),
            value_outcome(r, final(self).pos()) == integer_value(old(self).input(), old(self).pos()),
            r is Ok ==> old(self).pos() < final(self).pos(),
    {
        let start = match self.cursor.take_byte() {
            Ok(b) => b,
            Err(e) => return Err(e),
        };
        if start != INT_START {
            return Err(DecoderError::ExpectedIntegerStart);
        }
        let n = match self.parse_int() {
            Ok(n) => n,
            Err(e) => return Err(e),
        };
        let end = match self.cursor.take_byte() {
            Ok(b) => b,
            Err(e) => return Err(e),
        };
        if end != END {
            return Err(DecoderError::ExpectedIntegerEnd);
        }
        Ok(Bencode::Integer(n))
    }

    /// Reads `<length>:<bytes>` and returns the bytes.
    fn decode_raw_bytes(&mut self) -> (r: Result<Vec<u8>, DecoderError>)
        requires
            old(self).wf(),
        ensures
            final(self).wf(),
            final(self).input() == old(self).input(),
            match r {
                Ok(b) => parse_bytes(old(self).input(), old(self).pos()) == Ok::<(Seq<u8>, int), DecoderError>((b@, final(self).pos())),
                Err(e) => parse_bytes(old(self).input(), old(self).pos()) == Err::<(Seq<u8>, int), DecoderError>(e),
            },
            r is Ok ==> old(self).pos() < final(self).pos(),
    {
        let size = match self.parse_int() {
            Ok(n) => n,
            Err(e) => return Err(e),
        };
        let colon = match self.cursor.take_byte() {
            Ok(b) => b,
            Err(e) => return Err(e),
        };
        if colon != COLON {
            return Err(DecoderError::ExpectedStringStart);
        }
        if size < 0 || (self.cursor.remaining() as u64) < (size as u64) {
            return Err(DecoderError::InvalidStringSize);
        }
        let bytes = self.cursor.take_bytes(size as usize);
        Ok(bytes)
    }

    /// Reads any value.
    pub fn decode_value(&mut self) -> (r: Result<Bencode, DecoderError>)
        requires
            old(self).wf(),
        ensures
            final(self).wf(),
            final(self).input() == old(self).input(),
            value_outcome(r, final(self).pos()) == parse_value(old(self).input(), old(self).pos()),
            r is Ok ==> old(self).pos() < final(self).pos(),
        decreases old(self).input().len() - old(self).pos(), 1int,
    {
        let next = match self.cursor.peek_byte() {
            Ok(b) => b,
            Err(e) => return Err(e),
        };
        if next == INT_START {
            self.decode_int()
        } else if DIGIT_ZERO <= next && next <= DIGIT_NINE {
            self.decode_bytestring()
        } else if next == LIST_START {
            self.decode_list()
        } else if next == DICT_START {
            self.decode_dict()
        } else {
            Err(DecoderError::UnexpectedStartOfValue)
        }
    }

    /// Reads `l<values>e`.
    pub fn decode_list(&mut self) -> (r: Result<Bencode, DecoderError>)
        requires
            old(self).wf(),
        ensures
            final(self).wf(),
            final(self).input() == old(self).input(),
            value_outcome(r, final(self).pos()) == parse_list(old(self).input(), old(self).pos()),
            r is Ok ==> old(self).pos() < final(self).pos(),
        decreases old(self).input().len() - old(self).pos(), 0int,
    {
        let ghost s = self.input();
        let ghost pos = self.pos();
        let start = match self.cursor.take_byte() {
            Ok(b) => b,
            Err(e) => return Err(e),
        };
        if start != LIST_START {
            return Err(DecoderError::ExpectedListStart);
        }
        let mut result: Vec<Bencode> = Vec::new();
        proof {
            lemma_models(result@);
            assert(models(result@) + Seq::<Value>::empty() =~= Seq::<Value>::empty());
        }
        loop
            invariant
                self.wf(),
                self.input() == s,
                s == old(self).input(),
                pos == old(self).pos(),
                pos < self.pos(),
                0 <= pos < s.len(),
                s[pos] == 108,
                parse_items(s, pos + 1) == match parse_items(s, self.pos()) {
                    Ok((rest, q)) => Ok((models(result@) + rest, q)),
                    Err(e) => Err(e),
                },
            decreases s.len() - self.pos(),
        {
            let next = match self.cursor.peek_byte() {
                Ok(b) => b,
                Err(e) => return Err(e),
            };
            if next == END {
                let _ = self.cursor.take_byte();
                assert(models(result@) + Seq::<Value>::empty() =~= models(result@));
                return Ok(Bencode::List(result));
            }
            let value = match self.decode_value() {
                Ok(v) => v,
                Err(e) => return Err(e),
            };
            proof {
                assert((result@.push(value)).drop_last() =~= result@);
                assert(models(result@.push(value)) == models(result@).push(value@));
                match parse_items(s, self.pos()) {
                    Ok((rest, q)) => {
                        assert(models(result@) + (seq![value@] + rest) =~= models(result@).push(value@) + rest);
                    },
                    Err(e) => {},
                }
            }
            result.push(value);
        }
    }

    /// Reads `d<key><value>...e`. A later entry with the key of an earlier one replaces it.
    pub fn decode_dict(&mut self) -> (r: Result<Bencode, DecoderError>)
        requires
            old(self).wf(),
        ensures
            final(self).wf(),
            final(self).input() == old(self).input(),
            value_outcome(r, final(self).pos()) == parse_dict(old(self).input(), old(self).pos()),
            r is Ok ==> old(self).pos() < final(self).pos(),
        decreases old(self).input().len() - old(self).pos(), 0int,
    {
        let ghost s = self.input();
        let ghost pos = self.pos();
        let start = match self.cursor.take_byte() {
            Ok(b) => b,
            Err(e) => return Err(e),
        };
        if start != DICT_START {
            return Err(DecoderError::ExpectedDictStart);
        }
        let mut result = Dict::new();
        loop
            invariant
                self.wf(),
                self.input() == s,
                s == old(self).input(),
                pos == old(self).pos(),
                pos < self.pos(),
                0 <= pos < s.len(),
                s[pos] == 100,
                parse_entries(s, pos + 1, seq![]) == parse_entries(s, self.pos(), result@),
            decreases s.len() - self.pos(),
        {
            let next = match self.cursor.peek_byte() {
                Ok(b) => b,
                Err(e) => return Err(e),
            };
            if next == END {
                let _ = self.cursor.take_byte();
                return Ok(Bencode::Dict(result));
            }
            if next < DIGIT_ZERO || next > DIGIT_NINE {
                return Err(DecoderError::ExpectedStringKey);
            }
            let key = match self.decode_raw_bytes() {
                Ok(k) => k,
                Err(e) => return Err(e),
            };
            let value = match self.decode_value() {
                Ok(v) => v,
                Err(e) => return Err(e),
            };
            result.insert(key, value);
        }
    }

    /// Reads `<length>:<bytes>`.
    pub fn decode_bytestring(&mut self) -> (r: Result<Bencode, DecoderError>)
        requires
            old(self).wf(),
        ensures
            final(self).wf(),
            final(self).input() == old(self).input(),
            value_outcome(r, final(self).pos()) == bytes_value(old(self).input(), old(self).pos()),
            r is Ok ==> old(self).pos() < final(self).pos(),
    {
        match self.decode_raw_bytes() {
            Ok(b) => Ok(Bencode::Bytes(b)),
            Err(e) => Err(e),
        }
    }
}

// ---------------------------------------------------------------------------
// Decoding what was encoded.
// ---------------------------------------------------------------------------

proof fn lemma_digits_value_shift(s: Seq<u8>, t: Seq<u8>, a: int, k: int)
    requires
        0 <= k <= t.len(),
        0 <= a,
        a + k <= s.len(),
        forall|i: int| 0 <= i < k ==> s[a + i] == t[i],
    ensures
        digits_value(s, a, a + k) == digits_value(t, 0, k),
    decreases k,
{
    if k > 0 {
        lemma_digits_value_shift(s, t, a, k - 1);
        assert(s[a + (k - 1)] == t[k - 1]);
    }
}

proof fn lemma_decimal(n: nat)
    ensures
        decimal(n).len() >= 1,
        forall|i: int| 0 <= i < decimal(n).len() ==> is_digit(#[trigger] decimal(n)[i]),
        decimal(n)[0] == 48 ==> n == 0 && decimal(n).len() == 1,
        digits_value(decimal(n), 0, decimal(n).len() as int) == n,
    decreases n,
{
    if n >= 10 {
        let t = decimal(n / 10);
        lemma_decimal(n / 10);
        let d = decimal(n);
        assert(d == t.push(digit_byte(n % 10)));
        lemma_digits_value_shift(d, t, 0, t.len() as int);
        assert(digits_value(d, 0, d.len() as int) == digits_value(d, 0, t.len() as int) * 10 + (d[t.len() as int] - 48));
        assert(d[0] == t[0]);
        assert(d[t.len() as int] == digit_byte(n % 10));
        assert(n == (n / 10) * 10 + n % 10);
    } else {
        let d = decimal(n);
        assert(d == seq![digit_byte(n)]);
        assert(digits_value(d, 0, 0) == 0);
        assert(digits_value(d, 0, 1) == digits_value(d, 0, 0) * 10 + (d[0] - 48));
    }
}

proof fn lemma_digits_end_at(s: Seq<u8>, a: int, len: int)
    requires
        0 <= a,
        0 <= len,
        a + len <= s.len(),
        forall|i: int| 0 <= i < len ==> is_digit(#[trigger] s[a + i]),
        a + len == s.len() || !is_digit(s[a + len]),
    ensures
        digits_end(s, a) == a + len,
    decreases len,
{
    if len > 0 {
        assert(is_digit(s[a + 0]));
        assert forall|i: int| 0 <= i < len - 1 implies is_digit(#[trigger] s[(a + 1) + i]) by {
            assert(is_digit(s[a + (i + 1)]));
        }
        lemma_digits_end_at(s, a + 1, len - 1);
    }
}

/// `s` holds `t` from position `p`.
pub open spec fn holds_at(s: Seq<u8>, p: int, t: Seq<u8>) -> bool {
    0 <= p && p + t.len() <= s.len() && s.subrange(p, p + t.len()) == t
}

proof fn lemma_holds_split(s: Seq<u8>, p: int, a: Seq<u8>, b: Seq<u8>)
    requires
        holds_at(s, p, a + b),
    ensures
        holds_at(s, p, a),
        holds_at(s, p + a.len(), b),
{
    assert(s.subrange(p, p + a.len()) =~= (a + b).subrange(0, a.len() as int));
    assert((a + b).subrange(0, a.len() as int) =~= a);
    assert(s.subrange(p + a.len(), p + a.len() + b.len()) =~= (a + b).subrange(
        a.len() as int,
        (a.len() + b.len()) as int,
    ));
    assert((a + b).subrange(a.len() as int, (a.len() + b.len()) as int) =~= b);
}

proof fn lemma_holds_index(s: Seq<u8>, p: int, t: Seq<u8>, i: int)
    requires
        holds_at(s, p, t),
        0 <= i < t.len(),
    ensures
        s[p + i] == t[i],
{
    assert(s.subrange(p, p + t.len())[i] == s[p + i]);
}

/// Reading the decimal text of a number that is followed by a non-digit.
proof fn lemma_parse_int_text(s: Seq<u8>, a: int, n: int)
    requires
        i64::MIN <= n <= i64::MAX,
        holds_at(s, a, int_text(n)),
        a + int_text(n).len() < s.len(),
        !is_digit(s[a + int_text(n).len()]),
    ensures
        parse_int(s, a) == Ok::<(int, int), DecoderError>((n, a + int_text(n).len())),
{
    let t = int_text(n);
    let m: nat = if n < 0 {
        (-n) as nat
    } else {
        n as nat
    };
    let d = decimal(m);
    lemma_decimal(m);
    let start = if n < 0 {
        a + 1
    } else {
        a
    };
    if n < 0 {
        lemma_holds_split(s, a, seq![45u8], d);
        lemma_holds_index(s, a, seq![45u8], 0);
    } else {
        assert(t == d);
    }
    assert(holds_at(s, start, d));
    assert(start + d.len() == a + t.len());
    assert forall|i: int| 0 <= i < d.len() implies s[start + i] == d[i] by {
        lemma_holds_index(s, start, d, i);
    }
    assert forall|i: int| 0 <= i < d.len() implies is_digit(#[trigger] s[start + i]) by {
        assert(s[start + i] == d[i]);
    }
    lemma_digits_end_at(s, start, d.len() as int);
    lemma_digits_value_shift(s, d, start, d.len() as int);
    assert(s[start] == d[0]);
    if n >= 0 {
        assert(s[a] != 45 && s[a] != 43);
    }
    if d[0] == 48 {
        assert(d.len() == 1);
        assert(s[start + 1] == s[a + t.len()]);
    }
}

proof fn lemma_parse_bytes_encoded(s: Seq<u8>, p: int, b: Seq<u8>)
    requires
        b.len() <= i64::MAX,
        holds_at(s, p, encode_bytes(b)),
    ensures
        parse_bytes(s, p) == Ok::<(Seq<u8>, int), DecoderError>((b, p + encode_bytes(b).len())),
        is_digit(s[p]),
{
    let d = decimal(b.len());
    lemma_decimal(b.len());
    assert(encode_bytes(b) == d + (seq![58u8] + b));
    lemma_holds_split(s, p, d, seq![58u8] + b);
    lemma_holds_split(s, p + d.len(), seq![58u8], b);
    lemma_holds_index(s, p + d.len(), seq![58u8], 0);
    assert(int_text(b.len() as int) == d);
    lemma_parse_int_text(s, p, b.len() as int);
    lemma_holds_index(s, p, d, 0);
    let q = p + d.len();
    assert(s.subrange(q + 1, q + 1 + b.len()) == b);
}

proof fn lemma_encode_items_front(items: Seq<Value>)
    requires
        items.len() > 0,
    ensures
        encode_items(items) == encode_value(items[0]) + encode_items(items.drop_first()),
    decreases items.len(),
{
    if items.len() == 1 {
        assert(items.drop_last() =~= Seq::<Value>::empty());
        assert(items.drop_first() =~= Seq::<Value>::empty());
        assert(encode_items(items) =~= encode_value(items[0]) + encode_items(items.drop_first()));
    } else {
        lemma_encode_items_front(items.drop_last());
        assert(items.drop_last().drop_first() =~= items.drop_first().drop_last());
        assert(items.drop_first().last() == items.last());
        assert(items.drop_last()[0] == items[0]);
        assert(encode_items(items) =~= encode_value(items[0]) + encode_items(items.drop_first()));
    }
}

proof fn lemma_encode_entries_front(entries: Seq<(Seq<u8>, Value)>)
    requires
        entries.len() > 0,
    ensures
        encode_entries(entries) == encode_bytes(entries[0].0) + encode_value(entries[0].1)
            + encode_entries(entries.drop_first()),
    decreases entries.len(),
{
    if entries.len() == 1 {
        assert(entries.drop_last() =~= Seq::<(Seq<u8>, Value)>::empty());
        assert(entries.drop_first() =~= Seq::<(Seq<u8>, Value)>::empty());
        assert(encode_entries(entries) =~= encode_bytes(entries[0].0) + encode_value(entries[0].1)
            + encode_entries(entries.drop_first()));
    } else {
        lemma_encode_entries_front(entries.drop_last());
        assert(entries.drop_last().drop_first() =~= entries.drop_first().drop_last());
        assert(entries.drop_first().last() == entries.last());
        assert(entries.drop_last()[0] == entries[0]);
        assert(encode_entries(entries) =~= encode_bytes(entries[0].0) + encode_value(entries[0].1)
            + encode_entries(entries.drop_first()));
    }
}

/// The first byte of an encoding opens a value.
proof fn lemma_encode_first_byte(v: Value)
    ensures
        encode_value(v).len() >= 2,
        encode_value(v)[0] != 101,
        encode_value(v)[0] == 105 || is_digit(encode_value(v)[0]) || encode_value(v)[0] == 108
            || encode_value(v)[0] == 100,
{
    match v {
        Value::Bytes(b) => {
            lemma_decimal(b.len());
            assert(encode_value(v)[0] == decimal(b.len())[0]);
        },
        Value::Integer(n) => {
            lemma_decimal(if n < 0 { (-n) as nat } else { n as nat });
        },
        _ => {},
    }
}

/// Reading an encoded value at `p` gives the value and the position after its encoding.
pub proof fn lemma_parse_encoded(v: Value, s: Seq<u8>, p: int)
    requires
        value_wf(v),
        holds_at(s, p, encode_value(v)),
    ensures
        parse_value(s, p) == Ok::<(Value, int), DecoderError>((v, p + encode_value(v).len())),
    decreases v,
{
    let e = encode_value(v);
    lemma_holds_index(s, p, e, 0);
    match v {
        Value::Bytes(b) => {
            lemma_parse_bytes_encoded(s, p, b);
        },
        Value::Integer(n) => {
            let t = int_text(n);
            assert(e == seq![105u8] + (t + seq![101u8]));
            lemma_holds_split(s, p, seq![105u8], t + seq![101u8]);
            lemma_holds_split(s, p + 1, t, seq![101u8]);
            lemma_holds_index(s, p + 1 + t.len(), seq![101u8], 0);
            lemma_parse_int_text(s, p + 1, n);
        },
        Value::List(items) => {
            let body = encode_items(items);
            assert(e == seq![108u8] + (body + seq![101u8]));
            lemma_holds_split(s, p, seq![108u8], body + seq![101u8]);
            assert(decreases_to!(v => v->List_0));
            lemma_parse_items_encoded(items, s, p + 1);
        },
        Value::Dict(entries) => {
            let body = encode_entries(entries);
            assert(e == seq![100u8] + (body + seq![101u8]));
            lemma_holds_split(s, p, seq![100u8], body + seq![101u8]);
            assert(decreases_to!(v => v->Dict_0));
            assert(Seq::<(Seq<u8>, Value)>::empty() + entries =~= entries);
            lemma_parse_entries_encoded(entries, seq![], s, p + 1);
        },
    }
}

proof fn lemma_parse_items_encoded(items: Seq<Value>, s: Seq<u8>, p: int)
    requires
        forall|i: int| 0 <= i < items.len() ==> value_wf(#[trigger] items[i]),
        holds_at(s, p, encode_items(items) + seq![101u8]),
    ensures
        parse_items(s, p) == Ok::<(Seq<Value>, int), DecoderError>(
            (items, p + encode_items(items).len() + 1),
        ),
    decreases items,
{
    if items.len() == 0 {
        lemma_holds_index(s, p, encode_items(items) + seq![101u8], 0);
        assert(items =~= Seq::<Value>::empty());
    } else {
        let first = encode_value(items[0]);
        let rest = encode_items(items.drop_first());
        lemma_encode_items_front(items);
        assert(encode_items(items) + seq![101u8] == first + (rest + seq![101u8]));
        lemma_holds_split(s, p, first, rest + seq![101u8]);
        lemma_encode_first_byte(items[0]);
        lemma_holds_index(s, p, first, 0);
        assert(decreases_to!(items => items[0]));
        lemma_parse_encoded(items[0], s, p);
        let q = p + first.len();
        assert forall|i: int| 0 <= i < items.drop_first().len() implies value_wf(
            #[trigger] items.drop_first()[i],
        ) by {
            assert(items.drop_first()[i] == items[i + 1]);
        }
        assert(decreases_to!(items => items.drop_first()));
        lemma_parse_items_encoded(items.drop_first(), s, q);
        assert(seq![items[0]] + items.drop_first() =~= items);
    }
}

proof fn lemma_parse_entries_encoded(
    rest: Seq<(Seq<u8>, Value)>,
    acc: Seq<(Seq<u8>, Value)>,
    s: Seq<u8>,
    p: int,
)
    requires
        keys_sorted(acc + rest),
        forall|i: int|
            0 <= i < rest.len() ==> (#[trigger] rest[i]).0.len() <= i64::MAX && value_wf(rest[i].1),
        holds_at(s, p, encode_entries(rest) + seq![101u8]),
    ensures
        parse_entries(s, p, acc) == Ok::<(Seq<(Seq<u8>, Value)>, int), DecoderError>(
            (acc + rest, p + encode_entries(rest).len() + 1),
        ),
    decreases rest,
{
    if rest.len() == 0 {
        lemma_holds_index(s, p, encode_entries(rest) + seq![101u8], 0);
        assert(acc + rest =~= acc);
    } else {
        let (k, v) = rest[0];
        let kb = encode_bytes(k);
        let vb = encode_value(v);
        let tail = encode_entries(rest.drop_first());
        lemma_encode_entries_front(rest);
        assert(encode_entries(rest) + seq![101u8] == kb + (vb + (tail + seq![101u8])));
        lemma_holds_split(s, p, kb, vb + (tail + seq![101u8]));
        lemma_holds_split(s, p + kb.len(), vb, tail + seq![101u8]);
        lemma_parse_bytes_encoded(s, p, k);
        let q = p + kb.len();
        assert(decreases_to!(rest => rest[0]));
        assert(decreases_to!(rest[0] => rest[0].1));
        lemma_parse_encoded(v, s, q);
        lemma_encode_first_byte(v);
        let r = q + vb.len();
        assert forall|j: int| 0 <= j < acc.len() implies key_less(#[trigger] acc[j].0, k) by {
            assert((acc + rest)[j] == acc[j]);
            assert((acc + rest)[acc.len() as int] == rest[0]);
        }
        lemma_dict_insert_last(acc, k, v);
        let acc2 = acc.push((k, v));
        assert(acc2 + rest.drop_first() =~= acc + rest);
        assert forall|i: int|
            0 <= i < rest.drop_first().len() implies (#[trigger] rest.drop_first()[i]).0.len()
            <= i64::MAX && value_wf(rest.drop_first()[i].1) by {
            assert(rest.drop_first()[i] == rest[i + 1]);
        }
        assert(decreases_to!(rest => rest.drop_first()));
        lemma_parse_entries_encoded(rest.drop_first(), acc2, s, r);
    }
}

/// Decoding the encoding of a value whose dictionaries have strictly ascending keys gives
/// the value back, and consumes exactly its encoding, whatever bytes follow.
pub proof fn lemma_decode_encode(v: Value, rest: Seq<u8>)
    requires
        value_wf(v),
    ensures
        parse_value(encode_value(v) + rest, 0) == Ok::<(Value, int), DecoderError>(
            (v, encode_value(v).len() as int),
        ),
        decode_spec(encode_value(v) + rest) == Ok::<Value, DecoderError>(v),
{
    let s = encode_value(v) + rest;
    assert(s.subrange(0, encode_value(v).len() as int) =~= encode_value(v));
    lemma_parse_encoded(v, s, 0);
}

// ---------------------------------------------------------------------------
// Encoding what was decoded.
// ---------------------------------------------------------------------------

/// Last key of a dictionary built so far.
pub open spec fn last_key(acc: Seq<(Seq<u8>, Value)>) -> Option<Seq<u8>> {
    if acc.len() == 0 {
        None
    } else {
        Some(acc.last().0)
    }
}

/// Whether the value at `pos` is written canonically: no integer carries a `+` sign and
/// the keys of every dictionary appear in strictly ascending order. (Leading zeros and
/// `-0` are refused by the decoder itself.)
pub open spec fn canonical_value(s: Seq<u8>, pos: int) -> bool
    decreases s.len() - pos, 1int,
{
    if pos < 0 || pos >= s.len() {
        true
    } else if s[pos] == 105 {
        !(pos + 1 < s.len() && s[pos + 1] == 43)
    } else if s[pos] == 108 {
        canonical_items(s, pos + 1)
    } else if s[pos] == 100 {
        canonical_entries(s, pos + 1, None)
    } else {
        true
    }
}

/// Whether the list items from `pos` on are written canonically.
pub open spec fn canonical_items(s: Seq<u8>, pos: int) -> bool
    decreases s.len() - pos, 2int,
{
    if pos < 0 || pos >= s.len() || s[pos] == 101 {
        true
    } else {
        match parse_value(s, pos) {
            Ok((_, q)) => if !advanced(s, pos, q) {
                true
            } else {
                canonical_value(s, pos) && canonical_items(s, q)
            },
            Err(_) => true,
        }
    }
}

/// Whether the dictionary entries from `pos` on are written canonically, `last` being the
/// key read just before.
pub open spec fn canonical_entries(s: Seq<u8>, pos: int, last: Option<Seq<u8>>) -> bool
    decreases s.len() - pos, 2int,
{
    if pos < 0 || pos >= s.len() || s[pos] == 101 || !is_digit(s[pos]) {
        true
    } else {
        match parse_bytes(s, pos) {
            Ok((k, q)) => if !advanced(s, pos, q) {
                true
            } else {
                (last is None || key_less(last->0, k)) && match parse_value(s, q) {
                    Ok((_, r)) => if !advanced(s, q, r) {
                        true
                    } else {
                        canonical_value(s, q) && canonical_entries(s, r, Some(k))
                    },
                    Err(_) => true,
                }
            },
            Err(_) => true,
        }
    }
}

proof fn lemma_holds_join(s: Seq<u8>, p: int, a: Seq<u8>, b: Seq<u8>)
    requires
        holds_at(s, p, a),
        holds_at(s, p + a.len(), b),
    ensures
        holds_at(s, p, a + b),
{
    assert forall|i: int| 0 <= i < a.len() + b.len() implies s.subrange(p, p + a.len() + b.len())[i]
        == (a + b)[i] by {
        if i < a.len() {
            lemma_holds_index(s, p, a, i);
        } else {
            lemma_holds_index(s, p + a.len(), b, i - a.len());
        }
    }
    assert(s.subrange(p, p + a.len() + b.len()) =~= a + b);
}

proof fn lemma_digits_end_le(s: Seq<u8>, p: int)
    requires
        0 <= p <= s.len(),
    ensures
        digits_end(s, p) <= s.len(),
    decreases s.len() - p,
{
    if p < s.len() && is_digit(s[p]) {
        lemma_digits_end_le(s, p + 1);
    }
}

proof fn lemma_digits_run(s: Seq<u8>, p: int, i: int)
    requires
        0 <= p <= i < digits_end(s, p),
    ensures
        i < s.len(),
        is_digit(s[i]),
    decreases s.len() - p,
{
    if 0 <= p < s.len() && is_digit(s[p]) {
        if i > p {
            lemma_digits_run(s, p + 1, i);
        }
    }
}

proof fn lemma_decimal_of_digits(s: Seq<u8>, start: int, end: int)
    requires
        0 <= start < end <= s.len(),
        forall|i: int| start <= i < end ==> is_digit(#[trigger] s[i]),
        s[start] != 48,
    ensures
        decimal(digits_value(s, start, end)) == s.subrange(start, end),
        digits_value(s, start, end) >= 1,
    decreases end - start,
{
    let m = digits_value(s, start, end);
    if end == start + 1 {
        assert(digits_value(s, start, start) == 0);
        assert(decimal(m) =~= s.subrange(start, end));
    } else {
        lemma_decimal_of_digits(s, start, end - 1);
        let m0 = digits_value(s, start, end - 1);
        let d = (s[end - 1] - 48) as nat;
        assert(m == m0 * 10 + d);
        assert(m / 10 == m0 && m % 10 == d);
        assert(decimal(m) == decimal(m0).push(digit_byte(d)));
        assert(decimal(m) =~= s.subrange(start, end));
    }
}

/// Integer text read without a `+` sign is the canonical text of its value.
proof fn lemma_int_text_read(s: Seq<u8>, a: int)
    requires
        parse_int(s, a) is Ok,
        s[a] != 43,
    ensures
        holds_at(s, a, int_text(parse_int(s, a)->Ok_0.0)),
        parse_int(s, a)->Ok_0.1 == a + int_text(parse_int(s, a)->Ok_0.0).len(),
{
    let n = parse_int(s, a)->Ok_0.0;
    let q = parse_int(s, a)->Ok_0.1;
    let negative = s[a] == 45;
    let start = if negative {
        a + 1
    } else {
        a
    };
    if s[start] == 48 {
        assert(!negative);
        assert(n == 0 && q == a + 1);
        assert(int_text(0) == seq![48u8]);
        assert(s.subrange(a, a + 1) =~= seq![48u8]);
    } else {
        let end = digits_end(s, start);
        lemma_digits_end_ge(s, start + 1);
        lemma_digits_end_le(s, start);
        assert(end == digits_end(s, start + 1));
        assert forall|i: int| start <= i < end implies is_digit(#[trigger] s[i]) by {
            lemma_digits_run(s, start, i);
        }
        lemma_decimal_of_digits(s, start, end);
        let m = digits_value(s, start, end);
        if negative {
            assert(n == -m);
            assert(int_text(n) == seq![45u8] + decimal(m));
            assert(s.subrange(a, a + 1) =~= seq![45u8]);
            lemma_holds_join(s, a, seq![45u8], decimal(m));
        } else {
            assert(n == m);
        }
    }
}

proof fn lemma_bytes_read(s: Seq<u8>, p: int)
    requires
        parse_bytes(s, p) is Ok,
        0 <= p < s.len(),
        is_digit(s[p]),
    ensures
        holds_at(s, p, encode_bytes(parse_bytes(s, p)->Ok_0.0)),
        parse_bytes(s, p)->Ok_0.1 == p + encode_bytes(parse_bytes(s, p)->Ok_0.0).len(),
{
    let b = parse_bytes(s, p)->Ok_0.0;
    let n = parse_int(s, p)->Ok_0.0;
    let q = parse_int(s, p)->Ok_0.1;
    lemma_int_text_read(s, p);
    assert(n >= 0);
    assert(int_text(n) == decimal(n as nat));
    assert(b.len() == n);
    assert(s.subrange(q, q + 1) =~= seq![58u8]);
    lemma_holds_join(s, p, decimal(n as nat), seq![58u8]);
    assert(holds_at(s, q + 1, b));
    lemma_holds_join(s, p, decimal(n as nat) + seq![58u8], b);
}

/// A canonically written value is read back as a value whose encoding is exactly the
/// bytes read.
pub proof fn lemma_read_canonical(s: Seq<u8>, p: int)
    requires
        parse_value(s, p) is Ok,
        canonical_value(s, p),
    ensures
        holds_at(s, p, encode_value(parse_value(s, p)->Ok_0.0)),
        parse_value(s, p)->Ok_0.1 == p + encode_value(parse_value(s, p)->Ok_0.0).len(),
    decreases s.len() - p, 1int,
{
    let v = parse_value(s, p)->Ok_0.0;
    let q = parse_value(s, p)->Ok_0.1;
    if s[p] == 105 {
        lemma_int_text_read(s, p + 1);
        let n = parse_int(s, p + 1)->Ok_0.0;
        let q0 = parse_int(s, p + 1)->Ok_0.1;
        assert(s.subrange(p, p + 1) =~= seq![105u8]);
        assert(s.subrange(q0, q0 + 1) =~= seq![101u8]);
        lemma_holds_join(s, p, seq![105u8], int_text(n));
        lemma_holds_join(s, p, seq![105u8] + int_text(n), seq![101u8]);
    } else if is_digit(s[p]) {
        lemma_bytes_read(s, p);
    } else if s[p] == 108 {
        lemma_read_canonical_items(s, p + 1);
        let items = parse_items(s, p + 1)->Ok_0.0;
        assert(s.subrange(p, p + 1) =~= seq![108u8]);
        lemma_holds_join(s, p, seq![108u8], encode_items(items) + seq![101u8]);
        assert(seq![108u8] + (encode_items(items) + seq![101u8]) == encode_value(v));
    } else {
        assert(s[p] == 100);
        lemma_read_canonical_entries(s, p + 1, seq![]);
        let entries = parse_entries(s, p + 1, seq![])->Ok_0.0;
        assert(entries.subrange(0, entries.len() as int) =~= entries);
        assert(s.subrange(p, p + 1) =~= seq![100u8]);
        lemma_holds_join(s, p, seq![100u8], encode_entries(entries) + seq![101u8]);
        assert(seq![100u8] + (encode_entries(entries) + seq![101u8]) == encode_value(v));
    }
}

proof fn lemma_read_canonical_items(s: Seq<u8>, p: int)
    requires
        parse_items(s, p) is Ok,
        canonical_items(s, p),
    ensures
        holds_at(s, p, encode_items(parse_items(s, p)->Ok_0.0) + seq![101u8]),
        parse_items(s, p)->Ok_0.1 == p + encode_items(parse_items(s, p)->Ok_0.0).len() + 1,
    decreases s.len() - p, 2int,
{
    let items = parse_items(s, p)->Ok_0.0;
    if s[p] == 101 {
        assert(items =~= Seq::<Value>::empty());
        assert(encode_items(items) + seq![101u8] =~= seq![101u8]);
        assert(s.subrange(p, p + 1) =~= seq![101u8]);
    } else {
        let v = parse_value(s, p)->Ok_0.0;
        let q = parse_value(s, p)->Ok_0.1;
        lemma_read_canonical(s, p);
        lemma_read_canonical_items(s, q);
        let rest = parse_items(s, q)->Ok_0.0;
        assert(items == seq![v] + rest);
        lemma_encode_items_front(items);
        assert(items[0] == v);
        assert(items.drop_first() =~= rest);
        lemma_holds_join(s, p, encode_value(v), encode_items(rest) + seq![101u8]);
        assert(encode_value(v) + (encode_items(rest) + seq![101u8]) == encode_items(items) + seq![
            101u8,
        ]);
    }
}

proof fn lemma_read_canonical_entries(s: Seq<u8>, p: int, acc: Seq<(Seq<u8>, Value)>)
    requires
        parse_entries(s, p, acc) is Ok,
        canonical_entries(s, p, last_key(acc)),
        keys_sorted(acc),
    ensures
        ({
            let res = parse_entries(s, p, acc)->Ok_0.0;
            let rest = res.subrange(acc.len() as int, res.len() as int);
            &&& acc.len() <= res.len()
            &&& res.subrange(0, acc.len() as int) == acc
            &&& holds_at(s, p, encode_entries(rest) + seq![101u8])
            &&& parse_entries(s, p, acc)->Ok_0.1 == p + encode_entries(rest).len() + 1
        }),
    decreases s.len() - p, 2int,
{
    let res = parse_entries(s, p, acc)->Ok_0.0;
    if s[p] == 101 {
        assert(res == acc);
        assert(res.subrange(0, acc.len() as int) =~= acc);
        let rest = res.subrange(acc.len() as int, res.len() as int);
        assert(rest =~= Seq::<(Seq<u8>, Value)>::empty());
        assert(encode_entries(rest) + seq![101u8] =~= seq![101u8]);
        assert(s.subrange(p, p + 1) =~= seq![101u8]);
    } else {
        let k = parse_bytes(s, p)->Ok_0.0;
        let q = parse_bytes(s, p)->Ok_0.1;
        let v = parse_value(s, q)->Ok_0.0;
        let r = parse_value(s, q)->Ok_0.1;
        lemma_bytes_read(s, p);
        lemma_read_canonical(s, q);
        assert forall|j: int| 0 <= j < acc.len() implies key_less(#[trigger] acc[j].0, k) by {
            if j < acc.len() - 1 {
                assert(key_less(acc[j].0, acc[acc.len() - 1].0));
                lemma_key_less_transitive(acc[j].0, acc.last().0, k);
            }
        }
        lemma_dict_insert_last(acc, k, v);
        let acc2 = acc.push((k, v));
        assert(keys_sorted(acc2)) by {
            assert forall|a: int, b: int| 0 <= a < b < acc2.len() implies key_less(
                #[trigger] acc2[a].0,
                #[trigger] acc2[b].0,
            ) by {
                if b < acc.len() {
                    assert(acc2[a] == acc[a] && acc2[b] == acc[b]);
                } else {
                    assert(acc2[a] == acc[a]);
                }
            }
        }
        assert(last_key(acc2) == Some(k));
        lemma_read_canonical_entries(s, r, acc2);
        let rest2 = res.subrange(acc2.len() as int, res.len() as int);
        let rest = res.subrange(acc.len() as int, res.len() as int);
        assert(res.subrange(0, acc2.len() as int) == acc2);
        assert(res[acc.len() as int] == res.subrange(0, acc2.len() as int)[acc.len() as int]);
        assert(res.subrange(0, acc.len() as int) =~= res.subrange(0, acc2.len() as int).subrange(
            0,
            acc.len() as int,
        ));
        assert(acc2.subrange(0, acc.len() as int) =~= acc);
        assert(rest.len() > 0);
        assert(rest[0] == (k, v));
        assert(rest.drop_first() =~= rest2);
        lemma_encode_entries_front(rest);
        lemma_holds_join(s, p, encode_bytes(k), encode_value(v));
        lemma_holds_join(s, p, encode_bytes(k) + encode_value(v), encode_entries(rest2) + seq![101u8]);
        assert(encode_bytes(k) + encode_value(v) + (encode_entries(rest2) + seq![101u8])
            == encode_entries(rest) + seq![101u8]);
    }
}

/// When the value at the start of `s` is written canonically, its decoding re-encodes to a
/// prefix of `s`: exactly the bytes that were read.
pub proof fn lemma_decoded_is_prefix(s: Seq<u8>)
    requires
        decode_spec(s) is Ok,
        canonical_value(s, 0),
    ensures
        encode_value(decode_spec(s)->Ok_0).len() <= s.len(),
        s.subrange(0, encode_value(decode_spec(s)->Ok_0).len() as int) == encode_value(
            decode_spec(s)->Ok_0,
        ),
{
    lemma_read_canonical(s, 0);
}

} // verus!
